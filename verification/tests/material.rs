use bendy_tracer::buffer::Sample;
use bendy_tracer::material::{Material, MaterialRef, Materials, Surface};

#[test]
fn root_handle_is_zero() {
    assert_eq!(MaterialRef::root(), MaterialRef(0));
}

#[test]
fn added_materials_are_numbered_from_one() {
    let mut materials = Materials::with_root(7u32);
    let a = materials.add(11);
    let b = materials.add(13);
    assert_eq!(a, MaterialRef(1));
    assert_eq!(b, MaterialRef(2));
    assert_eq!(a.to_index(), 0);
    assert_eq!(b.to_index(), 1);
    assert_eq!(*materials.get(MaterialRef::root()), 7);
    assert_eq!(*materials.get(a), 11);
    assert_eq!(*materials.get(b), 13);
    assert_eq!(*materials.root(), 7);
    assert_eq!(materials.len(), 2);
}

#[test]
fn new_table_has_a_dark_environment() {
    let materials = Materials::new();
    assert_eq!(
        *materials.root(),
        Material::Surface(Surface::Emissive { albedo: Sample::splat(0), intensity: 0 })
    );
    assert_eq!(materials.len(), 0);
    assert_eq!(*materials.get(MaterialRef::root()), *materials.root());
}
