use bendy_tracer::bvh::Bvh;
use bendy_tracer::geometry::{Aabb, Point3};
use bendy_tracer::object::{ObjectData, ObjectFlags, LIGHT_BIT, VISIBLE_BIT};
use rand::rngs::SmallRng;
use rand::SeedableRng;

fn object(shape: usize, flags: ObjectFlags) -> ObjectData {
    ObjectData { flags, tag: None, shape }
}

fn scene(lights: &[usize], n: usize) -> Bvh<ObjectData> {
    let mut bvh = Bvh::new();
    for i in 0..n {
        let flags = if lights.contains(&i) {
            ObjectFlags::visible().union(ObjectFlags::light())
        } else {
            ObjectFlags::visible()
        };
        let x = 10 * i as i32;
        bvh.insert(Aabb::new(Point3::new(x, 0, 0), Point3::new(x + 1, 1, 1)), object(i, flags));
    }
    bvh
}

#[test]
fn marks_are_bits() {
    assert_eq!(ObjectFlags::empty().bits(), 0);
    assert_eq!(ObjectFlags::light().bits(), 1);
    assert_eq!(ObjectFlags::visible().bits(), 2);
    assert_eq!(LIGHT_BIT, 1);
    assert_eq!(VISIBLE_BIT, 2);
    assert_eq!(ObjectFlags::default(), ObjectFlags::visible());
    assert_eq!(ObjectFlags::from_bits_truncate(0xff).bits(), 3);
    assert_eq!(ObjectFlags::from_bits_truncate(0xfd).bits(), 1);
}

#[test]
fn union_and_insert_set_marks() {
    let both = ObjectFlags::light().union(ObjectFlags::visible());
    assert_eq!(both.bits(), 3);
    assert!(both.contains(ObjectFlags::light()));
    assert!(both.contains(ObjectFlags::visible()));
    assert!(both.contains(both));
    assert!(both.contains(ObjectFlags::empty()));
    assert!(!ObjectFlags::visible().contains(ObjectFlags::light()));
    assert!(!ObjectFlags::visible().contains(both));
    let mut f = ObjectFlags::default();
    f.insert(ObjectFlags::light());
    assert_eq!(f, both);
    f.insert(ObjectFlags::light());
    assert_eq!(f, both);
}

#[test]
fn object_gives_its_marks_and_its_tag() {
    let o = ObjectData {
        flags: ObjectFlags::light(),
        tag: Some("lamp".to_string()),
        shape: 3,
    };
    assert_eq!(o.flags(), ObjectFlags::light());
    assert!(o.has_flags(ObjectFlags::light()));
    assert!(!o.has_flags(ObjectFlags::visible()));
    assert_eq!(o.tag(), Some(&"lamp".to_string()));
    assert_eq!(object(1, ObjectFlags::empty()).tag(), None);
}

#[test]
fn lights_are_the_marked_objects_in_the_order_of_a_walk() {
    let bvh = scene(&[0, 2, 3], 4);
    let walk: Vec<usize> = bvh.children().iter().map(|o| o.shape).collect();
    assert_eq!(walk, vec![3, 2, 1, 0]);
    let lights: Vec<usize> = bvh.lights().iter().map(|o| o.shape).collect();
    assert_eq!(lights, vec![3, 2, 0]);
}

#[test]
fn scene_without_a_light_has_none_to_pick() {
    let mut rng = SmallRng::seed_from_u64(1);
    assert!(scene(&[], 5).lights().is_empty());
    assert!(scene(&[], 5).pick_light(&mut rng).is_none());
    assert!(scene(&[], 0).pick_light(&mut rng).is_none());
}

#[test]
fn the_only_light_is_always_picked() {
    let mut rng = SmallRng::seed_from_u64(1);
    let bvh = scene(&[2], 5);
    for _ in 0..50 {
        let (k, light) = bvh.pick_light(&mut rng).unwrap();
        assert_eq!(k, 0);
        assert_eq!(light.shape, 2);
    }
}

#[test]
fn every_light_is_picked_about_as_often() {
    let mut rng = SmallRng::seed_from_u64(11);
    let bvh = scene(&[1, 4, 6, 7], 9);
    let lights: Vec<usize> = bvh.lights().iter().map(|o| o.shape).collect();
    assert_eq!(lights.len(), 4);
    let mut counts = [0u32; 4];
    let n = 20_000;
    for _ in 0..n {
        let (k, light) = bvh.pick_light(&mut rng).unwrap();
        assert!(k < 4);
        assert_eq!(light.shape, lights[k]);
        assert!(light.has_flags(ObjectFlags::light()));
        counts[k] += 1;
    }
    let sigma = (n as f64 * 0.25 * 0.75).sqrt();
    for c in counts.iter() {
        assert!((*c as f64 - 5_000.0).abs() < 5.0 * sigma, "{:?}", counts);
    }
}
