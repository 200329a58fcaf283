use bendy_tracer::geometry::{Aabb, Axis, Clip, Extent3, Point3, Ray};

fn cube(lo: i32, hi: i32) -> Aabb {
    Aabb::new(Point3::new(lo, lo, lo), Point3::new(hi, hi, hi))
}

fn ray(o: (i32, i32, i32), d: (i32, i32, i32)) -> Ray {
    Ray::new(Point3::new(o.0, o.1, o.2), Point3::new(d.0, d.1, d.2))
}

#[test]
fn size_and_area_of_a_box() {
    let a = Aabb::new(Point3::new(0, 0, 0), Point3::new(2, 3, 4));
    assert_eq!(a.size(), Extent3 { x: 2, y: 3, z: 4 });
    assert_eq!(a.area(), 24);
}

#[test]
fn area_of_the_largest_box_is_exact() {
    let a = Aabb::new(
        Point3::new(i32::MIN, i32::MIN, i32::MIN),
        Point3::new(i32::MAX, i32::MAX, i32::MAX),
    );
    let edge: u128 = (1u128 << 32) - 1;
    assert_eq!(a.area(), edge * edge * edge);
}

#[test]
fn union_and_intersection_of_two_boxes() {
    let a = Aabb::new(Point3::new(0, 0, 0), Point3::new(2, 3, 4));
    let b = Aabb::new(Point3::new(1, 1, 1), Point3::new(3, 2, 5));
    let u = a.union(&b);
    assert_eq!(u.min, Point3::new(0, 0, 0));
    assert_eq!(u.max, Point3::new(3, 3, 5));
    let i = a.intersection(&b);
    assert_eq!(i.min, Point3::new(1, 1, 1));
    assert_eq!(i.max, Point3::new(2, 2, 4));
    assert_eq!(i.area(), 3);
    assert_eq!(a.overlap(&b), 3);
    assert_eq!(b.overlap(&a), 3);
    assert!(a.overlaps(&b));
}

#[test]
fn union_reaches_as_far_as_both() {
    let boxes = [
        Aabb::new(Point3::new(-7, 2, 0), Point3::new(-1, 9, 4)),
        Aabb::new(Point3::new(0, -3, 1), Point3::new(5, 0, 2)),
        Aabb::new(Point3::new(-2, -2, -2), Point3::new(2, 2, 2)),
    ];
    for a in boxes.iter() {
        for b in boxes.iter() {
            let u = a.union(b);
            assert!(u.min.x <= a.min.x && u.min.y <= a.min.y && u.min.z <= a.min.z);
            assert!(u.min.x <= b.min.x && u.min.y <= b.min.y && u.min.z <= b.min.z);
            assert!(u.max.x >= a.max.x && u.max.y >= a.max.y && u.max.z >= a.max.z);
            assert!(u.max.x >= b.max.x && u.max.y >= b.max.y && u.max.z >= b.max.z);
            assert_eq!(a.overlap(b), b.overlap(a));
        }
        assert_eq!(a.overlap(a), a.area());
    }
}

#[test]
fn boxes_apart_overlap_by_nothing() {
    let a = Aabb::new(Point3::new(0, 0, 0), Point3::new(2, 3, 4));
    let c = Aabb::new(Point3::new(5, 5, 5), Point3::new(6, 6, 6));
    let i = a.intersection(&c);
    assert_eq!(i.min, Point3::new(5, 5, 5));
    assert_eq!(i.max, Point3::new(2, 3, 4));
    assert_eq!(i.area(), 0);
    assert_eq!(a.overlap(&c), 0);
    assert!(!a.overlaps(&c));
}

#[test]
fn boxes_apart_along_two_axes_overlap_by_nothing() {
    // Two inverted edges must not multiply to a volume.
    let a = Aabb::new(Point3::new(0, 0, 0), Point3::new(2, 2, 2));
    let b = Aabb::new(Point3::new(5, 5, 0), Point3::new(7, 7, 2));
    assert_eq!(a.overlap(&b), 0);
}

#[test]
fn boxes_that_touch_overlap_by_nothing() {
    let a = cube(0, 2);
    let b = Aabb::new(Point3::new(2, 0, 0), Point3::new(4, 2, 2));
    assert_eq!(a.overlap(&b), 0);
    assert!(!a.overlaps(&b));
}

#[test]
fn ray_along_an_axis_hits_within_the_clip_interval() {
    let b = cube(0, 10);
    let r = ray((-5, 5, 5), (1, 0, 0));
    assert!(b.hit(&r, &Clip { min: 0, max: 100 }));
    assert!(b.hit(&r, &Clip { min: 0, max: 6 }));
    assert!(b.hit(&r, &Clip { min: 14, max: 100 }));
}

#[test]
fn clip_interval_that_ends_at_the_entry_misses() {
    let b = cube(0, 10);
    let r = ray((-5, 5, 5), (1, 0, 0));
    assert!(!b.hit(&r, &Clip { min: 0, max: 5 }));
    assert!(!b.hit(&r, &Clip { min: 15, max: 100 }));
    assert!(!b.hit(&r, &Clip { min: 7, max: 7 }));
    assert!(!b.hit(&r, &Clip { min: 9, max: 3 }));
}

#[test]
fn ray_that_points_away_misses() {
    let b = cube(0, 10);
    let r = ray((-5, 5, 5), (-1, 0, 0));
    assert!(!b.hit(&r, &Clip { min: 0, max: 100 }));
    assert!(b.hit(&r, &Clip { min: -100, max: 0 }));
}

#[test]
fn ray_beside_the_box_misses() {
    let b = cube(0, 10);
    assert!(!b.hit(&ray((-5, 20, 5), (1, 0, 0)), &Clip { min: 0, max: 100 }));
    assert!(!b.hit(&ray((-5, 5, -1), (1, 0, 0)), &Clip { min: 0, max: 100 }));
}

#[test]
fn ray_in_a_face_of_the_box_hits() {
    let b = cube(0, 10);
    assert!(b.hit(&ray((-5, 10, 5), (1, 0, 0)), &Clip { min: 0, max: 100 }));
    assert!(b.hit(&ray((-5, 0, 0), (1, 0, 0)), &Clip { min: 0, max: 100 }));
}

#[test]
fn ray_that_stands_still_hits_the_box_it_is_in() {
    let b = cube(0, 10);
    assert!(b.hit(&ray((5, 5, 5), (0, 0, 0)), &Clip { min: 0, max: 1 }));
    assert!(!b.hit(&ray((5, 5, 11), (0, 0, 0)), &Clip { min: 0, max: 1 }));
}

#[test]
fn slanted_ray_enters_by_the_last_slab() {
    let b = cube(0, 10);
    let r = ray((0, 0, -10), (1, 1, 2));
    assert!(b.hit(&r, &Clip { min: 0, max: 100 }));
    assert!(b.hit(&r, &Clip { min: 0, max: 6 }));
    assert!(!b.hit(&r, &Clip { min: 0, max: 5 }));
    assert!(!b.hit(&r, &Clip { min: 10, max: 100 }));
    assert!(b.hit(&r, &Clip { min: 9, max: 100 }));
}

#[test]
fn entry_between_two_lattice_steps_is_compared_exactly() {
    // The ray enters at t = 7 / 3.
    let b = cube(0, 10);
    let r = ray((-7, 5, 5), (3, 0, 0));
    assert!(!b.hit(&r, &Clip { min: 0, max: 2 }));
    assert!(b.hit(&r, &Clip { min: 0, max: 3 }));
    // It leaves at t = 17 / 3.
    assert!(b.hit(&r, &Clip { min: 5, max: 9 }));
    assert!(!b.hit(&r, &Clip { min: 6, max: 9 }));
}

#[test]
fn flat_box_is_never_hit() {
    let flat = Aabb { min: Point3::new(0, 0, 0), max: Point3::new(10, 10, 0) };
    assert!(!flat.hit(&ray((5, 5, -5), (0, 0, 1)), &Clip { min: 0, max: 100 }));
}

#[test]
fn ray_that_misses_the_corner() {
    let b = cube(0, 10);
    // Leaves the x slab at t = 10, enters the y slab at t = 10.
    let r = ray((0, -10, 5), (1, 1, 0));
    assert!(!b.hit(&r, &Clip { min: 0, max: 100 }));
    let r = ray((1, -10, 5), (1, 1, 0));
    assert!(!b.hit(&r, &Clip { min: 0, max: 100 }));
    let r = ray((-1, -10, 5), (1, 1, 0));
    assert!(b.hit(&r, &Clip { min: 0, max: 100 }));
}

#[test]
fn hit_of_extreme_coordinates_does_not_overflow() {
    let b = Aabb::new(
        Point3::new(i32::MIN, i32::MIN, i32::MIN),
        Point3::new(i32::MAX, i32::MAX, i32::MAX),
    );
    let r = ray((i32::MAX, i32::MIN, 0), (i32::MIN, i32::MAX, 1));
    assert!(b.hit(&r, &Clip { min: i32::MIN, max: i32::MAX }));
    assert!(!b.hit(&r, &Clip { min: 3, max: i32::MAX }));
}

#[test]
fn a_hit_box_lies_in_a_hit_box() {
    let inner = cube(2, 4);
    let outer = cube(0, 10);
    let clip = Clip { min: 0, max: 50 };
    for ox in -3..13 {
        for dy in -2..3 {
            let r = ray((ox, -6, 3), (1, 3 + dy, 0));
            if inner.hit(&r, &clip) {
                assert!(outer.hit(&r, &clip));
                assert!(outer.hit(&r, &Clip { min: -1, max: 51 }));
            }
        }
    }
}

#[test]
fn place_of_a_point_in_a_box() {
    let b = cube(0, 4);
    assert_eq!(b.map_into(Point3::new(1, 2, 4)), (16384, 32768, 65536));
    assert_eq!(b.map_into(Point3::new(-1, 5, 3)), (0, 65536, 49152));
    let c = Aabb::new(Point3::new(0, 0, 0), Point3::new(3, 3, 3));
    assert_eq!(c.map_into(Point3::new(1, 2, 0)), (21845, 43690, 0));
}

#[test]
fn point_of_a_ray() {
    let r = ray((1, 2, 3), (2, 0, -1));
    assert_eq!(r.at(10), Extent3 { x: 21, y: 2, z: -7 });
    assert_eq!(r.at(0), Extent3 { x: 1, y: 2, z: 3 });
    let far = ray((i32::MAX, 0, 0), (i32::MAX, i32::MIN, 0));
    assert_eq!(
        far.at(i32::MAX),
        Extent3 {
            x: i32::MAX as i64 + (i32::MAX as i64) * (i32::MAX as i64),
            y: (i32::MAX as i64) * (i32::MIN as i64),
            z: 0
        }
    );
}

#[test]
fn axis_of_a_mask() {
    assert_eq!(Axis::from_mask(0b001), Axis::PosX);
    assert_eq!(Axis::from_mask(0b011), Axis::PosX);
    assert_eq!(Axis::from_mask(0b110), Axis::PosY);
    assert_eq!(Axis::from_mask(0b100), Axis::PosZ);
    assert_eq!(Axis::from_mask(0), Axis::PosZ);
}

#[test]
fn axis_as_a_step() {
    assert_eq!(Axis::PosX.as_vec(), Point3::new(1, 0, 0));
    assert_eq!(Axis::PosY.as_vec(), Point3::new(0, 1, 0));
    assert_eq!(Axis::PosZ.as_vec(), Point3::new(0, 0, 1));
    assert_eq!(Axis::NegX.as_vec(), Point3::new(-1, 0, 0));
    assert_eq!(Axis::NegY.as_vec(), Point3::new(0, -1, 0));
    assert_eq!(Axis::NegZ.as_vec(), Point3::new(0, 0, -1));
}

#[test]
fn axis_turned_round_by_a_mask() {
    let mut a = Axis::PosX;
    a.flip_with(0b001);
    assert_eq!(a, Axis::NegX);
    a.flip_with(0b110);
    assert_eq!(a, Axis::NegX);
    a.flip_with(0b111);
    assert_eq!(a, Axis::PosX);
    let mut z = Axis::NegZ;
    z.flip_with(0b100);
    assert_eq!(z, Axis::PosZ);
    let mut y = Axis::PosY;
    y.flip_with(0b101);
    assert_eq!(y, Axis::PosY);
    y.flip_with(0b010);
    assert_eq!(y, Axis::NegY);
}
