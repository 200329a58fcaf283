use bendy_tracer::bvh::{Bvh, BvhNode};
use bendy_tracer::geometry::{Aabb, Clip, Point3, Ray};

fn slab(x: i32) -> Aabb {
    Aabb::new(Point3::new(x, 0, 0), Point3::new(x + 1, 1, 1))
}

/// Height and number of leaves of a subtree; fails where a parent is out of
/// balance or records a wrong height or box.
fn checked(node: &BvhNode<u32>) -> (u32, usize) {
    match node {
        BvhNode::Leaf { .. } => (0, 1),
        BvhNode::Parent { aabb, height, left, right } => {
            let (hl, cl) = checked(left);
            let (hr, cr) = checked(right);
            assert!(hl.abs_diff(hr) <= 1, "out of balance: {} and {}", hl, hr);
            assert_eq!(*height, 1 + hl.max(hr));
            assert_eq!(*aabb, left.aabb().union(right.aabb()));
            (*height, cl + cr)
        }
    }
}

fn scrambled(n: u32) -> Vec<u32> {
    let mut state: u32 = 12345;
    let mut v: Vec<u32> = (0..n).collect();
    for i in (1..v.len()).rev() {
        state = state.wrapping_mul(1664525).wrapping_add(1013904223);
        let j = (state >> 8) as usize % (i + 1);
        v.swap(i, j);
    }
    v
}

#[test]
fn empty_hierarchy() {
    let bvh: Bvh<u32> = Bvh::new();
    assert_eq!(bvh.len(), 0);
    assert!(bvh.is_empty());
    assert_eq!(bvh.height(), 0);
    assert!(bvh.root().is_none());
    assert!(bvh.iter().next().is_none());
    assert!(bvh.children().is_empty());
}

#[test]
fn one_primitive_is_a_leaf() {
    let mut bvh = Bvh::new();
    bvh.insert(slab(3), 7u32);
    assert_eq!(bvh.len(), 1);
    assert!(!bvh.is_empty());
    assert_eq!(bvh.height(), 1);
    match bvh.root() {
        Some(BvhNode::Leaf { aabb, child }) => {
            assert_eq!(*aabb, slab(3));
            assert_eq!(*child, 7);
        }
        _ => panic!("expected a leaf"),
    }
}

#[test]
fn second_primitive_goes_to_the_right_of_the_first() {
    let mut bvh = Bvh::new();
    bvh.insert(slab(0), 0u32);
    bvh.insert(slab(10), 1u32);
    match bvh.root() {
        Some(BvhNode::Parent { aabb, height, left, right }) => {
            assert_eq!(*height, 1);
            assert_eq!(*aabb, Aabb::new(Point3::new(0, 0, 0), Point3::new(11, 1, 1)));
            assert!(matches!(**left, BvhNode::Leaf { child: 0, .. }));
            assert!(matches!(**right, BvhNode::Leaf { child: 1, .. }));
        }
        _ => panic!("expected a parent"),
    }
    assert_eq!(bvh.height(), 2);
}

#[test]
fn insertion_follows_the_larger_overlap() {
    let mut bvh = Bvh::new();
    bvh.insert(Aabb::new(Point3::new(0, 0, 0), Point3::new(4, 4, 4)), 0u32);
    bvh.insert(Aabb::new(Point3::new(10, 0, 0), Point3::new(14, 4, 4)), 1u32);
    // Overlaps the left box only.
    bvh.insert(Aabb::new(Point3::new(1, 1, 1), Point3::new(3, 3, 3)), 2u32);
    match bvh.root() {
        Some(BvhNode::Parent { left, right, height, .. }) => {
            assert_eq!(*height, 2);
            assert!(matches!(**right, BvhNode::Leaf { child: 1, .. }));
            match &**left {
                BvhNode::Parent { left: a, right: b, .. } => {
                    assert!(matches!(**a, BvhNode::Leaf { child: 0, .. }));
                    assert!(matches!(**b, BvhNode::Leaf { child: 2, .. }));
                }
                _ => panic!("expected a parent on the left"),
            }
        }
        _ => panic!("expected a parent"),
    }
}

#[test]
fn fourth_primitive_in_a_row_rotates_to_the_left() {
    let mut bvh = Bvh::new();
    for i in 0..4u32 {
        bvh.insert(slab(10 * i as i32), i);
    }
    assert_eq!(bvh.len(), 4);
    assert_eq!(bvh.height(), 3);
    match bvh.root() {
        Some(BvhNode::Parent { aabb, height, left, right }) => {
            assert_eq!(*height, 2);
            assert_eq!(*aabb, Aabb::new(Point3::new(0, 0, 0), Point3::new(31, 1, 1)));
            match (&**left, &**right) {
                (
                    BvhNode::Parent { left: a, right: b, aabb: ab, .. },
                    BvhNode::Parent { left: c, right: d, aabb: cd, .. },
                ) => {
                    assert!(matches!(**a, BvhNode::Leaf { child: 0, .. }));
                    assert!(matches!(**b, BvhNode::Leaf { child: 1, .. }));
                    assert!(matches!(**c, BvhNode::Leaf { child: 2, .. }));
                    assert!(matches!(**d, BvhNode::Leaf { child: 3, .. }));
                    assert_eq!(*ab, Aabb::new(Point3::new(0, 0, 0), Point3::new(11, 1, 1)));
                    assert_eq!(*cd, Aabb::new(Point3::new(20, 0, 0), Point3::new(31, 1, 1)));
                }
                _ => panic!("expected two parents"),
            }
        }
        _ => panic!("expected a parent"),
    }
}

#[test]
fn walk_goes_into_the_right_subtree_first_where_heights_are_equal() {
    let mut bvh = Bvh::new();
    for i in 0..4u32 {
        bvh.insert(slab(10 * i as i32), i);
    }
    let order: Vec<u32> = bvh.children().into_iter().copied().collect();
    assert_eq!(order, vec![3, 2, 1, 0]);
}

#[test]
fn walk_goes_into_the_lower_subtree_first() {
    let mut bvh = Bvh::new();
    for i in 0..3u32 {
        bvh.insert(slab(10 * i as i32), i);
    }
    // The root has the leaf 0 on the left and the parent of 1 and 2 on the right.
    let order: Vec<u32> = bvh.children().into_iter().copied().collect();
    assert_eq!(order, vec![0, 2, 1]);
    let mut it = bvh.iter();
    assert_eq!(it.next(), Some(&0));
    assert_eq!(it.next(), Some(&2));
    assert_eq!(it.next(), Some(&1));
    assert_eq!(it.next(), None);
    assert_eq!(it.next(), None);
}

#[test]
fn every_parent_is_balanced_after_every_insertion() {
    let mut bvh = Bvh::new();
    for (n, i) in scrambled(300).into_iter().enumerate() {
        let x = (i as i32) * 3;
        bvh.insert(Aabb::new(Point3::new(x, -(i as i32), 0), Point3::new(x + 2, 5, 1 + (i as i32 % 7))), i);
        let (height, count) = checked(bvh.root().unwrap());
        assert_eq!(count, n + 1);
        assert_eq!(bvh.len(), n + 1);
        assert_eq!(bvh.height(), height + 1);
    }
}

#[test]
fn primitives_in_ascending_order_stay_balanced() {
    let mut bvh = Bvh::new();
    for i in 0..200u32 {
        bvh.insert(slab(i as i32 * 2), i);
    }
    let (height, count) = checked(bvh.root().unwrap());
    assert_eq!(count, 200);
    assert!(height <= 11, "height {} is not logarithmic", height);
}

#[test]
fn primitives_that_all_overlap_stay_balanced() {
    let mut bvh = Bvh::new();
    for i in 0..100u32 {
        let d = i as i32;
        bvh.insert(Aabb::new(Point3::new(-d - 1, -d - 1, -d - 1), Point3::new(d + 1, d + 1, d + 1)), i);
    }
    let (_, count) = checked(bvh.root().unwrap());
    assert_eq!(count, 100);
}

#[test]
fn walk_meets_every_primitive_once() {
    let ids = scrambled(257);
    let mut bvh = Bvh::new();
    for &i in ids.iter() {
        bvh.insert(slab(i as i32 * 5), i);
    }
    let mut seen: Vec<u32> = bvh.children().into_iter().copied().collect();
    assert_eq!(seen.len(), bvh.len());
    seen.sort();
    let expected: Vec<u32> = (0..257).collect();
    assert_eq!(seen, expected);

    let mut it = bvh.iter();
    let mut count = 0;
    while let Some(_) = it.next() {
        count += 1;
    }
    assert_eq!(count, 257);
}

#[test]
fn equal_primitives_are_all_kept() {
    let mut bvh = Bvh::new();
    for _ in 0..5 {
        bvh.insert(slab(0), 9u32);
    }
    assert_eq!(bvh.len(), 5);
    let seen: Vec<u32> = bvh.children().into_iter().copied().collect();
    assert_eq!(seen, vec![9, 9, 9, 9, 9]);
    checked(bvh.root().unwrap());
}

#[test]
fn from_vec_inserts_in_order() {
    let objects: Vec<(Aabb, u32)> = (0..4u32).map(|i| (slab(10 * i as i32), i)).collect();
    let built = Bvh::from_vec(objects);
    let mut by_hand = Bvh::new();
    for i in 0..4u32 {
        by_hand.insert(slab(10 * i as i32), i);
    }
    assert_eq!(built.len(), 4);
    assert_eq!(built.height(), by_hand.height());
    let a: Vec<u32> = built.children().into_iter().copied().collect();
    let b: Vec<u32> = by_hand.children().into_iter().copied().collect();
    assert_eq!(a, b);
    assert_eq!(format!("{:?}", built.root()), format!("{:?}", by_hand.root()));
}

#[test]
fn from_vec_of_nothing_is_empty() {
    let built: Bvh<u32> = Bvh::from_vec(Vec::new());
    assert!(built.is_empty());
    assert_eq!(built.height(), 0);
}

#[test]
fn node_insert_returns_the_new_root() {
    let root = BvhNode::leaf(slab(0), 1u32);
    assert_eq!(root.height(), 0);
    assert_eq!(*root.aabb(), slab(0));
    let root = root.insert(slab(5), 2u32);
    assert_eq!(root.height(), 1);
    assert_eq!(*root.aabb(), Aabb::new(Point3::new(0, 0, 0), Point3::new(6, 1, 1)));
    let root = root.insert(slab(9), 3u32);
    assert_eq!(root.height(), 2);
    assert_eq!(checked(&root), (2, 3));
}

/// The least whole parameter in the clip interval at which the ray is
/// strictly inside the box.
fn primitive_hit(aabb: &Aabb, ray: &Ray, clip: &Clip) -> Option<i32> {
    let mut t = clip.min;
    while t <= clip.max {
        let p = ray.at(t);
        let inside = (aabb.min.x as i64) < p.x
            && p.x < aabb.max.x as i64
            && (aabb.min.y as i64) < p.y
            && p.y < aabb.max.y as i64
            && (aabb.min.z as i64) < p.z
            && p.z < aabb.max.z as i64;
        if inside {
            return Some(t);
        }
        t += 1;
    }
    None
}

fn nearest(bvh: &Bvh<(Aabb, u32)>, ray: &Ray, clip: &Clip) -> (Option<i32>, usize) {
    let mut query = bvh.hit(ray, clip);
    let mut tested = 0;
    while let Some(object) = query.next() {
        tested += 1;
        if let Some(t) = primitive_hit(&object.0, ray, &query.clip()) {
            assert!(query.accept(t));
        }
    }
    (query.best().map(|(_, t)| t), tested)
}

fn scene(n: u32) -> (Bvh<(Aabb, u32)>, Vec<Aabb>) {
    let mut state: u32 = 99;
    let mut next = move |m: u32| {
        state = state.wrapping_mul(1664525).wrapping_add(1013904223);
        ((state >> 10) % m) as i32
    };
    let mut boxes = Vec::new();
    let mut bvh = Bvh::new();
    for i in 0..n {
        // One box per cell of a grid, so that no two overlap.
        let cx = (i % 8) as i32 * 12;
        let cy = ((i / 8) % 8) as i32 * 12;
        let cz = (i / 64) as i32 * 12;
        let (ox, oy, oz) = (next(4), next(4), next(4));
        let (sx, sy, sz) = (3 + next(5), 3 + next(5), 3 + next(5));
        let aabb = Aabb::new(
            Point3::new(cx + ox, cy + oy, cz + oz),
            Point3::new(cx + ox + sx, cy + oy + sy, cz + oz + sz),
        );
        boxes.push(aabb);
    }
    for i in scrambled(n) {
        bvh.insert(boxes[i as usize], (boxes[i as usize], i));
    }
    (bvh, boxes)
}

#[test]
fn nearest_hit_agrees_with_a_scan_of_all_primitives() {
    let (bvh, boxes) = scene(128);
    let clip = Clip { min: 0, max: 150 };
    let mut state: u32 = 7;
    let mut next = move |m: u32| {
        state = state.wrapping_mul(1664525).wrapping_add(1013904223);
        ((state >> 10) % m) as i32
    };
    let mut hits = 0;
    let mut pruned = 0;
    for _ in 0..400 {
        let origin = Point3::new(next(120) - 10, next(120) - 10, -20 + next(10));
        let direction = Point3::new(next(5) - 2, next(5) - 2, 1 + next(2));
        let ray = Ray::new(origin, direction);
        let expected = boxes.iter().filter_map(|b| primitive_hit(b, &ray, &clip)).min();
        let (found, tested) = nearest(&bvh, &ray, &clip);
        assert_eq!(found, expected);
        if found.is_some() {
            hits += 1;
        }
        if tested < boxes.len() {
            pruned += 1;
        }
    }
    assert!(hits > 50, "only {} rays hit anything", hits);
    assert_eq!(pruned, 400);
}

#[test]
fn nearest_of_a_row_of_boxes() {
    let mut bvh = Bvh::new();
    let mut boxes = Vec::new();
    for i in scrambled(20) {
        let x = 10 * i as i32;
        let aabb = Aabb::new(Point3::new(x, -1, -1), Point3::new(x + 5, 1, 1));
        boxes.push(aabb);
        bvh.insert(aabb, (aabb, i));
    }
    let ray = Ray::new(Point3::new(-100, 0, 0), Point3::new(1, 0, 0));
    let clip = Clip { min: 0, max: 1000 };
    let mut query = bvh.hit(&ray, &clip);
    while let Some(object) = query.next() {
        if let Some(t) = primitive_hit(&object.0, &ray, &query.clip()) {
            query.accept(t);
        }
    }
    let (object, t) = query.best().unwrap();
    assert_eq!(object.1, 0);
    assert_eq!(t, 101);
    assert_eq!(query.clip(), Clip { min: 0, max: 101 });
    assert_eq!(query.ray(), ray);

    // From the other side the last box is the nearest.
    let back = Ray::new(Point3::new(300, 0, 0), Point3::new(-1, 0, 0));
    let (found, _) = nearest(&bvh, &back, &clip);
    assert_eq!(found, Some(106));
}

#[test]
fn query_on_an_empty_hierarchy_finds_nothing() {
    let bvh: Bvh<(Aabb, u32)> = Bvh::new();
    let ray = Ray::new(Point3::new(0, 0, 0), Point3::new(0, 0, -1));
    let mut query = bvh.hit(&ray, &Clip { min: 0, max: 1000 });
    assert!(query.next().is_none());
    assert!(query.best().is_none());
    assert!(!query.accept(5));
    assert!(query.best().is_none());
}

#[test]
fn report_outside_the_clip_interval_is_turned_down() {
    let mut bvh = Bvh::new();
    let aabb = Aabb::new(Point3::new(0, -1, -1), Point3::new(5, 1, 1));
    bvh.insert(aabb, 1u32);
    let ray = Ray::new(Point3::new(-10, 0, 0), Point3::new(1, 0, 0));
    let mut query = bvh.hit(&ray, &Clip { min: 2, max: 50 });
    assert_eq!(query.next(), Some(&1));
    assert!(!query.accept(51));
    assert!(query.best().is_none());
    assert_eq!(query.clip(), Clip { min: 2, max: 50 });
    // The primitive was handed out once; a second report has nothing to go to.
    assert!(!query.accept(20));
    assert!(query.next().is_none());
    assert!(query.best().is_none());
}

#[test]
fn report_at_the_ends_of_the_clip_interval_counts() {
    let mut bvh = Bvh::new();
    bvh.insert(Aabb::new(Point3::new(0, -1, -1), Point3::new(5, 1, 1)), 1u32);
    bvh.insert(Aabb::new(Point3::new(0, -1, -1), Point3::new(5, 1, 1)), 2u32);
    let ray = Ray::new(Point3::new(-10, 0, 0), Point3::new(1, 0, 0));
    let mut query = bvh.hit(&ray, &Clip { min: 2, max: 50 });
    let first = *query.next().unwrap();
    assert!(query.accept(50));
    assert_eq!(query.best().map(|(c, t)| (*c, t)), Some((first, 50)));
    let second = *query.next().unwrap();
    assert_ne!(first, second);
    assert!(query.accept(2));
    assert_eq!(query.best().map(|(c, t)| (*c, t)), Some((second, 2)));
    assert_eq!(query.clip(), Clip { min: 2, max: 2 });
}

#[test]
fn subtree_behind_the_nearest_hit_is_left_out() {
    let mut bvh = Bvh::new();
    let near = Aabb::new(Point3::new(0, -1, -1), Point3::new(5, 1, 1));
    let far = Aabb::new(Point3::new(100, -1, -1), Point3::new(105, 1, 1));
    bvh.insert(near, 1u32);
    bvh.insert(far, 2u32);
    let ray = Ray::new(Point3::new(-10, 0, 0), Point3::new(1, 0, 0));
    let mut query = bvh.hit(&ray, &Clip { min: 0, max: 1000 });
    assert_eq!(query.next(), Some(&1));
    assert!(query.accept(11));
    assert_eq!(query.next(), None);
    assert_eq!(query.best().map(|(c, t)| (*c, t)), Some((1, 11)));
}

#[test]
fn node_query_searches_the_subtree() {
    let root = BvhNode::leaf(Aabb::new(Point3::new(0, -1, -1), Point3::new(5, 1, 1)), 1u32);
    let ray = Ray::new(Point3::new(-10, 0, 0), Point3::new(1, 0, 0));
    let mut query = root.hit(&ray, &Clip { min: 0, max: 1000 });
    assert_eq!(query.next(), Some(&1));
    assert!(query.accept(10));
    assert_eq!(query.next(), None);
    let miss = Ray::new(Point3::new(-10, 5, 0), Point3::new(1, 0, 0));
    let mut query = root.hit(&miss, &Clip { min: 0, max: 1000 });
    assert_eq!(query.next(), None);
}

#[test]
fn walk_never_leaves_more_subtrees_than_the_tree_has_levels() {
    for n in [0u32, 1, 2, 3, 7, 64, 300].iter() {
        let mut bvh = Bvh::new();
        for i in scrambled(*n) {
            bvh.insert(slab(i as i32 * 3), i);
        }
        let height = bvh.height() as usize;
        let mut it = bvh.iter();
        assert!(it.depth() <= height);
        let mut deepest = it.depth();
        let mut met = 0;
        while let Some(_) = it.next() {
            met += 1;
            assert!(it.depth() <= height, "{} subtrees left, {} levels", it.depth(), height);
            deepest = deepest.max(it.depth());
        }
        assert_eq!(met, *n as usize);
        assert_eq!(it.depth(), 0);
        if *n >= 64 {
            assert!(deepest >= 2);
        }
    }
}

#[test]
fn two_walks_over_one_hierarchy_agree() {
    let mut bvh = Bvh::new();
    for i in scrambled(100) {
        bvh.insert(slab(i as i32 * 3), i);
    }
    let first: Vec<u32> = bvh.children().into_iter().copied().collect();
    let second: Vec<u32> = bvh.children().into_iter().copied().collect();
    assert_eq!(first, second);
}

#[test]
fn order_of_insertion_does_not_change_the_nearest_hit() {
    let (forward, boxes) = scene(96);
    let mut backward = Bvh::new();
    for (i, b) in boxes.iter().enumerate().rev() {
        backward.insert(*b, (*b, i as u32));
    }
    assert_eq!(forward.len(), backward.len());
    let mut a: Vec<u32> = forward.children().iter().map(|o| o.1).collect();
    let mut b: Vec<u32> = backward.children().iter().map(|o| o.1).collect();
    a.sort();
    b.sort();
    assert_eq!(a, b);
    let clip = Clip { min: 0, max: 150 };
    let mut state: u32 = 31;
    let mut next = move |m: u32| {
        state = state.wrapping_mul(1664525).wrapping_add(1013904223);
        ((state >> 10) % m) as i32
    };
    let mut hits = 0;
    for _ in 0..200 {
        let origin = Point3::new(next(120) - 10, next(120) - 10, -20 + next(10));
        let direction = Point3::new(next(5) - 2, next(5) - 2, 1 + next(2));
        let ray = Ray::new(origin, direction);
        let (x, _) = nearest(&forward, &ray, &clip);
        let (y, _) = nearest(&backward, &ray, &clip);
        assert_eq!(x, y);
        if x.is_some() {
            hits += 1;
        }
    }
    assert!(hits > 20);
}
