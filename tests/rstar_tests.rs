use rstar::envelope::{Aabb, Point};
use rstar::nearest_neighbor::NearestNeighborIterator;
use rstar::node::{ParentNodeData, RTreeNode};
use rstar::rstar::{RStarInsertionStrategy, RTree, RTreeParams};

/// Deterministic points in [-1_000_000, 1_000_000]^2 drawn from a seed.
fn create_random_points(num_points: usize, seed: [u8; 16]) -> Vec<Point> {
    let mut state: u64 = 0x9E37_79B9_7F4A_7C15;
    for b in seed.iter() {
        state = (state ^ (*b as u64)).wrapping_mul(0x100_0000_01B3);
    }
    let mut next = move || {
        state ^= state << 13;
        state ^= state >> 7;
        state ^= state << 17;
        state
    };
    let mut result = Vec::with_capacity(num_points);
    for _ in 0..num_points {
        let x = (next() % 2_000_001) as i64 - 1_000_000;
        let y = (next() % 2_000_001) as i64 - 1_000_000;
        result.push(Point { x: x as i32, y: y as i32 });
    }
    result
}

fn p(x: i32, y: i32) -> Point {
    Point { x, y }
}

fn collect_all(mut iter: NearestNeighborIterator) -> Vec<Point> {
    let mut out = Vec::new();
    while let Some(p) = iter.next() {
        out.push(*p);
    }
    out
}

fn merge_all(children: &[RTreeNode]) -> Aabb {
    let mut e = Aabb { lower: p(i32::MAX, i32::MAX), upper: p(i32::MIN, i32::MIN) };
    for c in children {
        e = e.merged(&c.envelope());
    }
    e
}

/// Walks a subtree, checks the stored envelopes, child counts and leaf depth,
/// and returns the number of leaves.
fn check_node(node: &ParentNodeData, height: usize, is_root: bool, params: &RTreeParams) -> usize {
    assert_eq!(node.envelope, merge_all(&node.children));
    if !is_root {
        assert!(node.children.len() >= params.min_size);
        assert!(node.children.len() <= params.max_size);
    }
    let mut count = 0;
    for c in &node.children {
        match c {
            RTreeNode::Leaf(_) => {
                assert_eq!(height, 1);
                count += 1;
            }
            RTreeNode::Parent(d) => {
                assert!(height > 1);
                count += check_node(d, height - 1, false, params);
            }
        }
    }
    count
}

fn check_tree(tree: &RTree) {
    if tree.size() == 0 {
        assert!(tree.root().children.is_empty());
        return;
    }
    let count = check_node(tree.root(), tree.height(), true, &tree.params);
    assert_eq!(count, tree.size());
}

fn sorted(mut v: Vec<Point>) -> Vec<Point> {
    v.sort_by_key(|q| (q.x, q.y));
    v
}

#[test]
fn test_nearest_neighbor_empty() {
    let tree = RTree::new();
    assert!(tree.nearest_neighbor(&p(0, 213)).is_none());
}

#[test]
fn test_nearest_neighbor() {
    let points = create_random_points(1000, *b"syst3mAtisatioNs");
    let mut tree = RTree::new();
    for q in &points {
        tree.insert(*q);
    }
    let sample_points = create_random_points(100, *b"wholEh3artednE5s");
    for sample_point in &sample_points {
        let mut nearest = None;
        let mut closest_dist = i128::MAX;
        for point in &points {
            let new_dist = point.distance_2(sample_point);
            if new_dist < closest_dist {
                closest_dist = new_dist;
                nearest = Some(point);
            }
        }
        assert_eq!(nearest, tree.nearest_neighbor(sample_point));
    }
}

#[test]
fn test_nearest_neighbor_iterator() {
    let mut points = create_random_points(1000, *b"pseudo4gGressive");
    let mut tree = RTree::new();
    for q in &points {
        tree.insert(*q);
    }
    let sample_points = create_random_points(50, *b"1ntraMolecularly");
    for sample_point in sample_points {
        points.sort_by(|r, l| r.distance_2(&sample_point).cmp(&l.distance_2(&sample_point)));
        let collected = collect_all(tree.nearest_neighbor_iter(&sample_point));
        let dists: Vec<i128> = collected.iter().map(|q| q.distance_2(&sample_point)).collect();
        let expected: Vec<i128> = points.iter().map(|q| q.distance_2(&sample_point)).collect();
        assert_eq!(expected, dists);
        assert_eq!(sorted(points.clone()), sorted(collected));
    }
}

#[test]
fn invariants_hold_after_every_insertion() {
    let points = create_random_points(300, *b"invariantsSeed01");
    let mut tree = RTree::new();
    for (i, q) in points.iter().enumerate() {
        tree.insert(*q);
        assert_eq!(tree.size(), i + 1);
        check_tree(&tree);
    }
    assert!(tree.height() >= 2);
}

#[test]
fn invariants_hold_with_small_nodes() {
    let params = RTreeParams::new(2, 4, 1).unwrap();
    let points = create_random_points(200, *b"smallNodesSeed02");
    let mut tree = RTree::new_with_params(params);
    for q in &points {
        tree.insert(*q);
        check_tree(&tree);
    }
    assert_eq!(tree.size(), 200);
}

#[test]
fn forced_reinsertion_on_fifth_point() {
    let params = RTreeParams::new(2, 4, 1).unwrap();
    let mut tree = RTree::new_with_params(params);
    let pts = [p(0, 0), p(2, 0), p(0, 2), p(2, 2), p(1, 1)];
    for q in &pts {
        tree.insert(*q);
    }
    assert_eq!(tree.size(), 5);
    assert!(tree.height() == 1 || tree.height() == 2);
    check_tree(&tree);
    let all = collect_all(tree.nearest_neighbor_iter(&p(1, 1)));
    assert_eq!(sorted(all), sorted(pts.to_vec()));
}

#[test]
fn first_split_raises_height() {
    let params = RTreeParams::new(2, 4, 0).unwrap();
    let mut tree = RTree::new_with_params(params);
    for i in 0..4 {
        tree.insert(p(i, i));
    }
    assert_eq!(tree.height(), 1);
    tree.insert(p(10, 10));
    assert_eq!(tree.height(), 2);
    assert_eq!(tree.root().children.len(), 2);
    check_tree(&tree);
}

#[test]
fn many_copies_of_one_point() {
    let mut tree = RTree::new();
    for _ in 0..100 {
        tree.insert(p(7, -3));
    }
    assert_eq!(tree.size(), 100);
    check_tree(&tree);
    assert_eq!(tree.nearest_neighbor(&p(7, -3)), Some(&p(7, -3)));
    assert_eq!(collect_all(tree.nearest_neighbor_iter(&p(0, 0))).len(), 100);
}

#[test]
fn insertion_order_does_not_change_contents() {
    let points = create_random_points(150, *b"orderMattersNot3");
    let mut forward = RTree::new();
    let mut backward = RTree::new();
    for q in &points {
        forward.insert(*q);
    }
    for q in points.iter().rev() {
        backward.insert(*q);
    }
    let a = sorted(collect_all(forward.nearest_neighbor_iter(&p(0, 0))));
    let b = sorted(collect_all(backward.nearest_neighbor_iter(&p(0, 0))));
    assert_eq!(a, b);
    assert_eq!(a, sorted(points));
}

#[test]
fn strategy_inserts_directly() {
    let mut tree = RTree::new();
    RStarInsertionStrategy::insert(&mut tree, p(1, 2));
    assert_eq!(tree.size(), 1);
    assert_eq!(tree.height(), 1);
    assert_eq!(tree.nearest_neighbor(&p(100, 100)), Some(&p(1, 2)));
}

#[test]
fn params_are_checked() {
    assert!(RTreeParams::new(0, 4, 0).is_none());
    assert!(RTreeParams::new(3, 4, 0).is_none());
    assert!(RTreeParams::new(2, 4, 3).is_none());
    assert!(RTreeParams::new(1, 1, 0).is_none());
    assert!(RTreeParams::new(2, 3, 1).is_some());
    let d = RTreeParams::default_params();
    assert_eq!((d.min_size, d.max_size, d.reinsertion_count), (3, 6, 2));
}

#[test]
fn envelope_measures() {
    let a = Aabb { lower: p(0, 0), upper: p(4, 3) };
    let b = Aabb { lower: p(2, 1), upper: p(6, 5) };
    assert_eq!(a.area(), 12);
    assert_eq!(a.margin_value(), 7);
    assert_eq!(a.intersection_area(&b), 4);
    assert_eq!(a.merged(&b), Aabb { lower: p(0, 0), upper: p(6, 5) });
    assert!(a.contains_envelope(&Aabb { lower: p(1, 1), upper: p(2, 2) }));
    assert!(!a.contains_envelope(&b));
    assert_eq!(a.distance_2(&p(7, 7)), 9 + 16);
    assert_eq!(a.distance_2(&p(1, 1)), 0);
    assert_eq!(a.center_distance_2(&b), 16 + 9);
    let far = Aabb { lower: p(10, 10), upper: p(12, 12) };
    assert_eq!(a.intersection_area(&far), 0);
}

#[test]
fn min_max_distance_of_rectangle() {
    let e = Aabb { lower: p(0, 0), upper: p(4, 2) };
    // nearer face on x (0) with farther face on y (both at 1): 1 + 1; farther
    // face on x (4) with nearer face on y: 9 + 1.
    assert_eq!(e.min_max_dist_2(&p(1, 1)), 2);
    assert_eq!(e.min_max_dist_2(&p(1, 0)), 1 + 4);
    let q = Aabb { lower: p(3, 3), upper: p(3, 3) };
    assert_eq!(q.min_max_dist_2(&p(0, 0)), 18);
}

#[test]
fn iterator_is_ordered_and_complete() {
    let points = create_random_points(400, *b"iteratorSeed0004");
    let mut tree = RTree::new_with_params(RTreeParams::new(2, 5, 1).unwrap());
    for q in &points {
        tree.insert(*q);
    }
    let query = p(12345, -54321);
    let out = collect_all(tree.nearest_neighbor_iter(&query));
    for w in out.windows(2) {
        assert!(w[0].distance_2(&query) <= w[1].distance_2(&query));
    }
    assert_eq!(sorted(out), sorted(points));
}

#[test]
fn try_insert_inserts_within_limits() {
    let mut tree = RTree::new();
    assert!(tree.try_insert(p(3, 4)));
    assert!(tree.try_insert(p(-3, 4)));
    assert_eq!(tree.size(), 2);
    assert_eq!(tree.height(), 1);
    assert_eq!(tree.nearest_neighbor(&p(-2, 4)), Some(&p(-3, 4)));
}

#[test]
fn first_insert_fills_the_root() {
    let mut tree = RTree::new();
    tree.insert(p(5, 6));
    assert_eq!(tree.height(), 1);
    assert_eq!(tree.root().children.len(), 1);
    assert_eq!(tree.root().envelope, Aabb { lower: p(5, 6), upper: p(5, 6) });
}
