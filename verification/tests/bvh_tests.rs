use rt_engine::bvh::{
    accepts, lies_left, Bvh, NodeKind, Split, INFINITE_COST, MIN_TRIANGLES, SPLIT_TEST_COUNT,
};
use rt_engine::geometry::{Aabb, Normal, Point, Triangle, Uv};

fn pt(x: i64, y: i64, z: i64) -> Point {
    Point { x, y, z }
}

fn tri(a: Point, b: Point, c: Point) -> Triangle {
    let uv = Uv { u: 0, v: 0 };
    Triangle { a, b, c, normal: Normal { x: 0, y: 0, z: 0 }, uv_a: uv, uv_b: uv, uv_c: uv }
}

/// Four triangles inside the unit cube whose low corner is `(x0, 0, 0)`;
/// together they touch every face of the cube.
fn cluster(x0: i64) -> Vec<Triangle> {
    vec![
        tri(pt(x0, 0, 0), pt(x0 + 1, 1, 1), pt(x0 + 1, 0, 0)),
        tri(pt(x0, 0, 0), pt(x0, 1, 0), pt(x0, 0, 1)),
        tri(pt(x0 + 1, 1, 1), pt(x0, 1, 1), pt(x0 + 1, 0, 1)),
        tri(pt(x0, 1, 0), pt(x0 + 1, 1, 0), pt(x0, 1, 1)),
    ]
}

fn bounds_of(triangles: &[Triangle]) -> Aabb {
    let mut b = Aabb::empty();
    for t in triangles {
        b.enclose(t);
    }
    b
}

fn cost_of(node: &Bvh) -> u128 {
    Bvh::bvh_cost(node.min_bound, node.max_bound, node.triangle_count)
}

fn is_leaf(node: &Bvh) -> bool {
    node.left_offset == 0 && node.right_offset == 0
}

/// Walks the subtree below `index`, checks every node against the
/// triangles, and returns the number of triangles in its leaves.
fn check_subtree(bvhs: &[Bvh], triangles: &[Triangle], index: usize, total: u32) -> u32 {
    let node = bvhs[index];
    let start = node.triangle_offset as usize;
    let end = start + node.triangle_count as usize;
    assert!(end <= triangles.len());
    assert!(node.triangle_count <= total);
    let exact = bounds_of(&triangles[start..end]);
    assert_eq!(node.min_bound, exact.min);
    assert_eq!(node.max_bound, exact.max);
    if is_leaf(&node) {
        return node.triangle_count;
    }
    assert!(node.triangle_count as usize > MIN_TRIANGLES);
    let l = node.left_offset as usize;
    let r = node.right_offset as usize;
    assert_eq!(l, index + 1);
    assert!(l < r && r < bvhs.len());
    let left = bvhs[l];
    let right = bvhs[r];
    assert_eq!(left.triangle_offset, node.triangle_offset);
    assert_eq!(right.triangle_offset, left.triangle_offset + left.triangle_count);
    assert_eq!(left.triangle_count + right.triangle_count, node.triangle_count);
    assert!(left.triangle_count > 0 && right.triangle_count > 0);
    assert!(10 * (cost_of(&left) + cost_of(&right)) < 9 * cost_of(&node));
    let below = check_subtree(bvhs, triangles, l, total) + check_subtree(bvhs, triangles, r, total);
    assert_eq!(below, node.triangle_count);
    below
}

fn sorted_keys(triangles: &[Triangle]) -> Vec<[i64; 9]> {
    let mut keys: Vec<[i64; 9]> = triangles
        .iter()
        .map(|t| [t.a.x, t.a.y, t.a.z, t.b.x, t.b.y, t.b.z, t.c.x, t.c.y, t.c.z])
        .collect();
    keys.sort();
    keys
}

#[test]
fn constants_have_their_values() {
    assert_eq!(SPLIT_TEST_COUNT, 5);
    assert_eq!(MIN_TRIANGLES, 2);
    assert_eq!(INFINITE_COST, u128::MAX);
}

#[test]
fn cost_is_count_times_half_area() {
    assert_eq!(Bvh::bvh_cost(pt(0, 0, 0), pt(1, 2, 3), 4), 44);
    assert_eq!(Bvh::bvh_cost(pt(-1, -1, -1), pt(1, 1, 1), 1), 12);
    assert_eq!(Bvh::bvh_cost(pt(5, 5, 5), pt(5, 5, 5), 7), 0);
}

#[test]
fn cost_of_no_triangles_is_zero() {
    let e = Aabb::empty();
    assert_eq!(Bvh::bvh_cost(e.min, e.max, 0), 0);
    assert_eq!(Bvh::bvh_cost(pt(0, 0, 0), pt(9, 9, 9), 0), 0);
}

#[test]
fn cost_at_the_coordinate_limit_does_not_overflow() {
    let m: i64 = 0x1_0000_0000;
    let c = Bvh::bvh_cost(pt(-m, -m, -m), pt(m, m, m), u32::MAX);
    let d: u128 = 2 * (m as u128);
    assert_eq!(c, (u32::MAX as u128) * 3 * d * d);
}

#[test]
fn empty_box_is_inverted() {
    let e = Aabb::empty();
    assert_eq!(e.min, pt(i64::MAX, i64::MAX, i64::MAX));
    assert_eq!(e.max, pt(i64::MIN, i64::MIN, i64::MIN));
}

#[test]
fn grow_to_include_moves_only_the_faces_it_must() {
    let mut b = Aabb { min: pt(0, 0, 0), max: pt(2, 2, 2) };
    b.grow_to_include(&pt(1, 5, -3));
    assert_eq!(b.min, pt(0, 0, -3));
    assert_eq!(b.max, pt(2, 5, 2));
    let mut e = Aabb::empty();
    e.grow_to_include(&pt(7, -8, 9));
    assert_eq!(e.min, pt(7, -8, 9));
    assert_eq!(e.max, pt(7, -8, 9));
}

#[test]
fn enclose_covers_three_vertices() {
    let mut b = Aabb::empty();
    b.enclose(&tri(pt(1, 9, 4), pt(-2, 3, 6), pt(0, 5, -7)));
    assert_eq!(b.min, pt(-2, 3, -7));
    assert_eq!(b.max, pt(1, 9, 6));
}

#[test]
fn point_get_reads_each_axis() {
    let p = pt(4, 5, 6);
    assert_eq!(p.get(0), 4);
    assert_eq!(p.get(1), 5);
    assert_eq!(p.get(2), 6);
}

#[test]
fn a_triangle_is_left_when_any_vertex_is_below_the_plane() {
    let t = tri(pt(5, 0, 0), pt(9, 0, 0), pt(7, 0, 0));
    // The plane at x = 5: no vertex is strictly below it.
    assert!(!lies_left(&t, 0, 30));
    // The plane at x = 5 + 1/6: the first vertex is below it.
    assert!(lies_left(&t, 0, 31));
    assert!(lies_left(&t, 0, 60));
    // On the other axes every vertex is at 0.
    assert!(!lies_left(&t, 1, 0));
    assert!(lies_left(&t, 2, 1));
}

#[test]
fn accepts_only_below_nine_tenths() {
    assert!(accepts(8, 10));
    assert!(!accepts(9, 10));
    assert!(!accepts(10, 10));
    assert!(accepts(89, 100));
    assert!(!accepts(90, 100));
    assert!(!accepts(0, 0));
    assert!(!accepts(INFINITE_COST, 1000));
}

#[test]
fn evaluate_split_adds_both_sides() {
    let ts = vec![
        tri(pt(0, 0, 0), pt(1, 0, 0), pt(0, 1, 0)),
        tri(pt(10, 0, 0), pt(11, 0, 0), pt(10, 1, 0)),
    ];
    // Plane at x = 5: one triangle on each side, each with half area 1.
    assert_eq!(Bvh::evaluate_split(0, 30, &ts), 2);
    // Plane at x = 0: nothing is left, both triangles are right.
    assert_eq!(Bvh::evaluate_split(0, 0, &ts), 22);
    // Plane beyond everything: both triangles are left.
    assert_eq!(Bvh::evaluate_split(0, 1000, &ts), 22);
    // A plane through the second triangle puts it left as well.
    assert_eq!(Bvh::evaluate_split(0, 61, &ts), 22);
}

#[test]
fn evaluate_split_of_nothing_is_zero() {
    let ts: Vec<Triangle> = Vec::new();
    assert_eq!(Bvh::evaluate_split(1, 12, &ts), 0);
}

#[test]
fn choose_split_gives_no_split_for_small_nodes() {
    let ts = vec![
        tri(pt(0, 0, 0), pt(1, 0, 0), pt(0, 1, 0)),
        tri(pt(10, 0, 0), pt(11, 0, 0), pt(10, 1, 0)),
    ];
    let b = bounds_of(&ts);
    let node = Bvh {
        min_bound: b.min,
        max_bound: b.max,
        left_offset: 0,
        right_offset: 0,
        triangle_offset: 0,
        triangle_count: 2,
    };
    assert_eq!(Bvh::choose_split(node, &ts), Split { axis: 0, position: 0, cost: INFINITE_COST });
}

#[test]
fn choose_split_takes_the_first_of_the_cheapest_planes() {
    let mut ts = cluster(0);
    ts.extend(cluster(100));
    let b = bounds_of(&ts);
    assert_eq!(b.min, pt(0, 0, 0));
    assert_eq!(b.max, pt(101, 1, 1));
    let node = Bvh {
        min_bound: b.min,
        max_bound: b.max,
        left_offset: 0,
        right_offset: 0,
        triangle_offset: 0,
        triangle_count: 8,
    };
    // Every plane on the x axis parts the clusters at cost 4*3 + 4*3; the
    // first one stands one sixth of the way, at 6*0 + 1*101.
    assert_eq!(Bvh::choose_split(node, &ts), Split { axis: 0, position: 101, cost: 24 });
}

#[test]
fn choose_split_samples_sixths_of_the_span() {
    // Three triangles along z; only the plane at five sixths parts them
    // so that the far one stands alone.
    let ts = vec![
        tri(pt(0, 0, 0), pt(1, 0, 0), pt(0, 1, 0)),
        tri(pt(0, 0, 1), pt(1, 0, 1), pt(0, 1, 1)),
        tri(pt(0, 0, 60), pt(1, 0, 60), pt(0, 1, 60)),
    ];
    let b = bounds_of(&ts);
    let node = Bvh {
        min_bound: b.min,
        max_bound: b.max,
        left_offset: 0,
        right_offset: 0,
        triangle_offset: 0,
        triangle_count: 3,
    };
    // Left of z = 10: two triangles in a box 1 x 1 x 1, cost 2 * 3;
    // right: one flat triangle, cost 1 * 1.
    assert_eq!(Bvh::choose_split(node, &ts), Split { axis: 2, position: 60, cost: 7 });
}

#[test]
fn partition_moves_left_triangles_to_the_front() {
    let r1 = tri(pt(10, 0, 0), pt(11, 0, 0), pt(10, 1, 0));
    let r2 = tri(pt(20, 0, 0), pt(21, 0, 0), pt(20, 1, 0));
    let l1 = tri(pt(0, 0, 0), pt(1, 0, 0), pt(0, 1, 0));
    let l2 = tri(pt(2, 0, 0), pt(3, 0, 0), pt(2, 1, 0));
    let mut ts = vec![r1, r2, l1, l2];
    let (count, left, right) = Bvh::partition(&mut ts, 0, 4, 0, 30);
    assert_eq!(count, 2);
    assert_eq!(ts, vec![l1, l2, r1, r2]);
    assert_eq!(left, Aabb { min: pt(0, 0, 0), max: pt(3, 1, 0) });
    assert_eq!(right, Aabb { min: pt(10, 0, 0), max: pt(21, 1, 0) });
}

#[test]
fn partition_exchanges_each_left_triangle_with_the_first_right_one() {
    let r1 = tri(pt(10, 0, 0), pt(11, 0, 0), pt(10, 1, 0));
    let r2 = tri(pt(20, 0, 0), pt(21, 0, 0), pt(20, 1, 0));
    let l1 = tri(pt(0, 0, 0), pt(1, 0, 0), pt(0, 1, 0));
    let mut ts = vec![r1, r2, l1];
    let (count, _, _) = Bvh::partition(&mut ts, 0, 3, 0, 30);
    assert_eq!(count, 1);
    assert_eq!(ts, vec![l1, r2, r1]);
}

#[test]
fn partition_leaves_the_rest_of_the_array_alone() {
    let r1 = tri(pt(10, 0, 0), pt(11, 0, 0), pt(10, 1, 0));
    let l1 = tri(pt(0, 0, 0), pt(1, 0, 0), pt(0, 1, 0));
    let l2 = tri(pt(2, 0, 0), pt(3, 0, 0), pt(2, 1, 0));
    let mut ts = vec![l1, r1, l2, l1, r1];
    let (count, left, right) = Bvh::partition(&mut ts, 1, 3, 0, 30);
    assert_eq!(count, 1);
    assert_eq!(ts, vec![l1, l2, r1, l1, r1]);
    assert_eq!(left, Aabb { min: pt(2, 0, 0), max: pt(3, 1, 0) });
    assert_eq!(right, Aabb { min: pt(10, 0, 0), max: pt(11, 1, 0) });
}

#[test]
fn partition_with_one_side_empty_keeps_the_order() {
    let l1 = tri(pt(0, 0, 0), pt(1, 0, 0), pt(0, 1, 0));
    let l2 = tri(pt(2, 0, 0), pt(3, 0, 0), pt(2, 1, 0));
    let mut ts = vec![l1, l2];
    let (count, _, right) = Bvh::partition(&mut ts, 0, 2, 0, 1000);
    assert_eq!(count, 2);
    assert_eq!(ts, vec![l1, l2]);
    assert_eq!(right, Aabb::empty());
    let (count, left, _) = Bvh::partition(&mut ts, 0, 2, 0, -1000);
    assert_eq!(count, 0);
    assert_eq!(ts, vec![l1, l2]);
    assert_eq!(left, Aabb::empty());
}

#[test]
fn two_triangles_give_one_leaf() {
    let mut ts = vec![
        tri(pt(0, 0, 0), pt(1, 0, 0), pt(0, 1, 0)),
        tri(pt(100, 0, 0), pt(101, 0, 0), pt(100, 1, 0)),
    ];
    let before = ts.clone();
    let mut bvhs: Vec<Bvh> = Vec::new();
    Bvh::build(&mut bvhs, &mut ts, 0);
    assert_eq!(bvhs.len(), 1);
    assert_eq!(
        bvhs[0],
        Bvh {
            min_bound: pt(0, 0, 0),
            max_bound: pt(101, 1, 0),
            left_offset: 0,
            right_offset: 0,
            triangle_offset: 0,
            triangle_count: 2,
        }
    );
    assert_eq!(ts, before);
}

#[test]
fn two_clusters_are_split_apart() {
    let mut ts = Vec::new();
    let near = cluster(0);
    let far = cluster(100);
    // Interleave the clusters so that the partition has work to do.
    for i in 0..4 {
        ts.push(far[i]);
        ts.push(near[i]);
    }
    let before = ts.clone();
    let mut bvhs: Vec<Bvh> = Vec::new();
    Bvh::build(&mut bvhs, &mut ts, 0);
    assert!(bvhs.len() >= 3);
    let root = bvhs[0];
    assert!(!is_leaf(&root));
    assert_eq!(root.triangle_offset, 0);
    assert_eq!(root.triangle_count, 8);
    assert_eq!(root.min_bound, pt(0, 0, 0));
    assert_eq!(root.max_bound, pt(101, 1, 1));
    assert_eq!(root.left_offset, 1);
    let left = bvhs[root.left_offset as usize];
    let right = bvhs[root.right_offset as usize];
    assert_eq!((left.triangle_offset, left.triangle_count), (0, 4));
    assert_eq!((right.triangle_offset, right.triangle_count), (4, 4));
    assert_eq!((left.min_bound, left.max_bound), (pt(0, 0, 0), pt(1, 1, 1)));
    assert_eq!((right.min_bound, right.max_bound), (pt(100, 0, 0), pt(101, 1, 1)));
    assert!(left.max_bound.x < right.min_bound.x);
    // The left triangles keep their order.
    assert_eq!(&ts[0..4], &near[..]);
    assert_eq!(sorted_keys(&ts), sorted_keys(&before));
    assert_eq!(check_subtree(&bvhs, &ts, 0, 8), 8);
}

#[test]
fn identical_triangles_are_never_split() {
    let t = tri(pt(0, 0, 0), pt(4, 0, 0), pt(0, 4, 4));
    let mut ts = vec![t; 5];
    let mut bvhs: Vec<Bvh> = Vec::new();
    Bvh::build(&mut bvhs, &mut ts, 0);
    assert_eq!(bvhs.len(), 1);
    assert!(is_leaf(&bvhs[0]));
    assert_eq!(bvhs[0].triangle_count, 5);
    assert_eq!(bvhs[0].min_bound, pt(0, 0, 0));
    assert_eq!(bvhs[0].max_bound, pt(4, 4, 4));
    assert_eq!(ts, vec![t; 5]);
}

#[test]
fn a_split_that_saves_too_little_is_not_made() {
    // Three overlapping triangles: every plane leaves a side almost as
    // large as the whole.
    let mut ts = vec![
        tri(pt(0, 0, 0), pt(10, 10, 10), pt(10, 0, 0)),
        tri(pt(0, 0, 0), pt(10, 10, 10), pt(0, 10, 0)),
        tri(pt(0, 0, 0), pt(10, 10, 10), pt(0, 0, 10)),
    ];
    let before = ts.clone();
    let mut bvhs: Vec<Bvh> = Vec::new();
    Bvh::build(&mut bvhs, &mut ts, 0);
    assert_eq!(bvhs.len(), 1);
    assert_eq!(bvhs[0].triangle_count, 3);
    assert!(is_leaf(&bvhs[0]));
    assert_eq!(ts, before);
}

#[test]
fn an_empty_mesh_gives_an_inverted_root() {
    let mut ts: Vec<Triangle> = Vec::new();
    let mut bvhs: Vec<Bvh> = Vec::new();
    Bvh::build(&mut bvhs, &mut ts, 0);
    assert_eq!(bvhs.len(), 1);
    assert_eq!(bvhs[0].triangle_count, 0);
    assert_eq!(bvhs[0].min_bound, pt(i64::MAX, i64::MAX, i64::MAX));
    assert_eq!(bvhs[0].max_bound, pt(i64::MIN, i64::MIN, i64::MIN));
    assert!(is_leaf(&bvhs[0]));
}

#[test]
fn build_appends_behind_earlier_nodes_and_triangles() {
    let first = cluster(0);
    let mut ts = first.clone();
    let mut bvhs: Vec<Bvh> = Vec::new();
    Bvh::build(&mut bvhs, &mut ts, 0);
    let nodes_before = bvhs.clone();
    let tris_before = ts.clone();
    ts.extend(cluster(50));
    ts.extend(cluster(500));
    Bvh::build(&mut bvhs, &mut ts, 4);
    assert_eq!(&bvhs[..nodes_before.len()], &nodes_before[..]);
    assert_eq!(&ts[..4], &tris_before[..]);
    let root = bvhs[nodes_before.len()];
    assert_eq!(root.triangle_offset, 4);
    assert_eq!(root.triangle_count, 8);
    assert!(!is_leaf(&root));
    assert_eq!(root.left_offset as usize, nodes_before.len() + 1);
    assert_eq!(check_subtree(&bvhs, &ts, nodes_before.len(), 8), 8);
    assert_eq!(check_subtree(&bvhs, &ts, 0, 4), 4);
}

#[test]
fn every_node_of_a_larger_tree_is_in_order() {
    // A grid of small triangles, visited in a scrambled order.
    let mut ts = Vec::new();
    let mut k: i64 = 7;
    for _ in 0..60 {
        k = (k * 37 + 11) % 101;
        let x = (k % 10) * 20;
        let y = ((k / 10) % 10) * 20;
        let z = (k % 7) * 20;
        ts.push(tri(pt(x, y, z), pt(x + 3, y + 1, z), pt(x, y + 2, z + 5)));
    }
    let before = ts.clone();
    let mut bvhs: Vec<Bvh> = Vec::new();
    Bvh::build(&mut bvhs, &mut ts, 0);
    assert!(bvhs.len() > 1);
    assert!(bvhs.len() <= 2 * 60 - 1);
    assert_eq!(bvhs[0].triangle_offset + bvhs[0].triangle_count, 60);
    assert_eq!(check_subtree(&bvhs, &ts, 0, 60), 60);
    assert_eq!(sorted_keys(&ts), sorted_keys(&before));
    // The nodes stand in the order in which the tree is walked: the
    // subtree of the root fills the whole array.
    for (i, node) in bvhs.iter().enumerate() {
        if !is_leaf(node) {
            assert_eq!(node.left_offset as usize, i + 1);
            assert!((node.right_offset as usize) > i + 1);
        } else {
            assert!(node.triangle_count > 0);
        }
    }
}

#[test]
fn build_is_deterministic() {
    let mut a = cluster(0);
    a.extend(cluster(30));
    a.extend(cluster(90));
    let mut b = a.clone();
    let mut na: Vec<Bvh> = Vec::new();
    let mut nb: Vec<Bvh> = Vec::new();
    Bvh::build(&mut na, &mut a, 0);
    Bvh::build(&mut nb, &mut b, 0);
    assert_eq!(na, nb);
    assert_eq!(a, b);
}

fn node_over(ts: &[Triangle]) -> Bvh {
    let b = bounds_of(ts);
    Bvh {
        min_bound: b.min,
        max_bound: b.max,
        left_offset: 0,
        right_offset: 0,
        triangle_offset: 0,
        triangle_count: ts.len() as u32,
    }
}

#[test]
fn planes_fall_between_neighbouring_grid_lines() {
    let a = tri(pt(0, 0, 0), pt(0, 1, 0), pt(0, 0, 1));
    let b = tri(pt(0, 0, 0), pt(0, 1, 1), pt(0, 0, 1));
    let c = tri(pt(1, 0, 0), pt(1, 1, 0), pt(1, 0, 1));
    let mut ts = vec![c, a, b];
    // The box spans one grid step on x; the first plane stands at 1/6.
    assert_eq!(Bvh::choose_split(node_over(&ts), &ts), Split { axis: 0, position: 1, cost: 3 });
    let mut bvhs: Vec<Bvh> = Vec::new();
    Bvh::build(&mut bvhs, &mut ts, 0);
    assert_eq!(ts, vec![a, b, c]);
    assert_eq!(bvhs.len(), 3);
    assert_eq!((bvhs[0].left_offset, bvhs[0].right_offset), (1, 2));
    assert_eq!((bvhs[1].triangle_offset, bvhs[1].triangle_count), (0, 2));
    assert_eq!((bvhs[2].triangle_offset, bvhs[2].triangle_count), (2, 1));
    assert_eq!((bvhs[1].min_bound, bvhs[1].max_bound), (pt(0, 0, 0), pt(0, 1, 1)));
    assert_eq!((bvhs[2].min_bound, bvhs[2].max_bound), (pt(1, 0, 0), pt(1, 1, 1)));
    assert!(is_leaf(&bvhs[1]) && is_leaf(&bvhs[2]));
}

#[test]
fn among_equal_costs_the_first_axis_wins() {
    let at = |x: i64, y: i64| tri(pt(x, y, 0), pt(x + 1, y, 0), pt(x, y + 1, 0));
    let ts = vec![at(0, 0), at(10, 0), at(0, 10), at(10, 10)];
    // Splitting on x and on y costs the same, 2 * 11 + 2 * 11.
    assert_eq!(Bvh::evaluate_split(0, 11, &ts), 44);
    assert_eq!(Bvh::evaluate_split(1, 11, &ts), 44);
    // The box is flat on z: nothing is below its planes.
    assert_eq!(Bvh::evaluate_split(2, 0, &ts), 484);
    assert_eq!(Bvh::choose_split(node_over(&ts), &ts), Split { axis: 0, position: 11, cost: 44 });
}

#[test]
fn negative_coordinates_are_split_like_any_other() {
    let mut ts = cluster(-200);
    ts.extend(cluster(100));
    ts.reverse();
    let node = node_over(&ts);
    assert_eq!(node.min_bound, pt(-200, 0, 0));
    assert_eq!(node.max_bound, pt(101, 1, 1));
    // The first plane: 6 * (-200) + 1 * 301.
    assert_eq!(Bvh::choose_split(node, &ts), Split { axis: 0, position: -899, cost: 24 });
    let mut bvhs: Vec<Bvh> = Vec::new();
    Bvh::build(&mut bvhs, &mut ts, 0);
    assert_eq!(check_subtree(&bvhs, &ts, 0, 8), 8);
    let left = bvhs[bvhs[0].left_offset as usize];
    assert_eq!((left.min_bound, left.max_bound), (pt(-200, 0, 0), pt(-199, 1, 1)));
}

#[test]
fn coordinates_at_the_limit_are_built() {
    let m: i64 = 0x1_0000_0000;
    let mut ts = vec![
        tri(pt(-m, -m, -m), pt(-m, -m + 1, -m), pt(-m, -m, -m + 1)),
        tri(pt(-m, -m, -m), pt(-m + 1, -m, -m), pt(-m, -m, -m + 1)),
        tri(pt(m, m, m), pt(m - 1, m, m), pt(m, m - 1, m)),
        tri(pt(m, m, m), pt(m, m, m - 1), pt(m, m - 1, m)),
    ];
    let mut bvhs: Vec<Bvh> = Vec::new();
    Bvh::build(&mut bvhs, &mut ts, 0);
    assert_eq!(bvhs[0].min_bound, pt(-m, -m, -m));
    assert_eq!(bvhs[0].max_bound, pt(m, m, m));
    assert!(!is_leaf(&bvhs[0]));
    assert_eq!(check_subtree(&bvhs, &ts, 0, 4), 4);
}

#[test]
fn the_first_root_is_told_apart_from_a_missing_child() {
    // The root of the first mesh has index 0, and a leaf has 0 for both
    // children: an internal node never names index 0, so the two cannot be
    // confused.
    let mut ts = cluster(0);
    ts.extend(cluster(100));
    let mut bvhs: Vec<Bvh> = Vec::new();
    Bvh::build(&mut bvhs, &mut ts, 0);
    for (i, node) in bvhs.iter().enumerate() {
        match node.kind() {
            NodeKind::Leaf { triangle_offset, triangle_count } => {
                assert_eq!((node.left_offset, node.right_offset), (0, 0));
                assert_eq!(triangle_offset, node.triangle_offset);
                assert_eq!(triangle_count, node.triangle_count);
            }
            NodeKind::Internal { left, right } => {
                assert_eq!(left as usize, i + 1);
                assert!(right > left);
            }
        }
    }
    assert_eq!(bvhs[0].kind(), NodeKind::Internal { left: 1, right: bvhs[0].right_offset });
    let single = Bvh {
        min_bound: pt(0, 0, 0),
        max_bound: pt(1, 1, 1),
        left_offset: 0,
        right_offset: 0,
        triangle_offset: 7,
        triangle_count: 2,
    };
    assert_eq!(single.kind(), NodeKind::Leaf { triangle_offset: 7, triangle_count: 2 });
}
