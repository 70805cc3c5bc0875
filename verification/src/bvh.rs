use crate::geometry::{aabb_of, all_wf, lemma_aabb_bounded, lemma_aabb_push, Aabb, Point, Triangle};
use vstd::prelude::*;

verus! {

/// The number of candidate split positions sampled on each axis.
pub const SPLIT_TEST_COUNT: u8 = 5;

/// A node holding at most this many triangles is never split.
pub const MIN_TRIANGLES: usize = 2;

/// The number of equal parts into which the candidates cut an axis span.
/// Split positions are stored multiplied by this number, so that every
/// candidate is exact.
pub const SPLIT_SCALE: i64 = 6;

/// The cost reported when no split is possible; larger than any real cost.
pub const INFINITE_COST: u128 = 0xFFFF_FFFF_FFFF_FFFF_FFFF_FFFF_FFFF_FFFF;

/// One node of the hierarchy. Child and triangle fields are absolute
/// indices into the scene's node and triangle arrays; a node whose two
/// child indices are both zero is a leaf.
#[derive(Debug, Clone, Copy, PartialEq, Eq, Structural)]
pub struct Bvh {
    pub min_bound: Point,
    pub max_bound: Point,
    pub left_offset: u32,
    pub right_offset: u32,
    pub triangle_offset: u32,
    pub triangle_count: u32,
}

/// What a node is, told apart by its child indices: a leaf that holds a
/// range of triangles, or an internal node with two children.
#[derive(Debug, Clone, Copy, PartialEq, Eq, Structural)]
pub enum NodeKind {
    Leaf { triangle_offset: u32, triangle_count: u32 },
    Internal { left: u32, right: u32 },
}

/// A split plane together with the cost of splitting there. `position` is
/// the plane's coordinate multiplied by `SPLIT_SCALE`.
#[derive(Debug, Clone, Copy, PartialEq, Eq, Structural)]
pub struct Split {
    pub axis: usize,
    pub position: i64,
    pub cost: u128,
}

/// The cost of a node: its triangle count times half the surface area of
/// its box. A node without triangles costs nothing.
pub open spec fn node_cost(bounds: Aabb, count: int) -> int {
    if count == 0 {
        0
    } else {
        count * bounds.half_area()
    }
}

/// A triangle lies on the left of a plane when any of its vertices is
/// strictly below the plane on the split axis.
pub open spec fn is_left(t: Triangle, axis: int, position: int) -> bool {
    ||| SPLIT_SCALE * t.a.coord(axis) < position
    ||| SPLIT_SCALE * t.b.coord(axis) < position
    ||| SPLIT_SCALE * t.c.coord(axis) < position
}

/// The triangles of `s` on one side of a plane, in their order in `s`:
/// the left side when `left` holds, the right side otherwise.
pub open spec fn side_of(s: Seq<Triangle>, axis: int, position: int, left: bool) -> Seq<Triangle>
    decreases s.len(),
{
    if s.len() == 0 {
        Seq::empty()
    } else {
        let rest = side_of(s.drop_last(), axis, position, left);
        if is_left(s.last(), axis, position) == left {
            rest.push(s.last())
        } else {
            rest
        }
    }
}

/// The cost of splitting `s` at a plane: the cost of the left side plus
/// the cost of the right side, each with its own tight box.
pub open spec fn split_cost(s: Seq<Triangle>, axis: int, position: int) -> int {
    let l = side_of(s, axis, position, true);
    let r = side_of(s, axis, position, false);
    node_cost(aabb_of(l), l.len() as int) + node_cost(aabb_of(r), r.len() as int)
}

/// The `k`-th candidate plane on `axis`, scaled: it lies `k` sixths of the
/// way from the low face of `bounds` to its high face.
pub open spec fn candidate(bounds: Aabb, axis: int, k: int) -> i64 {
    (SPLIT_SCALE * bounds.min.coord(axis) + k * bounds.extent(axis)) as i64
}

/// The result that stands for "no split".
pub open spec fn no_split() -> Split {
    Split { axis: 0, position: 0, cost: INFINITE_COST }
}

/// The plane of the candidate with number `m`, counted from zero: five on
/// each axis, from the low face to the high face.
pub open spec fn candidate_number(bounds: Aabb, m: int) -> (int, i64) {
    (m / 5, candidate(bounds, m / 5, m % 5 + 1))
}

/// The cheapest of the first `n` candidates, taken axis by axis and from
/// the low face to the high face; among equal costs the earliest wins.
#[verifier::opaque]
pub open spec fn best_of_first(bounds: Aabb, s: Seq<Triangle>, n: nat) -> Split
    decreases n,
{
    if n == 0 {
        no_split()
    } else {
        let before = best_of_first(bounds, s, (n - 1) as nat);
        let (axis, position) = candidate_number(bounds, n - 1);
        let cost = split_cost(s, axis, position as int);
        if cost < before.cost {
            Split { axis: axis as usize, position, cost: cost as u128 }
        } else {
            before
        }
    }
}

/// The split chosen for the triangles `s` of a node with box `bounds`:
/// none for a node small enough to stay a leaf, else the cheapest of the
/// fifteen candidates.
pub open spec fn best_split(bounds: Aabb, s: Seq<Triangle>) -> Split {
    if s.len() <= MIN_TRIANGLES {
        no_split()
    } else {
        best_of_first(bounds, s, 15)
    }
}

/// A split is worth making when its cost is strictly below nine tenths of
/// the cost of the node it splits.
pub open spec fn spec_accepts(split_cost: int, parent_cost: int) -> bool {
    split_cost != INFINITE_COST && 10 * split_cost < 9 * parent_cost
}

/// The largest cost a node of well-formed triangles can have.
pub open spec fn cost_limit() -> int {
    0x10_0000_0000_0000_0000_0000_0000
}

/// The cost of a bounded box stays within `cost_limit()`.
pub proof fn lemma_cost_range(bounds: Aabb, count: int)
    requires
        0 <= count <= u32::MAX,
        count == 0 || bounds.is_bounded(),
    ensures
        0 <= node_cost(bounds, count) <= cost_limit(),
{
    if count != 0 {
        let dx = bounds.extent(0);
        let dy = bounds.extent(1);
        let dz = bounds.extent(2);
        let m: int = 0x2_0000_0000;
        assert(0 <= dx <= m && 0 <= dy <= m && 0 <= dz <= m);
        assert(0 <= dx * dy <= m * m && 0 <= dy * dz <= m * m && 0 <= dx * dz <= m * m)
            by (nonlinear_arith)
            requires
                0 <= dx <= m && 0 <= dy <= m && 0 <= dz <= m,
        ;
        let a = bounds.half_area();
        assert(0 <= a <= 3 * (m * m));
        assert(m * m == 0x4_0000_0000_0000_0000) by (nonlinear_arith)
            requires
                m == 0x2_0000_0000,
        ;
        assert(0 <= count * a <= 0x1_0000_0000 * (3 * 0x4_0000_0000_0000_0000)) by (nonlinear_arith)
            requires
                0 <= count <= 0x1_0000_0000,
                0 <= a <= 3 * 0x4_0000_0000_0000_0000,
        ;
    }
}

/// The members of one side of a split are members of the whole.
pub proof fn lemma_side_members(s: Seq<Triangle>, axis: int, position: int, left: bool)
    ensures
        side_of(s, axis, position, left).len() <= s.len(),
        forall|i: int|
            0 <= i < side_of(s, axis, position, left).len() ==> {
                let t = #[trigger] side_of(s, axis, position, left)[i];
                is_left(t, axis, position) == left && s.contains(t)
            },
        forall|i: int|
            0 <= i < s.len() && is_left(s[i], axis, position) == left ==> side_of(
                s,
                axis,
                position,
                left,
            ).contains(#[trigger] s[i]),
        all_wf(s) ==> all_wf(side_of(s, axis, position, left)),
        side_of(s, axis, position, true).len() + side_of(s, axis, position, false).len() == s.len(),
    decreases s.len(),
{
    if s.len() > 0 {
        let r = s.drop_last();
        let t = s.last();
        lemma_side_members(r, axis, position, left);
        lemma_side_members(r, axis, position, !left);
        let sr = side_of(r, axis, position, left);
        let ss = side_of(s, axis, position, left);
        assert forall|i: int| 0 <= i < ss.len() implies {
            let t = #[trigger] ss[i];
            is_left(t, axis, position) == left && s.contains(t)
        } by {
            if i < sr.len() {
                assert(ss[i] == sr[i]);
                let j = choose|j: int| 0 <= j < r.len() && r[j] == sr[i];
                assert(s[j] == sr[i]);
            } else {
                assert(ss[i] == s[s.len() - 1]);
            }
        }
        assert forall|i: int| 0 <= i < s.len() && is_left(s[i], axis, position) == left implies ss.contains(
            #[trigger] s[i],
        ) by {
            if i < r.len() {
                assert(r[i] == s[i]);
                assert(sr.contains(r[i]));
                let j = choose|j: int| 0 <= j < sr.len() && sr[j] == r[i];
                assert(ss[j] == s[i]);
            } else {
                assert(ss[ss.len() - 1] == s[i]);
            }
        }
        if all_wf(s) {
            assert forall|i: int| 0 <= i < ss.len() implies (#[trigger] ss[i]).wf() by {
                let t = ss[i];
                assert(s.contains(t));
                let j = choose|j: int| 0 <= j < s.len() && s[j] == t;
                assert(s[j].wf());
            }
        }
    }
}

/// The cost of a split of well-formed triangles stays within twice
/// `cost_limit()`.
pub proof fn lemma_split_cost_range(s: Seq<Triangle>, axis: int, position: int)
    requires
        all_wf(s),
        s.len() <= u32::MAX,
    ensures
        0 <= split_cost(s, axis, position) <= 2 * cost_limit(),
{
    let l = side_of(s, axis, position, true);
    let r = side_of(s, axis, position, false);
    lemma_side_members(s, axis, position, true);
    lemma_side_members(s, axis, position, false);
    if l.len() > 0 {
        lemma_aabb_bounded(l);
    }
    if r.len() > 0 {
        lemma_aabb_bounded(r);
    }
    lemma_cost_range(aabb_of(l), l.len() as int);
    lemma_cost_range(aabb_of(r), r.len() as int);
}

/// The best of the first `n` candidates is either no split at all or a
/// plane on one of the three axes together with its exact cost.
pub proof fn lemma_best_of_first(bounds: Aabb, s: Seq<Triangle>, n: nat)
    requires
        all_wf(s),
        s.len() <= u32::MAX,
        n <= 15,
    ensures
        ({
            let b = best_of_first(bounds, s, n);
            &&& b.axis < 3
            &&& b == no_split() || (b.cost == split_cost(s, b.axis as int, b.position as int)
                && b.cost <= 2 * cost_limit())
        }),
    decreases n,
{
    reveal(best_of_first);
    if n > 0 {
        lemma_best_of_first(bounds, s, (n - 1) as nat);
        let (axis, position) = candidate_number(bounds, n - 1);
        lemma_split_cost_range(s, axis, position as int);
    }
}

/// How the best candidate changes with candidate `i` of `axis`: it is
/// taken when it is strictly cheaper than the best one before it.
proof fn lemma_best_step(bounds: Aabb, s: Seq<Triangle>, axis: int, i: int)
    requires
        0 <= axis < 3,
        0 <= i < 5,
    ensures
        candidate_number(bounds, axis * 5 + i) == (axis, candidate(bounds, axis, i + 1)),
        best_of_first(bounds, s, 0) == no_split(),
        best_of_first(bounds, s, (axis * 5 + i + 1) as nat) == ({
            let before = best_of_first(bounds, s, (axis * 5 + i) as nat);
            let position = candidate(bounds, axis, i + 1);
            let cost = split_cost(s, axis, position as int);
            if cost < before.cost {
                Split { axis: axis as usize, position, cost: cost as u128 }
            } else {
                before
            }
        }),
{
    reveal(best_of_first);
    assert((axis * 5 + i) / 5 == axis && (axis * 5 + i) % 5 == i);
}

/// The best of the first `n` candidates costs no more than any of them,
/// and it is one of them, unless it is no split at all.
pub proof fn lemma_best_is_cheapest(bounds: Aabb, s: Seq<Triangle>, n: nat, m: int)
    requires
        all_wf(s),
        s.len() <= u32::MAX,
        0 <= m < n <= 15,
    ensures
        ({
            let b = best_of_first(bounds, s, n);
            let (axis, position) = candidate_number(bounds, m);
            &&& b.cost <= split_cost(s, axis, position as int)
            &&& b != no_split() ==> exists|w: int|
                0 <= w < n && b.axis == candidate_number(bounds, w).0 && b.position
                    == candidate_number(bounds, w).1 && b.cost == split_cost(
                    s,
                    #[trigger] candidate_number(bounds, w).0,
                    candidate_number(bounds, w).1 as int,
                )
        }),
    decreases n,
{
    reveal(best_of_first);
    let last = n - 1;
    let (axis, position) = candidate_number(bounds, last);
    lemma_split_cost_range(s, axis, position as int);
    lemma_best_of_first(bounds, s, (n - 1) as nat);
    let before = best_of_first(bounds, s, (n - 1) as nat);
    let b = best_of_first(bounds, s, n);
    if m < n - 1 {
        lemma_best_is_cheapest(bounds, s, (n - 1) as nat, m);
    }
    if b != no_split() {
        if split_cost(s, axis, position as int) < before.cost {
            assert(b.axis == candidate_number(bounds, last).0);
        } else {
            assert(b == before);
            assert(n > 1);
            lemma_best_is_cheapest(bounds, s, (n - 1) as nat, 0);
        }
    }
}

/// When every triangle lies on one side of a plane, that side is the
/// whole sequence.
pub proof fn lemma_side_all(s: Seq<Triangle>, axis: int, position: int, left: bool)
    requires
        side_of(s, axis, position, left).len() == s.len(),
    ensures
        side_of(s, axis, position, left) == s,
    decreases s.len(),
{
    if s.len() > 0 {
        lemma_side_members(s.drop_last(), axis, position, left);
        lemma_side_all(s.drop_last(), axis, position, left);
        assert(s.drop_last().push(s.last()) =~= s);
    } else {
        assert(side_of(s, axis, position, left) =~= s);
    }
}

/// Tells whether a split is worth making: its cost is strictly below nine
/// tenths of the cost of the node.
pub fn accepts(split_cost: u128, parent_cost: u128) -> (r: bool)
    requires
        split_cost == INFINITE_COST || split_cost <= 2 * cost_limit(),
        parent_cost <= cost_limit(),
    ensures
        r == spec_accepts(split_cost as int, parent_cost as int),
{
    split_cost != INFINITE_COST && 10 * split_cost < 9 * parent_cost
}

/// Tells whether a triangle lies on the left of a plane.
pub fn lies_left(triangle: &Triangle, split_axis: usize, split_position: i64) -> (r: bool)
    requires
        split_axis < 3,
    ensures
        r == is_left(*triangle, split_axis as int, split_position as int),
{
    let p: i128 = split_position as i128;
    let a: i128 = triangle.a.get(split_axis) as i128;
    let b: i128 = triangle.b.get(split_axis) as i128;
    let c: i128 = triangle.c.get(split_axis) as i128;
    6 * a < p || 6 * b < p || 6 * c < p
}

impl Bvh {
    /// The node's bounding box.
    pub open spec fn bounds(self) -> Aabb {
        Aabb { min: self.min_bound, max: self.max_bound }
    }

    /// A leaf has no children: both child indices are zero.
    pub open spec fn is_leaf(self) -> bool {
        self.left_offset == 0 && self.right_offset == 0
    }

    /// The node as a leaf or an internal node. The children of a node
    /// always stand behind it in the node array, so no child has index
    /// zero and two zero indices can only mean "no children".
    pub open spec fn spec_kind(self) -> NodeKind {
        if self.is_leaf() {
            NodeKind::Leaf {
                triangle_offset: self.triangle_offset,
                triangle_count: self.triangle_count,
            }
        } else {
            NodeKind::Internal { left: self.left_offset, right: self.right_offset }
        }
    }

    /// Tells whether the node is a leaf or an internal node.
    pub fn kind(&self) -> (r: NodeKind)
        ensures
            r == self.spec_kind(),
    {
        if self.left_offset == 0 && self.right_offset == 0 {
            NodeKind::Leaf {
                triangle_offset: self.triangle_offset,
                triangle_count: self.triangle_count,
            }
        } else {
            NodeKind::Internal { left: self.left_offset, right: self.right_offset }
        }
    }

    /// The node's own cost.
    pub open spec fn cost(self) -> int {
        node_cost(self.bounds(), self.triangle_count as int)
    }

    /// Computes the cost of a node with the given box and triangle count.
    #[must_use]
    pub fn bvh_cost(min_bound: Point, max_bound: Point, count: u32) -> (r: u128)
        requires
            count == 0 || (Aabb { min: min_bound, max: max_bound }).is_bounded(),
        ensures
            r == node_cost((Aabb { min: min_bound, max: max_bound }), count as int),
            r <= cost_limit(),
    {
        proof {
            lemma_cost_range((Aabb { min: min_bound, max: max_bound }), count as int);
        }
        if count == 0 {
            return 0;
        }
        let dx: u128 = (max_bound.x - min_bound.x) as u128;
        let dy: u128 = (max_bound.y - min_bound.y) as u128;
        let dz: u128 = (max_bound.z - min_bound.z) as u128;
        let m: u128 = 0x2_0000_0000;
        assert(dx * dy <= m * m && dy * dz <= m * m && dx * dz <= m * m) by (nonlinear_arith)
            requires
                0 <= dx <= m && 0 <= dy <= m && 0 <= dz <= m,
        ;
        assert(m * m == 0x4_0000_0000_0000_0000) by (nonlinear_arith)
            requires
                m == 0x2_0000_0000,
        ;
        let surface_area: u128 = dx * dy + dy * dz + dx * dz;
        assert(surface_area == (Aabb { min: min_bound, max: max_bound }).half_area());
        let n: u128 = count as u128;
        assert(n * surface_area <= 0x1_0000_0000 * (3 * 0x4_0000_0000_0000_0000)) by (nonlinear_arith)
            requires
                0 <= n <= 0x1_0000_0000,
                0 <= surface_area <= 3 * 0x4_0000_0000_0000_0000,
        ;
        n * surface_area
    }

    /// Evaluates the cost of splitting the triangles at the given plane.
    #[must_use]
    #[verifier::rlimit(30)]
    pub fn evaluate_split(split_axis: usize, split_position: i64, triangles: &[Triangle]) -> (r: u128)
        requires
            split_axis < 3,
            all_wf(triangles@),
            triangles@.len() <= u32::MAX,
        ensures
            r == split_cost(triangles@, split_axis as int, split_position as int),
            r <= 2 * cost_limit(),
    {
        let ghost s = triangles@;
        let ghost ax = split_axis as int;
        let ghost pos = split_position as int;
        let mut left = Aabb::empty();
        let mut right = Aabb::empty();
        let mut count_left: u32 = 0;
        let mut count_right: u32 = 0;
        let n: usize = triangles.len();
        let mut i: usize = 0;
        while i < n
            invariant
                i <= n,
                n == s.len(),
                s == triangles@,
                n <= u32::MAX,
                split_axis < 3,
                ax == split_axis as int,
                pos == split_position as int,
                left == aabb_of(side_of(s.take(i as int), ax, pos, true)),
                right == aabb_of(side_of(s.take(i as int), ax, pos, false)),
                count_left == side_of(s.take(i as int), ax, pos, true).len(),
                count_right == side_of(s.take(i as int), ax, pos, false).len(),
                count_left + count_right == i,
            decreases n - i,
        {
            let triangle = &triangles[i];
            proof {
                assert(s.take(i + 1).drop_last() =~= s.take(i as int));
                assert(s.take(i + 1).last() == s[i as int]);
                lemma_aabb_push(side_of(s.take(i as int), ax, pos, true), s[i as int]);
                lemma_aabb_push(side_of(s.take(i as int), ax, pos, false), s[i as int]);
            }
            if lies_left(triangle, split_axis, split_position) {
                left.enclose(triangle);
                count_left += 1;
            } else {
                right.enclose(triangle);
                count_right += 1;
            }
            i += 1;
        }
        proof {
            assert(s.take(n as int) =~= s);
            lemma_side_members(s, ax, pos, true);
            lemma_side_members(s, ax, pos, false);
            if count_left > 0 {
                lemma_aabb_bounded(side_of(s, ax, pos, true));
            }
            if count_right > 0 {
                lemma_aabb_bounded(side_of(s, ax, pos, false));
            }
        }
        Self::bvh_cost(left.min, left.max, count_left) + Self::bvh_cost(
            right.min,
            right.max,
            count_right,
        )
    }

    /// Finds the best split plane for a node and its triangles.
    #[must_use]
    #[verifier::rlimit(30)]
    pub fn choose_split(bvh: Self, triangles: &[Triangle]) -> (r: Split)
        requires
            all_wf(triangles@),
            triangles@.len() <= u32::MAX,
            triangles@.len() > MIN_TRIANGLES ==> bvh.bounds().is_bounded(),
        ensures
            r == best_split(bvh.bounds(), triangles@),
            r.axis < 3,
            r.cost == INFINITE_COST || r.cost <= 2 * cost_limit(),
    {
        if triangles.len() <= MIN_TRIANGLES {
            return Split { axis: 0, position: 0, cost: INFINITE_COST };
        }
        let ghost s = triangles@;
        let ghost bounds = bvh.bounds();
        let mut best = Split { axis: 0, position: 0, cost: INFINITE_COST };
        let mut axis: usize = 0;
        proof {
            lemma_best_step(bounds, s, 0, 0);
        }
        while axis < 3
            invariant
                axis <= 3,
                s == triangles@,
                all_wf(s),
                s.len() <= u32::MAX,
                bounds == bvh.bounds(),
                bounds.is_bounded(),
                best == best_of_first(bounds, s, (axis * 5) as nat),
                best.axis < 3,
                best.cost == INFINITE_COST || best.cost <= 2 * cost_limit(),
            decreases 3 - axis,
        {
            let low: i64 = bvh.min_bound.get(axis);
            let delta: i64 = bvh.max_bound.get(axis) - low;
            let mut i: u8 = 0;
            while i < SPLIT_TEST_COUNT
                invariant
                    i <= SPLIT_TEST_COUNT,
                    axis < 3,
                    s == triangles@,
                    all_wf(s),
                    s.len() <= u32::MAX,
                    bounds == bvh.bounds(),
                    bounds.is_bounded(),
                    low == bounds.min.coord(axis as int),
                    delta == bounds.extent(axis as int),
                    best == best_of_first(bounds, s, (axis * 5 + i) as nat),
                    best.axis < 3,
                    best.cost == INFINITE_COST || best.cost <= 2 * cost_limit(),
                decreases SPLIT_TEST_COUNT - i,
            {
                let k: i64 = (i + 1) as i64;
                assert(0 <= k * delta <= 5 * 0x2_0000_0000) by (nonlinear_arith)
                    requires
                        1 <= k <= 5,
                        0 <= delta <= 0x2_0000_0000,
                ;
                let split_pos: i64 = SPLIT_SCALE * low + k * delta;
                let cost = Self::evaluate_split(axis, split_pos, triangles);
                proof {
                    lemma_best_step(bounds, s, axis as int, i as int);
                    assert(split_pos == candidate(bounds, axis as int, k as int));
                }
                if cost < best.cost {
                    best = Split { axis, position: split_pos, cost };
                }
                i += 1;
            }
            axis += 1;
        }
        best
    }
}

} // verus!
