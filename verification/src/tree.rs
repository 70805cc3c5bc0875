use crate::bvh::{
    accepts, best_split, is_left, lemma_best_of_first, lemma_cost_range, lemma_side_all,
    lemma_side_members, lies_left, node_cost, side_of, spec_accepts, Bvh,
};
use crate::geometry::{
    aabb_of, all_wf, lemma_aabb_bounded, lemma_aabb_push, lemma_aabb_same_members,
    lemma_wf_permutation, Aabb, Triangle,
};
use crate::invariants::{lemma_tree_is_well_formed, node_ok};
use vstd::slice::slice_subrange;
use vstd::prelude::*;

verus! {

/// The sequence with the items at `i` and `j` exchanged.
pub open spec fn swapped(s: Seq<Triangle>, i: int, j: int) -> Seq<Triangle> {
    s.update(i, s[j]).update(j, s[i])
}

/// The state of the in-place partition after the first `i` triangles have
/// been scanned: the reordered sequence and the number of left triangles
/// found. Each left triangle is exchanged with the item in the first slot
/// behind the left triangles found before it.
pub open spec fn partition_state(s: Seq<Triangle>, axis: int, position: int, i: nat) -> (
    Seq<Triangle>,
    nat,
)
    decreases i,
{
    if i == 0 {
        (s, 0)
    } else {
        let (p, count) = partition_state(s, axis, position, (i - 1) as nat);
        if is_left(p[i - 1], axis, position) {
            (swapped(p, i - 1, count as int), count + 1)
        } else {
            (p, count)
        }
    }
}

/// The triangles of `s` partitioned at a plane: left triangles first, in
/// their order in `s`, then the right triangles.
pub open spec fn partitioned(s: Seq<Triangle>, axis: int, position: int) -> Seq<Triangle> {
    partition_state(s, axis, position, s.len()).0
}

/// The number of triangles of `s` on the left of a plane.
pub open spec fn left_count(s: Seq<Triangle>, axis: int, position: int) -> nat {
    side_of(s, axis, position, true).len()
}

/// What the partition scan has established after `i` steps: the sequence
/// is a rearrangement of `s`, the left triangles found so far stand first
/// and in the order they had in `s`, the right ones behind them, and the rest
/// is untouched.
pub proof fn lemma_partition_state(s: Seq<Triangle>, axis: int, position: int, i: nat)
    requires
        i <= s.len(),
    ensures
        ({
            let (p, count) = partition_state(s, axis, position, i);
            &&& p.len() == s.len()
            &&& count <= i
            &&& count == left_count(s.take(i as int), axis, position)
            &&& p.take(count as int) == side_of(s.take(i as int), axis, position, true)
            &&& p.to_multiset() == s.to_multiset()
            &&& forall|k: int| 0 <= k < count ==> is_left(#[trigger] p[k], axis, position)
            &&& forall|k: int| count <= k < i ==> !is_left(#[trigger] p[k], axis, position)
            &&& forall|k: int| i <= k < s.len() ==> #[trigger] p[k] == s[k]
        }),
    decreases i,
{
    if i == 0 {
        assert(s.take(0) =~= Seq::<Triangle>::empty());
        assert(s.take(0).take(0) =~= side_of(s.take(0), axis, position, true));
        let (p, count) = partition_state(s, axis, position, i);
        assert(p.take(0) =~= Seq::<Triangle>::empty());
    } else {
        let j = (i - 1) as nat;
        lemma_partition_state(s, axis, position, j);
        let (p, count) = partition_state(s, axis, position, j);
        let (q, count2) = partition_state(s, axis, position, i);
        assert(s.take(i as int).drop_last() =~= s.take(j as int));
        assert(s.take(i as int).last() == s[j as int]);
        assert(p[j as int] == s[j as int]);
        if is_left(p[j as int], axis, position) {
            let c = count as int;
            assert(q == swapped(p, j as int, c));
            assert(q.take(c + 1) =~= p.take(c).push(s[j as int]));
            if c == j {
                assert(q =~= p);
            } else {
                lemma_swap_multiset(p, j as int, c);
            }
            assert forall|k: int| count2 <= k < i implies !is_left(#[trigger] q[k], axis, position) by {
                if k == j {
                    if c < j {
                        assert(q[k] == p[c]);
                    }
                } else {
                    assert(q[k] == p[k]);
                }
            }
            assert forall|k: int| 0 <= k < count2 implies is_left(#[trigger] q[k], axis, position) by {
                if k < c {
                    assert(q[k] == p[k]);
                }
            }
        } else {
            assert(q == p);
        }
    }
}

/// Exchanging two items rearranges a sequence.
proof fn lemma_swap_multiset(p: Seq<Triangle>, i: int, j: int)
    requires
        0 <= i < p.len(),
        0 <= j < p.len(),
        i != j,
    ensures
        swapped(p, i, j).to_multiset() == p.to_multiset(),
{
    let m = p.to_multiset();
    let once = p.update(i, p[j]);
    vstd::seq_lib::to_multiset_update(p, i, p[j]);
    vstd::seq_lib::to_multiset_update(once, j, p[i]);
    assert(p.contains(p[i]));
    assert(p.contains(p[j]));
    vstd::seq_lib::to_multiset_contains(p, p[i]);
    vstd::seq_lib::to_multiset_contains(p, p[j]);
    assert(once[j] == p[j]);
    let m2 = m.insert(p[j]).remove(p[i]).insert(p[i]).remove(p[j]);
    assert(m2 =~= m) by {
        broadcast use vstd::multiset::group_multiset_axioms;

        assert forall|x: Triangle| m2.count(x) == m.count(x) by {}
    }
}

/// A leaf node with the given box and triangle range.
pub open spec fn leaf_node(bounds: Aabb, offset: int, count: int) -> Bvh {
    Bvh {
        min_bound: bounds.min,
        max_bound: bounds.max,
        left_offset: 0,
        right_offset: 0,
        triangle_offset: offset as u32,
        triangle_count: count as u32,
    }
}

/// An internal node with the given box, triangle range and children.
pub open spec fn inner_node(bounds: Aabb, offset: int, count: int, left: int, right: int) -> Bvh {
    Bvh {
        min_bound: bounds.min,
        max_bound: bounds.max,
        left_offset: left as u32,
        right_offset: right as u32,
        triangle_offset: offset as u32,
        triangle_count: count as u32,
    }
}

/// Whether the node holding the triangles `s` is split: its best split
/// costs strictly less than nine tenths of the node itself.
pub open spec fn should_split(s: Seq<Triangle>) -> bool {
    spec_accepts(
        best_split(aabb_of(s), s).cost as int,
        node_cost(aabb_of(s), s.len() as int),
    )
}

/// The left part of `s` after it was partitioned at its best split.
pub open spec fn left_part(s: Seq<Triangle>) -> Seq<Triangle> {
    let best = best_split(aabb_of(s), s);
    partitioned(s, best.axis as int, best.position as int).take(
        left_count(s, best.axis as int, best.position as int) as int,
    )
}

/// The right part of `s` after it was partitioned at its best split.
pub open spec fn right_part(s: Seq<Triangle>) -> Seq<Triangle> {
    let best = best_split(aabb_of(s), s);
    partitioned(s, best.axis as int, best.position as int).skip(
        left_count(s, best.axis as int, best.position as int) as int,
    )
}

/// The two parts of a partition are as long as the two sides of the split.
pub proof fn lemma_part_lengths(s: Seq<Triangle>)
    ensures
        left_part(s).len() + right_part(s).len() == s.len(),
        left_part(s).len() == left_count(
            s,
            best_split(aabb_of(s), s).axis as int,
            best_split(aabb_of(s), s).position as int,
        ),
{
    let best = best_split(aabb_of(s), s);
    lemma_partition_state(s, best.axis as int, best.position as int, s.len());
    assert(s.take(s.len() as int) =~= s);
}

/// The nodes built for the triangles `s`, in the order in which they are
/// appended: the node for `s` itself, then the subtree of its left part,
/// then the subtree of its right part. `offset` is the index of the first
/// triangle of `s` in the scene's triangle array and `base` the index of
/// the first node in the scene's node array.
///
/// A node is split exactly when `should_split` holds. That both parts are
/// then shorter than `s` is asked here only to make the definition well
/// founded for every sequence: for well-formed triangles it follows from
/// `should_split`, as `lemma_split_is_proper` shows.
pub open spec fn tree_nodes(s: Seq<Triangle>, offset: int, base: int) -> Seq<Bvh>
    decreases s.len(),
    via tree_nodes_decreases
{
    let l = left_part(s);
    let r = right_part(s);
    if should_split(s) && 0 < l.len() < s.len() {
        let left = tree_nodes(l, offset, base + 1);
        let right = tree_nodes(r, offset + l.len(), base + 1 + left.len());
        seq![
            inner_node(aabb_of(s), offset, s.len() as int, base + 1, base + 1 + left.len()),
        ] + left + right
    } else {
        seq![leaf_node(aabb_of(s), offset, s.len() as int)]
    }
}

#[via_fn]
proof fn tree_nodes_decreases(s: Seq<Triangle>, offset: int, base: int) {
    lemma_part_lengths(s);
}

/// The order in which the triangles of `s` stand once its subtree is
/// built: every split node has its left triangles before its right ones.
pub open spec fn tree_order(s: Seq<Triangle>) -> Seq<Triangle>
    decreases s.len(),
    via tree_order_decreases
{
    let l = left_part(s);
    let r = right_part(s);
    if should_split(s) && 0 < l.len() < s.len() {
        tree_order(l) + tree_order(r)
    } else {
        s
    }
}

#[via_fn]
proof fn tree_order_decreases(s: Seq<Triangle>) {
    lemma_part_lengths(s);
}

/// An accepted split leaves triangles on both sides: a plane with all
/// triangles on one side costs as much as the node itself.
pub proof fn lemma_split_is_proper(s: Seq<Triangle>)
    requires
        all_wf(s),
        s.len() <= u32::MAX,
        should_split(s),
    ensures
        0 < left_part(s).len() < s.len(),
{
    let bounds = aabb_of(s);
    let best = best_split(bounds, s);
    let axis = best.axis as int;
    let position = best.position as int;
    lemma_best_of_first(bounds, s, 15);
    lemma_part_lengths(s);
    lemma_side_members(s, axis, position, true);
    lemma_aabb_bounded(s);
    lemma_cost_range(bounds, s.len() as int);
    let l = side_of(s, axis, position, true);
    let r = side_of(s, axis, position, false);
    if l.len() == 0 {
        lemma_side_all(s, axis, position, false);
    } else if l.len() == s.len() {
        lemma_side_all(s, axis, position, true);
    }
}

/// The triangles of a subtree are a rearrangement of the triangles it was
/// built from.
pub proof fn lemma_tree_order(s: Seq<Triangle>)
    ensures
        tree_order(s).len() == s.len(),
        tree_order(s).to_multiset() == s.to_multiset(),
    decreases s.len(),
{
    let l = left_part(s);
    let r = right_part(s);
    lemma_part_lengths(s);
    if should_split(s) && 0 < l.len() < s.len() {
        lemma_tree_order(l);
        lemma_tree_order(r);
        let best = best_split(aabb_of(s), s);
        let p = partitioned(s, best.axis as int, best.position as int);
        lemma_partition_state(s, best.axis as int, best.position as int, s.len());
        assert(l + r =~= p);
        vstd::seq_lib::lemma_multiset_commutative(l, r);
        vstd::seq_lib::lemma_multiset_commutative(tree_order(l), tree_order(r));
    }
}

/// A subtree has at least one node.
pub proof fn lemma_tree_nodes_nonempty(s: Seq<Triangle>, offset: int, base: int)
    ensures
        tree_nodes(s, offset, base).len() >= 1,
{
}

/// After the partition of `lo..hi`, the left part stands in `lo..mid`
/// and the right part in `mid..hi`.
proof fn lemma_after_partition(
    t0: Seq<Triangle>,
    t1: Seq<Triangle>,
    lo: int,
    mid: int,
    hi: int,
    p: Seq<Triangle>,
)
    requires
        0 <= lo <= mid <= hi <= t0.len(),
        p.len() == hi - lo,
        t1 == t0.subrange(0, lo) + p + t0.subrange(hi, t0.len() as int),
    ensures
        t1.len() == t0.len(),
        t1.subrange(lo, mid) == p.take(mid - lo),
        t1.subrange(mid, hi) == p.skip(mid - lo),
{
    assert(t1.subrange(lo, mid) =~= p.take(mid - lo));
    assert(t1.subrange(mid, hi) =~= p.skip(mid - lo));
}

/// Reordering `lo..mid` leaves `mid..hi` as it was.
proof fn lemma_after_left(
    t1: Seq<Triangle>,
    t2: Seq<Triangle>,
    lo: int,
    mid: int,
    hi: int,
    left: Seq<Triangle>,
)
    requires
        0 <= lo <= mid <= hi <= t1.len(),
        left.len() == mid - lo,
        t2 == t1.subrange(0, lo) + left + t1.subrange(mid, t1.len() as int),
    ensures
        t2.len() == t1.len(),
        t2.subrange(mid, hi) == t1.subrange(mid, hi),
{
    assert(t2.subrange(mid, hi) =~= t1.subrange(mid, hi));
}

/// Partitioning a range, then reordering its left part and its right
/// part, replaces the range by the two reordered parts, one after the
/// other, and leaves the rest of the array as it was.
proof fn lemma_halves_joined(
    t0: Seq<Triangle>,
    t1: Seq<Triangle>,
    t2: Seq<Triangle>,
    t3: Seq<Triangle>,
    lo: int,
    mid: int,
    hi: int,
    p: Seq<Triangle>,
    left: Seq<Triangle>,
    right: Seq<Triangle>,
)
    requires
        0 <= lo <= mid <= hi <= t0.len(),
        p.len() == hi - lo,
        left.len() == mid - lo,
        right.len() == hi - mid,
        t1 == t0.subrange(0, lo) + p + t0.subrange(hi, t0.len() as int),
        t2 == t1.subrange(0, lo) + left + t1.subrange(mid, t1.len() as int),
        t3 == t2.subrange(0, mid) + right + t2.subrange(hi, t2.len() as int),
    ensures
        t3 == t0.subrange(0, lo) + (left + right) + t0.subrange(hi, t0.len() as int),
{
    let goal = t0.subrange(0, lo) + (left + right) + t0.subrange(hi, t0.len() as int);
    assert(t1.len() == t0.len());
    assert(t2.len() == t0.len());
    assert(t3.len() == t0.len());
    assert forall|k: int| 0 <= k < t3.len() implies t3[k] == goal[k] by {
        if k < lo {
            assert(t3[k] == t2[k]);
            assert(t2[k] == t1[k]);
            assert(t1[k] == t0[k]);
        } else if k < mid {
            assert(t3[k] == t2[k]);
            assert(t2[k] == left[k - lo]);
        } else if k < hi {
            assert(t3[k] == right[k - mid]);
        } else {
            assert(t3[k] == t2[k]);
            assert(t2[k] == t1[k]);
            assert(t1[k] == t0[k]);
        }
    }
    assert(t3 =~= goal);
}

/// The node array once both subtrees stand behind the split node.
proof fn lemma_nodes_joined(
    n0: Seq<Bvh>,
    n2: Seq<Bvh>,
    n4: Seq<Bvh>,
    n5: Seq<Bvh>,
    half_patched: Bvh,
    parent: Bvh,
    right_leaf: Bvh,
    nl: Seq<Bvh>,
    nr: Seq<Bvh>,
)
    requires
        n0.len() > 0,
        n2 == n0.update(n0.len() - 1, half_patched) + nl,
        n4 == n2.update(n0.len() - 1, parent).push(right_leaf),
        n5 == n4.drop_last() + nr,
    ensures
        n4.drop_last() == n0.drop_last().push(parent) + nl,
        n5 == n0.drop_last() + (seq![parent] + nl + nr),
{
    assert(n4.drop_last() =~= n0.drop_last().push(parent) + nl);
    assert(n5 =~= n0.drop_last() + (seq![parent] + nl + nr));
}

/// A node that is not split leaves both arrays as they are.
proof fn lemma_leaf_arrays(nodes: Seq<Bvh>, tris: Seq<Triangle>, lo: int, hi: int)
    requires
        0 <= lo <= hi <= tris.len(),
        nodes.len() > 0,
        nodes.last() == leaf_node(aabb_of(tris.subrange(lo, hi)), lo, hi - lo),
        !should_split(tris.subrange(lo, hi)),
    ensures
        nodes == nodes.drop_last() + tree_nodes(tris.subrange(lo, hi), lo, nodes.len() - 1),
        tris == tris.subrange(0, lo) + tree_order(tris.subrange(lo, hi)) + tris.subrange(
            hi,
            tris.len() as int,
        ),
{
    let s = tris.subrange(lo, hi);
    assert(nodes =~= nodes.drop_last() + seq![nodes.last()]);
    assert(tris =~= tris.subrange(0, lo) + s + tris.subrange(hi, tris.len() as int));
}

/// What a node that is split is made of: two non-empty, well-formed parts
/// whose subtrees follow the node in the node array.
proof fn lemma_split_parts(s: Seq<Triangle>, offset: int, base: int)
    requires
        all_wf(s),
        s.len() <= u32::MAX,
        should_split(s),
    ensures
        ({
            let l = left_part(s);
            let r = right_part(s);
            let nl = tree_nodes(l, offset, base + 1);
            let nr = tree_nodes(r, offset + l.len(), base + 1 + nl.len());
            &&& 0 < l.len() < s.len()
            &&& l.len() + r.len() == s.len()
            &&& l.len() == left_count(
                s,
                best_split(aabb_of(s), s).axis as int,
                best_split(aabb_of(s), s).position as int,
            )
            &&& partitioned(
                s,
                best_split(aabb_of(s), s).axis as int,
                best_split(aabb_of(s), s).position as int,
            ).len() == s.len()
            &&& all_wf(l)
            &&& all_wf(r)
            &&& nl.len() >= 1
            &&& nr.len() >= 1
            &&& tree_order(l).len() == l.len()
            &&& tree_order(r).len() == r.len()
            &&& tree_order(s) == tree_order(l) + tree_order(r)
            &&& tree_nodes(s, offset, base) == seq![
                inner_node(aabb_of(s), offset, s.len() as int, base + 1, base + 1 + nl.len()),
            ] + nl + nr
            &&& tree_nodes(s, offset, base).len() == 1 + nl.len() + nr.len()
        }),
{
    let best = best_split(aabb_of(s), s);
    let p = partitioned(s, best.axis as int, best.position as int);
    let l = left_part(s);
    let r = right_part(s);
    lemma_split_is_proper(s);
    lemma_part_lengths(s);
    lemma_partition_state(s, best.axis as int, best.position as int, s.len());
    lemma_wf_permutation(s, p);
    assert forall|k: int| 0 <= k < l.len() implies (#[trigger] l[k]).wf() by {
        assert(l[k] == p[k]);
    }
    assert forall|k: int| 0 <= k < r.len() implies (#[trigger] r[k]).wf() by {
        assert(r[k] == p[k + l.len()]);
    }
    lemma_tree_order(l);
    lemma_tree_order(r);
    lemma_tree_nodes_nonempty(l, offset, base + 1);
    lemma_tree_nodes_nonempty(r, offset + l.len(), base + 1 + tree_nodes(l, offset, base + 1).len());
}

impl Bvh {
    /// Partitions the triangles in `lo..hi` in place at the given plane:
    /// each left triangle is exchanged into the next free left slot, and
    /// what remains behind the left triangles is the right part. Returns
    /// the number of left triangles and the tight boxes of both parts.
    #[verifier::rlimit(30)]
    pub fn partition(
        triangles: &mut Vec<Triangle>,
        lo: usize,
        hi: usize,
        split_axis: usize,
        split_position: i64,
    ) -> (r: (u32, Aabb, Aabb))
        requires
            lo <= hi <= old(triangles).len() <= u32::MAX,
            split_axis < 3,
        ensures
            final(triangles)@ == old(triangles)@.subrange(0, lo as int) + partitioned(
                old(triangles)@.subrange(lo as int, hi as int),
                split_axis as int,
                split_position as int,
            ) + old(triangles)@.subrange(hi as int, old(triangles).len() as int),
            r.0 == left_count(
                old(triangles)@.subrange(lo as int, hi as int),
                split_axis as int,
                split_position as int,
            ),
            r.1 == aabb_of(final(triangles)@.subrange(lo as int, lo + r.0)),
            r.2 == aabb_of(final(triangles)@.subrange(lo + r.0, hi as int)),
    {
        let ghost before = triangles@;
        let ghost s = triangles@.subrange(lo as int, hi as int);
        let ghost ax = split_axis as int;
        let ghost pos = split_position as int;
        let mut left = Aabb::empty();
        let mut right = Aabb::empty();
        let mut count: u32 = 0;
        let mut i: usize = lo;
        proof {
            assert(triangles@.subrange(lo as int, lo as int) =~= Seq::<Triangle>::empty());
        }
        while i < hi
            invariant
                lo <= i <= hi <= before.len() <= u32::MAX,
                triangles@.len() == before.len(),
                split_axis < 3,
                ax == split_axis as int,
                pos == split_position as int,
                s == before.subrange(lo as int, hi as int),
                triangles@.subrange(0, lo as int) == before.subrange(0, lo as int),
                triangles@.subrange(hi as int, before.len() as int) == before.subrange(
                    hi as int,
                    before.len() as int,
                ),
                triangles@.subrange(lo as int, hi as int) == partition_state(
                    s,
                    ax,
                    pos,
                    (i - lo) as nat,
                ).0,
                count == partition_state(s, ax, pos, (i - lo) as nat).1,
                count <= i - lo,
                left == aabb_of(triangles@.subrange(lo as int, lo + count)),
                right == aabb_of(triangles@.subrange(lo + count, i as int)),
            decreases hi - i,
        {
            let ghost cur = triangles@;
            let ghost p = cur.subrange(lo as int, hi as int);
            let triangle = triangles[i];
            proof {
                assert(p[i - lo] == cur[i as int]);
            }
            if lies_left(&triangle, split_axis, split_position) {
                let j: usize = lo + count as usize;
                let other = triangles[j];
                triangles[i] = other;
                triangles[j] = triangle;
                left.enclose(&triangle);
                count += 1;
                proof {
                    let now = triangles@;
                    assert(now.subrange(lo as int, hi as int) =~= swapped(p, i - lo, j - lo));
                    assert(now.subrange(0, lo as int) =~= cur.subrange(0, lo as int));
                    assert(now.subrange(hi as int, before.len() as int) =~= cur.subrange(
                        hi as int,
                        before.len() as int,
                    ));
                    assert(now.subrange(lo as int, lo + count) =~= cur.subrange(
                        lo as int,
                        j as int,
                    ).push(triangle));
                    lemma_aabb_push(cur.subrange(lo as int, j as int), triangle);
                    let r1 = cur.subrange(j as int, i as int);
                    let r2 = now.subrange(j + 1, i + 1);
                    assert forall|k: int| 0 <= k < r1.len() implies r2.contains(#[trigger] r1[k]) by {
                        if k == 0 {
                            assert(r2[r2.len() - 1] == r1[k]);
                        } else {
                            assert(r2[k - 1] == r1[k]);
                        }
                    }
                    assert forall|k: int| 0 <= k < r2.len() implies r1.contains(#[trigger] r2[k]) by {
                        if k == r2.len() - 1 {
                            assert(r1[0] == r2[k]);
                        } else {
                            assert(r1[k + 1] == r2[k]);
                        }
                    }
                    lemma_aabb_same_members(r1, r2);
                }
            } else {
                right.enclose(&triangle);
                proof {
                    assert(cur.subrange(lo + count, i + 1) =~= cur.subrange(
                        lo + count,
                        i as int,
                    ).push(triangle));
                    lemma_aabb_push(cur.subrange(lo + count, i as int), triangle);
                }
            }
            i += 1;
        }
        proof {
            lemma_partition_state(s, ax, pos, s.len());
            assert(s.take(s.len() as int) =~= s);
            assert(triangles@ =~= before.subrange(0, lo as int) + partitioned(s, ax, pos)
                + before.subrange(hi as int, before.len() as int)) by {
                let now = triangles@;
                let q = partitioned(s, ax, pos);
                assert forall|k: int| 0 <= k < now.len() implies now[k] == (before.subrange(
                    0,
                    lo as int,
                ) + q + before.subrange(hi as int, before.len() as int))[k] by {
                    if k < lo {
                        assert(now[k] == now.subrange(0, lo as int)[k]);
                    } else if k < hi {
                        assert(now[k] == now.subrange(lo as int, hi as int)[k - lo]);
                    } else {
                        assert(now[k] == now.subrange(hi as int, before.len() as int)[k - hi]);
                    }
                }
            }
        }
        (count, left, right)
    }

    /// Splits the last node of `bvhs`, which covers the triangles in
    /// `lo..hi`, as long as splitting pays: partitions the triangles in
    /// place and appends the whole subtree below the node.
    #[verifier::rlimit(30)]
    pub fn split(bvhs: &mut Vec<Bvh>, triangles: &mut Vec<Triangle>, lo: usize, hi: usize)
        requires
            lo <= hi <= old(triangles).len() <= u32::MAX,
            all_wf(old(triangles)@.subrange(lo as int, hi as int)),
            old(bvhs).len() > 0,
            old(bvhs)@.last() == leaf_node(
                aabb_of(old(triangles)@.subrange(lo as int, hi as int)),
                lo as int,
                hi - lo,
            ),
            old(bvhs).len() - 1 + tree_nodes(
                old(triangles)@.subrange(lo as int, hi as int),
                lo as int,
                old(bvhs).len() - 1,
            ).len() <= u32::MAX,
        ensures
            final(bvhs)@ == old(bvhs)@.drop_last() + tree_nodes(
                old(triangles)@.subrange(lo as int, hi as int),
                lo as int,
                old(bvhs).len() - 1,
            ),
            final(triangles)@ == old(triangles)@.subrange(0, lo as int) + tree_order(
                old(triangles)@.subrange(lo as int, hi as int),
            ) + old(triangles)@.subrange(hi as int, old(triangles).len() as int),
        decreases hi - lo,
    {
        let ghost nodes0 = bvhs@;
        let ghost tris0 = triangles@;
        let ghost s = triangles@.subrange(lo as int, hi as int);
        let start_bvh_len: usize = bvhs.len();
        let bvh = bvhs[start_bvh_len - 1];
        proof {
            if s.len() > 0 {
                lemma_aabb_bounded(s);
            }
            lemma_tree_nodes_nonempty(s, lo as int, start_bvh_len - 1);
        }
        let parent_cost = Bvh::bvh_cost(bvh.min_bound, bvh.max_bound, bvh.triangle_count);
        let choice = Bvh::choose_split(bvh, slice_subrange(triangles.as_slice(), lo, hi));
        if !accepts(choice.cost, parent_cost) {
            proof {
                assert(!should_split(s));
                lemma_leaf_arrays(nodes0, tris0, lo as int, hi as int);
            }
            return ;
        }
        let ghost l = left_part(s);
        let ghost r = right_part(s);
        let ghost nl = tree_nodes(l, lo as int, start_bvh_len as int);
        let ghost nr = tree_nodes(r, lo + l.len(), start_bvh_len + nl.len());
        proof {
            assert(should_split(s));
            lemma_split_parts(s, lo as int, start_bvh_len - 1);
        }
        let (left_count, left, right) = Bvh::partition(
            triangles,
            lo,
            hi,
            choice.axis,
            choice.position,
        );
        let ghost tris1 = triangles@;
        let ghost p = partitioned(s, choice.axis as int, choice.position as int);
        let mid: usize = lo + left_count as usize;
        proof {
            lemma_after_partition(tris0, tris1, lo as int, mid as int, hi as int, p);
        }
        let mut parent = bvh;
        parent.left_offset = start_bvh_len as u32;
        bvhs[start_bvh_len - 1] = parent;
        let ghost half_patched = parent;
        bvhs.push(
            Bvh {
                min_bound: left.min,
                max_bound: left.max,
                left_offset: 0,
                right_offset: 0,
                triangle_offset: lo as u32,
                triangle_count: left_count,
            },
        );
        proof {
            assert(bvhs@.drop_last() =~= nodes0.update(start_bvh_len - 1, half_patched));
        }
        Bvh::split(bvhs, triangles, lo, mid);
        let ghost tris2 = triangles@;
        let ghost nodes2 = bvhs@;
        proof {
            lemma_after_left(tris1, tris2, lo as int, mid as int, hi as int, tree_order(l));
            assert(nodes2 =~= nodes0.update(start_bvh_len - 1, half_patched) + nl);
        }
        let right_index: usize = bvhs.len();
        parent.right_offset = right_index as u32;
        bvhs[start_bvh_len - 1] = parent;
        let right_leaf = Bvh {
            min_bound: right.min,
            max_bound: right.max,
            left_offset: 0,
            right_offset: 0,
            triangle_offset: mid as u32,
            triangle_count: (hi - mid) as u32,
        };
        bvhs.push(right_leaf);
        let ghost nodes4 = bvhs@;
        proof {
            assert(nodes4.drop_last() =~= nodes0.drop_last().push(parent) + nl);
        }
        Bvh::split(bvhs, triangles, mid, hi);
        proof {
            lemma_halves_joined(
                tris0,
                tris1,
                tris2,
                triangles@,
                lo as int,
                mid as int,
                hi as int,
                p,
                tree_order(l),
                tree_order(r),
            );
            lemma_nodes_joined(
                nodes0,
                nodes2,
                nodes4,
                bvhs@,
                half_patched,
                parent,
                right_leaf,
                nl,
                nr,
            );
        }
    }

    /// Builds the hierarchy over the triangles from `triangle_offset` to
    /// the end of `triangles` and appends its nodes to `bvhs`, the root
    /// first. The triangles are reordered in place so that every node
    /// covers a contiguous range. Earlier nodes and triangles are not
    /// touched, and every appended node is in order in the sense of
    /// `node_ok`.
    pub fn build(bvhs: &mut Vec<Bvh>, triangles: &mut Vec<Triangle>, triangle_offset: u32)
        requires
            triangle_offset <= old(triangles).len() <= u32::MAX,
            all_wf(old(triangles)@.skip(triangle_offset as int)),
            old(bvhs).len() + tree_nodes(
                old(triangles)@.skip(triangle_offset as int),
                triangle_offset as int,
                old(bvhs).len() as int,
            ).len() <= u32::MAX,
        ensures
            final(bvhs)@ == old(bvhs)@ + tree_nodes(
                old(triangles)@.skip(triangle_offset as int),
                triangle_offset as int,
                old(bvhs).len() as int,
            ),
            final(triangles)@ == old(triangles)@.take(triangle_offset as int) + tree_order(
                old(triangles)@.skip(triangle_offset as int),
            ),
            final(triangles)@.skip(triangle_offset as int).to_multiset() == old(triangles)@.skip(
                triangle_offset as int,
            ).to_multiset(),
            forall|k: int|
                0 <= k < final(bvhs).len() - old(bvhs).len() ==> node_ok(
                    final(bvhs)@.skip(old(bvhs).len() as int),
                    old(bvhs).len() as int,
                    final(triangles)@.skip(triangle_offset as int),
                    triangle_offset as int,
                    k,
                ),
    {
        let ghost tris0 = triangles@;
        let ghost nodes0 = bvhs@;
        let lo: usize = triangle_offset as usize;
        let hi: usize = triangles.len();
        let mut bounds = Aabb::empty();
        let mut i: usize = lo;
        proof {
            assert(tris0.subrange(lo as int, lo as int) =~= Seq::<Triangle>::empty());
        }
        while i < hi
            invariant
                lo <= i <= hi,
                hi == triangles@.len(),
                triangles@ == tris0,
                bounds == aabb_of(tris0.subrange(lo as int, i as int)),
            decreases hi - i,
        {
            let triangle = triangles[i];
            proof {
                assert(tris0.subrange(lo as int, i + 1) =~= tris0.subrange(lo as int, i as int).push(
                    triangle,
                ));
                lemma_aabb_push(tris0.subrange(lo as int, i as int), triangle);
            }
            bounds.enclose(&triangle);
            i += 1;
        }
        proof {
            assert(tris0.subrange(lo as int, hi as int) =~= tris0.skip(lo as int));
        }
        bvhs.push(
            Bvh {
                min_bound: bounds.min,
                max_bound: bounds.max,
                left_offset: 0,
                right_offset: 0,
                triangle_offset,
                triangle_count: (hi - lo) as u32,
            },
        );
        proof {
            assert(bvhs@.drop_last() =~= nodes0);
        }
        Bvh::split(bvhs, triangles, lo, hi);
        proof {
            assert(tris0.subrange(0, lo as int) =~= tris0.take(lo as int));
            assert(tris0.subrange(hi as int, hi as int) =~= Seq::<Triangle>::empty());
            assert(triangles@ =~= tris0.take(lo as int) + tree_order(tris0.skip(lo as int)));
            let s = tris0.skip(lo as int);
            lemma_tree_order(s);
            lemma_tree_is_well_formed(s, lo as int, nodes0.len() as int);
            assert(triangles@.skip(lo as int) =~= tree_order(s));
            assert(bvhs@.skip(nodes0.len() as int) =~= tree_nodes(
                s,
                lo as int,
                nodes0.len() as int,
            ));
        }
    }
}

} // verus!
