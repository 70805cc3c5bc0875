use crate::bvh::{
    best_split, candidate_number, is_left, lemma_best_is_cheapest, lemma_best_of_first,
    lemma_side_members, node_cost, side_of, split_cost, Bvh, MIN_TRIANGLES,
};
use crate::geometry::{
    aabb_of, all_wf, lemma_aabb_permutation, lemma_aabb_same_members, lemma_same_members, Aabb,
    Triangle,
};
use crate::tree::{
    inner_node, leaf_node, left_part, lemma_part_lengths, lemma_partition_state,
    lemma_split_is_proper, lemma_tree_order, partitioned, right_part, should_split, tree_nodes,
    tree_order,
};
use vstd::prelude::*;

verus! {

/// The triangles that a node covers, read from the triangle array `tris`
/// whose first item has index `offset` in the scene.
pub open spec fn node_triangles(node: Bvh, tris: Seq<Triangle>, offset: int) -> Seq<Triangle> {
    tris.subrange(
        node.triangle_offset - offset,
        node.triangle_offset - offset + node.triangle_count,
    )
}

/// What holds of the node at position `k` of a subtree `nodes` whose first
/// node has index `base` in the scene, over the triangles `tris` whose
/// first item has index `offset` in the scene:
/// its range lies within `tris`, its box is the tight box of its range,
/// and if it has children, the left one follows it directly and the right
/// one stands further behind, their ranges cut its range in two non-empty
/// parts without gap or overlap, it holds more than `MIN_TRIANGLES`
/// triangles, and the children together cost strictly less than nine
/// tenths of the node.
pub open spec fn node_ok(nodes: Seq<Bvh>, base: int, tris: Seq<Triangle>, offset: int, k: int) -> bool {
    let node = nodes[k];
    let l = node.left_offset - base;
    let r = node.right_offset - base;
    &&& offset <= node.triangle_offset
    &&& node.triangle_offset + node.triangle_count <= offset + tris.len()
    &&& node.bounds() == aabb_of(node_triangles(node, tris, offset))
    &&& node.is_leaf() || {
        &&& l == k + 1
        &&& l < r < nodes.len()
        &&& nodes[l].triangle_offset == node.triangle_offset
        &&& nodes[r].triangle_offset == node.triangle_offset + nodes[l].triangle_count
        &&& nodes[l].triangle_count + nodes[r].triangle_count == node.triangle_count
        &&& nodes[l].triangle_count > 0
        &&& nodes[r].triangle_count > 0
        &&& node.triangle_count > MIN_TRIANGLES
        &&& 10 * (nodes[l].cost() + nodes[r].cost()) < 9 * node.cost()
    }
}

/// The inputs for which a subtree fits the index width: well-formed
/// triangles, and triangle and node indices that fit in 32 bits.
pub open spec fn buildable(s: Seq<Triangle>, offset: int, base: int) -> bool {
    &&& all_wf(s)
    &&& 0 <= offset
    &&& offset + s.len() <= u32::MAX
    &&& 0 <= base
    &&& base + tree_nodes(s, offset, base).len() <= u32::MAX
}

/// The first node of a subtree covers all its triangles with their tight
/// box.
pub proof fn lemma_root(s: Seq<Triangle>, offset: int, base: int)
    requires
        buildable(s, offset, base),
    ensures
        tree_nodes(s, offset, base).len() >= 1,
        tree_nodes(s, offset, base)[0].triangle_offset == offset,
        tree_nodes(s, offset, base)[0].triangle_count == s.len(),
        tree_nodes(s, offset, base)[0].bounds() == aabb_of(s),
{
}

/// The two parts of an accepted split are well formed, not empty, have
/// the tight boxes of the two sides of the split plane, and together cost
/// what the split was chosen for.
pub proof fn lemma_parts(s: Seq<Triangle>)
    requires
        all_wf(s),
        s.len() <= u32::MAX,
        should_split(s),
    ensures
        all_wf(left_part(s)),
        all_wf(right_part(s)),
        0 < left_part(s).len() < s.len(),
        left_part(s).len() + right_part(s).len() == s.len(),
        s.len() > MIN_TRIANGLES,
        node_cost(aabb_of(left_part(s)), left_part(s).len() as int) + node_cost(
            aabb_of(right_part(s)),
            right_part(s).len() as int,
        ) == best_split(aabb_of(s), s).cost,
        forall|i: int|
            0 <= i < left_part(s).len() ==> is_left(
                #[trigger] left_part(s)[i],
                best_split(aabb_of(s), s).axis as int,
                best_split(aabb_of(s), s).position as int,
            ),
        forall|i: int|
            0 <= i < right_part(s).len() ==> !is_left(
                #[trigger] right_part(s)[i],
                best_split(aabb_of(s), s).axis as int,
                best_split(aabb_of(s), s).position as int,
            ),
{
    let best = best_split(aabb_of(s), s);
    let axis = best.axis as int;
    let position = best.position as int;
    let p = partitioned(s, axis, position);
    let l = left_part(s);
    let r = right_part(s);
    let sl = side_of(s, axis, position, true);
    let sr = side_of(s, axis, position, false);
    lemma_split_is_proper(s);
    lemma_part_lengths(s);
    lemma_best_of_first(aabb_of(s), s, 15);
    lemma_partition_state(s, axis, position, s.len());
    assert(s.take(s.len() as int) =~= s);
    lemma_side_members(s, axis, position, true);
    lemma_side_members(s, axis, position, false);
    lemma_same_members(s, p);
    assert(l == sl);
    assert forall|i: int| 0 <= i < r.len() implies (#[trigger] r[i]).wf() && !is_left(
        r[i],
        axis,
        position,
    ) && sr.contains(r[i]) by {
        let t = p[i + l.len()];
        assert(r[i] == t);
        assert(s.contains(t));
        let j = choose|j: int| 0 <= j < s.len() && s[j] == t;
        assert(s[j].wf());
        assert(sr.contains(s[j]));
    }
    assert forall|i: int| 0 <= i < sr.len() implies r.contains(#[trigger] sr[i]) by {
        let t = sr[i];
        assert(s.contains(t));
        let j = choose|j: int| 0 <= j < s.len() && s[j] == t;
        assert(p.contains(s[j]));
        let m = choose|m: int| 0 <= m < p.len() && p[m] == t;
        if m < l.len() {
            assert(is_left(p[m], axis, position));
        }
        assert(r[m - l.len()] == t);
    }
    lemma_aabb_same_members(r, sr);
}

/// A node that is in order within a subtree is in order within every
/// tree that holds the subtree's nodes and triangles at the same scene
/// indices.
proof fn lemma_node_ok_embed(
    sub: Seq<Bvh>,
    sub_base: int,
    sub_tris: Seq<Triangle>,
    sub_offset: int,
    j: int,
    nodes: Seq<Bvh>,
    base: int,
    tris: Seq<Triangle>,
    offset: int,
)
    requires
        0 <= j < sub.len(),
        node_ok(sub, sub_base, sub_tris, sub_offset, j),
        base <= sub_base,
        sub_base - base + sub.len() <= nodes.len(),
        forall|m: int| 0 <= m < sub.len() ==> nodes[m + (sub_base - base)] == #[trigger] sub[m],
        offset <= sub_offset,
        sub_offset - offset + sub_tris.len() <= tris.len(),
        forall|m: int|
            0 <= m < sub_tris.len() ==> tris[m + (sub_offset - offset)] == #[trigger] sub_tris[m],
    ensures
        node_ok(nodes, base, tris, offset, j + (sub_base - base)),
{
    let d = sub_base - base;
    let node = sub[j];
    assert(nodes[j + d] == node);
    assert(node_triangles(node, tris, offset) =~= node_triangles(node, sub_tris, sub_offset)) by {
        let a = node_triangles(node, tris, offset);
        let b = node_triangles(node, sub_tris, sub_offset);
        assert forall|m: int| 0 <= m < b.len() implies a[m] == b[m] by {
            let q = node.triangle_offset - sub_offset + m;
            assert(sub_tris[q] == tris[q + (sub_offset - offset)]);
        }
    }
    if !node.is_leaf() {
        let l = node.left_offset - sub_base;
        let r = node.right_offset - sub_base;
        assert(nodes[l + d] == sub[l]);
        assert(nodes[r + d] == sub[r]);
    }
}

/// Every node of a built subtree is in order.
pub proof fn lemma_tree_is_well_formed(s: Seq<Triangle>, offset: int, base: int)
    requires
        buildable(s, offset, base),
    ensures
        tree_order(s).len() == s.len(),
        forall|k: int|
            0 <= k < tree_nodes(s, offset, base).len() ==> node_ok(
                tree_nodes(s, offset, base),
                base,
                tree_order(s),
                offset,
                k,
            ),
    decreases s.len(),
{
    let nodes = tree_nodes(s, offset, base);
    let tris = tree_order(s);
    let l = left_part(s);
    let r = right_part(s);
    lemma_tree_order(s);
    lemma_part_lengths(s);
    if should_split(s) && 0 < l.len() < s.len() {
        lemma_parts(s);
        let nl = tree_nodes(l, offset, base + 1);
        let nr = tree_nodes(r, offset + l.len(), base + 1 + nl.len());
        let tl = tree_order(l);
        let tr = tree_order(r);
        let root = inner_node(aabb_of(s), offset, s.len() as int, base + 1, base + 1 + nl.len());
        assert(nodes == seq![root] + nl + nr);
        assert(tris == tl + tr);
        lemma_tree_order(l);
        lemma_tree_order(r);
        assert(buildable(l, offset, base + 1));
        assert(buildable(r, offset + l.len(), base + 1 + nl.len()));
        lemma_tree_is_well_formed(l, offset, base + 1);
        lemma_tree_is_well_formed(r, offset + l.len(), base + 1 + nl.len());
        lemma_root(l, offset, base + 1);
        lemma_root(r, offset + l.len(), base + 1 + nl.len());
        assert forall|k: int| 0 <= k < nodes.len() implies node_ok(nodes, base, tris, offset, k) by {
            if k == 0 {
                assert(nodes[0] == root);
                assert(nodes[1] == nl[0]);
                assert(nodes[1 + nl.len() as int] == nr[0]);
                assert(node_triangles(root, tris, offset) =~= tris);
                lemma_aabb_permutation(s, tris);
            } else if k <= nl.len() {
                assert forall|m: int| 0 <= m < nl.len() implies nodes[m + 1] == #[trigger] nl[m] by {}
                assert forall|m: int| 0 <= m < tl.len() implies tris[m + 0] == #[trigger] tl[m] by {}
                lemma_node_ok_embed(nl, base + 1, tl, offset, k - 1, nodes, base, tris, offset);
            } else {
                let d = 1 + nl.len() as int;
                assert forall|m: int| 0 <= m < nr.len() implies nodes[m + d] == #[trigger] nr[m] by {}
                assert forall|m: int| 0 <= m < tr.len() implies tris[m + l.len() as int] == #[trigger] tr[m] by {}
                lemma_node_ok_embed(
                    nr,
                    base + d,
                    tr,
                    offset + l.len(),
                    k - d,
                    nodes,
                    base,
                    tris,
                    offset,
                );
            }
        }
    } else {
        assert(nodes == seq![leaf_node(aabb_of(s), offset, s.len() as int)]);
        assert(node_triangles(nodes[0], tris, offset) =~= s);
    }
}

/// The children of an internal node cut its triangle range in two: the
/// left child starts where the node starts, the right child starts where
/// the left child ends and ends where the node ends. The left child
/// follows the node directly in the node array and the right child stands
/// behind the left one, so a child index of zero always means "none".
pub proof fn lemma_children_partition_parent(s: Seq<Triangle>, offset: int, base: int, k: int)
    requires
        buildable(s, offset, base),
        0 <= k < tree_nodes(s, offset, base).len(),
        !tree_nodes(s, offset, base)[k].is_leaf(),
    ensures
        ({
            let nodes = tree_nodes(s, offset, base);
            let l = nodes[k].left_offset - base;
            let r = nodes[k].right_offset - base;
            &&& l == k + 1
            &&& l < r < nodes.len()
            &&& nodes[l].triangle_offset == nodes[k].triangle_offset
            &&& nodes[r].triangle_offset == nodes[l].triangle_offset + nodes[l].triangle_count
            &&& nodes[r].triangle_offset + nodes[r].triangle_count == nodes[k].triangle_offset
                + nodes[k].triangle_count
        }),
{
    lemma_tree_is_well_formed(s, offset, base);
    assert(node_ok(tree_nodes(s, offset, base), base, tree_order(s), offset, k));
}

/// The box of every node is the exact box of the triangles in its range:
/// it contains each of them, and on every axis one of them touches its low
/// face and one its high face. A node without triangles has the inverted
/// box.
pub proof fn lemma_bounds_are_tight(s: Seq<Triangle>, offset: int, base: int, k: int, axis: int)
    requires
        buildable(s, offset, base),
        0 <= k < tree_nodes(s, offset, base).len(),
        0 <= axis < 3,
    ensures
        ({
            let node = tree_nodes(s, offset, base)[k];
            let range = node_triangles(node, tree_order(s), offset);
            &&& range.len() == node.triangle_count
            &&& node.bounds() == aabb_of(range)
            &&& forall|i: int|
                0 <= i < range.len() ==> node.min_bound.coord(axis) <= (#[trigger] range[i]).lo(
                    axis,
                ) && range[i].hi(axis) <= node.max_bound.coord(axis)
            &&& range.len() > 0 ==> exists|i: int|
                0 <= i < range.len() && node.min_bound.coord(axis) == (#[trigger] range[i]).lo(axis)
            &&& range.len() > 0 ==> exists|i: int|
                0 <= i < range.len() && node.max_bound.coord(axis) == (#[trigger] range[i]).hi(axis)
            &&& range.len() == 0 ==> node.bounds() == Aabb::spec_empty()
        }),
{
    lemma_tree_is_well_formed(s, offset, base);
    let node = tree_nodes(s, offset, base)[k];
    assert(node_ok(tree_nodes(s, offset, base), base, tree_order(s), offset, k));
    crate::geometry::lemma_aabb_is_tight(node_triangles(node, tree_order(s), offset), axis);
}

/// No node holds more triangles than the mesh, and every node with at
/// most `MIN_TRIANGLES` triangles is a leaf.
pub proof fn lemma_leaf_minimality(s: Seq<Triangle>, offset: int, base: int, k: int)
    requires
        buildable(s, offset, base),
        0 <= k < tree_nodes(s, offset, base).len(),
    ensures
        tree_nodes(s, offset, base)[k].triangle_count <= s.len(),
        tree_nodes(s, offset, base)[k].triangle_count <= MIN_TRIANGLES ==> tree_nodes(
            s,
            offset,
            base,
        )[k].is_leaf(),
{
    lemma_tree_is_well_formed(s, offset, base);
    assert(node_ok(tree_nodes(s, offset, base), base, tree_order(s), offset, k));
}

/// A node has children only where splitting pays: the two children
/// together cost strictly less than nine tenths of the node.
pub proof fn lemma_split_pays(s: Seq<Triangle>, offset: int, base: int, k: int)
    requires
        buildable(s, offset, base),
        0 <= k < tree_nodes(s, offset, base).len(),
        !tree_nodes(s, offset, base)[k].is_leaf(),
    ensures
        ({
            let nodes = tree_nodes(s, offset, base);
            let l = nodes[k].left_offset - base;
            let r = nodes[k].right_offset - base;
            &&& 0 <= l < nodes.len()
            &&& 0 <= r < nodes.len()
            &&& 10 * (nodes[l].cost() + nodes[r].cost()) < 9 * nodes[k].cost()
        }),
{
    lemma_tree_is_well_formed(s, offset, base);
    assert(node_ok(tree_nodes(s, offset, base), base, tree_order(s), offset, k));
}

/// Where no sampled split costs less than nine tenths of the node, the
/// tree is a single leaf that covers all triangles, and no triangle moves.
pub proof fn lemma_unprofitable_split_gives_leaf(s: Seq<Triangle>, offset: int, base: int)
    requires
        !should_split(s),
    ensures
        tree_nodes(s, offset, base) == seq![leaf_node(aabb_of(s), offset, s.len() as int)],
        tree_order(s) == s,
{
}

/// Where every one of the fifteen sampled planes costs at least nine
/// tenths of the node, the tree is a single leaf.
pub proof fn lemma_no_cheap_plane_gives_leaf(s: Seq<Triangle>, offset: int, base: int)
    requires
        all_wf(s),
        s.len() <= u32::MAX,
        forall|m: int|
            0 <= m < 15 ==> 10 * split_cost(
                s,
                #[trigger] candidate_number(aabb_of(s), m).0,
                candidate_number(aabb_of(s), m).1 as int,
            ) >= 9 * node_cost(aabb_of(s), s.len() as int),
    ensures
        tree_nodes(s, offset, base) == seq![leaf_node(aabb_of(s), offset, s.len() as int)],
        tree_order(s) == s,
{
    if s.len() > MIN_TRIANGLES {
        lemma_best_is_cheapest(aabb_of(s), s, 15, 0);
    }
}

/// A split is made exactly where it pays.
pub proof fn lemma_profitable_split_is_made(s: Seq<Triangle>, offset: int, base: int)
    requires
        buildable(s, offset, base),
        should_split(s),
    ensures
        !tree_nodes(s, offset, base)[0].is_leaf(),
        tree_nodes(s, offset, base).len() >= 3,
{
    lemma_parts(s);
    let l = left_part(s);
    let r = right_part(s);
    let nl = tree_nodes(l, offset, base + 1);
    lemma_root(l, offset, base + 1);
    crate::tree::lemma_tree_nodes_nonempty(r, offset + l.len(), base + 1 + nl.len());
}

/// The number of triangles in the leaves below the node at position `k`.
pub open spec fn leaf_triangle_sum(nodes: Seq<Bvh>, base: int, k: int) -> int
    decreases nodes.len() - k,
{
    if 0 <= k < nodes.len() {
        let l = nodes[k].left_offset - base;
        let r = nodes[k].right_offset - base;
        if nodes[k].is_leaf() {
            nodes[k].triangle_count as int
        } else if k < l < nodes.len() && k < r < nodes.len() {
            leaf_triangle_sum(nodes, base, l) + leaf_triangle_sum(nodes, base, r)
        } else {
            0
        }
    } else {
        0
    }
}

/// In a tree whose nodes are all in order, the leaves below a node hold
/// as many triangles as the node.
pub proof fn lemma_leaf_sum(nodes: Seq<Bvh>, base: int, tris: Seq<Triangle>, offset: int, k: int)
    requires
        forall|j: int| 0 <= j < nodes.len() ==> node_ok(nodes, base, tris, offset, j),
        0 <= k < nodes.len(),
    ensures
        leaf_triangle_sum(nodes, base, k) == nodes[k].triangle_count,
    decreases nodes.len() - k,
{
    assert(node_ok(nodes, base, tris, offset, k));
    if !nodes[k].is_leaf() {
        lemma_leaf_sum(nodes, base, tris, offset, nodes[k].left_offset - base);
        lemma_leaf_sum(nodes, base, tris, offset, nodes[k].right_offset - base);
    }
}

/// The root covers every triangle of the mesh, and under every node of a
/// built tree the leaves hold exactly the node's triangle count.
pub proof fn lemma_leaf_counts_add_up(s: Seq<Triangle>, offset: int, base: int, k: int)
    requires
        buildable(s, offset, base),
        0 <= k < tree_nodes(s, offset, base).len(),
    ensures
        tree_nodes(s, offset, base)[0].triangle_offset + tree_nodes(
            s,
            offset,
            base,
        )[0].triangle_count == offset + s.len(),
        leaf_triangle_sum(tree_nodes(s, offset, base), base, k) == tree_nodes(
            s,
            offset,
            base,
        )[k].triangle_count,
{
    lemma_root(s, offset, base);
    lemma_tree_is_well_formed(s, offset, base);
    lemma_leaf_sum(tree_nodes(s, offset, base), base, tree_order(s), offset, k);
}

/// A tree over `n` triangles has at most `2n - 1` nodes, and one node
/// when there are no triangles.
pub proof fn lemma_node_count(s: Seq<Triangle>, offset: int, base: int)
    requires
        all_wf(s),
        s.len() <= u32::MAX,
    ensures
        1 <= tree_nodes(s, offset, base).len(),
        s.len() > 0 ==> tree_nodes(s, offset, base).len() <= 2 * s.len() - 1,
    decreases s.len(),
{
    let l = left_part(s);
    let r = right_part(s);
    if should_split(s) && 0 < l.len() < s.len() {
        lemma_parts(s);
        let nl = tree_nodes(l, offset, base + 1);
        lemma_node_count(l, offset, base + 1);
        lemma_node_count(r, offset + l.len(), base + 1 + nl.len());
    }
}

} // verus!
