use vstd::prelude::*;

verus! {

/// Largest magnitude a world-space coordinate may have: the sum of a raw
/// mesh coordinate and a translation, both 32-bit, never leaves this range.
pub const COORD_LIMIT: i64 = 0x1_0000_0000;

/// A position in world space, in fixed-point grid units.
#[derive(Debug, Clone, Copy, PartialEq, Eq, Structural)]
pub struct Point {
    pub x: i64,
    pub y: i64,
    pub z: i64,
}

/// A world-space translation applied to every vertex of a mesh.
#[derive(Debug, Clone, Copy, PartialEq, Eq, Structural)]
pub struct Translation {
    pub x: i32,
    pub y: i32,
    pub z: i32,
}

/// A face normal: the cross product of two triangle edges, never normalized.
#[derive(Debug, Clone, Copy, PartialEq, Eq, Structural)]
pub struct Normal {
    pub x: i128,
    pub y: i128,
    pub z: i128,
}

/// A texture coordinate pair, in fixed-point units.
#[derive(Debug, Clone, Copy, PartialEq, Eq, Structural)]
pub struct Uv {
    pub u: i32,
    pub v: i32,
}

/// One triangle of the scene: three world-space vertices, the face normal
/// and one texture coordinate pair per vertex, in vertex order.
#[derive(Debug, Clone, Copy, PartialEq, Eq, Structural)]
pub struct Triangle {
    pub a: Point,
    pub b: Point,
    pub c: Point,
    pub normal: Normal,
    pub uv_a: Uv,
    pub uv_b: Uv,
    pub uv_c: Uv,
}

/// An axis-aligned bounding box given by its two corners.
#[derive(Debug, Clone, Copy, PartialEq, Eq, Structural)]
pub struct Aabb {
    pub min: Point,
    pub max: Point,
}

/// The smaller of two coordinates.
pub open spec fn min2(a: i64, b: i64) -> i64 {
    if a <= b { a } else { b }
}

/// The larger of two coordinates.
pub open spec fn max2(a: i64, b: i64) -> i64 {
    if a >= b { a } else { b }
}

impl Point {
    /// The coordinate on `axis`: 0 is x, 1 is y, anything else is z.
    pub open spec fn coord(self, axis: int) -> i64 {
        if axis == 0 { self.x } else if axis == 1 { self.y } else { self.z }
    }

    /// Every coordinate lies within `COORD_LIMIT` of the origin.
    pub open spec fn in_range(self) -> bool {
        &&& -COORD_LIMIT <= self.x <= COORD_LIMIT
        &&& -COORD_LIMIT <= self.y <= COORD_LIMIT
        &&& -COORD_LIMIT <= self.z <= COORD_LIMIT
    }

    /// Reads the coordinate on `axis`.
    pub fn get(&self, axis: usize) -> (r: i64)
        requires
            axis < 3,
        ensures
            r == self.coord(axis as int),
    {
        if axis == 0 { self.x } else if axis == 1 { self.y } else { self.z }
    }
}

impl Triangle {
    /// All three vertices lie within the coordinate range.
    pub open spec fn wf(self) -> bool {
        self.a.in_range() && self.b.in_range() && self.c.in_range()
    }

    /// The smallest coordinate of the three vertices on `axis`.
    pub open spec fn lo(self, axis: int) -> i64 {
        min2(min2(self.a.coord(axis), self.b.coord(axis)), self.c.coord(axis))
    }

    /// The largest coordinate of the three vertices on `axis`.
    pub open spec fn hi(self, axis: int) -> i64 {
        max2(max2(self.a.coord(axis), self.b.coord(axis)), self.c.coord(axis))
    }
}

/// Every triangle of the sequence is well formed.
pub open spec fn all_wf(s: Seq<Triangle>) -> bool {
    forall|i: int| 0 <= i < s.len() ==> (#[trigger] s[i]).wf()
}

/// The smallest coordinate on `axis` over all vertices of `s`; the largest
/// representable value when `s` is empty.
pub open spec fn lo_of(s: Seq<Triangle>, axis: int) -> i64
    decreases s.len(),
{
    if s.len() == 0 {
        i64::MAX
    } else {
        min2(lo_of(s.drop_last(), axis), s.last().lo(axis))
    }
}

/// The largest coordinate on `axis` over all vertices of `s`; the smallest
/// representable value when `s` is empty.
pub open spec fn hi_of(s: Seq<Triangle>, axis: int) -> i64
    decreases s.len(),
{
    if s.len() == 0 {
        i64::MIN
    } else {
        max2(hi_of(s.drop_last(), axis), s.last().hi(axis))
    }
}

/// The tight bounding box of the triangles of `s`. For an empty sequence
/// it is the inverted box `Aabb::empty()`.
pub open spec fn aabb_of(s: Seq<Triangle>) -> Aabb {
    Aabb {
        min: Point { x: lo_of(s, 0), y: lo_of(s, 1), z: lo_of(s, 2) },
        max: Point { x: hi_of(s, 0), y: hi_of(s, 1), z: hi_of(s, 2) },
    }
}

impl Aabb {
    /// The inverted box that bounds no geometry: every minimum is the
    /// largest representable value, every maximum the smallest.
    pub open spec fn spec_empty() -> Aabb {
        Aabb {
            min: Point { x: i64::MAX, y: i64::MAX, z: i64::MAX },
            max: Point { x: i64::MIN, y: i64::MIN, z: i64::MIN },
        }
    }

    /// The box grown just enough to hold `p`.
    pub open spec fn spec_grow(self, p: Point) -> Aabb {
        Aabb {
            min: Point { x: min2(self.min.x, p.x), y: min2(self.min.y, p.y), z: min2(self.min.z, p.z) },
            max: Point { x: max2(self.max.x, p.x), y: max2(self.max.y, p.y), z: max2(self.max.z, p.z) },
        }
    }

    /// The box grown just enough to hold the three vertices of `t`.
    pub open spec fn spec_enclose(self, t: Triangle) -> Aabb {
        self.spec_grow(t.a).spec_grow(t.b).spec_grow(t.c)
    }

    /// The corners are ordered on every axis and lie in the coordinate range.
    pub open spec fn is_bounded(self) -> bool {
        &&& self.min.in_range()
        &&& self.max.in_range()
        &&& self.min.x <= self.max.x
        &&& self.min.y <= self.max.y
        &&& self.min.z <= self.max.z
    }

    /// The extent of the box on `axis`.
    pub open spec fn extent(self, axis: int) -> int {
        self.max.coord(axis) - self.min.coord(axis)
    }

    /// Half the surface area of the box: `dx*dy + dy*dz + dx*dz`.
    pub open spec fn half_area(self) -> int {
        self.extent(0) * self.extent(1) + self.extent(1) * self.extent(2) + self.extent(0)
            * self.extent(2)
    }

    /// The inverted box that bounds no geometry.
    pub fn empty() -> (r: Aabb)
        ensures
            r == Aabb::spec_empty(),
            r == aabb_of(Seq::<Triangle>::empty()),
    {
        Aabb {
            min: Point { x: i64::MAX, y: i64::MAX, z: i64::MAX },
            max: Point { x: i64::MIN, y: i64::MIN, z: i64::MIN },
        }
    }

    /// Grows the box to hold the point.
    pub fn grow_to_include(&mut self, point: &Point)
        ensures
            *final(self) == old(self).spec_grow(*point),
    {
        if point.x < self.min.x {
            self.min.x = point.x;
        }
        if point.y < self.min.y {
            self.min.y = point.y;
        }
        if point.z < self.min.z {
            self.min.z = point.z;
        }
        if point.x > self.max.x {
            self.max.x = point.x;
        }
        if point.y > self.max.y {
            self.max.y = point.y;
        }
        if point.z > self.max.z {
            self.max.z = point.z;
        }
    }

    /// Grows the box to hold the three vertices of the triangle.
    pub fn enclose(&mut self, triangle: &Triangle)
        ensures
            *final(self) == old(self).spec_enclose(*triangle),
    {
        self.grow_to_include(&triangle.a);
        self.grow_to_include(&triangle.b);
        self.grow_to_include(&triangle.c);
    }
}

/// Appending a triangle grows the bounding box by exactly that triangle.
pub proof fn lemma_aabb_push(s: Seq<Triangle>, t: Triangle)
    ensures
        aabb_of(s.push(t)) == aabb_of(s).spec_enclose(t),
{
    assert(s.push(t).drop_last() =~= s);
}

/// The bounding box contains every triangle of the sequence, and on each
/// axis some triangle touches each of its two faces: the box is exact.
pub proof fn lemma_aabb_is_tight(s: Seq<Triangle>, axis: int)
    ensures
        forall|i: int| 0 <= i < s.len() ==> lo_of(s, axis) <= (#[trigger] s[i]).lo(axis),
        forall|i: int| 0 <= i < s.len() ==> (#[trigger] s[i]).hi(axis) <= hi_of(s, axis),
        s.len() > 0 ==> exists|i: int| 0 <= i < s.len() && lo_of(s, axis) == (#[trigger] s[i]).lo(axis),
        s.len() > 0 ==> exists|i: int| 0 <= i < s.len() && hi_of(s, axis) == (#[trigger] s[i]).hi(axis),
    decreases s.len(),
{
    if s.len() > 0 {
        let r = s.drop_last();
        lemma_aabb_is_tight(r, axis);
        assert forall|i: int| 0 <= i < s.len() implies lo_of(s, axis) <= (#[trigger] s[i]).lo(axis) by {
            if i < r.len() {
                assert(s[i] == r[i]);
            }
        }
        assert forall|i: int| 0 <= i < s.len() implies (#[trigger] s[i]).hi(axis) <= hi_of(s, axis) by {
            if i < r.len() {
                assert(s[i] == r[i]);
            }
        }
        let last = s.len() - 1;
        if lo_of(s, axis) == s[last].lo(axis) {
        } else {
            let i = choose|i: int| 0 <= i < r.len() && lo_of(r, axis) == (#[trigger] r[i]).lo(axis);
            assert(s[i] == r[i]);
        }
        if hi_of(s, axis) == s[last].hi(axis) {
        } else {
            let i = choose|i: int| 0 <= i < r.len() && hi_of(r, axis) == (#[trigger] r[i]).hi(axis);
            assert(s[i] == r[i]);
        }
    }
}

/// The bounding box depends only on which triangles a sequence holds:
/// two sequences with the same members have the same box.
pub proof fn lemma_aabb_same_members(s1: Seq<Triangle>, s2: Seq<Triangle>)
    requires
        forall|i: int| 0 <= i < s1.len() ==> s2.contains(#[trigger] s1[i]),
        forall|j: int| 0 <= j < s2.len() ==> s1.contains(#[trigger] s2[j]),
    ensures
        aabb_of(s1) == aabb_of(s2),
{
    lemma_bound_same_members(s1, s2, 0);
    lemma_bound_same_members(s1, s2, 1);
    lemma_bound_same_members(s1, s2, 2);
}

proof fn lemma_bound_same_members(s1: Seq<Triangle>, s2: Seq<Triangle>, axis: int)
    requires
        forall|i: int| 0 <= i < s1.len() ==> s2.contains(#[trigger] s1[i]),
        forall|j: int| 0 <= j < s2.len() ==> s1.contains(#[trigger] s2[j]),
    ensures
        lo_of(s1, axis) == lo_of(s2, axis),
        hi_of(s1, axis) == hi_of(s2, axis),
{
    lemma_aabb_is_tight(s1, axis);
    lemma_aabb_is_tight(s2, axis);
    if s1.len() > 0 {
        assert(s2.contains(s1[0]));
        let i = choose|i: int| 0 <= i < s1.len() && lo_of(s1, axis) == (#[trigger] s1[i]).lo(axis);
        assert(s2.contains(s1[i]));
        let j = choose|j: int| 0 <= j < s2.len() && lo_of(s2, axis) == (#[trigger] s2[j]).lo(axis);
        assert(s1.contains(s2[j]));
        let i = choose|i: int| 0 <= i < s1.len() && hi_of(s1, axis) == (#[trigger] s1[i]).hi(axis);
        assert(s2.contains(s1[i]));
        let j = choose|j: int| 0 <= j < s2.len() && hi_of(s2, axis) == (#[trigger] s2[j]).hi(axis);
        assert(s1.contains(s2[j]));
    } else if s2.len() > 0 {
        assert(s1.contains(s2[0]));
    }
}

/// Every item of a sequence occurs in each rearrangement of it.
pub proof fn lemma_same_members(s1: Seq<Triangle>, s2: Seq<Triangle>)
    requires
        s1.to_multiset() == s2.to_multiset(),
    ensures
        s1.len() == s2.len(),
        forall|i: int| 0 <= i < s1.len() ==> s2.contains(#[trigger] s1[i]),
        forall|j: int| 0 <= j < s2.len() ==> s1.contains(#[trigger] s2[j]),
{
    vstd::seq_lib::to_multiset_len(s1);
    vstd::seq_lib::to_multiset_len(s2);
    assert forall|i: int| 0 <= i < s1.len() implies s2.contains(#[trigger] s1[i]) by {
        assert(s1.contains(s1[i]));
        vstd::seq_lib::to_multiset_contains(s1, s1[i]);
        vstd::seq_lib::to_multiset_contains(s2, s1[i]);
    }
    assert forall|j: int| 0 <= j < s2.len() implies s1.contains(#[trigger] s2[j]) by {
        assert(s2.contains(s2[j]));
        vstd::seq_lib::to_multiset_contains(s1, s2[j]);
        vstd::seq_lib::to_multiset_contains(s2, s2[j]);
    }
}

/// The bounding box does not depend on the order of the triangles.
pub proof fn lemma_aabb_permutation(s1: Seq<Triangle>, s2: Seq<Triangle>)
    requires
        s1.to_multiset() == s2.to_multiset(),
    ensures
        aabb_of(s1) == aabb_of(s2),
{
    lemma_same_members(s1, s2);
    lemma_aabb_same_members(s1, s2);
}

/// Well-formedness does not depend on the order of the triangles.
pub proof fn lemma_wf_permutation(s1: Seq<Triangle>, s2: Seq<Triangle>)
    requires
        s1.to_multiset() == s2.to_multiset(),
        all_wf(s1),
    ensures
        all_wf(s2),
{
    lemma_same_members(s1, s2);
    assert forall|j: int| 0 <= j < s2.len() implies (#[trigger] s2[j]).wf() by {
        assert(s1.contains(s2[j]));
        let i = choose|i: int| 0 <= i < s1.len() && s1[i] == s2[j];
        assert(s1[i].wf());
    }
}

/// The bounding box of well-formed triangles is bounded, unless there are
/// none.
pub proof fn lemma_aabb_bounded(s: Seq<Triangle>)
    requires
        all_wf(s),
        s.len() > 0,
    ensures
        aabb_of(s).is_bounded(),
    decreases s.len(),
{
    let r = s.drop_last();
    let t = s.last();
    assert(t.wf());
    if r.len() > 0 {
        assert forall|i: int| 0 <= i < r.len() implies (#[trigger] r[i]).wf() by {
            assert(r[i] == s[i]);
        }
        lemma_aabb_bounded(r);
    } else {
        assert(lo_of(r, 0) == i64::MAX && hi_of(r, 0) == i64::MIN);
        assert(lo_of(r, 1) == i64::MAX && hi_of(r, 1) == i64::MIN);
        assert(lo_of(r, 2) == i64::MAX && hi_of(r, 2) == i64::MIN);
    }
}

} // verus!
