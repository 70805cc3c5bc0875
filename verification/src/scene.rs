use crate::bvh::Bvh;
use crate::geometry::{all_wf, Normal, Point, Translation, Triangle, Uv};
use crate::invariants::lemma_node_count;
use crate::tree::{lemma_tree_order, tree_nodes, tree_order};
use vstd::prelude::*;

verus! {

/// One indexed mesh as a mesh file delivers it: three coordinates per
/// vertex, two texture coordinates per vertex and three vertex indices per
/// triangle, all flattened.
#[derive(Debug, Clone)]
pub struct Mesh {
    pub positions: Vec<i32>,
    pub texcoords: Vec<i32>,
    pub indices: Vec<u32>,
}

/// One model of the scene: where its hierarchy starts in the node array
/// and which material it uses.
#[derive(Debug, Clone, Copy, PartialEq, Eq, Structural)]
pub struct Model {
    pub bvh_index: u32,
    pub material_id: u32,
}

/// A surface material. Every field is in thousandths.
#[derive(Debug, Clone, Copy, PartialEq, Eq, Structural)]
pub struct Material {
    pub red: u32,
    pub green: u32,
    pub blue: u32,
    pub albedo: u32,
    pub smoothness: u32,
    pub emission_strength: u32,
}

/// What a scene names: the mesh files and where each is placed.
#[derive(Debug, Clone)]
pub struct SceneDescriptor {
    /// The paths of the mesh files.
    pub model_paths: Vec<String>,
    /// The translation applied to each mesh file on load.
    pub positions: Vec<Translation>,
}

/// The flat arrays of a loaded scene, ready to be copied to the device.
#[derive(Debug, Clone)]
pub struct LoadedModels {
    pub triangles: Vec<Triangle>,
    pub materials: Vec<Material>,
    pub models: Vec<Model>,
    pub bvhs: Vec<Bvh>,
}

/// Why a scene cannot be loaded.
#[derive(Debug, Clone, Copy, PartialEq, Eq, Structural)]
pub enum LoadError {
    /// There are not as many positions as assets.
    LengthMismatch,
    /// A mesh has an index list that is no whole number of triples, or an
    /// index without a vertex.
    InvalidMesh,
    /// The scene holds more triangles than the 32-bit indices of the
    /// arrays can be sure to address.
    TooManyTriangles,
}

/// The vector from `from` to `to`.
pub open spec fn spec_edge(from: Point, to: Point) -> Point {
    Point { x: (to.x - from.x) as i64, y: (to.y - from.y) as i64, z: (to.z - from.z) as i64 }
}

/// The cross product `u x v`.
pub open spec fn spec_cross(u: Point, v: Point) -> Normal {
    Normal {
        x: (u.y * v.z - u.z * v.y) as i128,
        y: (u.z * v.x - u.x * v.z) as i128,
        z: (u.x * v.y - u.y * v.x) as i128,
    }
}

/// The material shared by every model.
pub open spec fn placeholder_material() -> Material {
    Material { red: 800, green: 600, blue: 600, albedo: 1000, smoothness: 980, emission_strength: 0 }
}

impl Mesh {
    /// The index list is made of whole triples and every index names a
    /// vertex that has a position and a texture coordinate.
    pub open spec fn valid(&self) -> bool {
        &&& self.indices@.len() % 3 == 0
        &&& forall|i: int|
            0 <= i < self.indices@.len() ==> {
                &&& 3 * (#[trigger] self.indices@[i]) + 2 < self.positions@.len()
                &&& 2 * self.indices@[i] + 1 < self.texcoords@.len()
            }
    }

    /// The number of triangles of the mesh.
    pub open spec fn triangle_count(&self) -> int {
        self.indices@.len() as int / 3
    }

    /// The world-space position of vertex `v`: its raw position plus the
    /// translation.
    pub open spec fn vertex(&self, v: int, by: Translation) -> Point {
        Point {
            x: (self.positions@[3 * v] + by.x) as i64,
            y: (self.positions@[3 * v + 1] + by.y) as i64,
            z: (self.positions@[3 * v + 2] + by.z) as i64,
        }
    }

    /// The texture coordinates of vertex `v`.
    pub open spec fn uv(&self, v: int) -> Uv {
        Uv { u: self.texcoords@[2 * v], v: self.texcoords@[2 * v + 1] }
    }

    /// The `k`-th triangle of the mesh, translated.
    pub open spec fn triangle(&self, k: int, by: Translation) -> Triangle {
        let ia = self.indices@[3 * k] as int;
        let ib = self.indices@[3 * k + 1] as int;
        let ic = self.indices@[3 * k + 2] as int;
        let a = self.vertex(ia, by);
        let b = self.vertex(ib, by);
        let c = self.vertex(ic, by);
        Triangle {
            a,
            b,
            c,
            normal: spec_cross(spec_edge(a, b), spec_edge(a, c)),
            uv_a: self.uv(ia),
            uv_b: self.uv(ib),
            uv_c: self.uv(ic),
        }
    }

    /// The triangles of the mesh, translated, one per index triple and in
    /// the order of the index list.
    pub open spec fn triangles(&self, by: Translation) -> Seq<Triangle> {
        Seq::new(self.triangle_count() as nat, |k: int| self.triangle(k, by))
    }

    /// Tells whether the mesh is valid.
    pub fn is_valid(&self) -> (r: bool)
        ensures
            r == self.valid(),
    {
        let n: usize = self.indices.len();
        if n % 3 != 0 {
            return false;
        }
        let np: usize = self.positions.len();
        let nt: usize = self.texcoords.len();
        let mut i: usize = 0;
        while i < n
            invariant
                i <= n,
                n == self.indices@.len(),
                np == self.positions@.len(),
                nt == self.texcoords@.len(),
                forall|j: int|
                    0 <= j < i ==> {
                        &&& 3 * (#[trigger] self.indices@[j]) + 2 < self.positions@.len()
                        &&& 2 * self.indices@[j] + 1 < self.texcoords@.len()
                    },
            decreases n - i,
        {
            let v: u64 = self.indices[i] as u64;
            if 3 * v + 2 >= np as u64 || 2 * v + 1 >= nt as u64 {
                return false;
            }
            i += 1;
        }
        true
    }

    /// Reads the world-space position of vertex `v`.
    fn vertex_at(&self, v: usize, by: &Translation) -> (p: Point)
        requires
            3 * v + 2 < self.positions@.len(),
        ensures
            p == self.vertex(v as int, *by),
            p.in_range(),
    {
        let n: usize = self.positions.len();
        assert(3 * v + 2 < n);
        Point {
            x: self.positions[3 * v] as i64 + by.x as i64,
            y: self.positions[3 * v + 1] as i64 + by.y as i64,
            z: self.positions[3 * v + 2] as i64 + by.z as i64,
        }
    }

    /// Reads the texture coordinates of vertex `v`.
    fn uv_at(&self, v: usize) -> (r: Uv)
        requires
            2 * v + 1 < self.texcoords@.len(),
        ensures
            r == self.uv(v as int),
    {
        let n: usize = self.texcoords.len();
        assert(2 * v + 1 < n);
        Uv { u: self.texcoords[2 * v], v: self.texcoords[2 * v + 1] }
    }
}

/// The triangles of a mesh lie within the coordinate range.
pub proof fn lemma_mesh_triangles_wf(mesh: Mesh, by: Translation)
    ensures
        all_wf(mesh.triangles(by)),
        mesh.triangles(by).len() == mesh.triangle_count(),
{
}

/// The vector from `from` to `to`.
pub fn edge(from: &Point, to: &Point) -> (r: Point)
    requires
        from.in_range(),
        to.in_range(),
    ensures
        r == spec_edge(*from, *to),
{
    Point { x: to.x - from.x, y: to.y - from.y, z: to.z - from.z }
}

/// The cross product of two edges. It is not normalized: its length is
/// twice the area that the edges span.
pub fn cross(u: &Point, v: &Point) -> (r: Normal)
    requires
        -0x2_0000_0000 <= u.x <= 0x2_0000_0000,
        -0x2_0000_0000 <= u.y <= 0x2_0000_0000,
        -0x2_0000_0000 <= u.z <= 0x2_0000_0000,
        -0x2_0000_0000 <= v.x <= 0x2_0000_0000,
        -0x2_0000_0000 <= v.y <= 0x2_0000_0000,
        -0x2_0000_0000 <= v.z <= 0x2_0000_0000,
    ensures
        r == spec_cross(*u, *v),
{
    let ux: i128 = u.x as i128;
    let uy: i128 = u.y as i128;
    let uz: i128 = u.z as i128;
    let vx: i128 = v.x as i128;
    let vy: i128 = v.y as i128;
    let vz: i128 = v.z as i128;
    let yz: i128 = product(uy, vz);
    let zy: i128 = product(uz, vy);
    let zx: i128 = product(uz, vx);
    let xz: i128 = product(ux, vz);
    let xy: i128 = product(ux, vy);
    let yx: i128 = product(uy, vx);
    Normal { x: yz - zy, y: zx - xz, z: xy - yx }
}

/// The product of two edge coordinates.
fn product(a: i128, b: i128) -> (r: i128)
    requires
        -0x2_0000_0000 <= a <= 0x2_0000_0000,
        -0x2_0000_0000 <= b <= 0x2_0000_0000,
    ensures
        r == a * b,
        -0x4_0000_0000_0000_0000 <= r <= 0x4_0000_0000_0000_0000,
{
    assert(-0x4_0000_0000_0000_0000 <= a * b <= 0x4_0000_0000_0000_0000) by (nonlinear_arith)
        requires
            -0x2_0000_0000 <= a <= 0x2_0000_0000,
            -0x2_0000_0000 <= b <= 0x2_0000_0000,
    ;
    a * b
}

impl Triangle {
    /// Appends one triangle per index triple of the mesh to `triangles`:
    /// each vertex translated, the face normal computed from the
    /// translated vertices, the texture coordinates copied.
    pub fn extract(triangles: &mut Vec<Triangle>, mesh: &Mesh, position: &Translation)
        requires
            mesh.valid(),
        ensures
            final(triangles)@ == old(triangles)@ + mesh.triangles(*position),
    {
        let ghost before = triangles@;
        let n: usize = mesh.indices.len();
        let mut i: usize = 0;
        while i < n
            invariant
                i <= n,
                i % 3 == 0,
                n == mesh.indices@.len(),
                mesh.valid(),
                triangles@ == before + mesh.triangles(*position).take(i as int / 3),
            decreases n - i,
        {
            let ia: usize = mesh.indices[i] as usize;
            let ib: usize = mesh.indices[i + 1] as usize;
            let ic: usize = mesh.indices[i + 2] as usize;
            let a = mesh.vertex_at(ia, position);
            let b = mesh.vertex_at(ib, position);
            let c = mesh.vertex_at(ic, position);
            let ab = edge(&a, &b);
            let ac = edge(&a, &c);
            let triangle = Triangle {
                a,
                b,
                c,
                normal: cross(&ab, &ac),
                uv_a: mesh.uv_at(ia),
                uv_b: mesh.uv_at(ib),
                uv_c: mesh.uv_at(ic),
            };
            triangles.push(triangle);
            proof {
                let k = i as int / 3;
                let all = mesh.triangles(*position);
                assert(i as int == 3 * k);
                assert(triangle == all[k]);
                assert(all.take(k + 1) =~= all.take(k).push(triangle));
                assert((i + 3) as int / 3 == k + 1);
            }
            i += 3;
        }
        proof {
            let all = mesh.triangles(*position);
            assert(all.take(n as int / 3) =~= all);
        }
    }
}

/// Every mesh of the sequence is valid.
pub open spec fn all_valid(meshes: Seq<Mesh>) -> bool {
    forall|i: int| 0 <= i < meshes.len() ==> (#[trigger] meshes[i]).valid()
}

/// The triangles of all meshes of one asset, mesh after mesh, translated.
pub open spec fn asset_triangles(meshes: Seq<Mesh>, by: Translation) -> Seq<Triangle>
    decreases meshes.len(),
{
    if meshes.len() == 0 {
        Seq::empty()
    } else {
        asset_triangles(meshes.drop_last(), by) + meshes.last().triangles(by)
    }
}

/// The triangles of an asset lie within the coordinate range.
pub proof fn lemma_asset_triangles_wf(meshes: Seq<Mesh>, by: Translation)
    ensures
        all_wf(asset_triangles(meshes, by)),
    decreases meshes.len(),
{
    if meshes.len() > 0 {
        lemma_asset_triangles_wf(meshes.drop_last(), by);
        lemma_mesh_triangles_wf(meshes.last(), by);
    }
}

/// The triangle array after the first `n` assets have been loaded.
pub open spec fn scene_triangles(
    assets: Seq<Vec<Mesh>>,
    positions: Seq<Translation>,
    n: nat,
) -> Seq<Triangle>
    decreases n,
{
    if n == 0 {
        Seq::empty()
    } else {
        scene_triangles(assets, positions, (n - 1) as nat) + tree_order(
            asset_triangles(assets[n - 1]@, positions[n - 1]),
        )
    }
}

/// The node array after the first `n` assets have been loaded.
pub open spec fn scene_nodes(assets: Seq<Vec<Mesh>>, positions: Seq<Translation>, n: nat) -> Seq<
    Bvh,
>
    decreases n,
{
    if n == 0 {
        Seq::empty()
    } else {
        let before = scene_nodes(assets, positions, (n - 1) as nat);
        before + tree_nodes(
            asset_triangles(assets[n - 1]@, positions[n - 1]),
            scene_triangles(assets, positions, (n - 1) as nat).len() as int,
            before.len() as int,
        )
    }
}

/// The model array after the first `n` assets have been loaded: one model
/// per asset, each naming the first node appended for it.
pub open spec fn scene_models(assets: Seq<Vec<Mesh>>, positions: Seq<Translation>, n: nat) -> Seq<
    Model,
>
    decreases n,
{
    if n == 0 {
        Seq::empty()
    } else {
        scene_models(assets, positions, (n - 1) as nat).push(
            Model {
                bvh_index: scene_nodes(assets, positions, (n - 1) as nat).len() as u32,
                material_id: 0,
            },
        )
    }
}

/// Loading further assets only appends: what the first `i` assets put
/// into the three arrays stays where it is, and each model names the
/// first node appended for its asset.
pub proof fn lemma_scene_is_append_only(
    assets: Seq<Vec<Mesh>>,
    positions: Seq<Translation>,
    i: nat,
    n: nat,
)
    requires
        i <= n,
    ensures
        scene_triangles(assets, positions, i) == scene_triangles(assets, positions, n).take(
            scene_triangles(assets, positions, i).len() as int,
        ),
        scene_nodes(assets, positions, i) == scene_nodes(assets, positions, n).take(
            scene_nodes(assets, positions, i).len() as int,
        ),
        scene_models(assets, positions, i) == scene_models(assets, positions, n).take(i as int),
        scene_models(assets, positions, n).len() == n,
        i < n ==> scene_models(assets, positions, n)[i as int] == (Model {
            bvh_index: scene_nodes(assets, positions, i).len() as u32,
            material_id: 0,
        }),
    decreases n,
{
    if i < n {
        let m = (n - 1) as nat;
        lemma_scene_is_append_only(assets, positions, i, m);
        lemma_scene_is_append_only(assets, positions, m, m);
        lemma_scene_grows(assets, positions, i, m);
        assert(scene_triangles(assets, positions, n).take(
            scene_triangles(assets, positions, i).len() as int,
        ) =~= scene_triangles(assets, positions, m).take(
            scene_triangles(assets, positions, i).len() as int,
        ));
        assert(scene_nodes(assets, positions, n).take(
            scene_nodes(assets, positions, i).len() as int,
        ) =~= scene_nodes(assets, positions, m).take(scene_nodes(assets, positions, i).len() as int));
        assert(scene_models(assets, positions, n).take(i as int) =~= scene_models(
            assets,
            positions,
            m,
        ).take(i as int));
    } else {
        if n > 0 {
            lemma_scene_is_append_only(assets, positions, (n - 1) as nat, (n - 1) as nat);
        }
        assert(scene_triangles(assets, positions, n).take(
            scene_triangles(assets, positions, n).len() as int,
        ) =~= scene_triangles(assets, positions, n));
        assert(scene_nodes(assets, positions, n).take(
            scene_nodes(assets, positions, n).len() as int,
        ) =~= scene_nodes(assets, positions, n));
        assert(scene_models(assets, positions, n).take(n as int) =~= scene_models(
            assets,
            positions,
            n,
        ));
    }
}

/// The arrays only grow as more assets are loaded.
proof fn lemma_scene_grows(assets: Seq<Vec<Mesh>>, positions: Seq<Translation>, i: nat, n: nat)
    requires
        i <= n,
    ensures
        scene_triangles(assets, positions, i).len() <= scene_triangles(assets, positions, n).len(),
        scene_nodes(assets, positions, i).len() <= scene_nodes(assets, positions, n).len(),
    decreases n,
{
    if i < n {
        lemma_scene_grows(assets, positions, i, (n - 1) as nat);
    }
}

impl Model {
    /// Loads one asset: appends the triangles of its meshes, translated,
    /// builds the hierarchy over them and returns the model that names the
    /// hierarchy's root.
    pub fn load(
        triangles: &mut Vec<Triangle>,
        bvhs: &mut Vec<Bvh>,
        meshes: &Vec<Mesh>,
        position: &Translation,
    ) -> (r: Model)
        requires
            all_valid(meshes@),
            old(triangles).len() + asset_triangles(meshes@, *position).len() <= u32::MAX,
            old(bvhs).len() + tree_nodes(
                asset_triangles(meshes@, *position),
                old(triangles).len() as int,
                old(bvhs).len() as int,
            ).len() <= u32::MAX,
        ensures
            final(triangles)@ == old(triangles)@ + tree_order(asset_triangles(meshes@, *position)),
            final(bvhs)@ == old(bvhs)@ + tree_nodes(
                asset_triangles(meshes@, *position),
                old(triangles).len() as int,
                old(bvhs).len() as int,
            ),
            r == (Model { bvh_index: old(bvhs).len() as u32, material_id: 0 }),
    {
        let ghost before = triangles@;
        let ghost asset = asset_triangles(meshes@, *position);
        let triangle_offset: usize = triangles.len();
        let bvh_index: usize = bvhs.len();
        let mut i: usize = 0;
        while i < meshes.len()
            invariant
                i <= meshes@.len(),
                all_valid(meshes@),
                triangles@ == before + asset_triangles(meshes@.take(i as int), *position),
            decreases meshes@.len() - i,
        {
            proof {
                assert(meshes@.take(i + 1).drop_last() =~= meshes@.take(i as int));
                assert(meshes@.take(i + 1).last() == meshes@[i as int]);
            }
            Triangle::extract(triangles, &meshes[i], position);
            i += 1;
        }
        proof {
            assert(meshes@.take(meshes@.len() as int) =~= meshes@);
            assert(triangles@.skip(triangle_offset as int) =~= asset);
            assert(triangles@.take(triangle_offset as int) =~= before);
            lemma_asset_triangles_wf(meshes@, *position);
        }
        Bvh::build(bvhs, triangles, triangle_offset as u32);
        Model { bvh_index: bvh_index as u32, material_id: 0 }
    }
}

impl LoadedModels {
    /// Loads a scene: each asset in turn, translated by the position of
    /// the same index. Every model uses the one placeholder material.
    pub fn load(assets: &Vec<Vec<Mesh>>, positions: &Vec<Translation>) -> (r: LoadedModels)
        requires
            assets@.len() == positions@.len(),
            forall|i: int| 0 <= i < assets@.len() ==> all_valid((#[trigger] assets@[i])@),
            scene_triangles(assets@, positions@, assets@.len()).len() <= u32::MAX,
            scene_nodes(assets@, positions@, assets@.len()).len() <= u32::MAX,
        ensures
            r.triangles@ == scene_triangles(assets@, positions@, assets@.len()),
            r.bvhs@ == scene_nodes(assets@, positions@, assets@.len()),
            r.models@ == scene_models(assets@, positions@, assets@.len()),
            r.materials@ == seq![placeholder_material()],
    {
        let mut triangles: Vec<Triangle> = Vec::new();
        let mut bvhs: Vec<Bvh> = Vec::new();
        let mut models: Vec<Model> = Vec::new();
        let n: usize = assets.len();
        let mut i: usize = 0;
        while i < n
            invariant
                i <= n,
                n == assets@.len(),
                n == positions@.len(),
                forall|k: int| 0 <= k < assets@.len() ==> all_valid((#[trigger] assets@[k])@),
                scene_triangles(assets@, positions@, assets@.len()).len() <= u32::MAX,
                scene_nodes(assets@, positions@, assets@.len()).len() <= u32::MAX,
                triangles@ == scene_triangles(assets@, positions@, i as nat),
                bvhs@ == scene_nodes(assets@, positions@, i as nat),
                models@ == scene_models(assets@, positions@, i as nat),
            decreases n - i,
        {
            proof {
                lemma_scene_grows(assets@, positions@, (i + 1) as nat, n as nat);
                lemma_tree_order(asset_triangles(assets@[i as int]@, positions@[i as int]));
            }
            let model = Model::load(&mut triangles, &mut bvhs, &assets[i], &positions[i]);
            models.push(model);
            i += 1;
        }
        let mut materials: Vec<Material> = Vec::new();
        materials.push(
            Material {
                red: 800,
                green: 600,
                blue: 600,
                albedo: 1000,
                smoothness: 980,
                emission_strength: 0,
            },
        );
        LoadedModels { triangles, materials, models, bvhs }
    }
}

/// The number of triangles of all meshes of one asset.
pub open spec fn mesh_count(meshes: Seq<Mesh>) -> int
    decreases meshes.len(),
{
    if meshes.len() == 0 {
        0
    } else {
        mesh_count(meshes.drop_last()) + meshes.last().triangle_count()
    }
}

/// The number of triangles of the first `n` assets.
pub open spec fn scene_triangle_count(assets: Seq<Vec<Mesh>>, n: nat) -> int
    decreases n,
{
    if n == 0 {
        0
    } else {
        scene_triangle_count(assets, (n - 1) as nat) + mesh_count(assets[n - 1]@)
    }
}

/// Every mesh of every asset is valid.
pub open spec fn all_assets_valid(assets: Seq<Vec<Mesh>>) -> bool {
    forall|i: int| 0 <= i < assets.len() ==> all_valid((#[trigger] assets[i])@)
}

/// A scene fits when twice its triangles and one node per asset can be
/// counted in 32 bits: no tree has more nodes than twice its triangles.
pub open spec fn scene_fits(assets: Seq<Vec<Mesh>>) -> bool {
    2 * scene_triangle_count(assets, assets.len()) + assets.len() <= u32::MAX
}

/// The triangle count of a scene only grows with more assets.
proof fn lemma_counts(assets: Seq<Vec<Mesh>>, i: nat, n: nat)
    requires
        i <= n,
    ensures
        0 <= scene_triangle_count(assets, i) <= scene_triangle_count(assets, n),
    decreases n,
{
    if n > 0 {
        lemma_mesh_count(assets[n - 1]@, 0);
        if i < n {
            lemma_counts(assets, i, (n - 1) as nat);
        } else {
            lemma_counts(assets, (i - 1) as nat, (n - 1) as nat);
        }
    }
}

/// The first `j` meshes of an asset hold no more triangles than all of
/// them.
proof fn lemma_mesh_count(meshes: Seq<Mesh>, j: int)
    requires
        0 <= j <= meshes.len(),
    ensures
        0 <= mesh_count(meshes.take(j)) <= mesh_count(meshes),
    decreases meshes.len(),
{
    if meshes.len() > 0 {
        let rest = meshes.drop_last();
        if j < meshes.len() {
            lemma_mesh_count(rest, j);
            assert(rest.take(j) =~= meshes.take(j));
        } else {
            lemma_mesh_count(rest, j - 1);
            assert(meshes.take(j) =~= meshes);
        }
    } else {
        assert(meshes.take(j) =~= meshes);
    }
}

/// An asset has as many triangles as its meshes together.
proof fn lemma_asset_length(meshes: Seq<Mesh>, by: Translation)
    ensures
        asset_triangles(meshes, by).len() == mesh_count(meshes),
    decreases meshes.len(),
{
    if meshes.len() > 0 {
        lemma_asset_length(meshes.drop_last(), by);
    }
}

/// A scene that fits has arrays that 32-bit indices can address.
pub proof fn lemma_scene_sizes(assets: Seq<Vec<Mesh>>, positions: Seq<Translation>, n: nat)
    requires
        n <= assets.len(),
        scene_fits(assets),
    ensures
        scene_triangles(assets, positions, n).len() == scene_triangle_count(assets, n),
        scene_nodes(assets, positions, n).len() <= 2 * scene_triangle_count(assets, n) + n,
        scene_triangles(assets, positions, n).len() <= u32::MAX,
        scene_nodes(assets, positions, n).len() <= u32::MAX,
    decreases n,
{
    lemma_counts(assets, n, assets.len());
    if n > 0 {
        let m = (n - 1) as nat;
        lemma_scene_sizes(assets, positions, m);
        let asset = asset_triangles(assets[n - 1]@, positions[n - 1]);
        lemma_asset_length(assets[n - 1]@, positions[n - 1]);
        lemma_asset_triangles_wf(assets[n - 1]@, positions[n - 1]);
        lemma_tree_order(asset);
        lemma_node_count(
            asset,
            scene_triangles(assets, positions, m).len() as int,
            scene_nodes(assets, positions, m).len() as int,
        );
    }
}

/// Counts the triangles of one asset, as long as they stay below `limit`.
fn count_triangles(meshes: &Vec<Mesh>, limit: u64) -> (r: Option<u64>)
    requires
        limit <= u32::MAX,
    ensures
        match r {
            Some(c) => c == mesh_count(meshes@) && c <= limit,
            None => mesh_count(meshes@) > limit,
        },
{
    let mut total: u64 = 0;
    let mut j: usize = 0;
    while j < meshes.len()
        invariant
            j <= meshes@.len(),
            limit <= u32::MAX,
            total == mesh_count(meshes@.take(j as int)),
            total <= limit,
        decreases meshes@.len() - j,
    {
        let c: u64 = (meshes[j].indices.len() / 3) as u64;
        proof {
            assert(meshes@.take(j + 1).drop_last() =~= meshes@.take(j as int));
            assert(meshes@.take(j + 1).last() == meshes@[j as int]);
            lemma_mesh_count(meshes@, j + 1);
        }
        if c > limit - total {
            return None;
        }
        total = total + c;
        j += 1;
    }
    proof {
        assert(meshes@.take(meshes@.len() as int) =~= meshes@);
    }
    Some(total)
}

/// Tells whether every mesh of an asset is valid.
fn asset_is_valid(meshes: &Vec<Mesh>) -> (r: bool)
    ensures
        r == all_valid(meshes@),
{
    let mut j: usize = 0;
    while j < meshes.len()
        invariant
            j <= meshes@.len(),
            forall|k: int| 0 <= k < j ==> (#[trigger] meshes@[k]).valid(),
        decreases meshes@.len() - j,
    {
        if !meshes[j].is_valid() {
            return false;
        }
        j += 1;
    }
    true
}

impl LoadedModels {
    /// Tells whether `load` can take a scene, and if not, why: first
    /// whether positions and assets pair up, then whether every mesh is
    /// valid, then whether the scene fits the index width.
    pub fn check(assets: &Vec<Vec<Mesh>>, positions: &Vec<Translation>) -> (r: Result<
        (),
        LoadError,
    >)
        ensures
            match r {
                Err(LoadError::LengthMismatch) => assets@.len() != positions@.len(),
                Err(LoadError::InvalidMesh) => assets@.len() == positions@.len()
                    && !all_assets_valid(assets@),
                Err(LoadError::TooManyTriangles) => assets@.len() == positions@.len()
                    && all_assets_valid(assets@) && !scene_fits(assets@),
                Ok(_) => assets@.len() == positions@.len() && all_assets_valid(assets@)
                    && scene_fits(assets@),
            },
            r is Ok ==> scene_triangles(assets@, positions@, assets@.len()).len() <= u32::MAX
                && scene_nodes(assets@, positions@, assets@.len()).len() <= u32::MAX,
    {
        let n: usize = assets.len();
        if n != positions.len() {
            return Err(LoadError::LengthMismatch);
        }
        let mut i: usize = 0;
        while i < n
            invariant
                i <= n,
                n == assets@.len(),
                n == positions@.len(),
                forall|k: int| 0 <= k < i ==> all_valid((#[trigger] assets@[k])@),
            decreases n - i,
        {
            if !asset_is_valid(&assets[i]) {
                return Err(LoadError::InvalidMesh);
            }
            i += 1;
        }
        let limit: u64 = 0xFFFF_FFFF;
        let mut total: u64 = 0;
        let mut i: usize = 0;
        while i < n
            invariant
                i <= n,
                n == assets@.len(),
                n == positions@.len(),
                limit == u32::MAX,
                all_assets_valid(assets@),
                total == scene_triangle_count(assets@, i as nat),
                2 * total + i <= limit,
            decreases n - i,
        {
            proof {
                lemma_counts(assets@, (i + 1) as nat, n as nat);
                lemma_mesh_count(assets@[i as int]@, 0);
            }
            let room: u64 = (limit - 2 * total - i as u64) / 2;
            assert(scene_triangle_count(assets@, (i + 1) as nat) == total + mesh_count(
                assets@[i as int]@,
            ));
            match count_triangles(&assets[i], room) {
                None => {
                    return Err(LoadError::TooManyTriangles);
                },
                Some(c) => {
                    if 2 * (total + c) + i as u64 + 1 > limit {
                        return Err(LoadError::TooManyTriangles);
                    }
                    total = total + c;
                },
            }
            i += 1;
        }
        proof {
            lemma_scene_sizes(assets@, positions@, n as nat);
        }
        Ok(())
    }

    /// Loads a scene if `check` admits it, and says why not otherwise.
    pub fn try_load(assets: &Vec<Vec<Mesh>>, positions: &Vec<Translation>) -> (r: Result<
        LoadedModels,
        LoadError,
    >)
        ensures
            match r {
                Err(LoadError::LengthMismatch) => assets@.len() != positions@.len(),
                Err(LoadError::InvalidMesh) => assets@.len() == positions@.len()
                    && !all_assets_valid(assets@),
                Err(LoadError::TooManyTriangles) => assets@.len() == positions@.len()
                    && all_assets_valid(assets@) && !scene_fits(assets@),
                Ok(scene) => {
                    &&& assets@.len() == positions@.len()
                    &&& all_assets_valid(assets@)
                    &&& scene_fits(assets@)
                    &&& scene.triangles@ == scene_triangles(assets@, positions@, assets@.len())
                    &&& scene.bvhs@ == scene_nodes(assets@, positions@, assets@.len())
                    &&& scene.models@ == scene_models(assets@, positions@, assets@.len())
                    &&& scene.materials@ == seq![placeholder_material()]
                },
            },
    {
        match LoadedModels::check(assets, positions) {
            Err(e) => Err(e),
            Ok(_) => Ok(LoadedModels::load(assets, positions)),
        }
    }
}

} // verus!
