//! A builder of bounding volume hierarchies for ray tracing.
//!
//! Triangle meshes are turned into a flat triangle array, and over the
//! triangles of each mesh a hierarchy of axis-aligned boxes is built by
//! recursive splitting with a surface-area cost. All geometry lives on a
//! fixed-point integer grid, so every comparison, every box and every cost
//! is exact.
//!
//! - [`geometry`]: points, triangles and tight bounding boxes
//! - [`bvh`]: the node type, the cost of a node and the choice of a split
//! - [`tree`]: the in-place partition and the recursive build
//! - [`invariants`]: what holds of every tree that was built
//! - [`scene`]: meshes, their triangles, and whole scenes
//! - [`window`], [`render`]: plain descriptors of the display side

pub mod bvh;
pub mod geometry;
pub mod invariants;
pub mod render;
pub mod scene;
pub mod tree;
pub mod window;
