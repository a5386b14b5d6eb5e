//! A bounding volume hierarchy over a triangle set: a binary tree kept in a
//! flat node array, whose leaves own contiguous windows of a permutation of
//! the triangle indices.
//!
//! The library holds the tree's structure and the decisions that shape it:
//! the in-place partition of an index window, the allocation of child pairs,
//! and the order in which a ray visits nodes. The geometric predicates that
//! drive those decisions (which side of a split a centroid falls on, whether
//! a ray meets a box) are computed by the caller and handed in as booleans.

pub mod bvh;
pub mod builder;
pub mod traversal;

pub use bvh::{Bvh, BvhNode, MAX_TRIANGLES};
pub use builder::Builder;
pub use traversal::Traversal;
