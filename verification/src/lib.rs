//! A sparse voxel octree: an index from integer coordinates inside a cube to
//! optional payloads, which keeps one node for each uniform region instead of
//! one entry for each unit cell.
//!
//! [`Node`] is the recursive unit and carries lookup and insertion;
//! [`SparseVoxelOctree`] owns the root together with the number of halvings
//! from the root down to a unit cell. Payload identities come from a
//! [`VoxelCounter`] that the caller hands to the constructors.
//!
//! Two choices hold throughout. Coordinates wrap around: lookup and
//! insertion take them modulo the side of the cube, so the cube tiles all of
//! space and no coordinate is out of range. An insertion deeper than the
//! tree grows the tree first: the old root becomes octant 0 of a new root
//! whose other octants are empty, once for each level that is missing, so
//! that the side of the cube always matches the depth of the tree.
//!
//! The module [`laws`] states and proves what lookup returns after each of
//! the operations.

pub mod grid;
pub mod laws;
pub mod node;
pub mod octree;
pub mod voxel;

pub use crate::node::Node;
pub use crate::octree::OctreeView;
pub use crate::octree::SparseVoxelOctree;
pub use crate::voxel::Voxel;
pub use crate::voxel::VoxelCounter;
