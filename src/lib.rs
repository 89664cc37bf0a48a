//! Storage and spatial indexing for integer-lattice grids: dense arrays with
//! point and extent access, an occupancy octree, and array compression.

pub mod access;
pub mod array;
pub mod bytes;
pub mod compression;
pub mod lattice;
pub mod octree;
pub mod octree_laws;
pub mod signed_distance;

pub use access::{copy_extent, copy_extent_from_fn, ForEachMut, Get, GetMut, GetRef, LatticeMap};
pub use array::{Array3, Stride};
pub use bytes::PlainBytes;
pub use compression::{BytesCompression, DecompressError, FastArrayCompression, FastCompressedArray, Uncompressed};
pub use lattice::{Extent3i, Point3i};
pub use octree::{IsEmpty, OctNode, Octant, OctreeNode, OctreeSet, VisitStatus};
pub use signed_distance::{Sd16, Sd8, SignedDistance};
