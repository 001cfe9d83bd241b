//! Sizes that the octree is built on.

use vstd::prelude::*;

verus! {

/// The largest number of nodes.
pub const MAX_NODES: usize = 0x4_0000;

/// The bytes that a node takes in the store.
pub const NODE_SIZE_BYTES: usize = 32;

/// The bytes that a node takes on the graphics processor.
pub const GPU_NODE_SIZE_BYTES: usize = 16;

/// The bytes of the buffer that holds all nodes on the graphics processor.
pub const NODE_BUFFER_SIZE: usize = 0x40_0000;

/// The edge length of a section in voxels.
pub const SECTION_SIZE: u32 = 32;

/// The number of voxels in a section.
pub const SECTION_VOLUME: usize = 32768;

/// The coarsest level of detail.
pub const MAX_LOD: u32 = 4;

/// The edge length of a top-level section in voxels.
pub const TOP_LEVEL_SIZE: u32 = 512;

} // verus!
