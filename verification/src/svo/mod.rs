//! The sparse voxel octree that decides which chunks are visible.

pub mod batch_renderer;
pub mod config;
pub mod gpu_traversal;
pub mod hierarchical_bitset;
pub mod node_manager;
pub mod node_records;
pub mod node_store;
pub mod node_tree;
pub mod position;
pub mod region_queue;
pub mod region_set;
pub mod render_distance;
pub mod section;
pub mod section_tracker;
pub mod svo_sync;
pub mod terrain_bridge;
pub mod visibility_bridge;
pub mod voxel_source;

pub use position::{
    decode_level, decode_x, decode_y, decode_z, encode_position, format_pos, make_child_pos,
    make_parent_pos,
};
