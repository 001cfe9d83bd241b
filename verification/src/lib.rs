//! The logic of a voxel world: block storage, meshes, levels of detail, chunk
//! loading and the octree that decides what is visible.

pub mod async_mesh;
pub mod atlas;
pub mod biome;
pub mod biome_table;
pub mod bits;
pub mod block_definition;
pub mod block_interaction;
pub mod character_controller;
pub mod chunk;
pub mod chunk_dirty;
pub mod chunk_laws;
pub mod chunk_manager;
pub mod chunk_wire_frame;
pub mod compact_vertex;
pub mod coord_map;
pub mod face;
pub mod greedy_mesh;
pub mod load_frames;
pub mod load_queue;
pub mod lod;
pub mod mesh;
pub mod palette;
pub mod perf_logger;
pub mod raycast;
pub mod resource_pack;
pub mod solid_mesh;
pub mod spline;
pub mod svo;
pub mod text;
pub mod triangle_count;
pub mod types;
pub mod view;
pub mod voxel_buffers;
