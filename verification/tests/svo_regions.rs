use std::sync::Arc;
use voxel_engine::biome::BiomeType;
use voxel_engine::chunk::ChunkData;
use voxel_engine::chunk_manager::{ChunkManager, LoadedChunks};
use voxel_engine::lod::LodLevel;
use voxel_engine::svo::batch_renderer::{BatchRenderer, RenderBatch};
use voxel_engine::svo::gpu_traversal::{dispatch_groups, node_bytes};
use voxel_engine::svo::node_manager::{GpuNode, NodeManager};
use voxel_engine::svo::node_store::NodeType;
use voxel_engine::svo::position::encode_position;
use voxel_engine::svo::region_queue::PROCESS_RATE;
use voxel_engine::svo::render_distance::RenderDistanceController;
use voxel_engine::svo::section::{Section, SectionCoord};
use voxel_engine::svo::section_tracker::SectionTracker;
use voxel_engine::svo::svo_sync::{apply_updates, SvoSyncController};
use voxel_engine::svo::terrain_bridge::{fill_section_terrain, TerrainColumn, TerrainLimits};
use voxel_engine::svo::visibility_bridge::{
    chunk_visibility, compute_visible_regions, is_chunk_visible, node_center, node_region,
    SvoVisibilityState,
};
use voxel_engine::svo::voxel_source::{ChunkVoxelSource, VoxelSource};
use voxel_engine::types::{ChunkCoord, AIR, STONE, WATER};

fn at(cx: i32, cy: i32, cz: i32) -> ChunkCoord {
    ChunkCoord { cx, cy, cz }
}

fn world_with_stone(coords: &[ChunkCoord]) -> ChunkManager {
    let mut manager = ChunkManager::new();
    for (i, c) in coords.iter().enumerate() {
        manager.finish_spawn(
            *c,
            i as u64 + 1,
            Arc::new(ChunkData::filled(STONE)),
            LodLevel::Lod0,
            0,
        );
    }
    manager
}

#[test]
fn test_default_state() {
    let ctrl = SvoSyncController::default();
    assert!(ctrl.loaded.is_empty());
    assert!(ctrl.needs_rebuild);
}

#[test]
fn test_set_center_triggers_rebuild() {
    let mut ctrl = SvoSyncController::default();
    ctrl.last_px = 0;
    ctrl.last_pz = 0;
    ctrl.needs_rebuild = false;

    ctrl.set_center(33, 0, 33 * 33);
    assert!(ctrl.needs_rebuild);
}

#[test]
fn test_small_movement_no_rebuild() {
    let mut ctrl = SvoSyncController::default();
    ctrl.last_px = 0;
    ctrl.last_pz = 0;
    ctrl.needs_rebuild = false;

    ctrl.set_center(10, 0, 10 * 10);
    assert!(!ctrl.needs_rebuild);
}

#[test]
fn regions_come_and_go_with_the_player() {
    let mut ctrl = SvoSyncController::default();
    let (add, remove) = ctrl.compute_updates();
    assert!(!add.is_empty());
    assert!(remove.is_empty());
    for r in &add {
        assert!(!remove.contains(r));
    }
    let (again, gone) = ctrl.compute_updates();
    assert!(again.is_empty());
    assert!(gone.is_empty());
    assert!(ctrl.set_center(100_000, 0, 100_000 * 100_000));
    let (fresh, old) = ctrl.compute_updates();
    assert_eq!(fresh.len(), add.len());
    assert_eq!(old.len(), add.len());
}

#[test]
fn a_region_with_content_gets_a_node() {
    let world = world_with_stone(&[at(0, 0, 0)]);
    let source = ChunkVoxelSource { loaded: &world.loaded };
    assert!(source.region_has_content(0, 0, 0, 0));
    assert!(source.region_has_content(4, 0, 0, 0));
    assert!(!source.region_has_content(0, 1, 0, 0));
    assert!(!source.region_has_content(4, -1, 0, 0));

    let mut nodes = NodeManager::new();
    let add = vec![(0, 0, 0), (1, 0, 0)];
    apply_updates(&mut nodes, &add, &Vec::new(), &source);
    assert!(nodes.node_count() > 0);
    assert!(nodes.has_dirty_nodes());
    assert!(!nodes.drain_dirty_nodes().is_empty());
    assert!(!nodes.gpu_node_data().is_empty());

    apply_updates(&mut nodes, &Vec::new(), &add, &source);
    assert_eq!(nodes.node_count(), 0);
    assert!(nodes.top_level_ids().is_empty());
    assert!(nodes.gpu_node_data().is_empty());
}

#[test]
fn each_node_has_a_position_of_its_own() {
    let world = world_with_stone(&[at(0, 0, 0), at(1, 0, 0), at(15, 15, 15)]);
    let source = ChunkVoxelSource { loaded: &world.loaded };
    let mut nodes = NodeManager::new();
    nodes.insert_top_level(encode_position(4, 0, 0, 0));
    nodes.process_pending(&source);
    let data: Vec<GpuNode> = nodes.gpu_node_data().clone();
    let mut seen: Vec<u64> = Vec::new();
    for node in data.iter().filter(|n| n.position != 0 || n.data != 0) {
        assert!(!seen.contains(&node.position));
        seen.push(node.position);
    }
    assert!(seen.contains(&encode_position(0, 15, 15, 15)));
    assert!(seen.contains(&encode_position(0, 1, 0, 0)));
    assert!(!seen.contains(&encode_position(0, 2, 0, 0)));
}

#[test]
fn render_distance_regions_are_applied() {
    let mut ctrl = RenderDistanceController::default();
    assert!(ctrl.set_center(0, 0, u64::MAX));
    let world = world_with_stone(&[at(0, 0, 0)]);
    let source = ChunkVoxelSource { loaded: &world.loaded };
    let mut tracker = SectionTracker::new(8);
    let mut nodes = NodeManager::new();
    let mut counts = Vec::new();
    for _ in 0..4 {
        let (added, removed, evicted) = ctrl.advance(&mut tracker, &mut nodes, &source);
        assert!(evicted.is_empty());
        assert_eq!(removed, 0);
        counts.push(added);
    }
    assert_eq!(counts, vec![16, 16, 13, 0]);
    assert!(ctrl.pending.is_empty());
    assert_eq!(tracker.active_count(), 45);
    assert_eq!(nodes.top_level_ids().len(), 45);
}

#[test]
fn the_rate_says_how_many_regions_a_frame_takes() {
    let mut ctrl = RenderDistanceController::default();
    assert_eq!(ctrl.process_rate, PROCESS_RATE);
    ctrl.process_rate = 20;
    assert!(ctrl.set_center(0, 0, u64::MAX));
    assert_eq!(ctrl.process_rate, 20);
    let world = world_with_stone(&[at(0, 0, 0)]);
    let source = ChunkVoxelSource { loaded: &world.loaded };
    let mut tracker = SectionTracker::new(8);
    let mut nodes = NodeManager::new();
    let mut counts = Vec::new();
    for _ in 0..3 {
        counts.push(ctrl.advance(&mut tracker, &mut nodes, &source).0);
    }
    assert_eq!(counts, vec![20, 20, 5]);
    ctrl.process_rate = 0;
    assert!(ctrl.set_center(1000, 0, 1_000_000));
    let (added, removed, _) = ctrl.advance(&mut tracker, &mut nodes, &source);
    assert_eq!(added, 0);
    assert!(removed > 0);
    assert!(!ctrl.pending.is_empty());
}

#[test]
fn a_new_render_distance_is_applied() {
    let mut ctrl = RenderDistanceController::default();
    ctrl.set_center(0, 0, u64::MAX);
    assert_eq!(ctrl.compute_updates().0.len(), 45);
    ctrl.set_render_distance(1);
    assert!(!ctrl.needs_rebuild);
    ctrl.set_render_distance(0);
    assert!(ctrl.needs_rebuild);
    let (added, removed) = ctrl.compute_updates();
    assert!(added.is_empty());
    assert_eq!(removed.len(), 40);
    assert_eq!(ctrl.pending.len(), 5);
    ctrl.set_render_distance(-1);
    assert_eq!(ctrl.compute_updates().1.len(), 5);
    assert!(ctrl.pending.is_empty());
    ctrl.set_render_distance(i32::MAX);
    assert_eq!(ctrl.render_distance, i32::MAX);
}

#[test]
fn every_region_gets_its_turn() {
    let mut ctrl = SvoSyncController::default();
    assert!(ctrl.set_center(0, 0, u64::MAX));
    let world = world_with_stone(&[at(0, 0, 0)]);
    let source = ChunkVoxelSource { loaded: &world.loaded };
    let mut nodes = NodeManager::new();
    assert_eq!(ctrl.advance(&mut nodes, &source), (16, 0));
    assert_eq!(ctrl.pending.len(), 29);
    assert_eq!(nodes.top_level_ids().len(), 16);
    assert_eq!(ctrl.advance(&mut nodes, &source), (16, 0));
    assert_eq!(ctrl.advance(&mut nodes, &source), (13, 0));
    assert_eq!(ctrl.advance(&mut nodes, &source), (0, 0));
    assert!(ctrl.pending.is_empty());
    for x in -1..=1 {
        for y in -2..=2 {
            for z in -1..=1 {
                assert!(nodes.has_node_at(encode_position(4, x, y, z)));
            }
        }
    }
}

#[test]
fn regions_that_are_no_longer_wanted_do_not_wait() {
    let mut ctrl = SvoSyncController::default();
    assert!(ctrl.set_center(0, 0, u64::MAX));
    let world = world_with_stone(&[]);
    let source = ChunkVoxelSource { loaded: &world.loaded };
    let mut nodes = NodeManager::new();
    assert_eq!(ctrl.advance(&mut nodes, &source), (16, 0));
    assert!(ctrl.set_center(512 * 10, 0, u64::MAX));
    assert_eq!(ctrl.advance(&mut nodes, &source), (16, 45));
    assert_eq!(nodes.top_level_ids().len(), 16);
    assert!(ctrl.pending.iter().all(|r| (9..=11).contains(&r.0)));
    assert_eq!(ctrl.advance(&mut nodes, &source), (16, 0));
    assert_eq!(ctrl.advance(&mut nodes, &source), (13, 0));
    assert_eq!(nodes.top_level_ids().len(), 45);
}

#[test]
fn slots_are_taken_from_the_lowest() {
    let world = world_with_stone(&[at(0, 0, 0)]);
    let source = ChunkVoxelSource { loaded: &world.loaded };
    let mut nodes = NodeManager::new();
    let p = encode_position(4, 0, 0, 0);
    nodes.insert_top_level(p);
    nodes.process_pending(&source);
    assert_eq!(nodes.node_count(), 33);
    assert_eq!(nodes.top_level_ids().clone(), vec![0]);
    assert!(nodes.store.get_node_type(0) == NodeType::Inner);
    assert_eq!(nodes.store.get_node_child_existence(0), 1);
    assert_eq!(nodes.store.get_child_ptr(0), 1);
    assert_eq!(nodes.store.get_child_ptr(1), 9);
    assert_eq!(nodes.store.get_child_ptr(9), 17);
    assert_eq!(nodes.store.get_child_ptr(17), 25);
    nodes.remove_top_level(p);
    nodes.process_pending(&source);
    assert_eq!(nodes.node_count(), 0);
    assert!(nodes.top_level_ids().is_empty());
}

#[test]
fn freed_slots_hold_nothing() {
    let world = world_with_stone(&[at(0, 0, 0)]);
    let source = ChunkVoxelSource { loaded: &world.loaded };
    let mut nodes = NodeManager::new();
    let p = encode_position(4, 0, 0, 0);
    nodes.insert_top_level(p);
    nodes.process_pending(&source);
    nodes.remove_top_level(p);
    nodes.process_pending(&source);
    for id in [0, 1, 9, 17, 25, 32] {
        assert!(!nodes.store.node_exists(id));
        assert_eq!(nodes.store.node_position(id), u64::MAX);
        assert_eq!(nodes.store.get_node_geometry(id), -1);
        assert_eq!(nodes.store.get_child_ptr(id), -1);
        assert_eq!(nodes.store.get_node_child_existence(id), 0);
        assert!(nodes.store.get_node_type(id) == NodeType::Unused);
    }
}

#[test]
fn changes_are_listed_from_the_leaves_up() {
    let world = world_with_stone(&[at(0, 0, 0)]);
    let source = ChunkVoxelSource { loaded: &world.loaded };
    let mut nodes = NodeManager::new();
    let p = encode_position(4, 0, 0, 0);
    nodes.insert_top_level(p);
    nodes.process_pending(&source);
    let table: Vec<GpuNode> = nodes.gpu_node_data().clone();
    let listed = nodes.drain_dirty_nodes();
    let ids: Vec<u32> = listed.iter().map(|d| d.node_id).collect();
    assert_eq!(ids, vec![25, 17, 9, 1, 0]);
    for d in &listed {
        assert_eq!(d.gpu_data.position, table[d.node_id as usize].position);
    }
    nodes.remove_top_level(p);
    nodes.process_pending(&source);
    let gone = nodes.drain_dirty_nodes();
    let ids: Vec<u32> = gone.iter().map(|d| d.node_id).collect();
    assert_eq!(ids, vec![25]);
    assert_eq!(gone[0].gpu_data.position, encode_position(0, 0, 0, 0));
}

#[test]
fn a_released_section_comes_back_from_the_cache() {
    let mut tracker = SectionTracker::new(1);
    let a = tracker.acquire(SectionCoord::new(1, 2, 3));
    let mut section = Section::new(SectionCoord::new(1, 2, 3));
    section.set_voxel(0, 0, 0, 9);
    section.ref_count = tracker.get_active(a).unwrap().ref_count;
    assert!(tracker.set_active(a, section));
    assert_eq!(tracker.release(a), None);
    assert!(tracker.is_cached(a));
    assert_eq!(tracker.acquire(SectionCoord::new(1, 2, 3)), a);
    assert_eq!(tracker.get_active(a).unwrap().get_voxel(0, 0, 0), 9);
    assert!(tracker.get_cached(a).is_none());
}

#[test]
fn sections_are_filled_and_marked() {
    let mut section = Section::new(SectionCoord::new(1, 2, 3));
    let mut voxels = vec![0; section.voxels.len()];
    voxels[0] = 4;
    voxels[7] = 5;
    section.is_dirty = false;
    section.set_voxels(&voxels);
    assert_eq!(section.voxels, voxels);
    assert_eq!(section.solid_count, 2);
    assert!(section.is_dirty);
    let mut tracker = SectionTracker::new(1);
    let id = tracker.acquire(section.coord);
    section.ref_count = tracker.get_active(id).unwrap().ref_count;
    section.is_dirty = false;
    tracker.set_active(id, section);
    assert!(!tracker.get_active(id).unwrap().is_dirty);
    tracker.mark_dirty(id);
    assert!(tracker.get_active(id).unwrap().is_dirty);
    tracker.mark_dirty(id + 1);
    assert_eq!(tracker.active_count(), 1);
}

#[test]
fn a_full_cache_drops_the_oldest_section() {
    let mut tracker = SectionTracker::new(1);
    let a = tracker.acquire(SectionCoord::new(0, 0, 0));
    let b = tracker.acquire(SectionCoord::new(1, 0, 0));
    assert_eq!(tracker.release(a), None);
    assert_eq!(tracker.release(b), Some(a));
    assert_eq!(tracker.cached_count(), 1);
    assert_eq!(tracker.active_count(), 0);
    assert_eq!(tracker.clear(), vec![b]);
    assert_eq!(tracker.cached_count(), 0);
}

#[test]
fn test_render_batch() {
    let mut batch = RenderBatch::new(1, 0);
    assert!(batch.is_empty());

    batch.add_node(100);
    batch.add_node(200);
    assert_eq!(batch.len(), 2);
    assert!(!batch.is_empty());
}

#[test]
fn test_batch_renderer() {
    let mut renderer = BatchRenderer::default();
    assert!(renderer.is_empty());

    renderer.add_node(100, 1, 0);
    renderer.add_node(200, 1, 0);
    renderer.add_node(300, 2, 1);

    assert_eq!(renderer.total_nodes(), 3);
    assert_eq!(renderer.batches().len(), 2);
}

#[test]
fn batches_hold_the_nodes_that_were_added() {
    let mut renderer = BatchRenderer::new(true);
    renderer.add_node(7, 3, 2);
    renderer.add_node(8, 3, 2);
    renderer.add_node(9, 3, 1);
    assert_eq!(renderer.batches()[0].node_ids, vec![7, 8]);
    assert_eq!(renderer.batches()[1].node_ids, vec![9]);
    assert_eq!(renderer.batches()[0].lod_level, 2);
    assert_eq!(renderer.stats().max_batch_size, 2);
    renderer.clear();
    assert!(renderer.is_empty());
    assert_eq!(renderer.total_nodes(), 0);
}

#[test]
fn visible_nodes_are_batched_by_geometry_and_level() {
    let world = world_with_stone(&[at(0, 0, 0)]);
    let source = ChunkVoxelSource { loaded: &world.loaded };
    let mut nodes = NodeManager::new();
    nodes.insert_top_level(encode_position(4, 0, 0, 0));
    nodes.process_pending(&source);
    nodes.store.set_node_geometry(1, 6);
    nodes.store.set_node_geometry(9, 6);
    nodes.store.set_node_geometry(17, -2);
    assert_eq!(nodes.node_geometry(1), 6);
    let mut renderer = BatchRenderer::new(true);
    renderer.build_from_render_queue(&vec![1, 9, 17, 1], &nodes);
    assert_eq!(renderer.batches().len(), 2);
    assert_eq!(renderer.batches()[0].node_ids, vec![1, 1]);
    assert_eq!(renderer.batches()[0].material_id, 6);
    assert_eq!(renderer.batches()[0].lod_level, 3);
    assert_eq!(renderer.batches()[1].node_ids, vec![9]);
    assert_eq!(renderer.batches()[1].lod_level, 2);
    let mut off = BatchRenderer::new(false);
    off.build_from_render_queue(&vec![1, 9], &nodes);
    assert!(off.is_empty());
}

#[test]
fn a_changed_node_is_listed() {
    let world = world_with_stone(&[at(0, 0, 0)]);
    let source = ChunkVoxelSource { loaded: &world.loaded };
    let mut nodes = NodeManager::new();
    nodes.insert_top_level(encode_position(4, 0, 0, 0));
    nodes.process_pending(&source);
    nodes.drain_dirty_nodes();
    assert!(nodes.has_dirty_nodes());
    nodes.gpu_node_data();
    assert!(!nodes.has_dirty_nodes());
    let before = nodes.generation();
    nodes.mark_node_dirty(9);
    nodes.mark_node_dirty(100);
    assert!(nodes.has_dirty_nodes());
    assert_eq!(nodes.generation(), before + 1);
    let listed = nodes.drain_dirty_nodes();
    assert_eq!(listed.len(), 1);
    assert_eq!(listed[0].node_id, 9);
    assert_eq!(listed[0].gpu_data.position, encode_position(2, 0, 0, 0));
}

#[test]
fn work_groups_cover_all_nodes() {
    assert_eq!(dispatch_groups(0), 0);
    assert_eq!(dispatch_groups(1), 1);
    assert_eq!(dispatch_groups(64), 1);
    assert_eq!(dispatch_groups(65), 2);
}

#[test]
fn node_bytes_are_the_words_in_memory() {
    let nodes = vec![GpuNode { position: 0x0102_0304_0506_0708, data: 9 }];
    let mut expected: Vec<u8> = 0x0102_0304_0506_0708u64.to_ne_bytes().to_vec();
    expected.extend_from_slice(&9u64.to_ne_bytes());
    assert_eq!(node_bytes(&nodes), expected);
}

#[test]
fn terrain_fills_a_section_up_to_the_surface() {
    let mut section = Section::new(SectionCoord::new(0, 0, 0));
    let columns = vec![TerrainColumn { surface_height: 10, biome: BiomeType::Plains }; 1024];
    let limits = TerrainLimits { min_y: -64, max_y: 320, sea_level: 20 };
    fill_section_terrain(&mut section, &SectionCoord::new(0, 0, 0), &columns, limits);
    assert_ne!(section.get_voxel(0, 5, 0), AIR as u16 as _);
    assert_eq!(section.get_voxel(3, 15, 4), WATER as u16 as _);
    assert_eq!(section.get_voxel(3, 25, 4), AIR as u16 as _);
}

#[test]
fn a_node_shows_the_chunks_that_it_covers() {
    let pos = encode_position(1, 2, 0, -1);
    let region = node_region(pos);
    assert!(is_chunk_visible(&at(4, 0, -2), &vec![region]));
    assert!(is_chunk_visible(&at(5, 1, -1), &vec![region]));
    assert!(!is_chunk_visible(&at(6, 0, -2), &vec![region]));
    let nodes = vec![GpuNode { position: pos, data: 1 }];
    assert_eq!(compute_visible_regions(&nodes, &vec![false]).len(), 0);
    assert_eq!(compute_visible_regions(&nodes, &vec![true]), vec![region]);
    assert_eq!(
        chunk_visibility(&vec![at(4, 0, -2), at(9, 9, 9)], &vec![region]),
        Some(vec![true, false])
    );
    let (x, _, _, _) = node_center(pos);
    assert!(x > 0);
}

#[test]
fn large_nodes_show_their_chunks() {
    let pos = encode_position(15, 3, -1, 0);
    let region = node_region(pos);
    assert_eq!((region.x_start, region.x_end), (98304, 131072));
    assert_eq!((region.y_start, region.y_end), (-32768, 0));
    assert_eq!((region.z_start, region.z_end), (0, 32768));
    assert_eq!(
        node_center(pos),
        (98304 * 32 + 524288, -524288, 524288, 524288)
    );
    let huge = encode_position(15, 500_000, 0, 0);
    assert_eq!(node_center(huge).0, 500_000 * 32768 * 32 + 524288);
    let nodes = vec![GpuNode { position: huge, data: 1 }, GpuNode { position: pos, data: 1 }];
    assert_eq!(compute_visible_regions(&nodes, &vec![false, true]), vec![region]);
}

#[test]
fn visibility_is_looked_at_now_and_then() {
    let mut state = SvoVisibilityState::default();
    let mut ticks = 0;
    for _ in 0..100 {
        if state.tick() {
            ticks += 1;
        }
    }
    assert_eq!(ticks, 50);
}

#[test]
fn an_empty_world_has_no_content() {
    let loaded = LoadedChunks::default();
    let source = ChunkVoxelSource { loaded: &loaded };
    assert!(!source.region_has_content(4, 0, 0, 0));
}
