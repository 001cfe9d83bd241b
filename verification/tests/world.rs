use std::sync::Arc;
use voxel_engine::chunk::ChunkData;
use voxel_engine::chunk_dirty::DirtyStep;
use voxel_engine::chunk_manager::{
    collect_neighbors, meshes_to_remove, plan_solid, plan_water, ChunkManager, PendingDeletion,
    SolidUpload, WaterUpload, CHUNKS_PER_FRAME, EMPTY_MESH,
};
use voxel_engine::chunk_wire_frame::in_3x3x3_range;
use voxel_engine::coord_map::CoordMap;
use voxel_engine::load_queue::{get_offset_table, rebuild_load_queue};
use voxel_engine::lod::LodLevel;
use voxel_engine::types::{BlockPos, ChunkCoord, STONE};

fn at(cx: i32, cy: i32, cz: i32) -> ChunkCoord {
    ChunkCoord { cx, cy, cz }
}

#[test]
fn a_map_of_coordinates() {
    let mut map: CoordMap<u32> = CoordMap::new();
    map.insert(at(-1, 2, i32::MIN), 7);
    map.insert(at(1, 2, 3), 8);
    map.insert(at(1, 2, 3), 9);
    assert_eq!(map.len(), 2);
    assert_eq!(map.get(&at(1, 2, 3)), Some(&9));
    assert_eq!(map.get(&at(3, 2, 1)), None);
    let coords = map.coords();
    assert!(coords.contains(&at(-1, 2, i32::MIN)));
    assert_eq!(coords.len(), 2);
    assert_eq!(map.remove(&at(1, 2, 3)), Some(9));
    assert!(!map.contains_key(&at(1, 2, 3)));
    assert!(!map.is_empty());
}

#[test]
fn the_nearest_columns_come_first() {
    let offsets = get_offset_table();
    let d: Vec<i32> = offsets.iter().map(|o| o.0 * o.0 + o.1 * o.1).collect();
    assert_eq!(d[0], 0);
    for i in 1..d.len() {
        assert!(d[i - 1] <= d[i]);
        assert!(d[i] <= 256);
    }
    let entries: CoordMap<()> = CoordMap::new();
    let mut state = None;
    let mut rounds = 0;
    let queue = loop {
        rounds += 1;
        if let Some(q) = rebuild_load_queue(at(0, 0, 0), &entries, &mut state, 500, &offsets) {
            break q;
        }
    };
    assert!(rounds > 1);
    assert!(state.is_none());
    assert_eq!((queue[0].cx, queue[0].cz), (0, 0));
}

#[test]
fn every_layer_is_queued_whatever_the_step_limit() {
    let offsets = get_offset_table();
    let mut entries: CoordMap<()> = CoordMap::new();
    entries.insert(at(10, -7, 3), ());
    let center = at(10, -5, 3);
    for limit in [1, 7, 2000, 11 * (offsets.len() - 1) + 1, 100_000] {
        let mut state = None;
        let mut rounds = 0;
        let queue = loop {
            rounds += 1;
            if let Some(q) = rebuild_load_queue(center, &entries, &mut state, limit, &offsets) {
                break q;
            }
        };
        let total = 11 * offsets.len();
        assert_eq!(rounds, (total + limit - 1) / limit);
        assert_eq!(queue.len(), total - 1);
        let mut seen: CoordMap<()> = CoordMap::new();
        let mut last = 0;
        for c in &queue {
            let (dx, dz) = (c.cx - center.cx, c.cz - center.cz);
            let d = dx * dx + dz * dz;
            assert!(last <= d && d <= 256);
            assert!((c.cy - center.cy).abs() <= 5);
            assert!(!entries.contains_key(c));
            last = d;
            seen.insert(*c, ());
        }
        assert_eq!(seen.len(), queue.len());
    }
}

#[test]
fn a_scan_starts_anew_when_the_centre_moves() {
    let offsets = get_offset_table();
    let entries: CoordMap<()> = CoordMap::new();
    let mut state = None;
    assert!(rebuild_load_queue(at(0, 0, 0), &entries, &mut state, 15, &offsets).is_none());
    let stopped = state.as_ref().unwrap();
    assert_eq!((stopped.offset_idx, stopped.cy), (1, -1));
    assert_eq!(stopped.missing.len(), 15);
    assert!(rebuild_load_queue(at(9, 0, 0), &entries, &mut state, 3, &offsets).is_none());
    let stopped = state.as_ref().unwrap();
    assert_eq!(stopped.missing, vec![at(9, -5, 0), at(9, -4, 0), at(9, -3, 0)]);
}

#[test]
fn chunks_are_loaded_round_the_player() {
    let offsets = get_offset_table();
    let mut manager = ChunkManager::new();
    manager.begin_loading(at(0, 0, 0), &offsets);
    assert_eq!(manager.loaded.last_player_chunk, Some(at(0, 0, 0)));
    let mut sent = Vec::new();
    for _ in 0..200 {
        manager.begin_frame();
        let plan = manager.manage_chunk_load_state(at(0, 0, 0), &offsets);
        sent.extend(plan.prepare);
        if sent.len() > 40 {
            break;
        }
    }
    assert!(!sent.is_empty());
    assert!(manager.tasks.is_prepare_pending(&sent[0]));
    let stone = ChunkData::filled(STONE);
    let (level, _) = manager.plan_spawn(sent[0], &stone).unwrap();
    manager.finish_spawn(sent[0], 77, Arc::new(stone), level, 6);
    assert!(manager.plan_spawn(sent[0], &ChunkData::filled(STONE)).is_none());
    assert!(manager.plan_spawn(sent[1], &ChunkData::new()).is_none());
}

#[test]
fn far_chunks_are_cleared_away() {
    let offsets = get_offset_table();
    let mut manager = ChunkManager::new();
    manager.finish_spawn(
        at(0, 0, 0),
        5,
        Arc::new(ChunkData::filled(STONE)),
        LodLevel::Lod0,
        6,
    );
    manager.finish_upload(at(0, 0, 0), 9, None, Some(11), 12, 4);
    assert_eq!(manager.triangles, 16);
    for _ in 0..50 {
        manager.manage_chunk_load_state(at(100, 0, 0), &offsets);
    }
    assert!(!manager.loaded.entries.contains_key(&at(0, 0, 0)));
    assert!(manager.has_pending_deletions());
    let gone = manager.take_deletions();
    assert_eq!(gone, vec![PendingDeletion { entity: 5, mesh: 9, water_mesh: Some(11) }]);
    assert_eq!(meshes_to_remove(&gone[0]), vec![9, 11]);
    assert!(!manager.has_pending_deletions());
}

#[test]
fn near_chunks_stay() {
    let offsets = get_offset_table();
    let mut manager = ChunkManager::new();
    manager.finish_spawn(
        at(3, 0, 0),
        5,
        Arc::new(ChunkData::filled(STONE)),
        LodLevel::Lod0,
        6,
    );
    for _ in 0..50 {
        manager.manage_chunk_load_state(at(0, 0, 0), &offsets);
    }
    assert!(manager.loaded.entries.contains_key(&at(3, 0, 0)));
    assert!(!manager.has_pending_deletions());
    let missing = 11 * offsets.len() - 1;
    let scan_frames = (11 * offsets.len() + 1999) / 2000;
    let taken = (51 - scan_frames) * CHUNKS_PER_FRAME;
    assert!(manager.has_load_queue_items());
    assert_eq!(manager.loaded.load_queue.len(), missing - taken);
}

#[test]
fn far_chunks_go_once_the_scan_ends() {
    let offsets = get_offset_table();
    let stone = ChunkData::filled(STONE);
    let mut manager = ChunkManager::new();
    for x in [0, 30, 60] {
        manager.finish_spawn(
            at(x, 0, 0),
            x as u64,
            Arc::new(stone.duplicate()),
            LodLevel::Lod0,
            6,
        );
    }
    manager.update_load_state(at(0, 0, 0), &offsets);
    assert!(manager.loaded.load_queue_build_state.is_some());
    assert!(manager.loaded.needs_unload_check);
    let mut frames = 1;
    while manager.loaded.load_queue_build_state.is_some() {
        assert_eq!(manager.loaded.entries.len(), 3);
        manager.update_load_state(at(31, 0, 0), &offsets);
        frames += 1;
    }
    assert_eq!(frames, 1 + (11 * offsets.len() + 1999) / 2000);
    assert!(!manager.loaded.needs_unload_check);
    assert_eq!(manager.loaded.entries.coords(), vec![at(30, 0, 0)]);
    assert_eq!(manager.loaded.last_player_chunk, Some(at(0, 0, 0)));
}

#[test]
fn chunks_are_taken_after_prepared_ones_are_entered() {
    let offsets = get_offset_table();
    let stone = ChunkData::filled(STONE);
    let mut manager = ChunkManager::new();
    while manager.loaded.load_queue.is_empty() {
        manager.update_load_state(at(0, 0, 0), &offsets);
    }
    assert_eq!(manager.loaded.load_queue[0], at(0, -5, 0));
    let player = at(0, -5, 13);
    let (near, _) = manager.plan_spawn(at(0, -5, 0), &stone).unwrap();
    let (far, neighbors) = manager.plan_spawn_for(player, at(0, -5, 0), &stone).unwrap();
    assert_eq!(near, LodLevel::from_chunk_distance_sq(25));
    assert_eq!(far, LodLevel::from_chunk_distance_sq(169));
    assert_ne!(near, far);
    assert!(neighbors.neighbor_data.iter().all(|n| n.is_none()));
    assert!(manager.plan_spawn_for(player, at(0, -5, 0), &ChunkData::new()).is_none());
    manager.finish_spawn(at(0, -5, 0), 1, Arc::new(stone.duplicate()), far, 6);
    assert!(manager.plan_spawn_for(player, at(0, -5, 0), &stone).is_none());
    let sent = manager.submit_prepare_tasks();
    assert_eq!(sent.len(), CHUNKS_PER_FRAME - 1);
    assert_eq!(sent[0], at(0, -4, 0));
    assert!(manager.tasks.is_prepare_pending(&at(0, -4, 0)));
    assert!(!manager.tasks.is_prepare_pending(&at(0, -5, 0)));
}

#[test]
fn triangles_of_loaded_chunks_are_counted() {
    let offsets = get_offset_table();
    let stone = ChunkData::filled(STONE);
    let mut manager = ChunkManager::new();
    assert_eq!(manager.triangles, 0);
    for x in [0, 1, 100] {
        manager.finish_spawn(
            at(x, 0, 0),
            x as u64,
            Arc::new(stone.duplicate()),
            LodLevel::Lod0,
            6,
        );
    }
    manager.finish_upload(at(0, 0, 0), 9, None, None, 12, 0);
    manager.finish_upload(at(1, 0, 0), 10, Some(3), Some(11), 20, 7);
    manager.finish_upload(at(100, 0, 0), 12, Some(4), Some(13), 5, 6);
    assert_eq!(manager.triangles, 12 + 27 + 11);
    manager.finish_upload(at(1, 0, 0), 10, None, None, 8, 0);
    assert_eq!(manager.triangles, 12 + 8 + 11);
    manager.finish_upload(at(7, 7, 7), 10, None, None, 8, 8);
    assert_eq!(manager.triangles, 12 + 8 + 11);
    for _ in 0..50 {
        manager.manage_chunk_load_state(at(0, 0, 0), &offsets);
    }
    assert_eq!(manager.loaded.entries.len(), 2);
    assert_eq!(manager.triangles, 12 + 8);
    manager.destroy_block(BlockPos { x: 3, y: 3, z: 3 });
    assert_eq!(manager.triangles, 12 + 8);
    manager.finish_upload(at(0, 0, 0), 9, None, None, u32::MAX, 2);
    assert_eq!(manager.triangles, 9);
}

#[test]
fn uploads_are_planned() {
    assert_eq!(plan_solid(EMPTY_MESH, true, false, 12), SolidUpload::Create);
    assert_eq!(plan_solid(7, true, false, 12), SolidUpload::InPlace);
    assert_eq!(plan_solid(7, true, false, 0), SolidUpload::Clear);
    assert_eq!(plan_solid(EMPTY_MESH, true, false, 0), SolidUpload::StayEmpty);
    assert_eq!(plan_water(false, None, false, false, None), WaterUpload::Nothing);
    assert_eq!(plan_water(true, None, false, false, None), WaterUpload::Create);
    assert_eq!(plan_water(true, Some(3), true, false, Some(4)), WaterUpload::InPlace);
    assert_eq!(plan_water(false, Some(3), true, false, Some(4)), WaterUpload::Remove);
}

#[test]
fn a_dirty_chunk_is_made_anew() {
    let mut manager = ChunkManager::new();
    let c = at(0, 0, 0);
    let stone = ChunkData::filled(STONE);
    manager.finish_spawn(c, 5, Arc::new(stone.duplicate()), LodLevel::Lod0, 6);
    manager.finish_spawn(at(1, 0, 0), 6, Arc::new(stone.duplicate()), LodLevel::Lod0, 6);
    manager.tasks.collect_results(&vec![c]);
    match manager.rebuild_dirty(c, &stone, 1) {
        DirtyStep::Generate(level, neighbors) => {
            assert_eq!(level, LodLevel::Lod0);
            assert!(neighbors.neighbor_data[0].is_some());
            assert!(neighbors.neighbor_data[1].is_none());
        }
        _ => panic!("nothing is made"),
    }
    assert!(matches!(manager.rebuild_dirty(c, &stone, 1), DirtyStep::Wait));
    assert!(matches!(manager.rebuild_dirty(c, &ChunkData::new(), 1), DirtyStep::Clear));
    assert_eq!(manager.loaded.entries.get(&c).unwrap().solid_mesh, 1);
    assert!(collect_neighbors(at(5, 5, 5), &manager.loaded).neighbor_data[0].is_none());
}

#[test]
fn edges_are_shown_round_the_player() {
    let p = at(i32::MAX, 0, -7);
    assert!(in_3x3x3_range(p, p));
    assert!(in_3x3x3_range(at(i32::MAX - 1, 1, -8), p));
    assert!(!in_3x3x3_range(at(i32::MIN, 0, -7), p));
    assert!(!in_3x3x3_range(at(i32::MAX, 2, -7), p));
}
