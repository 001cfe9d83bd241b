use std::collections::HashMap;
use std::sync::Arc;
use voxel_engine::block_definition::{
    is_block_solid_from_table, BlockDefinition, BlockPropertiesTable, BlockTextures,
};
use voxel_engine::block_interaction::{boundary_neighbor_coords, Placement};
use voxel_engine::character_controller::{get_block_at, is_solid, solid_blocks_in};
use voxel_engine::chunk::{
    block_across, is_air_chunk, is_block_solid, should_cull_face, ChunkData, ChunkNeighbors,
    WorldType,
};
use voxel_engine::chunk_manager::ChunkManager;
use voxel_engine::lod::LodLevel;
use voxel_engine::palette::PalettedChunkData;
use voxel_engine::raycast::{cast_ray, Axis, RayChunk, RayPath};
use voxel_engine::types::{
    div_chunk, rem_chunk, split_block_pos, BlockPos, ChunkCoord, AIR, CHUNK_VOLUME, DIRT, GRASS,
    STONE, WATER,
};

fn definition(id: u8, solid: bool, transparent: bool) -> BlockDefinition {
    BlockDefinition {
        id,
        name: "block".to_string(),
        solid,
        transparent,
        textures: BlockTextures {
            top: "top".to_string(),
            bottom: "bottom".to_string(),
            side: "side".to_string(),
        },
    }
}

fn spawn(manager: &mut ChunkManager, coord: ChunkCoord, entity: u64, data: ChunkData) {
    manager.finish_spawn(coord, entity, Arc::new(data), LodLevel::Lod0, 0);
}

#[test]
fn chunks_round_down() {
    assert_eq!(div_chunk(-1), -1);
    assert_eq!(div_chunk(31), 0);
    assert_eq!(div_chunk(32), 1);
    assert_eq!(rem_chunk(-1), 31);
    assert_eq!(rem_chunk(33), 1);
    let (chunk, local) = split_block_pos(BlockPos { x: -33, y: 0, z: 70 });
    assert_eq!(chunk, ChunkCoord { cx: -2, cy: 0, cz: 2 });
    assert_eq!(local, (31, 0, 6));
}

#[test]
fn a_palette_grows_with_its_blocks() {
    let mut data = PalettedChunkData::new();
    assert!(data.is_empty());
    for id in 0..200u8 {
        data.set(id as usize % 32, id as usize / 32, 5, id);
    }
    for id in 0..200u8 {
        assert_eq!(data.get(id as usize % 32, id as usize / 32, 5), id);
    }
    assert_eq!(data.get(31, 31, 31), AIR);
    assert!(!data.is_empty());
    assert!(!data.is_uniform());
    assert!(data.palette_contains(199));
    assert!(!data.palette_contains(200));
}

#[test]
fn blocks_are_packed_and_unpacked() {
    let blocks: Vec<u8> = (0..CHUNK_VOLUME).map(|i| (i * 7 % 11) as u8).collect();
    let data = PalettedChunkData::from_blocks(&blocks);
    assert_eq!(data.to_blocks(), blocks);
    assert_eq!(data.palette_len(), 11);
    assert_eq!(data.duplicate().to_blocks(), blocks);
}

#[test]
fn a_palette_of_one_block_is_uniform() {
    let blocks = vec![STONE; CHUNK_VOLUME];
    let stone = PalettedChunkData::from_blocks(&blocks);
    assert_eq!(stone.get(3, 4, 5), STONE);
    assert_eq!(stone.is_uniform(), stone.palette_len() == 1);
    assert_eq!(stone.uniform_block().is_some(), stone.is_uniform());
    let mut data = PalettedChunkData::new();
    assert!(data.is_uniform());
    assert_eq!(data.uniform_block(), Some(AIR));
    let i = data.add_or_get_palette_index(STONE);
    data.fill_all(i);
    assert_eq!(data.get(3, 4, 5), STONE);
    assert!(!data.is_uniform());
    assert_eq!(data.uniform_block(), None);
}

#[test]
fn a_block_that_was_set_is_read() {
    let mut chunk = ChunkData::filled(STONE);
    chunk.set(1, 2, 3, DIRT);
    assert_eq!(chunk.get(1, 2, 3), DIRT);
    assert_eq!(chunk.get(1, 2, 4), STONE);
    assert!(chunk.contains_block(DIRT));
    assert!(chunk.contains_block(STONE));
    assert!(!chunk.contains_block(WATER));
    assert!(chunk.memory_usage() > 0);
    let copy = chunk.duplicate();
    chunk.set(1, 2, 3, AIR);
    assert_eq!(copy.get(1, 2, 3), DIRT);
}

#[test]
fn one_block_in_an_empty_chunk() {
    let mut chunk = ChunkData::new();
    chunk.set(0, 0, 0, DIRT);
    assert_eq!(chunk.get(0, 0, 0), DIRT);
    assert_eq!(chunk.get(1, 0, 0), AIR);
    assert_eq!(chunk.get(31, 31, 31), AIR);
    chunk.set(32, 0, 0, STONE);
    assert!(!chunk.contains_block(STONE));
    let mut air = ChunkData::new();
    air.set(3, 4, 5, AIR);
    assert!(is_air_chunk(&air));
}

#[test]
fn air_chunks() {
    assert!(is_air_chunk(&ChunkData::new()));
    assert!(is_air_chunk(&ChunkData::filled(AIR)));
    assert!(!is_air_chunk(&ChunkData::filled(STONE)));
    assert_eq!(ChunkData::default().get(0, 0, 0), AIR);
    assert!(matches!(WorldType::default(), WorldType::Noise));
}

#[test]
fn properties_follow_the_definitions() {
    let mut definitions = HashMap::new();
    definitions.insert(7, definition(7, false, true));
    let table = BlockPropertiesTable::from_definitions(&definitions);
    assert!(!table.is_solid(7));
    assert!(table.is_transparent(7));
    assert!(table.is_solid(8));
    assert!(!table.is_transparent(8));
    assert!(!table.is_solid(AIR));
    assert!(!is_block_solid_from_table(Some(&table), 7));
    assert!(!is_block_solid_from_table(None, WATER));
    assert!(is_block_solid_from_table(None, STONE));
    assert!(is_block_solid(None, GRASS));
}

#[test]
fn faces_between_blocks_are_culled() {
    assert!(should_cull_face(None, STONE, STONE));
    assert!(!should_cull_face(None, STONE, AIR));
    assert!(should_cull_face(None, WATER, WATER));
    assert!(!should_cull_face(None, STONE, WATER));
}

#[test]
fn neighbours_are_looked_at_across_the_border() {
    let chunk = ChunkData::filled(STONE);
    let mut neighbors = ChunkNeighbors::empty();
    assert_eq!(block_across(&chunk, &neighbors, 32, 0, 0, 0), AIR);
    neighbors.neighbor_data[0] = Some(Arc::new(ChunkData::filled(DIRT)));
    assert_eq!(block_across(&chunk, &neighbors, 32, 0, 0, 0), DIRT);
    assert_eq!(block_across(&chunk, &neighbors, 5, 0, 0, 0), STONE);
    assert!(!chunk.is_face_visible(31, 0, 0, &[1, 0, 0], 0, &neighbors, None));
    assert!(chunk.is_face_visible(0, 0, 0, &[-1, 0, 0], 1, &neighbors, None));
}

#[test]
fn blocks_of_the_world_are_found() {
    let mut manager = ChunkManager::new();
    spawn(&mut manager, ChunkCoord { cx: -1, cy: 0, cz: 0 }, 5, ChunkData::filled(STONE));
    assert_eq!(get_block_at(&manager.loaded, -1, 3, 3), STONE);
    assert_eq!(get_block_at(&manager.loaded, 0, 3, 3), AIR);
    assert!(is_solid(&manager.loaded, None, -32, 0, 0));
    assert!(!is_solid(&manager.loaded, None, -33, 0, 0));
    let found = solid_blocks_in(
        &manager.loaded,
        None,
        BlockPos { x: -2, y: 0, z: 0 },
        BlockPos { x: 1, y: 0, z: 0 },
    );
    assert_eq!(found, vec![BlockPos { x: -2, y: 0, z: 0 }, BlockPos { x: -1, y: 0, z: 0 }]);
}

#[test]
fn edits_are_read_back() {
    let mut manager = ChunkManager::new();
    let home = ChunkCoord { cx: 0, cy: 0, cz: 0 };
    spawn(&mut manager, home, 5, ChunkData::filled(STONE));
    let (edit, _) = manager.destroy_block(BlockPos { x: 4, y: 4, z: 4 });
    let edit = edit.unwrap();
    assert_eq!(edit.entity, 5);
    assert_eq!(edit.data.get(4, 4, 4), AIR);
    assert_eq!(get_block_at(&manager.loaded, 4, 4, 4), AIR);
    assert_eq!(get_block_at(&manager.loaded, 4, 4, 5), STONE);
    let (placed, _) = manager.place_block(BlockPos { x: 4, y: 3, z: 4 }, (0, 1, 0));
    assert!(matches!(placed, Placement::Placed(_)));
    assert_ne!(get_block_at(&manager.loaded, 4, 4, 4), AIR);
    let (again, _) = manager.place_block(BlockPos { x: 4, y: 3, z: 4 }, (0, 1, 0));
    assert!(matches!(again, Placement::Occupied));
    let (nothing, _) = manager.destroy_block(BlockPos { x: 100, y: 4, z: 4 });
    assert!(nothing.is_none());
}

#[test]
fn a_block_placed_in_an_empty_chunk_stands_alone() {
    let mut manager = ChunkManager::new();
    spawn(&mut manager, ChunkCoord { cx: 0, cy: 0, cz: 0 }, 5, ChunkData::new());
    let (placed, _) = manager.place_block(BlockPos { x: 4, y: 3, z: 4 }, (0, 1, 0));
    assert!(matches!(placed, Placement::Placed(_)));
    assert_ne!(get_block_at(&manager.loaded, 4, 4, 4), AIR);
    assert_eq!(get_block_at(&manager.loaded, 4, 3, 4), AIR);
    assert_eq!(get_block_at(&manager.loaded, 5, 4, 4), AIR);
}

#[test]
fn a_block_beyond_the_world_makes_a_chunk() {
    let mut manager = ChunkManager::new();
    let home = ChunkCoord { cx: 0, cy: 0, cz: 0 };
    spawn(&mut manager, home, 5, ChunkData::filled(STONE));
    let (placed, _) = manager.place_block(BlockPos { x: 4, y: 31, z: 4 }, (0, 1, 0));
    match placed {
        Placement::NewChunk(coord, data) => {
            assert_eq!(coord, ChunkCoord { cx: 0, cy: 1, cz: 0 });
            assert_ne!(data.get(4, 0, 4), AIR);
            manager.register_chunk(coord, 9, Arc::new(data));
        }
        _ => panic!("no new chunk"),
    }
    assert_ne!(get_block_at(&manager.loaded, 4, 32, 4), AIR);
}

#[test]
fn blocks_at_the_border_touch_their_neighbours() {
    let c = ChunkCoord { cx: 0, cy: 0, cz: 0 };
    assert!(boundary_neighbor_coords(c, (5, 5, 5)).is_empty());
    assert_eq!(
        boundary_neighbor_coords(c, (0, 5, 5)),
        vec![ChunkCoord { cx: -1, cy: 0, cz: 0 }]
    );
    assert_eq!(boundary_neighbor_coords(c, (31, 0, 31)).len(), 3);
}

#[test]
fn a_ray_stops_at_the_first_block() {
    let chunks = vec![RayChunk {
        data: Arc::new(ChunkData::filled(STONE)),
        origin: BlockPos { x: 0, y: 0, z: 0 },
    }];
    let path = RayPath {
        start: BlockPos { x: -3, y: 1, z: 1 },
        forward_x: true,
        forward_y: true,
        forward_z: true,
        axes: vec![Axis::X, Axis::Y, Axis::X, Axis::X, Axis::X],
    };
    let hit = cast_ray(&path, &chunks).unwrap();
    assert_eq!(hit.block_pos, BlockPos { x: 0, y: 2, z: 1 });
    assert_eq!(hit.normal, (-1, 0, 0));
    let short = RayPath { axes: vec![Axis::Y], ..path };
    assert!(cast_ray(&short, &chunks).is_none());
}

#[test]
fn blocks_of_neighbours_are_read() {
    let mut east = ChunkData::filled(STONE);
    east.set(0, 3, 4, WATER);
    let mut neighbors = ChunkNeighbors::empty();
    neighbors.neighbor_data[0] = Some(Arc::new(east));
    assert_eq!(neighbors.get_neighbor_block(0, 0, 3, 4), WATER);
    assert_eq!(neighbors.get_neighbor_block(0, 31, 3, 4), STONE);
    assert_eq!(neighbors.get_neighbor_block(0, 32, 3, 4), AIR);
    assert_eq!(neighbors.get_neighbor_block(1, 0, 3, 4), AIR);
}
