use std::sync::Arc;
use voxel_engine::async_mesh::{
    default_worker_count, generate_chunk_mesh_separated, generate_meshes, MeshTextures,
    PendingState, PrepareResult,
};
use voxel_engine::chunk::{ChunkData, ChunkNeighbors};
use voxel_engine::face::{box_face, face_quad, face_quad_lod, faces, neighbor_offset, Face};
use voxel_engine::greedy_mesh::{generate_greedy_mesh, merge_layer};
use voxel_engine::lod::{
    chunk_distance_sq, generate_lod_mesh_separated, LodLevel, LodManager,
};
use voxel_engine::mesh::{face_name_to_index, SubMeshData, UvLookupTable};
use voxel_engine::solid_mesh::generate_solid_mesh;
use voxel_engine::types::{ChunkCoord, DIRT, STONE, WATER};

fn table() -> UvLookupTable<u32> {
    let mut t = UvLookupTable::new((0, 1, 0, 1));
    t.set_uv(STONE, 2, (10, 11, 12, 13));
    t
}

fn textures() -> MeshTextures<u32> {
    MeshTextures { faces: table(), merged: table() }
}

fn one_block(id: u8) -> ChunkData {
    let mut chunk = ChunkData::filled(STONE);
    chunk.set(0, 0, 0, 0);
    for y in 0..32 {
        for z in 0..32 {
            for x in 0..32 {
                chunk.set(x, y, z, if (x, y, z) == (5, 6, 7) { id } else { 0 });
            }
        }
    }
    chunk
}

fn mixed_chunk() -> ChunkData {
    let mut chunk = ChunkData::filled(STONE);
    chunk.set(0, 0, 0, DIRT);
    chunk
}

#[test]
fn faces_have_names_and_normals() {
    assert_eq!(Face::Top.to_face_name(), "top");
    assert_eq!(Face::Bottom.to_face_name(), "bottom");
    assert_eq!(Face::Left.to_face_name(), "side");
    assert_eq!(Face::Top.face_index(), 0);
    assert_eq!(Face::Bottom.face_index(), 1);
    assert_eq!(Face::Back.face_index(), 2);
    for i in 0..6 {
        let (face, normal, _) = faces(i);
        assert_eq!(face.normal(), normal);
        let (dx, dy, dz) = neighbor_offset(i);
        assert_eq!([dx, dy, dz], normal);
    }
    assert_eq!(face_name_to_index("top"), 0);
    assert_eq!(face_name_to_index("bottom"), 1);
    assert_eq!(face_name_to_index("side"), 2);
}

#[test]
fn a_quad_is_a_face_of_a_cube() {
    let (positions, _, normal) = face_quad(1, 2, 3, Face::Top, (0u8, 1, 2, 3));
    assert_eq!(normal, [0, 1, 0]);
    for p in positions {
        assert_eq!(p[1], 3);
        assert!(p[0] == 1 || p[0] == 2);
        assert!(p[2] == 3 || p[2] == 4);
    }
    let (far, _, _) = face_quad_lod(1, 2, 3, Face::Right, (0u8, 1, 2, 3), 4);
    for p in far {
        assert_eq!(p[0], 5);
        assert!(p[1] == 2 || p[1] == 6);
    }
    assert_eq!(box_face(Face::Left, 0, 0, 0, 1, 1, 1).len(), 4);
}

#[test]
fn one_block_has_six_faces() {
    let mesh = generate_solid_mesh(&one_block(STONE), &table(), &ChunkNeighbors::empty(), None);
    assert_eq!(mesh.vertices.len(), 24);
    assert_eq!(mesh.indices.len(), 36);
    assert_eq!(mesh.triangle_count, 12);
    for v in &mesh.vertices {
        assert!(v.position[0] == 5 || v.position[0] == 6);
        assert!(v.position[1] == 6 || v.position[1] == 7);
        assert!(v.position[2] == 7 || v.position[2] == 8);
    }
    let (positions, uvs, normals, indices) = mesh.split_for_bevy();
    assert_eq!(positions.len(), 24);
    assert_eq!(uvs.len(), 24);
    assert_eq!(normals.len(), 24);
    assert_eq!(indices.len(), 36);
}

#[test]
fn a_full_chunk_shows_its_surface() {
    let chunk = ChunkData::filled(STONE);
    let greedy = generate_greedy_mesh(&chunk, &ChunkNeighbors::empty(), &table());
    assert_eq!(greedy.positions.len(), 24);
    assert_eq!(greedy.indices.len(), 36);
    let hidden = generate_solid_mesh(&chunk, &table(), &ChunkNeighbors::empty(), None);
    assert!(hidden.is_empty());
    let plain = generate_solid_mesh(&mixed_chunk(), &table(), &ChunkNeighbors::empty(), None);
    assert_eq!(plain.vertices.len(), 6 * 32 * 32 * 4);
    let mut neighbors = ChunkNeighbors::empty();
    neighbors.neighbor_data[2] = Some(Arc::new(ChunkData::filled(STONE)));
    let covered = generate_greedy_mesh(&chunk, &neighbors, &table());
    assert_eq!(covered.positions.len(), 20);
}

#[test]
fn equal_cells_are_merged() {
    let mut mask = vec![None; 1024];
    for v in 2..5 {
        for u in 3..9 {
            mask[v * 32 + u] = Some(STONE);
        }
    }
    mask[0] = Some(DIRT);
    let quads = merge_layer(&mask);
    assert_eq!(quads.len(), 2);
    assert_eq!((quads[0].u, quads[0].v, quads[0].width, quads[0].height), (0, 0, 1, 1));
    assert_eq!(quads[0].block_id, DIRT);
    assert_eq!((quads[1].u, quads[1].v), (3, 2));
    assert_eq!(quads[1].width * quads[1].height, 18);
}

#[test]
fn water_has_a_mesh_of_its_own() {
    let (solid, water) = generate_chunk_mesh_separated(
        &one_block(WATER),
        &textures(),
        &ChunkNeighbors::empty(),
        None,
    );
    assert!(solid.is_empty());
    assert_eq!(water.unwrap().triangle_count, 12);
    let (solid, water) = generate_chunk_mesh_separated(
        &one_block(STONE),
        &textures(),
        &ChunkNeighbors::empty(),
        None,
    );
    assert!(!solid.is_empty());
    assert!(water.is_none());
}

#[test]
fn meshes_follow_the_level_of_detail() {
    let coord = ChunkCoord { cx: 1, cy: 2, cz: 3 };
    let chunk = mixed_chunk();
    let none = ChunkNeighbors::empty();
    let near = generate_meshes(coord, &chunk, &textures(), &none, Some(LodLevel::Lod0), None);
    let far = generate_meshes(coord, &chunk, &textures(), &none, Some(LodLevel::Lod3), None);
    assert_eq!(near.coord, coord);
    assert!(near.solid.triangle_count > 0);
    assert_eq!(far.solid.triangle_count, 6 * 4 * 4 * 2);
    let (solid, water) = generate_lod_mesh_separated(&chunk, &table(), &none, LodLevel::Lod2, None);
    assert_eq!(solid.triangle_count, 6 * 8 * 8 * 2);
    assert!(water.is_none());
}

#[test]
fn levels_get_coarser() {
    assert_eq!(LodLevel::Lod0.step(), 1);
    assert_eq!(LodLevel::Lod3.step(), 8);
    for level in [LodLevel::Lod0, LodLevel::Lod1, LodLevel::Lod2, LodLevel::Lod3] {
        assert_eq!(level.step() * level.sampling_size(), 32);
    }
    assert_eq!(LodLevel::from_chunk_distance_sq(0), LodLevel::Lod0);
    let mut last = 0;
    for d in 0..2000 {
        let rank = LodLevel::from_chunk_distance_sq(d).rank();
        assert!(rank >= last);
        last = rank;
    }
    let a = ChunkCoord { cx: 0, cy: 0, cz: 0 };
    let b = ChunkCoord { cx: 3, cy: 0, cz: -4 };
    assert_eq!(chunk_distance_sq(a, b), 25);
}

#[test]
fn a_level_is_kept_until_it_changes() {
    let mut lods = LodManager::new();
    let c = ChunkCoord { cx: 30, cy: 0, cz: 0 };
    let home = ChunkCoord { cx: 0, cy: 0, cz: 0 };
    assert_eq!(lods.get_lod(&c), LodLevel::Lod0);
    let first = lods.update(home, &vec![c]);
    assert_eq!(first.len(), 1);
    assert_eq!(lods.get_lod(&c), first[0].1);
    assert!(lods.update_incremental(home, &vec![c]).is_empty());
    lods.set_lod(c, LodLevel::Lod2);
    assert_eq!(lods.get_lod(&c), LodLevel::Lod2);
    lods.remove(&c);
    assert_eq!(lods.get_lod(&c), LodLevel::Lod0);
}

#[test]
fn a_task_is_sent_once() {
    let c = ChunkCoord { cx: 0, cy: 0, cz: 0 };
    let d = ChunkCoord { cx: 1, cy: 0, cz: 0 };
    let mut tasks = PendingState::new();
    assert!(tasks.submit_task(c));
    assert!(!tasks.submit_task(c));
    assert!(tasks.is_pending(&c));
    assert_eq!(tasks.pending_count(), 1);
    tasks.collect_results(&vec![c]);
    assert!(!tasks.is_pending(&c));
    assert!(tasks.submit_prepare_task(c));
    assert!(tasks.submit_prepare_task(d));
    tasks.cancel_task(c);
    assert_eq!(tasks.flush_cancel_queue(), vec![c]);
    let back = tasks.collect_prepare_results(vec![
        PrepareResult { coord: c, data: ChunkData::new() },
        PrepareResult { coord: d, data: ChunkData::new() },
    ]);
    assert_eq!(back.len(), 1);
    assert_eq!(back[0].coord, d);
    assert!(!tasks.is_prepare_pending(&d));
}

#[test]
fn workers_leave_a_processor_free() {
    assert!(default_worker_count(None) >= 1);
    assert!(default_worker_count(Some(1)) >= 1);
    assert!(default_worker_count(Some(8)) <= 8);
}

#[test]
fn an_empty_mesh() {
    let mesh: SubMeshData<u32> = SubMeshData::new();
    assert!(mesh.is_empty());
    assert_eq!(table().get_uv(STONE, 2), (10, 11, 12, 13));
    assert_eq!(table().get_uv(STONE, 0), (0, 1, 0, 1));
}
