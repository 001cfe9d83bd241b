use voxel_engine::atlas::{dirt_slot, grass_slot, stone_slot, AtlasSlot};
use voxel_engine::compact_vertex::{CompactMeshData, CompactVertex, NormalDirection, VertexParts};
use voxel_engine::face::Face;
use voxel_engine::types::ChunkCoord;
use voxel_engine::voxel_buffers::{
    encode_normal, BufferAllocator, ChunkBufferRegion, VoxelBuffers, MAX_CHUNKS,
};

#[test]
fn test_compact_vertex_encoding() {
    let vertex = CompactVertex::new(100, 200, 300, NormalDirection::Up, 128, 64, 42);

    assert_eq!(vertex.x(), 100);
    assert_eq!(vertex.y(), 200);
    assert_eq!(vertex.z(), 300);
    assert_eq!(vertex.normal_direction(), NormalDirection::Up);
    assert_eq!(vertex.model_id(), 42);
}

#[test]
fn test_normal_direction() {
    assert_eq!(NormalDirection::from_normal(1, 0, 0), NormalDirection::Right);
    assert_eq!(NormalDirection::from_normal(-1, 0, 0), NormalDirection::Left);
    assert_eq!(NormalDirection::from_normal(0, 1, 0), NormalDirection::Up);
    assert_eq!(NormalDirection::from_normal(0, -1, 0), NormalDirection::Down);
    assert_eq!(NormalDirection::from_normal(0, 0, 1), NormalDirection::Front);
    assert_eq!(NormalDirection::from_normal(0, 0, -1), NormalDirection::Back);
}

#[test]
fn test_compact_vertex_size() {
    assert_eq!(std::mem::size_of::<CompactVertex>(), 8);
}

#[test]
fn test_roundtrip() {
    let vertex = CompactVertex::new(100, 200, 300, NormalDirection::Up, 128, 64, 42);
    let pos = [
        vertex.x() as f32 / 32.0,
        vertex.y() as f32 / 32.0,
        vertex.z() as f32 / 32.0,
    ];

    assert!((pos[0] - 100.0 / 32.0).abs() < 0.01);
    assert!((pos[1] - 200.0 / 32.0).abs() < 0.01);
    assert!((pos[2] - 300.0 / 32.0).abs() < 0.01);
    assert_eq!(vertex.normal(), [0, 1, 0]);
    assert_eq!(vertex.u_byte(), 128);
    assert_eq!(vertex.v_byte(), 64);
}

#[test]
fn the_words_of_a_vertex() {
    let vertex = CompactVertex::new(1, 2, 3, NormalDirection::Left, 4, 5, 6);
    assert_eq!(vertex.data0, 1 + (2 << 10) + (3 << 20) + (1 << 30));
    assert_eq!(vertex.data1, 4 + (5 << 8) + (6 << 16));
}

#[test]
fn a_mesh_is_unpacked_as_it_was_packed() {
    let parts = vec![
        VertexParts { x: 0, y: 32, z: 1023, normal: NormalDirection::Down, u: 0, v: 255 },
        VertexParts { x: 5, y: 6, z: 7, normal: NormalDirection::Right, u: 9, v: 8 },
    ];
    let mesh = CompactMeshData::from_parts(&parts, &vec![0, 1, 0], 3);
    assert_eq!(mesh.triangle_count, 1);
    assert_eq!(mesh.indices, vec![0, 1, 0]);
    assert_eq!(mesh.to_parts(), parts);
    assert!(!mesh.is_empty());
    assert!(CompactMeshData::new().is_empty());
}

#[test]
fn directions_are_found_again() {
    for d in [
        NormalDirection::Right,
        NormalDirection::Left,
        NormalDirection::Up,
        NormalDirection::Down,
        NormalDirection::Front,
        NormalDirection::Back,
    ] {
        let n = d.to_normal();
        assert_eq!(NormalDirection::from_normal(n[0], n[1], n[2]), d);
    }
    assert_eq!(NormalDirection::from_normal(0, 0, 0), NormalDirection::Back);
    assert_eq!(NormalDirection::from_normal(3, 3, 1), NormalDirection::Up);
}

#[test]
fn textures_lie_in_their_slots() {
    assert_eq!(grass_slot(Face::Top), AtlasSlot { col: 0, row: 0 });
    assert_eq!(grass_slot(Face::Left), AtlasSlot { col: 1, row: 0 });
    assert_eq!(dirt_slot(Face::Bottom), AtlasSlot { col: 0, row: 1 });
    assert_eq!(stone_slot(Face::Top).pixel_rect(), (64, 96, 0, 32));
}

#[test]
fn the_first_free_region_with_room_is_cut() {
    let mut allocator = BufferAllocator::default();
    let a = allocator.allocate(10, 20);
    let b = allocator.allocate(4, 6);
    assert_eq!(b.vertex_offset, 10);
    assert_eq!(b.index_offset, 20);
    allocator.free(a);
    let c = allocator.allocate(3, 5);
    assert_eq!((c.vertex_offset, c.index_offset), (0, 0));
    assert_eq!(
        allocator.free_regions,
        vec![ChunkBufferRegion {
            vertex_offset: 3,
            vertex_count: 7,
            index_offset: 5,
            index_count: 15
        }]
    );
    let d = allocator.allocate(7, 15);
    assert_eq!(d.vertex_offset, 3);
    assert!(allocator.free_regions.is_empty());
    assert_eq!(allocator.allocate(1, 1).vertex_offset, 14);
}

#[test]
fn meshes_of_chunks_do_not_overlap() {
    let mut buffers = VoxelBuffers::new();
    let c = |cx: i32| ChunkCoord { cx, cy: 0, cz: 0 };
    let first = buffers.upload_chunk_mesh(c(0), 4, &vec![0, 1, 2, 0, 2, 3]).unwrap();
    let second = buffers.upload_chunk_mesh(c(1), 4, &vec![0, 1, 2, 0, 2, 3]).unwrap();
    assert_eq!(first.indices, vec![0, 1, 2, 0, 2, 3]);
    assert_eq!(second.indices, vec![4, 5, 6, 4, 6, 7]);
    let commands = buffers.update_indirect_buffer().unwrap();
    assert_eq!(commands.len(), 2);
    for (i, (coord, command)) in commands.iter().enumerate() {
        assert_eq!(command.first_instance, i as u32);
        assert_eq!(command.index_count, 6);
        assert_eq!(command.base_vertex, coord.cx * 4);
    }
    assert!(buffers.update_indirect_buffer().is_none());
    buffers.remove_chunk(&c(0));
    let third = buffers.upload_chunk_mesh(c(2), 3, &vec![0, 1, 2]).unwrap();
    assert_eq!(third.region.vertex_offset, 0);
    assert_eq!(buffers.update_indirect_buffer().unwrap().len(), 2);
}

#[test]
fn there_is_room_for_so_many_chunks() {
    let mut buffers = VoxelBuffers::new();
    for i in 0..MAX_CHUNKS {
        let coord = ChunkCoord { cx: i as i32, cy: 0, cz: 0 };
        assert!(buffers.upload_chunk_mesh(coord, 1, &vec![0]).is_some());
    }
    assert!(buffers.upload_chunk_mesh(ChunkCoord { cx: -1, cy: 0, cz: 0 }, 1, &vec![0]).is_none());
}

#[test]
fn normals_have_numbers() {
    assert_eq!(encode_normal([1, 0, 0]), 0);
    assert_eq!(encode_normal([-1, 0, 0]), 1);
    assert_eq!(encode_normal([0, 1, 0]), 2);
    assert_eq!(encode_normal([0, -1, 0]), 3);
    assert_eq!(encode_normal([0, 0, 1]), 4);
    assert_eq!(encode_normal([0, 0, -1]), 5);
    assert_eq!(encode_normal([0, 0, 0]), 0);
}
