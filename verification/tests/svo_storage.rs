use voxel_engine::svo::hierarchical_bitset::{HierarchicalBitSet, CAPACITY, SET_FULL};
use voxel_engine::svo::node_store::{NodeStore, NodeType};

#[test]
fn hierarchical_bitset_test_basic_allocation() {
    let mut bitset = HierarchicalBitSet::new(1024);

    let id = bitset.allocate_next();
    assert_eq!(id, 0);
    assert!(bitset.is_set(0));
    assert_eq!(bitset.count(), 1);

    let id = bitset.allocate_next();
    assert_eq!(id, 1);
    assert!(bitset.is_set(1));
    assert_eq!(bitset.count(), 2);
}

#[test]
fn test_free() {
    let mut bitset = HierarchicalBitSet::new(1024);

    let id = bitset.allocate_next();
    assert_eq!(id, 0);

    let was_set = bitset.free(0);
    assert!(was_set);
    assert!(!bitset.is_set(0));
    assert_eq!(bitset.count(), 0);

    let id = bitset.allocate_next();
    assert_eq!(id, 0);
}

#[test]
fn test_consecutive_allocation() {
    let mut bitset = HierarchicalBitSet::new(1024);

    let base = bitset.allocate_next_consecutive(4);
    assert_eq!(base, 0);
    assert_eq!(bitset.count(), 4);

    for i in 0..4 {
        assert!(bitset.is_set(i));
    }
}

#[test]
fn test_sequential_allocation() {
    let mut bitset = HierarchicalBitSet::new(1024);

    for i in 0..100 {
        let id = bitset.allocate_next();
        assert_eq!(id, i);
    }

    assert_eq!(bitset.count(), 100);
    assert_eq!(bitset.max_index(), 99);
}

#[test]
fn test_free_and_realloc() {
    let mut bitset = HierarchicalBitSet::new(1024);

    for _ in 0..10 {
        bitset.allocate_next();
    }

    bitset.free(5);
    bitset.free(7);

    let id = bitset.allocate_next();
    assert_eq!(id, 5);

    let id = bitset.allocate_next();
    assert_eq!(id, 7);
}

#[test]
fn test_limit() {
    let mut bitset = HierarchicalBitSet::new(10);

    for _ in 0..10 {
        let id = bitset.allocate_next();
        assert_ne!(id, SET_FULL);
    }

    let id = bitset.allocate_next();
    assert_eq!(id, SET_FULL);
}

#[test]
fn test_large_allocation() {
    let mut bitset = HierarchicalBitSet::new(1024);

    for i in 0..1024 {
        let id = bitset.allocate_next();
        assert_eq!(id, i);
    }

    assert_eq!(bitset.count(), 1024);
    assert_eq!(bitset.max_index(), 1023);

    for i in 0..1024 {
        bitset.free(i);
    }

    assert_eq!(bitset.count(), 0);
    assert_eq!(bitset.max_index(), -1);
}

#[test]
fn runs_of_every_length_are_found() {
    let mut bitset = HierarchicalBitSet::new(1024);
    assert_eq!(bitset.allocate_next_consecutive(64), 0);
    assert_eq!(bitset.count(), 64);
    assert_eq!(bitset.allocate_next_consecutive(8), 64);
    bitset.free(10);
    bitset.free(12);
    assert_eq!(bitset.allocate_next_consecutive(2), 72);
    assert_eq!(bitset.allocate_next(), 10);
    assert_eq!(bitset.allocate_next(), 12);
    assert_eq!(bitset.max_index(), 73);
}

#[test]
fn a_run_beyond_the_limit_is_refused() {
    let mut bitset = HierarchicalBitSet::new(10);
    assert_eq!(bitset.allocate_next_consecutive(8), 0);
    assert_eq!(bitset.allocate_next_consecutive(3), SET_FULL);
    assert_eq!(bitset.count(), 8);
    assert_eq!(bitset.allocate_next_consecutive(2), 8);
}

#[test]
fn the_default_capacity_is_the_largest() {
    let bitset = HierarchicalBitSet::default_capacity();
    assert_eq!(bitset.limit(), CAPACITY);
    assert_eq!(bitset.count(), 0);
    assert_eq!(bitset.max_index(), -1);
}

#[test]
fn freeing_what_is_free_changes_nothing() {
    let mut bitset = HierarchicalBitSet::new(100);
    bitset.allocate_next();
    assert!(!bitset.free(50));
    assert_eq!(bitset.count(), 1);
    assert_eq!(bitset.max_index(), 0);
}

#[test]
fn node_store_test_basic_allocation() {
    let mut store = NodeStore::new(1024);

    let id = store.allocate().unwrap();
    assert!(store.node_exists(id));
    assert_eq!(store.node_count(), 1);

    store.free(id);
    assert!(!store.node_exists(id));
    assert_eq!(store.node_count(), 0);
}

#[test]
fn node_store_test_position_encoding() {
    let mut store = NodeStore::new(1024);
    let id = store.allocate().unwrap();

    let position = 0x1234567890ABCDEF;
    store.set_node_position(id, position);

    assert_eq!(store.node_position(id), position);
}

#[test]
fn test_geometry_handle() {
    let mut store = NodeStore::new(1024);
    let id = store.allocate().unwrap();

    store.set_node_geometry(id, 42);
    assert_eq!(store.get_node_geometry(id), 42);

    store.set_node_geometry(id, -1);
    assert_eq!(store.get_node_geometry(id), -1);

    store.set_node_geometry(id, -2);
    assert_eq!(store.get_node_geometry(id), -2);
}

#[test]
fn test_child_ptr() {
    let mut store = NodeStore::new(1024);
    let id = store.allocate().unwrap();

    store.set_child_ptr(id, 100);
    assert_eq!(store.get_child_ptr(id), 100);

    store.set_child_ptr(id, -1);
    assert_eq!(store.get_child_ptr(id), -1);
}

#[test]
fn test_node_type() {
    let mut store = NodeStore::new(1024);
    let id = store.allocate().unwrap();

    store.set_node_type(id, NodeType::Leaf);
    assert_eq!(store.get_node_type(id), NodeType::Leaf);

    store.set_node_type(id, NodeType::Inner);
    assert_eq!(store.get_node_type(id), NodeType::Inner);
}

#[test]
fn test_flags() {
    let mut store = NodeStore::new(1024);
    let id = store.allocate().unwrap();

    store.mark_request_in_flight(id);
    assert!(store.is_node_request_in_flight(id));
    store.unmark_request_in_flight(id);
    assert!(!store.is_node_request_in_flight(id));

    store.mark_node_geometry_in_flight(id);
    assert!(store.is_node_geometry_in_flight(id));
    store.unmark_node_geometry_in_flight(id);
    assert!(!store.is_node_geometry_in_flight(id));

    store.set_all_children_are_leaf(id, true);
    assert!(store.get_all_children_are_leaf(id));
    store.set_all_children_are_leaf(id, false);
    assert!(!store.get_all_children_are_leaf(id));
}

#[test]
fn test_child_existence() {
    let mut store = NodeStore::new(1024);
    let id = store.allocate().unwrap();

    store.set_node_child_existence(id, 0b10101010);
    assert_eq!(store.get_node_child_existence(id), 0b10101010);
}

#[test]
fn test_child_ptr_count() {
    let mut store = NodeStore::new(1024);
    let id = store.allocate().unwrap();

    store.set_child_ptr_count(id, 5);
    assert_eq!(store.get_child_ptr_count(id), 5);
}

#[test]
fn test_request_id() {
    let mut store = NodeStore::new(1024);
    let id = store.allocate().unwrap();

    store.set_node_request(id, 12345);
    assert_eq!(store.get_node_request(id), 12345);
}

#[test]
fn test_write_node_compact() {
    let mut store = NodeStore::new(1024);
    let id = store.allocate().unwrap();

    store.set_node_position(id, 0x1234567890ABCDEF);
    store.set_node_geometry(id, 42);
    store.set_child_ptr(id, 100);

    let (pos, data) = store.write_node_compact(id);

    assert_eq!(pos, 0x1234567890ABCDEF);

    let geometry = (data & 0xFFFFFF) as u32;
    assert_eq!(geometry, 42);

    let child_ptr = ((data >> 32) & 0xFFFFFF) as u32;
    assert_eq!(child_ptr, 100);
}

#[test]
fn test_contiguous_allocation() {
    let mut store = NodeStore::new(1024);

    let base = store.allocate_contiguous(8).unwrap();
    assert_eq!(store.node_count(), 8);

    for i in 0..8 {
        assert!(store.node_exists(base + i));
    }

    store.free_contiguous(base, 8);
    assert_eq!(store.node_count(), 0);
}

#[test]
fn test_copy_node() {
    let mut store = NodeStore::new(1024);

    let id1 = store.allocate().unwrap();
    let id2 = store.allocate().unwrap();

    store.set_node_position(id1, 0x1234567890ABCDEF);
    store.set_node_geometry(id1, 42);
    store.set_child_ptr(id1, 100);

    store.copy_node(id1, id2);

    assert_eq!(store.node_position(id2), 0x1234567890ABCDEF);
    assert_eq!(store.get_node_geometry(id2), 42);
    assert_eq!(store.get_child_ptr(id2), 100);
}

#[test]
fn a_full_store_gives_out_nothing() {
    let mut store = NodeStore::new(2);
    assert!(store.allocate().is_some());
    assert!(store.allocate_contiguous(2).is_none());
    assert!(store.allocate().is_some());
    assert!(store.allocate().is_none());
    assert_eq!(store.end_node_id(), 1);
    assert_eq!(store.raw_data().len() % 2, 0);
}

#[test]
fn fields_of_a_node_do_not_touch_each_other() {
    let mut store = NodeStore::new(16);
    let id = store.allocate().unwrap();
    store.set_node_geometry(id, 0x123456);
    store.set_child_ptr(id, 0x654321);
    store.set_node_request(id, 77);
    store.set_node_child_existence(id, 0xA5);
    store.set_child_ptr_count(id, 8);
    store.set_dirty(id, true);
    store.set_node_type(id, NodeType::Pending);
    assert_eq!(store.get_node_geometry(id), 0x123456);
    assert_eq!(store.get_child_ptr(id), 0x654321);
    assert_eq!(store.get_node_request(id), 77);
    assert_eq!(store.get_node_child_existence(id), 0xA5);
    assert_eq!(store.get_child_ptr_count(id), 8);
    assert!(store.is_dirty(id));
    assert_eq!(store.get_node_type(id), NodeType::Pending);
    assert!(!store.is_node_request_in_flight(id));
    store.set_dirty(id, false);
    assert!(!store.is_dirty(id));
    assert_eq!(store.get_node_request(id), 77);
}

#[test]
fn an_unused_node_has_no_type() {
    let mut store = NodeStore::new(16);
    let id = store.allocate().unwrap();
    assert_eq!(store.get_node_type(id), NodeType::Unused);
    assert_eq!(store.get_node_geometry(id), -1);
    assert_eq!(store.get_child_ptr(id), -1);
}
