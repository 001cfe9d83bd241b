use voxel_engine::svo::position::{
    decode_level, decode_x, decode_y, decode_z, encode_position, format_pos, make_child_pos,
    make_parent_pos,
};
use voxel_engine::svo::section::{Section, SectionCoord};

#[test]
fn mod_test_position_encoding() {
    let pos = encode_position(0, 10, 20, 30);
    assert_eq!(decode_level(pos), 0);
    assert_eq!(decode_x(pos), 10);
    assert_eq!(decode_y(pos), 20);
    assert_eq!(decode_z(pos), 30);
}

#[test]
fn test_position_encoding_negative() {
    let pos = encode_position(2, -5, -10, -15);
    assert_eq!(decode_level(pos), 2);
    assert_eq!(decode_x(pos), -5);
    assert_eq!(decode_y(pos), -10);
    assert_eq!(decode_z(pos), -15);
}

#[test]
fn test_position_encoding_large() {
    let pos = encode_position(4, 100, 200, 300);
    assert_eq!(decode_level(pos), 4);
    assert_eq!(decode_x(pos), 100);
    assert_eq!(decode_y(pos), 200);
    assert_eq!(decode_z(pos), 300);
}

#[test]
fn test_child_parent_roundtrip() {
    let parent = encode_position(2, 1, 1, 1);
    for i in 0..8 {
        let child = make_child_pos(parent, i);
        assert_eq!(decode_level(child), 1);
        let parent2 = make_parent_pos(child);
        assert_eq!(parent, parent2);
    }
}

#[test]
fn test_child_position_generation() {
    let parent = encode_position(2, 0, 0, 0);

    let child0 = make_child_pos(parent, 0);
    assert_eq!(decode_level(child0), 1);
    assert_eq!(decode_x(child0), 0);
    assert_eq!(decode_y(child0), 0);
    assert_eq!(decode_z(child0), 0);

    let child7 = make_child_pos(parent, 7);
    assert_eq!(decode_level(child7), 1);
    assert_eq!(decode_x(child7), 1);
    assert_eq!(decode_y(child7), 1);
    assert_eq!(decode_z(child7), 1);
}

#[test]
fn children_of_a_node_differ() {
    let parent = encode_position(3, -4, 5, -6);
    for i in 0..8 {
        for j in 0..8 {
            assert_eq!(make_child_pos(parent, i) == make_child_pos(parent, j), i == j);
        }
        assert_eq!(make_parent_pos(make_child_pos(parent, i)), parent);
    }
}

#[test]
fn positions_are_packed_from_the_top() {
    assert_eq!(encode_position(1, 2, 3, 4), 0x1000_0200_0030_0004);
    assert_eq!(encode_position(0, -1, 0, 0), 0x0FFF_FF00_0000_0000);
}

#[test]
fn a_position_as_text() {
    assert_eq!(format_pos(encode_position(2, 1, -4, 7)), "L2@[1,-4,7]");
}

#[test]
fn section_coordinates_are_read_back() {
    for c in [
        SectionCoord::new(0, 0, 0),
        SectionCoord::new(-1, 2, -3),
        SectionCoord::new(1000, -1000, 7),
    ] {
        assert_eq!(SectionCoord::decode(c.encode()), c);
    }
}

#[test]
fn a_section_counts_its_voxels() {
    let mut section = Section::new(SectionCoord::new(0, 0, 0));
    assert_eq!(section.solid_count, 0);
    section.set_voxel(1, 2, 3, 7);
    section.set_voxel(31, 31, 31, 8);
    assert_eq!(section.get_voxel(1, 2, 3), 7);
    assert_eq!(section.get_voxel(31, 31, 31), 8);
    assert_eq!(section.get_voxel(0, 0, 0), 0);
    section.recalc_metadata();
    assert_eq!(section.solid_count, 2);
    assert_eq!(section.non_empty_children, 0b1000_0001);
}

#[test]
fn a_section_is_released_when_nobody_holds_it() {
    let mut section = Section::new(SectionCoord::new(0, 0, 0));
    assert_eq!(section.ref_count, 1);
    section.acquire();
    assert!(!section.release());
    assert!(section.release());
}
