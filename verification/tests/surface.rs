use rost_west::rost_west::surface::{node_in_block, node_world_coordinate, sign_extend};

#[test]
fn nine_bit_values() {
    assert_eq!(sign_extend(0, 9), 0);
    assert_eq!(sign_extend(255, 9), 255);
    assert_eq!(sign_extend(256, 9), -256);
    assert_eq!(sign_extend(511, 9), -1);
    assert_eq!(sign_extend(512 + 3, 9), 3);
}

#[test]
fn twelve_bit_columns() {
    assert_eq!(sign_extend(4095, 12), -1);
    assert_eq!(sign_extend(2047, 12), 2047);
    assert_eq!(sign_extend(2048, 12), -2048);
    assert_eq!(sign_extend(4096 * 7 + 5, 12), 5);
}

#[test]
fn sixteen_and_one_bit() {
    assert_eq!(sign_extend(0xffff, 16), -1);
    assert_eq!(sign_extend(0x7fff, 16), 0x7fff);
    assert_eq!(sign_extend(1, 1), -1);
    assert_eq!(sign_extend(2, 1), 0);
}

#[test]
fn world_coordinates_of_block_nodes() {
    assert_eq!(node_world_coordinate(0, 0), 0);
    assert_eq!(node_world_coordinate(2, 5), 37);
    assert_eq!(node_world_coordinate(-1, 0), 0xfff0);
    assert_eq!(node_world_coordinate(-1, 15), 0xffff);
    assert_eq!(node_world_coordinate(i16::MAX, 15), 0xffff);
    assert_eq!(node_world_coordinate(0x1000, 3), 3);
}

#[test]
fn nodes_within_their_block() {
    assert_eq!(node_in_block(0), 0);
    assert_eq!(node_in_block(17), 1);
    assert_eq!(node_in_block(-1), 15);
    assert_eq!(node_in_block(-16), 0);
    assert_eq!(node_in_block(i16::MIN), 0);
}
