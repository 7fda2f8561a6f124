use rost_west::chunk::{
    block_rows, chunk_rows, fill_chunk, node_range, set_content, span_fits, write_block_rows, BlockRow, CONTENT_AIR, CONTENT_IGNORE, CONTENT_UNKNOWN,
};

#[test]
fn node_range_of_the_center_chunk() {
    let (min, max) = node_range([-2, -2, -2], [2, 2, 2]);
    assert_eq!(min, [-32, -32, -32]);
    assert_eq!(max, [47, 47, 47]);
}

#[test]
fn node_range_of_a_single_block() {
    let (min, max) = node_range([0, -1, 3], [0, -1, 3]);
    assert_eq!(min, [0, -16, 48]);
    assert_eq!(max, [15, -1, 63]);
}

#[test]
fn spans_that_fit_in_node_coordinates() {
    assert!(span_fits(-2, 2));
    assert!(span_fits(-2048, 2046));
    assert!(!span_fits(-2049, 0));
    assert!(!span_fits(0, 2047));
    assert!(span_fits(0, -2048));
}

#[test]
fn rows_run_through_y_within_z() {
    let rows = chunk_rows([0, 5, 10], [3, 6, 12]);
    assert_eq!(rows, vec![[5, 10], [6, 10], [5, 11], [6, 11], [5, 12], [6, 12]]);
    assert!(chunk_rows([0, 6, 0], [0, 5, 3]).is_empty());
    assert!(chunk_rows([0, 0, 1], [0, 3, 0]).is_empty());
}

#[test]
fn rows_at_the_edge_of_the_coordinate_range() {
    let rows = chunk_rows([0, i16::MAX, i16::MIN], [0, i16::MAX, i16::MIN + 1]);
    assert_eq!(rows, vec![[i16::MAX, i16::MIN], [i16::MAX, i16::MIN + 1]]);
}

#[test]
fn set_content_keeps_the_parameter_bytes() {
    assert_eq!(set_content(0xabcd_1234, 0x0042), 0xabcd_0042);
    assert_eq!(set_content(0, CONTENT_AIR), 126);
    assert_eq!(CONTENT_UNKNOWN, 125);
    assert_eq!(CONTENT_IGNORE, 127);
}

#[test]
fn fill_writes_rows_in_order() {
    let mut data = vec![0x0101_0000u32; 12];
    // three rows of width 2; the third overlaps the first and is written last
    fill_chunk(&mut data, &[0, 4, 1], 2, &[7, 8, 9]);
    assert_eq!(
        data,
        vec![
            0x0101_0007,
            0x0101_0009,
            0x0101_0009,
            0x0101_0000,
            0x0101_0008,
            0x0101_0008,
            0x0101_0000,
            0x0101_0000,
            0x0101_0000,
            0x0101_0000,
            0x0101_0000,
            0x0101_0000,
        ]
    );
}

#[test]
fn fill_repeats_layers_for_each_z() {
    let mut data = vec![0u32; 8];
    fill_chunk(&mut data, &[0, 2, 4, 6], 2, &[1, 2]);
    assert_eq!(data, vec![1, 1, 2, 2, 1, 1, 2, 2]);
}

#[test]
fn fill_of_width_zero_changes_nothing() {
    let mut data = vec![5u32; 3];
    fill_chunk(&mut data, &[0, 3], 0, &[1]);
    assert_eq!(data, vec![5, 5, 5]);
}

#[test]
fn block_rows_walk_columns_then_blocks_then_rows() {
    let rows = block_rows([0, -1, 2], [1, 0, 2]);
    assert_eq!(rows.len(), 2 * 2 * 256);
    assert_eq!(
        rows[0],
        BlockRow { column: [0, 2], first: [0, -16, 32], z_in_block: 0 }
    );
    // the next row of a block is one node higher
    assert_eq!(rows[1].first, [0, -15, 32]);
    // after sixteen heights the walk moves one row along z
    assert_eq!(rows[16], BlockRow { column: [0, 2], first: [0, -16, 33], z_in_block: 1 });
    // after a whole block it moves to the block above
    assert_eq!(rows[256].first, [0, 0, 32]);
    // after a whole column it moves to the next column along x
    assert_eq!(rows[512], BlockRow { column: [1, 2], first: [16, -16, 32], z_in_block: 0 });
    assert_eq!(rows[1023], BlockRow { column: [1, 2], first: [16, 15, 47], z_in_block: 15 });
}

#[test]
fn block_rows_of_an_empty_range() {
    assert!(block_rows([1, 0, 0], [0, 0, 0]).is_empty());
}

#[test]
fn write_block_rows_writes_each_node_of_each_row() {
    let mut data = vec![0xabcd_0000u32; 40];
    let mut first = [0u16; 16];
    for (j, id) in first.iter_mut().enumerate() {
        *id = j as u16 + 1;
    }
    let second = [7u16; 16];
    write_block_rows(&mut data, &[2, 20], &[first, second]);
    assert_eq!(data[0], 0xabcd_0000);
    assert_eq!(data[2], 0xabcd_0001);
    assert_eq!(data[17], 0xabcd_0010);
    assert_eq!(data[18], 0xabcd_0000);
    assert_eq!(data[20], 0xabcd_0007);
    assert_eq!(data[35], 0xabcd_0007);
    assert_eq!(data[36], 0xabcd_0000);
}
