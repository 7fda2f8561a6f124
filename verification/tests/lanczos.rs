use rost_west::mapgen::lanczos_doubler::{upscale_2d, KernelTable};

#[test]
fn upscale_keeps_the_input_at_even_positions() {
    // a 2×2 input, windows of 2 values folded by taking the first value
    let data = [1u32, 2, 3, 4];
    let result = upscale_2d(&data, 1, |w: &[u32; 2]| w[0]);
    assert_eq!(result.len(), 16);
    for y in 0..2 {
        for x in 0..2 {
            assert_eq!(result[(2 * y) * 4 + 2 * x], data[y * 2 + x]);
        }
    }
}

#[test]
fn upscale_folds_columns_then_rows() {
    // the window of 2 values starts at the value itself (offset 0): a sum gives neighbour pairs
    let data = [1u32, 2, 3, 4];
    let result = upscale_2d(&data, 1, |w: &[u32; 2]| w[0] + w[1]);
    assert_eq!(
        result,
        vec![
            1, 3, 2, 3, //
            4, 10, 6, 10, //
            3, 7, 4, 7, //
            4, 10, 6, 10,
        ]
    );
}

#[test]
fn upscale_window_wraps_around() {
    // windows of 4 values reach one value back (offset 1) and wrap around the edges
    let data: Vec<u32> = (0..4).collect();
    let result = upscale_2d(&data, 1, |w: &[u32; 4]| w[0] * 1000 + w[1] * 100 + w[2] * 10 + w[3]);
    // output row 1, column 0: input column 0 from rows -1, 0, 1, 2 = rows 1, 0, 1, 0
    assert_eq!(result[4], 2020);
    // output row 0, column 1: even columns of row 0 at input columns -1, 0, 1, 2
    assert_eq!(result[1], 1010);
}

#[test]
fn upscale_of_a_constant_square_is_constant() {
    let data = vec![5u32; 16];
    let result = upscale_2d(&data, 2, |w: &[u32; 6]| w.iter().sum::<u32>() / 6);
    assert_eq!(result.len(), 64);
    assert!(result.iter().all(|&v| v == 5));
}

#[test]
fn upscale_of_a_single_value() {
    let result = upscale_2d(&[7u8], 0, |w: &[u8; 2]| w[0].max(w[1]));
    assert_eq!(result, vec![7, 7, 7, 7]);
}

#[test]
fn kernel_table_has_one_kernel_per_position() {
    let table = KernelTable::new(3, |shift, count| (shift, count));
    assert_eq!(table.resolution_bits(), 3);
    assert_eq!(*table.kernel(0), (0, 8));
    assert_eq!(*table.kernel(5), (5, 8));
    assert_eq!(*table.kernel(13), (5, 8));
    assert_eq!(*table.kernel(0xffff), (7, 8));
}

#[test]
fn kernel_table_without_resolution() {
    let table = KernelTable::new(0, |shift, count| shift * 10 + count);
    assert_eq!(*table.kernel(1234), 1);
}

#[test]
fn upscale_commutes_with_cyclic_shifts() {
    // a 4×4 input and the same input moved by (1, 3), wrapping around
    let si = 4usize;
    let so = 2 * si;
    let (dx, dy) = (1usize, 3usize);
    let data: Vec<u64> = (0..16).map(|v| v * v + 1).collect();
    let shifted: Vec<u64> = (0..16)
        .map(|i| {
            let (x, y) = (i % si, i / si);
            data[((y + dy) % si) * si + (x + dx) % si]
        })
        .collect();
    let fold = |w: &[u64; 4]| w[0] + 3 * w[1] + 5 * w[2] + 7 * w[3];
    let doubled = upscale_2d(&data, 2, fold);
    let doubled_shifted = upscale_2d(&shifted, 2, fold);
    for y in 0..so {
        for x in 0..so {
            assert_eq!(
                doubled_shifted[y * so + x],
                doubled[((y + 2 * dy) % so) * so + (x + 2 * dx) % so]
            );
        }
    }
}
