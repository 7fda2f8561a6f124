use rost_west::mapgen::data_square::{DataSquare, GetWrapping};

type Small = DataSquare<u32, 2>;

fn numbered() -> Small {
    let values: Vec<u32> = (0..16).collect();
    Small::try_from(values).unwrap()
}

#[test]
fn new_fills_every_cell() {
    let square: DataSquare<u8, 3> = DataSquare::new(7);
    assert_eq!(square.len(), 64);
    assert!(square.iter().all(|&v| v == 7));
}

#[test]
fn constants_of_a_square() {
    assert_eq!(DataSquare::<u8, 12>::size(), 4096);
    assert_eq!(DataSquare::<u8, 12>::size_mask(), 4095);
    assert_eq!(DataSquare::<u8, 12>::world_shift(), 4);
    assert_eq!(DataSquare::<u8, 16>::size_mask(), 0xffff);
    assert_eq!(DataSquare::<u8, 0>::size(), 1);
}

#[test]
fn wrap_takes_coordinates_modulo_the_side() {
    assert_eq!(Small::wrap(0), 0);
    assert_eq!(Small::wrap(5), 1);
    assert_eq!(Small::wrap(0xffff), 3);
    assert_eq!(DataSquare::<u8, 16>::wrap(0xfffe), 0xfffe);
}

#[test]
fn offsets_are_row_major() {
    assert_eq!(Small::col_offset(6), 2);
    assert_eq!(Small::row_offset(6), 8);
    assert_eq!(Small::offset(5, 6), 9);
    assert_eq!(Small::offset(3, 3), 15);
    assert_eq!(DataSquare::<u8, 12>::offset(4095, 4095), 4096 * 4096 - 1);
}

#[test]
fn offsets_are_a_bijection() {
    let mut seen = vec![false; 16];
    for y in 0..4u16 {
        for x in 0..4u16 {
            let o = Small::offset(x, y);
            assert!(!seen[o]);
            seen[o] = true;
        }
    }
    assert!(seen.iter().all(|&s| s));
}

#[test]
fn get_after_set() {
    let mut square: DataSquare<u32, 2> = DataSquare::new(0);
    square.set([1, 2], 42);
    assert_eq!(square.get([1, 2]), 42);
    assert_eq!(square.get([2, 1]), 0);
    square.set([5, 6], 43);
    assert_eq!(square.get([1, 2]), 43);
    assert_eq!(square[9], 43);
}

#[test]
fn coordinates_wrap_around() {
    let square = numbered();
    for y in 0..4u16 {
        for x in 0..4u16 {
            assert_eq!(square.get([x, y]), square.get([x + 4, y]));
            assert_eq!(square.get([x, y]), square.get([x, y.wrapping_sub(4)]));
            assert_eq!(square.get([x, y]), square.get([x.wrapping_add(0xfffc), y + 8]));
        }
    }
}

#[test]
fn get_2x2_wraps_at_the_edge() {
    let square = numbered();
    assert_eq!(square.get_2x2([0, 0]), [0, 1, 4, 5]);
    assert_eq!(square.get_2x2([3, 3]), [15, 12, 3, 0]);
    assert_eq!(square.get_2x2([0xffff, 0]), [3, 0, 7, 4]);
}

#[test]
fn get_3x3_is_the_neighbourhood() {
    let square = numbered();
    assert_eq!(square.get_3x3([1, 1]), [0, 1, 2, 4, 5, 6, 8, 9, 10]);
    assert_eq!(square.get_3x3([0, 0]), [15, 12, 13, 3, 0, 1, 7, 4, 5]);
    assert_eq!(square.get_3x3([2, 1])[4], square.get([2, 1]));
}

#[test]
fn window_around_a_cell() {
    let square = numbered();
    let w = square.window([1, 1], 3, 1);
    assert_eq!(w, vec![vec![0, 1, 2], vec![4, 5, 6], vec![8, 9, 10]]);
    let w = square.window([0, 3], 4, 1);
    assert_eq!(
        w,
        vec![vec![11, 8, 9, 10], vec![15, 12, 13, 14], vec![3, 0, 1, 2], vec![7, 4, 5, 6]]
    );
    assert_eq!(square.window([2, 2], 0, 0), Vec::<Vec<u32>>::new());
}

#[test]
fn window_of_three_matches_get_3x3() {
    let square = numbered();
    let w = square.window([3, 0], 3, 1);
    let flat: Vec<u32> = w.into_iter().flatten().collect();
    assert_eq!(flat, square.get_3x3([3, 0]).to_vec());
}

#[test]
fn clone_with_maps_every_value() {
    let square = numbered();
    let doubled = square.clone_with(|v| v * 2);
    assert_eq!(doubled.as_ref(), (0..16).map(|v| v * 2).collect::<Vec<u32>>().as_slice());
    assert_eq!(square.get([3, 3]), 15);
}

#[test]
fn clone_with_the_identity_changes_nothing() {
    let square = numbered();
    let same = square.clone_with(|v| *v);
    assert_eq!(same.as_ref(), square.as_ref());
}

#[test]
fn clone_with_twice_is_clone_with_the_composition() {
    let square = numbered();
    let twice = square.clone_with(|v| v + 1).clone_with(|v| v * 3);
    let composed = square.clone_with(|v| (v + 1) * 3);
    assert_eq!(twice.as_ref(), composed.as_ref());
}

#[test]
fn update_each_replaces_values_in_place() {
    let mut square = numbered();
    square.update_each(|v| v * 10 + 1);
    assert_eq!(square.as_ref(), (0..16).map(|v| v * 10 + 1).collect::<Vec<u32>>().as_slice());
    assert_eq!(square.get([1, 2]), 91);
}

#[test]
fn iterators_run_row_by_row() {
    let mut square = numbered();
    assert_eq!(square.iter().copied().collect::<Vec<u32>>(), (0..16).collect::<Vec<u32>>());
    for v in square.iter_mut() {
        *v += 1;
    }
    assert_eq!(square.get([0, 0]), 1);
    square.as_mut()[15] = 100;
    assert_eq!(square.get([3, 3]), 100);
}

#[test]
fn try_from_requires_one_value_per_cell() {
    let too_short: Result<Small, String> = Small::try_from(vec![1, 2, 3]);
    assert_eq!(
        too_short.err().unwrap(),
        "Expected a vector containing 16 but got one with 3 entries."
    );
    let exact = Small::try_from(vec![9; 16]).unwrap();
    assert_eq!(exact.as_ref(), &[9; 16][..]);
}

#[test]
fn try_from_reports_the_length_of_a_wide_square() {
    let wide: Result<DataSquare<u8, 17>, String> = DataSquare::try_from(vec![0u8; 4]);
    assert_eq!(
        wide.err().unwrap(),
        "Expected a vector containing 17179869184 but got one with 4 entries."
    );
}

#[test]
fn try_from_reports_an_empty_vector() {
    let empty: Result<DataSquare<u8, 1>, String> = DataSquare::try_from(Vec::new());
    assert_eq!(
        empty.err().unwrap(),
        "Expected a vector containing 4 but got one with 0 entries."
    );
}

#[test]
fn try_from_accepts_a_wide_square() {
    let wide: DataSquare<(), 17> = DataSquare::try_from(vec![(); 1usize << 34]).unwrap();
    assert_eq!(wide.len(), 1usize << 34);
    assert_eq!(wide.as_ref().len(), 1usize << 34);
}

#[test]
fn try_from_refuses_more_cells_than_a_usize_counts() {
    let huge: Result<DataSquare<u8, 32>, String> = DataSquare::try_from(Vec::new());
    assert_eq!(
        huge.err().unwrap(),
        "A square with 32 bits per coordinate has more cells than a usize can count."
    );
}

#[test]
fn coordinates_of_a_wide_square_wrap_at_the_u16_range() {
    assert_eq!(DataSquare::<u8, 17>::size(), 1 << 17);
    assert_eq!(DataSquare::<u8, 17>::size_mask(), 0xffff);
    assert_eq!(DataSquare::<u8, 17>::wrap(0xffff), 0xffff);
    assert_eq!(DataSquare::<u8, 17>::col_offset(40000), 40000);
    assert_eq!(DataSquare::<u8, 17>::row_offset(3), 3 << 17);
    assert_eq!(DataSquare::<u8, 17>::offset(0xffff, 1), (1 << 17) + 0xffff);
}

#[test]
fn default_square() {
    let square: DataSquare<u16, 1> = DataSquare::default();
    assert_eq!(square.as_ref(), &[0, 0, 0, 0][..]);
}
