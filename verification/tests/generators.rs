use std::collections::HashMap;

use rost_west::chunk::{chunk_rows, node_range, CONTENT_AIR, CONTENT_IGNORE, CONTENT_UNKNOWN};
use rost_west::rost_west::materials::{Materials, BASENODE_DESERT_STONE, MCL_STONE};
use rost_west::rustlantis::generator::Generator;
use rost_west::rustlantis::Mapgen;

/// Row starts of a buffer that holds exactly the node box, row by row.
fn dense_row_starts(min: [i16; 3], max: [i16; 3]) -> Vec<i32> {
    let width = (max[0] - min[0] + 1) as i32;
    (0..chunk_rows(min, max).len() as i32).map(|k| k * width).collect()
}

#[test]
fn flat_world_has_a_stone_floor() {
    let (min, max) = node_range([0, -1, 0], [0, 0, 0]);
    let starts = dense_row_starts(min, max);
    let mut data = vec![0x0203_0000u32; 16 * 32 * 16];
    Mapgen::new(1).make_chunk([0, -1, 0], [0, 0, 0], &starts, Some(9), &mut data);
    let rows = chunk_rows(min, max);
    for (k, [y, _z]) in rows.iter().enumerate() {
        let expected = if *y == -1 { 9 } else { CONTENT_AIR as u32 };
        for x in 0..16 {
            assert_eq!(data[k * 16 + x], 0x0203_0000 | expected);
        }
    }
}

#[test]
fn flat_world_without_stone_uses_unknown() {
    let (min, max) = node_range([0, -1, 0], [0, -1, 0]);
    let starts = dense_row_starts(min, max);
    let mut data = vec![0u32; 16 * 16 * 16];
    Mapgen::new(1).make_chunk([0, -1, 0], [0, -1, 0], &starts, None, &mut data);
    // the top row of the block is at y = -1
    assert_eq!(data[15 * 16], CONTENT_UNKNOWN as u32);
    assert_eq!(data[0], CONTENT_AIR as u32);
}

fn materials() -> Materials {
    let ids: HashMap<&str, u16> = [("mcl_core:stone", 1), ("mcl_core:dirt", 2), ("mcl_core:dirt_with_grass", 3)]
        .into_iter()
        .collect();
    Materials::load(|name| ids.get(name).copied())
}

#[test]
fn materials_are_looked_up_by_name() {
    let m = materials();
    assert_eq!(m.stone, 1);
    assert_eq!(m.dirt, 2);
    assert_eq!(m.dirt_with_grass, 3);
    assert_eq!(m.desert_stone, CONTENT_UNKNOWN);
    assert_eq!(m.unknown, CONTENT_UNKNOWN);
    assert_eq!(m.air, CONTENT_AIR);
    assert_eq!(m.ignore, CONTENT_IGNORE);
    assert_eq!(MCL_STONE, "mcl_core:stone");
    assert_eq!(BASENODE_DESERT_STONE, "basenodes:desert_stone");
}

#[test]
fn layers_by_height() {
    let m = materials();
    assert_eq!(Generator::material(-6, &m), 1);
    assert_eq!(Generator::material(-5, &m), 2);
    assert_eq!(Generator::material(-2, &m), 2);
    assert_eq!(Generator::material(-1, &m), 3);
    assert_eq!(Generator::material(0, &m), CONTENT_AIR);
    assert_eq!(Generator::material(i16::MIN, &m), 1);
    assert_eq!(Generator::material(i16::MAX, &m), CONTENT_AIR);
}

#[test]
fn layered_generator_loads_materials_once() {
    let mut generator = Generator::new(3);
    assert_eq!(generator.id(), 3);
    let (min, max) = node_range([0, -1, 0], [0, 0, 0]);
    let starts = dense_row_starts(min, max);
    let mut data = vec![0u32; 16 * 32 * 16];
    let mut loads = 0;
    generator.make_chunk([0, -1, 0], [0, 0, 0], &starts, || {
        loads += 1;
        materials()
    }, &mut data);
    generator.make_chunk([0, -1, 0], [0, 0, 0], &starts, || {
        loads += 1;
        materials()
    }, &mut data);
    assert_eq!(loads, 1);
    let rows = chunk_rows(min, max);
    for (k, [y, _z]) in rows.iter().enumerate() {
        assert_eq!(data[k * 16] as u16, Generator::material(*y, &materials()));
    }
}

#[test]
fn load_once_loads_an_empty_slot_only() {
    let mut slot: Option<Materials> = None;
    Materials::load_once(&mut slot, materials);
    assert_eq!(slot.as_ref().map(|m| m.stone), Some(1));
    Materials::load_once(&mut slot, || panic!("the materials are loaded already"));
    assert_eq!(slot.as_ref().map(|m| m.dirt), Some(2));
}
