//! The first generator the engine loaded: a flat world with a floor of stone.

pub mod generator;

use vstd::prelude::*;
use crate::chunk::{
    CONTENT_AIR, CONTENT_UNKNOWN, block_first_node, block_last_node, block_span_fits, span,
    fill_rows, row_ids, rows_of, id_or_unknown, node_range, fill_chunk,
};
use crate::manager::{FromMapgenId, MapgenId};

verus! {

/// The content of a node at height `y` in the flat world: stone at the floor level `-1`, air
/// everywhere else.
pub open spec fn floor_content(y: int, stone: u16) -> u16 {
    if y == -1 {
        stone
    } else {
        CONTENT_AIR
    }
}

/// The content of each layer of the node box between heights `min_y` and `max_y`, lowest first.
pub open spec fn floor_layers(min_y: int, max_y: int, stone: u16) -> Seq<u16> {
    Seq::new(span(min_y, max_y), |j: int| floor_content(min_y + j, stone))
}

/// Every row of a node box gets the content of its own world height, wherever the box starts:
/// the `k`-th row (the order of `chunk_rows`) lies at height `y`, and it is stone exactly when
/// `y == -1` and air (`126`) everywhere else.
pub proof fn law_floor_at_world_height_minus_one(node_min: [i16; 3], node_max: [i16; 3], stone: u16, k: int)
    requires
        0 <= k < rows_of(node_min, node_max).len(),
    ensures
        ({
            let y = rows_of(node_min, node_max)[k][0] as int;
            let ids = row_ids(floor_layers(node_min[1] as int, node_max[1] as int, stone), rows_of(node_min, node_max).len());
            &&& y == node_min[1] + k % (node_max[1] - node_min[1] + 1)
            &&& node_min[1] <= y <= node_max[1]
            &&& ids[k] == if y == -1 { stone } else { 126u16 }
        }),
{
    let ny = span(node_min[1] as int, node_max[1] as int) as int;
    let nz = span(node_min[2] as int, node_max[2] as int) as int;
    if ny <= 0 || nz <= 0 {
        assert(ny * nz <= 0) by (nonlinear_arith)
            requires
                ny >= 0,
                nz >= 0,
                ny <= 0 || nz <= 0,
        ;
    }
    assert(ny == node_max[1] - node_min[1] + 1);
    vstd::arithmetic::div_mod::lemma_mod_bound(k, ny);
}

/// A map generator known to the engine under `id`.
pub struct Mapgen {
    id: MapgenId,
}

impl Mapgen {
    /// The id the engine knows this generator by.
    pub closed spec fn spec_id(&self) -> MapgenId {
        self.id
    }

    pub fn new(id: MapgenId) -> (r: Self)
        ensures
            r.spec_id() == id,
    {
        Self { id }
    }

    /// The id the engine knows this generator by.
    pub fn id(&self) -> (r: MapgenId)
        ensures
            r == self.spec_id(),
    {
        self.id
    }

    /// Fills the chunk made of the blocks `blockpos_min ..= blockpos_max` (the center block is at
    /// `[-2, -2, -2] → [2, 2, 2]` for a chunk of 5×5×5 blocks): every node at height `-1` becomes
    /// stone, every other node air. `stone` is what the engine's lookup of the node name
    /// `basenodes:stone` gave; where it knew none, the floor is `CONTENT_UNKNOWN`. Row `k` of
    /// the chunk, the `k`-th of `chunk_rows` of its node range, starts at `row_starts[k]` in
    /// `data`.
    pub fn make_chunk(
        &self,
        blockpos_min: [i16; 3],
        blockpos_max: [i16; 3],
        row_starts: &[i32],
        stone: Option<u16>,
        data: &mut [u32],
    )
        requires
            forall|k: int| 0 <= k < 3 ==> #[trigger] block_span_fits(blockpos_min[k], blockpos_max[k]),
            row_starts@.len() == span(
                block_first_node(blockpos_min[1] as int),
                block_last_node(blockpos_max[1] as int),
            ) * span(block_first_node(blockpos_min[2] as int), block_last_node(blockpos_max[2] as int)),
            forall|k: int|
                0 <= k < row_starts@.len() ==> 0 <= #[trigger] row_starts@[k] && row_starts@[k] + span(
                    block_first_node(blockpos_min[0] as int),
                    block_last_node(blockpos_max[0] as int),
                ) <= old(data)@.len(),
        ensures
            final(data)@ == fill_rows(
                old(data)@,
                row_starts@,
                span(block_first_node(blockpos_min[0] as int), block_last_node(blockpos_max[0] as int))
                    as int,
                row_ids(
                    floor_layers(
                        block_first_node(blockpos_min[1] as int),
                        block_last_node(blockpos_max[1] as int),
                        id_or_unknown(stone),
                    ),
                    row_starts@.len(),
                ),
            ),
    {
        let (node_min, node_max) = node_range(blockpos_min, blockpos_max);
        let stone_id = match stone {
            Some(id) => id,
            None => CONTENT_UNKNOWN,
        };
        let mut layers: Vec<u16> = Vec::new();
        let mut y: i32 = node_min[1] as i32;
        while y <= node_max[1] as i32
            invariant
                node_min[1] <= y,
                y <= node_max[1] + 1 || y == node_min[1],
                layers@ =~= floor_layers(node_min[1] as int, y - 1, stone_id),
            decreases node_max[1] + 1 - y,
        {
            let content = if y == -1 {
                stone_id
            } else {
                CONTENT_AIR
            };
            layers.push(content);
            y = y + 1;
        }
        if layers.len() == 0 {
            assert(row_starts@.len() == 0);
            assert(fill_rows(data@, row_starts@, 0, row_ids(layers@, 0)) == data@);
            return;
        }
        let width: usize = if node_min[0] <= node_max[0] {
            (node_max[0] as i32 - node_min[0] as i32 + 1) as usize
        } else {
            0
        };
        fill_chunk(data, row_starts, width, layers.as_slice());
    }
}

impl FromMapgenId for Mapgen {
    open spec fn mapgen_id(&self) -> MapgenId {
        self.spec_id()
    }

    fn from_mapgen_id(id: MapgenId) -> (r: Self) {
        Mapgen::new(id)
    }
}

} // verus!
