//! The layered generator: stone, then dirt, then a layer of grass below the sea level of air.

use vstd::prelude::*;
use crate::chunk::{
    block_first_node, block_last_node, block_span_fits, span, fill_rows, row_ids, rows_of, node_range,
    fill_chunk,
};
use crate::manager::{FromMapgenId, MapgenId};
use crate::rost_west::materials::Materials;

verus! {

/// The content of a node at height `y`: stone below `-5`, dirt from `-5` to `-2`, grass at `-1`
/// and air from `0` up.
pub open spec fn layer_content(y: int, materials: Materials) -> u16 {
    if y < -5 {
        materials.stone
    } else if y < -1 {
        materials.dirt
    } else if y == -1 {
        materials.dirt_with_grass
    } else {
        materials.air
    }
}

/// The content of each layer of the node box between heights `min_y` and `max_y`, lowest first.
pub open spec fn layered(min_y: int, max_y: int, materials: Materials) -> Seq<u16> {
    Seq::new(span(min_y, max_y), |j: int| layer_content(min_y + j, materials))
}

/// A layered map generator known to the engine under `id`; it looks up the ids of its materials
/// when it fills its first chunk.
pub struct Generator {
    id: MapgenId,
    materials: Option<Materials>,
}

impl Generator {
    /// The id the engine knows this generator by.
    pub closed spec fn spec_id(&self) -> MapgenId {
        self.id
    }

    /// The material ids, once they have been looked up.
    pub closed spec fn spec_materials(&self) -> Option<Materials> {
        self.materials
    }

    pub fn new(id: MapgenId) -> (r: Self)
        ensures
            r.spec_id() == id,
            r.spec_materials() is None,
    {
        Self { id, materials: None }
    }

    /// The id the engine knows this generator by.
    pub fn id(&self) -> (r: MapgenId)
        ensures
            r == self.spec_id(),
    {
        self.id
    }

    /// The content of a node at height `y`.
    pub fn material(y: i16, materials: &Materials) -> (r: u16)
        ensures
            r == layer_content(y as int, *materials),
    {
        if y < -5 {
            materials.stone
        } else if y < -1 {
            materials.dirt
        } else if y == -1 {
            materials.dirt_with_grass
        } else {
            materials.air
        }
    }

    /// Fills the chunk made of the blocks `blockindex_min ..= blockindex_max` in layers by
    /// height (see `layer_content`). The material ids are those `load` gave when the generator
    /// filled its first chunk; `load` is called only then. Row `k` of the chunk, the `k`-th of
    /// `chunk_rows` of its node range, starts at `row_starts[k]` in `data`.
    pub fn make_chunk(
        &mut self,
        blockindex_min: [i16; 3],
        blockindex_max: [i16; 3],
        row_starts: &[i32],
        load: impl FnOnce() -> Materials,
        data: &mut [u32],
    )
        requires
            old(self).spec_materials() is None ==> call_requires(load, ()),
            forall|k: int| 0 <= k < 3 ==> #[trigger] block_span_fits(blockindex_min[k], blockindex_max[k]),
            row_starts@.len() == span(
                block_first_node(blockindex_min[1] as int),
                block_last_node(blockindex_max[1] as int),
            ) * span(block_first_node(blockindex_min[2] as int), block_last_node(blockindex_max[2] as int)),
            forall|k: int|
                0 <= k < row_starts@.len() ==> 0 <= #[trigger] row_starts@[k] && row_starts@[k] + span(
                    block_first_node(blockindex_min[0] as int),
                    block_last_node(blockindex_max[0] as int),
                ) <= old(data)@.len(),
        ensures
            final(self).spec_id() == old(self).spec_id(),
            old(self).spec_materials() is Some ==> final(self).spec_materials() == old(self).spec_materials(),
            old(self).spec_materials() is None ==> final(self).spec_materials() is Some && call_ensures(
                load,
                (),
                final(self).spec_materials()->Some_0,
            ),
            final(self).spec_materials() is Some,
            final(data)@ == fill_rows(
                old(data)@,
                row_starts@,
                span(block_first_node(blockindex_min[0] as int), block_last_node(blockindex_max[0] as int))
                    as int,
                row_ids(
                    layered(
                        block_first_node(blockindex_min[1] as int),
                        block_last_node(blockindex_max[1] as int),
                        final(self).spec_materials()->Some_0,
                    ),
                    row_starts@.len(),
                ),
            ),
    {
        Materials::load_once(&mut self.materials, load);
        let materials = match &self.materials {
            Some(materials) => materials,
            None => {
                return;
            },
        };
        let (node_min, node_max) = node_range(blockindex_min, blockindex_max);
        let mut layers: Vec<u16> = Vec::new();
        let mut y: i32 = node_min[1] as i32;
        while y <= node_max[1] as i32
            invariant
                node_min[1] <= y,
                y <= node_max[1] + 1 || y == node_min[1],
                layers@ =~= layered(node_min[1] as int, y - 1, *materials),
            decreases node_max[1] + 1 - y,
        {
            layers.push(Self::material(y as i16, materials));
            y = y + 1;
        }
        if layers.len() == 0 {
            assert(row_starts@.len() == 0);
            assert(fill_rows(data@, row_starts@, 0, row_ids(layers@, 0)) == data@);
            return;
        }
        let width: usize = if node_min[0] <= node_max[0] {
            (node_max[0] as i32 - node_min[0] as i32 + 1) as usize
        } else {
            0
        };
        fill_chunk(data, row_starts, width, layers.as_slice());
    }
}

/// Every row of a node box gets the material of its own world height, wherever the box
/// starts: the `k`-th row (the order of `chunk_rows`) lies at height `y`, and its content is
/// stone below `-5`, dirt from `-5` to `-2`, grass at `-1` and air from `0` up.
pub proof fn law_layers_follow_world_height(node_min: [i16; 3], node_max: [i16; 3], materials: Materials, k: int)
    requires
        0 <= k < rows_of(node_min, node_max).len(),
    ensures
        ({
            let y = rows_of(node_min, node_max)[k][0] as int;
            let ids = row_ids(
                layered(node_min[1] as int, node_max[1] as int, materials),
                rows_of(node_min, node_max).len(),
            );
            &&& y == node_min[1] + k % (node_max[1] - node_min[1] + 1)
            &&& node_min[1] <= y <= node_max[1]
            &&& ids[k] == if y < -5 {
                materials.stone
            } else if y < -1 {
                materials.dirt
            } else if y == -1 {
                materials.dirt_with_grass
            } else {
                materials.air
            }
        }),
{
    let ny = span(node_min[1] as int, node_max[1] as int) as int;
    let nz = span(node_min[2] as int, node_max[2] as int) as int;
    if ny <= 0 || nz <= 0 {
        assert(ny * nz <= 0) by (nonlinear_arith)
            requires
                ny >= 0,
                nz >= 0,
                ny <= 0 || nz <= 0,
        ;
    }
    assert(ny == node_max[1] - node_min[1] + 1);
    vstd::arithmetic::div_mod::lemma_mod_bound(k, ny);
}

/// Over any run of `make_chunk` calls, the materials are loaded by the first call and kept by
/// every later one: `states[i]` are the materials before call `i` and `states[i + 1]` those after
/// it, as `make_chunk` states them, so every call from the first on sees the materials that the
/// first call loaded.
pub proof fn law_materials_loaded_once(states: Seq<Option<Materials>>)
    requires
        forall|i: int|
            0 <= i < states.len() - 1 ==> #[trigger] states[i + 1] is Some && (states[i] is Some ==> states[i
                + 1] == states[i]),
    ensures
        forall|j: int| 1 <= j < states.len() ==> #[trigger] states[j] == states[1],
    decreases states.len(),
{
    if states.len() > 2 {
        let shorter = states.drop_last();
        assert forall|i: int| 0 <= i < shorter.len() - 1 implies #[trigger] shorter[i + 1] is Some && (
        shorter[i] is Some ==> shorter[i + 1] == shorter[i]) by {
            assert(states[i + 1] is Some);
        }
        law_materials_loaded_once(shorter);
        let last = states.len() - 1;
        assert(states[(last - 2) + 1] is Some);
        assert(states[(last - 1) + 1] == states[last - 1]);
        assert forall|j: int| 1 <= j < states.len() implies #[trigger] states[j] == states[1] by {
            if j < last {
                assert(shorter[j] == states[j]);
            }
            assert(shorter[last - 1] == states[1]);
        }
    }
}

impl FromMapgenId for Generator {
    open spec fn mapgen_id(&self) -> MapgenId {
        self.spec_id()
    }

    fn from_mapgen_id(id: MapgenId) -> (r: Self) {
        Generator::new(id)
    }
}

} // verus!
