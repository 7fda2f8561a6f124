//! Geometry of the chunks the engine asks a map generator to fill, and the filling itself.
//!
//! A chunk is a box of map blocks of `MAP_BLOCKSIZE³` nodes each. The engine's voxel buffer holds
//! one 32-bit word per node; its low 16 bits are the node's content id (the layout of Luanti's
//! `MapNode` on little-endian machines), its high 16 bits two parameter bytes that filling keeps.
//! Each row of the chunk (fixed `y` and `z`) is contiguous in the buffer, starting at the index
//! that the engine's voxel area gives for the row's first node.

use vstd::prelude::*;

verus! {

/// Dimension of a MapBlock.
pub const MAP_BLOCKSIZE: i16 = 16;

/// A solid walkable node with the texture unknown_node.png. The engine shows it, for example,
/// for node ids it has no definition of.
pub const CONTENT_UNKNOWN: u16 = 125;

/// The common material through which the player can walk and which is transparent to light.
pub const CONTENT_AIR: u16 = 126;

/// Ignored node. Unloaded chunks are considered to consist of it; during map generation it means
/// that the node has not been set yet.
pub const CONTENT_IGNORE: u16 = 127;

/// The id that a lookup of a node name gave, or `CONTENT_UNKNOWN` where the name is unknown.
pub open spec fn id_or_unknown(found: Option<u16>) -> u16 {
    match found {
        Some(id) => id,
        None => CONTENT_UNKNOWN,
    }
}

/// The first node coordinate of block `b` along one axis.
pub open spec fn block_first_node(b: int) -> int {
    b * 16
}

/// The last node coordinate of block `b` along one axis.
pub open spec fn block_last_node(b: int) -> int {
    (b + 1) * 16 - 1
}

/// The node coordinates of blocks `min ..= max` along one axis fit in an `i16`.
pub open spec fn block_span_fits(min: i16, max: i16) -> bool {
    &&& i16::MIN <= block_first_node(min as int) <= i16::MAX
    &&& i16::MIN <= (max + 1) * 16 <= i16::MAX
    &&& i16::MIN <= block_last_node(max as int)
}

/// The number of values in the inclusive range `min ..= max`.
pub open spec fn span(min: int, max: int) -> nat {
    if min <= max { (max - min + 1) as nat } else { 0 }
}

/// The rows of the node box `min ..= max`: `z` outermost, then `y`, as `[y, z]`.
pub open spec fn rows_of(min: [i16; 3], max: [i16; 3]) -> Seq<[i16; 2]> {
    let ny = span(min[1] as int, max[1] as int);
    let nz = span(min[2] as int, max[2] as int);
    Seq::new(ny * nz, |k: int| [(min[1] + k % (ny as int)) as i16, (min[2] + k / (ny as int)) as i16])
}

/// A node word with its content id replaced and its parameter bytes kept.
pub open spec fn with_content(word: u32, id: u16) -> u32 {
    ((word as int / 0x10000) * 0x10000 + id) as u32
}

/// The content id of a node word.
pub open spec fn content_of(word: u32) -> u16 {
    (word as int % 0x10000) as u16
}

/// `data` with the content of the `width` nodes from `start` on set to `id`.
pub open spec fn fill_row(data: Seq<u32>, start: int, width: int, id: u16) -> Seq<u32> {
    Seq::new(
        data.len(),
        |i: int| if start <= i < start + width { with_content(data[i], id) } else { data[i] },
    )
}

/// `data` with rows filled one after the other: row `k` starts at `starts[k]`, spans `width`
/// nodes and receives `ids[k]`.
pub open spec fn fill_rows(data: Seq<u32>, starts: Seq<i32>, width: int, ids: Seq<u16>) -> Seq<u32>
    decreases starts.len(),
{
    if starts.len() == 0 || ids.len() == 0 {
        data
    } else {
        fill_row(
            fill_rows(data, starts.drop_last(), width, ids.drop_last()),
            starts.last() as int,
            width,
            ids.last(),
        )
    }
}

/// The content id of each row of a chunk whose rows run through the `layer_ids.len()` values of
/// `y` (innermost) for each `z`: every row at the `j`-th `y` gets `layer_ids[j]`.
pub open spec fn row_ids(layer_ids: Seq<u16>, rows: nat) -> Seq<u16> {
    Seq::new(rows, |k: int| layer_ids[k % (layer_ids.len() as int)])
}

/// Filling only ever writes content ids: the parameter bytes of every node are kept.
pub proof fn law_fill_keeps_parameters(data: Seq<u32>, starts: Seq<i32>, width: int, ids: Seq<u16>)
    ensures
        fill_rows(data, starts, width, ids).len() == data.len(),
        forall|i: int|
            0 <= i < data.len() ==> #[trigger] fill_rows(data, starts, width, ids)[i] as int / 0x10000
                == data[i] as int / 0x10000,
    decreases starts.len(),
{
    if starts.len() > 0 && ids.len() > 0 {
        law_fill_keeps_parameters(data, starts.drop_last(), width, ids.drop_last());
        let before = fill_rows(data, starts.drop_last(), width, ids.drop_last());
        assert forall|i: int| 0 <= i < data.len() implies #[trigger] fill_rows(data, starts, width, ids)[i] as int
            / 0x10000 == data[i] as int / 0x10000 by {
            let w = before[i];
            let id = ids.last();
            assert(with_content(w, id) as int / 0x10000 == w as int / 0x10000) by (bit_vector);
        }
    }
}

/// A node that lies in none of the rows keeps its word.
pub proof fn law_fill_outside_rows(data: Seq<u32>, starts: Seq<i32>, width: int, ids: Seq<u16>, i: int)
    requires
        0 <= i < data.len(),
        forall|k: int| 0 <= k < starts.len() ==> !(#[trigger] starts[k] <= i < starts[k] + width),
    ensures
        fill_rows(data, starts, width, ids)[i] == data[i],
    decreases starts.len(),
{
    if starts.len() > 0 && ids.len() > 0 {
        assert(!(starts[starts.len() - 1] <= i < starts[starts.len() - 1] + width));
        law_fill_outside_rows(data, starts.drop_last(), width, ids.drop_last(), i);
        law_fill_keeps_parameters(data, starts.drop_last(), width, ids.drop_last());
    }
}

/// Where no two rows overlap, every node of row `k` ends up with the content `ids[k]`.
pub proof fn law_fill_disjoint_rows(data: Seq<u32>, starts: Seq<i32>, width: int, ids: Seq<u16>, k: int, i: int)
    requires
        starts.len() == ids.len(),
        0 <= k < starts.len(),
        starts[k] <= i < starts[k] + width,
        0 <= i < data.len(),
        forall|a: int, b: int|
            0 <= a < b < starts.len() ==> #[trigger] starts[a] + width <= #[trigger] starts[b] || starts[b] + width <= starts[a],
    ensures
        content_of(fill_rows(data, starts, width, ids)[i]) == ids[k],
    decreases starts.len(),
{
    let last = starts.len() - 1;
    law_fill_keeps_parameters(data, starts.drop_last(), width, ids.drop_last());
    let before = fill_rows(data, starts.drop_last(), width, ids.drop_last());
    if k == last {
        let w = before[i];
        let id = ids.last();
        assert(content_of(with_content(w, id)) == id) by (bit_vector);
    } else {
        assert(starts[k] + width <= starts[last] || starts[last] + width <= starts[k]);
        law_fill_disjoint_rows(data, starts.drop_last(), width, ids.drop_last(), k, i);
    }
}

/// Whether the node coordinates of the blocks `min ..= max` along one axis fit in an `i16`, so
/// that `node_range` can compute them.
pub fn span_fits(min: i16, max: i16) -> (r: bool)
    ensures
        r == block_span_fits(min, max),
{
    let first: i32 = min as i32 * 16;
    let past: i32 = (max as i32 + 1) * 16;
    -32768 <= first && first <= 32767 && -32768 <= past && past <= 32767 && -32768 <= past - 1
}

/// The first and last node coordinates of the chunk made of the blocks `blockpos_min ..=
/// blockpos_max`.
pub fn node_range(blockpos_min: [i16; 3], blockpos_max: [i16; 3]) -> (r: ([i16; 3], [i16; 3]))
    requires
        forall|k: int| 0 <= k < 3 ==> #[trigger] block_span_fits(blockpos_min[k], blockpos_max[k]),
    ensures
        forall|k: int| 0 <= k < 3 ==> #[trigger] r.0[k] == block_first_node(blockpos_min[k] as int),
        forall|k: int| 0 <= k < 3 ==> #[trigger] r.1[k] == block_last_node(blockpos_max[k] as int),
{
    assert(block_span_fits(blockpos_min[0], blockpos_max[0]));
    assert(block_span_fits(blockpos_min[1], blockpos_max[1]));
    assert(block_span_fits(blockpos_min[2], blockpos_max[2]));
    let node_min = [
        blockpos_min[0] * MAP_BLOCKSIZE,
        blockpos_min[1] * MAP_BLOCKSIZE,
        blockpos_min[2] * MAP_BLOCKSIZE,
    ];
    let node_max = [
        (blockpos_max[0] + 1) * MAP_BLOCKSIZE - 1,
        (blockpos_max[1] + 1) * MAP_BLOCKSIZE - 1,
        (blockpos_max[2] + 1) * MAP_BLOCKSIZE - 1,
    ];
    assert(forall|k: int| 0 <= k < 3 ==> #[trigger] node_min[k] == block_first_node(blockpos_min[k] as int));
    assert(forall|k: int| 0 <= k < 3 ==> #[trigger] node_max[k] == block_last_node(blockpos_max[k] as int));
    (node_min, node_max)
}

/// The rows of the node box `node_min ..= node_max`, `z` outermost, then `y`, each as `[y, z]`.
/// The engine locates each row in its buffer by the row's first node `(node_min.x, y, z)`.
pub fn chunk_rows(node_min: [i16; 3], node_max: [i16; 3]) -> (r: Vec<[i16; 2]>)
    ensures
        r@ == rows_of(node_min, node_max),
{
    let ghost ny = span(node_min[1] as int, node_max[1] as int) as int;
    let ghost nz = span(node_min[2] as int, node_max[2] as int) as int;
    let ghost miny = node_min[1] as int;
    let ghost minz = node_min[2] as int;
    let mut rows: Vec<[i16; 2]> = Vec::new();
    let mut z: i32 = node_min[2] as i32;
    while z <= node_max[2] as i32
        invariant
            ny == span(node_min[1] as int, node_max[1] as int),
            nz == span(node_min[2] as int, node_max[2] as int),
            miny == node_min[1],
            minz == node_min[2],
            minz <= z <= node_max[2] + 1 || (z == minz && nz == 0),
            rows@.len() == (z - minz) * ny,
            forall|k: int| 0 <= k < rows@.len() ==> #[trigger] rows@[k] == [(miny + k % ny) as i16, (minz + k / ny) as i16],
        decreases node_max[2] + 1 - z,
    {
        let mut y: i32 = node_min[1] as i32;
        while y <= node_max[1] as i32
            invariant
                ny == span(node_min[1] as int, node_max[1] as int),
                miny == node_min[1],
                minz == node_min[2],
                minz <= z <= node_max[2],
                miny <= y,
                y <= node_max[1] + 1 || y == miny,
                rows@.len() == (z - minz) * ny + (y - miny),
                forall|k: int| 0 <= k < rows@.len() ==> #[trigger] rows@[k] == [(miny + k % ny) as i16, (minz + k / ny) as i16],
            decreases node_max[1] + 1 - y,
        {
            proof {
                vstd::arithmetic::div_mod::lemma_fundamental_div_mod_converse(rows@.len() as int, ny, z - minz, y - miny);
            }
            rows.push([y as i16, z as i16]);
            y = y + 1;
        }
        proof {
            if ny == 0 {
                assert(rows@.len() == 0);
            } else {
                assert(y == node_max[1] + 1);
                assert((z - minz) * ny + ny == (z + 1 - minz) * ny) by (nonlinear_arith);
            }
        }
        z = z + 1;
    }
    proof {
        if nz > 0 {
            assert(z == node_max[2] + 1);
            assert(z - minz == nz);
        } else {
            assert(rows@.len() == 0) by (nonlinear_arith)
                requires
                    rows@.len() == (z - minz) * ny,
                    z == minz,
            ;
        }
        assert(rows@.len() == ny * nz) by (nonlinear_arith)
            requires
                rows@.len() == (z - minz) * ny,
                nz == 0 || z - minz == nz,
                nz == 0 ==> rows@.len() == 0,
        ;
        assert(rows@ =~= rows_of(node_min, node_max));
    }
    rows
}

/// One row of a map block, as the walk over the blocks of a chunk meets it: the sixteen nodes
/// from `first` along `x`, in the block column `column` (block indices `[x, z]`), `z_in_block`
/// rows into its block.
#[derive(Clone, Copy, Debug, PartialEq, Eq)]
pub struct BlockRow {
    pub column: [i16; 2],
    pub first: [i16; 3],
    pub z_in_block: usize,
}

/// The `k`-th row of the walk over the blocks `min ..= max`: block columns by `z`, then by `x`;
/// within a column its blocks from the bottom up; within a block its rows by `z`, then by `y`.
pub open spec fn block_row_at(min: [i16; 3], max: [i16; 3], k: int) -> BlockRow {
    let nx = span(min[0] as int, max[0] as int) as int;
    let ny = span(min[1] as int, max[1] as int) as int;
    let y = k % 16;
    let z = (k / 16) % 16;
    let q = k / 16 / 16;
    let by = q % ny;
    let bx = (q / ny) % nx;
    let bz = q / ny / nx;
    BlockRow {
        column: [(min[0] + bx) as i16, (min[2] + bz) as i16],
        first: [
            ((min[0] + bx) * 16) as i16,
            ((min[1] + by) * 16 + y) as i16,
            ((min[2] + bz) * 16 + z) as i16,
        ],
        z_in_block: z as usize,
    }
}

/// The rows of the blocks `min ..= max` in the order of the walk (see `block_row_at`).
pub open spec fn block_rows_of(min: [i16; 3], max: [i16; 3]) -> Seq<BlockRow> {
    let nx = span(min[0] as int, max[0] as int);
    let ny = span(min[1] as int, max[1] as int);
    let nz = span(min[2] as int, max[2] as int);
    Seq::new(nz * nx * ny * 256, |k: int| block_row_at(min, max, k))
}

/// The position `(((a * nx + b) * ny + c) * 16 + d) * 16 + e` of the walk decodes into its
/// block column `(b, a)`, block `c`, row `d` and node height `e`.
proof fn lemma_walk_position(k: int, a: int, b: int, c: int, d: int, e: int, nx: int, ny: int)
    requires
        0 <= a,
        0 <= b < nx,
        0 <= c < ny,
        0 <= d < 16,
        0 <= e < 16,
        k == (((a * nx + b) * ny + c) * 16 + d) * 16 + e,
    ensures
        k % 16 == e,
        (k / 16) % 16 == d,
        (k / 16 / 16) % ny == c,
        (k / 16 / 16 / ny) % nx == b,
        k / 16 / 16 / ny / nx == a,
{
    let q0 = a * nx + b;
    let q1 = q0 * ny + c;
    let q2 = q1 * 16 + d;
    assert(0 <= q0) by (nonlinear_arith)
        requires
            0 <= a,
            0 <= b,
            0 < nx,
            q0 == a * nx + b,
    ;
    vstd::arithmetic::div_mod::lemma_fundamental_div_mod_converse(k, 16, q2, e);
    vstd::arithmetic::div_mod::lemma_fundamental_div_mod_converse(q2, 16, q1, d);
    vstd::arithmetic::div_mod::lemma_fundamental_div_mod_converse(q1, ny, q0, c);
    vstd::arithmetic::div_mod::lemma_fundamental_div_mod_converse(q0, nx, a, b);
}

/// The rows of the blocks `blockindex_min ..= blockindex_max`, in the order in which the layered
/// surface generator fills them (see `block_row_at`).
pub fn block_rows(blockindex_min: [i16; 3], blockindex_max: [i16; 3]) -> (r: Vec<BlockRow>)
    requires
        forall|k: int| 0 <= k < 3 ==> #[trigger] block_span_fits(blockindex_min[k], blockindex_max[k]),
    ensures
        r@ == block_rows_of(blockindex_min, blockindex_max),
{
    let ghost min = blockindex_min;
    let ghost max = blockindex_max;
    let ghost nx = span(min[0] as int, max[0] as int) as int;
    let ghost ny = span(min[1] as int, max[1] as int) as int;
    let ghost nz = span(min[2] as int, max[2] as int) as int;
    assert(block_span_fits(min[0], max[0]));
    assert(block_span_fits(min[1], max[1]));
    assert(block_span_fits(min[2], max[2]));
    let mut rows: Vec<BlockRow> = Vec::new();
    let mut bz: i32 = blockindex_min[2] as i32;
    assert(0 * nx * ny * 256 == 0) by (nonlinear_arith);
    while bz <= blockindex_max[2] as i32
        invariant
            min == blockindex_min,
            max == blockindex_max,
            nx == span(min[0] as int, max[0] as int),
            ny == span(min[1] as int, max[1] as int),
            nz == span(min[2] as int, max[2] as int),
            block_span_fits(min[0], max[0]),
            block_span_fits(min[1], max[1]),
            block_span_fits(min[2], max[2]),
            min[2] <= bz <= max[2] + 1 || (bz == min[2] && nz == 0),
            rows@.len() == (bz - min[2]) * nx * ny * 256,
            forall|k: int| 0 <= k < rows@.len() ==> #[trigger] rows@[k] == block_row_at(min, max, k),
        decreases max[2] + 1 - bz,
    {
        let ghost a = bz - min[2];
        let mut bx: i32 = blockindex_min[0] as i32;
        while bx <= blockindex_max[0] as i32
            invariant
                min == blockindex_min,
                max == blockindex_max,
                nx == span(min[0] as int, max[0] as int),
                ny == span(min[1] as int, max[1] as int),
                block_span_fits(min[0], max[0]),
                block_span_fits(min[1], max[1]),
                block_span_fits(min[2], max[2]),
                min[2] <= bz <= max[2],
                a == bz - min[2],
                min[0] <= bx <= max[0] + 1 || (bx == min[0] && nx == 0),
                rows@.len() == (a * nx + (bx - min[0])) * ny * 256,
                forall|k: int| 0 <= k < rows@.len() ==> #[trigger] rows@[k] == block_row_at(min, max, k),
            decreases max[0] + 1 - bx,
        {
            let ghost b = bx - min[0];
            let mut by: i32 = blockindex_min[1] as i32;
            while by <= blockindex_max[1] as i32
                invariant
                    min == blockindex_min,
                    max == blockindex_max,
                    nx == span(min[0] as int, max[0] as int),
                    ny == span(min[1] as int, max[1] as int),
                    block_span_fits(min[0], max[0]),
                    block_span_fits(min[1], max[1]),
                    block_span_fits(min[2], max[2]),
                    min[2] <= bz <= max[2],
                    min[0] <= bx <= max[0],
                    a == bz - min[2],
                    b == bx - min[0],
                    min[1] <= by <= max[1] + 1 || (by == min[1] && ny == 0),
                    rows@.len() == ((a * nx + b) * ny + (by - min[1])) * 256,
                    forall|k: int| 0 <= k < rows@.len() ==> #[trigger] rows@[k] == block_row_at(min, max, k),
                decreases max[1] + 1 - by,
            {
                let ghost c = by - min[1];
                let mut z: i32 = 0;
                while z < 16
                    invariant
                        min == blockindex_min,
                        max == blockindex_max,
                        nx == span(min[0] as int, max[0] as int),
                        ny == span(min[1] as int, max[1] as int),
                        block_span_fits(min[0], max[0]),
                        block_span_fits(min[1], max[1]),
                        block_span_fits(min[2], max[2]),
                        min[2] <= bz <= max[2],
                        min[0] <= bx <= max[0],
                        min[1] <= by <= max[1],
                        a == bz - min[2],
                        b == bx - min[0],
                        c == by - min[1],
                        0 <= z <= 16,
                        rows@.len() == (((a * nx + b) * ny + c) * 16 + z) * 16,
                        forall|k: int| 0 <= k < rows@.len() ==> #[trigger] rows@[k] == block_row_at(min, max, k),
                    decreases 16 - z,
                {
                    let mut y: i32 = 0;
                    while y < 16
                        invariant
                            min == blockindex_min,
                            max == blockindex_max,
                            nx == span(min[0] as int, max[0] as int),
                            ny == span(min[1] as int, max[1] as int),
                            block_span_fits(min[0], max[0]),
                            block_span_fits(min[1], max[1]),
                            block_span_fits(min[2], max[2]),
                            min[2] <= bz <= max[2],
                            min[0] <= bx <= max[0],
                            min[1] <= by <= max[1],
                            a == bz - min[2],
                            b == bx - min[0],
                            c == by - min[1],
                            0 <= z < 16,
                            0 <= y <= 16,
                            rows@.len() == (((a * nx + b) * ny + c) * 16 + z) * 16 + y,
                            forall|k: int| 0 <= k < rows@.len() ==> #[trigger] rows@[k] == block_row_at(min, max, k),
                        decreases 16 - y,
                    {
                        let row = BlockRow {
                            column: [bx as i16, bz as i16],
                            first: [(bx * 16) as i16, (by * 16 + y) as i16, (bz * 16 + z) as i16],
                            z_in_block: z as usize,
                        };
                        proof {
                            lemma_walk_position(rows@.len() as int, a, b, c, z as int, y as int, nx, ny);
                        }
                        rows.push(row);
                        y = y + 1;
                    }
                    z = z + 1;
                }
                by = by + 1;
            }
            proof {
                assert(((a * nx + b) * ny + ny) * 256 == (a * nx + b + 1) * ny * 256) by (nonlinear_arith);
            }
            bx = bx + 1;
        }
        proof {
            assert((a * nx + nx) * ny * 256 == (a + 1) * nx * ny * 256) by (nonlinear_arith);
        }
        bz = bz + 1;
    }
    proof {
        assert(rows@.len() == nz * nx * ny * 256) by (nonlinear_arith)
            requires
                rows@.len() == (bz - min[2]) * nx * ny * 256,
                bz - min[2] == nz,
        ;
    }
    assert(rows@ =~= block_rows_of(min, max));
    rows
}

/// Positions of the walk stay below its length, and every position below it decodes into a
/// block column, block, row and height within the ranges.
proof fn lemma_walk_bounds(k: int, nx: int, ny: int, nz: int)
    requires
        0 < nx,
        0 < ny,
        0 < nz,
        0 <= k < nz * nx * ny * 256,
    ensures
        0 <= k / 16 / 16 / ny / nx < nz,
        0 <= (k / 16 / 16 / ny) % nx < nx,
        0 <= (k / 16 / 16) % ny < ny,
        0 <= (k / 16) % 16 < 16,
        0 <= k % 16 < 16,
        k == ((((k / 16 / 16 / ny / nx) * nx + (k / 16 / 16 / ny) % nx) * ny + (k / 16 / 16) % ny) * 16 + (k / 16)
            % 16) * 16 + k % 16,
{
    let q1 = k / 16;
    let q2 = q1 / 16;
    let q3 = q2 / ny;
    let a = q3 / nx;
    vstd::arithmetic::div_mod::lemma_fundamental_div_mod(k, 16);
    vstd::arithmetic::div_mod::lemma_fundamental_div_mod(q1, 16);
    vstd::arithmetic::div_mod::lemma_fundamental_div_mod(q2, ny);
    vstd::arithmetic::div_mod::lemma_fundamental_div_mod(q3, nx);
    vstd::arithmetic::div_mod::lemma_mod_bound(k, 16);
    vstd::arithmetic::div_mod::lemma_mod_bound(q1, 16);
    vstd::arithmetic::div_mod::lemma_mod_bound(q2, ny);
    vstd::arithmetic::div_mod::lemma_mod_bound(q3, nx);
    vstd::arithmetic::div_mod::lemma_div_pos_is_pos(k, 16);
    vstd::arithmetic::div_mod::lemma_div_pos_is_pos(q1, 16);
    vstd::arithmetic::div_mod::lemma_div_pos_is_pos(q2, ny);
    vstd::arithmetic::div_mod::lemma_div_pos_is_pos(q3, nx);
    if a >= nz {
        assert(k >= nz * nx * ny * 256) by (nonlinear_arith)
            requires
                k == q1 * 16 + k % 16,
                q1 == q2 * 16 + q1 % 16,
                q2 == ny * q3 + q2 % ny,
                q3 == nx * a + q3 % nx,
                a >= nz,
                k % 16 >= 0,
                q1 % 16 >= 0,
                q2 % ny >= 0,
                q3 % nx >= 0,
                nx > 0,
                ny > 0,
        ;
    }
    assert(q2 == q3 * ny + q2 % ny) by (nonlinear_arith)
        requires
            q2 == ny * q3 + q2 % ny,
    ;
    assert(q3 == a * nx + q3 % nx) by (nonlinear_arith)
        requires
            q3 == nx * a + q3 % nx,
    ;
}

/// The walk over the blocks `min ..= max` meets every row of them exactly once: the row of
/// height `y` and depth `z` of the block `(bx, by, bz)` comes at position
/// `(((bz - min.z) * nx + (bx - min.x)) * ny + (by - min.y)) * 256 + z * 16 + y`, with its block
/// column, first node and depth in its block as stated, where `nx`, `ny`, `nz` count the
/// blocks along each axis and the walk has `nx * ny * nz * 256` rows.
pub proof fn law_block_rows_cover_each_row(
    min: [i16; 3],
    max: [i16; 3],
    rows: Seq<BlockRow>,
    bx: int,
    by: int,
    bz: int,
    z: int,
    y: int,
)
    requires
        forall|k: int| 0 <= k < 3 ==> #[trigger] block_span_fits(min[k], max[k]),
        rows == block_rows_of(min, max),
        min[0] <= bx <= max[0],
        min[1] <= by <= max[1],
        min[2] <= bz <= max[2],
        0 <= z < 16,
        0 <= y < 16,
    ensures
        ({
            let nx = max[0] - min[0] + 1;
            let ny = max[1] - min[1] + 1;
            let nz = max[2] - min[2] + 1;
            let k = (((bz - min[2]) * nx + (bx - min[0])) * ny + (by - min[1])) * 256 + z * 16 + y;
            &&& rows.len() == nx * ny * nz * 256
            &&& 0 <= k < rows.len()
            &&& rows[k].column[0] == bx
            &&& rows[k].column[1] == bz
            &&& rows[k].first[0] == bx * 16
            &&& rows[k].first[1] == by * 16 + y
            &&& rows[k].first[2] == bz * 16 + z
            &&& rows[k].z_in_block == z
        }),
{
    let nx = max[0] - min[0] + 1;
    let ny = max[1] - min[1] + 1;
    let nz = max[2] - min[2] + 1;
    assert(block_span_fits(min[0], max[0]));
    assert(block_span_fits(min[1], max[1]));
    assert(block_span_fits(min[2], max[2]));
    let a = bz - min[2];
    let b = bx - min[0];
    let c = by - min[1];
    let k = (((a * nx + b) * ny + c) * 16 + z) * 16 + y;
    assert(k == (((bz - min[2]) * nx + (bx - min[0])) * ny + (by - min[1])) * 256 + z * 16 + y);
    assert(rows.len() == nz * nx * ny * 256);
    assert(nz * nx * ny * 256 == nx * ny * nz * 256) by (nonlinear_arith);
    assert(0 <= k < nz * nx * ny * 256) by (nonlinear_arith)
        requires
            0 <= a < nz,
            0 <= b < nx,
            0 <= c < ny,
            0 <= z < 16,
            0 <= y < 16,
            k == (((a * nx + b) * ny + c) * 16 + z) * 16 + y,
    ;
    lemma_walk_position(k, a, b, c, z, y, nx, ny);
    assert(rows[k] == block_row_at(min, max, k));
}

/// No row comes twice in the walk over the blocks `min ..= max`: rows at different positions
/// differ.
pub proof fn law_block_rows_are_distinct(min: [i16; 3], max: [i16; 3], rows: Seq<BlockRow>, k1: int, k2: int)
    requires
        forall|k: int| 0 <= k < 3 ==> #[trigger] block_span_fits(min[k], max[k]),
        rows == block_rows_of(min, max),
        0 <= k1 < rows.len(),
        0 <= k2 < rows.len(),
        rows[k1] == rows[k2],
    ensures
        k1 == k2,
{
    let nx = span(min[0] as int, max[0] as int) as int;
    let ny = span(min[1] as int, max[1] as int) as int;
    let nz = span(min[2] as int, max[2] as int) as int;
    assert(block_span_fits(min[0], max[0]));
    assert(block_span_fits(min[1], max[1]));
    assert(block_span_fits(min[2], max[2]));
    assert(rows.len() == nz * nx * ny * 256);
    if nx <= 0 || ny <= 0 || nz <= 0 {
        assert(nz * nx * ny * 256 <= 0) by (nonlinear_arith)
            requires
                nx >= 0,
                ny >= 0,
                nz >= 0,
                nx <= 0 || ny <= 0 || nz <= 0,
        ;
    } else {
        lemma_walk_bounds(k1, nx, ny, nz);
        lemma_walk_bounds(k2, nx, ny, nz);
        let r1 = block_row_at(min, max, k1);
        let r2 = block_row_at(min, max, k2);
        assert(rows[k1] == r1);
        assert(rows[k2] == r2);
        // the block column, the depth and the height recover every part of the position
        assert(r1.column[0] == r2.column[0]);
        assert(r1.column[1] == r2.column[1]);
        assert(r1.z_in_block == r2.z_in_block);
        assert(r1.first[1] == r2.first[1]);
        let y1 = k1 % 16;
        let y2 = k2 % 16;
        let c1 = (k1 / 16 / 16) % ny;
        let c2 = (k2 / 16 / 16) % ny;
        assert((min[1] + c1) * 16 + y1 == (min[1] + c2) * 16 + y2);
        vstd::arithmetic::div_mod::lemma_fundamental_div_mod_converse((min[1] + c1) * 16 + y1, 16, min[1] + c1, y1);
        vstd::arithmetic::div_mod::lemma_fundamental_div_mod_converse((min[1] + c2) * 16 + y2, 16, min[1] + c2, y2);
    }
}

/// `data` with the content of the sixteen nodes from `start` on set to `ids`, in order.
pub open spec fn write_row(data: Seq<u32>, start: int, ids: [u16; 16]) -> Seq<u32> {
    Seq::new(
        data.len(),
        |i: int| if start <= i < start + 16 { with_content(data[i], ids@[i - start]) } else { data[i] },
    )
}

/// `data` with rows written one after the other: row `k` starts at `starts[k]` and receives the
/// ids `ids[k]`.
pub open spec fn write_rows(data: Seq<u32>, starts: Seq<i32>, ids: Seq<[u16; 16]>) -> Seq<u32>
    decreases starts.len(),
{
    if starts.len() == 0 || ids.len() == 0 {
        data
    } else {
        write_row(write_rows(data, starts.drop_last(), ids.drop_last()), starts.last() as int, ids.last())
    }
}

/// Writing rows only ever writes content ids: the parameter bytes of every node are kept.
pub proof fn law_write_keeps_parameters(data: Seq<u32>, starts: Seq<i32>, ids: Seq<[u16; 16]>)
    ensures
        write_rows(data, starts, ids).len() == data.len(),
        forall|i: int|
            0 <= i < data.len() ==> #[trigger] write_rows(data, starts, ids)[i] as int / 0x10000 == data[i] as int
                / 0x10000,
    decreases starts.len(),
{
    if starts.len() > 0 && ids.len() > 0 {
        law_write_keeps_parameters(data, starts.drop_last(), ids.drop_last());
        let before = write_rows(data, starts.drop_last(), ids.drop_last());
        let start = starts.last() as int;
        assert forall|i: int| 0 <= i < data.len() implies #[trigger] write_rows(data, starts, ids)[i] as int
            / 0x10000 == data[i] as int / 0x10000 by {
            if start <= i < start + 16 {
                let w = before[i];
                let id = ids.last()@[i - start];
                assert(with_content(w, id) as int / 0x10000 == w as int / 0x10000) by (bit_vector);
            }
        }
    }
}

/// A node that lies in none of the written rows keeps its word.
pub proof fn law_write_outside_rows(data: Seq<u32>, starts: Seq<i32>, ids: Seq<[u16; 16]>, i: int)
    requires
        0 <= i < data.len(),
        forall|k: int| 0 <= k < starts.len() ==> !(#[trigger] starts[k] <= i < starts[k] + 16),
    ensures
        write_rows(data, starts, ids)[i] == data[i],
    decreases starts.len(),
{
    if starts.len() > 0 && ids.len() > 0 {
        assert(!(starts[starts.len() - 1] <= i < starts[starts.len() - 1] + 16));
        law_write_outside_rows(data, starts.drop_last(), ids.drop_last(), i);
        law_write_keeps_parameters(data, starts.drop_last(), ids.drop_last());
    }
}

/// Where no two rows overlap, node `j` of row `k` ends up with the content `ids[k][j]`.
pub proof fn law_write_disjoint_rows(data: Seq<u32>, starts: Seq<i32>, ids: Seq<[u16; 16]>, k: int, j: int)
    requires
        starts.len() == ids.len(),
        0 <= k < starts.len(),
        0 <= j < 16,
        0 <= starts[k] + j < data.len(),
        forall|a: int, b: int|
            0 <= a < b < starts.len() ==> #[trigger] starts[a] + 16 <= #[trigger] starts[b] || starts[b] + 16
                <= starts[a],
    ensures
        content_of(write_rows(data, starts, ids)[starts[k] + j]) == ids[k]@[j],
    decreases starts.len(),
{
    let last = starts.len() - 1;
    law_write_keeps_parameters(data, starts.drop_last(), ids.drop_last());
    let before = write_rows(data, starts.drop_last(), ids.drop_last());
    if k == last {
        let w = before[starts[k] + j];
        let id = ids.last()@[j];
        assert(content_of(with_content(w, id)) == id) by (bit_vector);
    } else {
        assert(starts[k] + 16 <= starts[last] || starts[last] + 16 <= starts[k]);
        law_write_disjoint_rows(data, starts.drop_last(), ids.drop_last(), k, j);
    }
}

/// Writes the content ids of rows of sixteen nodes: row `k` starts at `row_starts[k]` in
/// `data` and its nodes receive `row_ids[k]`, in order.
pub fn write_block_rows(data: &mut [u32], row_starts: &[i32], row_ids: &[[u16; 16]])
    requires
        row_ids@.len() == row_starts@.len(),
        forall|k: int|
            0 <= k < row_starts@.len() ==> 0 <= #[trigger] row_starts@[k] && row_starts@[k] + 16 <= old(
                data,
            )@.len(),
    ensures
        final(data)@ == write_rows(old(data)@, row_starts@, row_ids@),
{
    let ghost d0 = data@;
    let len = data.len();
    let n = row_starts.len();
    for k in 0..n
        invariant
            n == row_starts@.len(),
            row_ids@.len() == n,
            data@.len() == d0.len(),
            d0.len() == len,
            forall|k: int|
                0 <= k < row_starts@.len() ==> 0 <= #[trigger] row_starts@[k] && row_starts@[k] + 16 <= d0.len(),
            data@ == write_rows(d0, row_starts@.take(k as int), row_ids@.take(k as int)),
    {
        let start = row_starts[k] as usize;
        let ids = row_ids[k];
        let ghost before = data@;
        for j in 0..16usize
            invariant
                data@.len() == before.len(),
                before.len() == d0.len(),
                d0.len() == len,
                start + 16 <= d0.len(),
                forall|i: int|
                    0 <= i < before.len() ==> #[trigger] data@[i] == if start <= i < start + j {
                        with_content(before[i], ids@[i - start])
                    } else {
                        before[i]
                    },
        {
            let i = start + j;
            data[i] = set_content(data[i], ids[j]);
        }
        proof {
            assert(row_starts@.take(k + 1).drop_last() =~= row_starts@.take(k as int));
            assert(row_ids@.take(k + 1).drop_last() =~= row_ids@.take(k as int));
            assert(data@ =~= write_row(before, start as int, ids));
        }
    }
    proof {
        assert(row_starts@.take(n as int) =~= row_starts@);
        assert(row_ids@.take(n as int) =~= row_ids@);
    }
}

/// The node word `word` with its content id replaced by `id`.
pub fn set_content(word: u32, id: u16) -> (r: u32)
    ensures
        r == with_content(word, id),
        content_of(r) == id,
{
    assert((word & 0xffff0000u32) | (id as u32) == ((word / 0x10000) * 0x10000 + id) as u32) by (bit_vector);
    assert(((((word / 0x10000) * 0x10000 + id) as u32) % 0x10000) as u16 == id) by (bit_vector);
    (word & 0xffff_0000) | (id as u32)
}

/// Writes the content id of every node of a chunk. Row `k` of the chunk starts at
/// `row_starts[k]` in `data` and spans `width` nodes; the rows run through the `y` values of the
/// chunk (innermost) for each `z`, and every row at the `j`-th `y` receives `layer_ids[j]`.
pub fn fill_chunk(data: &mut [u32], row_starts: &[i32], width: usize, layer_ids: &[u16])
    requires
        layer_ids@.len() > 0,
        forall|k: int|
            0 <= k < row_starts@.len() ==> 0 <= #[trigger] row_starts@[k] && row_starts@[k] + width <= old(
                data,
            )@.len(),
    ensures
        final(data)@ == fill_rows(old(data)@, row_starts@, width as int, row_ids(layer_ids@, row_starts@.len())),
{
    let ghost d0 = data@;
    let len = data.len();
    let n = row_starts.len();
    let layers = layer_ids.len();
    for k in 0..n
        invariant
            n == row_starts@.len(),
            layers == layer_ids@.len(),
            layers > 0,
            data@.len() == d0.len(),
            d0.len() == len,
            forall|k: int|
                0 <= k < row_starts@.len() ==> 0 <= #[trigger] row_starts@[k] && row_starts@[k] + width <= d0.len(),
            data@ == fill_rows(d0, row_starts@.take(k as int), width as int, row_ids(layer_ids@, k as nat)),
    {
        let start = row_starts[k] as usize;
        let id = layer_ids[k % layers];
        let ghost before = data@;
        for j in 0..width
            invariant
                data@.len() == before.len(),
                before.len() == d0.len(),
                d0.len() == len,
                start + width <= d0.len(),
                forall|i: int|
                    0 <= i < before.len() ==> #[trigger] data@[i] == if start <= i < start + j {
                        with_content(before[i], id)
                    } else {
                        before[i]
                    },
        {
            let i = start + j;
            data[i] = set_content(data[i], id);
        }
        proof {
            assert(row_starts@.take(k + 1).drop_last() =~= row_starts@.take(k as int));
            assert(row_ids(layer_ids@, (k + 1) as nat).drop_last() =~= row_ids(layer_ids@, k as nat));
            assert(data@ =~= fill_row(before, start as int, width as int, id));
        }
    }
    proof {
        assert(row_starts@.take(n as int) =~= row_starts@);
    }
}

} // verus!
