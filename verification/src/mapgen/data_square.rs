//! A square 2D array whose side is a power of two and whose coordinates wrap around at the
//! edges, so that every pair of `u16` coordinates addresses a cell.

use vstd::prelude::*;
use vstd::std_specs::iter::IteratorSpec;
use vstd::arithmetic::power2::pow2;
use crate::decimal::{decimal, push_decimal};
use crate::mapgen::torus::{
    side, reach, wrapped_offset, lemma_side, lemma_mask_is_mod, lemma_truncated_mask,
    lemma_wrapped_offset_bounds, lemma_wrapped_offset_injective, lemma_row_or_col, lemma_square_len,
    lemma_mod_u16_range, lemma_u16_window_coordinate, lemma_u16_step,
};
use vstd::string::StringExecFns;

verus! {

/// A square of `2^SIZE_BITS × 2^SIZE_BITS` values stored row by row.
pub struct DataSquare<T, const SIZE_BITS: u32> {
    data: Vec<T>,
}

/// Access to a square map by coordinates that wrap around at the edges.
pub trait GetWrapping {
    type Item: Copy;

    /// The map is in a state in which it can be read.
    spec fn well_formed(&self) -> bool;

    /// The value at `(x, y)`, where both coordinates wrap around at the edges of the map.
    spec fn item_at(&self, x: int, y: int) -> Self::Item;

    /// The value at `xy`.
    fn get(&self, xy: [u16; 2]) -> (r: Self::Item)
        requires
            self.well_formed(),
        ensures
            r == self.item_at(xy[0] as int, xy[1] as int),
    ;

    /// The values at `xy` and its right, lower and lower-right neighbours, in row order.
    fn get_2x2(&self, xy: [u16; 2]) -> (r: [Self::Item; 4])
        requires
            self.well_formed(),
        ensures
            r@ == seq![
                self.item_at(xy[0] as int, xy[1] as int),
                self.item_at(xy[0] + 1, xy[1] as int),
                self.item_at(xy[0] as int, xy[1] + 1),
                self.item_at(xy[0] + 1, xy[1] + 1),
            ],
    ;

    /// The 3×3 neighbourhood centred on `xy`, in row order.
    fn get_3x3(&self, xy: [u16; 2]) -> (r: [Self::Item; 9])
        requires
            self.well_formed(),
        ensures
            r@ == seq![
                self.item_at(xy[0] - 1, xy[1] - 1),
                self.item_at(xy[0] as int, xy[1] - 1),
                self.item_at(xy[0] + 1, xy[1] - 1),
                self.item_at(xy[0] - 1, xy[1] as int),
                self.item_at(xy[0] as int, xy[1] as int),
                self.item_at(xy[0] + 1, xy[1] as int),
                self.item_at(xy[0] - 1, xy[1] + 1),
                self.item_at(xy[0] as int, xy[1] + 1),
                self.item_at(xy[0] + 1, xy[1] + 1),
            ],
    ;
}

impl<T, const SIZE_BITS: u32> View for DataSquare<T, SIZE_BITS> {
    type V = Seq<T>;

    closed spec fn view(&self) -> Seq<T> {
        self.data@
    }
}

impl<T, const SIZE_BITS: u32> DataSquare<T, SIZE_BITS> {
    /// Width and height of the square.
    pub open spec fn spec_size() -> nat {
        side(SIZE_BITS)
    }

    /// The number of distinct values a coordinate takes once wrapped: the side, or the `2^16`
    /// values of a `u16` coordinate where the square is wider than that.
    pub open spec fn spec_reach() -> nat {
        reach(SIZE_BITS)
    }

    /// Number of cells of the square.
    pub open spec fn spec_len() -> nat {
        Self::spec_size() * Self::spec_size()
    }

    /// Index in the row-major storage of the cell at `(x, y)`, both coordinates wrapping around
    /// at the reach.
    pub open spec fn spec_offset(x: int, y: int) -> int {
        wrapped_offset(Self::spec_reach() as int, Self::spec_size() as int, x, y)
    }

    /// The side fits a `u32`, and every storage index that wrapped coordinates reach fits a
    /// `usize`.
    pub open spec fn addressable() -> bool {
        &&& SIZE_BITS < 32
        &&& if SIZE_BITS <= 16 {
            2 * SIZE_BITS <= usize::BITS
        } else {
            16 + SIZE_BITS <= usize::BITS
        }
    }

    /// The number of cells fits in a `usize`.
    pub open spec fn countable() -> bool {
        2 * SIZE_BITS < usize::BITS
    }

    /// The number of cells fits in a `usize` and the storage holds exactly one value per cell.
    pub open spec fn wf(&self) -> bool {
        &&& Self::countable()
        &&& self@.len() == Self::spec_len()
    }

    /// Every cell holds a clone of `d`.
    pub open spec fn filled_with(&self, d: T) -> bool
        where
            T: Clone,
    {
        forall|i: int| 0 <= i < self@.len() ==> cloned(d, #[trigger] self@[i])
    }

    /// The value at `(x, y)`, coordinates wrapping around.
    pub open spec fn cell(&self, x: int, y: int) -> T {
        self@[Self::spec_offset(x, y)]
    }

    /// A square whose cells can be counted can be addressed.
    proof fn lemma_countable_addressable()
        requires
            Self::countable(),
        ensures
            Self::addressable(),
    {
    }

    /// The storage indices that wrapped coordinates reach fit in a `usize`.
    proof fn lemma_addressable()
        requires
            Self::addressable(),
        ensures
            Self::spec_reach() * Self::spec_size() <= usize::MAX + 1,
            0 < Self::spec_reach() <= Self::spec_size(),
            SIZE_BITS < usize::BITS,
    {
        lemma_side(SIZE_BITS);
        vstd::arithmetic::power2::lemma2_to64();
        let b = SIZE_BITS as nat;
        let top: nat = if usize::BITS == 32 { 32 } else { 64 };
        assert(pow2(top) == usize::MAX + 1);
        if SIZE_BITS <= 16 {
            vstd::arithmetic::power2::lemma_pow2_adds(b, b);
            if b + b < top {
                vstd::arithmetic::power2::lemma_pow2_strictly_increases(b + b, top);
            }
        } else {
            vstd::arithmetic::power2::lemma_pow2_adds(16, b);
            if 16 + b < top {
                vstd::arithmetic::power2::lemma_pow2_strictly_increases(16 + b, top);
            }
        }
    }

    /// Width and height of the 2D-array.
    pub fn size() -> (r: u32)
        requires
            SIZE_BITS < 32,
        ensures
            r == Self::spec_size(),
    {
        proof { lemma_side(SIZE_BITS); }
        1u32 << SIZE_BITS
    }

    /// Bit-mask to wrap x and y so that they are guaranteed to be in bounds.
    pub fn size_mask() -> (r: u16)
        requires
            SIZE_BITS < 32,
        ensures
            r == Self::spec_reach() - 1,
    {
        proof {
            lemma_side(SIZE_BITS);
            lemma_truncated_mask(SIZE_BITS);
        }
        ((1u32 << SIZE_BITS) - 1) as u16
    }

    /// Total number of data points within the array.
    pub fn cell_count() -> (r: usize)
        requires
            Self::countable(),
        ensures
            r == Self::spec_len(),
    {
        proof { lemma_square_len(SIZE_BITS); }
        1usize << ((SIZE_BITS * 2) as usize)
    }

    /// Number of right shifts that map a world coordinate onto this square.
    pub fn world_shift() -> (r: u32)
        requires
            SIZE_BITS <= 16,
        ensures
            r == 16 - SIZE_BITS,
    {
        16 - SIZE_BITS
    }

    /// Create a new square with every cell a clone of `fill`.
    pub fn new(fill: T) -> (r: Self)
        where
            T: Clone,
        requires
            SIZE_BITS <= 16,
            Self::countable(),
        ensures
            r.wf(),
            forall|i: int| 0 <= i < Self::spec_len() ==> cloned(fill, #[trigger] r@[i]),
    {
        let len = Self::cell_count();
        DataSquare { data: vec![fill; len] }
    }

    /// A square with every cell holding `T::default()`.
    pub fn default() -> (r: Self)
        where
            T: Default + Clone,
        requires
            SIZE_BITS <= 16,
            Self::countable(),
        ensures
            r.wf(),
            exists|d: T| call_ensures(T::default, (), d) && #[trigger] r.filled_with(d),
    {
        let d = T::default();
        let r = Self::new(d);
        assert(r.filled_with(d));
        r
    }

    /// The number of values of the square, available from an instance.
    pub fn len(&self) -> (r: usize)
        requires
            self.wf(),
        ensures
            r == Self::spec_len(),
    {
        Self::cell_count()
    }

    /// Storage index of the cell `(x, y)`.
    pub fn offset(x: u16, y: u16) -> (r: usize)
        requires
            Self::addressable(),
        ensures
            r == Self::spec_offset(x as int, y as int),
            r < Self::spec_len(),
    {
        let row = Self::row_offset(y);
        let col = Self::col_offset(x);
        proof { Self::lemma_row_col(row, col, x as int, y as int); }
        row | col
    }

    /// Storage index of the first cell of the row holding `y`.
    pub fn row_offset(y: u16) -> (r: usize)
        requires
            Self::addressable(),
        ensures
            r == (y as int % (Self::spec_reach() as int)) * Self::spec_size(),
    {
        let w = Self::wrap(y) as usize;
        proof {
            Self::lemma_addressable();
            lemma_side(SIZE_BITS);
            let rr = Self::spec_reach() as int;
            let ss = Self::spec_size() as int;
            assert((w + 1) * ss <= rr * ss) by (nonlinear_arith)
                requires
                    w + 1 <= rr,
                    ss > 0,
            ;
            lemma_row_or_col(w, 0, SIZE_BITS);
        }
        w << (SIZE_BITS as usize)
    }

    /// Position within its row of the column holding `x`.
    pub fn col_offset(x: u16) -> (r: usize)
        requires
            SIZE_BITS < 32,
        ensures
            r == x as int % (Self::spec_reach() as int),
    {
        Self::wrap(x) as usize
    }

    /// `x` wrapped into the range of the square.
    pub fn wrap(x: u16) -> (r: u16)
        requires
            SIZE_BITS < 32,
        ensures
            r == x as int % (Self::spec_reach() as int),
    {
        let mask = Self::size_mask();
        proof { lemma_mask_is_mod(x, mask, SIZE_BITS); }
        x & mask
    }

    /// Iterate over all values, row by row.
    pub fn iter(&self) -> (r: std::slice::Iter<'_, T>)
        ensures
            r.remaining() == self@.as_ref(),
    {
        self.data.as_slice().iter()
    }

    /// Iterate mutably over all values, row by row. Values are written in place: the square
    /// keeps its size, and stays well-formed where it was.
    pub fn iter_mut(&mut self) -> (r: std::slice::IterMut<'_, T>)
        ensures
            final(self)@.len() == old(self)@.len(),
            old(self).wf() ==> final(self).wf(),
    {
        crate::specs::slice_iter_mut(self.data.as_mut_slice())
    }

    /// Replaces every value, row by row, with `update` applied to it: the in-place
    /// counterpart of `clone_with`, for what `iter_mut` is used for.
    pub fn update_each(&mut self, update: impl Fn(&T) -> T)
        requires
            forall|i: int| 0 <= i < old(self)@.len() ==> call_requires(update, (&#[trigger] old(self)@[i],)),
        ensures
            final(self)@.len() == old(self)@.len(),
            forall|i: int|
                0 <= i < old(self)@.len() ==> call_ensures(update, (&#[trigger] old(self)@[i],), final(self)@[i]),
    {
        let ghost before = self@;
        let n = self.data.len();
        for i in 0..n
            invariant
                n == before.len(),
                self@.len() == n,
                forall|k: int| 0 <= k < before.len() ==> call_requires(update, (&#[trigger] before[k],)),
                forall|k: int| 0 <= k < i ==> call_ensures(update, (&#[trigger] before[k],), self@[k]),
                forall|k: int| i <= k < n ==> #[trigger] self@[k] == before[k],
        {
            let value = update(&self.data[i]);
            self.data.set(i, value);
        }
    }

    /// A new square of the same size holding `map` applied to each value.
    pub fn clone_with(&self, map: impl Fn(&T) -> T) -> (r: Self)
        requires
            self.wf(),
            forall|i: int| 0 <= i < self@.len() ==> call_requires(map, (&#[trigger] self@[i],)),
        ensures
            r.wf(),
            forall|i: int| 0 <= i < self@.len() ==> call_ensures(map, (&#[trigger] self@[i],), r@[i]),
    {
        let n = self.data.len();
        let mut data: Vec<T> = Vec::with_capacity(n);
        for i in 0..n
            invariant
                n == self@.len(),
                forall|k: int| 0 <= k < self@.len() ==> call_requires(map, (&#[trigger] self@[k],)),
                data@.len() == i,
                forall|k: int| 0 <= k < i ==> call_ensures(map, (&#[trigger] self@[k],), data@[k]),
        {
            data.push(map(&self.data[i]));
        }
        DataSquare { data }
    }

    /// Replace the value at `xy`.
    pub fn set(&mut self, xy: [u16; 2], value: T)
        requires
            old(self).wf(),
        ensures
            final(self).wf(),
            final(self)@ == old(self)@.update(Self::spec_offset(xy[0] as int, xy[1] as int), value),
    {
        proof { Self::lemma_countable_addressable(); }
        let i = Self::offset(xy[0], xy[1]);
        self.data.set(i, value);
    }
}

impl<T: Copy, const SIZE_BITS: u32> DataSquare<T, SIZE_BITS> {
    /// The `width × width` block of values whose corner lies `offset` cells up and left of `xy`:
    /// entry `[r][c]` is the value at `(x + c - offset, y + r - offset)`, coordinates wrapping
    /// around. This is the neighbourhood from which a sampler interpolates the value at `xy`.
    pub fn window(&self, xy: [u16; 2], width: usize, offset: u16) -> (w: Vec<Vec<T>>)
        requires
            self.wf(),
        ensures
            w@.len() == width,
            forall|r: int| 0 <= r < width ==> #[trigger] w@[r]@.len() == width,
            forall|r: int, c: int|
                0 <= r < width && 0 <= c < width ==> #[trigger] w@[r]@[c] == self.cell(
                    xy[0] + c - offset,
                    xy[1] + r - offset,
                ),
    {
        let x = xy[0];
        let y = xy[1];
        let ghost s = Self::spec_size() as int;
        let ghost m = Self::spec_reach() as int;
        proof { Self::lemma_countable_addressable(); }
        let mut row_offsets: Vec<usize> = Vec::new();
        for i in 0..width
            invariant
                self.wf(),
                s == Self::spec_size(),
                m == Self::spec_reach(),
                row_offsets@.len() == i,
                forall|k: int| 0 <= k < i ==> #[trigger] row_offsets@[k] == ((y + k - offset) % m) * s,
        {
            let yy = y.wrapping_add(i as u16).wrapping_sub(offset);
            proof {
                lemma_u16_window_coordinate(y, i, offset);
                Self::lemma_u16_wrap(yy, y + i - offset);
            }
            row_offsets.push(Self::row_offset(yy));
        }
        let mut col_offsets: Vec<usize> = Vec::new();
        for i in 0..width
            invariant
                self.wf(),
                s == Self::spec_size(),
                m == Self::spec_reach(),
                col_offsets@.len() == i,
                forall|k: int| 0 <= k < i ==> #[trigger] col_offsets@[k] == (x + k - offset) % m,
        {
            let xx = x.wrapping_add(i as u16).wrapping_sub(offset);
            proof {
                lemma_u16_window_coordinate(x, i, offset);
                Self::lemma_u16_wrap(xx, x + i - offset);
            }
            col_offsets.push(Self::col_offset(xx));
        }
        let mut rows: Vec<Vec<T>> = Vec::new();
        for r in 0..width
            invariant
                self.wf(),
                s == Self::spec_size(),
                m == Self::spec_reach(),
                row_offsets@.len() == width,
                col_offsets@.len() == width,
                forall|k: int| 0 <= k < width ==> #[trigger] row_offsets@[k] == ((y + k - offset) % m) * s,
                forall|k: int| 0 <= k < width ==> #[trigger] col_offsets@[k] == (x + k - offset) % m,
                rows@.len() == r,
                forall|i: int| 0 <= i < r ==> #[trigger] rows@[i]@.len() == width,
                forall|i: int, j: int|
                    0 <= i < r && 0 <= j < width ==> #[trigger] rows@[i]@[j] == self.cell(x + j - offset, y + i - offset),
        {
            let row_offset = row_offsets[r];
            let mut values: Vec<T> = Vec::new();
            for c in 0..width
                invariant
                    self.wf(),
                    s == Self::spec_size(),
                m == Self::spec_reach(),
                    r < width,
                    row_offset == ((y + r - offset) % m) * s,
                    col_offsets@.len() == width,
                    forall|k: int| 0 <= k < width ==> #[trigger] col_offsets@[k] == (x + k - offset) % m,
                    values@.len() == c,
                    forall|j: int| 0 <= j < c ==> #[trigger] values@[j] == self.cell(x + j - offset, y + r - offset),
            {
                let col_offset = col_offsets[c];
                proof { Self::lemma_row_col(row_offset, col_offset, x + c - offset, y + r - offset); }
                values.push(self.data[row_offset | col_offset]);
            }
            rows.push(values);
        }
        rows
    }
}

impl<T, const SIZE_BITS: u32> DataSquare<T, SIZE_BITS> {
    /// Reading a cell after writing one gives the written value where both name the same cell
    /// (their coordinates agree modulo the reach) and the old value everywhere else.
    pub proof fn law_get_after_set(s: Seq<T>, x: int, y: int, value: T, x2: int, y2: int)
        requires
            SIZE_BITS < 32,
            s.len() == Self::spec_len(),
        ensures
            s.update(Self::spec_offset(x, y), value)[Self::spec_offset(x2, y2)] == if x % (Self::spec_reach() as int)
                == x2 % (Self::spec_reach() as int) && y % (Self::spec_reach() as int) == y2 % (
            Self::spec_reach() as int) {
                value
            } else {
                s[Self::spec_offset(x2, y2)]
            },
    {
        lemma_side(SIZE_BITS);
        let r = Self::spec_reach() as int;
        let n = Self::spec_size() as int;
        lemma_wrapped_offset_bounds(r, n, x, y);
        lemma_wrapped_offset_bounds(r, n, x2, y2);
        lemma_wrapped_offset_injective(r, n, x, y, x2, y2);
    }

    /// The square wraps around: moving a whole number of reaches (the side, for a square of up
    /// to 16 bits per coordinate; `2^16` for a wider one) in either direction names the same cell.
    pub proof fn law_wraps_around(x: int, y: int, i: int, j: int)
        requires
            SIZE_BITS < 32,
        ensures
            Self::spec_offset(x + i * Self::spec_reach(), y + j * Self::spec_reach()) == Self::spec_offset(x, y),
    {
        lemma_side(SIZE_BITS);
        let n = Self::spec_reach() as int;
        vstd::arithmetic::div_mod::lemma_mod_multiples_vanish(i, x, n);
        vstd::arithmetic::div_mod::lemma_mod_multiples_vanish(j, y, n);
        vstd::arithmetic::mul::lemma_mul_is_commutative(i, n);
        vstd::arithmetic::mul::lemma_mul_is_commutative(j, n);
    }

    /// On a square of up to 16 bits per coordinate each storage index belongs to exactly one
    /// cell: the offsets of the `size × size` cells are distinct and together make up
    /// `0 .. len`. (A wider square has more cells than `u16` coordinates can name.)
    pub proof fn law_offsets_are_a_bijection(o: int, x1: int, y1: int, x2: int, y2: int)
        requires
            SIZE_BITS <= 16,
            0 <= o < Self::spec_len(),
            0 <= x1 < Self::spec_size(),
            0 <= y1 < Self::spec_size(),
            0 <= x2 < Self::spec_size(),
            0 <= y2 < Self::spec_size(),
        ensures
            0 <= Self::spec_offset(x1, y1) < Self::spec_len(),
            Self::spec_offset(x1, y1) == Self::spec_offset(x2, y2) ==> x1 == x2 && y1 == y2,
            0 <= o % (Self::spec_size() as int) < Self::spec_size(),
            0 <= o / (Self::spec_size() as int) < Self::spec_size(),
            Self::spec_offset(o % (Self::spec_size() as int), o / (Self::spec_size() as int)) == o,
    {
        lemma_side(SIZE_BITS);
        let n = Self::spec_size() as int;
        assert(Self::spec_reach() == Self::spec_size());
        lemma_wrapped_offset_bounds(n, n, x1, y1);
        lemma_wrapped_offset_injective(n, n, x1, y1, x2, y2);
        vstd::arithmetic::div_mod::lemma_small_mod(x1 as nat, n as nat);
        vstd::arithmetic::div_mod::lemma_small_mod(x2 as nat, n as nat);
        vstd::arithmetic::div_mod::lemma_small_mod(y1 as nat, n as nat);
        vstd::arithmetic::div_mod::lemma_small_mod(y2 as nat, n as nat);
        vstd::arithmetic::div_mod::lemma_fundamental_div_mod(o, n);
        vstd::arithmetic::div_mod::lemma_mod_bound(o, n);
        vstd::arithmetic::div_mod::lemma_div_pos_is_pos(o, n);
        if o / n >= n {
            assert((o / n) * n >= n * n) by (nonlinear_arith)
                requires
                    o / n >= n,
                    n > 0,
            ;
            vstd::arithmetic::mul::lemma_mul_is_commutative(n, o / n);
            assert(false);
        }
        let q = o / n;
        let r = o % n;
        vstd::arithmetic::div_mod::lemma_small_mod(q as nat, n as nat);
        vstd::arithmetic::div_mod::lemma_small_mod(r as nat, n as nat);
        vstd::arithmetic::mul::lemma_mul_is_commutative(n, q);
    }
}

impl<T, const SIZE_BITS: u32> DataSquare<T, SIZE_BITS> {
    /// Mapping with a function that gives back its argument changes nothing: where `mapped`
    /// holds, cell by cell, what `map` gave for `values`, it is `values` itself.
    pub proof fn law_clone_with_identity<F: Fn(&T) -> T>(values: Seq<T>, mapped: Seq<T>, map: F)
        requires
            mapped.len() == values.len(),
            forall|i: int| 0 <= i < values.len() ==> call_ensures(map, (&#[trigger] values[i],), mapped[i]),
            forall|a: T, b: T| #[trigger] call_ensures(map, (&a,), b) ==> b == a,
        ensures
            mapped == values,
    {
        assert(mapped =~= values) by {
            assert forall|i: int| 0 <= i < values.len() implies mapped[i] == values[i] by {
                assert(call_ensures(map, (&values[i],), mapped[i]));
            }
        }
    }

    /// Mapping with `first` and then with `second` gives what mapping once with `both` gives,
    /// where `both` gives one result per value and every result of `second` after `first` is
    /// a result of `both`.
    pub proof fn law_clone_with_composes<F: Fn(&T) -> T, G: Fn(&T) -> T, H: Fn(&T) -> T>(
        values: Seq<T>,
        once: Seq<T>,
        twice: Seq<T>,
        composed: Seq<T>,
        first: F,
        second: G,
        both: H,
    )
        requires
            once.len() == values.len(),
            twice.len() == values.len(),
            composed.len() == values.len(),
            forall|i: int| 0 <= i < values.len() ==> call_ensures(first, (&#[trigger] values[i],), once[i]),
            forall|i: int| 0 <= i < values.len() ==> call_ensures(second, (&#[trigger] once[i],), twice[i]),
            forall|i: int| 0 <= i < values.len() ==> call_ensures(both, (&#[trigger] values[i],), composed[i]),
            forall|a: T, b: T, c: T|
                #[trigger] call_ensures(first, (&a,), b) && #[trigger] call_ensures(second, (&b,), c) ==> call_ensures(
                    both,
                    (&a,),
                    c,
                ),
            forall|a: T, c1: T, c2: T|
                #[trigger] call_ensures(both, (&a,), c1) && #[trigger] call_ensures(both, (&a,), c2) ==> c1 == c2,
        ensures
            twice == composed,
    {
        assert(twice =~= composed) by {
            assert forall|i: int| 0 <= i < values.len() implies twice[i] == composed[i] by {
                assert(call_ensures(first, (&values[i],), once[i]));
                assert(call_ensures(second, (&once[i],), twice[i]));
                assert(call_ensures(both, (&values[i],), twice[i]));
                assert(call_ensures(both, (&values[i],), composed[i]));
            }
        }
    }

    /// Or-ing a row offset and a column offset yields the storage index of the cell they meet in.
    proof fn lemma_row_col(row: usize, col: usize, x: int, y: int)
        requires
            Self::addressable(),
            row == (y % (Self::spec_reach() as int)) * Self::spec_size(),
            col == x % (Self::spec_reach() as int),
        ensures
            row | col == Self::spec_offset(x, y),
            (row | col) < Self::spec_len(),
    {
        Self::lemma_addressable();
        lemma_side(SIZE_BITS);
        let r = Self::spec_reach() as int;
        let s = Self::spec_size() as int;
        lemma_wrapped_offset_bounds(r, s, x, y);
        let w = (y % r) as usize;
        assert((w + 1) * s <= r * s) by (nonlinear_arith)
            requires
                w + 1 <= r,
                s > 0,
        ;
        lemma_row_or_col(w, col, SIZE_BITS);
    }

    /// A coordinate wrapped to 16 bits and then to the square names the same column or row.
    proof fn lemma_u16_wrap(w: u16, a: int)
        requires
            SIZE_BITS < 32,
            w as int == a % 0x10000,
        ensures
            w as int % (Self::spec_reach() as int) == a % (Self::spec_reach() as int),
    {
        lemma_mod_u16_range(a, SIZE_BITS);
    }
}

impl<T: Copy, const SIZE_BITS: u32> GetWrapping for DataSquare<T, SIZE_BITS> {
    type Item = T;

    open spec fn well_formed(&self) -> bool {
        self.wf()
    }

    open spec fn item_at(&self, x: int, y: int) -> T {
        self.cell(x, y)
    }

    fn get(&self, xy: [u16; 2]) -> (r: T) {
        proof { Self::lemma_countable_addressable(); }
        self.data[Self::offset(xy[0], xy[1])]
    }

    fn get_2x2(&self, xy: [u16; 2]) -> (r: [T; 4]) {
        proof { Self::lemma_countable_addressable(); }
        let x = xy[0];
        let y = xy[1];
        let left = Self::col_offset(x);
        let right = Self::col_offset(x.wrapping_add(1));
        let top = Self::row_offset(y);
        let bottom = Self::row_offset(y.wrapping_add(1));
        proof {
            lemma_u16_step(x);
            lemma_u16_step(y);
            Self::lemma_u16_wrap(x.wrapping_add(1), x + 1);
            Self::lemma_u16_wrap(y.wrapping_add(1), y + 1);
            Self::lemma_row_col(top, left, x as int, y as int);
            Self::lemma_row_col(top, right, x + 1, y as int);
            Self::lemma_row_col(bottom, left, x as int, y + 1);
            Self::lemma_row_col(bottom, right, x + 1, y + 1);
            assert(forall|a: usize, b: usize| #[trigger] (a | b) == b | a) by (bit_vector);
        }
        let r = [
            self.data[left | top],
            self.data[right | top],
            self.data[left | bottom],
            self.data[right | bottom],
        ];
        assert(r@ =~= seq![
            self.cell(x as int, y as int),
            self.cell(x + 1, y as int),
            self.cell(x as int, y + 1),
            self.cell(x + 1, y + 1),
        ]);
        r
    }

    fn get_3x3(&self, xy: [u16; 2]) -> (r: [T; 9]) {
        proof { Self::lemma_countable_addressable(); }
        let x = xy[0];
        let y = xy[1];
        let left_col = Self::col_offset(x.wrapping_sub(1));
        let center_col = Self::col_offset(x);
        let right_col = Self::col_offset(x.wrapping_add(1));
        let top_row = Self::row_offset(y.wrapping_sub(1));
        let center_row = Self::row_offset(y);
        let bottom_row = Self::row_offset(y.wrapping_add(1));
        proof {
            lemma_u16_step(x);
            lemma_u16_step(y);
            Self::lemma_u16_wrap(x.wrapping_add(1), x + 1);
            Self::lemma_u16_wrap(y.wrapping_add(1), y + 1);
            Self::lemma_u16_wrap(x.wrapping_sub(1), x - 1);
            Self::lemma_u16_wrap(y.wrapping_sub(1), y - 1);
            Self::lemma_row_col(top_row, left_col, x - 1, y - 1);
            Self::lemma_row_col(top_row, center_col, x as int, y - 1);
            Self::lemma_row_col(top_row, right_col, x + 1, y - 1);
            Self::lemma_row_col(center_row, left_col, x - 1, y as int);
            Self::lemma_row_col(center_row, center_col, x as int, y as int);
            Self::lemma_row_col(center_row, right_col, x + 1, y as int);
            Self::lemma_row_col(bottom_row, left_col, x - 1, y + 1);
            Self::lemma_row_col(bottom_row, center_col, x as int, y + 1);
            Self::lemma_row_col(bottom_row, right_col, x + 1, y + 1);
            assert(forall|a: usize, b: usize| #[trigger] (a | b) == b | a) by (bit_vector);
        }
        let r = [
            self.data[left_col | top_row],
            self.data[center_col | top_row],
            self.data[right_col | top_row],
            self.data[left_col | center_row],
            self.data[center_col | center_row],
            self.data[right_col | center_row],
            self.data[left_col | bottom_row],
            self.data[center_col | bottom_row],
            self.data[right_col | bottom_row],
        ];
        assert(r@ =~= seq![
            self.cell(x - 1, y - 1),
            self.cell(x as int, y - 1),
            self.cell(x + 1, y - 1),
            self.cell(x - 1, y as int),
            self.cell(x as int, y as int),
            self.cell(x + 1, y as int),
            self.cell(x - 1, y + 1),
            self.cell(x as int, y + 1),
            self.cell(x + 1, y + 1),
        ]);
        r
    }
}

impl<T, const SIZE_BITS: u32> AsRef<[T]> for DataSquare<T, SIZE_BITS> {
    fn as_ref(&self) -> (r: &[T])
        ensures
            r@ == self@,
    {
        self.data.as_slice()
    }
}

impl<T, const SIZE_BITS: u32> AsMut<[T]> for DataSquare<T, SIZE_BITS> {
    fn as_mut(&mut self) -> (r: &mut [T])
        ensures
            r@ == old(self)@,
            final(r)@ == final(self)@,
    {
        self.data.as_mut_slice()
    }
}

impl<T, const SIZE_BITS: u32> std::ops::Index<usize> for DataSquare<T, SIZE_BITS> {
    type Output = T;

    fn index(&self, index: usize) -> (r: &T)
        ensures
            *r == self@[index as int],
    {
        &self.data[index]
    }
}

impl<T, const SIZE_BITS: u32> vstd::std_specs::core::IndexSpecImpl<usize> for DataSquare<T, SIZE_BITS> {
    open spec fn index_req(&self, index: &usize) -> bool {
        *index < self@.len()
    }
}

/// The outcome of `try_from` is stated by its own `ensures`, over the text of its error. The
/// generic specification of `TryFrom` is not claimed: it compares whole `String` values, and two
/// strings with the same text are not known to be equal values.
impl<T, const SIZE_BITS: u32> vstd::std_specs::convert::TryFromSpecImpl<Vec<T>> for DataSquare<T, SIZE_BITS> {
    open spec fn obeys_try_from_spec() -> bool {
        false
    }

    closed spec fn try_from_spec(v: Vec<T>) -> Result<Self, String> {
        if v@.len() == Self::spec_len() {
            Ok(DataSquare { data: v })
        } else {
            Err(vstd::pervasive::arbitrary())
        }
    }
}

/// The error that reports a vector of `actual` values where a square needs `expected`.
pub open spec fn length_mismatch_message(expected: nat, actual: nat) -> Seq<char> {
    "Expected a vector containing "@ + decimal(expected) + " but got one with "@ + decimal(actual)
        + " entries."@
}

/// The error that reports a square with `bits` bits per coordinate, whose cells are too many
/// to count in a `usize`.
pub open spec fn too_many_cells_message(bits: nat) -> Seq<char> {
    "A square with "@ + decimal(bits) + " bits per coordinate has more cells than a usize can count."@
}

/// Writes the error that reports a vector of `actual` values where `expected` were needed.
fn length_mismatch(expected: usize, actual: usize) -> (m: String)
    ensures
        m@ == length_mismatch_message(expected as nat, actual as nat),
{
    let mut m = String::from_str("Expected a vector containing ");
    push_decimal(&mut m, expected as u64);
    m.append(" but got one with ");
    push_decimal(&mut m, actual as u64);
    m.append(" entries.");
    assert(m@ =~= length_mismatch_message(expected as nat, actual as nat));
    m
}

/// Writes the error that reports a square of `bits` bits per coordinate with too many cells.
fn too_many_cells(bits: u32) -> (m: String)
    ensures
        m@ == too_many_cells_message(bits as nat),
{
    let mut m = String::from_str("A square with ");
    push_decimal(&mut m, bits as u64);
    m.append(" bits per coordinate has more cells than a usize can count.");
    assert(m@ =~= too_many_cells_message(bits as nat));
    m
}

impl<T, const SIZE_BITS: u32> std::convert::TryFrom<Vec<T>> for DataSquare<T, SIZE_BITS> {
    type Error = String;

    fn try_from(value: Vec<T>) -> (r: Result<Self, String>)
        ensures
            r is Ok <==> (Self::countable() && value@.len() == Self::spec_len()),
            r matches Ok(square) ==> square.wf() && square@ == value@,
            r matches Err(message) ==> message@ == if Self::countable() {
                length_mismatch_message(Self::spec_len(), value@.len())
            } else {
                too_many_cells_message(SIZE_BITS as nat)
            },
    {
        if SIZE_BITS >= usize::BITS / 2 {
            return Err(too_many_cells(SIZE_BITS));
        }
        let expected = Self::cell_count();
        if value.len() != expected {
            return Err(length_mismatch(expected, value.len()));
        }
        Ok(DataSquare { data: value })
    }
}

} // verus!
