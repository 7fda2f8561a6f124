//! Doubling the resolution of a square map that wraps around at its edges, interpolating the
//! new values with a separable filter kernel applied to a window of neighbouring values.

use vstd::prelude::*;
use vstd::arithmetic::power2::{pow2, lemma_pow2_pos, lemma_pow2_adds};
use crate::mapgen::torus::lemma_usize_wrap_mask;

verus! {

/// The number of values a window of `window_len` reaches before the value it is centred
/// after: the kernel of a window of `2a` values covers `a - 1` values before and `a` after.
pub open spec fn window_offset(window_len: int) -> int {
    window_len / 2 - 1
}

/// The array whose values are `s`.
pub open spec fn array_of<T, const N: usize>(s: Seq<T>) -> [T; N] {
    choose|a: [T; N]| a@ == s
}

/// Index in the doubled square (side `size_out`) of the value copied from input `(x, y)`.
pub open spec fn even_pos(size_out: int, y: int, x: int) -> int {
    (2 * y) * size_out + 2 * x
}

/// Index in the doubled square of the value interpolated between input rows `y` and `y + 1`
/// at input column `x`.
pub open spec fn vertical_pos(size_out: int, y: int, x: int) -> int {
    (2 * y + 1) * size_out + 2 * x
}

/// Index in the doubled square of the value interpolated in output row `row` between input
/// columns `x` and `x + 1`.
pub open spec fn horizontal_pos(size_out: int, row: int, x: int) -> int {
    row * size_out + 2 * x + 1
}

/// The input values of column `x` that the vertical pass folds into the value between input
/// rows `y` and `y + 1`; rows wrap around at the edges of the square of side `size`.
pub open spec fn column_window<T>(data: Seq<T>, size: int, window_len: int, y: int, x: int) -> Seq<T> {
    Seq::new(
        window_len as nat,
        |i: int| data[((y + i - window_offset(window_len)) % size) * size + x],
    )
}

/// The values of output row `row` at even columns that the horizontal pass folds into the value
/// between input columns `x` and `x + 1`; columns wrap around at the edges.
pub open spec fn row_window<T>(out: Seq<T>, size_in: int, window_len: int, row: int, x: int) -> Seq<T> {
    Seq::new(
        window_len as nat,
        |i: int| out[row * (2 * size_in) + ((x + i - window_offset(window_len)) % size_in) * 2],
    )
}

/// `result` is `data`, a square of side `si`, doubled in resolution by folding windows with
/// `fold`: input values sit at the even rows and columns, the odd rows hold at their even columns
/// the folds of the input columns, and every odd column holds the folds of the even columns of
/// its row.
pub open spec fn is_upscale<T, const WINDOW_LEN: usize, F: Fn(&[T; WINDOW_LEN]) -> T>(
    data: Seq<T>,
    result: Seq<T>,
    si: int,
    fold: F,
) -> bool {
    let so = 2 * si;
    &&& result.len() == so * so
    &&& forall|y: int, x: int|
        0 <= y < si && 0 <= x < si ==> result[#[trigger] even_pos(so, y, x)] == data[y * si + x]
    &&& forall|y: int, x: int|
        0 <= y < si && 0 <= x < si ==> call_ensures(
            fold,
            (&array_of::<T, WINDOW_LEN>(column_window(data, si, WINDOW_LEN as int, y, x)),),
            result[#[trigger] vertical_pos(so, y, x)],
        )
    &&& forall|row: int, x: int|
        0 <= row < so && 0 <= x < si ==> call_ensures(
            fold,
            (&array_of::<T, WINDOW_LEN>(row_window(result, si, WINDOW_LEN as int, row, x)),),
            result[#[trigger] horizontal_pos(so, row, x)],
        )
}

/// Every value of the doubled square is of exactly one kind: copied from the input, folded down
/// a column, or folded along a row.
pub proof fn law_upscale_positions(si: int, p: int)
    requires
        si > 0,
        0 <= p < (2 * si) * (2 * si),
    ensures
        ({
            let so = 2 * si;
            let row = p / so;
            let col = p % so;
            &&& 0 <= row < so
            &&& 0 <= col < so
            &&& row % 2 == 0 && col % 2 == 0 ==> p == even_pos(so, row / 2, col / 2) && 0 <= col / 2 < si && 0 <= row / 2 < si
            &&& row % 2 == 1 && col % 2 == 0 ==> p == vertical_pos(so, row / 2, col / 2) && 0 <= col / 2 < si && 0 <= row / 2 < si
            &&& col % 2 == 1 ==> p == horizontal_pos(so, row, col / 2) && 0 <= col / 2 < si
        }),
{
    let so = 2 * si;
    vstd::arithmetic::div_mod::lemma_fundamental_div_mod(p, so);
    vstd::arithmetic::div_mod::lemma_mod_bound(p, so);
    vstd::arithmetic::div_mod::lemma_div_pos_is_pos(p, so);
    vstd::arithmetic::div_mod::lemma_div_by_multiple_is_strongly_ordered(p, so * so, so, so);
    assert(so * so == so * so);
    if p / so >= so {
        assert((p / so) * so >= so * so) by (nonlinear_arith)
            requires
                p / so >= so,
                so > 0,
        ;
        assert(false);
    }
    vstd::arithmetic::mul::lemma_mul_is_commutative(so, p / so);
}

/// A window whose values all equal `c` is an array whose values all equal `c`.
proof fn lemma_constant_window<T: Copy, const N: usize>(s: Seq<T>, c: T)
    requires
        s.len() == N,
        forall|i: int| 0 <= i < N ==> #[trigger] s[i] == c,
    ensures
        forall|i: int| 0 <= i < N ==> #[trigger] array_of::<T, N>(s)@[i] == c,
{
    broadcast use vstd::array::axiom_spec_array_fill_for_copy_type;
    let f = vstd::array::spec_array_fill_for_copy_type::<T, N>(c);
    assert(f@ =~= s);
    let a = array_of::<T, N>(s);
    assert(a@ == s);
}

/// Upscaling keeps a constant square constant when the kernel is normalised: if every fold of a
/// window of equal values gives that value, every value of the result is that value.
pub proof fn law_upscale_of_constant<T: Copy, const WINDOW_LEN: usize, F: Fn(&[T; WINDOW_LEN]) -> T>(
    data: Seq<T>,
    result: Seq<T>,
    si: int,
    fold: F,
    c: T,
)
    requires
        si > 0,
        data.len() == si * si,
        is_upscale::<T, WINDOW_LEN, F>(data, result, si, fold),
        forall|i: int| 0 <= i < data.len() ==> #[trigger] data[i] == c,
        forall|w: [T; WINDOW_LEN], r: T|
            (forall|i: int| 0 <= i < WINDOW_LEN ==> #[trigger] w@[i] == c) && #[trigger] call_ensures(fold, (&w,), r) ==> r == c,
    ensures
        forall|p: int| 0 <= p < result.len() ==> #[trigger] result[p] == c,
{
    let so = 2 * si;
    let w = WINDOW_LEN as int;
    // the values copied from the input, and the values folded down the columns
    assert forall|y: int, x: int| 0 <= y < si && 0 <= x < si implies #[trigger] result[even_pos(so, y, x)] == c
        && result[vertical_pos(so, y, x)] == c by {
        lemma_grid(si, y, x);
        let col = column_window(data, si, w, y, x);
        assert forall|i: int| 0 <= i < w implies #[trigger] col[i] == c by {
            vstd::arithmetic::div_mod::lemma_mod_bound(y + i - window_offset(w), si);
            lemma_grid(si, (y + i - window_offset(w)) % si, x);
        }
        lemma_constant_window::<T, WINDOW_LEN>(col, c);
        let a = array_of::<T, WINDOW_LEN>(col);
        assert(call_ensures(fold, (&a,), result[vertical_pos(so, y, x)]));
    }
    assert forall|y: int, x: int| 0 <= y < si && 0 <= x < si implies #[trigger] result[vertical_pos(so, y, x)] == c by {
        assert(result[even_pos(so, y, x)] == c);
    }
    // the values folded along the rows, from even columns that are all `c` by now
    assert forall|row: int, x: int| 0 <= row < so && 0 <= x < si implies #[trigger] result[horizontal_pos(so, row, x)] == c by {
        let rw = row_window(result, si, w, row, x);
        assert forall|i: int| 0 <= i < w implies #[trigger] rw[i] == c by {
            let col = (x + i - window_offset(w)) % si;
            vstd::arithmetic::div_mod::lemma_mod_bound(x + i - window_offset(w), si);
            vstd::arithmetic::div_mod::lemma_fundamental_div_mod(row, 2);
            vstd::arithmetic::div_mod::lemma_mod_bound(row, 2);
            if row % 2 == 0 {
                assert(row * so + col * 2 == even_pos(so, row / 2, col));
                assert(result[even_pos(so, row / 2, col)] == c);
            } else {
                assert(row * so + col * 2 == vertical_pos(so, row / 2, col));
                assert(result[vertical_pos(so, row / 2, col)] == c);
            }
        }
        lemma_constant_window::<T, WINDOW_LEN>(rw, c);
        let a = array_of::<T, WINDOW_LEN>(rw);
        assert(call_ensures(fold, (&a,), result[horizontal_pos(so, row, x)]));
    }
    assert forall|p: int| 0 <= p < result.len() implies #[trigger] result[p] == c by {
        law_upscale_positions(si, p);
        let row = p / so;
        let col = p % so;
        vstd::arithmetic::div_mod::lemma_mod_bound(col, 2);
        vstd::arithmetic::div_mod::lemma_mod_bound(row, 2);
        if col % 2 == 0 {
            if row % 2 == 0 {
                assert(result[even_pos(so, row / 2, col / 2)] == c);
            } else {
                assert(result[vertical_pos(so, row / 2, col / 2)] == c);
            }
        } else {
            assert(result[horizontal_pos(so, row, col / 2)] == c);
        }
    }
}

/// The value at column `x` of row `y` of a square of side `side` stored row by row.
pub open spec fn pixel<T>(s: Seq<T>, side: int, x: int, y: int) -> T {
    s[y * side + x]
}

/// Doubling the resolution commutes with cyclic shifts, for a fold that gives one result per
/// window: where `shifted` is `data` moved by `(dx, dy)`, wrapping around, and `doubled` and
/// `doubled_shifted` are their upscales, `doubled_shifted` is `doubled` moved by `(2 dx, 2 dy)`.
pub proof fn law_upscale_commutes_with_shifts<T, const WINDOW_LEN: usize, F: Fn(&[T; WINDOW_LEN]) -> T>(
    data: Seq<T>,
    shifted: Seq<T>,
    doubled: Seq<T>,
    doubled_shifted: Seq<T>,
    si: int,
    dx: int,
    dy: int,
    fold: F,
)
    requires
        si > 0,
        0 <= dx < si,
        0 <= dy < si,
        data.len() == si * si,
        shifted.len() == si * si,
        forall|x: int, y: int|
            0 <= x < si && 0 <= y < si ==> #[trigger] pixel(shifted, si, x, y) == pixel(
                data,
                si,
                (x + dx) % si,
                (y + dy) % si,
            ),
        is_upscale::<T, WINDOW_LEN, F>(data, doubled, si, fold),
        is_upscale::<T, WINDOW_LEN, F>(shifted, doubled_shifted, si, fold),
        forall|w: [T; WINDOW_LEN], r1: T, r2: T|
            #[trigger] call_ensures(fold, (&w,), r1) && #[trigger] call_ensures(fold, (&w,), r2) ==> r1 == r2,
    ensures
        forall|x: int, y: int|
            0 <= x < 2 * si && 0 <= y < 2 * si ==> #[trigger] pixel(doubled_shifted, 2 * si, x, y) == pixel(
                doubled,
                2 * si,
                (x + 2 * dx) % (2 * si),
                (y + 2 * dy) % (2 * si),
            ),
{
    let so = 2 * si;
    let w = WINDOW_LEN as int;
    let off = window_offset(w);
    // the input values and the values folded down the columns: the even columns
    assert forall|y: int, x: int| 0 <= y < si && 0 <= x < si implies #[trigger] doubled_shifted[even_pos(so, y, x)]
        == doubled[even_pos(so, (y + dy) % si, (x + dx) % si)] && doubled_shifted[vertical_pos(so, y, x)]
        == doubled[vertical_pos(so, (y + dy) % si, (x + dx) % si)] by {
        let y2 = (y + dy) % si;
        let x2 = (x + dx) % si;
        vstd::arithmetic::div_mod::lemma_mod_bound(y + dy, si);
        vstd::arithmetic::div_mod::lemma_mod_bound(x + dx, si);
        assert(pixel(shifted, si, x, y) == pixel(data, si, x2, y2));
        let col2 = column_window(shifted, si, w, y, x);
        let col1 = column_window(data, si, w, y2, x2);
        assert forall|i: int| 0 <= i < w implies #[trigger] col2[i] == col1[i] by {
            let yy = (y + i - off) % si;
            vstd::arithmetic::div_mod::lemma_mod_bound(y + i - off, si);
            lemma_shift_mod(y + i - off, dy, si);
            lemma_shift_mod(y + dy, i - off, si);
            assert(pixel(shifted, si, x, yy) == pixel(data, si, x2, (yy + dy) % si));
        }
        assert(col2 =~= col1);
        let a = array_of::<T, WINDOW_LEN>(col1);
        assert(call_ensures(fold, (&a,), doubled_shifted[vertical_pos(so, y, x)]));
        assert(call_ensures(fold, (&a,), doubled[vertical_pos(so, y2, x2)]));
    }
    assert forall|row: int, x: int| 0 <= row < so && 0 <= x < si implies #[trigger] pixel(doubled_shifted, so, 2 * x, row)
        == pixel(doubled, so, 2 * ((x + dx) % si), (row + 2 * dy) % so) by {
        vstd::arithmetic::div_mod::lemma_fundamental_div_mod(row, 2);
        vstd::arithmetic::div_mod::lemma_mod_bound(row, 2);
        let y = row / 2;
        lemma_double_mod(y + dy, si);
        assert(0 <= y < si);
        if row % 2 == 0 {
            assert(row + 2 * dy == 2 * (y + dy));
            assert(doubled_shifted[even_pos(so, y, x)] == doubled[even_pos(so, (y + dy) % si, (x + dx) % si)]);
        } else {
            assert(row + 2 * dy == 2 * (y + dy) + 1);
            assert(doubled_shifted[even_pos(so, y, x)] == doubled[even_pos(so, (y + dy) % si, (x + dx) % si)]);
            assert(doubled_shifted[vertical_pos(so, y, x)] == doubled[vertical_pos(so, (y + dy) % si, (x + dx) % si)]);
        }
    }
    // the values folded along the rows: the odd columns
    assert forall|row: int, x: int| 0 <= row < so && 0 <= x < si implies #[trigger] doubled_shifted[horizontal_pos(so, row, x)]
        == doubled[horizontal_pos(so, (row + 2 * dy) % so, (x + dx) % si)] by {
        let row2 = (row + 2 * dy) % so;
        let x2 = (x + dx) % si;
        vstd::arithmetic::div_mod::lemma_mod_bound(row + 2 * dy, so);
        vstd::arithmetic::div_mod::lemma_mod_bound(x + dx, si);
        let rw2 = row_window(doubled_shifted, si, w, row, x);
        let rw1 = row_window(doubled, si, w, row2, x2);
        assert forall|i: int| 0 <= i < w implies #[trigger] rw2[i] == rw1[i] by {
            let c = (x + i - off) % si;
            vstd::arithmetic::div_mod::lemma_mod_bound(x + i - off, si);
            lemma_shift_mod(x + i - off, dx, si);
            lemma_shift_mod(x + dx, i - off, si);
            assert(pixel(doubled_shifted, so, 2 * c, row) == pixel(doubled, so, 2 * ((c + dx) % si), row2));
        }
        assert(rw2 =~= rw1);
        let a = array_of::<T, WINDOW_LEN>(rw1);
        assert(call_ensures(fold, (&a,), doubled_shifted[horizontal_pos(so, row, x)]));
        assert(call_ensures(fold, (&a,), doubled[horizontal_pos(so, row2, x2)]));
    }
    assert forall|x: int, y: int| 0 <= x < so && 0 <= y < so implies #[trigger] pixel(doubled_shifted, so, x, y)
        == pixel(doubled, so, (x + 2 * dx) % so, (y + 2 * dy) % so) by {
        vstd::arithmetic::div_mod::lemma_fundamental_div_mod(x, 2);
        vstd::arithmetic::div_mod::lemma_mod_bound(x, 2);
        let c = x / 2;
        lemma_double_mod(c + dx, si);
        assert(0 <= c < si);
        if x % 2 == 0 {
            assert(x + 2 * dx == 2 * (c + dx));
            assert(pixel(doubled_shifted, so, 2 * c, y) == pixel(doubled, so, 2 * ((c + dx) % si), (y + 2 * dy) % so));
        } else {
            assert(x + 2 * dx == 2 * (c + dx) + 1);
            assert(doubled_shifted[horizontal_pos(so, y, c)] == doubled[horizontal_pos(so, (y + 2 * dy) % so, (c + dx) % si)]);
        }
    }
}

/// Doubling a value and the modulus doubles the residue, and keeps an added one.
proof fn lemma_double_mod(a: int, n: int)
    requires
        n > 0,
    ensures
        (2 * a) % (2 * n) == 2 * (a % n),
        (2 * a + 1) % (2 * n) == 2 * (a % n) + 1,
{
    vstd::arithmetic::div_mod::lemma_fundamental_div_mod(a, n);
    vstd::arithmetic::div_mod::lemma_mod_bound(a, n);
    let q = a / n;
    let r = a % n;
    assert(2 * (n * q) == (2 * n) * q) by (nonlinear_arith);
    vstd::arithmetic::div_mod::lemma_fundamental_div_mod_converse(2 * a, 2 * n, q, 2 * r);
    vstd::arithmetic::div_mod::lemma_fundamental_div_mod_converse(2 * a + 1, 2 * n, q, 2 * r + 1);
}

/// Adding to a residue and reducing again is adding before reducing.
proof fn lemma_shift_mod(a: int, b: int, n: int)
    requires
        n > 0,
    ensures
        ((a % n) + b) % n == (a + b) % n,
{
    vstd::arithmetic::div_mod::lemma_add_mod_noop_right(b, a, n);
}

/// An array whose first `k` values are those of `s`.
spec fn array_with_prefix<T, const N: usize>(s: Seq<T>, k: nat) -> [T; N]
    decreases k,
{
    if k == 0 {
        vstd::pervasive::arbitrary()
    } else {
        vstd::array::spec_array_update(array_with_prefix::<T, N>(s, (k - 1) as nat), k - 1, s[k - 1])
    }
}

/// The first `k` values of `array_with_prefix(s, k)` are those of `s`.
proof fn lemma_array_with_prefix<T, const N: usize>(s: Seq<T>, k: nat)
    requires
        k <= N,
        s.len() == N,
    ensures
        forall|i: int| 0 <= i < k ==> #[trigger] array_with_prefix::<T, N>(s, k)@[i] == s[i],
    decreases k,
{
    broadcast use vstd::array::axiom_spec_array_update;
    if k > 0 {
        lemma_array_with_prefix::<T, N>(s, (k - 1) as nat);
        let a = array_with_prefix::<T, N>(s, (k - 1) as nat);
        assert(array_with_prefix::<T, N>(s, k)@ == a@.update(k - 1, s[k - 1]));
    }
}

/// Every sequence of `N` values is the view of an array, the one `array_of` picks.
proof fn lemma_array_of_view<T, const N: usize>(s: Seq<T>)
    requires
        s.len() == N,
    ensures
        array_of::<T, N>(s)@ == s,
{
    lemma_array_with_prefix::<T, N>(s, N as nat);
    let a = array_with_prefix::<T, N>(s, N as nat);
    assert(a@ =~= s);
}

/// Every value that doubling interpolates lies in the middle of the window it is folded from:
/// a window of `WINDOW_LEN` values holds, at `i`, the neighbour `i + 1 - WINDOW_LEN / 2` steps
/// along (wrapping around), so that its entries `WINDOW_LEN / 2 - 1` and `WINDOW_LEN / 2` are
/// the two values on either side of the gap. Down a column the window is taken from the input;
/// along a row, from the values of that row at the even columns. Input values keep their place
/// at the even rows and columns. Stated for any position `(col, row)` of the doubled square.
pub proof fn law_upscale_windows_straddle_the_gap<T, const WINDOW_LEN: usize, F: Fn(&[T; WINDOW_LEN]) -> T>(
    data: Seq<T>,
    result: Seq<T>,
    si: int,
    so: int,
    fold: F,
    col: int,
    row: int,
)
    requires
        si > 0,
        so == 2 * si,
        2 <= WINDOW_LEN,
        data.len() == si * si,
        is_upscale::<T, WINDOW_LEN, F>(data, result, si, fold),
        0 <= col < so,
        0 <= row < so,
    ensures
        result.len() == so * so,
        col % 2 == 0 && row % 2 == 0 ==> pixel(result, so, col, row) == pixel(data, si, col / 2, row / 2),
        col % 2 == 0 && row % 2 == 1 ==> exists|w: [T; WINDOW_LEN]|
            #![trigger w@]
            w@[WINDOW_LEN / 2 - 1] == pixel(data, si, col / 2, row / 2)
            && w@[(WINDOW_LEN / 2) as int] == pixel(data, si, col / 2, (row / 2 + 1) % si)
            && (forall|i: int|
                0 <= i < WINDOW_LEN ==> w@[i] == pixel(data, si, col / 2, (row / 2 + i + 1 - WINDOW_LEN / 2) % si))
            && call_ensures(fold, (&w,), pixel(result, so, col, row)),
        col % 2 == 1 ==> exists|w: [T; WINDOW_LEN]|
            #![trigger w@]
            w@[WINDOW_LEN / 2 - 1] == pixel(result, so, col - 1, row)
            && w@[(WINDOW_LEN / 2) as int] == pixel(result, so, (col + 1) % so, row)
            && (forall|i: int|
                0 <= i < WINDOW_LEN ==> w@[i] == pixel(result, so, 2 * ((col / 2 + i + 1 - WINDOW_LEN / 2) % si), row))
            && call_ensures(fold, (&w,), pixel(result, so, col, row)),
{
    let n = WINDOW_LEN as int;
    let off = window_offset(n);
    let h = (WINDOW_LEN / 2) as int;
    vstd::arithmetic::div_mod::lemma_fundamental_div_mod(col, 2);
    vstd::arithmetic::div_mod::lemma_fundamental_div_mod(row, 2);
    vstd::arithmetic::div_mod::lemma_mod_bound(col, 2);
    vstd::arithmetic::div_mod::lemma_mod_bound(row, 2);
    let y = row / 2;
    let x = col / 2;
    assert(0 <= x < si && 0 <= y < si);
    assert(off == h - 1);
    if col % 2 == 0 && row % 2 == 0 {
        assert(pixel(result, so, col, row) == result[even_pos(so, y, x)]);
    }
    if col % 2 == 0 && row % 2 == 1 {
        let window = column_window(data, si, n, y, x);
        lemma_array_of_view::<T, WINDOW_LEN>(window);
        let w = array_of::<T, WINDOW_LEN>(window);
        assert(pixel(result, so, col, row) == result[vertical_pos(so, y, x)]);
        assert forall|i: int| 0 <= i < WINDOW_LEN implies w@[i] == pixel(data, si, x, (y + i + 1 - h) % si) by {
            assert(y + i - off == y + i + 1 - h);
        }
        vstd::arithmetic::div_mod::lemma_small_mod(y as nat, si as nat);
        assert(w@[h - 1] == pixel(data, si, x, (y + (h - 1) + 1 - h) % si));
        assert(w@[h] == pixel(data, si, x, (y + h + 1 - h) % si));
        assert(call_ensures(fold, (&w,), pixel(result, so, col, row)));
    }
    if col % 2 == 1 {
        let window = row_window(result, si, n, row, x);
        lemma_array_of_view::<T, WINDOW_LEN>(window);
        let w = array_of::<T, WINDOW_LEN>(window);
        assert(pixel(result, so, col, row) == result[horizontal_pos(so, row, x)]);
        assert forall|i: int| 0 <= i < WINDOW_LEN implies w@[i] == pixel(result, so, 2 * ((x + i + 1 - h) % si), row) by {
            assert(x + i - off == x + i + 1 - h);
        }
        vstd::arithmetic::div_mod::lemma_small_mod(x as nat, si as nat);
        lemma_double_mod(x + 1, si);
        assert(col + 1 == 2 * (x + 1));
        assert(w@[h - 1] == pixel(result, so, 2 * ((x + (h - 1) + 1 - h) % si), row));
        assert(w@[h] == pixel(result, so, 2 * ((x + h + 1 - h) % si), row));
        assert(call_ensures(fold, (&w,), pixel(result, so, col, row)));
    }
}

/// An index `r * n + c` with `0 <= c < n` determines `r` and `c`.
proof fn lemma_grid(n: int, r: int, c: int)
    requires
        n > 0,
        0 <= c < n,
    ensures
        (r * n + c) / n == r,
        (r * n + c) % n == c,
        0 <= r < n ==> 0 <= r * n + c < n * n,
{
    vstd::arithmetic::div_mod::lemma_fundamental_div_mod_converse(r * n + c, n, r, c);
    if 0 <= r < n {
        assert(r * n + c < n * n) by (nonlinear_arith)
            requires
                0 <= r < n,
                0 <= c < n,
        ;
        assert(0 <= r * n) by (nonlinear_arith)
            requires
                0 <= r,
                0 < n,
        ;
    }
}

/// In a row of even length, the parity of an index is that of its column.
proof fn lemma_parity(size_in: int, r: int, c: int)
    requires
        size_in > 0,
    ensures
        (r * (2 * size_in) + c) % 2 == c % 2,
{
    assert(r * (2 * size_in) == 2 * (r * size_in)) by (nonlinear_arith);
    vstd::arithmetic::div_mod::lemma_mod_multiples_vanish(r * size_in, c, 2);
}

/// First pass: every even row of `result` receives an input row, its values spread out over the
/// even columns.
fn spread_rows<T: Copy>(data: &[T], size_in: usize, size_out: usize, result: &mut Vec<T>)
    requires
        size_in > 0,
        size_out == 2 * size_in,
        size_out * size_out <= usize::MAX,
        data@.len() == size_in * size_in,
        old(result)@.len() == size_out * size_out,
    ensures
        final(result)@.len() == size_out * size_out,
        forall|p: int| 0 <= p < size_out * size_out && p % 2 == 1 ==> #[trigger] final(result)@[p] == old(result)@[p],
        forall|p: int| 0 <= p < size_out * size_out && (p / (size_out as int)) % 2 == 1 ==> #[trigger] final(result)@[p] == old(result)@[p],
        forall|y: int, x: int|
            0 <= y < size_in && 0 <= x < size_in ==> final(result)@[#[trigger] even_pos(size_out as int, y, x)] == data@[y * size_in + x],
{
    let ghost si = size_in as int;
    let ghost so = size_out as int;
    let ghost start = result@;
    for y in 0..size_in
        invariant
            si == size_in,
            so == size_out,
            si > 0,
            so == 2 * si,
            so * so <= usize::MAX,
            data@.len() == si * si,
            result@.len() == so * so,
            forall|p: int| 0 <= p < so * so && p % 2 == 1 ==> #[trigger] result@[p] == start[p],
            forall|p: int| 0 <= p < so * so && (p / so) % 2 == 1 ==> #[trigger] result@[p] == start[p],
            forall|yy: int, xx: int|
                0 <= yy < y && 0 <= xx < si ==> result@[#[trigger] even_pos(so, yy, xx)] == data@[yy * si + xx],
    {
        for x in 0..size_in
            invariant
                si == size_in,
                so == size_out,
                si > 0,
                so == 2 * si,
                so * so <= usize::MAX,
                0 <= y < si,
                data@.len() == si * si,
                result@.len() == so * so,
                forall|p: int| 0 <= p < so * so && p % 2 == 1 ==> #[trigger] result@[p] == start[p],
                forall|p: int| 0 <= p < so * so && (p / so) % 2 == 1 ==> #[trigger] result@[p] == start[p],
                forall|yy: int, xx: int|
                    0 <= yy < y && 0 <= xx < si ==> result@[#[trigger] even_pos(so, yy, xx)] == data@[yy * si + xx],
                forall|xx: int| 0 <= xx < x ==> result@[#[trigger] even_pos(so, y as int, xx)] == data@[y * si + xx],
        {
            proof {
                lemma_grid(si, y as int, x as int);
                lemma_grid(so, 2 * y, 2 * x);
                lemma_parity(si, 2 * y, 2 * x);
                vstd::arithmetic::div_mod::lemma_mod_multiples_basic(y as int, 2);
                assert(si * si <= so * so) by (nonlinear_arith)
                    requires
                        so == 2 * si,
                        si > 0,
                ;
            }
            let src = y * size_in + x;
            let dst = (2 * y) * size_out + 2 * x;
            let ghost before = result@;
            result.set(dst, data[src]);
            proof {
                assert forall|yy: int, xx: int|
                    0 <= yy < y && 0 <= xx < si implies result@[#[trigger] even_pos(so, yy, xx)] == data@[yy * si + xx] by {
                    lemma_grid(so, 2 * yy, 2 * xx);
                }
                assert forall|xx: int| 0 <= xx < x + 1 implies result@[#[trigger] even_pos(so, y as int, xx)] == data@[y * si + xx] by {
                    lemma_grid(so, 2 * y, 2 * xx);
                }
            }
        }
    }
}

/// Doubles the resolution of the square `data` of side `2^size_bits_in`, which wraps around at its
/// edges. Every input value is copied to the even row and column of the result that corresponds
/// to it; every other value is the fold of a window of `WINDOW_LEN` neighbours: first down the
/// columns into the odd rows, then along every row into the odd columns.
pub fn upscale_2d<T: Copy, const WINDOW_LEN: usize, F: Fn(&[T; WINDOW_LEN]) -> T>(
    data: &[T],
    size_bits_in: u16,
    fold: F,
) -> (result: Vec<T>)
    requires
        2 <= WINDOW_LEN,
        2 * (size_bits_in + 1) < usize::BITS,
        data@.len() == pow2(size_bits_in as nat) * pow2(size_bits_in as nat),
        pow2(size_bits_in as nat) + WINDOW_LEN <= usize::MAX,
        forall|w: [T; WINDOW_LEN]| call_requires(fold, (&w,)),
    ensures
        is_upscale(data@, result@, pow2(size_bits_in as nat) as int, fold),
{
    let ghost b = size_bits_in as nat;
    let ghost si = pow2(b) as int;
    let ghost so = 2 * si;
    let ghost w = WINDOW_LEN as int;
    proof {
        lemma_pow2_pos(b);
        lemma_pow2_adds(b, 1);
        lemma_pow2_adds(b + 1, b + 1);
        vstd::arithmetic::power2::lemma2_to64();
        vstd::bits::lemma_usize_pow2_no_overflow(b);
        vstd::bits::lemma_usize_pow2_no_overflow(b + 1);
        vstd::bits::lemma_usize_pow2_no_overflow(2 * b + 2);
        vstd::bits::lemma_usize_shl_is_mul(1, b as usize);
        vstd::bits::lemma_usize_shl_is_mul(1, (b + 1) as usize);
        assert(pow2(b + 1) == so);
        assert(pow2(b + 1) * pow2(b + 1) == pow2(b + 1 + b + 1));
        assert(so * so > 0) by (nonlinear_arith)
            requires
                so > 0,
        ;
    }
    let size_in: usize = 1usize << (size_bits_in as usize);
    let size_bits_out = size_bits_in + 1;
    let size_out: usize = 1usize << (size_bits_out as usize);
    proof {
        assert(data@.len() > 0) by (nonlinear_arith)
            requires
                data@.len() == si * si,
                si > 0,
        ;
    }
    let mut result: Vec<T> = vec![data[0]; size_out * size_out];

    // resize vertically: fill every even row with the input values (spread out) ...
    spread_rows(data, size_in, size_out, &mut result);
    let ghost first = result@;
    // ... and every odd row, at its even columns, with interpolated values
    interpolate_columns(data, size_in, size_out, Ghost(b), &fold, &mut result);
    let ghost second = result@;
    // resize horizontally: intersperse interpolated values into the odd columns of every row
    interpolate_rows(size_in, size_out, Ghost(b), &fold, &mut result);
    proof {
        assert forall|y: int, x: int|
            0 <= y < si && 0 <= x < si implies result@[#[trigger] even_pos(so, y, x)] == data@[y * si + x] by {
            lemma_grid(so, 2 * y, 2 * x);
            lemma_parity(si, 2 * y, 2 * x);
            vstd::arithmetic::div_mod::lemma_mod_multiples_basic(y, 2);
            assert(second[even_pos(so, y, x)] == first[even_pos(so, y, x)]);
        }
        assert forall|y: int, x: int|
            0 <= y < si && 0 <= x < si implies call_ensures(
                fold,
                (&array_of::<T, WINDOW_LEN>(column_window(data@, si, w, y, x)),),
                result@[#[trigger] vertical_pos(so, y, x)],
            ) by {
            lemma_grid(so, 2 * y + 1, 2 * x);
            lemma_parity(si, 2 * y + 1, 2 * x);
            assert(result@[vertical_pos(so, y, x)] == second[vertical_pos(so, y, x)]);
        }
        assert forall|row: int, x: int|
            0 <= row < so && 0 <= x < si implies call_ensures(
                fold,
                (&array_of::<T, WINDOW_LEN>(row_window(result@, si, w, row, x)),),
                result@[#[trigger] horizontal_pos(so, row, x)],
            ) by {
            assert forall|i: int| 0 <= i < w implies #[trigger] row_window(second, si, w, row, x)[i]
                == row_window(result@, si, w, row, x)[i] by {
                let col = (x + i - window_offset(w)) % si;
                vstd::arithmetic::div_mod::lemma_mod_bound(x + i - window_offset(w), si);
                lemma_grid(so, row, 2 * col);
                lemma_parity(si, row, 2 * col);
            }
            assert(row_window(second, si, w, row, x) =~= row_window(result@, si, w, row, x));
        }
    }
    result
}

/// A table of `2^resolution_bits` kernels, one for each sub-cell position between two
/// neighbouring values that a sampler can be asked for.
pub struct KernelTable<K> {
    resolution_bits: u32,
    kernels: Vec<K>,
}

impl<K> KernelTable<K> {
    /// The number of sub-cell positions is `2^spec_resolution_bits()`.
    pub closed spec fn spec_resolution_bits(&self) -> u32 {
        self.resolution_bits
    }

    /// The kernels, ordered by sub-cell position.
    pub closed spec fn kernels(&self) -> Seq<K> {
        self.kernels@
    }

    /// There is one kernel per sub-cell position.
    pub open spec fn wf(&self) -> bool {
        &&& self.spec_resolution_bits() < usize::BITS
        &&& self.kernels().len() == pow2(self.spec_resolution_bits() as nat)
    }

    /// Builds the kernel for each position `shift` in `0 .. 2^resolution_bits` as
    /// `kernel(shift, 2^resolution_bits)`; the kernel is centred `shift / 2^resolution_bits` of a
    /// cell past the value it follows.
    pub fn new(resolution_bits: u32, kernel: impl Fn(u32, u32) -> K) -> (r: Self)
        requires
            resolution_bits < 32,
            resolution_bits < usize::BITS,
            forall|shift: u32| shift < pow2(resolution_bits as nat) ==> #[trigger] call_requires(
                kernel,
                (shift, pow2(resolution_bits as nat) as u32),
            ),
        ensures
            r.wf(),
            r.spec_resolution_bits() == resolution_bits,
            forall|i: int|
                0 <= i < r.kernels().len() ==> call_ensures(
                    kernel,
                    (i as u32, pow2(resolution_bits as nat) as u32),
                    #[trigger] r.kernels()[i],
                ),
    {
        proof {
            vstd::bits::lemma_u32_pow2_no_overflow(resolution_bits as nat);
            vstd::bits::lemma_u32_shl_is_mul(1, resolution_bits);
        }
        let kernel_count: u32 = 1u32 << resolution_bits;
        assert(kernel_count == pow2(resolution_bits as nat) as u32);
        let mut kernels: Vec<K> = Vec::new();
        for shift in 0..kernel_count
            invariant
                kernel_count == pow2(resolution_bits as nat),
                forall|s: u32| s < pow2(resolution_bits as nat) ==> #[trigger] call_requires(kernel, (s, kernel_count)),
                kernels@.len() == shift,
                forall|i: int|
                    0 <= i < shift ==> call_ensures(kernel, (i as u32, kernel_count), #[trigger] kernels@[i]),
        {
            kernels.push(kernel(shift, kernel_count));
        }
        KernelTable { resolution_bits, kernels }
    }

    /// The number of bits of sub-cell resolution.
    pub fn resolution_bits(&self) -> (r: u32)
        ensures
            r == self.spec_resolution_bits(),
    {
        self.resolution_bits
    }

    /// The kernel for a position: the low `resolution_bits` bits of `shift` select it.
    pub fn kernel(&self, shift: u16) -> (r: &K)
        requires
            self.wf(),
        ensures
            *r == self.kernels()[shift as int % pow2(self.spec_resolution_bits() as nat) as int],
    {
        let ghost b = self.resolution_bits as nat;
        proof {
            lemma_pow2_pos(b);
            vstd::bits::lemma_usize_low_bits_mask_is_mod(shift as usize, b);
        }
        &self.kernels[(shift as usize) & (self.kernels.len() - 1)]
    }
}

/// An array whose view is `s` is the array `array_of(s)`.
proof fn lemma_array_of<T, const N: usize>(a: [T; N], s: Seq<T>)
    requires
        a@ == s,
    ensures
        a == array_of::<T, N>(s),
{
    let b = array_of::<T, N>(s);
    assert(b@ == s);
    assert(a =~= b);
}

/// Second pass: every odd row of `result` receives, at its even columns, the fold of the input
/// column around it.
fn interpolate_columns<T: Copy, const WINDOW_LEN: usize, F: Fn(&[T; WINDOW_LEN]) -> T>(
    data: &[T],
    size_in: usize,
    size_out: usize,
    Ghost(bits): Ghost<nat>,
    fold: &F,
    result: &mut Vec<T>,
)
    requires
        2 <= WINDOW_LEN,
        bits < usize::BITS,
        size_in == pow2(bits),
        size_out == 2 * size_in,
        size_out * size_out <= usize::MAX,
        size_in + WINDOW_LEN <= usize::MAX,
        data@.len() == size_in * size_in,
        old(result)@.len() == size_out * size_out,
        forall|w: [T; WINDOW_LEN]| call_requires(*fold, (&w,)),
    ensures
        final(result)@.len() == size_out * size_out,
        forall|p: int| 0 <= p < size_out * size_out && p % 2 == 1 ==> #[trigger] final(result)@[p] == old(result)@[p],
        forall|p: int| 0 <= p < size_out * size_out && (p / (size_out as int)) % 2 == 0 ==> #[trigger] final(result)@[p] == old(result)@[p],
        forall|y: int, x: int|
            0 <= y < size_in && 0 <= x < size_in ==> call_ensures(
                *fold,
                (&array_of::<T, WINDOW_LEN>(column_window(data@, size_in as int, WINDOW_LEN as int, y, x)),),
                final(result)@[#[trigger] vertical_pos(size_out as int, y, x)],
            ),
{
    let ghost si = size_in as int;
    let ghost so = size_out as int;
    let ghost w = WINDOW_LEN as int;
    let ghost start = result@;
    proof {
        lemma_pow2_pos(bits);
        assert(si * si <= so * so) by (nonlinear_arith)
            requires
                so == 2 * si,
                si > 0,
        ;
        assert(si * si > 0) by (nonlinear_arith)
            requires
                si > 0,
        ;
        assert((si - 1) * si + si == si * si) by (nonlinear_arith);
    }
    let mask_in = size_in - 1;
    let offset = WINDOW_LEN / 2 - 1;
    for y in 0..size_in
        invariant
            si == size_in,
            so == size_out,
            w == WINDOW_LEN,
            2 <= WINDOW_LEN,
            bits < usize::BITS,
            si == pow2(bits),
            si > 0,
            so == 2 * si,
            si * si <= so * so,
            si * si > 0,
            (si - 1) * si + si == si * si,
            so * so <= usize::MAX,
            si + w <= usize::MAX,
            mask_in == si - 1,
            offset == window_offset(w),
            data@.len() == si * si,
            result@.len() == so * so,
            forall|w: [T; WINDOW_LEN]| call_requires(*fold, (&w,)),
            forall|p: int| 0 <= p < so * so && p % 2 == 1 ==> #[trigger] result@[p] == start[p],
            forall|p: int| 0 <= p < so * so && (p / so) % 2 == 0 ==> #[trigger] result@[p] == start[p],
            forall|yy: int, xx: int|
                0 <= yy < y && 0 <= xx < si ==> call_ensures(
                    *fold,
                    (&array_of::<T, WINDOW_LEN>(column_window(data@, si, w, yy, xx)),),
                    result@[#[trigger] vertical_pos(so, yy, xx)],
                ),
    {
        // select the input rows for the filter
        let mut row_starts: [usize; WINDOW_LEN] = [0usize; WINDOW_LEN];
        for i in 0..WINDOW_LEN
            invariant
                si == size_in,
                w == WINDOW_LEN,
                bits < usize::BITS,
                si == pow2(bits),
                si > 0,
                0 <= y < si,
                si * si <= usize::MAX,
                (si - 1) * si + si == si * si,
                si + w <= usize::MAX,
                mask_in == si - 1,
                offset == window_offset(w),
                forall|k: int| 0 <= k < i ==> #[trigger] row_starts@[k] == ((y + k - window_offset(w)) % si) * si,
                forall|k: int| 0 <= k < i ==> 0 <= #[trigger] row_starts@[k] <= (si - 1) * si,
        {
            let row_in = (y + i).wrapping_sub(offset) & mask_in;
            proof {
                lemma_usize_wrap_mask((y + i) as usize, offset, bits);
                vstd::arithmetic::div_mod::lemma_mod_bound(y + i - offset, si);
                assert(row_in * si <= (si - 1) * si) by (nonlinear_arith)
                    requires
                        0 <= row_in < si,
                ;
                assert(0 <= row_in * si) by (nonlinear_arith)
                    requires
                        0 <= row_in,
                        0 < si,
                ;
            }
            row_starts[i] = row_in * size_in;
        }
        for x in 0..size_in
            invariant
                si == size_in,
                so == size_out,
                w == WINDOW_LEN,
                2 <= WINDOW_LEN,
                si > 0,
                so == 2 * si,
                si * si <= so * so,
                si * si > 0,
                (si - 1) * si + si == si * si,
                so * so <= usize::MAX,
                0 <= y < si,
                data@.len() == si * si,
                result@.len() == so * so,
                forall|w: [T; WINDOW_LEN]| call_requires(*fold, (&w,)),
                forall|k: int| 0 <= k < w ==> #[trigger] row_starts@[k] == ((y + k - window_offset(w)) % si) * si,
                forall|k: int| 0 <= k < w ==> 0 <= #[trigger] row_starts@[k] <= (si - 1) * si,
                forall|p: int| 0 <= p < so * so && p % 2 == 1 ==> #[trigger] result@[p] == start[p],
                forall|p: int| 0 <= p < so * so && (p / so) % 2 == 0 ==> #[trigger] result@[p] == start[p],
                forall|yy: int, xx: int|
                    0 <= yy < y && 0 <= xx < si ==> call_ensures(
                        *fold,
                        (&array_of::<T, WINDOW_LEN>(column_window(data@, si, w, yy, xx)),),
                        result@[#[trigger] vertical_pos(so, yy, xx)],
                    ),
                forall|xx: int|
                    0 <= xx < x ==> call_ensures(
                        *fold,
                        (&array_of::<T, WINDOW_LEN>(column_window(data@, si, w, y as int, xx)),),
                        result@[#[trigger] vertical_pos(so, y as int, xx)],
                    ),
        {
            // select the input values
            let mut values: [T; WINDOW_LEN] = [data[0]; WINDOW_LEN];
            for i in 0..WINDOW_LEN
                invariant
                    si == size_in,
                    w == WINDOW_LEN,
                    si > 0,
                    0 <= y < si,
                    0 <= x < si,
                    si * si <= usize::MAX,
                    (si - 1) * si + si == si * si,
                    data@.len() == si * si,
                    forall|k: int| 0 <= k < w ==> #[trigger] row_starts@[k] == ((y + k - window_offset(w)) % si) * si,
                    forall|k: int| 0 <= k < w ==> 0 <= #[trigger] row_starts@[k] <= (si - 1) * si,
                    forall|k: int| 0 <= k < i ==> #[trigger] values@[k] == column_window(data@, si, w, y as int, x as int)[k],
            {
                let start_i = row_starts[i];
                values[i] = data[start_i + x];
            }
            proof {
                assert(values@ =~= column_window(data@, si, w, y as int, x as int));
                lemma_array_of(values, column_window(data@, si, w, y as int, x as int));
                lemma_grid(so, 2 * y + 1, 2 * x);
                lemma_parity(si, 2 * y + 1, 2 * x);
                vstd::arithmetic::div_mod::lemma_mod_multiples_basic(y as int, 2);
            }
            let value = fold(&values);
            let dst = (2 * y + 1) * size_out + 2 * x;
            result.set(dst, value);
            proof {
                assert forall|yy: int, xx: int|
                    0 <= yy < y && 0 <= xx < si implies call_ensures(
                        *fold,
                        (&array_of::<T, WINDOW_LEN>(column_window(data@, si, w, yy, xx)),),
                        result@[#[trigger] vertical_pos(so, yy, xx)],
                    ) by {
                    lemma_grid(so, 2 * yy + 1, 2 * xx);
                }
                assert forall|xx: int|
                    0 <= xx < x + 1 implies call_ensures(
                        *fold,
                        (&array_of::<T, WINDOW_LEN>(column_window(data@, si, w, y as int, xx)),),
                        result@[#[trigger] vertical_pos(so, y as int, xx)],
                    ) by {
                    lemma_grid(so, 2 * y + 1, 2 * xx);
                }
            }
        }
    }
}

/// Third pass: every row of `result` receives, at its odd columns, the fold of the even columns
/// around them.
fn interpolate_rows<T: Copy, const WINDOW_LEN: usize, F: Fn(&[T; WINDOW_LEN]) -> T>(
    size_in: usize,
    size_out: usize,
    Ghost(bits): Ghost<nat>,
    fold: &F,
    result: &mut Vec<T>,
)
    requires
        2 <= WINDOW_LEN,
        bits < usize::BITS,
        size_in == pow2(bits),
        size_out == 2 * size_in,
        size_out * size_out <= usize::MAX,
        size_in + WINDOW_LEN <= usize::MAX,
        old(result)@.len() == size_out * size_out,
        forall|w: [T; WINDOW_LEN]| call_requires(*fold, (&w,)),
    ensures
        final(result)@.len() == size_out * size_out,
        forall|p: int| 0 <= p < size_out * size_out && p % 2 == 0 ==> #[trigger] final(result)@[p] == old(result)@[p],
        forall|row: int, x: int|
            0 <= row < size_out && 0 <= x < size_in ==> call_ensures(
                *fold,
                (&array_of::<T, WINDOW_LEN>(row_window(old(result)@, size_in as int, WINDOW_LEN as int, row, x)),),
                final(result)@[#[trigger] horizontal_pos(size_out as int, row, x)],
            ),
{
    let ghost si = size_in as int;
    let ghost so = size_out as int;
    let ghost w = WINDOW_LEN as int;
    let ghost start = result@;
    proof {
        lemma_pow2_pos(bits);
        assert(so * so > 0) by (nonlinear_arith)
            requires
                so > 0,
        ;
    }
    let mask_in = size_in - 1;
    let offset = WINDOW_LEN / 2 - 1;
    for row in 0..size_out
        invariant
            si == size_in,
            so == size_out,
            w == WINDOW_LEN,
            2 <= WINDOW_LEN,
            bits < usize::BITS,
            si == pow2(bits),
            si > 0,
            so == 2 * si,
            so * so > 0,
            so * so <= usize::MAX,
            si + w <= usize::MAX,
            mask_in == si - 1,
            offset == window_offset(w),
            result@.len() == so * so,
            forall|w: [T; WINDOW_LEN]| call_requires(*fold, (&w,)),
            forall|p: int| 0 <= p < so * so && p % 2 == 0 ==> #[trigger] result@[p] == start[p],
            forall|rr: int, xx: int|
                0 <= rr < row && 0 <= xx < si ==> call_ensures(
                    *fold,
                    (&array_of::<T, WINDOW_LEN>(row_window(start, si, w, rr, xx)),),
                    result@[#[trigger] horizontal_pos(so, rr, xx)],
                ),
    {
        for x_in in 0..size_in
            invariant
                si == size_in,
                so == size_out,
                w == WINDOW_LEN,
                2 <= WINDOW_LEN,
                bits < usize::BITS,
                si == pow2(bits),
                si > 0,
                so == 2 * si,
                so * so > 0,
                so * so <= usize::MAX,
                si + w <= usize::MAX,
                mask_in == si - 1,
                offset == window_offset(w),
                0 <= row < so,
                result@.len() == so * so,
                forall|w: [T; WINDOW_LEN]| call_requires(*fold, (&w,)),
                forall|p: int| 0 <= p < so * so && p % 2 == 0 ==> #[trigger] result@[p] == start[p],
                forall|rr: int, xx: int|
                    0 <= rr < row && 0 <= xx < si ==> call_ensures(
                        *fold,
                        (&array_of::<T, WINDOW_LEN>(row_window(start, si, w, rr, xx)),),
                        result@[#[trigger] horizontal_pos(so, rr, xx)],
                    ),
                forall|xx: int|
                    0 <= xx < x_in ==> call_ensures(
                        *fold,
                        (&array_of::<T, WINDOW_LEN>(row_window(start, si, w, row as int, xx)),),
                        result@[#[trigger] horizontal_pos(so, row as int, xx)],
                    ),
        {
            // select the input pixels around `x_in`
            let mut values: [T; WINDOW_LEN] = [result[0]; WINDOW_LEN];
            for i in 0..WINDOW_LEN
                invariant
                    si == size_in,
                    so == size_out,
                    w == WINDOW_LEN,
                    bits < usize::BITS,
                    si == pow2(bits),
                    si > 0,
                    so == 2 * si,
                    so * so <= usize::MAX,
                    si + w <= usize::MAX,
                    mask_in == si - 1,
                    offset == window_offset(w),
                    0 <= row < so,
                    0 <= x_in < si,
                    result@.len() == so * so,
                    forall|p: int| 0 <= p < so * so && p % 2 == 0 ==> #[trigger] result@[p] == start[p],
                    forall|k: int| 0 <= k < i ==> #[trigger] values@[k] == row_window(start, si, w, row as int, x_in as int)[k],
            {
                let col_in = (x_in + i).wrapping_sub(offset) & mask_in;
                proof {
                    lemma_usize_wrap_mask((x_in + i) as usize, offset, bits);
                    vstd::arithmetic::div_mod::lemma_mod_bound(x_in + i - offset, si);
                    lemma_grid(so, row as int, 2 * col_in);
                    lemma_parity(si, row as int, 2 * col_in);
                }
                values[i] = result[row * size_out + col_in * 2];
            }
            proof {
                assert(values@ =~= row_window(start, si, w, row as int, x_in as int));
                lemma_array_of(values, row_window(start, si, w, row as int, x_in as int));
                lemma_grid(so, row as int, 2 * x_in + 1);
                lemma_parity(si, row as int, 2 * x_in + 1);
            }
            let value = fold(&values);
            result.set(row * size_out + x_in * 2 + 1, value);
            proof {
                assert forall|rr: int, xx: int|
                    0 <= rr < row && 0 <= xx < si implies call_ensures(
                        *fold,
                        (&array_of::<T, WINDOW_LEN>(row_window(start, si, w, rr, xx)),),
                        result@[#[trigger] horizontal_pos(so, rr, xx)],
                    ) by {
                    lemma_grid(so, rr, 2 * xx + 1);
                }
                assert forall|xx: int|
                    0 <= xx < x_in + 1 implies call_ensures(
                        *fold,
                        (&array_of::<T, WINDOW_LEN>(row_window(start, si, w, row as int, xx)),),
                        result@[#[trigger] horizontal_pos(so, row as int, xx)],
                    ) by {
                    lemma_grid(so, row as int, 2 * xx + 1);
                }
            }
        }
    }
}

} // verus!
