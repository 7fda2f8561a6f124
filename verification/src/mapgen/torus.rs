//! Arithmetic of square maps that wrap around at their edges (a torus), with a side length
//! that is a power of two not larger than the range of a `u16` coordinate.

use vstd::prelude::*;
use vstd::arithmetic::power2::{pow2, lemma_pow2_pos, lemma_pow2_adds, lemma_pow2_strictly_increases, lemma2_to64};
use vstd::arithmetic::div_mod::{lemma_mod_mod, lemma_fundamental_div_mod_converse, lemma_mod_bound};
use vstd::arithmetic::mul::lemma_mul_inequality;
use vstd::bits::{lemma_u32_shl_is_mul, lemma_u32_pow2_no_overflow, lemma_usize_shl_is_mul, lemma_usize_pow2_no_overflow};

verus! {

/// Side length of a square whose coordinates are `bits` wide.
pub open spec fn side(bits: u32) -> nat {
    pow2(bits as nat)
}

/// The number of distinct values that a wrapped `u16` coordinate takes on a square whose
/// coordinates are `bits` wide: the side, or the `2^16` values of a `u16` where the square is
/// wider than that.
pub open spec fn reach(bits: u32) -> nat {
    if bits <= 16 {
        side(bits)
    } else {
        0x10000
    }
}

/// Index of the cell `(x, y)` in the row-major storage of a square of side `s`, both
/// coordinates wrapping around at `r`.
pub open spec fn wrapped_offset(r: int, s: int, x: int, y: int) -> int {
    (y % r) * s + (x % r)
}

/// Facts about the side and the reach of a square with fewer than 32 bits per coordinate.
pub proof fn lemma_side(bits: u32)
    requires
        bits < 32,
    ensures
        0 < reach(bits) <= 0x10000,
        0x10000int % (reach(bits) as int) == 0,
        reach(bits) <= side(bits),
        (side(bits) as int) % (reach(bits) as int) == 0,
        bits <= 16 ==> reach(bits) == side(bits),
        (1u32 << bits) == side(bits),
        bits < usize::BITS ==> (1usize << (bits as usize)) == side(bits),
{
    lemma_pow2_pos(bits as nat);
    lemma2_to64();
    lemma_u32_pow2_no_overflow(bits as nat);
    lemma_u32_shl_is_mul(1, bits);
    if bits < usize::BITS {
        lemma_usize_pow2_no_overflow(bits as nat);
        lemma_usize_shl_is_mul(1, bits as usize);
    }
    if bits <= 16 {
        if bits < 16 {
            lemma_pow2_strictly_increases(bits as nat, 16);
        }
        lemma_pow2_adds(bits as nat, (16 - bits) as nat);
        lemma_pow2_pos((16 - bits) as nat);
        assert(0x10000int == side(bits) * pow2((16 - bits) as nat));
        vstd::arithmetic::div_mod::lemma_mod_multiples_basic(pow2((16 - bits) as nat) as int, side(bits) as int);
        vstd::arithmetic::mul::lemma_mul_is_commutative(pow2((16 - bits) as nat) as int, side(bits) as int);
        vstd::arithmetic::div_mod::lemma_mod_self_0(side(bits) as int);
    } else {
        lemma_pow2_strictly_increases(16, bits as nat);
        lemma_pow2_adds(16, (bits - 16) as nat);
        lemma_pow2_pos((bits - 16) as nat);
        assert(side(bits) == 0x10000 * pow2((bits - 16) as nat));
        vstd::arithmetic::div_mod::lemma_mod_multiples_basic(pow2((bits - 16) as nat) as int, 0x10000int);
        vstd::arithmetic::mul::lemma_mul_is_commutative(pow2((bits - 16) as nat) as int, 0x10000int);
        vstd::arithmetic::div_mod::lemma_mod_self_0(0x10000int);
    }
}

/// Masking a coordinate with `reach - 1` takes it modulo the reach.
pub proof fn lemma_mask_is_mod(x: u16, mask: u16, bits: u32)
    requires
        bits < 32,
        mask == reach(bits) - 1,
    ensures
        x & mask == x as int % (reach(bits) as int),
{
    lemma_side(bits);
    if bits <= 16 {
        assert(mask == ((1u32 << bits) - 1u32) as u16);
        assert(((x & ((((1u32 << bits) - 1u32) as u16))) as u32) == (x as u32) % (1u32 << bits))
            by (bit_vector)
            requires
                bits <= 16,
        ;
    } else {
        assert(mask == 0xffffu16);
        assert(x & 0xffffu16 == x) by (bit_vector);
        vstd::arithmetic::div_mod::lemma_small_mod(x as nat, 0x10000);
    }
}

/// The mask that wraps a coordinate: `2^bits - 1`, truncated to the 16 bits of a coordinate.
pub proof fn lemma_truncated_mask(bits: u32)
    requires
        bits < 32,
    ensures
        (((1u32 << bits) - 1u32) as u16) == reach(bits) - 1,
{
    lemma_side(bits);
    if bits > 16 {
        assert((((1u32 << bits) - 1u32) as u16) == 0xffffu16) by (bit_vector)
            requires
                16 < bits < 32,
        ;
    }
}

/// Reducing a value modulo 2^16 first does not change its residue modulo the reach.
pub proof fn lemma_mod_u16_range(a: int, bits: u32)
    requires
        bits < 32,
    ensures
        (a % 0x10000) % (reach(bits) as int) == a % (reach(bits) as int),
{
    lemma_side(bits);
    let r = reach(bits) as int;
    let k = 0x10000int / r;
    vstd::arithmetic::div_mod::lemma_fundamental_div_mod(0x10000int, r);
    assert(r * k == 0x10000int);
    assert(k > 0) by (nonlinear_arith)
        requires
            r * k == 0x10000int,
            r > 0,
    ;
    vstd::arithmetic::mul::lemma_mul_is_commutative(r, k);
    lemma_mod_mod(a, r, k);
}

/// The wrapped offset of a cell lies within the square, and determines the wrapped coordinates.
pub proof fn lemma_wrapped_offset_bounds(r: int, s: int, x: int, y: int)
    requires
        0 < r <= s,
    ensures
        0 <= y % r < r,
        0 <= x % r < r,
        0 <= wrapped_offset(r, s, x, y) < s * s,
        wrapped_offset(r, s, x, y) % s == x % r,
        wrapped_offset(r, s, x, y) / s == y % r,
{
    lemma_mod_bound(x, r);
    lemma_mod_bound(y, r);
    lemma_mul_inequality(y % r, s - 1, s);
    assert((s - 1) * s == s * s - s) by (nonlinear_arith);
    lemma_fundamental_div_mod_converse(wrapped_offset(r, s, x, y), s, y % r, x % r);
}

/// Two cells share an offset exactly when their coordinates agree modulo the reach.
pub proof fn lemma_wrapped_offset_injective(r: int, s: int, x1: int, y1: int, x2: int, y2: int)
    requires
        0 < r <= s,
    ensures
        wrapped_offset(r, s, x1, y1) == wrapped_offset(r, s, x2, y2) <==> (x1 % r == x2 % r && y1 % r
            == y2 % r),
{
    lemma_wrapped_offset_bounds(r, s, x1, y1);
    lemma_wrapped_offset_bounds(r, s, x2, y2);
}

/// Shifting a row index left by the coordinate width multiplies it by the side, and or-ing a
/// column index into the result adds it.
pub proof fn lemma_row_or_col(w: usize, c: usize, bits: u32)
    requires
        bits < 32,
        bits < usize::BITS,
        c < side(bits),
        (w + 1) * side(bits) <= usize::MAX + 1,
    ensures
        (w << (bits as usize)) == w * side(bits),
        ((w << (bits as usize)) | c) == w * side(bits) + c,
{
    lemma_side(bits);
    let s = side(bits) as int;
    assert(w * s + s == (w + 1) * s) by (nonlinear_arith);
    assert(w * s <= usize::MAX);
    lemma_usize_shl_is_mul(w, bits as usize);
    let b = bits as usize;
    assert(((w << b) | c) == (w << b) + c) by (bit_vector)
        requires
            b < 64,
            c < (1usize << b),
    ;
}

/// The number of cells of a square with `bits` bits per coordinate.
pub proof fn lemma_square_len(bits: u32)
    requires
        2 * bits < usize::BITS,
    ensures
        (1usize << ((2 * bits) as usize)) == side(bits) * side(bits),
{
    lemma_pow2_adds(bits as nat, bits as nat);
    lemma_usize_pow2_no_overflow((2 * bits) as nat);
    lemma_usize_shl_is_mul(1, (2 * bits) as usize);
}

/// A coordinate moved by `i` and then back by `off` with `u16` wrapping arithmetic, as the
/// window of a sampler is laid out, is the exact shift taken modulo 2^16.
pub proof fn lemma_u16_window_coordinate(base: u16, i: usize, off: u16)
    ensures
        (base.wrapping_add(i as u16).wrapping_sub(off)) as int == (base + i - off) % 0x10000,
{
    lemma_usize_as_u16(i);
    let m = 0x10000int;
    let t = base.wrapping_add(i as u16);
    assert(t as int == (base + (i as u16)) % m);
    let w = t.wrapping_sub(off);
    assert(w as int == (t - off) % m);
    vstd::arithmetic::div_mod::lemma_add_mod_noop_right(base as int, i as int, m);
    vstd::arithmetic::div_mod::lemma_sub_mod_noop(base + i, off as int, m);
    vstd::arithmetic::div_mod::lemma_sub_mod_noop(t as int, off as int, m);
    vstd::arithmetic::div_mod::lemma_small_mod(off as nat, m as nat);
    vstd::arithmetic::div_mod::lemma_small_mod(t as nat, m as nat);
    vstd::arithmetic::div_mod::lemma_mod_twice(base + i, m);
}

/// A coordinate moved by a signed step with `u16` wrapping arithmetic.
pub proof fn lemma_u16_step(x: u16)
    ensures
        (x.wrapping_add(1)) as int == (x + 1) % 0x10000,
        (x.wrapping_sub(1)) as int == (x - 1) % 0x10000,
{
}

/// Subtracting with `usize` wrapping arithmetic and then masking with `2^b - 1` takes the
/// exact difference modulo `2^b`.
pub proof fn lemma_usize_wrap_mask(v: usize, off: usize, b: nat)
    requires
        b < usize::BITS,
    ensures
        (v.wrapping_sub(off) & ((pow2(b) - 1) as usize)) as int == (v - off) % (pow2(b) as int),
{
    let w = v.wrapping_sub(off);
    vstd::bits::lemma_usize_low_bits_mask_is_mod(w, b);
    lemma_usize_pow2_no_overflow(b);
    lemma_pow2_pos(b);
    let p = pow2(b) as int;
    let top = usize::BITS as nat;
    lemma2_to64();
    assert(pow2(top) == usize::MAX + 1);
    lemma_pow2_adds(b, (top - b) as nat);
    lemma_pow2_pos((top - b) as nat);
    let q = pow2((top - b) as nat) as int;
    assert(usize::MAX + 1 == p * q);
    if v - off < 0 {
        assert(w as int == (v - off) + p * q);
        vstd::arithmetic::div_mod::lemma_mod_multiples_vanish(q, v - off, p);
        vstd::arithmetic::mul::lemma_mul_is_commutative(p, q);
    }
}

/// A `usize` counter cast to `u16` is the counter modulo 2^16.
pub proof fn lemma_usize_as_u16(i: usize)
    ensures
        (i as u16) as int == i as int % 0x10000,
{
    assert((i as u16) as usize == i % 0x10000) by (bit_vector);
}

} // verus!
