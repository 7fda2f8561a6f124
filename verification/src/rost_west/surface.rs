//! Integer parts of laying out the surface of the world: block and node coordinates, and
//! reading signed coordinates back from map indices.

use vstd::prelude::*;
use vstd::arithmetic::power2::pow2;

verus! {

/// The signed number that the low `bits` bits of `value` stand for in two's complement.
pub open spec fn signed_low_bits(value: int, bits: nat) -> int {
    let m = pow2(bits) as int;
    let low = value % m;
    if low >= m / 2 {
        low - m
    } else {
        low
    }
}

/// The low `bits` bits of `value`, read as a two's complement number: `value` is shifted up
/// to the top of an `i16` and arithmetically back down.
pub fn sign_extend(value: usize, bits: u32) -> (r: i16)
    requires
        1 <= bits <= 16,
    ensures
        r as int == signed_low_bits(value as int, bits as nat),
{
    let shift = 16 - bits;
    let r = ((value << (shift as usize)) as i16) >> shift;
    proof {
        let b = bits as usize;
        let s = shift;
        vstd::arithmetic::power2::lemma_pow2_pos(bits as nat);
        vstd::bits::lemma_usize_pow2_no_overflow(bits as nat);
        vstd::bits::lemma_usize_shl_is_mul(1, b);
        vstd::bits::lemma_usize_pow2_no_overflow((bits - 1) as nat);
        vstd::bits::lemma_usize_shl_is_mul(1, (b - 1) as usize);
        vstd::arithmetic::power2::lemma_pow2_unfold(bits as nat);
        vstd::bits::lemma_usize_low_bits_mask_is_mod(value, bits as nat);
        let m: usize = 1usize << b;
        let half: usize = 1usize << ((b - 1) as usize);
        let mask: usize = (m - 1) as usize;
        let low: usize = value & mask;
        assert(m == pow2(bits as nat) && half == pow2((bits - 1) as nat));
        assert(m / 2 == half);
        assert(mask == vstd::bits::low_bits_mask(bits as nat) as usize);
        assert(low == value % m);
        assert(r as int == if low >= half { low as int - m as int } else { low as int }) by (bit_vector)
            requires
                1 <= b <= 16,
                s == 16 - b,
                m == 1usize << b,
                half == 1usize << ((b - 1) as usize),
                mask == m - 1,
                low == value & mask,
                r == ((value << (s as usize)) as i16) >> s,
        ;
    }
    r
}

/// The number of bits of a node coordinate within its block.
pub const BITS_PER_BLOCK: u32 = 4;

/// The world coordinate, as the unsigned 16-bit number the maps are sampled at, of node `node`
/// (counted from the block's first node) of the block with index `block`; coordinates wrap
/// around at the edge of the world.
pub fn node_world_coordinate(block: i16, node: usize) -> (r: u16)
    requires
        node < 16,
    ensures
        r as int == (block * 16 + node) % 0x10000,
{
    let block_start = block << BITS_PER_BLOCK;
    let world = block_start.wrapping_add(node as i16) as u16;
    proof {
        let n = node as i16;
        assert(n as int == node as int);
        assert((block << 4u32) as u16 == (block as u16) << 4u16) by (bit_vector);
        let t = block << 4u32;
        assert(t.wrapping_add(n) as u16 == ((t as u16) as int + (n as u16) as int) as u16) by (bit_vector)
            requires
                0 <= n < 16,
        ;
        assert((((block as u16) << 4u16) as int + node as int) % 0x10000 == (block * 16 + node) % 0x10000) by {
            vstd::arithmetic::power2::lemma2_to64();
            assert(((block as u16) % 0x1000) * 16 <= 0xffff);
            vstd::bits::lemma_u16_shl_is_mul((block as u16) % 0x1000, 4);
            assert(((block as u16) << 4u16) == (((block as u16) % 0x1000) << 4u16)) by (bit_vector);
            assert((block as u16) as i32 == if block < 0 { (block as i32 + 0x10000i32) as i32 } else { block as i32 }) by (bit_vector);
            assert((block as u16) as int == (block as int) % 0x10000);
            vstd::arithmetic::power2::lemma2_to64();
            assert(((block as u16) << 4u16) as int == ((block as u16) as int % 0x1000) * 16);
            vstd::arithmetic::div_mod::lemma_mod_mod(block as int, 0x1000, 16);
            assert(((block as u16) as int % 0x1000) == (block as int) % 0x1000);
            assert(((block as int) % 0x1000) * 16 == (block * 16) % 0x10000) by {
                vstd::arithmetic::div_mod::lemma_fundamental_div_mod(block as int, 0x1000);
                assert(block * 16 == ((block as int) / 0x1000) * 0x10000 + ((block as int) % 0x1000) * 16);
                vstd::arithmetic::div_mod::lemma_mod_bound(block as int, 0x1000);
                vstd::arithmetic::div_mod::lemma_fundamental_div_mod_converse(
                    block * 16,
                    0x10000,
                    (block as int) / 0x1000,
                    ((block as int) % 0x1000) * 16,
                );
            }
            vstd::arithmetic::div_mod::lemma_add_mod_noop((block * 16) as int, node as int, 0x10000);
            vstd::arithmetic::div_mod::lemma_small_mod(node as nat, 0x10000);
            vstd::arithmetic::div_mod::lemma_mod_twice(block * 16, 0x10000);
        }
    }
    world
}

/// Position of node coordinate `n` within its block.
pub fn node_in_block(n: i16) -> (r: usize)
    ensures
        r == n % 16,
{
    let r = (n & (16 - 1)) as usize;
    assert((n & 15i16) as int == n % 16) by (bit_vector);
    r
}

} // verus!
