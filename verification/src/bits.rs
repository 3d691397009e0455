//! Bit-level vocabulary shared by the scramblers: single bits, low-bit masks,
//! agreement of two words on their low bits, and bit reversal.

use vstd::prelude::*;
use vstd::arithmetic::power2::pow2;

verus! {

/// Bit `k` of `x`, for `k < 32`.
pub open spec fn bit(x: u32, k: u32) -> bool {
    (x >> k) & 1 == 1
}

/// The word whose bits `0..k` are set and whose other bits are clear.
pub open spec fn low_mask(k: u32) -> u32 {
    if k >= 32 {
        0xffff_ffffu32
    } else {
        ((1u32 << k) - 1) as u32
    }
}

/// `x` and `y` hold the same bits in positions `0..k`.
pub open spec fn agree_low(x: u32, y: u32, k: u32) -> bool {
    x & low_mask(k) == y & low_mask(k)
}

/// The word with the bit order of `x` turned around, written as five rounds
/// of swapping neighbouring groups of 1, 2, 4, 8 and 16 bits.
/// `lemma_reverse_bits_mirrors` says what that amounts to bit by bit.
pub open spec fn reverse_bits_spec(x: u32) -> u32 {
    let a = ((x >> 1) & 0x5555_5555) | ((x & 0x5555_5555) << 1);
    let b = ((a >> 2) & 0x3333_3333) | ((a & 0x3333_3333) << 2);
    let c = ((b >> 4) & 0x0f0f_0f0f) | ((b & 0x0f0f_0f0f) << 4);
    let d = ((c >> 8) & 0x00ff_00ff) | ((c & 0x00ff_00ff) << 8);
    (d >> 16) | (d << 16)
}

/// Reverses the order of the 32 bits of `x`.
pub fn reverse_bits(x: u32) -> (r: u32)
    ensures
        r == reverse_bits_spec(x),
        forall|k: u32| k < 32 ==> #[trigger] bit(r, k) == bit(x, (31 - k) as u32),
{
    let a = ((x >> 1) & 0x5555_5555) | ((x & 0x5555_5555) << 1);
    let b = ((a >> 2) & 0x3333_3333) | ((a & 0x3333_3333) << 2);
    let c = ((b >> 4) & 0x0f0f_0f0f) | ((b & 0x0f0f_0f0f) << 4);
    let d = ((c >> 8) & 0x00ff_00ff) | ((c & 0x00ff_00ff) << 8);
    let r = (d >> 16) | (d << 16);
    proof {
        assert forall|k: u32| k < 32 implies #[trigger] bit(r, k) == bit(x, (31 - k) as u32) by {
            lemma_reverse_bits_mirrors(x, k);
        }
    }
    r
}

/// Bit `k` of the reversed word is bit `31 - k` of the word.
pub proof fn lemma_reverse_bits_mirrors(x: u32, k: u32)
    requires
        k < 32,
    ensures
        bit(reverse_bits_spec(x), k) == bit(x, (31 - k) as u32),
{
    let j: u32 = (31 - k) as u32;
    assert(bit(reverse_bits_spec(x), k) == bit(x, j)) by (bit_vector)
        requires
            k < 32,
            j == 31 - k,
    ;
}

/// Flipping bit `b` before reversing flips bit `31 - b` after.
pub proof fn lemma_reverse_bits_flip(x: u32, b: u32)
    requires
        b < 32,
    ensures
        reverse_bits_spec(x ^ (1u32 << b)) == reverse_bits_spec(x) ^ (1u32 << ((31 - b) as u32)),
{
    let p: u32 = (31 - b) as u32;
    assert(reverse_bits_spec(x ^ (1u32 << b)) == reverse_bits_spec(x) ^ (1u32 << p))
        by (bit_vector)
        requires
            b < 32,
            p == 31 - b,
    ;
}

/// Flipping bit `p` leaves the bits below `p` alone.
pub proof fn lemma_flip_agree_low(x: u32, p: u32)
    requires
        p < 32,
    ensures
        agree_low(x ^ (1u32 << p), x, p),
{
    assert(agree_low(x ^ (1u32 << p), x, p)) by (bit_vector)
        requires
            p < 32,
    ;
}

/// Words that agree below `k` have the same bit at every position below `k`.
pub proof fn lemma_agree_low_bit(x: u32, y: u32, k: u32, i: u32)
    requires
        agree_low(x, y, k),
        i < k,
        i < 32,
    ensures
        bit(x, i) == bit(y, i),
{
    assert(bit(x, i) == bit(y, i)) by (bit_vector)
        requires
            agree_low(x, y, k),
            i < k,
            i < 32,
    ;
}

/// Agreement below `k` is agreement of the remainders modulo `2^k`.
pub proof fn lemma_agree_low_is_mod(x: u32, y: u32, k: u32)
    requires
        k < 32,
    ensures
        agree_low(x, y, k) <==> (x as int) % (pow2(k as nat) as int) == (y as int) % (pow2(
            k as nat,
        ) as int),
{
    let p = pow2(k as nat);
    vstd::bits::lemma_u32_pow2_no_overflow(k as nat);
    vstd::bits::lemma_u32_shl_is_mul(1u32, k);
    assert(low_mask(k) == vstd::bits::low_bits_mask(k as nat) as u32);
    vstd::bits::lemma_u32_low_bits_mask_is_mod(x, k as nat);
    vstd::bits::lemma_u32_low_bits_mask_is_mod(y, k as nat);
}

} // verus!
