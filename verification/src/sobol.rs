//! The Sobol' generator and the two Owen scramblers: the fast one, built on
//! a program of hash operations, and the slow one that decides every bit by
//! a keyed hash of the bits above it.

use vstd::prelude::*;
use std::hash::Hasher;
use crate::bits::{
    agree_low, bit, lemma_agree_low_bit, lemma_flip_agree_low, lemma_reverse_bits_flip,
    lemma_reverse_bits_mirrors, low_mask, reverse_bits, reverse_bits_spec,
};
use crate::hash_gen::{
    exec_hash_slice, exec_program, lemma_program_propagates_upward, program_well_formed, HashOp,
};

verus! {

/// The seed that the fast scrambler's own seed is mixed with before use.
pub const SEED_SALT: u32 = 0xa14a177d;

/// The value of `hash_u32`: a seeded start, then three rounds of
/// xor-shift and multiply and a last xor-shift.
pub open spec fn hash_u32_spec(n: u32, seed: u32) -> u32 {
    let a = 1u32.wrapping_add(n.wrapping_add(seed.wrapping_mul(0x736caf6f)));
    let b = (a ^ (a >> 17)).wrapping_mul(0xed5ad4bb);
    let c = (b ^ (b >> 11)).wrapping_mul(0xac4c1b51);
    let d = (c ^ (c >> 15)).wrapping_mul(0x31848bab);
    d ^ (d >> 14)
}

/// A quick seedable 32-bit mixer.
pub fn hash_u32(n: u32, seed: u32) -> (r: u32)
    ensures
        r == hash_u32_spec(n, seed),
{
    let mut n: u32 = 1u32.wrapping_add(n.wrapping_add(seed.wrapping_mul(0x736caf6f)));
    n ^= n >> 17;
    n = n.wrapping_mul(0xed5ad4bb);
    n ^= n >> 11;
    n = n.wrapping_mul(0xac4c1b51);
    n ^= n >> 15;
    n = n.wrapping_mul(0x31848bab);
    n ^= n >> 14;
    n
}

/// Direction vectors of a Sobol' sequence: one row of 32 words for each
/// dimension, the word at position `k` belonging to bit `k` of the index.
pub struct DirectionTable {
    pub vectors: Vec<[u32; 32]>,
}

impl DirectionTable {
    /// The number of dimensions that the table serves.
    pub open spec fn dimensions(&self) -> nat {
        self.vectors@.len()
    }

    /// The direction vectors of dimension `d`.
    pub open spec fn row(&self, d: int) -> Seq<u32> {
        self.vectors@[d]@
    }

    /// The number of dimensions that the table serves.
    pub fn max_dimension(&self) -> (n: usize)
        ensures
            n == self.dimensions(),
    {
        self.vectors.len()
    }
}

/// The XOR of the direction vectors `row[j]` over the set bits `j < k` of
/// `index`.
pub open spec fn sobol_xor(row: Seq<u32>, index: u32, k: nat) -> u32
    decreases k,
{
    if k == 0 {
        0
    } else {
        let rest = sobol_xor(row, index, (k - 1) as nat);
        if bit(index, (k - 1) as u32) {
            rest ^ row[k - 1]
        } else {
            rest
        }
    }
}

/// Bits of the index that are clear add nothing.
proof fn lemma_sobol_xor_skip(row: Seq<u32>, index: u32, lo: nat, hi: nat)
    requires
        lo <= hi <= 32,
        forall|t: u32| lo <= t < hi ==> !bit(index, t),
    ensures
        sobol_xor(row, index, hi) == sobol_xor(row, index, lo),
    decreases hi - lo,
{
    if lo < hi {
        assert(!bit(index, (hi - 1) as u32));
        lemma_sobol_xor_skip(row, index, lo, (hi - 1) as nat);
    }
}

/// Point `index` of the Sobol' sequence in dimension `dimension`, as a
/// 32-bit fixed-point fraction.
pub fn sobol_u32(table: &DirectionTable, dimension: u32, index: u32) -> (r: u32)
    requires
        dimension < table.dimensions(),
    ensures
        r == sobol_xor(table.row(dimension as int), index, 32),
        index == 0 ==> r == 0,
{
    let vecs = &table.vectors[dimension as usize];
    let ghost row = table.row(dimension as int);
    let mut rest: u32 = index;
    let mut result: u32 = 0;
    let mut i: u32 = 0;
    assert(index >> 0u32 == index) by (bit_vector);
    while rest != 0
        invariant
            i <= 32,
            i < 32 ==> rest == index >> i,
            i == 32 ==> rest == 0,
            row == vecs@,
            result == sobol_xor(row, index, i as nat),
        decreases 32 - i,
    {
        let j: u32 = rest.trailing_zeros();
        proof {
            vstd::std_specs::bits::axiom_u32_trailing_zeros(rest);
            assert(i + j < 32 && bit(index, (i + j) as u32)) by (bit_vector)
                requires
                    i < 32,
                    j < 32,
                    rest == index >> i,
                    (rest >> j) & 1 == 1,
            ;
            assert forall|t: u32| i <= t < i + j implies !bit(index, t) by {
                let s: u32 = (t - i) as u32;
                assert((rest >> s) & 1 == 0);
                assert(!bit(index, t)) by (bit_vector)
                    requires
                        i <= t < 32,
                        s == t - i,
                        rest == index >> i,
                        (rest >> s) & 1 == 0,
                ;
            }
            lemma_sobol_xor_skip(row, index, i as nat, (i + j) as nat);
            assert((i + j + 1 < 32 ==> (rest >> j) >> 1 == index >> ((i + j + 1) as u32)) && (i + j
                + 1 == 32 ==> (rest >> j) >> 1 == 0)) by (bit_vector)
                requires
                    i + j < 32,
                    rest == index >> i,
            ;
        }
        result ^= vecs[(i + j) as usize];
        i += j + 1;
        rest >>= j;
        rest >>= 1;
    }
    proof {
        if i < 32 {
            assert forall|t: u32| i <= t < 32 implies !bit(index, t) by {
                assert(!bit(index, t)) by (bit_vector)
                    requires
                        i <= t < 32,
                        index >> i == 0,
                ;
            }
            lemma_sobol_xor_skip(row, index, i as nat, 32);
        }
        if index == 0 {
            lemma_sobol_zero_index(row, 32);
        }
    }
    result
}

/// The sequence starts at zero in every dimension.
pub proof fn lemma_sobol_zero_index(row: Seq<u32>, k: nat)
    requires
        k <= 32,
    ensures
        sobol_xor(row, 0, k) == 0,
    decreases k,
{
    if k > 0 {
        let t: u32 = (k - 1) as u32;
        assert(!bit(0u32, t)) by (bit_vector);
        lemma_sobol_zero_index(row, (k - 1) as nat);
    }
}

/// The direction vectors of the van der Corput sequence: bit `k` of the
/// index sets bit `31 - k` of the point.
pub open spec fn is_van_der_corput_row(row: Seq<u32>) -> bool {
    &&& row.len() == 32
    &&& forall|k: u32| k < 32 ==> row[k as int] == 1u32 << ((31 - k) as u32)
}

/// The direction vectors under which every point is its own index: bit `k`
/// of the index sets bit `k` of the point.
pub open spec fn is_identity_row(row: Seq<u32>) -> bool {
    &&& row.len() == 32
    &&& forall|k: u32| k < 32 ==> row[k as int] == 1u32 << k
}

proof fn lemma_van_der_corput_prefix(row: Seq<u32>, index: u32, k: nat)
    requires
        is_van_der_corput_row(row),
        k <= 32,
    ensures
        sobol_xor(row, index, k) == reverse_bits_spec(index & low_mask(k as u32)),
    decreases k,
{
    if k == 0 {
        assert(reverse_bits_spec(index & low_mask(0u32)) == 0) by (bit_vector);
    } else {
        let t: u32 = (k - 1) as u32;
        let k32: u32 = k as u32;
        let v: u32 = 1u32 << ((31 - t) as u32);
        lemma_van_der_corput_prefix(row, index, (k - 1) as nat);
        assert(row[t as int] == v);
        assert(reverse_bits_spec(index & low_mask(k32)) == if bit(index, t) {
            reverse_bits_spec(index & low_mask(t)) ^ v
        } else {
            reverse_bits_spec(index & low_mask(t))
        }) by (bit_vector)
            requires
                t < 32,
                k32 == t + 1,
                v == 1u32 << ((31 - t) as u32),
        ;
    }
}

/// With the van der Corput row, the Sobol' point of an index is the index
/// with its bits reversed.
pub proof fn lemma_sobol_van_der_corput(row: Seq<u32>, index: u32)
    requires
        is_van_der_corput_row(row),
    ensures
        sobol_xor(row, index, 32) == reverse_bits_spec(index),
{
    lemma_van_der_corput_prefix(row, index, 32);
    assert(index & low_mask(32u32) == index) by (bit_vector);
}

proof fn lemma_identity_prefix(row: Seq<u32>, index: u32, k: nat)
    requires
        is_identity_row(row),
        k <= 32,
    ensures
        sobol_xor(row, index, k) == index & low_mask(k as u32),
    decreases k,
{
    if k == 0 {
        assert(index & low_mask(0u32) == 0) by (bit_vector);
    } else {
        let t: u32 = (k - 1) as u32;
        let k32: u32 = k as u32;
        let v: u32 = 1u32 << t;
        lemma_identity_prefix(row, index, (k - 1) as nat);
        assert(row[t as int] == v);
        assert(index & low_mask(k32) == if bit(index, t) {
            (index & low_mask(t)) ^ v
        } else {
            index & low_mask(t)
        }) by (bit_vector)
            requires
                t < 32,
                k32 == t + 1,
                v == 1u32 << t,
        ;
    }
}

/// With the identity row, the Sobol' point of an index is the index.
pub proof fn lemma_sobol_identity(row: Seq<u32>, index: u32)
    requires
        is_identity_row(row),
    ensures
        sobol_xor(row, index, 32) == index,
{
    lemma_identity_prefix(row, index, 32);
    assert(index & low_mask(32u32) == index) by (bit_vector);
}

/// The fast scramble of `n`: reverse the bits, run the program under the
/// mixed seed, reverse the bits again.
pub open spec fn fast_scramble_spec(n: u32, seed: u32, program: Seq<HashOp>) -> u32 {
    reverse_bits_spec(
        exec_program(program, reverse_bits_spec(n), hash_u32_spec(seed, SEED_SALT)),
    )
}

/// Scrambles `n` with `program`, run between two bit reversals.
pub fn fast_scramble(n: u32, seed: u32, program: &[HashOp]) -> (r: u32)
    requires
        program_well_formed(program@),
    ensures
        r == fast_scramble_spec(n, seed, program@),
{
    let x = reverse_bits(n);
    let mixed = hash_u32(seed, SEED_SALT);
    let y = exec_hash_slice(program, x, mixed);
    reverse_bits(y)
}

/// The program that `owen_scramble_fast_u32` runs.
pub open spec fn production_program() -> Seq<HashOp> {
    seq![
        HashOp::Add(0),
        HashOp::MulXor(0x046e2f26),
        HashOp::Mul(0),
        HashOp::MulXor(0x75d5ab5c),
        HashOp::Mul(0xdc4d0c55),
    ]
}

/// Scrambles `x` using fast hash-based Owen scrambling.
pub fn owen_scramble_fast_u32(x: u32, seed: u32) -> (r: u32)
    ensures
        r == fast_scramble_spec(x, seed, production_program()),
{
    let program = [
        HashOp::Add(0),
        HashOp::MulXor(0x046e2f26),
        HashOp::Mul(0),
        HashOp::MulXor(0x75d5ab5c),
        HashOp::Mul(0xdc4d0c55),
    ];
    proof {
        assert(program@ =~= production_program());
        lemma_production_program_well_formed();
    }
    fast_scramble(x, seed, &program)
}

/// The production program keeps the rule of every operation.
pub proof fn lemma_production_program_well_formed()
    ensures
        program_well_formed(production_program()),
{
    assert(0x046e2f26u32 & 1 == 0 && 0x75d5ab5cu32 & 1 == 0 && 0xdc4d0c55u32 & 1 == 1)
        by (bit_vector);
}

/// The fast scramble is an Owen scramble whatever the program: flipping bit
/// `b` of the input leaves every output bit above `b` as it was.
pub proof fn lemma_fast_scramble_is_owen(n: u32, seed: u32, program: Seq<HashOp>, b: u32, j: u32)
    requires
        program_well_formed(program),
        b < j < 32,
    ensures
        bit(fast_scramble_spec(n ^ (1u32 << b), seed, program), j) == bit(
            fast_scramble_spec(n, seed, program),
            j,
        ),
{
    let p: u32 = (31 - b) as u32;
    let mixed = hash_u32_spec(seed, SEED_SALT);
    let x = reverse_bits_spec(n);
    let x_flipped = reverse_bits_spec(n ^ (1u32 << b));
    lemma_reverse_bits_flip(n, b);
    lemma_flip_agree_low(x, p);
    lemma_program_propagates_upward(program, x_flipped, x, mixed, p);
    let y = exec_program(program, x, mixed);
    let y_flipped = exec_program(program, x_flipped, mixed);
    lemma_agree_low_bit(y_flipped, y, p, (31 - j) as u32);
    lemma_reverse_bits_mirrors(y, j);
    lemma_reverse_bits_mirrors(y_flipped, j);
}

/// The 64-bit SipHash-1-3 digest, under the key pair `(0, key)`, of the four
/// bytes of `word` taken low byte first.
pub uninterp spec fn siphash13_digest(key: u64, word: u32) -> u64;

/// Calls `siphasher::sip::SipHasher13`: a hasher made by `new_with_keys(0, key)`
/// is fed the little-endian bytes of `word` with one `write` and then asked to
/// `finish`. The digest depends on the key and the word alone, so the contract
/// gives it a name and says nothing else of it.
#[verifier::external_body]
fn siphash13(key: u64, word: u32) -> (digest: u64)
    ensures
        digest == siphash13_digest(key, word),
{
    let mut hasher = siphasher::sip::SipHasher13::new_with_keys(0, key);
    hasher.write(&word.to_le_bytes());
    hasher.finish()
}

/// The key under which output bit `b` is decided: the seed moved up five
/// places, with the bit's position below it.
pub open spec fn reference_key(seed: u32, b: u32) -> u64 {
    ((seed << 5) | b) as u64
}

/// What is hashed to decide output bit `b`: the bits of `n` strictly above
/// `b`; nothing at all for the top bit.
pub open spec fn reference_hash_input(n: u32, b: u32) -> u32 {
    if b >= 31 {
        0
    } else {
        n & !low_mask((b + 1) as u32)
    }
}

/// The 32-bit hash whose bit `b` decides whether output bit `b` is flipped.
pub open spec fn reference_hash(n: u32, seed: u32, b: u32) -> u32 {
    siphash13_digest(reference_key(seed, b), reference_hash_input(n, b)) as u32
}

/// `n` with bit `b` flipped wherever `hashes[b]` has bit `b` set, for `b < k`.
pub open spec fn flip_by_hashes(n: u32, hashes: Seq<u32>, k: nat) -> u32
    decreases k,
{
    if k == 0 {
        n
    } else {
        flip_by_hashes(n, hashes, (k - 1) as nat) ^ (hashes[k - 1] & (1u32 << ((k - 1) as u32)))
    }
}

/// The reference Owen scramble of `n`.
pub open spec fn owen_scramble_reference_spec(n: u32, seed: u32) -> u32 {
    flip_by_hashes(n, Seq::new(32, |b: int| reference_hash(n, seed, b as u32)), 32)
}

/// Flips bit `b` of `n` wherever the hash for that bit has its own bit `b`
/// set.
pub fn scramble_with_hashes(n: u32, hashes: &[u32; 32]) -> (r: u32)
    ensures
        r == flip_by_hashes(n, hashes@, 32),
{
    let mut out: u32 = n;
    let mut b: u32 = 0;
    while b < 32
        invariant
            b <= 32,
            out == flip_by_hashes(n, hashes@, b as nat),
        decreases 32 - b,
    {
        out ^= hashes[b as usize] & (1u32 << b);
        b += 1;
    }
    out
}

/// Scrambles `n` by the slow ground-truth Owen scramble: every bit is
/// flipped or kept according to a SipHash-1-3 digest of the bits above it.
pub fn owen_scramble_reference_u32(n: u32, seed: u32) -> (r: u32)
    ensures
        r == owen_scramble_reference_spec(n, seed),
{
    let mut hashes: [u32; 32] = [0u32; 32];
    let mut b: u32 = 0;
    while b < 31
        invariant
            b <= 31,
            forall|t: int| 0 <= t < b ==> hashes@[t] == reference_hash(n, seed, t as u32),
        decreases 31 - b,
    {
        let high_mask: u32 = !(1u32 << (b + 1)).wrapping_sub(1);
        assert(high_mask == !low_mask((b + 1) as u32)) by (bit_vector)
            requires
                b < 31,
                high_mask == !(1u32 << ((b + 1) as u32)).wrapping_sub(1),
        ;
        let digest = siphash13(((seed << 5) | b) as u64, n & high_mask);
        hashes[b as usize] = #[verifier::truncate] (digest as u32);
        b += 1;
    }
    let digest = siphash13(((seed << 5) | 31) as u64, 0);
    hashes[31] = #[verifier::truncate] (digest as u32);
    proof {
        assert(hashes@ =~= Seq::new(32, |b: int| reference_hash(n, seed, b as u32)));
    }
    scramble_with_hashes(n, &hashes)
}

/// Bit `j` of the scrambled word is bit `j` of the input, flipped where the
/// hash for bit `j` says so.
proof fn lemma_flip_by_hashes_bit(n: u32, hashes: Seq<u32>, k: nat, j: u32)
    requires
        k <= 32,
        j < 32,
    ensures
        bit(flip_by_hashes(n, hashes, k), j) == (bit(n, j) != (j < k && bit(hashes[j as int], j))),
    decreases k,
{
    if k > 0 {
        let t: u32 = (k - 1) as u32;
        let rest = flip_by_hashes(n, hashes, (k - 1) as nat);
        let h = hashes[t as int];
        lemma_flip_by_hashes_bit(n, hashes, (k - 1) as nat, j);
        assert(bit(rest ^ (h & (1u32 << t)), j) == (bit(rest, j) != (j == t && bit(h, j))))
            by (bit_vector)
            requires
                t < 32,
                j < 32,
        ;
    }
}

/// The reference scramble is an Owen scramble: flipping bit `b` of the
/// input leaves every output bit above `b` as it was.
pub proof fn lemma_reference_scramble_is_owen(n: u32, seed: u32, b: u32, j: u32)
    requires
        b < j < 32,
    ensures
        bit(owen_scramble_reference_spec(n ^ (1u32 << b), seed), j) == bit(
            owen_scramble_reference_spec(n, seed),
            j,
        ),
{
    let m = n ^ (1u32 << b);
    let hashes_n = Seq::new(32, |t: int| reference_hash(n, seed, t as u32));
    let hashes_m = Seq::new(32, |t: int| reference_hash(m, seed, t as u32));
    lemma_flip_by_hashes_bit(n, hashes_n, 32, j);
    lemma_flip_by_hashes_bit(m, hashes_m, 32, j);
    assert(bit(m, j) == bit(n, j) && reference_hash_input(m, j) == reference_hash_input(n, j))
        by (bit_vector)
        requires
            m == n ^ (1u32 << b),
            b < j < 32,
    ;
}

/// The reference scramble run between two bit reversals.
pub open spec fn owen_scramble_reference_reversed_spec(n: u32, seed: u32) -> u32 {
    reverse_bits_spec(owen_scramble_reference_spec(reverse_bits_spec(n), seed))
}

/// Runs the reference scramble between two bit reversals, which makes of
/// it a hash that carries information upward only, like the programs of
/// hash operations.
pub fn owen_scramble_reference_reversed_u32(n: u32, seed: u32) -> (r: u32)
    ensures
        r == owen_scramble_reference_reversed_spec(n, seed),
{
    reverse_bits(owen_scramble_reference_u32(reverse_bits(n), seed))
}

/// Between two bit reversals the reference scramble carries information
/// upward only: flipping bit `b` of the input leaves every output bit below
/// `b` as it was.
pub proof fn lemma_reference_reversed_propagates_upward(n: u32, seed: u32, b: u32, j: u32)
    requires
        j < b < 32,
    ensures
        bit(owen_scramble_reference_reversed_spec(n ^ (1u32 << b), seed), j) == bit(
            owen_scramble_reference_reversed_spec(n, seed),
            j,
        ),
{
    let x = reverse_bits_spec(n);
    let p: u32 = (31 - b) as u32;
    let q: u32 = (31 - j) as u32;
    lemma_reverse_bits_flip(n, b);
    lemma_reference_scramble_is_owen(x, seed, p, q);
    lemma_reverse_bits_mirrors(owen_scramble_reference_spec(x, seed), j);
    lemma_reverse_bits_mirrors(owen_scramble_reference_spec(x ^ (1u32 << p), seed), j);
}

} // verus!
