use sobol_scramble::bits::reverse_bits;
use sobol_scramble::hash_gen::HashOp;
use sobol_scramble::sobol::{
    fast_scramble, hash_u32, owen_scramble_fast_u32, owen_scramble_reference_reversed_u32,
    owen_scramble_reference_u32,
    scramble_with_hashes, sobol_u32, DirectionTable,
};

fn production() -> Vec<HashOp> {
    vec![
        HashOp::Add(0),
        HashOp::MulXor(0x046e2f26),
        HashOp::Mul(0),
        HashOp::MulXor(0x75d5ab5c),
        HashOp::Mul(0xdc4d0c55),
    ]
}

fn van_der_corput_row() -> [u32; 32] {
    let mut row = [0u32; 32];
    for k in 0..32 {
        row[k] = 1u32 << (31 - k);
    }
    row
}

fn identity_row() -> [u32; 32] {
    let mut row = [0u32; 32];
    for k in 0..32 {
        row[k] = 1u32 << k;
    }
    row
}

fn table() -> DirectionTable {
    let mut odd = [0u32; 32];
    for k in 0..32 {
        odd[k] = 0x9e37_79b9u32.wrapping_mul(2 * k as u32 + 1);
    }
    DirectionTable { vectors: vec![van_der_corput_row(), identity_row(), odd] }
}

const SAMPLES: [u32; 8] = [
    0,
    1,
    2,
    0x8000_0000,
    0x1234_5678,
    0xdead_beef,
    0xffff_fffe,
    0xffff_ffff,
];

#[test]
fn reverse_bits_mirrors_the_word() {
    assert_eq!(reverse_bits(0x1234_5678), 0x1e6a_2c48);
    assert_eq!(reverse_bits(1), 0x8000_0000);
    assert_eq!(reverse_bits(0x8000_0000), 1);
    for &x in SAMPLES.iter() {
        assert_eq!(reverse_bits(x), x.reverse_bits());
        assert_eq!(reverse_bits(reverse_bits(x)), x);
    }
}

#[test]
fn hash_u32_golden_values() {
    assert_eq!(hash_u32(0, 0), 0x0427_41d6);
    assert_eq!(hash_u32(1, 2), 0x3acd_5c9b);
    assert_eq!(hash_u32(0xffff_ffff, 0xffff_ffff), 0x92e8_13d1);
    assert_eq!(hash_u32(0, 0xa14a177d), 0x1ed8_2e5f);
    assert_eq!(hash_u32(0xdead_beef, 0xa14a177d), 0x83dd_e96e);
}

#[test]
fn sobol_starts_at_zero() {
    let t = table();
    for d in 0..3 {
        assert_eq!(sobol_u32(&t, d, 0), 0);
    }
}

#[test]
fn sobol_dimension_zero_is_van_der_corput() {
    let t = table();
    for i in 0..1024u32 {
        assert_eq!(sobol_u32(&t, 0, i), i.reverse_bits());
    }
    for &i in SAMPLES.iter() {
        assert_eq!(sobol_u32(&t, 0, i), i.reverse_bits());
    }
}

#[test]
fn sobol_identity_row_gives_the_index() {
    let t = table();
    for i in 0..1024u32 {
        assert_eq!(sobol_u32(&t, 1, i), i);
    }
    for &i in SAMPLES.iter() {
        assert_eq!(sobol_u32(&t, 1, i), i);
    }
}

#[test]
fn sobol_xors_the_vectors_of_the_set_bits() {
    let t = table();
    let row = t.vectors[2];
    assert_eq!(sobol_u32(&t, 2, 1), row[0]);
    assert_eq!(sobol_u32(&t, 2, 0b101), row[0] ^ row[2]);
    assert_eq!(sobol_u32(&t, 2, 0x8000_0001), row[0] ^ row[31]);
    let all = row.iter().fold(0, |acc, v| acc ^ v);
    assert_eq!(sobol_u32(&t, 2, 0xffff_ffff), all);
}

#[test]
fn max_dimension_counts_the_rows() {
    assert_eq!(table().max_dimension(), 3);
}

#[test]
fn fast_scramble_of_zero_under_empty_program_is_zero() {
    assert_eq!(fast_scramble(0, 0, &[]), 0);
}

#[test]
fn fast_scramble_under_empty_program_is_identity() {
    for &n in SAMPLES.iter() {
        assert_eq!(fast_scramble(n, 5, &[]), n);
    }
}

#[test]
fn fast_scramble_golden_first_eight() {
    let golden: [u32; 8] = [
        0xd9a7_582e,
        0xd9a7_582f,
        0xd9a7_582d,
        0xd9a7_582c,
        0xd9a7_582b,
        0xd9a7_582a,
        0xd9a7_5829,
        0xd9a7_5828,
    ];
    for i in 0..8u32 {
        assert_eq!(fast_scramble(i, 0, &production()), golden[i as usize]);
        assert_eq!(owen_scramble_fast_u32(i, 0), golden[i as usize]);
    }
}

#[test]
fn fast_scramble_golden_other_seed_and_program() {
    assert_eq!(fast_scramble(0, 7, &production()), 0x7bc4_ee0f);
    assert_eq!(fast_scramble(1, 7, &production()), 0x7bc4_ee0e);
    assert_eq!(fast_scramble(0x8000_0000, 7, &production()), 0xdb32_41b8);
    assert_eq!(fast_scramble(0xdead_beef, 7, &production()), 0x8b2f_bce6);
    let other = [
        HashOp::Mul(0x788aeeed),
        HashOp::MulXor(0x41506a02),
        HashOp::Add(0),
        HashOp::Mul(0),
        HashOp::MulXor(0x7483dc64),
    ];
    assert_eq!(fast_scramble(0, 3, &other), 0xa4fe_dd90);
    assert_eq!(fast_scramble(1, 3, &other), 0xa4fe_dd91);
    assert_eq!(fast_scramble(5, 3, &other), 0xa4fe_dd94);
}

#[test]
fn owen_scramble_fast_runs_the_production_program() {
    for &n in SAMPLES.iter() {
        for seed in [0u32, 1, 7, 0xdead_beef] {
            assert_eq!(owen_scramble_fast_u32(n, seed), fast_scramble(n, seed, &production()));
        }
    }
}

#[test]
fn fast_scramble_changes_no_bit_above_the_flipped_one() {
    let programs: [Vec<HashOp>; 3] = [
        production(),
        vec![HashOp::ShlAdd(2), HashOp::MulXor(0xfe9b5742), HashOp::Add(0), HashOp::Mul(0)],
        vec![HashOp::Xor(0), HashOp::ShlXor(0), HashOp::ShlAdd(0), HashOp::MulXor(0)],
    ];
    for program in programs.iter() {
        for &n in SAMPLES.iter() {
            for b in 0..32u32 {
                let a = fast_scramble(n, 11, program);
                let c = fast_scramble(n ^ (1 << b), 11, program);
                let above = if b == 31 { 0 } else { !0u32 << (b + 1) };
                assert_eq!((a ^ c) & above, 0, "n = {:#x}, b = {}", n, b);
            }
        }
    }
}

#[test]
fn reference_scramble_golden_values() {
    assert_eq!(owen_scramble_reference_u32(0, 0), 0x8672_244a);
    assert_eq!(owen_scramble_reference_u32(1, 0), 0x8672_244b);
    assert_eq!(owen_scramble_reference_u32(2, 0), 0x8672_2449);
    assert_eq!(owen_scramble_reference_u32(3, 0), 0x8672_2448);
    assert_eq!(owen_scramble_reference_u32(0x8000_0000, 0), 0x0d1a_6869);
    assert_eq!(owen_scramble_reference_u32(0, 1), 0xf7e3_74e4);
    assert_eq!(owen_scramble_reference_u32(0xdead_beef, 1), 0x7343_9c72);
    assert_eq!(owen_scramble_reference_u32(0x1234_5678, 42), 0xca62_6d3b);
    assert_eq!(owen_scramble_reference_u32(0xffff_ffff, 0xdead_beef), 0x2469_624f);
}

#[test]
fn reference_scramble_changes_no_bit_above_the_flipped_one() {
    for &n in SAMPLES.iter() {
        for seed in [0u32, 9] {
            for b in 0..32u32 {
                let a = owen_scramble_reference_u32(n, seed);
                let c = owen_scramble_reference_u32(n ^ (1 << b), seed);
                let above = if b == 31 { 0 } else { !0u32 << (b + 1) };
                assert_eq!((a ^ c) & above, 0, "n = {:#x}, b = {}", n, b);
                assert_eq!((a ^ c) >> b & 1, 1);
            }
        }
    }
}

#[test]
fn reference_scramble_between_reversals_changes_no_bit_below() {
    let g = owen_scramble_reference_reversed_u32;
    assert_eq!(
        g(0x1234_5678, 42),
        owen_scramble_reference_u32(0x1234_5678u32.reverse_bits(), 42).reverse_bits()
    );
    for &n in SAMPLES.iter() {
        for b in 0..32u32 {
            let diff = g(n, 0) ^ g(n ^ (1 << b), 0);
            assert_eq!(diff & ((1u32 << b) - 1), 0, "n = {:#x}, b = {}", n, b);
        }
    }
    // Flipping bit 0 reaches bits far above bit 0.
    assert_eq!(g(0, 0) ^ g(1, 0), 0xc432_16d1);
}

#[test]
fn scramble_with_hashes_flips_each_bit_by_its_own_hash() {
    let none = [0u32; 32];
    assert_eq!(scramble_with_hashes(0x1234_5678, &none), 0x1234_5678);
    let all = [0xffff_ffffu32; 32];
    assert_eq!(scramble_with_hashes(0x1234_5678, &all), !0x1234_5678u32);
    let mut some = [0u32; 32];
    some[0] = 1;
    some[5] = 0xffff_ffdf; // bit 5 clear: no flip
    some[9] = 1 << 9;
    some[31] = 0x8000_0000;
    assert_eq!(scramble_with_hashes(0, &some), 0x8000_0201);
}
