use sobol_scramble::hash_gen::{exec_hash_slice, HashOp};
use sobol_scramble::stats::{
    loop_rounds, measure_batch, measure_stats, observe, progress_due, run_trial, tally_batch,
    tree_cell, Stats, Trial, SUB_ROUNDS,
};

fn identity(x: u32, _seed: u32) -> u32 {
    x
}

fn blank_trial() -> Trial {
    Trial {
        seed: 0,
        input: 0,
        output: 0,
        flipped_outputs: [0; 32],
        tree_seed: 0,
        tree_inputs: (0, 0),
        tree_outputs: (0, 0),
    }
}

#[test]
fn sub_rounds_is_256() {
    assert_eq!(SUB_ROUNDS, 256);
}

#[test]
fn tree_cell_of_equal_words_is_the_origin() {
    assert_eq!(tree_cell(0, 0), (0, 0));
}

#[test]
fn tree_cell_strips_common_low_zeros() {
    // Both words lose two zero bits; what is left is 0b11 and 0b101.
    // Bits 1..=5 of 0b11 are 1,0,0,0,0 and of 0b101 are 0,1,0,0,0.
    assert_eq!(tree_cell(0b1100, 0b10100), (16, 8));
    // Without common zero bits nothing is stripped.
    assert_eq!(tree_cell(0b11, 0b101), (16, 8));
    assert_eq!(tree_cell(0b111110, 0b1), (31, 0));
    assert_eq!(tree_cell(0x8000_0000, 0), (0, 0));
    assert_eq!(tree_cell(0, 0x40), (0, 0));
    assert_eq!(tree_cell(0x6, 0x4), (16, 16));
}

#[test]
fn observe_records_inputs_and_outputs() {
    let hash = |x: u32, seed: u32| x.wrapping_mul(3).wrapping_add(seed);
    let trial = observe(&hash, 7, 100, 9, (5, 6));
    assert_eq!(trial.seed, 7);
    assert_eq!(trial.input, 100);
    assert_eq!(trial.output, 307);
    for i in 0..32 {
        assert_eq!(trial.flipped_outputs[i], hash(100 ^ (1 << i), 7));
    }
    assert_eq!(trial.tree_seed, 9);
    assert_eq!(trial.tree_inputs, (5, 6));
    assert_eq!(trial.tree_outputs, (24, 27));
}

#[test]
fn run_trial_observes_the_hash() {
    let trial = run_trial(&identity, 3);
    assert_eq!(trial.seed, 3);
    assert_eq!(trial.output, trial.input);
    for i in 0..32 {
        assert_eq!(trial.flipped_outputs[i], trial.input ^ (1 << i));
    }
    assert_eq!(trial.tree_outputs, trial.tree_inputs);
}

#[test]
fn tally_counts_flips_and_tree_cells() {
    let mut trials = vec![blank_trial(); 256];
    // In the first ten trials flipping input bit 3 flips output bits 0 and 5.
    for t in 0..10 {
        trials[t].flipped_outputs[3] = 0b100001;
    }
    // In the first 200 trials flipping input bit 7 flips output bit 7.
    for t in 0..200 {
        trials[t].flipped_outputs[7] = 1 << 7;
    }
    // Forty trials fall into tree cell (16, 8).
    for t in 0..40 {
        trials[t].tree_outputs = (0b1100, 0);
        trials[t].tree_inputs = (0, 0b10100);
    }
    let stats = tally_batch(&trials);
    assert_eq!(stats.rounds(), 256);
    assert_eq!(stats.avalanche(3, 0), 10);
    assert_eq!(stats.avalanche(3, 5), 10);
    assert_eq!(stats.avalanche(3, 1), 0);
    assert_eq!(stats.avalanche(7, 7), 200);
    assert_eq!(stats.avalanche(0, 0), 0);
    assert_eq!(stats.avalanche_avg_bias(3, 0), 118);
    assert_eq!(stats.avalanche_avg_bias(7, 7), 72);
    assert_eq!(stats.avalanche_avg_bias(0, 0), 128);
    assert_eq!(stats.tree_bias(16, 8), 40);
    assert_eq!(stats.tree_bias(0, 0), 216);
    assert_eq!(stats.tree_bias(8, 16), 0);
    let mut tree_total = 0;
    for r in 0..32 {
        for c in 0..32 {
            tree_total += stats.tree_bias(r, c);
        }
    }
    assert_eq!(tree_total, 256);
}

#[test]
fn zero_stats_are_all_zero() {
    let stats = Stats::zero();
    assert_eq!(stats.rounds(), 0);
    for i in 0..32 {
        for j in 0..32 {
            assert_eq!(stats.avalanche(i, j), 0);
            assert_eq!(stats.avalanche_avg_bias(i, j), 0);
            assert_eq!(stats.tree_bias(i, j), 0);
        }
    }
}

#[test]
fn merge_adds_entry_by_entry() {
    let mut a = vec![blank_trial(); 256];
    let mut b = vec![blank_trial(); 256];
    for t in 0..100 {
        a[t].flipped_outputs[1] = 2;
    }
    for t in 0..228 {
        b[t].flipped_outputs[1] = 2;
        b[t].tree_inputs = (3, 0);
    }
    let sa = tally_batch(&a);
    let sb = tally_batch(&b);
    let sum = sa.merge(&sb);
    assert_eq!(sum.rounds(), 512);
    assert_eq!(sum.avalanche(1, 1), 328);
    // The biases of the batches add up: |100 - 128| + |228 - 128|.
    assert_eq!(sum.avalanche_avg_bias(1, 1), 128);
    assert_eq!(sum.avalanche_avg_bias(0, 0), 256);
    assert_eq!(sum.tree_bias(0, 0), 256 + 28);
    assert_eq!(sum.tree_bias(0, 16), 228);
    let with_zero = sum.merge(&Stats::zero());
    assert_eq!(with_zero.rounds(), 512);
    assert_eq!(with_zero.avalanche(1, 1), 328);
}

#[test]
fn loop_rounds_rounds_up() {
    assert_eq!(loop_rounds(0), 0);
    assert_eq!(loop_rounds(1), 1);
    assert_eq!(loop_rounds(255), 1);
    assert_eq!(loop_rounds(256), 1);
    assert_eq!(loop_rounds(257), 2);
    assert_eq!(loop_rounds(4_000_000), 15625);
    assert_eq!(loop_rounds(u32::MAX), 16_777_216);
}

#[test]
fn progress_is_due_every_53rd_of_the_batches() {
    // With few batches every batch reports.
    assert!(progress_due(0, 10));
    assert!(progress_due(7, 10));
    assert!(progress_due(3, 0));
    // 1060 batches: every twentieth reports.
    assert!(progress_due(0, 1060));
    assert!(progress_due(40, 1060));
    assert!(!progress_due(41, 1060));
    assert!(!progress_due(19, 1060));
}

#[test]
fn measure_batch_counts_one_batch() {
    let stats = measure_batch(&identity);
    assert_eq!(stats.rounds(), 256);
    assert_eq!(stats.avalanche(4, 4), 256);
    assert_eq!(stats.avalanche(4, 5), 0);
    let mut tree_total = 0;
    for r in 0..32 {
        for c in 0..32 {
            tree_total += stats.tree_bias(r, c);
        }
    }
    assert_eq!(tree_total, 256);
}

#[test]
fn measure_stats_rounds_up_to_whole_batches() {
    assert_eq!(measure_stats(identity, 0).rounds(), 0);
    assert_eq!(measure_stats(identity, 1).rounds(), 256);
    assert_eq!(measure_stats(identity, 256).rounds(), 256);
    assert_eq!(measure_stats(identity, 257).rounds(), 512);
}

#[test]
fn avalanche_on_identity_is_diagonal() {
    let stats = measure_stats(identity, 256 * 1024);
    let n = stats.rounds() as f64;
    assert_eq!(stats.rounds(), 256 * 1024);
    for i in 0..32 {
        for j in 0..32 {
            let p = stats.avalanche(i, j) as f64 / n;
            if i == j {
                assert!(p > 0.99);
                assert_eq!(stats.avalanche(i, j), stats.rounds());
            } else {
                assert!(p < 0.01);
                assert_eq!(stats.avalanche(i, j), 0);
            }
            let bias = stats.avalanche_avg_bias(i, j) as f64 * 2.0 / n;
            assert_eq!(bias, 1.0);
        }
    }
}

#[test]
fn a_scrambling_program_mixes_upward_only() {
    // The ops carry a flipped input bit into higher output bits about half
    // of the time, and never into a lower one.
    let program = [
        HashOp::Add(0),
        HashOp::MulXor(0x046e2f26),
        HashOp::Mul(0),
        HashOp::MulXor(0x75d5ab5c),
        HashOp::Mul(0xdc4d0c55),
    ];
    let hash = |x: u32, seed: u32| exec_hash_slice(&program, x, seed);
    let stats = measure_stats(hash, 256 * 64);
    let n = stats.rounds() as f64;
    for j in 16..32 {
        let p = stats.avalanche(0, j) as f64 / n;
        assert!(p > 0.2 && p < 0.8, "bit {}: {}", j, p);
    }
    for i in 0..32 {
        assert_eq!(stats.avalanche(i, i), stats.rounds());
        for j in 0..i {
            assert_eq!(stats.avalanche(i, j), 0);
        }
    }
}
