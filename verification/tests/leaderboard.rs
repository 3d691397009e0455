use std::cell::Cell;

use sobol_scramble::hash_gen::HashOp;
use sobol_scramble::search::{
    any_multiplies_by_seed, draw_program, draw_seeded_program, keep_if_seeded, offer, search,
    Candidate, PROGRAM_SLOTS, UNSCORED,
};
use sobol_scramble::stats::Stats;

fn candidate(tag: u32, score: u64) -> Candidate {
    Candidate { program: vec![HashOp::Add(tag)], score, stats: Stats::zero() }
}

fn scores(board: &[Candidate]) -> Vec<u64> {
    board.iter().map(|c| c.score).collect()
}

fn tags(board: &[Candidate]) -> Vec<HashOp> {
    board.iter().map(|c| c.program[0]).collect()
}

#[test]
fn unscored_is_the_worst_score() {
    assert_eq!(UNSCORED, u64::MAX);
}

#[test]
fn offer_takes_a_better_candidate_and_drops_the_worst() {
    let mut board = vec![candidate(1, 10), candidate(2, 20), candidate(3, 30)];
    assert!(offer(&mut board, candidate(4, 15)));
    assert_eq!(scores(&board), vec![10, 15, 20]);
    assert_eq!(tags(&board), vec![HashOp::Add(1), HashOp::Add(4), HashOp::Add(2)]);
    assert!(offer(&mut board, candidate(5, 1)));
    assert_eq!(scores(&board), vec![1, 10, 15]);
    assert!(offer(&mut board, candidate(6, 14)));
    assert_eq!(scores(&board), vec![1, 10, 14]);
    assert_eq!(tags(&board), vec![HashOp::Add(5), HashOp::Add(1), HashOp::Add(6)]);
}

#[test]
fn offer_refuses_a_candidate_that_is_no_better() {
    let mut board = vec![candidate(1, 10), candidate(2, 20)];
    assert!(!offer(&mut board, candidate(3, 20)));
    assert!(!offer(&mut board, candidate(4, 21)));
    assert!(!offer(&mut board, candidate(5, UNSCORED)));
    assert_eq!(scores(&board), vec![10, 20]);
    assert_eq!(tags(&board), vec![HashOp::Add(1), HashOp::Add(2)]);
}

#[test]
fn offer_puts_a_tie_behind_its_equals() {
    let mut board = vec![candidate(1, 10), candidate(2, 10), candidate(3, 30)];
    assert!(offer(&mut board, candidate(4, 10)));
    assert_eq!(tags(&board), vec![HashOp::Add(1), HashOp::Add(2), HashOp::Add(4)]);
}

#[test]
fn offer_leaves_an_empty_board_empty() {
    let mut board: Vec<Candidate> = Vec::new();
    assert!(!offer(&mut board, candidate(1, 0)));
    assert!(board.is_empty());
}

#[test]
fn offer_on_a_board_of_one() {
    let mut board = vec![candidate(1, UNSCORED)];
    assert!(offer(&mut board, candidate(2, 5)));
    assert_eq!(tags(&board), vec![HashOp::Add(2)]);
    assert!(!offer(&mut board, candidate(3, 5)));
    assert!(offer(&mut board, candidate(4, 4)));
    assert_eq!(tags(&board), vec![HashOp::Add(4)]);
}

#[test]
fn search_keeps_the_best_in_ascending_order() {
    let made = Cell::new(0u32);
    let generate = || {
        made.set(made.get() + 1);
        vec![HashOp::Add(made.get())]
    };
    // Scores in the order in which the programs are tried.
    let plan = [50u64, 40, 70, 10, 90, 40, 30, 60];
    let evaluate = |program: &Vec<HashOp>| {
        let tag = match program[0] {
            HashOp::Add(tag) => tag,
            _ => unreachable!(),
        };
        // The first three programs fill the starting board.
        (plan[(tag - 4) as usize], Stats::zero())
    };
    let board = search(plan.len(), 3, generate, evaluate);
    assert_eq!(scores(&board), vec![10, 30, 40]);
    assert_eq!(tags(&board), vec![HashOp::Add(7), HashOp::Add(10), HashOp::Add(5)]);
}

#[test]
fn search_without_rounds_returns_the_unscored_start() {
    let board = search(0, 4, || vec![HashOp::Mul(0)], |_p: &Vec<HashOp>| (0, Stats::zero()));
    assert_eq!(board.len(), 4);
    for entry in board.iter() {
        assert_eq!(entry.score, UNSCORED);
        assert_eq!(entry.program, vec![HashOp::Mul(0)]);
        assert_eq!(entry.stats.rounds(), 0);
    }
}

#[test]
fn search_with_few_rounds_keeps_unscored_entries_last() {
    let board = search(2, 4, || vec![HashOp::Nop], |_p: &Vec<HashOp>| (7, Stats::zero()));
    assert_eq!(scores(&board), vec![7, 7, UNSCORED, UNSCORED]);
}

#[test]
fn search_over_drawn_programs_keeps_the_rules() {
    let generate = || loop {
        if let Some(program) = draw_seeded_program() {
            return program;
        }
    };
    let evaluate = |program: &Vec<HashOp>| {
        let score = program.iter().filter(|op| op.is_seed_marked()).count() as u64;
        (score, Stats::zero())
    };
    let board = search(40, 8, generate, evaluate);
    assert_eq!(board.len(), 8);
    for pair in board.windows(2) {
        assert!(pair[0].score <= pair[1].score);
    }
    for entry in board.iter() {
        assert_eq!(entry.program.len(), 8);
        assert!(any_multiplies_by_seed(&entry.program));
        for op in entry.program.iter() {
            match *op {
                HashOp::Add(_) => {}
                HashOp::Mul(c) => assert!(c == 0 || c & 1 == 1),
                HashOp::MulXor(c) => assert_eq!(c & 1, 0),
                other => panic!("unexpected op {:?}", other),
            }
        }
    }
}

#[test]
fn drawn_programs_have_eight_sampled_ops() {
    assert_eq!(PROGRAM_SLOTS, 8);
    for _ in 0..50 {
        let program = draw_program();
        assert_eq!(program.len(), 8);
        for op in program.iter() {
            assert!(matches!(op, HashOp::Add(_) | HashOp::Mul(_) | HashOp::MulXor(_)));
        }
    }
}

#[test]
fn any_multiplies_by_seed_looks_at_every_op() {
    assert!(!any_multiplies_by_seed(&[]));
    assert!(!any_multiplies_by_seed(&[HashOp::Add(0), HashOp::Mul(3), HashOp::MulXor(2)]));
    assert!(any_multiplies_by_seed(&[HashOp::Add(0), HashOp::Mul(3), HashOp::MulXor(0)]));
    assert!(any_multiplies_by_seed(&[HashOp::Mul(0)]));
}

#[test]
fn keep_if_seeded_keeps_only_seeded_programs() {
    let seeded = vec![HashOp::Add(1), HashOp::Mul(0)];
    let plain = vec![HashOp::Add(0), HashOp::Mul(5)];
    assert_eq!(keep_if_seeded(seeded.clone()), Some(seeded));
    assert_eq!(keep_if_seeded(plain), None);
}

#[test]
fn draw_seeded_program_gives_both_outcomes() {
    let mut kept = 0;
    let mut dropped = 0;
    for _ in 0..400 {
        match draw_seeded_program() {
            Some(program) => {
                assert!(any_multiplies_by_seed(&program));
                kept += 1;
            }
            None => dropped += 1,
        }
    }
    assert!(kept > 0 && dropped > 0);
}
