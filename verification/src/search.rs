//! The search for better hashes: random candidate programs, and the board of
//! the best candidates seen so far.

use vstd::prelude::*;
use crate::hash_gen::{program_well_formed, HashOp};
use crate::stats::Stats;

verus! {

/// The number of operations of a program drawn at random.
pub const PROGRAM_SLOTS: usize = 8;

/// The score of a candidate that has not been measured: worse than any
/// other.
pub const UNSCORED: u64 = 0xffff_ffff_ffff_ffff;

/// A hash program with the statistics measured on it and the score that
/// they earned. Scores are whole numbers that order candidates; lower is
/// better.
pub struct Candidate {
    pub program: Vec<HashOp>,
    pub score: u64,
    pub stats: Stats,
}

/// Some operation of the program multiplies by the seed.
pub open spec fn multiplies_by_seed(ops: Seq<HashOp>) -> bool {
    exists|i: int| 0 <= i < ops.len() && (#[trigger] ops[i]).uses_mul_and_seed_spec()
}

/// Every operation of the program is an `Add`, a `Mul` or a `MulXor`.
pub open spec fn is_sampled_program(ops: Seq<HashOp>) -> bool {
    forall|i: int|
        0 <= i < ops.len() ==> (#[trigger] ops[i]) is Add || ops[i] is Mul || ops[i] is MulXor
}

/// Whether some operation of the program multiplies by the seed.
pub fn any_multiplies_by_seed(ops: &[HashOp]) -> (r: bool)
    ensures
        r == multiplies_by_seed(ops@),
{
    let mut i: usize = 0;
    while i < ops.len()
        invariant
            i <= ops.len(),
            forall|k: int| 0 <= k < i ==> !(#[trigger] ops@[k]).uses_mul_and_seed_spec(),
        decreases ops.len() - i,
    {
        if ops[i].uses_mul_and_seed() {
            return true;
        }
        i += 1;
    }
    false
}

/// Draws a program of `PROGRAM_SLOTS` random operations.
pub fn draw_program() -> (ops: Vec<HashOp>)
    ensures
        ops@.len() == PROGRAM_SLOTS,
        program_well_formed(ops@),
        is_sampled_program(ops@),
{
    let mut ops: Vec<HashOp> = Vec::new();
    let mut i: usize = 0;
    while i < PROGRAM_SLOTS
        invariant
            i <= PROGRAM_SLOTS,
            ops@.len() == i,
            program_well_formed(ops@),
            is_sampled_program(ops@),
        decreases PROGRAM_SLOTS - i,
    {
        ops.push(HashOp::gen_random());
        i += 1;
    }
    ops
}

/// Keeps a program if some operation of it multiplies by the seed, and
/// drops it otherwise: no decent scrambling hash is known without one.
pub fn keep_if_seeded(ops: Vec<HashOp>) -> (kept: Option<Vec<HashOp>>)
    ensures
        kept == if multiplies_by_seed(ops@) { Some(ops) } else { None },
{
    if any_multiplies_by_seed(ops.as_slice()) {
        Some(ops)
    } else {
        None
    }
}

/// Draws one random program and keeps it if some operation of it multiplies
/// by the seed. A caller that needs a program calls again on `None`.
pub fn draw_seeded_program() -> (kept: Option<Vec<HashOp>>)
    ensures
        exists|drawn: Seq<HashOp>|
            {
                &&& drawn.len() == PROGRAM_SLOTS
                &&& program_well_formed(drawn)
                &&& is_sampled_program(drawn)
                &&& match kept {
                    Some(ops) => ops@ == drawn && multiplies_by_seed(drawn),
                    None => !multiplies_by_seed(drawn),
                }
            },
{
    let drawn = draw_program();
    let ghost ops = drawn@;
    let kept = keep_if_seeded(drawn);
    proof {
        assert(match kept {
            Some(p) => p@ == ops && multiplies_by_seed(ops),
            None => !multiplies_by_seed(ops),
        });
    }
    kept
}

/// The scores of the board never fall from one entry to the next.
pub open spec fn is_ascending(board: Seq<Candidate>) -> bool {
    forall|i: int, j: int| 0 <= i <= j < board.len() ==> board[i].score <= board[j].score
}

/// The place of a new entry of the given score on an ascending board:
/// behind every entry that scores no worse.
pub open spec fn rank_of(board: Seq<Candidate>, score: u64) -> int
    decreases board.len(),
{
    if board.len() == 0 {
        0
    } else if board.last().score <= score {
        board.len() as int
    } else {
        rank_of(board.drop_last(), score)
    }
}

/// The board after a candidate was offered to it. A candidate that beats
/// the last entry takes the place of that entry and moves up to its rank;
/// any other candidate leaves the board as it was.
pub open spec fn offer_spec(board: Seq<Candidate>, candidate: Candidate) -> Seq<Candidate> {
    if board.len() > 0 && candidate.score < board.last().score {
        let kept = board.drop_last();
        kept.insert(rank_of(kept, candidate.score), candidate)
    } else {
        board
    }
}

/// The board after a number of candidates were offered to it in turn.
pub open spec fn offer_all(board: Seq<Candidate>, offers: Seq<Candidate>) -> Seq<Candidate>
    decreases offers.len(),
{
    if offers.len() == 0 {
        board
    } else {
        offer_spec(offer_all(board, offers.drop_last()), offers.last())
    }
}

/// Offers a candidate to the board. It is taken if it scores better than
/// the worst entry, which then leaves; the board stays in ascending order.
pub fn offer(board: &mut Vec<Candidate>, candidate: Candidate) -> (accepted: bool)
    requires
        is_ascending(old(board)@),
    ensures
        accepted == (old(board)@.len() > 0 && candidate.score < old(board)@.last().score),
        final(board)@ == offer_spec(old(board)@, candidate),
        final(board)@.len() == old(board)@.len(),
        is_ascending(final(board)@),
{
    let n = board.len();
    if n == 0 {
        return false;
    }
    if !(candidate.score < board[n - 1].score) {
        return false;
    }
    board.pop();
    let ghost kept = board@;
    assert(kept =~= old(board)@.drop_last());
    let mut p: usize = n - 1;
    assert(kept.take(p as int) =~= kept);
    while p > 0 && board[p - 1].score > candidate.score
        invariant
            p <= kept.len(),
            board@ == kept,
            is_ascending(kept),
            rank_of(kept, candidate.score) == rank_of(kept.take(p as int), candidate.score),
            forall|k: int| p <= k < kept.len() ==> kept[k].score > candidate.score,
        decreases p,
    {
        proof {
            assert(kept.take(p as int).drop_last() =~= kept.take(p - 1));
        }
        p -= 1;
    }
    proof {
        if p > 0 {
            assert(kept.take(p as int).last() == kept[p - 1]);
        }
        assert(rank_of(kept, candidate.score) == p);
    }
    board.insert(p, candidate);
    proof {
        let after = board@;
        assert forall|i: int, j: int| 0 <= i <= j < after.len() implies after[i].score
            <= after[j].score by {
            if i < p {
                assert(after[i] == kept[i]);
                assert(kept[i].score <= kept[p - 1].score);
            }
            if j > p {
                assert(after[j] == kept[j - 1]);
            }
        }
    }
    true
}

/// The entry is one that the search starts with: a program from
/// `generate`, not measured yet.
pub open spec fn is_starting_entry<G: Fn() -> Vec<HashOp>>(generate: &G, entry: Candidate) -> bool {
    &&& generate.ensures((), entry.program)
    &&& entry.score == UNSCORED
    &&& entry.stats.measures(Seq::empty())
}

/// The entry is one that the search tried: a program from `generate`, with
/// the score and the statistics that `evaluate` gave for it.
pub open spec fn is_tried_entry<G: Fn() -> Vec<HashOp>, E: Fn(&Vec<HashOp>) -> (u64, Stats)>(
    generate: &G,
    evaluate: &E,
    entry: Candidate,
) -> bool {
    &&& generate.ensures((), entry.program)
    &&& evaluate.ensures((&entry.program,), (entry.score, entry.stats))
}

/// Searches at random for good hashes: starts from `candidate_count`
/// unmeasured programs, then tries `rounds` more, each measured and scored
/// by `evaluate` and offered to the board. Returns the board, best first.
pub fn search<G: Fn() -> Vec<HashOp>, E: Fn(&Vec<HashOp>) -> (u64, Stats)>(
    rounds: usize,
    candidate_count: usize,
    generate: G,
    evaluate: E,
) -> (board: Vec<Candidate>)
    requires
        candidate_count > 0,
        generate.requires(()),
        forall|program: Vec<HashOp>|
            generate.ensures((), program) ==> #[trigger] evaluate.requires((&program,)),
    ensures
        board@.len() == candidate_count,
        is_ascending(board@),
        forall|k: int|
            0 <= k < board@.len() ==> generate.ensures((), (#[trigger] board@[k]).program),
        exists|start: Seq<Candidate>, tried: Seq<Candidate>|
            {
                &&& start.len() == candidate_count
                &&& tried.len() == rounds
                &&& forall|k: int|
                    0 <= k < start.len() ==> is_starting_entry(&generate, #[trigger] start[k])
                &&& forall|k: int|
                    0 <= k < tried.len() ==> is_tried_entry(
                        &generate,
                        &evaluate,
                        #[trigger] tried[k],
                    )
                &&& board@ == offer_all(start, tried)
            },
{
    let mut board: Vec<Candidate> = Vec::new();
    let mut c: usize = 0;
    while c < candidate_count
        invariant
            c <= candidate_count,
            generate.requires(()),
            board@.len() == c,
            forall|k: int| 0 <= k < board@.len() ==> is_starting_entry(&generate, #[trigger] board@[k]),
        decreases candidate_count - c,
    {
        let program = generate();
        board.push(Candidate { program, score: UNSCORED, stats: Stats::zero() });
        c += 1;
    }
    let ghost start = board@;
    let ghost mut tried: Seq<Candidate> = Seq::empty();
    let mut round: usize = 0;
    while round < rounds
        invariant
            round <= rounds,
            generate.requires(()),
            forall|program: Vec<HashOp>|
                generate.ensures((), program) ==> #[trigger] evaluate.requires((&program,)),
            start.len() == candidate_count,
            forall|k: int| 0 <= k < start.len() ==> is_starting_entry(&generate, #[trigger] start[k]),
            tried.len() == round,
            forall|k: int|
                0 <= k < tried.len() ==> is_tried_entry(&generate, &evaluate, #[trigger] tried[k]),
            board@ == offer_all(start, tried),
            board@.len() == candidate_count,
            is_ascending(board@),
            forall|k: int|
                0 <= k < board@.len() ==> generate.ensures((), (#[trigger] board@[k]).program),
        decreases rounds - round,
    {
        let program = generate();
        let (score, stats) = evaluate(&program);
        let candidate = Candidate { program, score, stats };
        let ghost before = board@;
        proof {
            assert(tried.push(candidate).drop_last() =~= tried);
            tried = tried.push(candidate);
        }
        offer(&mut board, candidate);
        proof {
            let kept = before.drop_last();
            assert forall|k: int| 0 <= k < board@.len() implies generate.ensures(
                (),
                (#[trigger] board@[k]).program,
            ) by {
                if board@ != before {
                    let p = rank_of(kept, candidate.score);
                    lemma_rank_in_range(kept, candidate.score);
                    if k < p {
                        assert(board@[k] == before[k]);
                    } else if k > p {
                        assert(board@[k] == before[k - 1]);
                    }
                }
            }
        }
        round += 1;
    }
    board
}

/// The rank of a new entry lies on the board or just behind it.
pub proof fn lemma_rank_in_range(board: Seq<Candidate>, score: u64)
    ensures
        0 <= rank_of(board, score) <= board.len(),
    decreases board.len(),
{
    if board.len() > 0 && board.last().score > score {
        lemma_rank_in_range(board.drop_last(), score);
    }
}

} // verus!
