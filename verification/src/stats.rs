//! The statistics by which a scrambling hash is judged: how often flipping
//! an input bit flips an output bit, how far that is from even odds seed by
//! seed, and how pairs of inputs and outputs spread over a binary tree.
//!
//! Everything is kept as whole numbers: counts of trials, never fractions.
//! `Stats::rounds` is what a caller divides by.

use vstd::prelude::*;
use crate::bits::{bit, reverse_bits, reverse_bits_spec};
use crate::rng::random_u32;

verus! {

/// The number of trials that share one seed.
pub const SUB_ROUNDS: u32 = 256;

/// A 32 by 32 table of counters, stored row by row.
struct Grid {
    cells: Vec<u64>,
}

impl Grid {
    spec fn wf(&self) -> bool {
        self.cells@.len() == 1024
    }

    spec fn at(&self, r: int, c: int) -> nat {
        self.cells@[r * 32 + c] as nat
    }

    fn zero() -> (g: Grid)
        ensures
            g.wf(),
            forall|r: int, c: int| 0 <= r < 32 && 0 <= c < 32 ==> #[trigger] g.at(r, c) == 0,
    {
        let mut cells: Vec<u64> = Vec::new();
        let mut k: usize = 0;
        while k < 1024
            invariant
                k <= 1024,
                cells@.len() == k,
                forall|t: int| 0 <= t < k ==> cells@[t] == 0,
            decreases 1024 - k,
        {
            cells.push(0);
            k += 1;
        }
        Grid { cells }
    }

    fn get(&self, r: usize, c: usize) -> (v: u64)
        requires
            self.wf(),
            r < 32,
            c < 32,
        ensures
            v == self.at(r as int, c as int),
    {
        self.cells[r * 32 + c]
    }

    fn put(&mut self, r: usize, c: usize, v: u64)
        requires
            old(self).wf(),
            r < 32,
            c < 32,
        ensures
            final(self).wf(),
            final(self).at(r as int, c as int) == v,
            forall|r2: int, c2: int|
                0 <= r2 < 32 && 0 <= c2 < 32 && (r2 != r || c2 != c) ==> #[trigger] final(self).at(
                    r2,
                    c2,
                ) == old(self).at(r2, c2),
    {
        self.cells.set(r * 32 + c, v);
    }
}

/// What one trial saw of the hash under test: the inputs it chose and the
/// outputs that came back.
#[derive(Debug, Copy, Clone)]
pub struct Trial {
    /// The seed of the batch that the trial belongs to.
    pub seed: u32,
    /// The input of the avalanche test.
    pub input: u32,
    /// The hash of `input` under `seed`.
    pub output: u32,
    /// At position `i`, the hash under `seed` of `input` with bit `i` flipped.
    pub flipped_outputs: [u32; 32],
    /// The seed of the tree test, drawn anew in every trial.
    pub tree_seed: u32,
    /// The two inputs of the tree test.
    pub tree_inputs: (u32, u32),
    /// The hashes of the two inputs under `tree_seed`.
    pub tree_outputs: (u32, u32),
}

impl Trial {
    /// In this trial, flipping input bit `i` flipped output bit `j`.
    pub open spec fn flips(self, i: int, j: int) -> bool {
        bit(self.output ^ self.flipped_outputs@[i], j as u32)
    }

    /// The cell of the tree table that this trial falls into.
    pub open spec fn tree_cell(self) -> (int, int) {
        tree_cell_spec(
            self.tree_outputs.0 ^ self.tree_outputs.1,
            self.tree_inputs.0 ^ self.tree_inputs.1,
        )
    }
}

/// Five bits of `v` as a number: bits 1 to 5, bit 1 being the highest of the
/// five.
pub open spec fn bucket_spec(v: u32) -> int {
    ((reverse_bits_spec(v) >> 26) & 31) as int
}

/// The cell of the tree table for a pair of inputs whose XOR is `in_xor` and
/// whose outputs have the XOR `out_xor`: both words lose the zero bits that
/// they have in common at their low end, and the row is the bucket of what is
/// left of `out_xor`, the column the bucket of what is left of `in_xor`.
pub open spec fn tree_cell_spec(out_xor: u32, in_xor: u32) -> (int, int) {
    let both = out_xor | in_xor;
    let shift = if both == 0 { 0 } else { vstd::std_specs::bits::u32_trailing_zeros(both) };
    (bucket_spec(out_xor >> shift), bucket_spec(in_xor >> shift))
}

/// Computes the cell of the tree table for one pair of inputs and outputs.
pub fn tree_cell(out_xor: u32, in_xor: u32) -> (cell: (usize, usize))
    ensures
        cell.0 < 32,
        cell.1 < 32,
        (cell.0 as int, cell.1 as int) == tree_cell_spec(out_xor, in_xor),
{
    let both = out_xor | in_xor;
    let shift: u32 = if both == 0 { 0 } else { both.trailing_zeros() };
    proof {
        vstd::std_specs::bits::axiom_u32_trailing_zeros(both);
    }
    let x = out_xor >> shift;
    let y = in_xor >> shift;
    let row = (reverse_bits(x) >> 26) & 31;
    let col = (reverse_bits(y) >> 26) & 31;
    proof {
        let rx = reverse_bits_spec(x);
        let ry = reverse_bits_spec(y);
        assert((rx >> 26) & 31 < 32) by (bit_vector);
        assert((ry >> 26) & 31 < 32) by (bit_vector);
    }
    (row as usize, col as usize)
}

/// In how many of the trials flipping input bit `i` flipped output bit `j`.
pub open spec fn count_flips(trials: Seq<Trial>, i: int, j: int) -> nat
    decreases trials.len(),
{
    if trials.len() == 0 {
        0
    } else {
        count_flips(trials.drop_last(), i, j) + if trials.last().flips(i, j) { 1nat } else { 0nat }
    }
}

/// How many of the trials fall into cell `(r, c)` of the tree table.
pub open spec fn count_tree(trials: Seq<Trial>, r: int, c: int) -> nat
    decreases trials.len(),
{
    if trials.len() == 0 {
        0
    } else {
        count_tree(trials.drop_last(), r, c) + if trials.last().tree_cell() == (r, c) {
            1nat
        } else {
            0nat
        }
    }
}

/// How far the flip count of one batch is from half the batch.
pub open spec fn batch_bias(trials: Seq<Trial>, i: int, j: int) -> nat {
    let flips = count_flips(trials, i, j);
    if flips >= 128 {
        (flips - 128) as nat
    } else {
        (128 - flips) as nat
    }
}

proof fn lemma_count_flips_bound(trials: Seq<Trial>, i: int, j: int)
    ensures
        count_flips(trials, i, j) <= trials.len(),
    decreases trials.len(),
{
    if trials.len() > 0 {
        lemma_count_flips_bound(trials.drop_last(), i, j);
    }
}

proof fn lemma_count_tree_bound(trials: Seq<Trial>, r: int, c: int)
    ensures
        count_tree(trials, r, c) <= trials.len(),
    decreases trials.len(),
{
    if trials.len() > 0 {
        lemma_count_tree_bound(trials.drop_last(), r, c);
    }
}

impl Grid {
    /// Adds one to every cell of row `r` whose column is a set bit of `diff`.
    fn add_row(&mut self, r: usize, diff: u32)
        requires
            old(self).wf(),
            r < 32,
            forall|c: int| 0 <= c < 32 ==> #[trigger] old(self).at(r as int, c) < u64::MAX,
        ensures
            final(self).wf(),
            forall|r2: int, c: int|
                0 <= r2 < 32 && 0 <= c < 32 ==> #[trigger] final(self).at(r2, c) == old(self).at(
                    r2,
                    c,
                ) + if r2 == r && bit(diff, c as u32) { 1nat } else { 0nat },
    {
        let mut c: usize = 0;
        while c < 32
            invariant
                c <= 32,
                r < 32,
                self.wf(),
                forall|c2: int| 0 <= c2 < 32 ==> #[trigger] old(self).at(r as int, c2) < u64::MAX,
                forall|r2: int, c2: int|
                    0 <= r2 < 32 && 0 <= c2 < 32 ==> #[trigger] self.at(r2, c2) == old(self).at(
                        r2,
                        c2,
                    ) + if r2 == r && c2 < c && bit(diff, c2 as u32) { 1nat } else { 0nat },
            decreases 32 - c,
        {
            if (diff >> (c as u32)) & 1 == 1 {
                let v = self.get(r, c);
                assert(old(self).at(r as int, c as int) < u64::MAX);
                self.put(r, c, v + 1);
            }
            c += 1;
        }
    }

    /// Adds what one trial saw to the flip counts.
    fn add_trial(&mut self, trial: &Trial)
        requires
            old(self).wf(),
            forall|r: int, c: int|
                0 <= r < 32 && 0 <= c < 32 ==> #[trigger] old(self).at(r, c) < u64::MAX,
        ensures
            final(self).wf(),
            forall|r: int, c: int|
                0 <= r < 32 && 0 <= c < 32 ==> #[trigger] final(self).at(r, c) == old(self).at(r, c)
                    + if trial.flips(r, c) { 1nat } else { 0nat },
    {
        let mut r: usize = 0;
        while r < 32
            invariant
                r <= 32,
                self.wf(),
                forall|r2: int, c: int|
                    0 <= r2 < 32 && 0 <= c < 32 ==> #[trigger] old(self).at(r2, c) < u64::MAX,
                forall|r2: int, c: int|
                    0 <= r2 < 32 && 0 <= c < 32 ==> #[trigger] self.at(r2, c) == old(self).at(r2, c)
                        + if r2 < r && trial.flips(r2, c) { 1nat } else { 0nat },
            decreases 32 - r,
        {
            let diff = trial.output ^ trial.flipped_outputs[r];
            assert forall|c: int| 0 <= c < 32 implies #[trigger] self.at(r as int, c) < u64::MAX by {
                assert(self.at(r as int, c) == old(self).at(r as int, c));
            }
            self.add_row(r, diff);
            r += 1;
        }
    }
}

/// The flip count of a number of batches: the sum of the counts of each.
pub open spec fn total_flips(batches: Seq<Seq<Trial>>, i: int, j: int) -> nat
    decreases batches.len(),
{
    if batches.len() == 0 {
        0
    } else {
        total_flips(batches.drop_last(), i, j) + count_flips(batches.last(), i, j)
    }
}

/// The bias of a number of batches: the sum of the biases of each.
pub open spec fn total_bias(batches: Seq<Seq<Trial>>, i: int, j: int) -> nat
    decreases batches.len(),
{
    if batches.len() == 0 {
        0
    } else {
        total_bias(batches.drop_last(), i, j) + batch_bias(batches.last(), i, j)
    }
}

/// The tree count of a number of batches: the sum of the counts of each.
pub open spec fn total_tree(batches: Seq<Seq<Trial>>, r: int, c: int) -> nat
    decreases batches.len(),
{
    if batches.len() == 0 {
        0
    } else {
        total_tree(batches.drop_last(), r, c) + count_tree(batches.last(), r, c)
    }
}

/// Every batch holds `SUB_ROUNDS` trials.
pub open spec fn full_batches(batches: Seq<Seq<Trial>>) -> bool {
    forall|b: int| 0 <= b < batches.len() ==> (#[trigger] batches[b]).len() == SUB_ROUNDS
}

/// The statistics of a hash, as three 32 by 32 tables of whole numbers
/// indexed by input bit and output bit, and the number of trials behind them.
///
/// With `n = rounds()`: `avalanche / n` is the fraction of trials in which
/// flipping the input bit flipped the output bit; `2 * avalanche_avg_bias / n`
/// is the distance of that fraction from even odds, averaged over the seeds;
/// `512 * tree_bias / n` is the density of the tree table, one half in every
/// cell where the hash mixes evenly.
pub struct Stats {
    rounds: u64,
    avalanche: Grid,
    avalanche_avg_bias: Grid,
    tree_bias: Grid,
}

impl Stats {
    /// The tables are complete and no entry is larger than the number of
    /// trials allows.
    pub closed spec fn well_formed(&self) -> bool {
        &&& self.avalanche.wf()
        &&& self.avalanche_avg_bias.wf()
        &&& self.tree_bias.wf()
        &&& forall|i: int, j: int|
            0 <= i < 32 && 0 <= j < 32 ==> #[trigger] self.avalanche.at(i, j) <= self.rounds
        &&& forall|i: int, j: int|
            0 <= i < 32 && 0 <= j < 32 ==> #[trigger] self.avalanche_avg_bias.at(i, j)
                <= self.rounds
        &&& forall|i: int, j: int|
            0 <= i < 32 && 0 <= j < 32 ==> #[trigger] self.tree_bias.at(i, j) <= self.rounds
    }

    /// The number of trials behind the tables.
    pub closed spec fn rounds_spec(&self) -> nat {
        self.rounds as nat
    }

    /// In how many trials flipping input bit `i` flipped output bit `j`.
    pub closed spec fn avalanche_spec(&self, i: int, j: int) -> nat {
        self.avalanche.at(i, j)
    }

    /// The sum over the batches of the distance between the flip count of
    /// the batch and half the batch.
    pub closed spec fn avalanche_avg_bias_spec(&self, i: int, j: int) -> nat {
        self.avalanche_avg_bias.at(i, j)
    }

    /// How many trials fell into cell `(r, c)` of the tree table.
    pub closed spec fn tree_bias_spec(&self, r: int, c: int) -> nat {
        self.tree_bias.at(r, c)
    }

    /// The tables hold exactly what the trials of `batches` add up to.
    pub open spec fn measures(&self, batches: Seq<Seq<Trial>>) -> bool {
        &&& self.rounds_spec() == SUB_ROUNDS * batches.len()
        &&& forall|i: int, j: int|
            0 <= i < 32 && 0 <= j < 32 ==> #[trigger] self.avalanche_spec(i, j) == total_flips(
                batches,
                i,
                j,
            )
        &&& forall|i: int, j: int|
            0 <= i < 32 && 0 <= j < 32 ==> #[trigger] self.avalanche_avg_bias_spec(i, j)
                == total_bias(batches, i, j)
        &&& forall|i: int, j: int|
            0 <= i < 32 && 0 <= j < 32 ==> #[trigger] self.tree_bias_spec(i, j) == total_tree(
                batches,
                i,
                j,
            )
    }

    /// The statistics of no trial at all: every entry is zero.
    pub fn zero() -> (stats: Stats)
        ensures
            stats.well_formed(),
            stats.measures(Seq::empty()),
    {
        Stats {
            rounds: 0,
            avalanche: Grid::zero(),
            avalanche_avg_bias: Grid::zero(),
            tree_bias: Grid::zero(),
        }
    }

    /// The number of trials behind the tables.
    pub fn rounds(&self) -> (n: u64)
        ensures
            n == self.rounds_spec(),
    {
        self.rounds
    }

    /// In how many trials flipping input bit `bit_in` flipped output bit
    /// `bit_out`.
    pub fn avalanche(&self, bit_in: usize, bit_out: usize) -> (n: u64)
        requires
            self.well_formed(),
            bit_in < 32,
            bit_out < 32,
        ensures
            n == self.avalanche_spec(bit_in as int, bit_out as int),
            n <= self.rounds_spec(),
    {
        self.avalanche.get(bit_in, bit_out)
    }

    /// The sum over the batches of the distance between the flip count of
    /// the batch and half the batch.
    pub fn avalanche_avg_bias(&self, bit_in: usize, bit_out: usize) -> (n: u64)
        requires
            self.well_formed(),
            bit_in < 32,
            bit_out < 32,
        ensures
            n == self.avalanche_avg_bias_spec(bit_in as int, bit_out as int),
            n <= self.rounds_spec(),
    {
        self.avalanche_avg_bias.get(bit_in, bit_out)
    }

    /// How many trials fell into cell `(row, col)` of the tree table.
    pub fn tree_bias(&self, row: usize, col: usize) -> (n: u64)
        requires
            self.well_formed(),
            row < 32,
            col < 32,
        ensures
            n == self.tree_bias_spec(row as int, col as int),
            n <= self.rounds_spec(),
    {
        self.tree_bias.get(row, col)
    }
}

impl Grid {
    /// The table of the distances between the entries and `half`.
    fn distance_from(&self, half: u64) -> (g: Grid)
        requires
            self.wf(),
        ensures
            g.wf(),
            forall|r: int, c: int|
                0 <= r < 32 && 0 <= c < 32 ==> #[trigger] g.at(r, c) == if self.at(r, c) >= half {
                    self.at(r, c) - half
                } else {
                    half - self.at(r, c)
                },
    {
        let mut cells: Vec<u64> = Vec::new();
        let mut k: usize = 0;
        while k < 1024
            invariant
                k <= 1024,
                self.wf(),
                cells@.len() == k,
                forall|t: int|
                    0 <= t < k ==> #[trigger] cells@[t] == if self.cells@[t] >= half {
                        self.cells@[t] - half
                    } else {
                        half - self.cells@[t]
                    },
            decreases 1024 - k,
        {
            let v = self.cells[k];
            cells.push(if v >= half { v - half } else { half - v });
            k += 1;
        }
        Grid { cells }
    }

    /// The table of the sums of the entries of two tables.
    fn sum(&self, other: &Grid) -> (g: Grid)
        requires
            self.wf(),
            other.wf(),
            forall|r: int, c: int|
                0 <= r < 32 && 0 <= c < 32 ==> #[trigger] self.at(r, c) + other.at(r, c)
                    <= u64::MAX,
        ensures
            g.wf(),
            forall|r: int, c: int|
                0 <= r < 32 && 0 <= c < 32 ==> #[trigger] g.at(r, c) == self.at(r, c) + other.at(
                    r,
                    c,
                ),
    {
        let mut cells: Vec<u64> = Vec::new();
        let mut k: usize = 0;
        while k < 1024
            invariant
                k <= 1024,
                self.wf(),
                other.wf(),
                forall|r: int, c: int|
                    0 <= r < 32 && 0 <= c < 32 ==> #[trigger] self.at(r, c) + other.at(r, c)
                        <= u64::MAX,
                cells@.len() == k,
                forall|t: int|
                    0 <= t < k ==> #[trigger] cells@[t] == self.cells@[t] + other.cells@[t],
            decreases 1024 - k,
        {
            proof {
                let r = k as int / 32;
                let c = k as int % 32;
                assert(self.at(r, c) + other.at(r, c) <= u64::MAX);
            }
            cells.push(self.cells[k] + other.cells[k]);
            k += 1;
        }
        Grid { cells }
    }
}

/// Counts what a batch of trials saw.
pub fn tally_batch(trials: &[Trial]) -> (stats: Stats)
    requires
        trials@.len() == SUB_ROUNDS,
    ensures
        stats.well_formed(),
        stats.rounds_spec() == SUB_ROUNDS,
        forall|i: int, j: int|
            0 <= i < 32 && 0 <= j < 32 ==> #[trigger] stats.avalanche_spec(i, j) == count_flips(
                trials@,
                i,
                j,
            ),
        forall|i: int, j: int|
            0 <= i < 32 && 0 <= j < 32 ==> #[trigger] stats.avalanche_avg_bias_spec(i, j)
                == batch_bias(trials@, i, j),
        forall|i: int, j: int|
            0 <= i < 32 && 0 <= j < 32 ==> #[trigger] stats.tree_bias_spec(i, j) == count_tree(
                trials@,
                i,
                j,
            ),
        stats.measures(seq![trials@]),
{
    let mut flips = Grid::zero();
    let mut tree = Grid::zero();
    let mut t: usize = 0;
    while t < trials.len()
        invariant
            t <= trials@.len(),
            trials@.len() == SUB_ROUNDS,
            flips.wf(),
            tree.wf(),
            forall|i: int, j: int|
                0 <= i < 32 && 0 <= j < 32 ==> #[trigger] flips.at(i, j) == count_flips(
                    trials@.take(t as int),
                    i,
                    j,
                ),
            forall|i: int, j: int|
                0 <= i < 32 && 0 <= j < 32 ==> #[trigger] tree.at(i, j) == count_tree(
                    trials@.take(t as int),
                    i,
                    j,
                ),
        decreases trials@.len() - t,
    {
        let trial = &trials[t];
        let cell = tree_cell(
            trial.tree_outputs.0 ^ trial.tree_outputs.1,
            trial.tree_inputs.0 ^ trial.tree_inputs.1,
        );
        proof {
            let done = trials@.take(t as int);
            assert(trials@.take(t + 1).drop_last() =~= done);
            assert(trials@.take(t + 1).last() == trials@[t as int]);
            assert forall|i: int, j: int| 0 <= i < 32 && 0 <= j < 32 implies #[trigger] flips.at(
                i,
                j,
            ) < u64::MAX by {
                lemma_count_flips_bound(done, i, j);
            }
            lemma_count_tree_bound(done, cell.0 as int, cell.1 as int);
        }
        flips.add_trial(trial);
        let seen = tree.get(cell.0, cell.1);
        tree.put(cell.0, cell.1, seen + 1);
        t += 1;
    }
    proof {
        assert(trials@.take(t as int) =~= trials@);
        assert forall|i: int, j: int| 0 <= i < 32 && 0 <= j < 32 implies count_flips(trials@, i, j)
            <= SUB_ROUNDS && count_tree(trials@, i, j) <= SUB_ROUNDS by {
            lemma_count_flips_bound(trials@, i, j);
            lemma_count_tree_bound(trials@, i, j);
        }
    }
    let bias = flips.distance_from(128);
    let stats = Stats { rounds: 256, avalanche: flips, avalanche_avg_bias: bias, tree_bias: tree };
    proof {
        let one = seq![trials@];
        assert(one.drop_last() =~= Seq::<Seq<Trial>>::empty());
        assert(one.last() == trials@);
        assert forall|i: int, j: int| 0 <= i < 32 && 0 <= j < 32 implies total_flips(one, i, j)
            == count_flips(trials@, i, j) && total_bias(one, i, j) == batch_bias(trials@, i, j)
            && total_tree(one, i, j) == count_tree(trials@, i, j) by {
            assert(total_flips(one.drop_last(), i, j) == 0);
            assert(total_bias(one.drop_last(), i, j) == 0);
            assert(total_tree(one.drop_last(), i, j) == 0);
        }
    }
    stats
}

proof fn lemma_totals_concat(a: Seq<Seq<Trial>>, b: Seq<Seq<Trial>>, i: int, j: int)
    ensures
        total_flips(a + b, i, j) == total_flips(a, i, j) + total_flips(b, i, j),
        total_bias(a + b, i, j) == total_bias(a, i, j) + total_bias(b, i, j),
        total_tree(a + b, i, j) == total_tree(a, i, j) + total_tree(b, i, j),
    decreases b.len(),
{
    if b.len() == 0 {
        assert(a + b =~= a);
    } else {
        assert((a + b).drop_last() =~= a + b.drop_last());
        assert((a + b).last() == b.last());
        lemma_totals_concat(a, b.drop_last(), i, j);
    }
}

impl Stats {
    /// Adds two sets of statistics entry by entry.
    pub fn merge(&self, other: &Stats) -> (sum: Stats)
        requires
            self.well_formed(),
            other.well_formed(),
            self.rounds_spec() + other.rounds_spec() <= u64::MAX,
        ensures
            sum.well_formed(),
            sum.rounds_spec() == self.rounds_spec() + other.rounds_spec(),
            forall|i: int, j: int|
                0 <= i < 32 && 0 <= j < 32 ==> #[trigger] sum.avalanche_spec(i, j)
                    == self.avalanche_spec(i, j) + other.avalanche_spec(i, j),
            forall|i: int, j: int|
                0 <= i < 32 && 0 <= j < 32 ==> #[trigger] sum.avalanche_avg_bias_spec(i, j)
                    == self.avalanche_avg_bias_spec(i, j) + other.avalanche_avg_bias_spec(i, j),
            forall|i: int, j: int|
                0 <= i < 32 && 0 <= j < 32 ==> #[trigger] sum.tree_bias_spec(i, j)
                    == self.tree_bias_spec(i, j) + other.tree_bias_spec(i, j),
    {
        Stats {
            rounds: self.rounds + other.rounds,
            avalanche: self.avalanche.sum(&other.avalanche),
            avalanche_avg_bias: self.avalanche_avg_bias.sum(&other.avalanche_avg_bias),
            tree_bias: self.tree_bias.sum(&other.tree_bias),
        }
    }

    /// Merging the statistics of two runs gives the statistics of the
    /// trials of both.
    pub proof fn lemma_merge_measures(
        self,
        other: Stats,
        sum: Stats,
        mine: Seq<Seq<Trial>>,
        theirs: Seq<Seq<Trial>>,
    )
        requires
            self.measures(mine),
            other.measures(theirs),
            sum.rounds_spec() == self.rounds_spec() + other.rounds_spec(),
            forall|i: int, j: int|
                0 <= i < 32 && 0 <= j < 32 ==> #[trigger] sum.avalanche_spec(i, j)
                    == self.avalanche_spec(i, j) + other.avalanche_spec(i, j),
            forall|i: int, j: int|
                0 <= i < 32 && 0 <= j < 32 ==> #[trigger] sum.avalanche_avg_bias_spec(i, j)
                    == self.avalanche_avg_bias_spec(i, j) + other.avalanche_avg_bias_spec(i, j),
            forall|i: int, j: int|
                0 <= i < 32 && 0 <= j < 32 ==> #[trigger] sum.tree_bias_spec(i, j)
                    == self.tree_bias_spec(i, j) + other.tree_bias_spec(i, j),
        ensures
            sum.measures(mine + theirs),
    {
        let both = mine + theirs;
        assert forall|i: int, j: int| 0 <= i < 32 && 0 <= j < 32 implies #[trigger] sum.avalanche_spec(
            i,
            j,
        ) == total_flips(both, i, j) by {
            lemma_totals_concat(mine, theirs, i, j);
            assert(self.avalanche_spec(i, j) == total_flips(mine, i, j));
            assert(other.avalanche_spec(i, j) == total_flips(theirs, i, j));
        }
        assert forall|i: int, j: int|
            0 <= i < 32 && 0 <= j < 32 implies #[trigger] sum.avalanche_avg_bias_spec(i, j)
            == total_bias(both, i, j) by {
            lemma_totals_concat(mine, theirs, i, j);
            assert(self.avalanche_avg_bias_spec(i, j) == total_bias(mine, i, j));
            assert(other.avalanche_avg_bias_spec(i, j) == total_bias(theirs, i, j));
        }
        assert forall|i: int, j: int| 0 <= i < 32 && 0 <= j < 32 implies #[trigger] sum.tree_bias_spec(
            i,
            j,
        ) == total_tree(both, i, j) by {
            lemma_totals_concat(mine, theirs, i, j);
            assert(self.tree_bias_spec(i, j) == total_tree(mine, i, j));
            assert(other.tree_bias_spec(i, j) == total_tree(theirs, i, j));
        }
        assert(SUB_ROUNDS * (mine + theirs).len() == SUB_ROUNDS * mine.len() + SUB_ROUNDS
            * theirs.len());
    }
}

/// The trial holds what `hash` may return on the inputs that the trial
/// names: the avalanche input and its 32 neighbours under the batch seed,
/// the two tree inputs under the tree seed.
pub open spec fn observes<F: Fn(u32, u32) -> u32>(hash: &F, trial: Trial) -> bool {
    &&& hash.ensures((trial.input, trial.seed), trial.output)
    &&& forall|i: u32|
        i < 32 ==> hash.ensures(
            (trial.input ^ (1u32 << i), trial.seed),
            #[trigger] trial.flipped_outputs@[i as int],
        )
    &&& hash.ensures((trial.tree_inputs.0, trial.tree_seed), trial.tree_outputs.0)
    &&& hash.ensures((trial.tree_inputs.1, trial.tree_seed), trial.tree_outputs.1)
}

/// The trials are one batch of observations of `hash`: `SUB_ROUNDS` trials
/// under one seed.
pub open spec fn is_batch<F: Fn(u32, u32) -> u32>(hash: &F, trials: Seq<Trial>) -> bool {
    &&& trials.len() == SUB_ROUNDS
    &&& forall|k: int|
        0 <= k < trials.len() ==> observes(hash, #[trigger] trials[k]) && trials[k].seed
            == trials[0].seed
}

/// Runs one trial on chosen inputs: hashes `input` and each of its 32
/// one-bit neighbours under `seed`, and the two tree inputs under
/// `tree_seed`.
pub fn observe<F: Fn(u32, u32) -> u32>(
    hash: &F,
    seed: u32,
    input: u32,
    tree_seed: u32,
    tree_inputs: (u32, u32),
) -> (trial: Trial)
    requires
        forall|x: u32, s: u32| hash.requires((x, s)),
    ensures
        trial.seed == seed,
        trial.input == input,
        trial.tree_seed == tree_seed,
        trial.tree_inputs == tree_inputs,
        observes(hash, trial),
{
    let output = hash(input, seed);
    let mut flipped_outputs: [u32; 32] = [0u32; 32];
    let mut i: u32 = 0;
    while i < 32
        invariant
            i <= 32,
            forall|x: u32, s: u32| hash.requires((x, s)),
            forall|k: u32|
                k < i ==> hash.ensures(
                    (input ^ (1u32 << k), seed),
                    #[trigger] flipped_outputs@[k as int],
                ),
        decreases 32 - i,
    {
        let flipped = hash(input ^ (1u32 << i), seed);
        flipped_outputs[i as usize] = flipped;
        i += 1;
    }
    let first = hash(tree_inputs.0, tree_seed);
    let second = hash(tree_inputs.1, tree_seed);
    Trial {
        seed,
        input,
        output,
        flipped_outputs,
        tree_seed,
        tree_inputs,
        tree_outputs: (first, second),
    }
}

/// Runs one trial under `seed` on inputs drawn at random.
pub fn run_trial<F: Fn(u32, u32) -> u32>(hash: &F, seed: u32) -> (trial: Trial)
    requires
        forall|x: u32, s: u32| hash.requires((x, s)),
    ensures
        trial.seed == seed,
        observes(hash, trial),
{
    let input = random_u32();
    let tree_seed = random_u32();
    let first = random_u32();
    let second = random_u32();
    observe(hash, seed, input, tree_seed, (first, second))
}

/// Measures one batch: `SUB_ROUNDS` trials on random inputs under one
/// random seed, counted.
pub fn measure_batch<F: Fn(u32, u32) -> u32>(hash: &F) -> (stats: Stats)
    requires
        forall|x: u32, s: u32| hash.requires((x, s)),
    ensures
        stats.well_formed(),
        stats.rounds_spec() == SUB_ROUNDS,
        exists|trials: Seq<Trial>| is_batch(hash, trials) && stats.measures(seq![trials]),
{
    let seed = random_u32();
    let mut trials: Vec<Trial> = Vec::new();
    let mut t: u32 = 0;
    while t < SUB_ROUNDS
        invariant
            t <= SUB_ROUNDS,
            trials@.len() == t,
            forall|x: u32, s: u32| hash.requires((x, s)),
            forall|k: int|
                0 <= k < trials@.len() ==> observes(hash, #[trigger] trials@[k]) && trials@[k].seed
                    == seed,
        decreases SUB_ROUNDS - t,
    {
        let trial = run_trial(hash, seed);
        trials.push(trial);
        t += 1;
    }
    let stats = tally_batch(trials.as_slice());
    proof {
        assert(is_batch(hash, trials@));
    }
    stats
}

/// The number of batches that `rounds` trials take: `rounds` over
/// `SUB_ROUNDS`, rounded up.
pub open spec fn loop_rounds_spec(rounds: u32) -> nat {
    ((rounds + 255) / 256) as nat
}

/// The number of batches that `rounds` trials take.
pub fn loop_rounds(rounds: u32) -> (n: u32)
    ensures
        n == loop_rounds_spec(rounds),
{
    rounds / SUB_ROUNDS + if rounds % SUB_ROUNDS != 0 { 1 } else { 0 }
}

/// Whether batch number `lr` of `loop_rounds` is one at which progress is
/// reported: every batch whose number is a multiple of a 53rd of the batches,
/// or every batch where there are fewer than 106.
pub fn progress_due(lr: u32, loop_rounds: u32) -> (due: bool)
    ensures
        due == (lr as int % (if loop_rounds / 53 >= 1 { loop_rounds as int / 53 } else { 1 }) == 0),
{
    let step = if loop_rounds / 53 >= 1 { loop_rounds / 53 } else { 1 };
    lr % step == 0
}

/// Measures the statistics of the provided hash function over `rounds`
/// trials, rounded up to whole batches.
pub fn measure_stats<F: Fn(u32, u32) -> u32>(hash: F, rounds: u32) -> (stats: Stats)
    requires
        forall|x: u32, s: u32| hash.requires((x, s)),
    ensures
        stats.well_formed(),
        stats.rounds_spec() == SUB_ROUNDS * loop_rounds_spec(rounds),
        exists|batches: Seq<Seq<Trial>>|
            batches.len() == loop_rounds_spec(rounds) && (forall|b: int|
                0 <= b < batches.len() ==> is_batch(&hash, #[trigger] batches[b]))
                && stats.measures(batches),
{
    let batch_count = loop_rounds(rounds);
    let mut total = Stats::zero();
    let ghost mut batches: Seq<Seq<Trial>> = Seq::empty();
    let mut lr: u32 = 0;
    while lr < batch_count
        invariant
            lr <= batch_count,
            forall|x: u32, s: u32| hash.requires((x, s)),
            total.well_formed(),
            total.rounds_spec() == SUB_ROUNDS * lr,
            batches.len() == lr,
            forall|b: int| 0 <= b < batches.len() ==> is_batch(&hash, #[trigger] batches[b]),
            total.measures(batches),
        decreases batch_count - lr,
    {
        let batch = measure_batch(&hash);
        let ghost trials = choose|trials: Seq<Trial>|
            is_batch(&hash, trials) && batch.measures(seq![trials]);
        let sum = total.merge(&batch);
        proof {
            total.lemma_merge_measures(batch, sum, batches, seq![trials]);
            assert(batches + seq![trials] =~= batches.push(trials));
            batches = batches.push(trials);
        }
        total = sum;
        lr += 1;
    }
    total
}

/// The hash hands every input back unchanged, whatever the seed.
pub open spec fn is_identity_hash<F: Fn(u32, u32) -> u32>(hash: &F) -> bool {
    forall|x: u32, s: u32, y: u32| #[trigger] hash.ensures((x, s), y) ==> y == x
}

proof fn lemma_identity_trial<F: Fn(u32, u32) -> u32>(hash: &F, trial: Trial, i: int, j: int)
    requires
        is_identity_hash(hash),
        observes(hash, trial),
        0 <= i < 32,
        0 <= j < 32,
    ensures
        trial.flips(i, j) == (i == j),
{
    let x = trial.input;
    let i32: u32 = i as u32;
    let j32: u32 = j as u32;
    let y = trial.flipped_outputs@[i32 as int];
    assert(hash.ensures((x ^ (1u32 << i32), trial.seed), y));
    assert(bit(x ^ (x ^ (1u32 << i32)), j32) == (i32 == j32)) by (bit_vector)
        requires
            i32 < 32,
            j32 < 32,
    ;
}

proof fn lemma_identity_batch<F: Fn(u32, u32) -> u32>(
    hash: &F,
    trials: Seq<Trial>,
    i: int,
    j: int,
)
    requires
        is_identity_hash(hash),
        forall|k: int| 0 <= k < trials.len() ==> observes(hash, #[trigger] trials[k]),
        0 <= i < 32,
        0 <= j < 32,
    ensures
        count_flips(trials, i, j) == if i == j { trials.len() } else { 0 },
    decreases trials.len(),
{
    if trials.len() > 0 {
        let front = trials.drop_last();
        assert forall|k: int| 0 <= k < front.len() implies observes(hash, #[trigger] front[k]) by {
            assert(front[k] == trials[k]);
        }
        lemma_identity_batch(hash, front, i, j);
        assert(observes(hash, trials[trials.len() - 1]));
        lemma_identity_trial(hash, trials.last(), i, j);
    }
}

/// Measured on the identity hash, the avalanche table is diagonal: flipping
/// input bit `i` flips output bit `i` in every trial and no other bit in
/// any, and every batch is as far from even odds as a batch can be.
pub proof fn lemma_identity_avalanche_is_diagonal<F: Fn(u32, u32) -> u32>(
    hash: &F,
    stats: Stats,
    batches: Seq<Seq<Trial>>,
    i: int,
    j: int,
)
    requires
        is_identity_hash(hash),
        forall|b: int| 0 <= b < batches.len() ==> is_batch(hash, #[trigger] batches[b]),
        stats.measures(batches),
        0 <= i < 32,
        0 <= j < 32,
    ensures
        stats.avalanche_spec(i, j) == if i == j { stats.rounds_spec() } else { 0 },
        2 * stats.avalanche_avg_bias_spec(i, j) == stats.rounds_spec(),
{
    lemma_identity_totals(hash, batches, i, j);
}

proof fn lemma_identity_totals<F: Fn(u32, u32) -> u32>(
    hash: &F,
    batches: Seq<Seq<Trial>>,
    i: int,
    j: int,
)
    requires
        is_identity_hash(hash),
        forall|b: int| 0 <= b < batches.len() ==> is_batch(hash, #[trigger] batches[b]),
        0 <= i < 32,
        0 <= j < 32,
    ensures
        total_flips(batches, i, j) == if i == j { SUB_ROUNDS * batches.len() } else { 0 },
        total_bias(batches, i, j) == 128 * batches.len(),
    decreases batches.len(),
{
    if batches.len() > 0 {
        let front = batches.drop_last();
        assert forall|b: int| 0 <= b < front.len() implies is_batch(hash, #[trigger] front[b]) by {
            assert(front[b] == batches[b]);
        }
        lemma_identity_totals(hash, front, i, j);
        assert(is_batch(hash, batches[batches.len() - 1]));
        lemma_identity_batch(hash, batches.last(), i, j);
    }
}

} // verus!
