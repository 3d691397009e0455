//! The scrambling-hash family: single operations, programs made of them, and
//! the proof that every program only carries information from lower bits to
//! higher ones.

use vstd::prelude::*;
use vstd::arithmetic::power2::pow2;
use crate::bits::{agree_low, lemma_agree_low_is_mod};
use crate::rng::random_u32;

verus! {

/// A single operation of a scrambling hash.
///
/// A constant of zero stands for "use the seed handed to `exec`": for every
/// operation a literal zero would either do nothing or be useless anyway.
#[derive(Debug, Copy, Clone, PartialEq, Eq, Structural)]
pub enum HashOp {
    /// `x`
    Nop,
    /// `x ^ c`
    Xor(u32),
    /// `x + c`
    Add(u32),
    /// `x * c`, `c` odd
    Mul(u32),
    /// `x ^ (x << c)`, `c` in `1..=31`
    ShlXor(u32),
    /// `x + (x << c)`, `c` in `1..=31`
    ShlAdd(u32),
    /// `x ^ (x * c)`, `c` even
    MulXor(u32),
}

/// Cutting a word to the rule of an operation gives a constant that keeps
/// the rule: odd for a multiplier, even for a multiply-xor, below 32 for a
/// shift.
proof fn lemma_cut_constants(raw: u32)
    by (bit_vector)
    ensures
        (raw | 1) & 1 == 1,
        (raw & !1u32) & 1 == 0,
        0u32 & 1 == 0,
        raw & 31 < 32,
{
}

impl HashOp {
    /// The constant slot of the operation; `Nop` has none and reports zero.
    pub open spec fn constant(self) -> u32 {
        match self {
            HashOp::Nop => 0,
            HashOp::Xor(c) => c,
            HashOp::Add(c) => c,
            HashOp::Mul(c) => c,
            HashOp::ShlXor(c) => c,
            HashOp::ShlAdd(c) => c,
            HashOp::MulXor(c) => c,
        }
    }

    /// The constant obeys the rule of its operation: multipliers are odd,
    /// multiply-xor constants even, shift distances at most 31. Zero, the
    /// seed marker, is always allowed.
    pub open spec fn well_formed(self) -> bool {
        match self {
            HashOp::Nop => true,
            HashOp::Xor(_) => true,
            HashOp::Add(_) => true,
            HashOp::Mul(c) => c == 0 || c & 1 == 1,
            HashOp::ShlXor(c) => c <= 31,
            HashOp::ShlAdd(c) => c <= 31,
            HashOp::MulXor(c) => c & 1 == 0,
        }
    }

    /// The operand that the operation really works with: the constant, or,
    /// where the constant is zero, the seed cut to fit the operation.
    pub open spec fn operand(self, seed: u32) -> u32 {
        match self {
            HashOp::Nop => 0,
            HashOp::Xor(c) => if c == 0 { seed } else { c },
            HashOp::Add(c) => if c == 0 { seed } else { c },
            HashOp::Mul(c) => if c == 0 { seed | 1 } else { c },
            HashOp::ShlXor(c) => if c == 0 { seed & 31 } else { c },
            HashOp::ShlAdd(c) => if c == 0 { seed & 31 } else { c },
            HashOp::MulXor(c) => if c == 0 { seed & !1u32 } else { c },
        }
    }

    /// What the operation makes of `x` under `seed`, in 32-bit wrapping
    /// arithmetic.
    pub open spec fn exec_spec(self, x: u32, seed: u32) -> u32 {
        let c = self.operand(seed);
        match self {
            HashOp::Nop => x,
            HashOp::Xor(_) => x ^ c,
            HashOp::Add(_) => x.wrapping_add(c),
            HashOp::Mul(_) => x.wrapping_mul(c),
            HashOp::ShlXor(_) => x ^ (x << c),
            HashOp::ShlAdd(_) => x.wrapping_add(x << c),
            HashOp::MulXor(_) => x ^ x.wrapping_mul(c),
        }
    }

    /// The operation multiplies by the seed: `Mul(0)` or `MulXor(0)`.
    pub open spec fn uses_mul_and_seed_spec(self) -> bool {
        self == HashOp::Mul(0) || self == HashOp::MulXor(0)
    }

    /// Applies the operation to `x`.
    pub fn exec(&self, x: u32, seed: u32) -> (r: u32)
        requires
            self.well_formed(),
        ensures
            r == self.exec_spec(x, seed),
    {
        match *self {
            HashOp::Nop => x,
            HashOp::Xor(c) => {
                if c == 0 {
                    x ^ seed
                } else {
                    x ^ c
                }
            },
            HashOp::Add(c) => {
                if c == 0 {
                    x.wrapping_add(seed)
                } else {
                    x.wrapping_add(c)
                }
            },
            HashOp::Mul(c) => {
                if c == 0 {
                    x.wrapping_mul(seed | 1)
                } else {
                    x.wrapping_mul(c)
                }
            },
            HashOp::ShlXor(c) => {
                if c == 0 {
                    let s: u32 = seed & 31;
                    proof {
                        lemma_cut_constants(seed);
                    }
                    x ^ (x << s)
                } else {
                    x ^ (x << c)
                }
            },
            HashOp::ShlAdd(c) => {
                if c == 0 {
                    let s: u32 = seed & 31;
                    proof {
                        lemma_cut_constants(seed);
                    }
                    x.wrapping_add(x << s)
                } else {
                    x.wrapping_add(x << c)
                }
            },
            HashOp::MulXor(c) => {
                if c == 0 {
                    x ^ x.wrapping_mul(seed & !1u32)
                } else {
                    x ^ x.wrapping_mul(c)
                }
            },
        }
    }

    /// Whether the operation multiplies by the seed.
    pub fn uses_mul_and_seed(&self) -> (r: bool)
        ensures
            r == self.uses_mul_and_seed_spec(),
    {
        match *self {
            HashOp::Nop => false,
            HashOp::Xor(_) => false,
            HashOp::Add(_) => false,
            HashOp::Mul(c) => c == 0,
            HashOp::ShlXor(_) => false,
            HashOp::ShlAdd(_) => false,
            HashOp::MulXor(c) => c == 0,
        }
    }
}

/// The kind of an operation that does something, without its constant.
#[derive(Debug, Copy, Clone, PartialEq, Eq, Structural)]
pub enum OpKind {
    Xor,
    Add,
    Mul,
    ShlXor,
    ShlAdd,
    MulXor,
}

/// The structure of an operation: its kind, and whether its constant slot
/// holds the seed marker. The constant itself is not part of it.
#[derive(Debug, Copy, Clone, PartialEq, Eq, Structural)]
pub struct OpShape {
    pub kind: OpKind,
    pub uses_seed: bool,
}

impl HashOp {
    /// The structure of the operation; `Nop` has none.
    pub open spec fn shape_spec(self) -> Option<OpShape> {
        match self {
            HashOp::Nop => None,
            HashOp::Xor(c) => Some(OpShape { kind: OpKind::Xor, uses_seed: c == 0 }),
            HashOp::Add(c) => Some(OpShape { kind: OpKind::Add, uses_seed: c == 0 }),
            HashOp::Mul(c) => Some(OpShape { kind: OpKind::Mul, uses_seed: c == 0 }),
            HashOp::ShlXor(c) => Some(OpShape { kind: OpKind::ShlXor, uses_seed: c == 0 }),
            HashOp::ShlAdd(c) => Some(OpShape { kind: OpKind::ShlAdd, uses_seed: c == 0 }),
            HashOp::MulXor(c) => Some(OpShape { kind: OpKind::MulXor, uses_seed: c == 0 }),
        }
    }

    /// The structure of the operation; `Nop` has none.
    pub fn shape(&self) -> (r: Option<OpShape>)
        ensures
            r == self.shape_spec(),
    {
        match *self {
            HashOp::Nop => None,
            HashOp::Xor(c) => Some(OpShape { kind: OpKind::Xor, uses_seed: c == 0 }),
            HashOp::Add(c) => Some(OpShape { kind: OpKind::Add, uses_seed: c == 0 }),
            HashOp::Mul(c) => Some(OpShape { kind: OpKind::Mul, uses_seed: c == 0 }),
            HashOp::ShlXor(c) => Some(OpShape { kind: OpKind::ShlXor, uses_seed: c == 0 }),
            HashOp::ShlAdd(c) => Some(OpShape { kind: OpKind::ShlAdd, uses_seed: c == 0 }),
            HashOp::MulXor(c) => Some(OpShape { kind: OpKind::MulXor, uses_seed: c == 0 }),
        }
    }

    /// The operation that three random words stand for. `pick` decides, one
    /// time in four, that the constant is the seed marker; otherwise `raw` is
    /// the constant, cut to the rule of the operation; `kind` chooses among
    /// `Add`, `Mul` and `MulXor`.
    pub open spec fn from_draws_spec(pick: u32, raw: u32, kind: u32) -> HashOp {
        let marker = pick & 3 == 0;
        if kind % 3 == 0 {
            HashOp::Add(if marker { 0 } else { raw })
        } else if kind % 3 == 1 {
            HashOp::Mul(if marker { 0 } else { raw | 1 })
        } else {
            HashOp::MulXor(if marker { 0 } else { raw & !1u32 })
        }
    }

    /// Builds the operation that three random words stand for.
    pub fn from_draws(pick: u32, raw: u32, kind: u32) -> (op: HashOp)
        ensures
            op == Self::from_draws_spec(pick, raw, kind),
            op.well_formed(),
    {
        let marker = pick & 3 == 0;
        proof {
            lemma_cut_constants(raw);
        }
        if kind % 3 == 0 {
            HashOp::Add(if marker { 0 } else { raw })
        } else if kind % 3 == 1 {
            HashOp::Mul(if marker { 0 } else { raw | 1 })
        } else {
            HashOp::MulXor(if marker { 0 } else { raw & !1u32 })
        }
    }

    /// Draws a random operation: an `Add`, a `Mul` or a `MulXor`, with the
    /// seed marker as its constant one time in four and a random constant
    /// otherwise.
    pub fn gen_random() -> (op: HashOp)
        ensures
            exists|pick: u32, raw: u32, kind: u32| op == Self::from_draws_spec(pick, raw, kind),
            op.well_formed(),
            op is Add || op is Mul || op is MulXor,
    {
        let pick = random_u32();
        let raw = if pick & 3 == 0 { 0 } else { random_u32() };
        let kind = random_u32();
        Self::from_draws(pick, raw, kind)
    }

    /// The operation with its constant replaced by one made from `raw`. The
    /// seed marker is kept as it is; any other constant gives way to `raw`,
    /// cut to the rule of the operation.
    pub open spec fn with_constant_spec(self, raw: u32) -> HashOp {
        if self.constant() == 0 {
            self
        } else {
            match self {
                HashOp::Nop => self,
                HashOp::Xor(_) => HashOp::Xor(raw),
                HashOp::Add(_) => HashOp::Add(raw),
                HashOp::Mul(_) => HashOp::Mul(raw | 1),
                HashOp::ShlXor(_) => HashOp::ShlXor(((raw % 31) + 1) as u32),
                HashOp::ShlAdd(_) => HashOp::ShlAdd(((raw % 31) + 1) as u32),
                HashOp::MulXor(_) => HashOp::MulXor(raw & !1u32),
            }
        }
    }

    /// Replaces the constant by one made from `raw`, unless it is the seed
    /// marker.
    pub fn with_constant(&self, raw: u32) -> (op: HashOp)
        ensures
            op == self.with_constant_spec(raw),
            op.well_formed(),
    {
        proof {
            lemma_cut_constants(raw);
        }
        match *self {
            HashOp::Nop => *self,
            HashOp::Xor(c) => if c == 0 { *self } else { HashOp::Xor(raw) },
            HashOp::Add(c) => if c == 0 { *self } else { HashOp::Add(raw) },
            HashOp::Mul(c) => if c == 0 { *self } else { HashOp::Mul(raw | 1) },
            HashOp::ShlXor(c) => if c == 0 { *self } else { HashOp::ShlXor((raw % 31) + 1) },
            HashOp::ShlAdd(c) => if c == 0 { *self } else { HashOp::ShlAdd((raw % 31) + 1) },
            HashOp::MulXor(c) => if c == 0 { *self } else { HashOp::MulXor(raw & !1u32) },
        }
    }

    /// Draws a new constant for the operation and keeps everything else: the
    /// kind stays, and the seed marker stays the seed marker.
    pub fn new_constant(&self) -> (op: HashOp)
        ensures
            exists|raw: u32| op == self.with_constant_spec(raw),
            self.constant() == 0 ==> op == *self,
            op.well_formed(),
    {
        if self.is_seed_marked() {
            proof {
                assert(*self == self.with_constant_spec(0));
                lemma_cut_constants(0);
            }
            *self
        } else {
            self.with_constant(random_u32())
        }
    }

    /// Whether the constant slot holds the seed marker.
    pub fn is_seed_marked(&self) -> (r: bool)
        ensures
            r == (self.constant() == 0),
    {
        match *self {
            HashOp::Nop => true,
            HashOp::Xor(c) => c == 0,
            HashOp::Add(c) => c == 0,
            HashOp::Mul(c) => c == 0,
            HashOp::ShlXor(c) => c == 0,
            HashOp::ShlAdd(c) => c == 0,
            HashOp::MulXor(c) => c == 0,
        }
    }
}

/// Every operation of the program is well formed.
pub open spec fn program_well_formed(ops: Seq<HashOp>) -> bool {
    forall|i: int| 0 <= i < ops.len() ==> (#[trigger] ops[i]).well_formed()
}

/// The program run from left to right on `x`.
pub open spec fn exec_program(ops: Seq<HashOp>, x: u32, seed: u32) -> u32
    decreases ops.len(),
{
    if ops.len() == 0 {
        x
    } else {
        ops.last().exec_spec(exec_program(ops.drop_last(), x, seed), seed)
    }
}

/// Runs the operations of `hash_ops` in order, each on the result of the one
/// before it.
pub fn exec_hash_slice(hash_ops: &[HashOp], x: u32, seed: u32) -> (r: u32)
    requires
        program_well_formed(hash_ops@),
    ensures
        r == exec_program(hash_ops@, x, seed),
{
    let mut acc: u32 = x;
    let mut i: usize = 0;
    while i < hash_ops.len()
        invariant
            i <= hash_ops.len(),
            program_well_formed(hash_ops@),
            acc == exec_program(hash_ops@.take(i as int), x, seed),
        decreases hash_ops.len() - i,
    {
        proof {
            assert(hash_ops@.take(i + 1).drop_last() =~= hash_ops@.take(i as int));
        }
        acc = hash_ops[i].exec(acc, seed);
        i += 1;
    }
    proof {
        assert(hash_ops@.take(i as int) =~= hash_ops@);
    }
    acc
}

/// Wrapping multiplication by a fixed factor keeps agreement on the low bits.
proof fn lemma_mul_agree_low(x: u32, y: u32, c: u32, k: u32)
    requires
        agree_low(x, y, k),
    ensures
        agree_low(x.wrapping_mul(c), y.wrapping_mul(c), k),
{
    if k >= 32 {
        assert(x == y) by (bit_vector)
            requires
                x & 0xffff_ffffu32 == y & 0xffff_ffffu32,
        ;
    } else {
        let p = pow2(k as nat) as int;
        let q = pow2((32 - k) as nat) as int;
        let xc = x.wrapping_mul(c);
        let yc = y.wrapping_mul(c);
        lemma_agree_low_is_mod(x, y, k);
        vstd::arithmetic::power2::lemma_pow2_pos(k as nat);
        vstd::arithmetic::power2::lemma_pow2_pos((32 - k) as nat);
        vstd::arithmetic::power2::lemma_pow2_adds(k as nat, (32 - k) as nat);
        vstd::arithmetic::power2::lemma2_to64();
        assert(p * q == 0x1_0000_0000);
        vstd::arithmetic::div_mod::lemma_mod_mod(x * c, p, q);
        vstd::arithmetic::div_mod::lemma_mod_mod(y * c, p, q);
        vstd::arithmetic::div_mod::lemma_mul_mod_noop_left(x as int, c as int, p);
        vstd::arithmetic::div_mod::lemma_mul_mod_noop_left(y as int, c as int, p);
        assert(xc as int == (x * c) % 0x1_0000_0000);
        assert(yc as int == (y * c) % 0x1_0000_0000);
        assert((xc as int) % p == (yc as int) % p);
        lemma_agree_low_is_mod(xc, yc, k);
    }
}

/// An operation maps inputs that agree on their low `k` bits to outputs that
/// agree on their low `k` bits: no bit of the output depends on a higher bit
/// of the input.
pub proof fn lemma_op_propagates_upward(op: HashOp, x: u32, y: u32, seed: u32, k: u32)
    requires
        op.well_formed(),
        agree_low(x, y, k),
    ensures
        agree_low(op.exec_spec(x, seed), op.exec_spec(y, seed), k),
{
    let c = op.operand(seed);
    match op {
        HashOp::Nop => {},
        HashOp::Xor(_) => {
            assert(agree_low(x ^ c, y ^ c, k)) by (bit_vector)
                requires
                    agree_low(x, y, k),
            ;
        },
        HashOp::Add(_) => {
            assert(agree_low(x.wrapping_add(c), y.wrapping_add(c), k)) by (bit_vector)
                requires
                    agree_low(x, y, k),
            ;
        },
        HashOp::Mul(_) => {
            lemma_mul_agree_low(x, y, c, k);
        },
        HashOp::ShlXor(_) => {
            lemma_cut_constants(seed);
            assert(agree_low(x ^ (x << c), y ^ (y << c), k)) by (bit_vector)
                requires
                    agree_low(x, y, k),
                    c < 32,
            ;
        },
        HashOp::ShlAdd(_) => {
            lemma_cut_constants(seed);
            assert(agree_low(x.wrapping_add(x << c), y.wrapping_add(y << c), k)) by (bit_vector)
                requires
                    agree_low(x, y, k),
                    c < 32,
            ;
        },
        HashOp::MulXor(_) => {
            lemma_mul_agree_low(x, y, c, k);
            let xc = x.wrapping_mul(c);
            let yc = y.wrapping_mul(c);
            assert(agree_low(x ^ xc, y ^ yc, k)) by (bit_vector)
                requires
                    agree_low(x, y, k),
                    agree_low(xc, yc, k),
            ;
        },
    }
}

/// A whole program maps inputs that agree on their low `k` bits to outputs
/// that agree on their low `k` bits.
pub proof fn lemma_program_propagates_upward(ops: Seq<HashOp>, x: u32, y: u32, seed: u32, k: u32)
    requires
        program_well_formed(ops),
        agree_low(x, y, k),
    ensures
        agree_low(exec_program(ops, x, seed), exec_program(ops, y, seed), k),
    decreases ops.len(),
{
    if ops.len() > 0 {
        let front = ops.drop_last();
        assert forall|i: int| 0 <= i < front.len() implies (#[trigger] front[i]).well_formed() by {
            assert(front[i] == ops[i]);
        }
        lemma_program_propagates_upward(front, x, y, seed, k);
        lemma_op_propagates_upward(
            ops.last(),
            exec_program(front, x, seed),
            exec_program(front, y, seed),
            seed,
            k,
        );
    }
}

/// The four-bit code of an operation: its kind in the low three bits, and
/// bit 3 set where the constant is not the seed marker. `Nop` has code zero.
pub open spec fn op_code(op: HashOp) -> u128 {
    let tuned: u128 = if op.constant() == 0 { 0 } else { 8 };
    match op {
        HashOp::Nop => 0,
        HashOp::Xor(_) => (1 + tuned) as u128,
        HashOp::Add(_) => (2 + tuned) as u128,
        HashOp::Mul(_) => (3 + tuned) as u128,
        HashOp::ShlXor(_) => (4 + tuned) as u128,
        HashOp::ShlAdd(_) => (5 + tuned) as u128,
        HashOp::MulXor(_) => (6 + tuned) as u128,
    }
}

/// The structure of a program packed into an integer, four bits for each
/// operation, the first operation lowest. `Nop`s take no room. What does not
/// fit into 128 bits is lost.
pub open spec fn encode_program(ops: Seq<HashOp>) -> u128
    decreases ops.len(),
{
    if ops.len() == 0 {
        0
    } else {
        let rest = encode_program(ops.drop_first());
        if ops[0] is Nop {
            rest
        } else {
            (rest << 4) | op_code(ops[0])
        }
    }
}

/// The structures of the operations of a program in order, `Nop`s left out.
pub open spec fn program_shape(ops: Seq<HashOp>) -> Seq<OpShape>
    decreases ops.len(),
{
    if ops.len() == 0 {
        Seq::empty()
    } else {
        let rest = program_shape(ops.drop_first());
        match ops[0].shape_spec() {
            None => rest,
            Some(shape) => seq![shape] + rest,
        }
    }
}

/// The structure that a four-bit code stands for, if it stands for one.
pub open spec fn decode_code(code: int) -> Option<OpShape> {
    let uses_seed = code < 8;
    let kind = code % 8;
    if kind == 1 {
        Some(OpShape { kind: OpKind::Xor, uses_seed })
    } else if kind == 2 {
        Some(OpShape { kind: OpKind::Add, uses_seed })
    } else if kind == 3 {
        Some(OpShape { kind: OpKind::Mul, uses_seed })
    } else if kind == 4 {
        Some(OpShape { kind: OpKind::ShlXor, uses_seed })
    } else if kind == 5 {
        Some(OpShape { kind: OpKind::ShlAdd, uses_seed })
    } else if kind == 6 {
        Some(OpShape { kind: OpKind::MulXor, uses_seed })
    } else {
        None
    }
}

/// The structures packed into `n`, read from the lowest four bits upward
/// until four zero bits end the program; `None` where a code stands for
/// no operation.
pub open spec fn decode_bits(n: u128) -> Option<Seq<OpShape>>
    decreases n,
{
    if n % 16 == 0 {
        Some(Seq::empty())
    } else {
        match (decode_code((n % 16) as int), decode_bits(n / 16)) {
            (Some(shape), Some(rest)) => Some(seq![shape] + rest),
            _ => None,
        }
    }
}

/// Encodes the structure (but not the constants) of a hash slice as an
/// integer.
pub fn hash_slice_to_bits(hash_ops: &[HashOp]) -> (n: u128)
    ensures
        n == encode_program(hash_ops@),
{
    let mut n: u128 = 0;
    let mut i: usize = hash_ops.len();
    proof {
        assert(hash_ops@.subrange(i as int, hash_ops@.len() as int) =~= Seq::<HashOp>::empty());
    }
    while i > 0
        invariant
            i <= hash_ops.len(),
            n == encode_program(hash_ops@.subrange(i as int, hash_ops@.len() as int)),
        decreases i,
    {
        i -= 1;
        proof {
            let tail = hash_ops@.subrange(i as int, hash_ops@.len() as int);
            assert(tail.drop_first() =~= hash_ops@.subrange(i + 1, hash_ops@.len() as int));
            assert(tail[0] == hash_ops@[i as int]);
        }
        let op_enc: u128 = match hash_ops[i] {
            HashOp::Nop => 0,
            HashOp::Xor(c) => if c == 0 { 1 } else { 9 },
            HashOp::Add(c) => if c == 0 { 2 } else { 10 },
            HashOp::Mul(c) => if c == 0 { 3 } else { 11 },
            HashOp::ShlXor(c) => if c == 0 { 4 } else { 12 },
            HashOp::ShlAdd(c) => if c == 0 { 5 } else { 13 },
            HashOp::MulXor(c) => if c == 0 { 6 } else { 14 },
        };
        if op_enc != 0 {
            n = (n << 4) | op_enc;
        }
    }
    proof {
        assert(hash_ops@.subrange(0, hash_ops@.len() as int) =~= hash_ops@);
    }
    n
}

/// Reads back the structure of a program from its encoding. `None` where
/// the integer holds a code that stands for no operation.
pub fn decode_hash_bits(n: u128) -> (r: Option<Vec<OpShape>>)
    ensures
        match r {
            Some(shapes) => decode_bits(n) == Some(shapes@),
            None => decode_bits(n) is None,
        },
{
    let mut rest: u128 = n;
    let mut shapes: Vec<OpShape> = Vec::new();
    while (rest & 0b1111) != 0
        invariant
            decode_bits(n) == match decode_bits(rest) {
                Some(tail) => Some(shapes@ + tail),
                None => None,
            },
        decreases rest,
    {
        let code: u128 = rest & 0b1111;
        let kind: u128 = rest & 0b111;
        let uses_seed: bool = (rest >> 3) & 1 == 0;
        proof {
            assert(code == rest % 16 && kind == (rest % 16) % 8 && uses_seed == (rest % 16 < 8)
                && rest >> 4 == rest / 16) by (bit_vector)
                requires
                    code == rest & 0b1111,
                    kind == rest & 0b111,
                    uses_seed == ((rest >> 3) & 1 == 0),
            ;
        }
        let shape = if kind == 1 {
            OpShape { kind: OpKind::Xor, uses_seed }
        } else if kind == 2 {
            OpShape { kind: OpKind::Add, uses_seed }
        } else if kind == 3 {
            OpShape { kind: OpKind::Mul, uses_seed }
        } else if kind == 4 {
            OpShape { kind: OpKind::ShlXor, uses_seed }
        } else if kind == 5 {
            OpShape { kind: OpKind::ShlAdd, uses_seed }
        } else if kind == 6 {
            OpShape { kind: OpKind::MulXor, uses_seed }
        } else {
            return None;
        };
        proof {
            let before = shapes@;
            match decode_bits((rest / 16) as u128) {
                Some(tail) => {
                    assert((before + seq![shape]) + tail =~= before + (seq![shape] + tail));
                },
                None => {},
            }
        }
        shapes.push(shape);
        rest = rest >> 4;
    }
    proof {
        assert(rest % 16 == 0) by (bit_vector)
            requires
                rest & 0b1111 == 0,
        ;
        assert(shapes@ + Seq::<OpShape>::empty() =~= shapes@);
    }
    Some(shapes)
}

/// How many values fit into `m` groups of four bits.
spec fn capacity(m: nat) -> int
    decreases m,
{
    if m == 0 {
        1
    } else {
        16 * capacity((m - 1) as nat)
    }
}

proof fn lemma_capacity_monotonic(a: nat, b: nat)
    requires
        a <= b,
    ensures
        0 < capacity(a) <= capacity(b),
    decreases b,
{
    if a < b {
        lemma_capacity_monotonic(a, (b - 1) as nat);
    } else if a > 0 {
        lemma_capacity_monotonic((a - 1) as nat, (a - 1) as nat);
    }
}

proof fn lemma_capacity_31()
    ensures
        capacity(31) == 0x1000_0000_0000_0000_0000_0000_0000_0000,
{
    reveal_with_fuel(capacity, 32);
}

proof fn lemma_round_trip(ops: Seq<HashOp>)
    requires
        program_shape(ops).len() <= 32,
    ensures
        decode_bits(encode_program(ops)) == Some(program_shape(ops)),
        encode_program(ops) < capacity(program_shape(ops).len()),
    decreases ops.len(),
{
    if ops.len() == 0 {
    } else {
        let rest = ops.drop_first();
        let first = ops[0];
        if first is Nop {
            lemma_round_trip(rest);
        } else {
            let m = program_shape(rest).len();
            let e = encode_program(rest);
            let code = op_code(first);
            let n = (e << 4) | code;
            assert(program_shape(ops) =~= seq![first.shape_spec().unwrap()] + program_shape(rest));
            lemma_round_trip(rest);
            lemma_capacity_monotonic(m, 31);
            lemma_capacity_31();
            assert(n % 16 == code && n / 16 == e && n == e * 16 + code) by (bit_vector)
                requires
                    n == (e << 4) | code,
                    e < 0x1000_0000_0000_0000_0000_0000_0000_0000u128,
                    code < 16,
            ;
            assert(decode_code(code as int) == first.shape_spec());
        }
    }
}

/// Decoding what was encoded gives back the structure of the program: the
/// kinds and seed markers of its operations in order, without the `Nop`s.
/// This holds of every program that has at most 32 operations besides its
/// `Nop`s, which is what 128 bits have room for.
pub proof fn lemma_encode_decode_round_trip(ops: Seq<HashOp>)
    requires
        program_shape(ops).len() <= 32,
    ensures
        decode_bits(encode_program(ops)) == Some(program_shape(ops)),
{
    lemma_round_trip(ops);
}

} // verus!
