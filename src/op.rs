//! Programs: operations over 32-bit words, their lane-wise evaluation, and
//! their construction out of decisions.
use vstd::prelude::*;
use vstd::wrapping::u32_specs::{wrapping_add, wrapping_mul, wrapping_sub};

use crate::batch::Batch;
use crate::decide::{
    lemma_first_part_unique, lemma_spelled_in_turn, lemma_spells_one, lemma_spells_unique, same_shape,
    spells, Decide, Spelling,
};
use crate::decider::{only_decided, TreeDecider};

verus! {

/// Operations on one word.
#[derive(Clone, Copy, Debug, PartialEq, Eq, Hash)]
pub enum UnaryOpcode {
    /// Count of leading zero bits.
    Clz,
    /// Two's-complement negation.
    Neg,
    ByteReverse,
    BitReverse,
    BitwiseNot,
    /// Sign extension of the low 16 bits.
    SignExtend16,
    /// Sign extension of the low 8 bits.
    SignExtend8,
}

/// Operations on two words.
#[derive(Clone, Copy, Debug, PartialEq, Eq, Hash)]
pub enum BinaryOpcode {
    Add,
    And,
    /// Arithmetic shift right by the low 8 bits of the count, at most 31.
    Asr,
    /// Shift left by the low 8 bits of the count; 0 from 32 on.
    Lsl,
    /// Logical shift right by the low 8 bits of the count; 0 from 32 on.
    Lsr,
    Mul,
    Or,
    Xor,
    Sub,
    /// Rotation right by the count modulo 32.
    RotateRight,
    /// Four independent wrapping byte additions.
    UnsignedAdd8,
    /// Two independent wrapping 16-bit additions.
    UnsignedAdd16,
}

/// The number of unary opcodes.
pub const UNARY_OPCODES: usize = 7;

/// The number of binary opcodes.
pub const BINARY_OPCODES: usize = 12;

/// The position of an op in a program; 0 and 1 are the two inputs.
#[derive(Clone, Copy, Debug, PartialEq, Eq, Hash)]
pub struct OpId(pub usize);

/// What an op computes.
#[derive(Clone, Copy, Debug, PartialEq, Eq, Hash)]
pub enum Operation {
    /// The same word in every lane.
    Constant(u32),
    Unary(UnaryOpcode, OpId),
    Binary(BinaryOpcode, OpId, OpId),
}

/// One instruction of a program.
#[derive(Clone, Copy, Debug, PartialEq, Eq, Hash)]
pub struct Op(pub Operation);

/// The word with its four bytes in reverse order.
pub open spec fn byte_reversed(x: u32) -> u32 {
    ((x & 0xff) << 24u32) | ((x & 0xff00) << 8u32) | ((x >> 8u32) & 0xff00) | (x >> 24u32)
}

/// The low `n` bits of `x` in reverse order: bit `j` of `x` becomes bit
/// `n - 1 - j`.
pub open spec fn reversed_low_bits(x: u32, n: nat) -> u32
    decreases n,
{
    if n == 0 {
        0
    } else {
        ((reversed_low_bits(x, (n - 1) as nat) << 1u32) | ((x >> ((n - 1) as u32)) & 1)) as u32
    }
}

/// `x` rotated right by `s` bits.
pub open spec fn rotated_right(x: u32, s: u32) -> u32 {
    let k = s % 32;
    if k == 0 {
        x
    } else {
        (x >> k) | (x << ((32 - k) as u32))
    }
}

/// The sum of the fields of `a` and `b` that `mask` selects at bit `k`,
/// wrapped to the field and put back in place.
pub open spec fn field_sum_at(a: u32, b: u32, k: u32, mask: u32) -> u32 {
    ((((a >> k) & mask) + ((b >> k) & mask)) as u32 & mask) << k
}

/// The shift count that `Asr`, `Lsl` and `Lsr` read from a word.
pub open spec fn shift_count(b: u32) -> u32 {
    b & 0xff
}

/// What a unary opcode makes of one word.
pub open spec fn unary_word(opcode: UnaryOpcode, x: u32) -> u32 {
    match opcode {
        UnaryOpcode::Clz => x.leading_zeros(),
        UnaryOpcode::Neg => wrapping_sub(0, x),
        UnaryOpcode::ByteReverse => byte_reversed(x),
        UnaryOpcode::BitReverse => reversed_low_bits(x, 32),
        UnaryOpcode::BitwiseNot => !x,
        UnaryOpcode::SignExtend16 => x as u16 as i16 as i32 as u32,
        UnaryOpcode::SignExtend8 => x as u8 as i8 as i32 as u32,
    }
}

/// What a binary opcode makes of two words.
pub open spec fn binary_word(opcode: BinaryOpcode, a: u32, b: u32) -> u32 {
    match opcode {
        BinaryOpcode::Add => wrapping_add(a, b),
        BinaryOpcode::And => a & b,
        BinaryOpcode::Asr => {
            let s = if shift_count(b) > 31 {
                31
            } else {
                shift_count(b)
            };
            ((a as i32) >> s) as u32
        },
        BinaryOpcode::Lsl => if shift_count(b) >= 32 {
            0
        } else {
            a << shift_count(b)
        },
        BinaryOpcode::Lsr => if shift_count(b) >= 32 {
            0
        } else {
            a >> shift_count(b)
        },
        BinaryOpcode::Mul => wrapping_mul(a, b),
        BinaryOpcode::Or => a | b,
        BinaryOpcode::Xor => a ^ b,
        BinaryOpcode::Sub => wrapping_sub(a, b),
        BinaryOpcode::RotateRight => rotated_right(a, b),
        BinaryOpcode::UnsignedAdd8 => field_sum_at(a, b, 0, 0xff) | field_sum_at(a, b, 8, 0xff)
            | field_sum_at(a, b, 16, 0xff) | field_sum_at(a, b, 24, 0xff),
        BinaryOpcode::UnsignedAdd16 => field_sum_at(a, b, 0, 0xffff) | field_sum_at(a, b, 16, 0xffff),
    }
}

impl Op {
    /// Every operand is below `n`.
    pub open spec fn operands_below(self, n: int) -> bool {
        match self.0 {
            Operation::Constant(_) => true,
            Operation::Unary(_, a) => a.0 < n,
            Operation::Binary(_, a, b) => a.0 < n && b.0 < n,
        }
    }

    /// Whether the op reads the batch at position `k`.
    pub open spec fn reads(self, k: int) -> bool {
        match self.0 {
            Operation::Constant(_) => false,
            Operation::Unary(_, a) => k == a.0,
            Operation::Binary(_, a, b) => k == a.0 || k == b.0,
        }
    }

    /// Lane `i` of the op's result over the operand batches `srcs`.
    pub open spec fn lane(self, srcs: Seq<Seq<u32>>, i: int) -> u32 {
        match self.0 {
            Operation::Constant(c) => c,
            Operation::Unary(opcode, a) => unary_word(opcode, srcs[a.0 as int][i]),
            Operation::Binary(opcode, a, b) => binary_word(
                opcode,
                srcs[a.0 as int][i],
                srcs[b.0 as int][i],
            ),
        }
    }

    /// The op's result, `n` lanes wide, over the operand batches `srcs`.
    pub open spec fn output(self, srcs: Seq<Seq<u32>>, n: nat) -> Seq<u32> {
        Seq::new(n, |i: int| self.lane(srcs, i))
    }
}

fn reverse_bits(x: u32) -> (r: u32)
    ensures
        r == reversed_low_bits(x, 32),
{
    let mut r: u32 = 0;
    let mut i: u32 = 0;
    while i < 32
        invariant
            i <= 32,
            r == reversed_low_bits(x, i as nat),
        decreases 32 - i,
    {
        r = (r << 1u32) | ((x >> i) & 1);
        i = i + 1;
    }
    r
}

fn sum_field_at(a: u32, b: u32, k: u32, mask: u32) -> (r: u32)
    requires
        k < 32,
        mask == 0xff || mask == 0xffff,
    ensures
        r == field_sum_at(a, b, k, mask),
{
    let x = (a >> k) & mask;
    let y = (b >> k) & mask;
    assert(x <= mask && y <= mask) by (bit_vector)
        requires
            x == (a >> k) & mask,
            y == (b >> k) & mask,
    ;
    ((x + y) & mask) << k
}

/// Applies a unary opcode to one word.
pub fn apply_unary(opcode: UnaryOpcode, x: u32) -> (r: u32)
    ensures
        r == unary_word(opcode, x),
{
    match opcode {
        UnaryOpcode::Clz => x.leading_zeros(),
        UnaryOpcode::Neg => 0u32.wrapping_sub(x),
        UnaryOpcode::ByteReverse => ((x & 0xff) << 24u32) | ((x & 0xff00) << 8u32) | ((x >> 8u32)
            & 0xff00) | (x >> 24u32),
        UnaryOpcode::BitReverse => reverse_bits(x),
        UnaryOpcode::BitwiseNot => !x,
        UnaryOpcode::SignExtend16 => x as u16 as i16 as i32 as u32,
        UnaryOpcode::SignExtend8 => x as u8 as i8 as i32 as u32,
    }
}

/// Applies a binary opcode to two words.
pub fn apply_binary(opcode: BinaryOpcode, a: u32, b: u32) -> (r: u32)
    ensures
        r == binary_word(opcode, a, b),
{
    match opcode {
        BinaryOpcode::Add => a.wrapping_add(b),
        BinaryOpcode::And => a & b,
        BinaryOpcode::Asr => {
            let count = b & 0xff;
            let s = if count > 31 {
                31
            } else {
                count
            };
            ((a as i32) >> s) as u32
        },
        BinaryOpcode::Lsl => {
            let s = b & 0xff;
            if s >= 32 {
                0
            } else {
                a << s
            }
        },
        BinaryOpcode::Lsr => {
            let s = b & 0xff;
            if s >= 32 {
                0
            } else {
                a >> s
            }
        },
        BinaryOpcode::Mul => a.wrapping_mul(b),
        BinaryOpcode::Or => a | b,
        BinaryOpcode::Xor => a ^ b,
        BinaryOpcode::Sub => a.wrapping_sub(b),
        BinaryOpcode::RotateRight => {
            let k = b % 32;
            if k == 0 {
                a
            } else {
                (a >> k) | (a << (32 - k))
            }
        },
        BinaryOpcode::UnsignedAdd8 => sum_field_at(a, b, 0, 0xff) | sum_field_at(a, b, 8, 0xff)
            | sum_field_at(a, b, 16, 0xff) | sum_field_at(a, b, 24, 0xff),
        BinaryOpcode::UnsignedAdd16 => sum_field_at(a, b, 0, 0xffff) | sum_field_at(a, b, 16, 0xffff),
    }
}

impl Op {
    /// Writes into `dst` the op applied lane by lane to the batches of
    /// `srcs` that its operands name.
    pub fn evaluate<const N: usize>(&self, dst: &mut Batch<u32, N>, srcs: &[Batch<u32, N>])
        requires
            self.operands_below(srcs@.len() as int),
        ensures
            final(dst)@ == self.output(views(srcs@), N as nat),
    {
        let ghost inputs = views(srcs@);
        let mut i: usize = 0;
        match self.0 {
            Operation::Constant(value) => {
                while i < N
                    invariant
                        i <= N,
                        self.0 == Operation::Constant(value),
                        forall|j: int| 0 <= j < i ==> dst@[j] == self.lane(inputs, j),
                    decreases N - i,
                {
                    dst.0[i] = value;
                    i = i + 1;
                }
            },
            Operation::Unary(opcode, OpId(a)) => {
                let src = &srcs[a];
                assert(src@ == inputs[a as int]);
                while i < N
                    invariant
                        i <= N,
                        self.0 == Operation::Unary(opcode, OpId(a)),
                        a < inputs.len(),
                        src@ == inputs[a as int],
                        forall|j: int| 0 <= j < i ==> dst@[j] == self.lane(inputs, j),
                    decreases N - i,
                {
                    dst.0[i] = apply_unary(opcode, src.0[i]);
                    i = i + 1;
                }
            },
            Operation::Binary(opcode, OpId(a), OpId(b)) => {
                let lhs = &srcs[a];
                let rhs = &srcs[b];
                assert(lhs@ == inputs[a as int]);
                assert(rhs@ == inputs[b as int]);
                while i < N
                    invariant
                        i <= N,
                        self.0 == Operation::Binary(opcode, OpId(a), OpId(b)),
                        a < inputs.len(),
                        b < inputs.len(),
                        lhs@ == inputs[a as int],
                        rhs@ == inputs[b as int],
                        forall|j: int| 0 <= j < i ==> dst@[j] == self.lane(inputs, j),
                    decreases N - i,
                {
                    dst.0[i] = apply_binary(opcode, lhs.0[i], rhs.0[i]);
                    i = i + 1;
                }
            },
        }
        assert(dst@ =~= self.output(inputs, N as nat));
    }
}

impl UnaryOpcode {
    /// The position of the opcode in the list of unary opcodes.
    pub open spec fn index(self) -> int {
        match self {
            UnaryOpcode::Clz => 0,
            UnaryOpcode::Neg => 1,
            UnaryOpcode::ByteReverse => 2,
            UnaryOpcode::BitReverse => 3,
            UnaryOpcode::BitwiseNot => 4,
            UnaryOpcode::SignExtend16 => 5,
            UnaryOpcode::SignExtend8 => 6,
        }
    }

    /// The opcode at position `i` of the list.
    pub fn from_index(i: usize) -> (r: Self)
        requires
            i < UNARY_OPCODES,
        ensures
            r.index() == i,
    {
        match i {
            0 => UnaryOpcode::Clz,
            1 => UnaryOpcode::Neg,
            2 => UnaryOpcode::ByteReverse,
            3 => UnaryOpcode::BitReverse,
            4 => UnaryOpcode::BitwiseNot,
            5 => UnaryOpcode::SignExtend16,
            _ => UnaryOpcode::SignExtend8,
        }
    }
}

impl BinaryOpcode {
    /// The position of the opcode in the list of binary opcodes.
    pub open spec fn index(self) -> int {
        match self {
            BinaryOpcode::Add => 0,
            BinaryOpcode::And => 1,
            BinaryOpcode::Asr => 2,
            BinaryOpcode::Lsl => 3,
            BinaryOpcode::Lsr => 4,
            BinaryOpcode::Mul => 5,
            BinaryOpcode::Or => 6,
            BinaryOpcode::Xor => 7,
            BinaryOpcode::Sub => 8,
            BinaryOpcode::RotateRight => 9,
            BinaryOpcode::UnsignedAdd8 => 10,
            BinaryOpcode::UnsignedAdd16 => 11,
        }
    }

    /// The opcode at position `i` of the list.
    pub fn from_index(i: usize) -> (r: Self)
        requires
            i < BINARY_OPCODES,
        ensures
            r.index() == i,
    {
        match i {
            0 => BinaryOpcode::Add,
            1 => BinaryOpcode::And,
            2 => BinaryOpcode::Asr,
            3 => BinaryOpcode::Lsl,
            4 => BinaryOpcode::Lsr,
            5 => BinaryOpcode::Mul,
            6 => BinaryOpcode::Or,
            7 => BinaryOpcode::Xor,
            8 => BinaryOpcode::Sub,
            9 => BinaryOpcode::RotateRight,
            10 => BinaryOpcode::UnsignedAdd8,
            _ => BinaryOpcode::UnsignedAdd16,
        }
    }
}

/// The parts that the decisions for `op` make up, with `n` ops before it:
/// the variant out of `0..=2` (constant, unary, binary); then the
/// constant's 32 bits, or the opcode's position and each operand out of
/// `0..=n - 1`.
pub open spec fn op_spelling(op: Op, n: int) -> Seq<Spelling> {
    match op.0 {
        Operation::Constant(c) => seq![
            Spelling::Range { lo: 0, hi: 2, value: 0 },
            Spelling::Bits { width: 32, value: c as nat },
        ],
        Operation::Unary(opcode, a) => seq![
            Spelling::Range { lo: 0, hi: 2, value: 1 },
            Spelling::Range { lo: 0, hi: UNARY_OPCODES - 1, value: opcode.index() },
            Spelling::Range { lo: 0, hi: n - 1, value: a.0 as int },
        ],
        Operation::Binary(opcode, a, b) => seq![
            Spelling::Range { lo: 0, hi: 2, value: 2 },
            Spelling::Range { lo: 0, hi: BINARY_OPCODES - 1, value: opcode.index() },
            Spelling::Range { lo: 0, hi: n - 1, value: a.0 as int },
            Spelling::Range { lo: 0, hi: n - 1, value: b.0 as int },
        ],
    }
}

/// The same decisions, with the same number of ops before, spell one op
/// only: the op that a run of decisions builds is fixed by the run.
pub proof fn lemma_op_spelling_unique(bits: Seq<bool>, n: int, first: Op, second: Op)
    requires
        spells(bits, op_spelling(first, n)),
        spells(bits, op_spelling(second, n)),
    ensures
        first == second,
{
    let (s1, s2) = (op_spelling(first, n), op_spelling(second, n));
    let k = lemma_first_part_unique(bits, s1, s2);
    assert(s1.len() == s2.len());
    assert forall|i: int| 0 <= i < s1.len() implies #[trigger] same_shape(s1[i], s2[i]) by {}
    lemma_spells_unique(bits, s1, s2);
    match first.0 {
        Operation::Constant(c) => {
            assert(s1[1] == s2[1]);
        },
        Operation::Unary(opcode, a) => {
            assert(s1[1] == s2[1] && s1[2] == s2[2]);
            let other = second.0->Unary_0;
            assert(opcode == other) by {
                assert(opcode.index() == other.index());
            }
        },
        Operation::Binary(opcode, a, b) => {
            assert(s1[1] == s2[1] && s1[2] == s2[2] && s1[3] == s2[3]);
            let other = second.0->Binary_0;
            assert(opcode == other) by {
                assert(opcode.index() == other.index());
            }
        },
    }
}

/// Takes the decisions that narrow `lo..=hi` to one value, stating them as
/// one part.
fn decide_part(decider: &mut TreeDecider, lo: usize, hi: usize) -> (r: usize)
    requires
        old(decider).wf(),
        lo <= hi,
    ensures
        only_decided(*old(decider), *final(decider)),
        lo <= r <= hi,
        spells(
            final(decider).path().skip(old(decider).path().len() as int),
            seq![Spelling::Range { lo: lo as int, hi: hi as int, value: r as int }],
        ),
{
    let r = decider.decide_range(lo, hi);
    proof {
        lemma_spells_one(
            final(decider).path().skip(old(decider).path().len() as int),
            Spelling::Range { lo: lo as int, hi: hi as int, value: r as int },
        );
    }
    r
}

impl Op {
    /// Builds one op out of decisions, with `num_existing_ops` ops (the two
    /// inputs included) before it for its operands to name.
    pub fn decide_additional(decider: &mut TreeDecider, num_existing_ops: usize) -> (r: Self)
        requires
            old(decider).wf(),
            num_existing_ops >= 2,
        ensures
            only_decided(*old(decider), *final(decider)),
            r.operands_below(num_existing_ops as int),
            spells(
                final(decider).path().skip(old(decider).path().len() as int),
                op_spelling(r, num_existing_ops as int),
            ),
    {
        let ghost d0 = *decider;
        let last = num_existing_ops - 1;
        let variant = decide_part(decider, 0, 2);
        let ghost d1 = *decider;
        let ghost head = seq![Spelling::Range { lo: 0, hi: 2, value: variant as int }];
        if variant == 0 {
            let c = u32::decide(decider);
            let ghost second = seq![Spelling::Bits { width: 32, value: c as nat }];
            proof {
                lemma_spells_one(decider.path().skip(d1.path().len() as int), second[0]);
                lemma_spelled_in_turn(d0, d1, *decider, head, second);
                assert(op_spelling(Op(Operation::Constant(c)), num_existing_ops as int) =~= head + second);
            }
            Op(Operation::Constant(c))
        } else if variant == 1 {
            let opcode = decide_part(decider, 0, UNARY_OPCODES - 1);
            let ghost d2 = *decider;
            let operand = decide_part(decider, 0, last);
            let r = Op(Operation::Unary(UnaryOpcode::from_index(opcode), OpId(operand)));
            proof {
                let second = seq![Spelling::Range { lo: 0, hi: UNARY_OPCODES - 1, value: opcode as int }];
                let third = seq![Spelling::Range { lo: 0, hi: last as int, value: operand as int }];
                lemma_spelled_in_turn(d0, d1, d2, head, second);
                lemma_spelled_in_turn(d0, d2, *decider, head + second, third);
                assert(op_spelling(r, num_existing_ops as int) =~= head + second + third);
            }
            r
        } else {
            let opcode = decide_part(decider, 0, BINARY_OPCODES - 1);
            let ghost d2 = *decider;
            let lhs = decide_part(decider, 0, last);
            let ghost d3 = *decider;
            let rhs = decide_part(decider, 0, last);
            let r = Op(Operation::Binary(BinaryOpcode::from_index(opcode), OpId(lhs), OpId(rhs)));
            proof {
                let second = seq![Spelling::Range { lo: 0, hi: BINARY_OPCODES - 1, value: opcode as int }];
                let third = seq![Spelling::Range { lo: 0, hi: last as int, value: lhs as int }];
                let fourth = seq![Spelling::Range { lo: 0, hi: last as int, value: rhs as int }];
                lemma_spelled_in_turn(d0, d1, d2, head, second);
                lemma_spelled_in_turn(d0, d2, d3, head + second, third);
                lemma_spelled_in_turn(d0, d3, *decider, head + second + third, fourth);
                assert(op_spelling(r, num_existing_ops as int) =~= head + second + third + fourth);
            }
            r
        }
    }
}

/// An op's output is fixed by the op and the batches it reads: two lists
/// of batches that agree on those give the same output.
pub proof fn lemma_output_determined(op: Op, srcs: Seq<Seq<u32>>, other: Seq<Seq<u32>>, n: nat)
    requires
        forall|k: int| op.reads(k) ==> srcs[k] == other[k],
    ensures
        op.output(srcs, n) == op.output(other, n),
{
    match op.0 {
        Operation::Constant(_) => {},
        Operation::Unary(_, a) => {
            assert(op.reads(a.0 as int));
        },
        Operation::Binary(_, a, b) => {
            assert(op.reads(a.0 as int));
            assert(op.reads(b.0 as int));
        },
    }
    assert(op.output(srcs, n) =~= op.output(other, n));
}

/// A constant op fills every lane with its constant.
pub proof fn lemma_constant_fills(c: u32, srcs: Seq<Seq<u32>>, n: nat)
    ensures
        Op(Operation::Constant(c)).output(srcs, n) == Seq::new(n, |_i: int| c),
{
    assert(Op(Operation::Constant(c)).output(srcs, n) =~= Seq::new(n, |_i: int| c));
}

/// An op xor-ed with itself is 0 in every lane.
pub proof fn lemma_xor_self_is_zero(a: OpId, srcs: Seq<Seq<u32>>, n: nat)
    ensures
        Op(Operation::Binary(BinaryOpcode::Xor, a, a)).output(srcs, n) == Seq::new(n, |_i: int| 0u32),
{
    assert forall|i: int| 0 <= i < n implies #[trigger] Op(Operation::Binary(BinaryOpcode::Xor, a, a)).lane(srcs, i) == 0u32 by {
        let x = srcs[a.0 as int][i];
        assert(x ^ x == 0u32) by (bit_vector);
    }
    assert(Op(Operation::Binary(BinaryOpcode::Xor, a, a)).output(srcs, n) =~= Seq::new(n, |_i: int| 0u32));
}

/// An op or-ed, or and-ed, with itself is that op.
pub proof fn lemma_or_and_self(a: OpId, srcs: Seq<Seq<u32>>, n: nat)
    requires
        srcs[a.0 as int].len() == n,
    ensures
        Op(Operation::Binary(BinaryOpcode::Or, a, a)).output(srcs, n) == srcs[a.0 as int],
        Op(Operation::Binary(BinaryOpcode::And, a, a)).output(srcs, n) == srcs[a.0 as int],
{
    assert forall|i: int| 0 <= i < n implies #[trigger] Op(Operation::Binary(BinaryOpcode::Or, a, a)).lane(srcs, i) == srcs[a.0 as int][i]
        && Op(Operation::Binary(BinaryOpcode::And, a, a)).lane(srcs, i) == srcs[a.0 as int][i] by {
        let x = srcs[a.0 as int][i];
        assert(x | x == x && x & x == x) by (bit_vector);
    }
    assert(Op(Operation::Binary(BinaryOpcode::Or, a, a)).output(srcs, n) =~= srcs[a.0 as int]);
    assert(Op(Operation::Binary(BinaryOpcode::And, a, a)).output(srcs, n) =~= srcs[a.0 as int]);
}

/// Negating the bits of an op twice gives the op back: appending `!a` to
/// a program, then `!` of that, yields `a`.
pub proof fn lemma_double_not(a: OpId, srcs: Seq<Seq<u32>>, n: nat)
    requires
        a.0 < srcs.len() <= usize::MAX,
        srcs[a.0 as int].len() == n,
    ensures
        ({
            let once = srcs.push(Op(Operation::Unary(UnaryOpcode::BitwiseNot, a)).output(srcs, n));
            Op(Operation::Unary(UnaryOpcode::BitwiseNot, OpId(srcs.len() as usize))).output(once, n)
                == srcs[a.0 as int]
        }),
{
    let once = srcs.push(Op(Operation::Unary(UnaryOpcode::BitwiseNot, a)).output(srcs, n));
    let twice = Op(Operation::Unary(UnaryOpcode::BitwiseNot, OpId(srcs.len() as usize)));
    assert forall|i: int| 0 <= i < n implies #[trigger] twice.lane(once, i) == srcs[a.0 as int][i] by {
        let x = srcs[a.0 as int][i];
        assert(once[srcs.len() as int][i] == !x);
        assert(!(!x) == x) by (bit_vector);
    }
    assert(twice.output(once, n) =~= srcs[a.0 as int]);
}

/// An op plus its negation is 0 in every lane: appending `-a` to a
/// program, then `a + (-a)`, yields zeros.
pub proof fn lemma_add_neg_is_zero(a: OpId, srcs: Seq<Seq<u32>>, n: nat)
    requires
        a.0 < srcs.len() <= usize::MAX,
    ensures
        ({
            let negated = srcs.push(Op(Operation::Unary(UnaryOpcode::Neg, a)).output(srcs, n));
            Op(Operation::Binary(BinaryOpcode::Add, a, OpId(srcs.len() as usize))).output(negated, n)
                == Seq::new(n, |_i: int| 0u32)
        }),
{
    let negated = srcs.push(Op(Operation::Unary(UnaryOpcode::Neg, a)).output(srcs, n));
    let sum = Op(Operation::Binary(BinaryOpcode::Add, a, OpId(srcs.len() as usize)));
    assert forall|i: int| 0 <= i < n implies #[trigger] sum.lane(negated, i) == 0u32 by {
        assert(negated[a.0 as int] == srcs[a.0 as int]);
        let x = srcs[a.0 as int][i];
        assert(negated[srcs.len() as int][i] == wrapping_sub(0, x));
        if x > 0 {
            assert(wrapping_sub(0, x) == 0x1_0000_0000 - x);
        }
    }
    assert(sum.output(negated, n) =~= Seq::new(n, |_i: int| 0u32));
}

/// The lanes of each batch.
pub open spec fn views<const N: usize>(batches: Seq<Batch<u32, N>>) -> Seq<Seq<u32>> {
    Seq::new(batches.len(), |k: int| batches[k]@)
}

} // verus!
