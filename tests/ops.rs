use superopt::batch::Batch;
use superopt::op::{apply_binary, apply_unary, BinaryOpcode, Op, OpId, Operation, UnaryOpcode};

fn eval(op: Op, srcs: &[Batch<u32, 4>]) -> [u32; 4] {
    let mut dst = Batch::splat(0xdead_beef);
    op.evaluate(&mut dst, srcs);
    dst.into_lanes()
}

fn inputs() -> Vec<Batch<u32, 4>> {
    vec![
        Batch([1, 0x8000_0000, 0x1234_5678, 0xffff_ffff]),
        Batch([0, 7, 0xdead_beef, 42]),
    ]
}

#[test]
fn constant_fills_every_lane() {
    assert_eq!(eval(Op(Operation::Constant(0xcafe)), &inputs()), [0xcafe; 4]);
    assert_eq!(eval(Op(Operation::Constant(0)), &inputs()), [0; 4]);
}

#[test]
fn xor_with_itself_is_zero() {
    for a in 0..2 {
        assert_eq!(eval(Op(Operation::Binary(BinaryOpcode::Xor, OpId(a), OpId(a))), &inputs()), [0; 4]);
    }
}

#[test]
fn or_and_with_itself_is_identity() {
    let srcs = inputs();
    for a in 0..2 {
        let or = eval(Op(Operation::Binary(BinaryOpcode::Or, OpId(a), OpId(a))), &srcs);
        let and = eval(Op(Operation::Binary(BinaryOpcode::And, OpId(a), OpId(a))), &srcs);
        assert_eq!(or, srcs[a].0);
        assert_eq!(and, srcs[a].0);
    }
}

#[test]
fn double_not_is_identity() {
    let mut srcs = inputs();
    let once = eval(Op(Operation::Unary(UnaryOpcode::BitwiseNot, OpId(0))), &srcs);
    assert_eq!(once, [0xffff_fffe, 0x7fff_ffff, 0xedcb_a987, 0]);
    srcs.push(Batch(once));
    let twice = eval(Op(Operation::Unary(UnaryOpcode::BitwiseNot, OpId(2))), &srcs);
    assert_eq!(twice, srcs[0].0);
}

#[test]
fn add_negation_is_zero() {
    let mut srcs = inputs();
    let neg = eval(Op(Operation::Unary(UnaryOpcode::Neg, OpId(0))), &srcs);
    assert_eq!(neg, [0xffff_ffff, 0x8000_0000, 0xedcb_a988, 1]);
    srcs.push(Batch(neg));
    assert_eq!(eval(Op(Operation::Binary(BinaryOpcode::Add, OpId(0), OpId(2))), &srcs), [0; 4]);
}

#[test]
fn clz_counts_leading_zeros() {
    let srcs = vec![Batch([1, 2, 0x8000_0000, 0])];
    assert_eq!(eval(Op(Operation::Unary(UnaryOpcode::Clz, OpId(0))), &srcs), [31, 30, 0, 32]);
}

#[test]
fn evaluate_is_deterministic() {
    let srcs = inputs();
    let op = Op(Operation::Binary(BinaryOpcode::Mul, OpId(0), OpId(1)));
    let mut first = Batch::splat(1);
    let mut second = Batch::splat(2);
    op.evaluate(&mut first, &srcs);
    op.evaluate(&mut second, &srcs);
    assert_eq!(first, second);
}

#[test]
fn unary_opcodes_match_std() {
    let words = [0u32, 1, 0x80, 0x8000, 0x1234_5678, 0x8000_0001, 0xffff_ffff, 0x00ff_7f80];
    for &x in &words {
        assert_eq!(apply_unary(UnaryOpcode::Clz, x), x.leading_zeros());
        assert_eq!(apply_unary(UnaryOpcode::Neg, x), x.wrapping_neg());
        assert_eq!(apply_unary(UnaryOpcode::ByteReverse, x), x.swap_bytes());
        assert_eq!(apply_unary(UnaryOpcode::BitReverse, x), x.reverse_bits());
        assert_eq!(apply_unary(UnaryOpcode::BitwiseNot, x), !x);
        assert_eq!(apply_unary(UnaryOpcode::SignExtend16, x), x as u16 as i16 as i32 as u32);
        assert_eq!(apply_unary(UnaryOpcode::SignExtend8, x), x as u8 as i8 as i32 as u32);
    }
}

#[test]
fn unary_opcodes_exact_values() {
    assert_eq!(apply_unary(UnaryOpcode::ByteReverse, 0x1234_5678), 0x7856_3412);
    assert_eq!(apply_unary(UnaryOpcode::BitReverse, 1), 0x8000_0000);
    assert_eq!(apply_unary(UnaryOpcode::BitReverse, 0x0000_00f0), 0x0f00_0000);
    assert_eq!(apply_unary(UnaryOpcode::SignExtend16, 0x0001_8000), 0xffff_8000);
    assert_eq!(apply_unary(UnaryOpcode::SignExtend16, 0xabcd_7fff), 0x0000_7fff);
    assert_eq!(apply_unary(UnaryOpcode::SignExtend8, 0x0000_0080), 0xffff_ff80);
    assert_eq!(apply_unary(UnaryOpcode::SignExtend8, 0xffff_ff7f), 0x0000_007f);
}

#[test]
fn shifts_by_variable_counts() {
    assert_eq!(apply_binary(BinaryOpcode::Lsl, 1, 31), 0x8000_0000);
    assert_eq!(apply_binary(BinaryOpcode::Lsl, 1, 32), 0);
    assert_eq!(apply_binary(BinaryOpcode::Lsl, 1, 0x100 + 3), 8);
    assert_eq!(apply_binary(BinaryOpcode::Lsr, 0x8000_0000, 31), 1);
    assert_eq!(apply_binary(BinaryOpcode::Lsr, 0x8000_0000, 200), 0);
    assert_eq!(apply_binary(BinaryOpcode::Asr, 0x8000_0000, 4), 0xf800_0000);
    assert_eq!(apply_binary(BinaryOpcode::Asr, 0x8000_0000, 40), 0xffff_ffff);
    assert_eq!(apply_binary(BinaryOpcode::Asr, 0x4000_0000, 255), 0);
    assert_eq!(apply_binary(BinaryOpcode::Asr, 0x4000_0000, 0x100 + 1), 0x2000_0000);
}

#[test]
fn rotate_right_uses_count_modulo_32() {
    for &x in &[0x1234_5678u32, 1, 0x8000_0001] {
        for &n in &[0u32, 1, 4, 31, 32, 33, 0xffff_ffff] {
            assert_eq!(apply_binary(BinaryOpcode::RotateRight, x, n), x.rotate_right(n));
        }
    }
    assert_eq!(apply_binary(BinaryOpcode::RotateRight, 1, 1), 0x8000_0000);
}

#[test]
fn arithmetic_wraps() {
    assert_eq!(apply_binary(BinaryOpcode::Add, 0xffff_ffff, 2), 1);
    assert_eq!(apply_binary(BinaryOpcode::Sub, 1, 2), 0xffff_ffff);
    assert_eq!(apply_binary(BinaryOpcode::Mul, 0x1_0001, 0x1_0001), 0x0002_0001);
    assert_eq!(apply_binary(BinaryOpcode::And, 0xff00_ff00, 0x0ff0_0ff0), 0x0f00_0f00);
    assert_eq!(apply_binary(BinaryOpcode::Or, 0xff00_0000, 0x0000_00ff), 0xff00_00ff);
    assert_eq!(apply_binary(BinaryOpcode::Xor, 0xff00_ff00, 0x0ff0_0ff0), 0xf0f0_f0f0);
}

#[test]
fn packed_adds_keep_fields_apart() {
    assert_eq!(apply_binary(BinaryOpcode::UnsignedAdd8, 0xff01_80ff, 0x0101_8002), 0x0002_0001);
    assert_eq!(apply_binary(BinaryOpcode::UnsignedAdd8, 0x1020_3040, 0x0102_0304), 0x1122_3344);
    assert_eq!(apply_binary(BinaryOpcode::UnsignedAdd16, 0xffff_8000, 0x0002_8001), 0x0001_0001);
    assert_eq!(apply_binary(BinaryOpcode::UnsignedAdd16, 0x1234_0001, 0x0001_ffff), 0x1235_0000);
}

#[test]
fn opcode_positions_round_trip() {
    assert_eq!(UnaryOpcode::from_index(0), UnaryOpcode::Clz);
    assert_eq!(UnaryOpcode::from_index(6), UnaryOpcode::SignExtend8);
    assert_eq!(BinaryOpcode::from_index(0), BinaryOpcode::Add);
    assert_eq!(BinaryOpcode::from_index(9), BinaryOpcode::RotateRight);
    assert_eq!(BinaryOpcode::from_index(11), BinaryOpcode::UnsignedAdd16);
}

#[test]
fn batch_converts_from_and_to_arrays() {
    let b: Batch<u32, 3> = Batch::from([4, 5, 6]);
    assert_eq!(b, Batch([4, 5, 6]));
    assert_eq!(b.into_lanes(), [4, 5, 6]);
    assert_eq!(Batch::<u32, 2>::splat(9), Batch([9, 9]));
}
