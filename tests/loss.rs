use superopt::batch::Batch;
use superopt::ground_truth::{pack_argb, split_argb, total_loss};
use superopt::op::{BinaryOpcode, Op, OpId, Operation};
use superopt::search::{run_program, Corpus};

/// The sRGB "over" blend of `src` onto `dst`, by the formula of the
/// target function, in floating point.
fn reference_blend(src: u32, dst: u32) -> u32 {
    fn to_linear(c: f64) -> f64 {
        if c <= 0.04045 {
            c / 12.92
        } else {
            ((c + 0.055) / 1.055).powf(2.4)
        }
    }
    fn to_srgb(c: f64) -> f64 {
        if c <= 0.0031308 {
            c * 12.92
        } else {
            1.055 * c.powf(1.0 / 2.4) - 0.055
        }
    }
    fn to_byte(v: f64) -> u8 {
        (v * 255.0).clamp(0.0, 255.0) as u8
    }
    let s = split_argb(src).map(|b| b as f64 / 255.0);
    let d = split_argb(dst).map(|b| b as f64 / 255.0);
    let out_a = s[0] + d[0] * (1.0 - s[0]);
    let src_w = s[0] / out_a;
    let dst_w = d[0] * (1.0 - s[0]) / out_a;
    let mut out = [to_byte(out_a), 0, 0, 0];
    for c in 1..4 {
        out[c] = to_byte(to_srgb(to_linear(s[c]) * src_w + to_linear(d[c]) * dst_w));
    }
    pack_argb(out)
}

fn truth_of(src: &Batch<u32, 4>, dst: &Batch<u32, 4>) -> Batch<u32, 4> {
    let mut lanes = [0u32; 4];
    for i in 0..4 {
        lanes[i] = reference_blend(src.0[i], dst.0[i]);
    }
    Batch(lanes)
}

#[test]
fn loss_of_a_batch_to_itself_is_zero() {
    let x = Batch([0x1234_5678u32, 0, 0xffff_ffff, 0x8080_8080]);
    assert_eq!(total_loss(&x, &x), 0);
}

#[test]
fn loss_is_symmetric() {
    let x = Batch([0x1234_5678u32, 0, 0xffff_ffff, 0x8080_8080]);
    let y = Batch([0x8765_4321u32, 0xffff_ffff, 0, 0x7f7f_7f7f]);
    assert_eq!(total_loss(&x, &y), total_loss(&y, &x));
}

#[test]
fn loss_sums_byte_distances() {
    let x = Batch([0x0000_0000u32, 0x0102_0304]);
    let y = Batch([0xffff_ffffu32, 0x0403_0201]);
    assert_eq!(total_loss(&x, &y), 4 * 255 + (3 + 1 + 1 + 3));
    assert_eq!(total_loss(&Batch([0x0000_00ffu32]), &Batch([0x0000_0100u32])), 255 + 1);
}

#[test]
fn argb_split_and_pack() {
    assert_eq!(split_argb(0x8012_34ff), [0x80, 0x12, 0x34, 0xff]);
    assert_eq!(pack_argb([0x80, 0x12, 0x34, 0xff]), 0x8012_34ff);
}

#[test]
fn zero_inputs_have_zero_truth_and_a_zero_constant_fits() {
    let src = Batch([0u32; 4]);
    let dst = Batch([0u32; 4]);
    let truth = truth_of(&src, &dst);
    assert_eq!(truth, Batch([0u32; 4]));
    let program = vec![Op(Operation::Constant(0))];
    let predicted = run_program(&program, &src, &dst);
    assert_eq!(total_loss(&truth, &predicted), 0);
}

#[test]
fn opaque_black_over_transparent_white_is_passed_through() {
    let src = Batch([0xff00_0000u32; 4]);
    let dst = Batch([0x00ff_ffffu32; 4]);
    let truth = truth_of(&src, &dst);
    assert_eq!(truth, Batch([0xff00_0000u32; 4]));
    let program = vec![Op(Operation::Binary(BinaryOpcode::And, OpId(0), OpId(0)))];
    let predicted = run_program(&program, &src, &dst);
    assert_eq!(predicted, src);
    assert_eq!(total_loss(&truth, &predicted), 0);
}

#[test]
fn transparent_source_leaves_destination() {
    let src = Batch([0u32; 4]);
    let dst = Batch([0xff12_3456u32, 0x80ff_0080, 0x0a0b_0c0d, 0xffff_ffff]);
    let truth = truth_of(&src, &dst);
    let predicted = run_program(&Vec::new(), &src, &dst);
    assert_eq!(predicted, dst);
    for i in 0..4 {
        let t = split_argb(truth.0[i]);
        let p = split_argb(predicted.0[i]);
        assert_eq!(t[0], p[0]);
        for c in 1..4 {
            assert!(t[c].abs_diff(p[c]) <= 1);
        }
    }
    assert!(total_loss(&truth, &predicted) <= 4 * 3);
}

#[test]
fn corpus_checks_its_lists() {
    let b = Batch([0u32; 4]);
    assert!(Corpus::new(vec![b], vec![b], vec![b]).is_some());
    assert!(Corpus::new(vec![b, b], vec![b], vec![b]).is_none());
    assert!(Corpus::new(vec![b], vec![b], Vec::new()).is_none());
    assert!(Corpus::<4>::new(Vec::new(), Vec::new(), Vec::new()).is_some());
}

#[test]
fn corpus_loss_sums_over_pairs() {
    let src = Batch([0x0000_0001u32; 4]);
    let dst = Batch([0x0000_0003u32; 4]);
    let truth = Batch([0x0000_0002u32; 4]);
    let corpus = Corpus::new(vec![src, src], vec![dst, dst], vec![truth, truth]).unwrap();
    assert_eq!(corpus.corpus_loss(&Vec::new()), 2 * 4);
    let program = vec![Op(Operation::Binary(BinaryOpcode::Add, OpId(0), OpId(0)))];
    assert_eq!(corpus.corpus_loss(&program), 0);
}

#[test]
fn programs_chain_through_earlier_ops() {
    let src = Batch([3u32, 5, 7, 9]);
    let dst = Batch([1u32, 1, 2, 2]);
    let program = vec![
        Op(Operation::Binary(BinaryOpcode::Mul, OpId(0), OpId(1))),
        Op(Operation::Constant(10)),
        Op(Operation::Binary(BinaryOpcode::Add, OpId(2), OpId(3))),
    ];
    assert_eq!(run_program(&program, &src, &dst), Batch([13u32, 15, 24, 28]));
}

#[test]
fn loss_is_zero_only_between_equal_batches() {
    let x = Batch([0x1234_5678u32, 7]);
    let mut y = x;
    y.0[1] = 0x0100_0007;
    assert_eq!(total_loss(&x, &y), 1);
    y.0[1] = 7;
    assert_eq!(total_loss(&x, &y), 0);
}
