use rand::rngs::StdRng;
use rand::SeedableRng;
use superopt::immediate_shift::{ImmediateShift, ShiftCase};

fn shifted(shift: ImmediateShift, src: &[u32]) -> Vec<u32> {
    let mut dst = vec![0xdead_beef; src.len()];
    shift.apply(&mut dst, src);
    dst
}

#[test]
fn default_shift_copies() {
    let src = [1u32, 0x8000_0000, 0x1234_5678];
    assert_eq!(ImmediateShift::default(), ImmediateShift(ShiftCase::Identity));
    assert_eq!(shifted(ImmediateShift::default(), &src), src.to_vec());
}

#[test]
fn shifts_by_fixed_amounts() {
    let src = [1u32, 0x8000_0000, 0x1234_5678];
    assert_eq!(shifted(ImmediateShift(ShiftCase::Lsl(4)), &src), vec![0x10, 0, 0x2345_6780]);
    assert_eq!(shifted(ImmediateShift(ShiftCase::Lsr(4)), &src), vec![0, 0x0800_0000, 0x0123_4567]);
    assert_eq!(shifted(ImmediateShift(ShiftCase::Asr(4)), &src), vec![0, 0xf800_0000, 0x0123_4567]);
    assert_eq!(shifted(ImmediateShift(ShiftCase::Ror(4)), &src), vec![0x1000_0000, 0x0800_0000, 0x8123_4567]);
    assert_eq!(shifted(ImmediateShift(ShiftCase::Ror(0)), &src), src.to_vec());
}

#[test]
fn empty_slices_are_fine() {
    assert!(shifted(ImmediateShift(ShiftCase::Lsl(3)), &[]).is_empty());
}

#[test]
fn random_shifts_stay_below_31_and_vary() {
    let mut rng = StdRng::seed_from_u64(8);
    let mut kinds = [false; 5];
    for _ in 0..300 {
        let s = ImmediateShift::random(&mut rng);
        let kind = match s.0 {
            ShiftCase::Identity => 0,
            ShiftCase::Lsl(a) => {
                assert!(a < 31);
                1
            }
            ShiftCase::Lsr(a) => {
                assert!(a < 31);
                2
            }
            ShiftCase::Asr(a) => {
                assert!(a < 31);
                3
            }
            ShiftCase::Ror(a) => {
                assert!(a < 31);
                4
            }
        };
        kinds[kind] = true;
    }
    assert!(kinds.iter().all(|&k| k));
}
