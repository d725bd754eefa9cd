//! A shift or rotation by a fixed amount, applied word by word.
use vstd::prelude::*;

use crate::op::rotated_right;
use crate::random::draw_below;
use rand::rngs::StdRng;

verus! {

/// Which shift, and by how many bits.
#[derive(Clone, Copy, Debug, PartialEq, Eq, Hash)]
pub enum ShiftCase {
    /// The word unchanged.
    Identity,
    Lsl(u8),
    Lsr(u8),
    /// Arithmetic shift right.
    Asr(u8),
    /// Rotation right.
    Ror(u8),
}

/// A shift by an amount fixed in the instruction.
#[derive(Clone, Copy, Debug, PartialEq, Eq, Hash)]
pub struct ImmediateShift(pub ShiftCase);

impl ImmediateShift {
    /// The amount, where there is one, is below the word width.
    pub open spec fn wf(self) -> bool {
        match self.0 {
            ShiftCase::Identity => true,
            ShiftCase::Lsl(a) | ShiftCase::Lsr(a) | ShiftCase::Asr(a) | ShiftCase::Ror(a) => a < 32,
        }
    }

    /// What the shift makes of one word.
    pub open spec fn word(self, x: u32) -> u32 {
        match self.0 {
            ShiftCase::Identity => x,
            ShiftCase::Lsl(a) => x << (a as u32),
            ShiftCase::Lsr(a) => x >> (a as u32),
            ShiftCase::Asr(a) => ((x as i32) >> (a as u32)) as u32,
            ShiftCase::Ror(a) => rotated_right(x, a as u32),
        }
    }

    fn shift_word(self, x: u32) -> (r: u32)
        requires
            self.wf(),
        ensures
            r == self.word(x),
    {
        match self.0 {
            ShiftCase::Identity => x,
            ShiftCase::Lsl(a) => x << (a as u32),
            ShiftCase::Lsr(a) => x >> (a as u32),
            ShiftCase::Asr(a) => ((x as i32) >> (a as u32)) as u32,
            ShiftCase::Ror(a) => {
                let k = a as u32;
                if k == 0 {
                    x
                } else {
                    (x >> k) | (x << (32 - k))
                }
            },
        }
    }

    /// Writes into `dst` the shift of each word of `src`.
    pub fn apply(self, dst: &mut [u32], src: &[u32])
        requires
            self.wf(),
            old(dst)@.len() == src@.len(),
        ensures
            final(dst)@ == Seq::new(src@.len(), |i: int| self.word(src@[i])),
    {
        let mut i: usize = 0;
        while i < src.len()
            invariant
                self.wf(),
                i <= src@.len(),
                dst@.len() == src@.len(),
                forall|j: int| 0 <= j < i ==> dst@[j] == self.word(src@[j]),
            decreases src@.len() - i,
        {
            dst[i] = self.shift_word(src[i]);
            i = i + 1;
        }
        assert(dst@ =~= Seq::new(src@.len(), |i: int| self.word(src@[i])));
    }

    /// A shift of a kind drawn evenly from the five, by an amount drawn
    /// evenly from `0..31`.
    pub fn random(rng: &mut StdRng) -> (r: Self)
        ensures
            r.wf(),
            match r.0 {
                ShiftCase::Identity => true,
                ShiftCase::Lsl(a) | ShiftCase::Lsr(a) | ShiftCase::Asr(a) | ShiftCase::Ror(a) => a < 31,
            },
    {
        let kind = draw_below(rng, 5);
        if kind == 0 {
            ImmediateShift(ShiftCase::Identity)
        } else {
            let amount = draw_below(rng, 31) as u8;
            if kind == 1 {
                ImmediateShift(ShiftCase::Lsl(amount))
            } else if kind == 2 {
                ImmediateShift(ShiftCase::Lsr(amount))
            } else if kind == 3 {
                ImmediateShift(ShiftCase::Asr(amount))
            } else {
                ImmediateShift(ShiftCase::Ror(amount))
            }
        }
    }
}

impl Default for ImmediateShift {
    /// No shift.
    fn default() -> (r: Self)
        ensures
            r.0 == ShiftCase::Identity,
    {
        ImmediateShift(ShiftCase::Identity)
    }
}

} // verus!
