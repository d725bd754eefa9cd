//! Fixed-width vectors of lanes.
use vstd::prelude::*;

use crate::random::draw_word;
use rand::rngs::StdRng;

verus! {

/// `N` lanes, processed independently by the evaluator.
#[derive(Clone, Copy, Debug, PartialEq, Eq, Hash)]
pub struct Batch<T, const N: usize>(pub [T; N]);

impl<T, const N: usize> View for Batch<T, N> {
    type V = Seq<T>;

    open spec fn view(&self) -> Seq<T> {
        self.0@
    }
}

impl<T, const N: usize> From<[T; N]> for Batch<T, N> {
    fn from(lanes: [T; N]) -> (r: Self)
        ensures
            r@ == lanes@,
    {
        Batch(lanes)
    }
}

impl<T, const N: usize> vstd::std_specs::convert::FromSpecImpl<[T; N]> for Batch<T, N> {
    open spec fn obeys_from_spec() -> bool {
        true
    }

    open spec fn from_spec(lanes: [T; N]) -> Self {
        Batch(lanes)
    }
}

impl<T, const N: usize> Batch<T, N> {
    /// The lanes as an array.
    pub fn into_lanes(self) -> (r: [T; N])
        ensures
            r@ == self@,
    {
        self.0
    }
}

impl<const N: usize> Batch<u32, N> {
    /// A batch with every lane set to `value`.
    pub fn splat(value: u32) -> (r: Self)
        ensures
            r@ == Seq::new(N as nat, |_i: int| value),
    {
        let r = Batch([value; N]);
        assert(r@ =~= Seq::new(N as nat, |_i: int| value));
        r
    }

    /// A batch of independently drawn random words.
    pub fn random(rng: &mut StdRng) -> (r: Self) {
        let mut lanes = [0u32; N];
        let mut i: usize = 0;
        while i < N
            invariant
                i <= N,
            decreases N - i,
        {
            lanes[i] = draw_word(rng);
            i = i + 1;
        }
        Batch(lanes)
    }
}

} // verus!
