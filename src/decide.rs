//! Values built out of decisions: booleans and fixed-width integers.
use vstd::arithmetic::power2::{lemma2_to64, lemma_pow2_pos, lemma_pow2_strictly_increases, lemma_pow2_unfold, pow2};
use vstd::prelude::*;

use crate::decider::{
    bits_value, lemma_only_decided_refl, lemma_only_decided_trans, lemma_range_choice_unique,
    only_decided, range_choice, TreeDecider,
};

verus! {

/// A type whose values are spelled by a fixed number of decisions.
pub trait Decide: Sized {
    /// How many decisions one value takes.
    spec fn decisions() -> nat;

    /// The value that the decisions `bits` spell.
    spec fn decoded(bits: Seq<bool>) -> Self;

    /// Takes `decisions()` decisions and returns the value they spell.
    fn decide(decider: &mut TreeDecider) -> (r: Self)
        requires
            old(decider).wf(),
        ensures
            only_decided(*old(decider), *final(decider)),
            final(decider).path().len() == old(decider).path().len() + Self::decisions(),
            r == Self::decoded(final(decider).path().skip(old(decider).path().len() as int)),
    ;
}

/// Takes `n` decisions and returns the number they spell, first decision
/// most significant.
fn decide_bits(decider: &mut TreeDecider, n: u32) -> (r: u64)
    requires
        old(decider).wf(),
        n <= 64,
    ensures
        only_decided(*old(decider), *final(decider)),
        final(decider).path().len() == old(decider).path().len() + n,
        r == bits_value(final(decider).path().skip(old(decider).path().len() as int)),
        r < pow2(n as nat),
{
    let ghost start = *decider;
    let ghost base = decider.path().len() as int;
    let mut result: u64 = 0;
    let mut i: u32 = 0;
    proof {
        lemma_only_decided_refl(start);
        assert(decider.path().skip(base) =~= Seq::<bool>::empty());
        lemma_pow2_pos(0);
    }
    while i < n
        invariant
            start.wf(),
            base == start.path().len(),
            only_decided(start, *decider),
            i <= n <= 64,
            decider.path().len() == base + i,
            result == bits_value(decider.path().skip(base)),
            result < pow2(i as nat),
        decreases n - i,
    {
        let ghost before = *decider;
        let b = decider.decide_bool();
        proof {
            lemma_only_decided_trans(start, before, *decider);
            let bits = decider.path().skip(base);
            assert(bits.drop_last() =~= before.path().skip(base));
            assert(bits.last() == b);
            lemma_pow2_unfold((i + 1) as nat);
            if i + 1 < 64 {
                lemma_pow2_strictly_increases((i + 1) as nat, 64);
            }
            lemma2_to64();
        }
        result = result * 2 + if b {
            1
        } else {
            0
        };
        i = i + 1;
    }
    result
}

impl Decide for bool {
    open spec fn decisions() -> nat {
        1
    }

    open spec fn decoded(bits: Seq<bool>) -> bool {
        bits[0]
    }

    fn decide(decider: &mut TreeDecider) -> (r: bool) {
        let r = decider.decide_bool();
        proof {
            assert(final(decider).path().skip(old(decider).path().len() as int) =~= seq![r]);
        }
        r
    }
}

impl Decide for u8 {
    open spec fn decisions() -> nat {
        8
    }

    open spec fn decoded(bits: Seq<bool>) -> u8 {
        bits_value(bits) as u8
    }

    fn decide(decider: &mut TreeDecider) -> (r: u8)
        ensures
            r as nat == bits_value(final(decider).path().skip(old(decider).path().len() as int)),
    {
        let r = decide_bits(decider, 8);
        proof {
            lemma2_to64();
        }
        r as u8
    }
}

impl Decide for u16 {
    open spec fn decisions() -> nat {
        16
    }

    open spec fn decoded(bits: Seq<bool>) -> u16 {
        bits_value(bits) as u16
    }

    fn decide(decider: &mut TreeDecider) -> (r: u16)
        ensures
            r as nat == bits_value(final(decider).path().skip(old(decider).path().len() as int)),
    {
        let r = decide_bits(decider, 16);
        proof {
            lemma2_to64();
        }
        r as u16
    }
}

impl Decide for u32 {
    open spec fn decisions() -> nat {
        32
    }

    open spec fn decoded(bits: Seq<bool>) -> u32 {
        bits_value(bits) as u32
    }

    fn decide(decider: &mut TreeDecider) -> (r: u32)
        ensures
            r as nat == bits_value(final(decider).path().skip(old(decider).path().len() as int)),
    {
        let r = decide_bits(decider, 32);
        proof {
            lemma2_to64();
        }
        r as u32
    }
}

impl Decide for u64 {
    open spec fn decisions() -> nat {
        64
    }

    open spec fn decoded(bits: Seq<bool>) -> u64 {
        bits_value(bits) as u64
    }

    fn decide(decider: &mut TreeDecider) -> (r: u64)
        ensures
            r as nat == bits_value(final(decider).path().skip(old(decider).path().len() as int)),
    {
        let r = decide_bits(decider, 64);
        proof {
            lemma2_to64();
        }
        r as u64
    }
}

impl Decide for i8 {
    open spec fn decisions() -> nat {
        8
    }

    /// The two's-complement reading of the bits.
    open spec fn decoded(bits: Seq<bool>) -> i8 {
        (bits_value(bits) as u8) as i8
    }

    fn decide(decider: &mut TreeDecider) -> (r: i8) {
        (decide_bits(decider, 8) as u8) as i8
    }
}

impl Decide for i16 {
    open spec fn decisions() -> nat {
        16
    }

    /// The two's-complement reading of the bits.
    open spec fn decoded(bits: Seq<bool>) -> i16 {
        (bits_value(bits) as u16) as i16
    }

    fn decide(decider: &mut TreeDecider) -> (r: i16) {
        (decide_bits(decider, 16) as u16) as i16
    }
}

impl Decide for i32 {
    open spec fn decisions() -> nat {
        32
    }

    /// The two's-complement reading of the bits.
    open spec fn decoded(bits: Seq<bool>) -> i32 {
        (bits_value(bits) as u32) as i32
    }

    fn decide(decider: &mut TreeDecider) -> (r: i32) {
        (decide_bits(decider, 32) as u32) as i32
    }
}

impl Decide for i64 {
    open spec fn decisions() -> nat {
        64
    }

    /// The two's-complement reading of the bits.
    open spec fn decoded(bits: Seq<bool>) -> i64 {
        (bits_value(bits) as u64) as i64
    }

    fn decide(decider: &mut TreeDecider) -> (r: i64) {
        (decide_bits(decider, 64) as u64) as i64
    }
}

/// One part of a run of decisions.
pub enum Spelling {
    /// Decisions that narrow `lo..=hi` to `value`.
    Range { lo: int, hi: int, value: int },
    /// `width` decisions that spell `value` in binary, most significant first.
    Bits { width: nat, value: nat },
}

/// The decisions `bits` make up the part `part`.
pub open spec fn spells_part(bits: Seq<bool>, part: Spelling) -> bool {
    match part {
        Spelling::Range { lo, hi, value } => range_choice(lo, hi, bits, value),
        Spelling::Bits { width, value } => bits.len() == width && bits_value(bits) == value,
    }
}

/// The decisions `bits` split into runs that make up the parts `parts` in
/// order.
pub open spec fn spells(bits: Seq<bool>, parts: Seq<Spelling>) -> bool
    decreases parts.len(),
{
    if parts.len() == 0 {
        bits.len() == 0
    } else {
        exists|k: int|
            0 <= k <= bits.len() && #[trigger] spells_part(bits.take(k), parts[0]) && spells(
                bits.skip(k),
                parts.skip(1),
            )
    }
}

/// A run that makes up one part spells that part.
pub proof fn lemma_spells_one(bits: Seq<bool>, part: Spelling)
    requires
        spells_part(bits, part),
    ensures
        spells(bits, seq![part]),
{
    let k = bits.len() as int;
    assert(bits.take(k) =~= bits);
    assert(bits.skip(k) =~= Seq::<bool>::empty());
    assert(seq![part].skip(1) =~= Seq::<Spelling>::empty());
    assert(spells(bits.skip(k), seq![part].skip(1)));
    assert(seq![part][0] == part);
    assert(spells_part(bits.take(k), seq![part][0]));
}

/// Runs that spell parts, one after another, spell the parts one after
/// another.
pub proof fn lemma_spells_concat(a: Seq<bool>, pa: Seq<Spelling>, b: Seq<bool>, pb: Seq<Spelling>)
    requires
        spells(a, pa),
        spells(b, pb),
    ensures
        spells(a + b, pa + pb),
    decreases pa.len(),
{
    if pa.len() == 0 {
        assert(a + b =~= b);
        assert(pa + pb =~= pb);
    } else {
        let k = choose|k: int|
            0 <= k <= a.len() && #[trigger] spells_part(a.take(k), pa[0]) && spells(
                a.skip(k),
                pa.skip(1),
            );
        lemma_spells_concat(a.skip(k), pa.skip(1), b, pb);
        assert((a + b).take(k) =~= a.take(k));
        assert((a + b).skip(k) =~= a.skip(k) + b);
        assert((pa + pb).skip(1) =~= pa.skip(1) + pb);
        assert((pa + pb)[0] == pa[0]);
        assert(spells_part((a + b).take(k), (pa + pb)[0]));
    }
}

/// Decisions taken in two goes spell what the first go spelled, then what
/// the second did.
pub proof fn lemma_spelled_in_turn(
    a: TreeDecider,
    b: TreeDecider,
    c: TreeDecider,
    first: Seq<Spelling>,
    second: Seq<Spelling>,
)
    requires
        a.wf(),
        only_decided(a, b),
        only_decided(b, c),
        spells(b.path().skip(a.path().len() as int), first),
        spells(c.path().skip(b.path().len() as int), second),
    ensures
        only_decided(a, c),
        spells(c.path().skip(a.path().len() as int), first + second),
{
    lemma_only_decided_trans(a, b, c);
    let (la, lb) = (a.path().len() as int, b.path().len() as int);
    assert(c.path().skip(la) =~= b.path().skip(la) + c.path().skip(lb)) by {
        assert(b.path() =~= c.path().take(lb));
    }
    lemma_spells_concat(b.path().skip(la), first, c.path().skip(lb), second);
}

/// Two parts of one kind with the same bounds, which may differ in value.
pub open spec fn same_shape(a: Spelling, b: Spelling) -> bool {
    match a {
        Spelling::Range { lo, hi, .. } => b matches Spelling::Range { lo: l, hi: h, .. } && l == lo
            && h == hi,
        Spelling::Bits { width, .. } => b matches Spelling::Bits { width: w, .. } && w == width,
    }
}

/// Where one run of decisions spells two lists of parts whose first parts
/// have the same shape, those first parts are equal and take the same
/// decisions, returned.
pub proof fn lemma_first_part_unique(bits: Seq<bool>, first: Seq<Spelling>, second: Seq<Spelling>) -> (k: int)
    requires
        spells(bits, first),
        spells(bits, second),
        first.len() > 0,
        second.len() > 0,
        same_shape(first[0], second[0]),
    ensures
        0 <= k <= bits.len(),
        first[0] == second[0],
        spells(bits.skip(k), first.skip(1)),
        spells(bits.skip(k), second.skip(1)),
{
    let k1 = choose|k: int|
        0 <= k <= bits.len() && #[trigger] spells_part(bits.take(k), first[0]) && spells(
            bits.skip(k),
            first.skip(1),
        );
    let k2 = choose|k: int|
        0 <= k <= bits.len() && #[trigger] spells_part(bits.take(k), second[0]) && spells(
            bits.skip(k),
            second.skip(1),
        );
    match first[0] {
        Spelling::Range { lo, hi, value } => {
            let v2 = second[0]->Range_value;
            if k1 <= k2 {
                assert(bits.take(k2).take(k1) =~= bits.take(k1));
                lemma_range_choice_unique(lo, hi, bits.take(k1), value, bits.take(k2), v2);
            } else {
                assert(bits.take(k1).take(k2) =~= bits.take(k2));
                lemma_range_choice_unique(lo, hi, bits.take(k2), v2, bits.take(k1), value);
            }
            assert(bits.take(k1).len() == bits.take(k2).len());
        },
        Spelling::Bits { width, value } => {
            assert(bits.take(k1).len() == bits.take(k2).len());
            assert(bits.take(k1) =~= bits.take(k2));
        },
    }
    k1
}

/// One run of decisions spells at most one list of parts of given shapes.
pub proof fn lemma_spells_unique(bits: Seq<bool>, first: Seq<Spelling>, second: Seq<Spelling>)
    requires
        spells(bits, first),
        spells(bits, second),
        first.len() == second.len(),
        forall|i: int| 0 <= i < first.len() ==> #[trigger] same_shape(first[i], second[i]),
    ensures
        first == second,
    decreases first.len(),
{
    if first.len() > 0 {
        assert(same_shape(first[0], second[0]));
        let k = lemma_first_part_unique(bits, first, second);
        assert forall|i: int| 0 <= i < first.skip(1).len() implies #[trigger] same_shape(
            first.skip(1)[i],
            second.skip(1)[i],
        ) by {
            assert(same_shape(first[i + 1], second[i + 1]));
        }
        lemma_spells_unique(bits.skip(k), first.skip(1), second.skip(1));
        assert(first =~= second) by {
            assert forall|i: int| 0 <= i < first.len() implies first[i] == second[i] by {
                if i > 0 {
                    assert(first[i] == first.skip(1)[i - 1]);
                    assert(second[i] == second.skip(1)[i - 1]);
                }
            }
        }
    } else {
        assert(first =~= second);
    }
}

} // verus!
