//! Words as ARGB pixels, and the byte-wise distance between batches.
use vstd::prelude::*;

use crate::batch::Batch;

verus! {

/// Byte `k` of `w`, counting from the least significant.
pub open spec fn byte_of(w: u32, k: u32) -> u32 {
    (w >> (8 * k)) & 0xff
}

/// The distance between two integers.
pub open spec fn distance(a: int, b: int) -> nat {
    if a >= b {
        (a - b) as nat
    } else {
        (b - a) as nat
    }
}

/// The sum over the four bytes of the distance between the bytes of `a`
/// and of `b`.
pub open spec fn word_loss(a: u32, b: u32) -> nat {
    distance(byte_of(a, 0) as int, byte_of(b, 0) as int) + distance(
        byte_of(a, 1) as int,
        byte_of(b, 1) as int,
    ) + distance(byte_of(a, 2) as int, byte_of(b, 2) as int) + distance(
        byte_of(a, 3) as int,
        byte_of(b, 3) as int,
    )
}

/// The sum of `word_loss` over the first `n` lanes.
pub open spec fn loss_upto(truth: Seq<u32>, prediction: Seq<u32>, n: nat) -> nat
    decreases n,
{
    if n == 0 {
        0
    } else {
        loss_upto(truth, prediction, (n - 1) as nat) + word_loss(
            truth[n - 1],
            prediction[n - 1],
        )
    }
}

/// The byte-wise L1 distance between two batches of the same width.
pub open spec fn batch_loss(truth: Seq<u32>, prediction: Seq<u32>) -> nat {
    loss_upto(truth, prediction, truth.len())
}

/// The distance of a batch to itself is 0, the distance is the same both
/// ways, and it is 0 only between equal batches.
pub proof fn lemma_batch_loss_laws(x: Seq<u32>, y: Seq<u32>)
    requires
        x.len() == y.len(),
    ensures
        batch_loss(x, x) == 0,
        batch_loss(x, y) == batch_loss(y, x),
        batch_loss(x, y) == 0 <==> x == y,
{
    lemma_loss_upto_laws(x, y, x.len());
    if batch_loss(x, y) == 0 {
        assert forall|i: int| 0 <= i < x.len() implies x[i] == y[i] by {
            lemma_loss_upto_zero(x, y, x.len(), i);
            lemma_word_loss_zero(x[i], y[i]);
        }
        assert(x =~= y);
    }
}

proof fn lemma_loss_upto_laws(x: Seq<u32>, y: Seq<u32>, n: nat)
    ensures
        loss_upto(x, x, n) == 0,
        loss_upto(x, y, n) == loss_upto(y, x, n),
    decreases n,
{
    if n > 0 {
        lemma_loss_upto_laws(x, y, (n - 1) as nat);
    }
}

/// Where the sum is 0, so is every lane's loss.
proof fn lemma_loss_upto_zero(x: Seq<u32>, y: Seq<u32>, n: nat, i: int)
    requires
        loss_upto(x, y, n) == 0,
        0 <= i < n,
    ensures
        word_loss(x[i], y[i]) == 0,
    decreases n,
{
    if i < n - 1 {
        lemma_loss_upto_zero(x, y, (n - 1) as nat, i);
    }
}

/// Two words are at distance 0 only when they are equal.
proof fn lemma_word_loss_zero(a: u32, b: u32)
    requires
        word_loss(a, b) == 0,
    ensures
        a == b,
{
    assert(byte_of(a, 0) == byte_of(b, 0));
    assert(byte_of(a, 1) == byte_of(b, 1));
    assert(byte_of(a, 2) == byte_of(b, 2));
    assert(byte_of(a, 3) == byte_of(b, 3));
    assert(a == b) by (bit_vector)
        requires
            (a >> 0u32) & 0xff == (b >> 0u32) & 0xff,
            (a >> 8u32) & 0xff == (b >> 8u32) & 0xff,
            (a >> 16u32) & 0xff == (b >> 16u32) & 0xff,
            (a >> 24u32) & 0xff == (b >> 24u32) & 0xff,
    ;
}

fn byte_distance(a: u32, b: u32, k: u32) -> (r: u64)
    requires
        k < 4,
    ensures
        r == distance(byte_of(a, k) as int, byte_of(b, k) as int),
        r <= 255,
{
    let x = (a >> (8 * k)) & 0xff;
    let y = (b >> (8 * k)) & 0xff;
    assert(x <= 255 && y <= 255) by (bit_vector)
        requires
            x == (a >> (8 * k)) & 0xff,
            y == (b >> (8 * k)) & 0xff,
    ;
    if x >= y {
        (x - y) as u64
    } else {
        (y - x) as u64
    }
}

/// The byte-wise distance between two words.
fn word_distance(a: u32, b: u32) -> (r: u64)
    ensures
        r == word_loss(a, b),
        r <= 1020,
{
    byte_distance(a, b, 0) + byte_distance(a, b, 1) + byte_distance(a, b, 2) + byte_distance(
        a,
        b,
        3,
    )
}

/// The sum over all lanes and all four bytes of each lane of the distance
/// between the bytes of `truth` and of `prediction`.
pub fn total_loss<const N: usize>(truth: &Batch<u32, N>, prediction: &Batch<u32, N>) -> (r: u64)
    requires
        N * 1020 <= u64::MAX,
    ensures
        r == batch_loss(truth@, prediction@),
        r == batch_loss(prediction@, truth@),
        r == 0 <==> truth@ == prediction@,
        r <= N * 1020,
{
    let mut total: u64 = 0;
    let mut i: usize = 0;
    while i < N
        invariant
            i <= N,
            N * 1020 <= u64::MAX,
            total == loss_upto(truth@, prediction@, i as nat),
            total <= i * 1020,
        decreases N - i,
    {
        total = total + word_distance(truth.0[i], prediction.0[i]);
        i = i + 1;
    }
    proof {
        lemma_batch_loss_laws(truth@, prediction@);
    }
    total
}

/// The bytes of an ARGB word: alpha, red, green, blue.
pub fn split_argb(argb: u32) -> (r: [u8; 4])
    ensures
        r@ == seq![
            (argb >> 24u32) as u8,
            (argb >> 16u32) as u8,
            (argb >> 8u32) as u8,
            argb as u8,
        ],
{
    let r = [(argb >> 24u32) as u8, (argb >> 16u32) as u8, (argb >> 8u32) as u8, argb as u8];
    assert(r@ =~= seq![
        (argb >> 24u32) as u8,
        (argb >> 16u32) as u8,
        (argb >> 8u32) as u8,
        argb as u8,
    ]);
    r
}

/// The ARGB word of the bytes alpha, red, green, blue.
pub fn pack_argb(bytes: [u8; 4]) -> (r: u32)
    ensures
        r == ((bytes@[0] as u32) << 24u32) | ((bytes@[1] as u32) << 16u32) | ((bytes@[2] as u32)
            << 8u32) | (bytes@[3] as u32),
{
    ((bytes[0] as u32) << 24u32) | ((bytes[1] as u32) << 16u32) | ((bytes[2] as u32) << 8u32) | (
    bytes[3] as u32)
}

} // verus!
