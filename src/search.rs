//! Running programs over a corpus, and one trial of the search.
use vstd::prelude::*;

use crate::batch::Batch;
use crate::decide::spells;
use crate::decider::{
    lemma_only_decided_refl, lemma_only_decided_trans, only_decided, restarted, walked, TreeDecider,
    UNVISITED,
};
use crate::ground_truth::{batch_loss, total_loss};
use crate::op::{op_spelling, views, Op};
use rand::rngs::StdRng;

verus! {

/// Every op names only ops before it: op `k` stands at position `k + 2`,
/// after the two inputs.
pub open spec fn program_valid(ops: Seq<Op>) -> bool {
    forall|k: int| 0 <= k < ops.len() ==> #[trigger] ops[k].operands_below(k + 2)
}

/// The batches of a run of `ops` on `src` and `dst`, `n` lanes wide: the
/// two inputs, then the output of each op in turn.
pub open spec fn run(ops: Seq<Op>, src: Seq<u32>, dst: Seq<u32>, n: nat) -> Seq<Seq<u32>>
    decreases ops.len(),
{
    if ops.len() == 0 {
        seq![src, dst]
    } else {
        let before = run(ops.drop_last(), src, dst, n);
        before.push(ops.last().output(before, n))
    }
}

/// What a program computes: the last batch of its run.
pub open spec fn prediction(ops: Seq<Op>, src: Seq<u32>, dst: Seq<u32>, n: nat) -> Seq<u32> {
    run(ops, src, dst, n).last()
}

/// The decisions `bits`, taken from the node `start` of `tree`, spell the
/// ops of `ops` in turn (op `k` with `k + 2` ops before it), and the node
/// where each op began had seen a finished trial.
pub open spec fn built_from_visited(
    tree: Map<Seq<bool>, u64>,
    start: Seq<bool>,
    bits: Seq<bool>,
    ops: Seq<Op>,
) -> bool
    decreases ops.len(),
{
    if ops.len() == 0 {
        bits.len() == 0
    } else {
        exists|k: int|
            0 <= k <= bits.len() && #[trigger] spells(
                bits.skip(k),
                op_spelling(ops.last(), ops.len() + 1int),
            ) && tree.contains_key(start + bits.take(k)) && tree[start + bits.take(k)] != UNVISITED
                && built_from_visited(tree, start, bits.take(k), ops.drop_last())
    }
}

/// Runs `ops` on the inputs `src` and `dst` and returns what the last op
/// (or, for no ops, `dst`) computes.
pub fn run_program<const N: usize>(ops: &Vec<Op>, src: &Batch<u32, N>, dst: &Batch<u32, N>) -> (r:
    Batch<u32, N>)
    requires
        program_valid(ops@),
        ops@.len() + 2 <= usize::MAX,
    ensures
        r@ == prediction(ops@, src@, dst@, N as nat),
{
    let mut op_data: Vec<Batch<u32, N>> = Vec::new();
    op_data.push(*src);
    op_data.push(*dst);
    let mut k: usize = 0;
    proof {
        assert(ops@.take(0) =~= Seq::<Op>::empty());
        assert(views(op_data@) =~= seq![src@, dst@]);
    }
    while k < ops.len()
        invariant
            k <= ops.len(),
            ops@.len() + 2 <= usize::MAX,
            program_valid(ops@),
            op_data@.len() == k + 2,
            views(op_data@) == run(ops@.take(k as int), src@, dst@, N as nat),
        decreases ops.len() - k,
    {
        let mut out = Batch::splat(0);
        let op = ops[k];
        assert(op.operands_below(k + 2));
        op.evaluate(&mut out, op_data.as_slice());
        let ghost before = op_data@;
        op_data.push(out);
        proof {
            let taken = ops@.take(k + 1);
            assert(taken.drop_last() =~= ops@.take(k as int));
            assert(taken.last() == op);
            assert(views(op_data@) =~= views(before).push(out@));
        }
        k = k + 1;
    }
    proof {
        assert(ops@.take(k as int) =~= ops@);
    }
    op_data[op_data.len() - 1]
}

/// Pairs of input batches, each with the batch that the target function
/// gives for it.
pub struct Corpus<const N: usize> {
    pub srcs: Vec<Batch<u32, N>>,
    pub dsts: Vec<Batch<u32, N>>,
    pub truths: Vec<Batch<u32, N>>,
}

impl<const N: usize> Corpus<N> {
    /// The three lists match, and the largest loss fits in a `u64`.
    pub open spec fn wf(&self) -> bool {
        &&& self.srcs@.len() == self.dsts@.len()
        &&& self.srcs@.len() == self.truths@.len()
        &&& self.srcs@.len() * N * 1020 <= u64::MAX
    }

    /// The loss of `ops` summed over the first `m` pairs.
    pub open spec fn loss_upto(&self, ops: Seq<Op>, m: nat) -> nat
        decreases m,
    {
        if m == 0 {
            0
        } else {
            let i = m - 1;
            self.loss_upto(ops, (m - 1) as nat) + batch_loss(
                self.truths@[i]@,
                prediction(ops, self.srcs@[i]@, self.dsts@[i]@, N as nat),
            )
        }
    }

    /// The loss of `ops` over the whole corpus.
    pub open spec fn loss_of(&self, ops: Seq<Op>) -> nat {
        self.loss_upto(ops, self.srcs@.len())
    }

    /// A corpus of the three lists, where they match and the largest loss
    /// fits in a `u64`.
    pub fn new(srcs: Vec<Batch<u32, N>>, dsts: Vec<Batch<u32, N>>, truths: Vec<Batch<u32, N>>) -> (r:
        Option<Self>)
        ensures
            r is Some <==> (srcs@.len() == dsts@.len() && srcs@.len() == truths@.len()
                && srcs@.len() * N * 1020 <= u64::MAX),
            r is Some ==> r->0.srcs == srcs && r->0.dsts == dsts && r->0.truths == truths,
    {
        if srcs.len() != dsts.len() || srcs.len() != truths.len() {
            return None;
        }
        proof {
            assert(srcs@.len() * N <= 0xffff_ffff_ffff_ffffu128 * 0xffff_ffff_ffff_ffffu128) by (nonlinear_arith)
                requires
                    srcs@.len() <= 0xffff_ffff_ffff_ffffu128,
                    N <= 0xffff_ffff_ffff_ffffu128,
            ;
        }
        let lanes = srcs.len() as u128 * N as u128;
        let cap: u128 = 0xffff_ffff_ffff_ffff / 1020;
        proof {
            assert((lanes <= cap) <==> (lanes * 1020 <= u64::MAX)) by (nonlinear_arith)
                requires
                    cap == 0xffff_ffff_ffff_ffffu128 / 1020,
            ;
        }
        if lanes <= cap {
            Some(Corpus { srcs, dsts, truths })
        } else {
            None
        }
    }

    /// The loss of `ops` over the corpus: the distance between each
    /// target batch and what `ops` computes from its pair, summed.
    pub fn corpus_loss(&self, ops: &Vec<Op>) -> (r: u64)
        requires
            self.wf(),
            program_valid(ops@),
            ops@.len() + 2 <= usize::MAX,
        ensures
            r == self.loss_of(ops@),
    {
        let mut loss: u64 = 0;
        let mut i: usize = 0;
        while i < self.srcs.len()
            invariant
                self.wf(),
                program_valid(ops@),
                ops@.len() + 2 <= usize::MAX,
                i <= self.srcs@.len(),
                loss == self.loss_upto(ops@, i as nat),
                loss <= i * N * 1020,
            decreases self.srcs@.len() - i,
        {
            proof {
                assert(N * 1020 <= self.srcs@.len() * N * 1020) by (nonlinear_arith)
                    requires
                        i < self.srcs@.len(),
                ;
                assert((i + 1) * N * 1020 <= self.srcs@.len() * N * 1020) by (nonlinear_arith)
                    requires
                        i < self.srcs@.len(),
                ;
                assert((i + 1) * N * 1020 == i * N * 1020 + N * 1020) by (nonlinear_arith);
            }
            let predicted = run_program(ops, &self.srcs[i], &self.dsts[i]);
            loss = loss + total_loss(&self.truths[i], &predicted);
            i = i + 1;
        }
        loss
    }
}

/// Builds a program out of decisions: while there are fewer than
/// `max_ops` ops and the current node of the decider has seen a finished
/// trial, one more op is decided; the program ends at the first node that
/// has not.
pub fn decide_program(decider: &mut TreeDecider, max_ops: usize) -> (r: Vec<Op>)
    requires
        old(decider).wf(),
        max_ops + 2 <= usize::MAX,
    ensures
        only_decided(*old(decider), *final(decider)),
        program_valid(r@),
        r@.len() <= max_ops,
        built_from_visited(
            old(decider).tree(),
            old(decider).path(),
            final(decider).path().skip(old(decider).path().len() as int),
            r@,
        ),
        r@.len() < max_ops ==> final(decider).tree()[final(decider).path()] == UNVISITED,
{
    let ghost start = *decider;
    let ghost base = decider.path().len() as int;
    let mut ops: Vec<Op> = Vec::new();
    proof {
        lemma_only_decided_refl(start);
        assert(decider.path().skip(base) =~= Seq::<bool>::empty());
    }
    while ops.len() < max_ops && !decider.is_fresh()
        invariant
            start.wf(),
            base == start.path().len(),
            max_ops + 2 <= usize::MAX,
            only_decided(start, *decider),
            program_valid(ops@),
            ops@.len() <= max_ops,
            built_from_visited(start.tree(), start.path(), decider.path().skip(base), ops@),
        decreases max_ops - ops@.len(),
    {
        let ghost before = *decider;
        let ghost before_ops = ops@;
        let op = Op::decide_additional(decider, ops.len() + 2);
        ops.push(op);
        proof {
            let done = before.path().skip(base);
            let bits = decider.path().skip(base);
            let k = done.len() as int;
            lemma_only_decided_trans(start, before, *decider);
            assert(before.path() =~= start.path() + done);
            assert(before.path() =~= decider.path().take(before.path().len() as int));
            assert(bits.take(k) =~= done);
            assert(bits.skip(k) =~= decider.path().skip(before.path().len() as int));
            assert(start.tree().contains_key(before.path()));
            assert(ops@.drop_last() =~= before_ops);
            assert(ops@.last() == op);
            assert(spells(bits.skip(k), op_spelling(ops@.last(), ops@.len() + 1int)));
            assert(built_from_visited(start.tree(), start.path(), bits, ops@));
            assert forall|j: int| 0 <= j < ops@.len() implies #[trigger] ops@[j].operands_below(
                j + 2,
            ) by {
                if j < before_ops.len() {
                    assert(ops@[j] == before_ops[j]);
                }
            }
        }
    }
    ops
}

/// The state of the search between trials.
pub struct Search {
    pub decider: TreeDecider,
    /// The least loss of any trial so far ([`UNVISITED`] before the first).
    pub best_loss: u64,
    /// The most ops that a program may have.
    pub max_ops: usize,
}

/// What one trial of the search produced.
pub struct Trial {
    pub ops: Vec<Op>,
    pub loss: u64,
    /// Whether `loss` is below every earlier trial's.
    pub improved: bool,
}

impl Search {
    /// Between trials: the decider stands at the root.
    pub open spec fn wf(&self) -> bool {
        &&& self.decider.wf()
        &&& self.decider.path() == Seq::<bool>::empty()
        &&& self.max_ops + 2 <= usize::MAX
    }

    /// A search with an empty decision tree that draws from `rng`, for
    /// programs of at most `max_ops` ops.
    pub fn new(rng: StdRng, max_ops: usize) -> (r: Self)
        requires
            max_ops + 2 <= usize::MAX,
        ensures
            r.wf(),
            r.best_loss == UNVISITED,
            r.max_ops == max_ops,
            r.decider.tree() == map![Seq::<bool>::empty() => UNVISITED],
    {
        Search { decider: TreeDecider::new(rng), best_loss: UNVISITED, max_ops }
    }

    /// One trial: builds a program out of decisions, scores it on
    /// `corpus`, keeps its loss if it is the best so far, and reports the
    /// loss to the decider along the path that built the program.
    pub fn step<const N: usize>(&mut self, corpus: &Corpus<N>) -> (r: Trial)
        requires
            old(self).wf(),
            corpus.wf(),
        ensures
            final(self).wf(),
            final(self).max_ops == old(self).max_ops,
            program_valid(r.ops@),
            r.ops@.len() <= old(self).max_ops,
            r.loss == corpus.loss_of(r.ops@),
            r.improved == (r.loss < old(self).best_loss),
            final(self).best_loss == (if r.improved {
                r.loss
            } else {
                old(self).best_loss
            }),
            exists|path: Seq<bool>|
                built_from_visited(old(self).decider.tree(), Seq::<bool>::empty(), path, r.ops@)
                    && #[trigger] final(self).decider.tree() == restarted(
                    walked(old(self).decider.tree(), Seq::<bool>::empty(), path),
                    path,
                    r.loss,
                ) && (r.ops@.len() < old(self).max_ops ==> walked(
                    old(self).decider.tree(),
                    Seq::<bool>::empty(),
                    path,
                )[path] == UNVISITED),
    {
        let ghost start = self.decider;
        let ops = decide_program(&mut self.decider, self.max_ops);
        let loss = corpus.corpus_loss(&ops);
        let improved = loss < self.best_loss;
        if improved {
            self.best_loss = loss;
        }
        let ghost path = self.decider.path();
        let ghost grown = self.decider.tree();
        self.decider.restart(loss);
        proof {
            assert(path.skip(0) =~= path);
            assert(self.decider.tree() == restarted(walked(start.tree(), Seq::<bool>::empty(), path), path, loss));
        }
        Trial { ops, loss, improved }
    }
}

} // verus!
