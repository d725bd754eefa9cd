//! Guided random search for short straight-line programs over 32-bit words.
//!
//! A [`decider::TreeDecider`] turns a random stream into biased binary
//! decisions, remembering for every decision path the lowest loss that any
//! trial through it produced. The sampler in [`op`] builds programs out of
//! those decisions, the evaluator runs them lane-wise over [`batch::Batch`]es,
//! and [`search`] scores them against target batches and feeds the loss back.
pub mod batch;
pub mod decide;
pub mod decider;
pub mod ground_truth;
pub mod immediate_shift;
pub mod op;
pub mod random;
pub mod search;
