//! Rolling statistics over a ladder of nested windows.
//!
//! An aggregator takes in values one batch after another and answers, for each
//! window of a geometric ladder, with the smallest, the largest and the newest
//! value of the window and with the number of values it holds. Window `k` of a
//! ladder over radix `R` spans the `R^k` most recent values.
//!
//! Values are 64-bit integers. A caller that aggregates other samples hands in
//! a key for each sample, chosen so that keys order as the samples do, and keeps
//! whatever arithmetic it does on the samples on its own side.
//!
//! - `keys`: sign-and-magnitude bit patterns as ordered keys.
//! - `ladder`: the window sizes and whether a ladder fits the machine.
//! - `ring`: where a logical index lands in the ring of recent values.
//! - `window`: what a monotone deque must hold to answer window queries.
//! - `queue_model`: the content of the shared deque and what each operation
//!   does to it.
//! - `shared_monotonic_queue`: the deque that serves every window of a ladder.
//! - `monotonic_queue`: the deque for a single window.
//! - `symbol_aggregator`: the aggregator itself.
//! - `moments`: what holds of the exact sums of a window next to its extremes.
//! - `api`, `error`: the checks on a request and the failures they give.

pub mod api;
pub mod error;
pub mod keys;
pub mod ladder;
pub mod moments;
pub mod monotonic_queue;
pub mod queue_model;
pub mod ring;
pub mod shared_monotonic_queue;
pub mod symbol_aggregator;
pub mod window;
