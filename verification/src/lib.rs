//! A discrete-event scheduler with time quantization and tie-coalescing.
//!
//! Events are batches of coordinate rows tagged with an integer time key.
//! Popping delivers every pending event of the smallest key as one batch.
//!
//! - `model`: the pending events as a multiset, and the notions that the
//!   contracts are phrased in.
//! - `heap`: the min-heap that stores the events.
//! - `scheduler`: the scheduler itself, with its count of distinct keys.
//! - `lanes`: the scan for the lanes that still have pending rows.
//! - `laws`: what holds of pushes and pops in every state.

pub mod heap;
pub mod lanes;
pub mod laws;
pub mod model;
pub mod scheduler;

pub use heap::EventHeap;
pub use model::{Row, TimeKey};
pub use scheduler::{Scheduler, DEFAULT_PRECISION};
