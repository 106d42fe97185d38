//! Round-trip latency benchmark over a ring of workers.
//!
//! The crate holds the ring protocol itself: the benchmark parameters and
//! their textual forms, the worker state machine, the two-phase ring
//! builder, and a cooperative scheduler that drives a ring to completion.
//! Every function carries a contract that Verus proves.

pub mod text;
pub mod bench;
pub mod worker;
pub mod ring;
pub mod clock;
pub mod scheduler;
