//! Deterministic simulation harness.
//!
//! All deliveries and clock wakeups flow through one event queue keyed
//! `(virtual_time, sequence)`. What [`net::SimNetEndpoint`] sends is
//! classified against a per-directed-link [`net::FaultPlan`] (drop, delay,
//! reorder, partition, all seeded), and queued. The [`runner::SimRunner`]
//! pops entries in queue order and steps the destination engine.
//!
//! The same scenario with the same seed produces the same
//! [`trace::TraceEntry`] sequence; a failing run is reproducible from its
//! seed alone.

pub mod clock;
pub mod net;
pub mod rng;
pub mod runner;
pub mod state;
pub mod trace;
