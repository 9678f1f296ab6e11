//! A deterministic discrete-event simulator that estimates end-to-end latency
//! for a stream of requests processed by a fixed-size pool of workers.
//!
//! Requests carry an arrival time and a processing duration, both in integer
//! milliseconds of virtual time. The engine replays dispatch-to-worker
//! assignment over a virtual clock and reports aggregate statistics: the time
//! the last request was sent, the time the last request finished processing,
//! and the worst-case queueing latency.

pub mod latency;
pub mod load_requests;
pub mod model;
pub mod simulator;
pub mod types;
