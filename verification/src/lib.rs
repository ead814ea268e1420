//! Sticky-session dispatch for a fixed pool of inference workers.
//!
//! `pool` holds the dispatcher's bookkeeping and `model` its mathematical
//! model; `laws` proves what holds of it over many calls. `worker` holds
//! what a worker decides, `outcome` how a call ends, `envelope` the
//! messages, `engine` the capability a worker drives and two plain
//! engines, `clock` the pool's clock and `cli` the command line.

pub mod cli;
pub mod clock;
pub mod engine;
pub mod envelope;
pub mod laws;
pub mod model;
pub mod outcome;
pub mod pool;
pub mod worker;
