//! A stochastic simulation engine: the Gillespie direct method over a
//! registry of competing processes.
//!
//! A [`Reactor`] holds processes under ids that are never reused, a step
//! counter and a seeded random source. Each [`Reactor::step`] evaluates the
//! rate of every process under the caller's state, draws which process fires
//! next with a probability proportional to its rate, and lets that process
//! act on the state.
//!
//! Rates are whole numbers: a system picks the unit of rate in which all its
//! rates are integers. Which process fires depends on the ratios of the rates
//! alone, and every comparison that the selection makes is exact. The time
//! that a step takes is a logarithm, which the engine leaves to its caller:
//! an [`Outcome`] reports the uniform variate `u` and the total rate that the
//! waiting time `-ln(u) / total_rate` is made of.

pub mod example;
pub mod laws;
pub mod order;
pub mod process;
pub mod random;
pub mod reactor;
pub mod seed;
pub mod selection;
pub mod sums;
pub mod systems;

pub use crate::process::Process;
pub use crate::reactor::{Model, Outcome, Reactor};
