//! Example systems built on the reactor.

pub mod constant;
pub mod diffusion;
pub mod dimer;
