//! A grid-based snake simulation: a fixed rectangular board whose cells
//! carry the whole game state, advanced one discrete tick at a time.

pub mod cell;
mod rng;
pub mod world;
