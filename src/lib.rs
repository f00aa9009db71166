//! Monte Carlo estimate of how many sweeps a forest fire lasts on a square
//! lattice, as a function of the probability that a site holds a tree.

pub mod burning;
pub mod experiment;
pub mod lattice;
mod random;

pub use experiment::{
    estimate_point, run_experiment, run_trial, total_sweeps, ConfigError, PointEstimate,
};
pub use lattice::{Lattice, LatticePoint, SweepResult};
