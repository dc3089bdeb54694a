//! A genetic-programming engine that evolves short integer stack-machine
//! programs toward a dataset of input/output examples.
pub mod genetic;
pub mod individual;
pub mod instruction;
pub mod rng;
