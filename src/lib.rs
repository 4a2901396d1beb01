//! Random selections from the command line: coin flips, weighted choices,
//! shuffles, die rolls, random numbers and strings, random assignments.
pub mod cli;
pub mod error;
pub mod policy;
pub mod present;
pub mod rng;
pub mod sample;
pub mod text;
pub mod weights;
