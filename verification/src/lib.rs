//! Sundial: the exact, float-free core of a linear-programming solver.
//!
//! - [`mps`]: the MPS text format, parsed into a model that keeps every
//!   number as the literal that spells it;
//! - [`csr`]: compressed sparse row matrices and their transpose;
//! - [`transport`]: optimal-transport instances on square grids;
//! - [`matching`]: candidate cabs and the residual graph of the matching
//!   recovery;
//! - [`report`]: the benchmark CSV and its markdown report;
//! - [`gpu`]: dispatch geometry and error kinds of the GPU engine;
//! - [`problem`]: solver outcomes;
//! - [`text`]: character-level helpers.
pub mod gpu;
pub mod csr;
pub mod problem;
pub mod transport;
pub mod matching;
pub mod report;
pub mod text;
pub mod mps;
