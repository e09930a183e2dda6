//! Exact minimum-weight Steiner tree computation (Dreyfus–Wagner dynamic
//! programming) as a resumable engine: the algorithm advances one bounded
//! work unit per call and can be suspended and resumed between work units
//! without affecting the final outcome.

pub mod error;
pub mod model;
pub mod subsets;
pub mod state;
pub mod engine;
pub mod laws;
