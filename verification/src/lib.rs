//! A single-hart instruction-set simulator for evaluating branch-prediction
//! strategies: a small RISC-V-like instruction set, a fetch-execute loop, and
//! a family of predictor strategies scored per branch site.

pub mod ast;
pub mod machine;
pub mod predictor;
pub mod sim;
