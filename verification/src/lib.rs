//! A stack machine over the prime field of order `2^31 - 1`, with the trace
//! matrix of its executions and the polynomial identities that a proving
//! backend checks on that matrix.
pub mod field;
pub mod prover;
pub mod soundness;
pub mod utils;
pub mod vm;
