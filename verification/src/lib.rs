//! Sum-check, GKR layer reduction, and a logup-style lookup argument over a
//! small prime field.
pub mod field;
pub mod frac;
pub mod circuit;
pub mod gkr;
pub mod mle;
pub mod poly;
pub mod rng;
pub mod sumcheck;
