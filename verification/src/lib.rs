pub mod circuit;
pub mod field;
pub mod gkr;
pub mod mle;
pub mod prover;
pub mod random;
pub mod sumcheck;
pub mod verfier;
pub mod virtual_poly;
