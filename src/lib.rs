pub mod bytes;
pub mod error;
pub mod field;
pub mod fri;
pub mod group;
pub mod merkle;
pub mod poly;
pub mod prover;
pub mod random;
