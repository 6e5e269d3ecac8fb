pub mod field;
pub mod monomial;
pub mod multilinear;
pub mod sumcheck;
pub mod transcript;
