//! Arithmetic that the builders share.

pub mod finitefield;
