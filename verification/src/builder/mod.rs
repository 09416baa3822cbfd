//! Builders of decision diagrams, and what they share.

pub mod bdd_builder;
pub mod bdd_laws;
pub mod cache;
pub mod canonicalize;
pub mod decision_nnf;
pub mod sdd_builder;
pub mod sdd_laws;
pub mod topdown;
