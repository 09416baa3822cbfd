//! Builders of decision-DNNF diagrams.

pub mod semantic;
