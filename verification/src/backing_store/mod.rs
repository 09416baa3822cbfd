//! Tables that intern the nodes of decision diagrams.

pub mod bump_table;
pub mod hasher;
