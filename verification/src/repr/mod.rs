//! Representations: variables, literals, partial models, CNF formulas,
//! variable orders and trees, and the nodes of diagrams with what they
//! denote.

pub mod arbitrary;
pub mod assignment_iter;
pub mod bdd;
pub mod bdd_wmc;
pub mod clause;
pub mod cnf;
pub mod cnf_text;
pub mod cofactor;
pub mod dimacs;
pub mod force;
pub mod model;
pub mod propagation;
pub mod random;
pub mod robdd;
pub mod sdd;
pub mod sdd_canonical;
pub mod sdd_product;
pub mod sdd_semantics;
pub mod sdd_wmc;
pub mod semantic_hash;
pub mod unit_prop;
pub mod var_label;
pub mod var_order;
pub mod vtree;
pub mod wmc;
