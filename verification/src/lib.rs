//! Knowledge compilation for Boolean functions.
//!
//! Formulas in conjunctive normal form are read, evaluated, counted and
//! conditioned (`repr::cnf`, `repr::wmc`, `repr::dimacs`), units are
//! propagated over them with watched literals (`repr::unit_prop`), and they
//! are compiled into reduced ordered binary decision diagrams, bottom-up or
//! top-down (`builder::bdd_builder`, `builder::topdown`), and into
//! sentential decision diagrams along a variable tree
//! (`builder::sdd_builder`, `repr::vtree`). The nodes of all diagrams are
//! interned in unique tables (`backing_store`), by what they are made of or
//! by a semantic hash (`builder::decision_nnf`, `builder::canonicalize`).
//!
//! Every function is verified against its contract. The laws that tie the
//! operations together are proof functions: canonicity of diagrams
//! (`repr::robdd`, `repr::sdd_canonical`), the laws of the operations on
//! them (`builder::bdd_laws`, `builder::sdd_laws`), agreement of the model
//! counts (`repr::bdd_wmc`, `repr::sdd_wmc`), what a semantic hash is
//! (`repr::semantic_hash`), what unit propagation yields
//! (`repr::propagation`), and what conditioning keeps (`repr::cofactor`).

pub mod backing_store;
pub mod builder;
pub mod repr;
pub mod util;
