//! Caches of the results of operations on diagrams.

pub mod all_app;
pub mod lru_app;
pub mod sdd_apply_cache;
