//! Repository property graph: data model, schema handling, semantic lifting and
//! incremental evolution, with machine-checked contracts.

pub mod coherence;
pub mod config;
pub mod evolution;
pub mod graph;
pub mod grounding;
pub mod helpers;
pub mod hierarchy;
pub mod invariants;
pub mod lifting_laws;
pub mod modules;
pub mod numbers;
pub mod parser;
pub mod rename_laws;
pub mod schema;
pub mod semantic_lifting;
pub mod strmap;
pub mod structure;
pub mod text;
