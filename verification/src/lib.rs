//! Static-analysis engine for account-oriented on-chain programs.
//!
//! The crate analyses a read-only snapshot of a program's typed
//! intermediate representation.  It provides a reusable directed-graph
//! and dominance engine, a whole-program call-graph builder, extraction
//! of account-context schemas and per-field mutability facts from the
//! snapshot, and a detector for the "duplicate mutable account"
//! access-control flaw.

pub mod anchor_info;
pub mod callgraph;
pub mod cfg;
pub mod checker;
pub mod directed_graph;
pub mod graph;
pub mod ir;
pub mod metadata;
pub mod text;
