//! Core of an overlay-filesystem review tool: a flattened directory tree with
//! change classification, cascading selection, collapse-aware visibility,
//! incremental reconciliation of filesystem change events, and a fail-closed
//! apply engine. All filesystem and terminal work lives outside this crate;
//! the library works on plain values handed in by its caller.
pub mod path;
pub mod types;
pub mod file_operations;
pub mod tree;
pub mod commit;
pub mod session;
pub mod diff;
