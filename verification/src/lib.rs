//! Project-wide source index for a language server over a dynamically typed
//! scripting language: tracks the authoritative content and version of every
//! source file, keeps a best-effort syntax tree per file fresh under edits,
//! derives a cross-file symbol index, and answers position-addressed queries
//! (hover, completion, go-to-definition) against a consistent snapshot.

pub mod bytes;
pub mod laws;
pub mod query;
pub mod store;
pub mod symbols;
pub mod syntax;
pub mod workspace;
