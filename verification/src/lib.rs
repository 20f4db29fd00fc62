//! Workspace model for a text-editor shell: a navigable directory tree with
//! per-node expansion state, and an embedded command session with its own
//! tracked working directory and transcript.
//!
//! Filesystem enumeration, path canonicalization, process spawning and
//! rendering are collaborators that live outside this crate; the model here
//! works on plain values (path components, names, command lines) handed in
//! by those collaborators.

pub mod config;
pub mod order;
pub mod shell;
pub mod tree;
