//! Verified core of a `tree`-style directory listing renderer.
//!
//! Given an in-memory snapshot of a directory subtree, the library filters
//! and orders each directory's children, maintains the incremental connector
//! (prefix) state machine that draws the classic tree graphics, and produces
//! one row per rendered entry together with a running tally of directories
//! and files.  All input/output (command-line handling, filesystem listing,
//! printing) lives outside the library and hands it plain values.
#![verifier::loop_isolation(false)]

pub mod envir;
pub mod print;
pub mod strutil;
pub mod utils;
pub mod wtree;
