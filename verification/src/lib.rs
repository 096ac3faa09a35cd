//! Bounded-concurrency task execution engine.
//!
//! An ordered list of shell commands is run against a fixed concurrency
//! budget; each task's output is captured in a pair of sink files named by
//! the task's zero-padded ordinal, and the run ends with the set of failed
//! ordinals and a derived process exit code.
//!
//! The engine itself is a verified state machine: a host harness performs
//! the actual spawning, waiting and file creation, and reports each event
//! back to the engine, which decides, records and aggregates.

pub mod engine;
pub mod naming;
