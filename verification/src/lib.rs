//! Live command previewer core.
//!
//! A user edits a line of shell-style arguments; on every edit the current
//! line is tokenized into an argument vector and handed to an execution
//! loop, which re-runs a fixed base command with those arguments appended
//! whenever the vector differs from the one it last acted on, and renders
//! the captured output as one contiguous block of lines.
//!
//! This crate holds the verified core: argument parsing and prompt
//! construction, the edit-event watcher decision, the deduplicating
//! execution step, and the output renderer. The surrounding process —
//! terminal handling, the channel between the two threads, and child
//! process spawning — lives outside and drives these functions.

pub mod command;
pub mod model;
pub mod render;
pub mod runner;
pub mod watcher;
