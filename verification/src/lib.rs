//! Scans a tree of files — a local directory or an object-store listing — and
//! reports every item whose size meets a configured threshold, excluding items
//! matched by ignore rules (path-segment patterns and file extensions).
//!
//! Paths are handled as UTF-8 bytes with forward-slash separators; the engine
//! itself does no I/O: a caller enumerates the tree and hands the entries in.

pub mod bytes;
pub mod config;
pub mod engine;
pub mod matcher;
pub mod rules;
