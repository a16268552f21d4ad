//! A directory scanner that finds media files by extension, tallies them per
//! extension and plans their copies into per-extension folders.
//!
//! The crate performs no input or output. Its scanner is a state machine: the
//! caller performs each request it issues and hands back what happened.

pub mod extension;
pub mod metrics;
pub mod config;
pub mod scanner;
pub mod tree;
pub mod report;
