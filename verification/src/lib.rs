//! Library behind a `head`-like command-line tool: it resolves raw
//! command-line values into a validated configuration and computes the text
//! that the tool prints for each configured source (file or standard input).
//!
//! All decisions live here and are verified; the thin binary around this
//! library only performs the actual reading and writing of streams.

pub mod config;
pub mod lines;
pub mod render;
