//! Verified core of a fenced-code-block formatter.
//!
//! The library scans a document for fenced code blocks, batches the blocks of
//! each recognized language into one buffer, splits a formatter's combined
//! output back into per-block fragments, and reassembles the document with the
//! formatted fragments spliced into their original byte ranges.  Everything
//! outside the block ranges is reproduced byte for byte.

pub mod bytes;
pub mod code_blocks;
pub mod config;
pub mod format;
