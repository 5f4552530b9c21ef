//! Splitting one byte stream into size-bounded chunks and merging chunks back
//! into one stream.
//!
//! The crate performs no I/O. Each operation is an engine that is told what
//! happened and answers with what to do next; the caller owns the streams and
//! carries the actions out. For inputs that are already in memory,
//! [`split_file`] and [`merge_files`] drive the engines to the end.

pub mod error;
pub mod merger;
pub mod names;
pub mod plan;
pub mod splitter;

pub use crate::error::Error;
pub use crate::merger::merge_files;
pub use crate::splitter::split_file;
