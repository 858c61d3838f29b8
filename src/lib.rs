//! A small log-structured key-value store: append-only segments of
//! `key,value` lines, a per-segment offset index, size-triggered rotation of
//! the active segment and compaction of the sealed ones.
use vstd::prelude::*;

pub mod codec;
pub mod table;
pub mod log;
pub mod segment;
pub mod naming;
pub mod store;
pub mod properties;
pub mod command;

verus! {

/// Failures of the store's operations.
#[derive(Debug, Clone, Copy, PartialEq, Eq, Structural)]
pub enum StoreError {
    /// The key holds the separator or a line break.
    InvalidKey,
    /// The value holds a line break.
    InvalidValue,
    /// Segment bytes that do not split into `key,value` lines.
    Corruption,
    /// An index offset that does not lead to a record of the expected key.
    IndexCorruption,
    /// A stored value that is not UTF-8 text.
    Encoding,
    /// A segment file name that carries no sequence number.
    InvalidFileName,
    /// No sequence number is left for a new segment file.
    SequenceExhausted,
}

} // verus!
