//! Error taxonomy of the storage engine.

use vstd::prelude::*;

verus! {

/// Error raised by compaction and de-compaction.
#[derive(Debug, Clone, PartialEq, Eq, Structural)]
pub enum CompactionErr {
    /// The stream's trailing compaction tag differs from the expected one:
    /// `(expected, found)`.
    CompactionTypeDontMatch(u8, u8),
}

/// Error raised by the write-ahead log.
#[derive(Debug, Clone)]
pub enum WalErr {
    /// An invariant of the log was violated.
    InternalError(String),
    /// The backing bytes are corrupt or incomplete.
    FileIoErr(String),
    /// A per-entry checksum did not match.
    CrcMismatch,
}

/// Error of the storage engine.
#[derive(Debug, Clone)]
pub enum MonolithErr {
    /// An I/O or backend failure, with its message.
    IoError(String),
    /// An invalid configuration combination.
    OptionErr,
    /// A value could not be parsed.
    ParseErr,
    /// The requested item does not exist.
    NotFoundErr,
    /// Out of the target range; the two fields show the target range.
    OutOfRangeErr(u64, u64),
    /// An internal invariant was violated.
    InternalErr(String),
    /// Error from the compaction codec.
    CompactionErr(CompactionErr),
    /// Error from the write-ahead log.
    WalErr(WalErr),
}

impl MonolithErr {
    /// A short description of the error, usable where the error is printed.
    pub fn message(&self) -> String {
        match self {
            MonolithErr::IoError(msg) => msg.clone(),
            MonolithErr::OptionErr => String::from_str("invalid option combination"),
            MonolithErr::ParseErr => String::from_str("parse error"),
            MonolithErr::NotFoundErr => String::from_str("not found"),
            MonolithErr::OutOfRangeErr(_, _) => String::from_str("out of range"),
            MonolithErr::InternalErr(msg) => msg.clone(),
            MonolithErr::CompactionErr(_) => String::from_str("compaction error"),
            MonolithErr::WalErr(_) => String::from_str("write-ahead log error"),
        }
    }
}

} // verus!
