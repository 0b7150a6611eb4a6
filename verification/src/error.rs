//! What can be wrong with a line, a file or a merge.

use vstd::prelude::*;

verus! {

/// One of the three header lines of a store file.
#[derive(Debug, Clone, Copy, PartialEq, Eq)]
pub enum HeaderField {
    /// The first line: the oldest timestamp in the body.
    StartTimestamp,
    /// The second line: the newest timestamp in the body.
    EndTimestamp,
    /// The third line: the number of records in the body.
    RecordCount,
}

/// The three families that every error belongs to.
#[derive(Debug, Clone, Copy, PartialEq, Eq)]
pub enum ErrorKind {
    /// A line or a header field does not follow the grammar.
    ParseError,
    /// The content follows the grammar but breaks a rule of the format.
    FormatInvariantViolation,
    /// A sequence handed to the merge was not ordered.
    MergeOrderError,
}

/// Why a text could not be decoded, encoded or merged.
#[derive(Debug, Clone, Copy, PartialEq, Eq)]
pub enum LogError {
    /// A line that should hold a record is empty.
    EmptyLine,
    /// The timestamp of a record is missing, is not a decimal number, or
    /// does not fit in 64 bits.
    BadTimestamp,
    /// The bytes of a line are not UTF-8.
    InvalidEncoding,
    /// A header line is missing or is not a decimal 64-bit number.
    BadHeader { field: HeaderField },
    /// There is no record at all.
    EmptyBody,
    /// A record is newer than the record before it.
    OutOfOrder { previous: u64, timestamp: u64 },
    /// A header line says something other than what the body holds.
    HeaderMismatch { field: HeaderField, declared: u64, actual: u64 },
    /// The header's newest timestamp is older than its oldest.
    EndBeforeStart { start: u64, end: u64 },
    /// While merging, `timestamp` came after an older one.
    MergeOrder { timestamp: u64 },
}

/// Why a write was refused, and whose fault it is.
#[derive(Debug, Clone, Copy, PartialEq, Eq)]
pub enum WriteError {
    /// The records that were sent are malformed; nothing was changed.
    BadRequest(LogError),
    /// The file that is in the store is malformed; nothing was changed.
    CorruptStore(LogError),
}

impl LogError {
    /// The family of this error.
    pub open spec fn spec_kind(self) -> ErrorKind {
        match self {
            LogError::EmptyLine => ErrorKind::ParseError,
            LogError::BadTimestamp => ErrorKind::ParseError,
            LogError::InvalidEncoding => ErrorKind::ParseError,
            LogError::BadHeader { .. } => ErrorKind::ParseError,
            LogError::EmptyBody => ErrorKind::FormatInvariantViolation,
            LogError::OutOfOrder { .. } => ErrorKind::FormatInvariantViolation,
            LogError::HeaderMismatch { .. } => ErrorKind::FormatInvariantViolation,
            LogError::EndBeforeStart { .. } => ErrorKind::FormatInvariantViolation,
            LogError::MergeOrder { .. } => ErrorKind::MergeOrderError,
        }
    }

    /// The family of this error.
    #[verifier::when_used_as_spec(spec_kind)]
    pub fn kind(self) -> (kind: ErrorKind)
        ensures
            kind == self.spec_kind(),
    {
        match self {
            LogError::EmptyLine => ErrorKind::ParseError,
            LogError::BadTimestamp => ErrorKind::ParseError,
            LogError::InvalidEncoding => ErrorKind::ParseError,
            LogError::BadHeader { .. } => ErrorKind::ParseError,
            LogError::EmptyBody => ErrorKind::FormatInvariantViolation,
            LogError::OutOfOrder { .. } => ErrorKind::FormatInvariantViolation,
            LogError::HeaderMismatch { .. } => ErrorKind::FormatInvariantViolation,
            LogError::EndBeforeStart { .. } => ErrorKind::FormatInvariantViolation,
            LogError::MergeOrder { .. } => ErrorKind::MergeOrderError,
        }
    }
}

} // verus!
