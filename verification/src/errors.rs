//! The error taxonomy of the store.
//!
//! Validation errors are surfaced before any state changes; the
//! closed-database error is the sentinel observed by every operation after
//! `close`.

use vstd::prelude::*;

verus! {

/// Everything a store operation can fail with.
#[derive(Clone, Copy, Debug, PartialEq, Eq, Structural)]
pub enum KvError {
    /// A snapshot read named more than the allowed number of ranges.
    TooManyRanges,
    /// The limits of a snapshot read add up to more than the allowed total.
    TooManyEntries,
    /// A range was given a limit of zero.
    LimitIsZero,
    /// An atomic write carried more than the allowed number of checks.
    TooManyChecks,
    /// An atomic write carried more mutations and enqueues than allowed.
    TooManyMutations,
    /// A key exceeded the read-key size cap.
    KeyTooLargeForRead,
    /// A key exceeded the write-key size cap.
    KeyTooLargeForWrite,
    /// A value exceeded the value size cap.
    ValueTooLarge,
    /// An enqueue payload exceeded the payload size cap.
    PayloadTooLarge,
    /// The keys, values and payloads of an atomic write add up to more than
    /// the total payload cap.
    TotalPayloadTooLarge,
    /// The keys of an atomic write add up to more than the total key cap.
    TotalKeyTooLarge,
    /// A check or mutation named the empty key.
    EmptyKey,
    /// A range selector combined prefix, start and end in a way that selects
    /// nothing well-defined.
    InvalidRange,
    /// A cursor string was not a valid cursor token.
    InvalidCursor,
    /// A resumed range would fall outside the declared bounds.
    CursorOutOfBounds,
    /// A boundary key handed to cursor encoding did not carry the selector's
    /// common prefix.
    InvalidBoundaryKey,
    /// A versionstamp string was not twenty hex digits.
    InvalidVersionstamp,
    /// A byte string handed in as an encoded key does not decode to one.
    MalformedKey,
    /// A sum, min or max mutation carried a non-integer operand.
    NonU64Operand,
    /// A sum, min or max mutation met a stored value that is not an integer.
    NonU64Value,
    /// A stored row carried an unknown value encoding.
    InvalidValueEncoding,
    /// The operation was attempted after `close`.
    ClosedDatabase,
    /// A freshly drawn message id collided with one already queued.
    IdCollision,
    /// The monotonic version counter cannot be incremented further.
    VersionOverflow,
    /// No endpoint with strong consistency is available.
    NoStrongEndpoint,
    /// The remote service rejected the write as unsupported.
    UnsupportedWrite,
    /// The remote service reported its usage limit exceeded.
    UsageLimitExceeded,
    /// The remote service has writes disabled.
    WriteDisabled,
    /// The remote service reported its queue backlog limit exceeded.
    QueueBacklogLimitExceeded,
    /// The remote service reported an unspecified failure.
    Unspecified,
}

impl KvError {
    /// A fixed human-readable description of the error.
    pub fn message(&self) -> &'static str {
        match self {
            KvError::TooManyRanges => "too many ranges",
            KvError::TooManyEntries => "too many entries",
            KvError::LimitIsZero => "limit must be greater than 0",
            KvError::TooManyChecks => "too many checks",
            KvError::TooManyMutations => "too many mutations",
            KvError::KeyTooLargeForRead => "key too large for read",
            KvError::KeyTooLargeForWrite => "key too large for write",
            KvError::ValueTooLarge => "value too large",
            KvError::PayloadTooLarge => "enqueue payload too large",
            KvError::TotalPayloadTooLarge => "total mutation size too large",
            KvError::TotalKeyTooLarge => "total key size too large",
            KvError::EmptyKey => "key cannot be empty",
            KvError::InvalidRange => "invalid range",
            KvError::InvalidCursor => "invalid cursor",
            KvError::CursorOutOfBounds => "cursor out of bounds",
            KvError::InvalidBoundaryKey => "invalid boundary key",
            KvError::InvalidVersionstamp => "invalid versionstamp",
            KvError::MalformedKey => "malformed key",
            KvError::NonU64Operand => "operand is not a u64 value",
            KvError::NonU64Value => "stored value is not a u64 value",
            KvError::InvalidValueEncoding => "unknown value encoding",
            KvError::ClosedDatabase => "attempted to use a closed database",
            KvError::IdCollision => "message id collision",
            KvError::VersionOverflow => "version counter exhausted",
            KvError::NoStrongEndpoint => "no strong consistency endpoint is available",
            KvError::UnsupportedWrite => "unsupported write",
            KvError::UsageLimitExceeded => "the database usage limit has been exceeded",
            KvError::WriteDisabled => "writes are disabled for this database",
            KvError::QueueBacklogLimitExceeded => "queue backlog limit exceeded",
            KvError::Unspecified => "unspecified error",
        }
    }
}

} // verus!
