//! The remote variant's decision logic: endpoint selection, wire encoding of
//! mutations and values, status interpretation, metadata refresh scheduling
//! and retry backoff.
//!
//! The HTTP transport itself lives outside the library; what stands here is
//! everything the remote client decides or computes from plain values.

use vstd::prelude::*;
use vstd::string::StringExecFns;

use crate::errors::KvError;
use crate::types::{CommitResult, KvMutation, MutationKindModel};
use crate::values::{Value, ValueModel};

verus! {

/// One endpoint of the remote service, as its metadata lists it.
pub struct EndpointInfo {
    pub url: String,
    /// Kept as free text so that new consistency levels do not break
    /// parsing.
    pub consistency: String,
}

/// Picks the first endpoint offering strong consistency, where the write
/// and read calls must go.
pub fn choose_strong_endpoint(endpoints: &Vec<EndpointInfo>) -> (r: Option<&EndpointInfo>)
    ensures
        (match r {
            Some(e) => exists|i: int|
                0 <= i < endpoints@.len() && (#[trigger] endpoints@[i]).consistency@ == e.consistency@
                    && e.consistency@ == "strong"@,
            None => forall|i: int|
                0 <= i < endpoints@.len() ==> (#[trigger] endpoints@[i]).consistency@ != "strong"@,
        }),
{
    let target = String::from_str("strong");
    let mut i: usize = 0;
    while i < endpoints.len()
        invariant
            i <= endpoints@.len(),
            target@ == "strong"@,
            forall|j: int| 0 <= j < i ==> (#[trigger] endpoints@[j]).consistency@ != "strong"@,
        decreases endpoints@.len() - i,
    {
        if endpoints[i].consistency == target {
            return Some(&endpoints[i]);
        }
        i = i + 1;
    }
    None
}

/// The queue-message handle of the remote variant.  Queue consumption is
/// not supported remotely; both operations refuse.
pub struct DummyQueueMessageHandle {}

impl DummyQueueMessageHandle {
    /// Remote queues hand out no payloads.
    pub fn take_payload(&mut self) -> (r: Result<Vec<u8>, KvError>)
        ensures
            r is Err,
    {
        Err(KvError::Unspecified)
    }

    /// Remote queues have nothing to finish.
    pub fn finish(&self, success: bool) -> (r: Result<(), KvError>)
        ensures
            r is Err,
    {
        let _ = success;
        Err(KvError::Unspecified)
    }
}

/// The wire encoding tag of an unspecified value.
pub const VE_UNSPECIFIED: i32 = 0;

/// The wire encoding tag of serialized script data.
pub const VE_V8: i32 = 1;

/// The wire encoding tag of a little-endian 64-bit integer.
pub const VE_LE64: i32 = 2;

/// The wire encoding tag of raw bytes.
pub const VE_BYTES: i32 = 3;

/// A value as the wire carries it: payload bytes and an encoding tag.
pub struct KvValue {
    pub data: Vec<u8>,
    pub encoding: i32,
}

/// The wire bytes of a value.
pub open spec fn spec_wire_value_bytes(v: ValueModel) -> Seq<u8> {
    match v {
        ValueModel::V8(b) => b,
        ValueModel::Bytes(b) => b,
        ValueModel::U64(x) => vstd::bytes::spec_u64_to_le_bytes(x),
    }
}

/// The wire tag of a value.
pub open spec fn spec_wire_value_tag(v: ValueModel) -> i32 {
    match v {
        ValueModel::V8(_) => VE_V8,
        ValueModel::Bytes(_) => VE_BYTES,
        ValueModel::U64(_) => VE_LE64,
    }
}

/// Encodes a value for the wire.
pub fn encode_value(value: Value) -> (r: KvValue)
    ensures
        r.data@ == spec_wire_value_bytes(value@),
        r.encoding == spec_wire_value_tag(value@),
{
    match value {
        Value::V8(data) => KvValue { data, encoding: VE_V8 },
        Value::Bytes(data) => KvValue { data, encoding: VE_BYTES },
        Value::U64(x) => KvValue { data: vstd::bytes::u64_to_le_bytes(x), encoding: VE_LE64 },
    }
}

/// Decodes a value from the wire.  An unspecified tag, an unknown tag, or
/// an integer payload of the wrong width is rejected.
pub fn decode_value(value: Vec<u8>, encoding: i32) -> (r: Result<Value, KvError>)
    ensures
        encoding == VE_V8 ==> (r matches Ok(v) && v@ == ValueModel::V8(value@)),
        encoding == VE_BYTES ==> (r matches Ok(v) && v@ == ValueModel::Bytes(value@)),
        encoding == VE_LE64 && value@.len() == 8 ==> (r matches Ok(v) && v@ == ValueModel::U64(
            vstd::bytes::spec_u64_from_le_bytes(value@),
        )),
        encoding == VE_LE64 && value@.len() != 8 ==> r == Err::<Value, KvError>(
            KvError::InvalidValueEncoding,
        ),
        encoding != VE_V8 && encoding != VE_BYTES && encoding != VE_LE64 ==> r == Err::<
            Value,
            KvError,
        >(KvError::InvalidValueEncoding),
{
    if encoding == VE_V8 {
        Ok(Value::V8(value))
    } else if encoding == VE_BYTES {
        Ok(Value::Bytes(value))
    } else if encoding == VE_LE64 {
        if value.len() == 8 {
            Ok(Value::U64(vstd::bytes::u64_from_le_bytes(value.as_slice())))
        } else {
            Err(KvError::InvalidValueEncoding)
        }
    } else {
        Err(KvError::InvalidValueEncoding)
    }
}

/// The wire code of an unspecified mutation.
pub const M_UNSPECIFIED: i32 = 0;

/// The wire code of a plain store.
pub const M_SET: i32 = 1;

/// The wire code of a removal.
pub const M_CLEAR: i32 = 2;

/// The wire code of a wrapping sum.
pub const M_SUM: i32 = 3;

/// The wire code of a maximum.
pub const M_MAX: i32 = 4;

/// The wire code of a minimum.
pub const M_MIN: i32 = 5;

/// A mutation as the wire carries it.
pub struct WireMutation {
    pub key: Vec<u8>,
    pub value: Option<KvValue>,
    pub mutation_type: i32,
    pub expire_at_ms: i64,
}

/// The wire code of a mutation kind.
pub open spec fn spec_mutation_code(k: MutationKindModel) -> i32 {
    match k {
        MutationKindModel::Put(_) => M_SET,
        MutationKindModel::Delete => M_CLEAR,
        MutationKindModel::Sum(_) => M_SUM,
        MutationKindModel::Min(_) => M_MIN,
        MutationKindModel::Max(_) => M_MAX,
    }
}

/// The wire expiration of a mutation: the absolute time where one fits the
/// signed field, zero otherwise.
pub open spec fn spec_wire_expire(expire_at: Option<u64>) -> i64 {
    match expire_at {
        Some(x) => if x <= (i64::MAX as u64) {
            x as i64
        } else {
            0
        },
        None => 0,
    }
}

/// Encodes one mutation for the wire.  A removal carries an empty byte
/// value, as the wire format demands a value field.
pub fn encode_mutation(m: KvMutation) -> (r: WireMutation)
    ensures
        r.key@ == m@.key,
        r.mutation_type == spec_mutation_code(m@.kind),
        r.expire_at_ms == spec_wire_expire(m@.expire_at),
        (match crate::types::spec_mutation_value(m@.kind) {
            Some(v) => r.value matches Some(w) && w.data@ == spec_wire_value_bytes(v) && w.encoding
                == spec_wire_value_tag(v),
            None => r.value matches Some(w) && w.data@.len() == 0 && w.encoding == VE_BYTES,
        }),
{
    let expire_at_ms: i64 = match m.expire_at {
        Some(x) => {
            if x <= (i64::MAX as u64) {
                x as i64
            } else {
                0
            }
        }
        None => 0,
    };
    let key = m.key;
    match m.kind {
        crate::types::MutationKind::Put(v) => WireMutation {
            key,
            value: Some(encode_value(v)),
            mutation_type: M_SET,
            expire_at_ms,
        },
        crate::types::MutationKind::Delete => WireMutation {
            key,
            value: Some(encode_value(Value::Bytes(Vec::new()))),
            mutation_type: M_CLEAR,
            expire_at_ms,
        },
        crate::types::MutationKind::Sum(v) => WireMutation {
            key,
            value: Some(encode_value(v)),
            mutation_type: M_SUM,
            expire_at_ms,
        },
        crate::types::MutationKind::Min(v) => WireMutation {
            key,
            value: Some(encode_value(v)),
            mutation_type: M_MIN,
            expire_at_ms,
        },
        crate::types::MutationKind::Max(v) => WireMutation {
            key,
            value: Some(encode_value(v)),
            mutation_type: M_MAX,
            expire_at_ms,
        },
    }
}

/// The statuses an atomic write can come back with from the service.
#[derive(Clone, Copy, Debug, PartialEq, Eq, Structural)]
pub enum AtomicWriteStatus {
    AwUnspecified,
    AwSuccess,
    AwCheckFailure,
    AwUsageLimitExceeded,
    AwWriteDisabled,
    AwUnsupportedWrite,
    AwQueueBacklogLimitExceeded,
}

/// Reads a status from its wire code; unknown codes read as unspecified.
pub fn status_from_code(code: i32) -> (r: AtomicWriteStatus)
    ensures
        code == 1 ==> r == AtomicWriteStatus::AwSuccess,
        code == 2 ==> r == AtomicWriteStatus::AwCheckFailure,
        code == 3 ==> r == AtomicWriteStatus::AwUsageLimitExceeded,
        code == 4 ==> r == AtomicWriteStatus::AwWriteDisabled,
        code == 5 ==> r == AtomicWriteStatus::AwUnsupportedWrite,
        code == 6 ==> r == AtomicWriteStatus::AwQueueBacklogLimitExceeded,
        code != 1 && code != 2 && code != 3 && code != 4 && code != 5 && code != 6 ==> r
            == AtomicWriteStatus::AwUnspecified,
{
    if code == 1 {
        AtomicWriteStatus::AwSuccess
    } else if code == 2 {
        AtomicWriteStatus::AwCheckFailure
    } else if code == 3 {
        AtomicWriteStatus::AwUsageLimitExceeded
    } else if code == 4 {
        AtomicWriteStatus::AwWriteDisabled
    } else if code == 5 {
        AtomicWriteStatus::AwUnsupportedWrite
    } else if code == 6 {
        AtomicWriteStatus::AwQueueBacklogLimitExceeded
    } else {
        AtomicWriteStatus::AwUnspecified
    }
}

/// The remote service accepts no queued messages yet: a write that carries
/// enqueues is refused before anything goes on the wire.
pub fn check_remote_write_supported(write: &crate::types::AtomicWrite) -> (r: Result<(), KvError>)
    ensures
        r is Ok <==> write@.enqueues.len() == 0,
        r matches Err(e) ==> e == KvError::UnsupportedWrite,
{
    if write.enqueues.len() > 0 {
        Err(KvError::UnsupportedWrite)
    } else {
        Ok(())
    }
}

/// Turns a service status into the operation's outcome: success carries the
/// response versionstamp -- an empty one standing for ten zero bytes, any
/// other length being malformed -- a failed check reports no commit, and
/// every other status is its typed error.
pub fn interpret_atomic_write_status(status: AtomicWriteStatus, versionstamp: Vec<u8>) -> (r:
    Result<Option<CommitResult>, KvError>)
    ensures
        status == AtomicWriteStatus::AwSuccess && versionstamp@.len() == 0 ==> (r matches Ok(o)
            && o matches Some(c) && c.versionstamp@ == Seq::new(10, |i: int| 0u8)),
        status == AtomicWriteStatus::AwSuccess && versionstamp@.len() == 10 ==> (r matches Ok(o)
            && o matches Some(c) && c.versionstamp@ == versionstamp@),
        status == AtomicWriteStatus::AwSuccess && versionstamp@.len() != 0 && versionstamp@.len()
            != 10 ==> r == Err::<Option<CommitResult>, KvError>(KvError::InvalidVersionstamp),
        status == AtomicWriteStatus::AwCheckFailure ==> (r matches Ok(o) && o is None),
        status == AtomicWriteStatus::AwUnsupportedWrite ==> r == Err::<
            Option<CommitResult>,
            KvError,
        >(KvError::UnsupportedWrite),
        status == AtomicWriteStatus::AwUsageLimitExceeded ==> r == Err::<
            Option<CommitResult>,
            KvError,
        >(KvError::UsageLimitExceeded),
        status == AtomicWriteStatus::AwWriteDisabled ==> r == Err::<Option<CommitResult>, KvError>(
            KvError::WriteDisabled,
        ),
        status == AtomicWriteStatus::AwQueueBacklogLimitExceeded ==> r == Err::<
            Option<CommitResult>,
            KvError,
        >(KvError::QueueBacklogLimitExceeded),
        status == AtomicWriteStatus::AwUnspecified ==> r == Err::<Option<CommitResult>, KvError>(
            KvError::Unspecified,
        ),
{
    match status {
        AtomicWriteStatus::AwSuccess => {
            if versionstamp.len() == 0 {
                let mut zeroes: Vec<u8> = Vec::new();
                let mut i: usize = 0;
                while i < 10
                    invariant
                        i <= 10,
                        zeroes@.len() == i,
                        forall|j: int| 0 <= j < i ==> zeroes@[j] == 0u8,
                    decreases 10 - i,
                {
                    zeroes.push(0u8);
                    i = i + 1;
                }
                proof {
                    assert(zeroes@ =~= Seq::new(10, |i: int| 0u8));
                }
                Ok(Some(CommitResult { versionstamp: zeroes }))
            } else if versionstamp.len() == 10 {
                Ok(Some(CommitResult { versionstamp }))
            } else {
                Err(KvError::InvalidVersionstamp)
            }
        }
        AtomicWriteStatus::AwCheckFailure => Ok(None),
        AtomicWriteStatus::AwUnsupportedWrite => Err(KvError::UnsupportedWrite),
        AtomicWriteStatus::AwUsageLimitExceeded => Err(KvError::UsageLimitExceeded),
        AtomicWriteStatus::AwWriteDisabled => Err(KvError::WriteDisabled),
        AtomicWriteStatus::AwQueueBacklogLimitExceeded => Err(KvError::QueueBacklogLimitExceeded),
        AtomicWriteStatus::AwUnspecified => Err(KvError::Unspecified),
    }
}

/// The deterministic part of the retry backoff: the base delay plus two
/// raised past the capped attempt count, saturating.
pub open spec fn spec_backoff_delay(base_ms: u64, attempt: u64) -> u64 {
    let capped: u64 = if attempt < 12 {
        attempt
    } else {
        12
    };
    base_ms.saturating_add((2u64 << capped) as u64)
}

/// Computes the backoff delay before a retry: the deterministic part plus
/// the caller's jitter, drawn at most half the deterministic part.
pub fn randomized_backoff_ms(base_ms: u64, attempt: u64, jitter: u64) -> (r: u64)
    requires
        jitter <= spec_backoff_delay(base_ms, attempt) / 2,
    ensures
        r == spec_backoff_delay(base_ms, attempt).saturating_add(jitter),
{
    let capped: u64 = if attempt < 12 {
        attempt
    } else {
        12
    };
    let delay = base_ms.saturating_add(2u64 << capped);
    delay.saturating_add(jitter)
}

/// When to refresh the service metadata next: ten minutes before it
/// expires, but never more than once a minute.
pub fn metadata_refresh_interval_ms(ms_until_expire: u64) -> (r: u64)
    ensures
        r == (if ms_until_expire >= 600000 + 60000 {
            (ms_until_expire - 600000) as u64
        } else {
            60000u64
        }),
{
    let after_margin = if ms_until_expire >= 600000 {
        ms_until_expire - 600000
    } else {
        0
    };
    if after_margin < 60000 {
        60000
    } else {
        after_margin
    }
}

} // verus!
