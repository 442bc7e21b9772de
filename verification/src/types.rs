//! The operation types of the store: checks, mutations, enqueues, atomic
//! writes, read ranges and their results.

use vstd::prelude::*;

use crate::values::{Value, ValueModel};

verus! {

/// An optimistic-concurrency check: the key must currently carry exactly
/// this versionstamp (`None` meaning: the key must be absent).
#[derive(Clone, Debug)]
pub struct KvCheck {
    pub key: Vec<u8>,
    pub versionstamp: Option<Vec<u8>>,
}

/// The model of a check.
pub struct CheckModel {
    pub key: Seq<u8>,
    pub versionstamp: Option<Seq<u8>>,
}

impl View for KvCheck {
    type V = CheckModel;

    open spec fn view(&self) -> CheckModel {
        CheckModel {
            key: self.key@,
            versionstamp: match &self.versionstamp {
                Some(v) => Some(v@),
                None => None,
            },
        }
    }
}

/// What a mutation does to its key.
#[derive(Clone, Debug)]
pub enum MutationKind {
    /// Store the value.
    Put(Value),
    /// Remove the row.
    Delete,
    /// Add the integer operand to the stored integer, wrapping.
    Sum(Value),
    /// Keep the smaller of the stored integer and the operand.
    Min(Value),
    /// Keep the larger of the stored integer and the operand.
    Max(Value),
}

/// The model of a mutation kind.
pub enum MutationKindModel {
    Put(ValueModel),
    Delete,
    Sum(ValueModel),
    Min(ValueModel),
    Max(ValueModel),
}

impl View for MutationKind {
    type V = MutationKindModel;

    open spec fn view(&self) -> MutationKindModel {
        match self {
            MutationKind::Put(v) => MutationKindModel::Put(v@),
            MutationKind::Delete => MutationKindModel::Delete,
            MutationKind::Sum(v) => MutationKindModel::Sum(v@),
            MutationKind::Min(v) => MutationKindModel::Min(v@),
            MutationKind::Max(v) => MutationKindModel::Max(v@),
        }
    }
}

impl MutationKind {
    /// The value carried by the mutation, if any.
    pub fn value(&self) -> (r: Option<&Value>)
        ensures
            (match r {
                Some(v) => spec_mutation_value(self@) == Some(v@),
                None => spec_mutation_value(self@) is None,
            }),
    {
        match self {
            MutationKind::Put(v) => Some(v),
            MutationKind::Sum(v) => Some(v),
            MutationKind::Min(v) => Some(v),
            MutationKind::Max(v) => Some(v),
            MutationKind::Delete => None,
        }
    }
}

/// The value carried by a mutation kind, if any.
pub open spec fn spec_mutation_value(k: MutationKindModel) -> Option<ValueModel> {
    match k {
        MutationKindModel::Put(v) => Some(v),
        MutationKindModel::Sum(v) => Some(v),
        MutationKindModel::Min(v) => Some(v),
        MutationKindModel::Max(v) => Some(v),
        MutationKindModel::Delete => None,
    }
}

/// One keyed mutation of an atomic write.  `expire_at` is the absolute
/// wall-clock expiration in milliseconds, if the row is to expire.
#[derive(Clone, Debug)]
pub struct KvMutation {
    pub key: Vec<u8>,
    pub kind: MutationKind,
    pub expire_at: Option<u64>,
}

/// The model of a mutation.
pub struct MutationModel {
    pub key: Seq<u8>,
    pub kind: MutationKindModel,
    pub expire_at: Option<u64>,
}

impl View for KvMutation {
    type V = MutationModel;

    open spec fn view(&self) -> MutationModel {
        MutationModel { key: self.key@, kind: self.kind@, expire_at: self.expire_at }
    }
}

/// One message to append to the delivery queue within an atomic write.
#[derive(Clone, Debug)]
pub struct Enqueue {
    pub payload: Vec<u8>,
    pub delay_ms: u64,
    pub keys_if_undelivered: Vec<Vec<u8>>,
    pub backoff_schedule: Option<Vec<u64>>,
}

/// The model of an enqueue.
pub struct EnqueueModel {
    pub payload: Seq<u8>,
    pub delay_ms: u64,
    pub keys_if_undelivered: Seq<Seq<u8>>,
    pub backoff_schedule: Option<Seq<u64>>,
}

impl View for Enqueue {
    type V = EnqueueModel;

    open spec fn view(&self) -> EnqueueModel {
        EnqueueModel {
            payload: self.payload@,
            delay_ms: self.delay_ms,
            keys_if_undelivered: Seq::new(
                self.keys_if_undelivered@.len(),
                |i: int| self.keys_if_undelivered@[i]@,
            ),
            backoff_schedule: match &self.backoff_schedule {
                Some(b) => Some(b@),
                None => None,
            },
        }
    }
}

/// The absolute expiration of a mutation declared with a relative delay:
/// the wall-clock reading plus the delay, saturating at the top of the
/// clock's range.
pub fn expire_at_from_relative(now_ms: u64, expire_in_ms: Option<u64>) -> (r: Option<u64>)
    ensures
        r == (match expire_in_ms {
            Some(d) => Some(now_ms.saturating_add(d)),
            None => None::<u64>,
        }),
{
    match expire_in_ms {
        Some(d) => Some(now_ms.saturating_add(d)),
        None => None,
    }
}

/// An atomic write: checks, then mutations, then enqueues, all or nothing.
#[derive(Clone, Debug)]
pub struct AtomicWrite {
    pub checks: Vec<KvCheck>,
    pub mutations: Vec<KvMutation>,
    pub enqueues: Vec<Enqueue>,
}

/// The model of an atomic write.
pub struct WriteModel {
    pub checks: Seq<CheckModel>,
    pub mutations: Seq<MutationModel>,
    pub enqueues: Seq<EnqueueModel>,
}

impl View for AtomicWrite {
    type V = WriteModel;

    open spec fn view(&self) -> WriteModel {
        WriteModel {
            checks: Seq::new(self.checks@.len(), |i: int| self.checks@[i]@),
            mutations: Seq::new(self.mutations@.len(), |i: int| self.mutations@[i]@),
            enqueues: Seq::new(self.enqueues@.len(), |i: int| self.enqueues@[i]@),
        }
    }
}

/// What a committed atomic write reports back: the versionstamp its effects
/// carry.
#[derive(Clone, Debug)]
pub struct CommitResult {
    /// Ten bytes: the big-endian version and two reserved zero bytes.
    pub versionstamp: Vec<u8>,
}

/// One row as a snapshot read returns it.
#[derive(Clone, Debug)]
pub struct KvEntry {
    pub key: Vec<u8>,
    pub value: Value,
    pub versionstamp: Vec<u8>,
}

/// The model of a returned row.
pub struct EntryModel {
    pub key: Seq<u8>,
    pub value: ValueModel,
    pub versionstamp: Seq<u8>,
}

impl View for KvEntry {
    type V = EntryModel;

    open spec fn view(&self) -> EntryModel {
        EntryModel { key: self.key@, value: self.value@, versionstamp: self.versionstamp@ }
    }
}

/// One materialized range of a snapshot read.
#[derive(Clone, Debug)]
pub struct ReadRange {
    pub start: Vec<u8>,
    pub end: Vec<u8>,
    pub limit: u32,
    pub reverse: bool,
}

/// The model of a read range.
pub struct ReadRangeModel {
    pub start: Seq<u8>,
    pub end: Seq<u8>,
    pub limit: u32,
    pub reverse: bool,
}

impl View for ReadRange {
    type V = ReadRangeModel;

    open spec fn view(&self) -> ReadRangeModel {
        ReadRangeModel {
            start: self.start@,
            end: self.end@,
            limit: self.limit,
            reverse: self.reverse,
        }
    }
}

/// The entries one range of a snapshot read produced.
#[derive(Clone, Debug)]
pub struct ReadRangeOutput {
    pub entries: Vec<KvEntry>,
}

/// The consistency level a caller asked for.  The embedded store always
/// reads its single copy; the level is informational here.
#[derive(Clone, Copy, Debug, PartialEq, Eq, Structural)]
pub enum Consistency {
    Strong,
    Eventual,
}

/// Options of a snapshot read.
#[derive(Clone, Copy, Debug)]
pub struct SnapshotReadOptions {
    pub consistency: Consistency,
}

} // verus!
