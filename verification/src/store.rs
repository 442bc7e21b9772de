//! The storage engine's state and its operations.
//!
//! The state is the content of the persisted tables: the key-value rows in
//! ascending key order, the ready and running queue rows, the monotonic
//! data-version counter, the closed flag, and the count of outstanding
//! dispatch permits.  Every operation is a function of this state; the
//! durable backing and the asynchronous plumbing around it feed the state in
//! and mirror effects out.

use vstd::prelude::*;

use crate::byteseq::{bytes_eq_exec, bytes_lt, bytes_lt_exec, copy_bytes};
use crate::errors::KvError;
use crate::types::{KvEntry, ReadRange, ReadRangeOutput};
use crate::values::{
    decode_value, spec_decode_value, spec_valid_encoding, spec_versionstamp,
    version_to_versionstamp, ValueModel,
};

verus! {

/// The most messages that may be dispatched and not yet finished at once.
pub const DISPATCH_CONCURRENCY_LIMIT: u64 = 100;

/// One stored row: the encoded key, the encoded value with its tag, the
/// version of the commit that last wrote it, and its absolute expiration in
/// milliseconds (-1: none).
#[derive(Clone, Debug)]
pub struct KvRow {
    pub key: Vec<u8>,
    pub value: Vec<u8>,
    pub encoding: i64,
    pub version: i64,
    pub expiration_ms: i64,
}

/// The model of a stored row.
pub struct KvRowModel {
    pub key: Seq<u8>,
    pub value: Seq<u8>,
    pub encoding: i64,
    pub version: i64,
    pub expiration_ms: i64,
}

impl View for KvRow {
    type V = KvRowModel;

    open spec fn view(&self) -> KvRowModel {
        KvRowModel {
            key: self.key@,
            value: self.value@,
            encoding: self.encoding,
            version: self.version,
            expiration_ms: self.expiration_ms,
        }
    }
}

/// One ready queue row: deliverable from `ts` on.
#[derive(Clone, Debug)]
pub struct QueueRow {
    pub ts: u64,
    pub id: u128,
    pub data: Vec<u8>,
    pub backoff_schedule: Vec<u64>,
    pub keys_if_undelivered: Vec<Vec<u8>>,
}

/// The model of a ready queue row.
pub struct QueueRowModel {
    pub ts: u64,
    pub id: u128,
    pub data: Seq<u8>,
    pub backoff_schedule: Seq<u64>,
    pub keys_if_undelivered: Seq<Seq<u8>>,
}

impl View for QueueRow {
    type V = QueueRowModel;

    open spec fn view(&self) -> QueueRowModel {
        QueueRowModel {
            ts: self.ts,
            id: self.id,
            data: self.data@,
            backoff_schedule: self.backoff_schedule@,
            keys_if_undelivered: Seq::new(
                self.keys_if_undelivered@.len(),
                |i: int| self.keys_if_undelivered@[i]@,
            ),
        }
    }
}

/// One running queue row: handed to a consumer, awaiting its outcome.
#[derive(Clone, Debug)]
pub struct RunningRow {
    pub deadline: u64,
    pub id: u128,
    pub data: Vec<u8>,
    pub backoff_schedule: Vec<u64>,
    pub keys_if_undelivered: Vec<Vec<u8>>,
}

/// The model of a running queue row.
pub struct RunningRowModel {
    pub deadline: u64,
    pub id: u128,
    pub data: Seq<u8>,
    pub backoff_schedule: Seq<u64>,
    pub keys_if_undelivered: Seq<Seq<u8>>,
}

impl View for RunningRow {
    type V = RunningRowModel;

    open spec fn view(&self) -> RunningRowModel {
        RunningRowModel {
            deadline: self.deadline,
            id: self.id,
            data: self.data@,
            backoff_schedule: self.backoff_schedule@,
            keys_if_undelivered: Seq::new(
                self.keys_if_undelivered@.len(),
                |i: int| self.keys_if_undelivered@[i]@,
            ),
        }
    }
}

/// The engine state.  The fields are open so that a durable backing can
/// load and mirror the tables directly; every operation requires the state
/// invariant `store_wf`, which `new` establishes and every operation
/// preserves.
pub struct Store {
    pub kv: Vec<KvRow>,
    pub queue: Vec<QueueRow>,
    pub running: Vec<RunningRow>,
    pub version: i64,
    pub closed: bool,
    pub in_flight: u64,
}

/// The model of the engine state.
pub struct StoreModel {
    pub kv: Seq<KvRowModel>,
    pub queue: Seq<QueueRowModel>,
    pub running: Seq<RunningRowModel>,
    pub version: i64,
    pub closed: bool,
    pub in_flight: u64,
}

impl View for Store {
    type V = StoreModel;

    open spec fn view(&self) -> StoreModel {
        StoreModel {
            kv: Seq::new(self.kv@.len(), |i: int| self.kv@[i]@),
            queue: Seq::new(self.queue@.len(), |i: int| self.queue@[i]@),
            running: Seq::new(self.running@.len(), |i: int| self.running@[i]@),
            version: self.version,
            closed: self.closed,
            in_flight: self.in_flight,
        }
    }
}

/// Is a message id present in the ready or running table?
pub open spec fn id_in_queues(s: StoreModel, id: u128) -> bool {
    (exists|i: int| 0 <= i < s.queue.len() && #[trigger] s.queue[i].id == id) || (exists|i: int|
        0 <= i < s.running.len() && #[trigger] s.running[i].id == id)
}

/// The state invariant: rows strictly sorted by key (hence unique keys),
/// values well-formed, row versions within the counter, the ready table
/// sorted by delivery time, message ids unique across both queue tables, and
/// dispatch permits within the concurrency limit.
pub open spec fn store_wf(s: StoreModel) -> bool {
    &&& forall|i: int, j: int|
        0 <= i < j < s.kv.len() ==> bytes_lt(#[trigger] s.kv[i].key, #[trigger] s.kv[j].key)
    &&& forall|i: int|
        0 <= i < s.kv.len() ==> spec_valid_encoding(
            (#[trigger] s.kv[i]).value,
            s.kv[i].encoding,
        )
    &&& forall|i: int| 0 <= i < s.kv.len() ==> 0 <= (#[trigger] s.kv[i]).version <= s.version
    &&& forall|i: int| 0 <= i < s.kv.len() ==> (#[trigger] s.kv[i]).expiration_ms >= -1
    &&& 0 <= s.version
    &&& forall|i: int, j: int|
        0 <= i < j < s.queue.len() ==> (#[trigger] s.queue[i]).ts <= (#[trigger] s.queue[j]).ts
    &&& forall|i: int, j: int|
        0 <= i < j < s.queue.len() ==> (#[trigger] s.queue[i]).id != (#[trigger] s.queue[j]).id
    &&& forall|i: int, j: int|
        0 <= i < j < s.running.len() ==> (#[trigger] s.running[i]).id != (
        #[trigger] s.running[j]).id
    &&& forall|i: int, j: int|
        0 <= i < s.queue.len() && 0 <= j < s.running.len() ==> (#[trigger] s.queue[i]).id != (
        #[trigger] s.running[j]).id
    &&& s.in_flight <= DISPATCH_CONCURRENCY_LIMIT
}

impl Store {
    /// A fresh, empty, open store.
    pub fn new() -> (r: Store)
        ensures
            store_wf(r@),
            r@.kv.len() == 0,
            r@.queue.len() == 0,
            r@.running.len() == 0,
            r@.version == 0,
            !r@.closed,
            r@.in_flight == 0,
    {
        Store {
            kv: Vec::new(),
            queue: Vec::new(),
            running: Vec::new(),
            version: 0,
            closed: false,
            in_flight: 0,
        }
    }

    /// Marks the store closed.  Every later operation observes the
    /// closed-database error; the data itself is untouched.
    pub fn close(&mut self)
        ensures
            final(self)@ == (StoreModel { closed: true, ..old(self)@ }),
    {
        self.closed = true;
    }

    /// Takes one dispatch permit if one is free.  The count of outstanding
    /// permits never passes the concurrency limit.
    pub fn acquire_dispatch_permit(&mut self) -> (r: bool)
        requires
            store_wf(old(self)@),
        ensures
            store_wf(final(self)@),
            r <==> old(self)@.in_flight < DISPATCH_CONCURRENCY_LIMIT,
            r ==> final(self)@ == (StoreModel {
                in_flight: (old(self)@.in_flight + 1) as u64,
                ..old(self)@
            }),
            !r ==> final(self)@ == old(self)@,
            final(self)@.in_flight <= DISPATCH_CONCURRENCY_LIMIT,
    {
        if self.in_flight < DISPATCH_CONCURRENCY_LIMIT {
            self.in_flight = self.in_flight + 1;
            true
        } else {
            false
        }
    }

    /// Returns one dispatch permit.
    pub fn release_dispatch_permit(&mut self)
        requires
            store_wf(old(self)@),
        ensures
            store_wf(final(self)@),
            old(self)@.in_flight > 0 ==> final(self)@ == (StoreModel {
                in_flight: (old(self)@.in_flight - 1) as u64,
                ..old(self)@
            }),
            old(self)@.in_flight == 0 ==> final(self)@ == old(self)@,
    {
        if self.in_flight > 0 {
            self.in_flight = self.in_flight - 1;
        }
    }
}

/// THE DISPATCH BOUND LAW.  In every well-formed state the outstanding
/// dispatch permits, one per in-flight message handle, never exceed the
/// concurrency limit.
pub proof fn lemma_dispatch_concurrency_bound(s: StoreModel)
    requires
        store_wf(s),
    ensures
        s.in_flight <= DISPATCH_CONCURRENCY_LIMIT,
{
}

/// The row stored under a key, scanning front to back.
pub open spec fn kv_get(kv: Seq<KvRowModel>, key: Seq<u8>) -> Option<KvRowModel>
    decreases kv.len(),
{
    if kv.len() == 0 {
        None
    } else if kv[0].key == key {
        Some(kv[0])
    } else {
        kv_get(kv.drop_first(), key)
    }
}

/// Finds the index of the row under a key, if the key is stored.
pub fn find_row(kv: &Vec<KvRow>, key: &Vec<u8>) -> (r: Option<usize>)
    ensures
        (match r {
            Some(i) => i < kv@.len() && kv@[i as int]@.key == key@ && kv_get(
                Seq::new(kv@.len(), |j: int| kv@[j]@),
                key@,
            ) == Some(kv@[i as int]@),
            None => kv_get(Seq::new(kv@.len(), |j: int| kv@[j]@), key@) is None,
        }),
{
    let ghost model = Seq::new(kv@.len(), |j: int| kv@[j]@);
    let mut i: usize = 0;
    proof {
        assert(model.skip(0) =~= model);
    }
    while i < kv.len()
        invariant
            i <= kv@.len(),
            model == Seq::new(kv@.len(), |j: int| kv@[j]@),
            kv_get(model, key@) == kv_get(model.skip(i as int), key@),
        decreases kv@.len() - i,
    {
        proof {
            assert(model.skip(i as int)[0] == model[i as int]);
            assert(model.skip(i as int).drop_first() =~= model.skip(i + 1));
        }
        if bytes_eq_exec(&kv[i].key, key) {
            proof {
                assert(model[i as int].key =~= key@);
            }
            return Some(i);
        }
        proof {
            assert(model[i as int].key != key@) by {
                if model[i as int].key == key@ {
                    assert(model[i as int].key =~= key@);
                }
            }
        }
        i = i + 1;
    }
    proof {
        assert(model.skip(kv@.len() as int) =~= Seq::<KvRowModel>::empty());
    }
    None
}

/// The rows after storing `row`, replacing the row under the same key or
/// inserting in key order.
pub open spec fn kv_upsert(kv: Seq<KvRowModel>, row: KvRowModel) -> Seq<KvRowModel>
    decreases kv.len(),
{
    if kv.len() == 0 {
        seq![row]
    } else if bytes_lt(row.key, kv[0].key) {
        seq![row] + kv
    } else if row.key == kv[0].key {
        seq![row] + kv.drop_first()
    } else {
        seq![kv[0]] + kv_upsert(kv.drop_first(), row)
    }
}

/// The rows after removing the row under `key`, if any.
pub open spec fn kv_delete(kv: Seq<KvRowModel>, key: Seq<u8>) -> Seq<KvRowModel>
    decreases kv.len(),
{
    if kv.len() == 0 {
        Seq::empty()
    } else if kv[0].key == key {
        kv.drop_first()
    } else {
        seq![kv[0]] + kv_delete(kv.drop_first(), key)
    }
}

/// What `kv_upsert` stores: the new row under its key, everything else
/// untouched; sortedness and the other row facts are preserved.
pub proof fn lemma_kv_upsert(kv: Seq<KvRowModel>, row: KvRowModel, version: i64)
    requires
        forall|i: int, j: int|
            0 <= i < j < kv.len() ==> bytes_lt(#[trigger] kv[i].key, #[trigger] kv[j].key),
        forall|i: int| 0 <= i < kv.len() ==> 0 <= (#[trigger] kv[i]).version <= version,
        0 <= row.version <= version,
    ensures
        kv_get(kv_upsert(kv, row), row.key) == Some(row),
        forall|k: Seq<u8>| k != row.key ==> kv_get(kv_upsert(kv, row), k) == kv_get(kv, k),
        forall|i: int, j: int|
            0 <= i < j < kv_upsert(kv, row).len() ==> bytes_lt(
                #[trigger] kv_upsert(kv, row)[i].key,
                #[trigger] kv_upsert(kv, row)[j].key,
            ),
        forall|i: int|
            0 <= i < kv_upsert(kv, row).len() ==> 0 <= (#[trigger] kv_upsert(kv, row)[i]).version
                <= version,
        kv_upsert(kv, row).len() <= kv.len() + 1,
        forall|i: int|
            0 <= i < kv_upsert(kv, row).len() ==> ((#[trigger] kv_upsert(kv, row)[i]) == row
                || kv.contains(kv_upsert(kv, row)[i])),
    decreases kv.len(),
{
    reveal_with_fuel(kv_get, 3);
    reveal_with_fuel(kv_upsert, 3);
    let out = kv_upsert(kv, row);
    if kv.len() == 0 {
        assert(out =~= seq![row]);
        assert(out.drop_first() =~= Seq::<KvRowModel>::empty());
        assert(forall|i: int| 0 <= i < out.len() ==> out[i] == row);
    } else if bytes_lt(row.key, kv[0].key) {
        assert(out =~= seq![row] + kv);
        assert(out[0] == row);
        assert(out.drop_first() =~= kv);
        assert forall|k: Seq<u8>| k != row.key implies kv_get(out, k) == kv_get(kv, k) by {}
        assert forall|i: int, j: int| 0 <= i < j < out.len() implies bytes_lt(
            #[trigger] out[i].key,
            #[trigger] out[j].key,
        ) by {
            if i == 0 {
                if j == 1 {
                } else {
                    crate::byteseq::lemma_bytes_lt_trans(row.key, kv[0].key, kv[j - 1].key);
                }
            }
        }
        assert(forall|i: int| 0 < i < out.len() ==> out[i] == kv[i - 1]);
    } else if row.key == kv[0].key {
        assert(out =~= seq![row] + kv.drop_first());
        assert(out[0] == row);
        assert(out.drop_first() =~= kv.drop_first());
        assert forall|k: Seq<u8>| k != row.key implies kv_get(out, k) == kv_get(kv, k) by {}
        assert forall|i: int, j: int| 0 <= i < j < out.len() implies bytes_lt(
            #[trigger] out[i].key,
            #[trigger] out[j].key,
        ) by {
            if i == 0 {
                assert(out[j] == kv[j]);
                assert(bytes_lt(kv[0].key, kv[j].key));
            } else {
                assert(out[i] == kv[i] && out[j] == kv[j]);
            }
        }
        assert(forall|i: int| 0 < i < out.len() ==> out[i] == kv[i]);
    } else {
        // row.key > kv[0].key
        crate::byteseq::lemma_bytes_lt_total(row.key, kv[0].key);
        assert(bytes_lt(kv[0].key, row.key));
        let sub = kv_upsert(kv.drop_first(), row);
        lemma_kv_upsert(kv.drop_first(), row, version);
        assert(out =~= seq![kv[0]] + sub);
        assert(out[0] == kv[0]);
        assert(out.drop_first() =~= sub);
        assert(kv[0].key != row.key);
        assert(kv_get(out, row.key) == kv_get(sub, row.key));
        assert forall|k: Seq<u8>| k != row.key implies kv_get(out, k) == kv_get(kv, k) by {
            assert(kv_get(kv, k) == if kv[0].key == k {
                Some(kv[0])
            } else {
                kv_get(kv.drop_first(), k)
            });
        }
        assert forall|i: int, j: int| 0 <= i < j < out.len() implies bytes_lt(
            #[trigger] out[i].key,
            #[trigger] out[j].key,
        ) by {
            if i == 0 {
                assert(out[j] == sub[j - 1]);
                assert(sub[j - 1] == row || kv.drop_first().contains(sub[j - 1]));
                if sub[j - 1] == row {
                } else {
                    let w = choose|w: int|
                        0 <= w < kv.drop_first().len() && kv.drop_first()[w] == sub[j - 1];
                    assert(kv[w + 1] == sub[j - 1]);
                    assert(bytes_lt(kv[0].key, kv[w + 1].key));
                }
            }
        }
        assert forall|i: int| 0 <= i < out.len() implies ((#[trigger] out[i]) == row
            || kv.contains(out[i])) by {
            if i == 0 {
                assert(kv.contains(kv[0]));
            } else {
                assert(out[i] == sub[i - 1]);
                if sub[i - 1] == row {
                } else {
                    let w = choose|w: int|
                        0 <= w < kv.drop_first().len() && kv.drop_first()[w] == sub[i - 1];
                    assert(kv[w + 1] == sub[i - 1]);
                    assert(kv.contains(kv[w + 1]));
                }
            }
        }
    }
}

/// What `kv_delete` leaves: nothing under the key, everything else
/// untouched; sortedness and the other row facts are preserved.
pub proof fn lemma_kv_delete(kv: Seq<KvRowModel>, key: Seq<u8>)
    requires
        forall|i: int, j: int|
            0 <= i < j < kv.len() ==> bytes_lt(#[trigger] kv[i].key, #[trigger] kv[j].key),
    ensures
        kv_get(kv_delete(kv, key), key) is None,
        forall|k: Seq<u8>| k != key ==> kv_get(kv_delete(kv, key), k) == kv_get(kv, k),
        forall|i: int, j: int|
            0 <= i < j < kv_delete(kv, key).len() ==> bytes_lt(
                #[trigger] kv_delete(kv, key)[i].key,
                #[trigger] kv_delete(kv, key)[j].key,
            ),
        kv_delete(kv, key).len() <= kv.len(),
        forall|i: int|
            0 <= i < kv_delete(kv, key).len() ==> kv.contains(#[trigger] kv_delete(kv, key)[i]),
    decreases kv.len(),
{
    reveal_with_fuel(kv_get, 3);
    reveal_with_fuel(kv_delete, 3);
    let out = kv_delete(kv, key);
    if kv.len() == 0 {
    } else if kv[0].key == key {
        assert(out =~= kv.drop_first());
        assert forall|i: int| 0 <= i < out.len() implies kv.contains(#[trigger] out[i]) by {
            assert(out[i] == kv[i + 1]);
        }
        // No row beyond index 0 carries the key: their keys are strictly
        // above it.
        assert forall|i: int| 0 <= i < out.len() implies (#[trigger] out[i]).key != key by {
            assert(out[i] == kv[i + 1]);
            assert(bytes_lt(kv[0].key, kv[i + 1].key));
            if out[i].key == key {
                crate::byteseq::lemma_bytes_lt_irrefl(key);
            }
        }
        assert(kv_get(out, key) is None) by {
            lemma_kv_get_absent(out, key);
        }
        assert forall|k: Seq<u8>| k != key implies kv_get(out, k) == kv_get(kv, k) by {
            assert(kv_get(kv, k) == kv_get(kv.drop_first(), k));
        }
    } else {
        let sub = kv_delete(kv.drop_first(), key);
        lemma_kv_delete(kv.drop_first(), key);
        assert(out =~= seq![kv[0]] + sub);
        assert(out[0] == kv[0]);
        assert(out.drop_first() =~= sub);
        assert forall|k: Seq<u8>| k != key implies kv_get(out, k) == kv_get(kv, k) by {
            if out[0].key == k {
            } else {
                assert(kv_get(out, k) == kv_get(sub, k));
                assert(kv_get(kv, k) == kv_get(kv.drop_first(), k));
            }
        }
        assert forall|i: int, j: int| 0 <= i < j < out.len() implies bytes_lt(
            #[trigger] out[i].key,
            #[trigger] out[j].key,
        ) by {
            if i == 0 {
                assert(out[j] == sub[j - 1]);
                let w = choose|w: int|
                    0 <= w < kv.drop_first().len() && kv.drop_first()[w] == sub[j - 1];
                assert(kv[w + 1] == sub[j - 1]);
                assert(bytes_lt(kv[0].key, kv[w + 1].key));
            }
        }
        assert forall|i: int| 0 <= i < out.len() implies kv.contains(#[trigger] out[i]) by {
            if i == 0 {
                assert(kv.contains(kv[0]));
            } else {
                let w = choose|w: int|
                    0 <= w < kv.drop_first().len() && kv.drop_first()[w] == out[i];
                assert(kv[w + 1] == out[i]);
                assert(kv.contains(kv[w + 1]));
            }
        }
    }
}

/// A key strictly below every stored key is absent.
proof fn lemma_kv_get_absent(kv: Seq<KvRowModel>, key: Seq<u8>)
    requires
        forall|i: int| 0 <= i < kv.len() ==> (#[trigger] kv[i]).key != key,
    ensures
        kv_get(kv, key) is None,
    decreases kv.len(),
{
    if kv.len() > 0 {
        assert(kv[0].key != key);
        assert(forall|i: int|
            0 <= i < kv.drop_first().len() ==> (#[trigger] kv.drop_first()[i]).key != key);
        lemma_kv_get_absent(kv.drop_first(), key);
    }
}

/// `kv_get` only finds rows the table holds, under their own key.
pub proof fn lemma_kv_get_present(kv: Seq<KvRowModel>, key: Seq<u8>)
    ensures
        (match kv_get(kv, key) {
            Some(row) => row.key == key && kv.contains(row),
            None => forall|i: int| 0 <= i < kv.len() ==> (#[trigger] kv[i]).key != key,
        }),
    decreases kv.len(),
{
    if kv.len() > 0 {
        if kv[0].key == key {
            assert(kv.contains(kv[0]));
        } else {
            lemma_kv_get_present(kv.drop_first(), key);
            match kv_get(kv.drop_first(), key) {
                Some(row) => {
                    let w = choose|w: int|
                        0 <= w < kv.drop_first().len() && kv.drop_first()[w] == row;
                    assert(kv[w + 1] == row);
                    assert(kv.contains(kv[w + 1]));
                }
                None => {
                    assert forall|i: int| 0 <= i < kv.len() implies (#[trigger] kv[i]).key
                        != key by {
                        if i > 0 {
                            assert(kv.drop_first()[i - 1] == kv[i]);
                        }
                    }
                }
            }
        }
    }
}

/// The rows of the table inside the half-open byte range, in table order.
pub open spec fn spec_rows_in_range(kv: Seq<KvRowModel>, start: Seq<u8>, end: Seq<u8>) -> Seq<
    KvRowModel,
>
    decreases kv.len(),
{
    if kv.len() == 0 {
        Seq::empty()
    } else {
        let rest = spec_rows_in_range(kv.drop_first(), start, end);
        if crate::selector::in_range(kv[0].key, start, end) {
            seq![kv[0]] + rest
        } else {
            rest
        }
    }
}

/// What one range of a snapshot read returns: the rows inside the range, in
/// ascending or descending key order, truncated to the limit.
pub open spec fn spec_scan(
    kv: Seq<KvRowModel>,
    start: Seq<u8>,
    end: Seq<u8>,
    limit: int,
    reverse: bool,
) -> Seq<KvRowModel> {
    let rows = spec_rows_in_range(kv, start, end);
    let directed = if reverse {
        rows.reverse()
    } else {
        rows
    };
    if directed.len() <= limit {
        directed
    } else {
        directed.take(limit)
    }
}

/// The entry a stored row produces on a read.
pub open spec fn spec_row_entry(r: KvRowModel) -> crate::types::EntryModel {
    crate::types::EntryModel {
        key: r.key,
        value: spec_decode_value(r.value, r.encoding),
        versionstamp: spec_versionstamp(r.version),
    }
}

/// The model of a row table.
pub open spec fn kv_model(kv: Seq<KvRow>) -> Seq<KvRowModel> {
    Seq::new(kv.len(), |i: int| kv[i]@)
}

/// Are the rows strictly sorted by key?
pub open spec fn kv_sorted(kv: Seq<KvRowModel>) -> bool {
    forall|i: int, j: int|
        0 <= i < j < kv.len() ==> bytes_lt(#[trigger] kv[i].key, #[trigger] kv[j].key)
}

/// Storing a row at its position realizes `kv_upsert`.
proof fn lemma_kv_upsert_at(kv: Seq<KvRowModel>, row: KvRowModel, pos: int)
    requires
        forall|i: int, j: int|
            0 <= i < j < kv.len() ==> bytes_lt(#[trigger] kv[i].key, #[trigger] kv[j].key),
        0 <= pos <= kv.len(),
        forall|j: int| 0 <= j < pos ==> bytes_lt((#[trigger] kv[j]).key, row.key),
        pos < kv.len() ==> !bytes_lt(kv[pos].key, row.key),
    ensures
        pos < kv.len() && kv[pos].key == row.key ==> kv_upsert(kv, row) =~= kv.update(pos, row),
        !(pos < kv.len() && kv[pos].key == row.key) ==> kv_upsert(kv, row) =~= kv.take(pos)
            + seq![row] + kv.skip(pos),
    decreases kv.len(),
{
    reveal_with_fuel(kv_upsert, 2);
    if kv.len() == 0 {
        assert(kv.take(0) =~= Seq::<KvRowModel>::empty());
        assert(kv.skip(0) =~= Seq::<KvRowModel>::empty());
        assert(kv_upsert(kv, row) =~= seq![row]);
        assert(kv.take(pos) + seq![row] + kv.skip(pos) =~= seq![row]);
    } else if pos == 0 {
        if kv[0].key == row.key {
            assert(kv_upsert(kv, row) =~= seq![row] + kv.drop_first());
            assert(kv.update(0, row) =~= seq![row] + kv.drop_first());
        } else {
            crate::byteseq::lemma_bytes_lt_total(row.key, kv[0].key);
            assert(bytes_lt(row.key, kv[0].key));
            assert(kv_upsert(kv, row) =~= seq![row] + kv);
            assert(kv.take(0) + seq![row] + kv.skip(0) =~= seq![row] + kv);
        }
    } else {
        assert(bytes_lt(kv[0].key, row.key));
        assert(!bytes_lt(row.key, kv[0].key)) by {
            if bytes_lt(row.key, kv[0].key) {
                crate::byteseq::lemma_bytes_lt_trans(row.key, kv[0].key, row.key);
                crate::byteseq::lemma_bytes_lt_irrefl(row.key);
            }
        }
        assert(kv[0].key != row.key) by {
            if kv[0].key == row.key {
                crate::byteseq::lemma_bytes_lt_irrefl(row.key);
            }
        }
        let sub = kv.drop_first();
        assert(forall|j: int| 0 <= j < pos - 1 ==> bytes_lt((#[trigger] sub[j]).key, row.key));
        lemma_kv_upsert_at(sub, row, pos - 1);
        assert(kv_upsert(kv, row) == seq![kv[0]] + kv_upsert(sub, row));
        if pos < kv.len() && kv[pos].key == row.key {
            assert(sub[pos - 1] == kv[pos]);
            assert(kv_upsert(sub, row) =~= sub.update(pos - 1, row));
            assert(kv_upsert(kv, row) =~= kv.update(pos, row));
        } else {
            assert(kv_upsert(sub, row) =~= sub.take(pos - 1) + seq![row] + sub.skip(pos - 1));
            assert(seq![kv[0]] + (sub.take(pos - 1) + seq![row] + sub.skip(pos - 1)) =~= kv.take(
                pos,
            ) + seq![row] + kv.skip(pos));
        }
    }
}

/// Removing the row under a present key realizes `kv_delete`.
proof fn lemma_kv_delete_at(kv: Seq<KvRowModel>, key: Seq<u8>, pos: int)
    requires
        forall|i: int, j: int|
            0 <= i < j < kv.len() ==> bytes_lt(#[trigger] kv[i].key, #[trigger] kv[j].key),
        0 <= pos < kv.len(),
        kv[pos].key == key,
    ensures
        kv_delete(kv, key) =~= kv.take(pos) + kv.skip(pos + 1),
    decreases kv.len(),
{
    reveal_with_fuel(kv_delete, 2);
    if pos == 0 {
        assert(kv_delete(kv, key) =~= kv.drop_first());
        assert(kv.take(0) + kv.skip(1) =~= kv.drop_first());
    } else {
        assert(bytes_lt(kv[0].key, kv[pos].key));
        assert(kv[0].key != key) by {
            if kv[0].key == key {
                crate::byteseq::lemma_bytes_lt_irrefl(key);
            }
        }
        let sub = kv.drop_first();
        assert(sub[pos - 1] == kv[pos]);
        lemma_kv_delete_at(sub, key, pos - 1);
        assert(kv_delete(kv, key) == seq![kv[0]] + kv_delete(sub, key));
        assert(seq![kv[0]] + (sub.take(pos - 1) + sub.skip(pos)) =~= kv.take(pos) + kv.skip(
            pos + 1,
        ));
    }
}

/// Deleting an absent key changes nothing.
proof fn lemma_kv_delete_absent(kv: Seq<KvRowModel>, key: Seq<u8>)
    requires
        forall|i: int| 0 <= i < kv.len() ==> (#[trigger] kv[i]).key != key,
    ensures
        kv_delete(kv, key) =~= kv,
    decreases kv.len(),
{
    if kv.len() > 0 {
        assert(forall|i: int|
            0 <= i < kv.drop_first().len() ==> (#[trigger] kv.drop_first()[i]).key != key);
        lemma_kv_delete_absent(kv.drop_first(), key);
        assert(seq![kv[0]] + kv.drop_first() =~= kv);
    }
}

/// Stores a row, replacing the row under the same key or inserting in key
/// order.
pub(crate) fn upsert_row(kv: &mut Vec<KvRow>, row: KvRow)
    requires
        kv_sorted(kv_model(old(kv)@)),
    ensures
        kv_model(final(kv)@) == kv_upsert(kv_model(old(kv)@), row@),
{
    let ghost model = kv_model(kv@);
    proof {
        assert(forall|i: int, j: int|
            0 <= i < j < model.len() ==> bytes_lt(
                #[trigger] model[i].key,
                #[trigger] model[j].key,
            ));
    }
    let mut pos: usize = 0;
    while pos < kv.len() && bytes_lt_exec(&kv[pos].key, &row.key)
        invariant
            pos <= kv@.len(),
            model == kv_model(kv@),
            forall|j: int| 0 <= j < pos ==> bytes_lt((#[trigger] model[j]).key, row@.key),
        decreases kv@.len() - pos,
    {
        pos = pos + 1;
    }
    proof {
        lemma_kv_upsert_at(model, row@, pos as int);
    }
    if pos < kv.len() && bytes_eq_exec(&kv[pos].key, &row.key) {
        proof {
            assert(model[pos as int].key =~= row@.key);
        }
        kv.remove(pos);
        kv.insert(pos, row);
        proof {
            assert(kv_model(kv@) =~= model.update(pos as int, row@));
        }
    } else {
        proof {
            if pos < kv@.len() {
                assert(model[pos as int].key != row@.key) by {
                    if model[pos as int].key == row@.key {
                        assert(model[pos as int].key =~= row@.key);
                    }
                }
            }
        }
        kv.insert(pos, row);
        proof {
            assert(kv_model(kv@) =~= model.take(pos as int) + seq![row@] + model.skip(pos as int));
        }
    }
}

/// Removes the row under a key, if any.
pub(crate) fn delete_row(kv: &mut Vec<KvRow>, key: &Vec<u8>)
    requires
        kv_sorted(kv_model(old(kv)@)),
    ensures
        kv_model(final(kv)@) == kv_delete(kv_model(old(kv)@), key@),
{
    let ghost model = kv_model(kv@);
    proof {
        assert(forall|i: int, j: int|
            0 <= i < j < model.len() ==> bytes_lt(
                #[trigger] model[i].key,
                #[trigger] model[j].key,
            ));
    }
    match find_row(kv, key) {
        Some(pos) => {
            proof {
                lemma_kv_delete_at(model, key@, pos as int);
            }
            kv.remove(pos);
            proof {
                assert(kv_model(kv@) =~= model.take(pos as int) + model.skip(pos as int + 1));
            }
        }
        None => {
            proof {
                lemma_kv_get_present(model, key@);
                lemma_kv_delete_absent(model, key@);
                assert(kv_model(kv@) =~= model);
            }
        }
    }
}

/// Does the stored state satisfy one check?
pub open spec fn spec_check_matches(kv: Seq<KvRowModel>, c: crate::types::CheckModel) -> bool {
    match kv_get(kv, c.key) {
        Some(row) => c.versionstamp == Some(spec_versionstamp(row.version)),
        None => c.versionstamp is None,
    }
}

/// Do all checks of a write hold against the stored state?
pub open spec fn spec_checks_pass(kv: Seq<KvRowModel>, checks: Seq<crate::types::CheckModel>) -> bool {
    forall|i: int| 0 <= i < checks.len() ==> spec_check_matches(kv, #[trigger] checks[i])
}

/// Rows inside a range split over a concatenation.
proof fn lemma_rows_in_range_concat(a: Seq<KvRowModel>, b: Seq<KvRowModel>, start: Seq<u8>, end: Seq<u8>)
    ensures
        spec_rows_in_range(a + b, start, end) == spec_rows_in_range(a, start, end)
            + spec_rows_in_range(b, start, end),
    decreases a.len(),
{
    if a.len() == 0 {
        assert(a + b =~= b);
        assert(spec_rows_in_range(a, start, end) + spec_rows_in_range(b, start, end)
            =~= spec_rows_in_range(b, start, end));
    } else {
        assert((a + b)[0] == a[0]);
        assert((a + b).len() > 0);
        assert((a + b).drop_first() =~= a.drop_first() + b);
        lemma_rows_in_range_concat(a.drop_first(), b, start, end);
        if crate::selector::in_range(a[0].key, start, end) {
            assert(seq![a[0]] + (spec_rows_in_range(a.drop_first(), start, end)
                + spec_rows_in_range(b, start, end)) =~= (seq![a[0]] + spec_rows_in_range(
                a.drop_first(),
                start,
                end,
            )) + spec_rows_in_range(b, start, end));
        }
    }
}

/// Scans one materialized range of the table.
fn scan_range(kv: &Vec<KvRow>, start: &Vec<u8>, end: &Vec<u8>, limit: u32, reverse: bool) -> (r:
    Vec<KvEntry>)
    requires
        forall|i: int|
            0 <= i < kv@.len() ==> spec_valid_encoding(
                (#[trigger] kv@[i])@.value,
                kv@[i]@.encoding,
            ),
    ensures
        r@.len() == spec_scan(kv_model(kv@), start@, end@, limit as int, reverse).len(),
        forall|i: int|
            0 <= i < r@.len() ==> (#[trigger] r@[i])@ == spec_row_entry(
                spec_scan(kv_model(kv@), start@, end@, limit as int, reverse)[i],
            ),
{
    let ghost model = kv_model(kv@);
    let ghost rows = spec_rows_in_range(model, start@, end@);
    let mut out: Vec<KvEntry> = Vec::new();
    let ghost mut got = Seq::<KvRowModel>::empty();
    if !reverse {
        let mut i: usize = 0;
        proof {
            assert(model.skip(0) =~= model);
            assert(got + spec_rows_in_range(model.skip(0), start@, end@) =~= rows);
        }
        while i < kv.len() && out.len() < limit as usize
            invariant
                i <= kv@.len(),
                model == kv_model(kv@),
                rows == spec_rows_in_range(model, start@, end@),
                rows == got + spec_rows_in_range(model.skip(i as int), start@, end@),
                out@.len() == got.len(),
                got.len() <= limit,
                forall|j: int| 0 <= j < out@.len() ==> (#[trigger] out@[j])@ == spec_row_entry(got[j]),
                forall|j: int|
                    0 <= j < kv@.len() ==> spec_valid_encoding(
                        (#[trigger] kv@[j])@.value,
                        kv@[j]@.encoding,
                    ),
            decreases kv@.len() - i,
        {
            let ghost rest = model.skip(i as int);
            proof {
                assert(rest[0] == model[i as int]);
                assert(rest.drop_first() =~= model.skip(i + 1));
            }
            let row = &kv[i];
            let above_start = !bytes_lt_exec(&row.key, start);
            let below_end = bytes_lt_exec(&row.key, end);
            proof {
                crate::byteseq::lemma_bytes_lt_total(row@.key, start@);
                if !bytes_lt(row@.key, start@) {
                    assert(crate::byteseq::bytes_le(start@, row@.key));
                }
                if bytes_lt(row@.key, start@) {
                    if crate::byteseq::bytes_le(start@, row@.key) {
                        if bytes_lt(start@, row@.key) {
                            crate::byteseq::lemma_bytes_lt_trans(row@.key, start@, row@.key);
                        }
                        crate::byteseq::lemma_bytes_lt_irrefl(row@.key);
                    }
                }
            }
            if above_start && below_end {
                let entry = KvEntry {
                    key: copy_bytes(&row.key),
                    value: decode_value(copy_bytes(&row.value), row.encoding),
                    versionstamp: version_to_versionstamp(row.version),
                };
                out.push(entry);
                proof {
                    got = got.push(model[i as int]);
                    assert(got.drop_last() + (seq![model[i as int]] + spec_rows_in_range(
                        model.skip(i + 1),
                        start@,
                        end@,
                    )) =~= got + spec_rows_in_range(model.skip(i + 1), start@, end@));
                }
            }
            i = i + 1;
        }
        proof {
            let fin = spec_scan(model, start@, end@, limit as int, reverse);
            if out@.len() == limit {
                assert(fin =~= got) by {
                    assert(rows.take(limit as int) =~= got);
                }
            } else {
                assert(i == kv@.len());
                assert(model.skip(kv@.len() as int) =~= Seq::<KvRowModel>::empty());
                assert(rows =~= got);
                assert(fin =~= got);
            }
        }
        out
    } else {
        let mut i: usize = kv.len();
        proof {
            assert(model.skip(kv@.len() as int) =~= Seq::<KvRowModel>::empty());
            assert(spec_rows_in_range(model.skip(kv@.len() as int), start@, end@).reverse()
                =~= Seq::<KvRowModel>::empty());
        }
        while i > 0 && out.len() < limit as usize
            invariant
                i <= kv@.len(),
                model == kv_model(kv@),
                rows == spec_rows_in_range(model, start@, end@),
                got == spec_rows_in_range(model.skip(i as int), start@, end@).reverse(),
                out@.len() == got.len(),
                got.len() <= limit,
                forall|j: int| 0 <= j < out@.len() ==> (#[trigger] out@[j])@ == spec_row_entry(got[j]),
                forall|j: int|
                    0 <= j < kv@.len() ==> spec_valid_encoding(
                        (#[trigger] kv@[j])@.value,
                        kv@[j]@.encoding,
                    ),
            decreases i,
        {
            let ghost pre = model.skip(i as int);
            proof {
                assert(model.skip(i - 1)[0] == model[i - 1]);
                assert(model.skip(i - 1).drop_first() =~= pre);
            }
            let row = &kv[i - 1];
            let above_start = !bytes_lt_exec(&row.key, start);
            let below_end = bytes_lt_exec(&row.key, end);
            proof {
                crate::byteseq::lemma_bytes_lt_total(row@.key, start@);
                if bytes_lt(row@.key, start@) {
                    if crate::byteseq::bytes_le(start@, row@.key) {
                        if bytes_lt(start@, row@.key) {
                            crate::byteseq::lemma_bytes_lt_trans(row@.key, start@, row@.key);
                        }
                        crate::byteseq::lemma_bytes_lt_irrefl(row@.key);
                    }
                }
            }
            let ghost nxt = spec_rows_in_range(model.skip(i - 1), start@, end@);
            if above_start && below_end {
                proof {
                    assert(nxt == seq![model[i - 1]] + pre_rows(pre, start@, end@));
                    assert(nxt.reverse() =~= pre_rows(pre, start@, end@).reverse().push(
                        model[i - 1],
                    ));
                }
                let entry = KvEntry {
                    key: copy_bytes(&row.key),
                    value: decode_value(copy_bytes(&row.value), row.encoding),
                    versionstamp: version_to_versionstamp(row.version),
                };
                out.push(entry);
                proof {
                    got = got.push(model[i - 1]);
                    assert(got =~= nxt.reverse());
                }
            } else {
                proof {
                    assert(nxt == pre_rows(pre, start@, end@));
                }
            }
            i = i - 1;
        }
        proof {
            let fin = spec_scan(model, start@, end@, limit as int, reverse);
            let dir = rows.reverse();
            if out@.len() == limit {
                assert(model.take(i as int) + model.skip(i as int) =~= model);
                lemma_rows_in_range_concat(
                    model.take(i as int),
                    model.skip(i as int),
                    start@,
                    end@,
                );
                let front = spec_rows_in_range(model.take(i as int), start@, end@);
                let back = spec_rows_in_range(model.skip(i as int), start@, end@);
                assert(rows == front + back);
                assert(dir =~= back.reverse() + front.reverse());
                assert(dir.take(limit as int) =~= got);
                assert(fin =~= got);
            } else {
                assert(i == 0);
                assert(model.skip(0) =~= model);
                assert(got == rows.reverse());
                assert(got.len() == dir.len());
                assert(fin =~= got);
            }
        }
        out
    }
}

/// Shorthand for the rows of a table suffix inside a range.
spec fn pre_rows(kv: Seq<KvRowModel>, start: Seq<u8>, end: Seq<u8>) -> Seq<KvRowModel> {
    spec_rows_in_range(kv, start, end)
}

impl Store {
    /// Reads a list of materialized ranges against the current state, each
    /// limited and directed on its own.  Expired rows are the sweeper's
    /// business: until swept they are still part of the state read here.
    pub fn snapshot_read(&self, requests: &Vec<ReadRange>) -> (r: Result<Vec<ReadRangeOutput>, KvError>)
        requires
            store_wf(self@),
        ensures
            r is Err <==> self@.closed,
            r matches Err(e) ==> e == KvError::ClosedDatabase,
            r matches Ok(outs) ==> {
                &&& outs@.len() == requests@.len()
                &&& forall|i: int, j: int|
                    #![trigger outs@[i].entries@[j]]
                    0 <= i < outs@.len() && 0 <= j < outs@[i].entries@.len() ==> (
                    outs@[i].entries@[j]@ == spec_row_entry(
                        spec_scan(
                            self@.kv,
                            requests@[i]@.start,
                            requests@[i]@.end,
                            requests@[i]@.limit as int,
                            requests@[i]@.reverse,
                        )[j],
                    ))
                &&& forall|i: int|
                    0 <= i < outs@.len() ==> (#[trigger] outs@[i]).entries@.len() == spec_scan(
                        self@.kv,
                        requests@[i]@.start,
                        requests@[i]@.end,
                        requests@[i]@.limit as int,
                        requests@[i]@.reverse,
                    ).len()
            },
    {
        if self.closed {
            return Err(KvError::ClosedDatabase);
        }
        let mut outs: Vec<ReadRangeOutput> = Vec::new();
        let mut i: usize = 0;
        proof {
            assert(kv_model(self.kv@) =~= self@.kv);
        }
        while i < requests.len()
            invariant
                i <= requests@.len(),
                store_wf(self@),
                kv_model(self.kv@) == self@.kv,
                outs@.len() == i,
                forall|a: int, b: int|
                    #![trigger outs@[a].entries@[b]]
                    0 <= a < outs@.len() && 0 <= b < outs@[a].entries@.len() ==> (
                    outs@[a].entries@[b]@ == spec_row_entry(
                        spec_scan(
                            self@.kv,
                            requests@[a]@.start,
                            requests@[a]@.end,
                            requests@[a]@.limit as int,
                            requests@[a]@.reverse,
                        )[b],
                    )),
                forall|a: int|
                    0 <= a < outs@.len() ==> (#[trigger] outs@[a]).entries@.len() == spec_scan(
                        self@.kv,
                        requests@[a]@.start,
                        requests@[a]@.end,
                        requests@[a]@.limit as int,
                        requests@[a]@.reverse,
                    ).len(),
            decreases requests@.len() - i,
        {
            let req = &requests[i];
            proof {
                assert forall|j: int| 0 <= j < self.kv@.len() implies spec_valid_encoding(
                    (#[trigger] self.kv@[j])@.value,
                    self.kv@[j]@.encoding,
                ) by {
                    assert(self@.kv[j] == self.kv@[j]@);
                }
            }
            let entries = scan_range(&self.kv, &req.start, &req.end, req.limit, req.reverse);
            outs.push(ReadRangeOutput { entries });
            i = i + 1;
        }
        Ok(outs)
    }
}

/// The model of a ready queue table.
pub open spec fn queue_model(q: Seq<QueueRow>) -> Seq<QueueRowModel> {
    Seq::new(q.len(), |i: int| q[i]@)
}

/// The model of a running queue table.
pub open spec fn running_model(q: Seq<RunningRow>) -> Seq<RunningRowModel> {
    Seq::new(q.len(), |i: int| q[i]@)
}

/// The stored expiration of an optional absolute expiry: a value over the
/// signed range is treated as no expiration, as the persisted column is
/// signed.
pub open spec fn spec_expiration(expire_at: Option<u64>) -> i64 {
    match expire_at {
        Some(x) => if x <= (i64::MAX as u64) {
            x as i64
        } else {
            -1i64
        },
        None => -1i64,
    }
}

/// Computes the stored expiration.
fn expiration_exec(expire_at: &Option<u64>) -> (r: i64)
    ensures
        r == spec_expiration(*expire_at),
        r >= -1,
{
    match expire_at {
        Some(x) => {
            if *x <= (i64::MAX as u64) {
                *x as i64
            } else {
                -1
            }
        }
        None => -1,
    }
}

/// The row a plain store of a value makes.
pub open spec fn spec_put_row(
    key: Seq<u8>,
    v: ValueModel,
    version: i64,
    expire_at: Option<u64>,
) -> KvRowModel {
    KvRowModel {
        key,
        value: crate::values::spec_encode_value_bytes(v),
        encoding: crate::values::spec_encode_value_tag(v),
        version,
        expiration_ms: spec_expiration(expire_at),
    }
}

/// The row a numeric mutation stores: an integer value.
pub open spec fn spec_u64_row(
    key: Seq<u8>,
    x: u64,
    version: i64,
    expire_at: Option<u64>,
) -> KvRowModel {
    KvRowModel {
        key,
        value: vstd::bytes::spec_u64_to_le_bytes(x),
        encoding: crate::values::VALUE_ENCODING_LE64,
        version,
        expiration_ms: spec_expiration(expire_at),
    }
}

/// What a numeric mutation does: on a missing key it stores the operand; on
/// a stored integer it stores the combination; anything else is a typed
/// error and no mutation applies.
pub open spec fn spec_numeric(
    kv: Seq<KvRowModel>,
    key: Seq<u8>,
    operand: ValueModel,
    version: i64,
    expire_at: Option<u64>,
    f: spec_fn(u64, u64) -> u64,
) -> Result<Seq<KvRowModel>, KvError> {
    match operand {
        ValueModel::U64(x) => match kv_get(kv, key) {
            None => Ok(kv_upsert(kv, spec_u64_row(key, x, version, expire_at))),
            Some(row) => match spec_decode_value(row.value, row.encoding) {
                ValueModel::U64(a) => Ok(
                    kv_upsert(kv, spec_u64_row(key, f(a, x), version, expire_at)),
                ),
                _ => Err(KvError::NonU64Value),
            },
        },
        _ => Err(KvError::NonU64Operand),
    }
}

/// What one mutation does to the table at the given version.
pub open spec fn spec_apply_mutation(
    kv: Seq<KvRowModel>,
    m: crate::types::MutationModel,
    version: i64,
) -> Result<Seq<KvRowModel>, KvError> {
    match m.kind {
        crate::types::MutationKindModel::Put(v) => Ok(
            kv_upsert(kv, spec_put_row(m.key, v, version, m.expire_at)),
        ),
        crate::types::MutationKindModel::Delete => Ok(kv_delete(kv, m.key)),
        crate::types::MutationKindModel::Sum(op) => spec_numeric(
            kv,
            m.key,
            op,
            version,
            m.expire_at,
            |a: u64, b: u64| vstd::wrapping::u64_specs::wrapping_add(a, b),
        ),
        crate::types::MutationKindModel::Min(op) => spec_numeric(
            kv,
            m.key,
            op,
            version,
            m.expire_at,
            |a: u64, b: u64|
                if a < b {
                    a
                } else {
                    b
                },
        ),
        crate::types::MutationKindModel::Max(op) => spec_numeric(
            kv,
            m.key,
            op,
            version,
            m.expire_at,
            |a: u64, b: u64|
                if a > b {
                    a
                } else {
                    b
                },
        ),
    }
}

/// What a list of mutations does, in input order; the first failure aborts
/// the whole write.
pub open spec fn spec_apply_mutations(
    kv: Seq<KvRowModel>,
    ms: Seq<crate::types::MutationModel>,
    version: i64,
) -> Result<Seq<KvRowModel>, KvError>
    decreases ms.len(),
{
    if ms.len() == 0 {
        Ok(kv)
    } else {
        match spec_apply_mutation(kv, ms[0], version) {
            Ok(k2) => spec_apply_mutations(k2, ms.drop_first(), version),
            Err(e) => Err(e),
        }
    }
}

/// Row facts a mutation preserves: sortedness, value validity, version
/// bounds and expiration bounds.
pub open spec fn kv_rows_ok(kv: Seq<KvRowModel>, version: i64) -> bool {
    &&& forall|i: int, j: int|
        0 <= i < j < kv.len() ==> bytes_lt(#[trigger] kv[i].key, #[trigger] kv[j].key)
    &&& forall|i: int|
        0 <= i < kv.len() ==> spec_valid_encoding((#[trigger] kv[i]).value, kv[i].encoding)
    &&& forall|i: int| 0 <= i < kv.len() ==> 0 <= (#[trigger] kv[i]).version <= version
    &&& forall|i: int| 0 <= i < kv.len() ==> (#[trigger] kv[i]).expiration_ms >= -1
}

/// One mutation keeps the row facts.
pub proof fn lemma_apply_mutation_ok(kv: Seq<KvRowModel>, m: crate::types::MutationModel, version: i64)
    requires
        kv_rows_ok(kv, version),
        version >= 0,
    ensures
        spec_apply_mutation(kv, m, version) matches Ok(k2) ==> kv_rows_ok(k2, version),
{
    crate::values::lemma_value_roundtrip(crate::values::ValueModel::U64(0));
    match spec_apply_mutation(kv, m, version) {
        Ok(k2) => {
            match m.kind {
                crate::types::MutationKindModel::Put(v) => {
                    let row = spec_put_row(m.key, v, version, m.expire_at);
                    crate::values::lemma_value_roundtrip(v);
                    lemma_kv_upsert(kv, row, version);
                    lemma_rows_ok_after_upsert(kv, row, version);
                }
                crate::types::MutationKindModel::Delete => {
                    lemma_kv_delete(kv, m.key);
                    assert forall|i: int| 0 <= i < k2.len() implies (
                    spec_valid_encoding((#[trigger] k2[i]).value, k2[i].encoding) && 0 <= k2[i].version
                        <= version && k2[i].expiration_ms >= -1) by {
                        let w = choose|w: int| 0 <= w < kv.len() && kv[w] == k2[i];
                    }
                }
                _ => {
                    lemma_numeric_ok(kv, m, version);
                }
            }
        }
        Err(_) => {}
    }
}

/// The numeric cases of `lemma_apply_mutation_ok`.
proof fn lemma_numeric_ok(kv: Seq<KvRowModel>, m: crate::types::MutationModel, version: i64)
    requires
        kv_rows_ok(kv, version),
        version >= 0,
        !(m.kind is Put),
        !(m.kind is Delete),
    ensures
        spec_apply_mutation(kv, m, version) matches Ok(k2) ==> kv_rows_ok(k2, version),
{
    match spec_apply_mutation(kv, m, version) {
        Ok(k2) => {
            // Whatever integer it stores, the stored row is well-formed.
            assert forall|x: u64| kv_rows_ok(
                #[trigger] kv_upsert(kv, spec_u64_row(m.key, x, version, m.expire_at)),
                version,
            ) by {
                let row = spec_u64_row(m.key, x, version, m.expire_at);
                vstd::bytes::lemma_auto_spec_u64_to_from_le_bytes();
                lemma_kv_upsert(kv, row, version);
                lemma_rows_ok_after_upsert(kv, row, version);
            }
            match m.kind {
                crate::types::MutationKindModel::Sum(op) => {
                    assert(op is U64);
                }
                crate::types::MutationKindModel::Min(op) => {
                    assert(op is U64);
                }
                crate::types::MutationKindModel::Max(op) => {
                    assert(op is U64);
                }
                _ => {}
            }
        }
        Err(_) => {}
    }
}

/// After an upsert of a well-formed row, the non-order row facts hold.
pub proof fn lemma_rows_ok_after_upsert(kv: Seq<KvRowModel>, row: KvRowModel, version: i64)
    requires
        kv_rows_ok(kv, version),
        0 <= row.version <= version,
        spec_valid_encoding(row.value, row.encoding),
        row.expiration_ms >= -1,
    ensures
        kv_rows_ok(kv_upsert(kv, row), version),
{
    lemma_kv_upsert(kv, row, version);
    let out = kv_upsert(kv, row);
    assert forall|i: int| 0 <= i < out.len() implies (spec_valid_encoding(
        (#[trigger] out[i]).value,
        out[i].encoding,
    ) && 0 <= out[i].version <= version && out[i].expiration_ms >= -1) by {
        if out[i] == row {
        } else {
            assert(kv.contains(out[i]));
            let w = choose|w: int| 0 <= w < kv.len() && kv[w] == out[i];
        }
    }
}

/// Mutations keep the row facts.
proof fn lemma_apply_mutations_ok(
    kv: Seq<KvRowModel>,
    ms: Seq<crate::types::MutationModel>,
    version: i64,
)
    requires
        kv_rows_ok(kv, version),
        version >= 0,
    ensures
        spec_apply_mutations(kv, ms, version) matches Ok(k2) ==> kv_rows_ok(k2, version),
    decreases ms.len(),
{
    if ms.len() > 0 {
        lemma_apply_mutation_ok(kv, ms[0], version);
        match spec_apply_mutation(kv, ms[0], version) {
            Ok(k2) => {
                lemma_apply_mutations_ok(k2, ms.drop_first(), version);
            }
            Err(_) => {}
        }
    }
}

/// Evaluates one check against the table.
fn check_matches_exec(kv: &Vec<KvRow>, check: &crate::types::KvCheck) -> (r: bool)
    ensures
        r == spec_check_matches(kv_model(kv@), check@),
{
    let found = find_row(kv, &check.key);
    match (found, &check.versionstamp) {
        (Some(i), Some(vs)) => {
            let actual = version_to_versionstamp(kv[i].version);
            let eq = bytes_eq_exec(vs, &actual);
            proof {
                if vs@ =~= actual@ {
                    assert(vs@ == spec_versionstamp(kv@[i as int]@.version));
                }
            }
            eq
        }
        (None, None) => true,
        _ => false,
    }
}

/// Inserts a ready row in delivery-time order, after the rows already due at
/// the same time.
pub open spec fn queue_insert(q: Seq<QueueRowModel>, row: QueueRowModel) -> Seq<QueueRowModel>
    decreases q.len(),
{
    if q.len() == 0 {
        seq![row]
    } else if row.ts < q[0].ts {
        seq![row] + q
    } else {
        seq![q[0]] + queue_insert(q.drop_first(), row)
    }
}

/// Is the ready table sorted by delivery time?
pub open spec fn queue_sorted(q: Seq<QueueRowModel>) -> bool {
    forall|i: int, j: int| 0 <= i < j < q.len() ==> (#[trigger] q[i]).ts <= (#[trigger] q[j]).ts
}

/// Are the ready table's message ids pairwise distinct?
pub open spec fn queue_ids_unique(q: Seq<QueueRowModel>) -> bool {
    forall|i: int, j: int| 0 <= i < j < q.len() ==> (#[trigger] q[i]).id != (#[trigger] q[j]).id
}

/// Does no ready row carry this id?
pub open spec fn queue_id_absent(q: Seq<QueueRowModel>, id: u128) -> bool {
    forall|i: int| 0 <= i < q.len() ==> (#[trigger] q[i]).id != id
}

/// What a sorted insert does: order kept, one row more, the new row present,
/// nothing else added, id uniqueness and id absence kept.
pub proof fn lemma_queue_insert_props(q: Seq<QueueRowModel>, row: QueueRowModel)
    requires
        queue_sorted(q),
        queue_ids_unique(q),
        queue_id_absent(q, row.id),
    ensures
        queue_sorted(queue_insert(q, row)),
        queue_insert(q, row).len() == q.len() + 1,
        queue_insert(q, row).contains(row),
        forall|i: int|
            0 <= i < queue_insert(q, row).len() ==> (#[trigger] queue_insert(q, row)[i]) == row
                || q.contains(queue_insert(q, row)[i]),
        queue_ids_unique(queue_insert(q, row)),
        forall|x: u128|
            x != row.id && queue_id_absent(q, x) ==> queue_id_absent(
                #[trigger] queue_insert(q, row),
                x,
            ),
    decreases q.len(),
{
    let out = queue_insert(q, row);
    if q.len() == 0 {
        assert(out =~= seq![row]);
        assert(out[0] == row);
    } else if row.ts < q[0].ts {
        assert(out =~= seq![row] + q);
        assert(out[0] == row);
        assert(forall|i: int| 0 < i < out.len() ==> out[i] == q[i - 1]);
        assert(out.contains(row)) by {
            assert(out[0] == row);
        }
    } else {
        let sub = queue_insert(q.drop_first(), row);
        assert(queue_sorted(q.drop_first()));
        assert(queue_ids_unique(q.drop_first()));
        assert(queue_id_absent(q.drop_first(), row.id)) by {
            assert(forall|i: int|
                0 <= i < q.drop_first().len() ==> (#[trigger] q.drop_first()[i]) == q[i + 1]);
        }
        lemma_queue_insert_props(q.drop_first(), row);
        assert(out =~= seq![q[0]] + sub);
        assert(out[0] == q[0]);
        assert(forall|i: int| 0 < i < out.len() ==> out[i] == sub[i - 1]);
        assert(out.contains(row)) by {
            let w = choose|w: int| 0 <= w < sub.len() && sub[w] == row;
            assert(out[w + 1] == row);
        }
        assert forall|i: int| 0 <= i < out.len() implies (#[trigger] out[i]) == row || q.contains(
            out[i],
        ) by {
            if i == 0 {
                assert(q.contains(q[0]));
            } else {
                if sub[i - 1] == row {
                } else {
                    assert(q.drop_first().contains(sub[i - 1]));
                    let w = choose|w: int|
                        0 <= w < q.drop_first().len() && q.drop_first()[w] == sub[i - 1];
                    assert(q[w + 1] == sub[i - 1]);
                    assert(q.contains(q[w + 1]));
                }
            }
        }
        assert(queue_sorted(out)) by {
            assert forall|i: int, j: int| 0 <= i < j < out.len() implies (#[trigger] out[i]).ts
                <= (#[trigger] out[j]).ts by {
                if i == 0 {
                    if sub[j - 1] == row {
                        assert(q[0].ts <= row.ts);
                    } else {
                        let w = choose|w: int|
                            0 <= w < q.drop_first().len() && q.drop_first()[w] == sub[j - 1];
                        assert(q[w + 1] == sub[j - 1]);
                        assert(q[0].ts <= q[w + 1].ts);
                    }
                }
            }
        }
        assert(queue_ids_unique(out)) by {
            assert forall|i: int, j: int| 0 <= i < j < out.len() implies (#[trigger] out[i]).id
                != (#[trigger] out[j]).id by {
                if i == 0 {
                    // q[0].id is absent from the tail and differs from row.id.
                    assert(queue_id_absent(q.drop_first(), q[0].id)) by {
                        assert(forall|w: int|
                            0 <= w < q.drop_first().len() ==> (#[trigger] q.drop_first()[w]) == q[w + 1]);
                    }
                    assert(queue_id_absent(sub, q[0].id));
                    assert(sub[j - 1].id != q[0].id);
                }
            }
        }
        assert forall|x: u128|
            x != row.id && queue_id_absent(q, x) implies queue_id_absent(
            #[trigger] queue_insert(q, row),
            x,
        ) by {
            assert(queue_id_absent(q.drop_first(), x)) by {
                assert(forall|w: int|
                    0 <= w < q.drop_first().len() ==> (#[trigger] q.drop_first()[w]) == q[w + 1]);
            }
            assert(queue_id_absent(sub, x));
            assert forall|i: int| 0 <= i < out.len() implies (#[trigger] out[i]).id != x by {
                if i > 0 {
                    assert(out[i] == sub[i - 1]);
                }
            }
        }
    }
}

/// Inserting a row at its found position realizes `queue_insert`.
proof fn lemma_queue_insert_at(q: Seq<QueueRowModel>, row: QueueRowModel, pos: int)
    requires
        queue_sorted(q),
        0 <= pos <= q.len(),
        forall|j: int| 0 <= j < pos ==> (#[trigger] q[j]).ts <= row.ts,
        pos < q.len() ==> row.ts < q[pos].ts,
    ensures
        queue_insert(q, row) =~= q.take(pos) + seq![row] + q.skip(pos),
    decreases q.len(),
{
    reveal_with_fuel(queue_insert, 2);
    if q.len() == 0 {
        assert(q.take(0) + seq![row] + q.skip(0) =~= seq![row]);
    } else if pos == 0 {
        assert(row.ts < q[0].ts);
        assert(q.take(0) + seq![row] + q.skip(0) =~= seq![row] + q);
    } else {
        assert(q[0].ts <= row.ts);
        assert(!(row.ts < q[0].ts));
        let sub = q.drop_first();
        assert(forall|j: int| 0 <= j < pos - 1 ==> (#[trigger] sub[j]).ts <= row.ts);
        assert(pos - 1 < sub.len() ==> row.ts < sub[pos - 1].ts);
        lemma_queue_insert_at(sub, row, pos - 1);
        assert(queue_insert(q, row) == seq![q[0]] + queue_insert(sub, row));
        assert(seq![q[0]] + (sub.take(pos - 1) + seq![row] + sub.skip(pos - 1)) =~= q.take(pos)
            + seq![row] + q.skip(pos));
    }
}

/// Inserts a ready row into the table, keeping delivery-time order.
pub(crate) fn queue_insert_exec(queue: &mut Vec<QueueRow>, row: QueueRow)
    requires
        queue_sorted(queue_model(old(queue)@)),
    ensures
        queue_model(final(queue)@) == queue_insert(queue_model(old(queue)@), row@),
{
    let ghost model = queue_model(queue@);
    let mut pos: usize = 0;
    while pos < queue.len() && queue[pos].ts <= row.ts
        invariant
            pos <= queue@.len(),
            model == queue_model(queue@),
            forall|j: int| 0 <= j < pos ==> (#[trigger] model[j]).ts <= row@.ts,
        decreases queue@.len() - pos,
    {
        pos = pos + 1;
    }
    proof {
        lemma_queue_insert_at(model, row@, pos as int);
    }
    queue.insert(pos, row);
    proof {
        assert(queue_model(queue@) =~= model.take(pos as int) + seq![row@] + model.skip(
            pos as int,
        ));
    }
}

/// The default backoff schedule of an enqueue that declares none.
pub open spec fn spec_default_backoff() -> Seq<u64> {
    seq![100u64, 1000u64, 5000u64, 30000u64, 60000u64]
}

/// Builds the default backoff schedule.
pub fn default_backoff_schedule() -> (r: Vec<u64>)
    ensures
        r@ =~= spec_default_backoff(),
{
    let mut r: Vec<u64> = Vec::new();
    r.push(100u64);
    r.push(1000u64);
    r.push(5000u64);
    r.push(30000u64);
    r.push(60000u64);
    r
}

/// The ready row an enqueue makes: deliverable at `now + delay`, under the
/// given fresh id, with the declared or default backoff schedule.
pub open spec fn spec_enqueue_row(
    e: crate::types::EnqueueModel,
    id: u128,
    now: u64,
) -> QueueRowModel {
    QueueRowModel {
        ts: now.saturating_add(e.delay_ms),
        id,
        data: e.payload,
        backoff_schedule: match e.backoff_schedule {
            Some(b) => b,
            None => spec_default_backoff(),
        },
        keys_if_undelivered: e.keys_if_undelivered,
    }
}

/// The ready table after appending all enqueues of a write, in input order.
pub open spec fn spec_enqueue_all(
    q: Seq<QueueRowModel>,
    es: Seq<crate::types::EnqueueModel>,
    ids: Seq<u128>,
    now: u64,
) -> Seq<QueueRowModel>
    decreases es.len(),
{
    if es.len() == 0 {
        q
    } else {
        spec_enqueue_all(
            queue_insert(q, spec_enqueue_row(es[0], ids[0], now)),
            es.drop_first(),
            ids.drop_first(),
            now,
        )
    }
}

/// What appending all enqueues does: order and id uniqueness kept, each
/// message present under its fresh id, old rows kept, nothing else added.
pub proof fn lemma_enqueue_all_props(
    q: Seq<QueueRowModel>,
    es: Seq<crate::types::EnqueueModel>,
    ids: Seq<u128>,
    now: u64,
)
    requires
        queue_sorted(q),
        queue_ids_unique(q),
        ids.len() == es.len(),
        forall|i: int| 0 <= i < ids.len() ==> queue_id_absent(q, #[trigger] ids[i]),
        forall|i: int, j: int| 0 <= i < j < ids.len() ==> ids[i] != ids[j],
    ensures
        queue_sorted(spec_enqueue_all(q, es, ids, now)),
        queue_ids_unique(spec_enqueue_all(q, es, ids, now)),
        spec_enqueue_all(q, es, ids, now).len() == q.len() + es.len(),
        forall|i: int|
            0 <= i < es.len() ==> spec_enqueue_all(q, es, ids, now).contains(
                spec_enqueue_row(#[trigger] es[i], ids[i], now),
            ),
        forall|j: int|
            0 <= j < q.len() ==> spec_enqueue_all(q, es, ids, now).contains(#[trigger] q[j]),
        forall|i: int|
            0 <= i < spec_enqueue_all(q, es, ids, now).len() ==> (q.contains(
                #[trigger] spec_enqueue_all(q, es, ids, now)[i],
            ) || exists|j: int|
                0 <= j < es.len() && spec_enqueue_all(q, es, ids, now)[i] == spec_enqueue_row(
                    #[trigger] es[j],
                    ids[j],
                    now,
                )),
        forall|x: u128|
            queue_id_absent(q, x) && (forall|i: int| 0 <= i < ids.len() ==> ids[i] != x)
                ==> queue_id_absent(#[trigger] spec_enqueue_all(q, es, ids, now), x),
    decreases es.len(),
{
    let out = spec_enqueue_all(q, es, ids, now);
    if es.len() == 0 {
    } else {
        let row0 = spec_enqueue_row(es[0], ids[0], now);
        lemma_queue_insert_props(q, row0);
        let q1 = queue_insert(q, row0);
        assert(forall|i: int|
            0 <= i < ids.drop_first().len() ==> queue_id_absent(
                q1,
                #[trigger] ids.drop_first()[i],
            )) by {
            assert forall|i: int|
                0 <= i < ids.drop_first().len() implies queue_id_absent(
                q1,
                #[trigger] ids.drop_first()[i],
            ) by {
                assert(ids.drop_first()[i] == ids[i + 1]);
                assert(ids[i + 1] != ids[0]);
                assert(queue_id_absent(q, ids[i + 1]));
            }
        }
        lemma_enqueue_all_props(q1, es.drop_first(), ids.drop_first(), now);
        assert(out == spec_enqueue_all(q1, es.drop_first(), ids.drop_first(), now));
        assert forall|i: int| 0 <= i < es.len() implies out.contains(
            spec_enqueue_row(#[trigger] es[i], ids[i], now),
        ) by {
            if i == 0 {
                assert(q1.contains(row0));
                let w = choose|w: int| 0 <= w < q1.len() && q1[w] == row0;
                assert(out.contains(q1[w]));
            } else {
                assert(es.drop_first()[i - 1] == es[i]);
                assert(ids.drop_first()[i - 1] == ids[i]);
            }
        }
        assert forall|j: int| 0 <= j < q.len() implies out.contains(#[trigger] q[j]) by {
            assert(q1.contains(q[j])) by {
                if q[j] == row0 {
                    assert(q1.contains(row0));
                } else {
                    // q[j] kept by the insert: it sits somewhere in q1.
                    lemma_queue_insert_keeps(q, row0, j);
                }
            }
            let w = choose|w: int| 0 <= w < q1.len() && q1[w] == q[j];
            assert(out.contains(q1[w]));
        }
        assert forall|i: int| 0 <= i < out.len() implies (q.contains(#[trigger] out[i]) || exists|
            j: int,
        |
            0 <= j < es.len() && out[i] == spec_enqueue_row(#[trigger] es[j], ids[j], now)) by {
            if q1.contains(out[i]) {
                let w = choose|w: int| 0 <= w < q1.len() && q1[w] == out[i];
                if q1[w] == row0 {
                    assert(out[i] == spec_enqueue_row(es[0], ids[0], now));
                } else {
                    assert(q.contains(q1[w]));
                }
            } else {
                let j = choose|j: int|
                    0 <= j < es.drop_first().len() && out[i] == spec_enqueue_row(
                        #[trigger] es.drop_first()[j],
                        ids.drop_first()[j],
                        now,
                    );
                assert(es.drop_first()[j] == es[j + 1]);
                assert(ids.drop_first()[j] == ids[j + 1]);
            }
        }
    }
}

/// A sorted insert keeps every old row.
proof fn lemma_queue_insert_keeps(q: Seq<QueueRowModel>, row: QueueRowModel, j: int)
    requires
        0 <= j < q.len(),
    ensures
        queue_insert(q, row).contains(q[j]),
    decreases q.len(),
{
    let out = queue_insert(q, row);
    if q.len() == 0 {
    } else if row.ts < q[0].ts {
        assert(out =~= seq![row] + q);
        assert(out[j + 1] == q[j]);
    } else {
        if j == 0 {
            assert(out[0] == q[0]);
        } else {
            lemma_queue_insert_keeps(q.drop_first(), row, j - 1);
            let sub = queue_insert(q.drop_first(), row);
            let w = choose|w: int| 0 <= w < sub.len() && sub[w] == q.drop_first()[j - 1];
            assert(out[w + 1] == sub[w]);
            assert(out.contains(out[w + 1]));
        }
    }
}

/// Copies a list of 64-bit integers.
fn copy_u64s(v: &Vec<u64>) -> (r: Vec<u64>)
    ensures
        r@ =~= v@,
{
    let mut r: Vec<u64> = Vec::new();
    let mut i: usize = 0;
    while i < v.len()
        invariant
            i <= v.len(),
            r@ =~= v@.take(i as int),
        decreases v.len() - i,
    {
        r.push(v[i]);
        proof {
            assert(v@.take(i + 1) =~= v@.take(i as int).push(v@[i as int]));
        }
        i = i + 1;
    }
    proof {
        assert(v@.take(v@.len() as int) =~= v@);
    }
    r
}

/// Copies a list of byte strings, preserving its model.
fn copy_keys(v: &Vec<Vec<u8>>) -> (r: Vec<Vec<u8>>)
    ensures
        r@.len() == v@.len(),
        forall|i: int| 0 <= i < r@.len() ==> (#[trigger] r@[i])@ == v@[i]@,
{
    let mut r: Vec<Vec<u8>> = Vec::new();
    let mut i: usize = 0;
    while i < v.len()
        invariant
            i <= v.len(),
            r@.len() == i,
            forall|j: int| 0 <= j < i ==> (#[trigger] r@[j])@ == v@[j]@,
        decreases v.len() - i,
    {
        r.push(crate::byteseq::copy_bytes(&v[i]));
        i = i + 1;
    }
    r
}

/// Copies the row table, preserving its model.
fn copy_kv_rows(kv: &Vec<KvRow>) -> (r: Vec<KvRow>)
    ensures
        kv_model(r@) == kv_model(kv@),
{
    let mut r: Vec<KvRow> = Vec::new();
    let mut i: usize = 0;
    while i < kv.len()
        invariant
            i <= kv.len(),
            r@.len() == i,
            forall|j: int| 0 <= j < i ==> (#[trigger] r@[j])@ == kv@[j]@,
        decreases kv.len() - i,
    {
        let row = &kv[i];
        r.push(
            KvRow {
                key: copy_bytes(&row.key),
                value: copy_bytes(&row.value),
                encoding: row.encoding,
                version: row.version,
                expiration_ms: row.expiration_ms,
            },
        );
        i = i + 1;
    }
    proof {
        assert(kv_model(r@) =~= kv_model(kv@));
    }
    r
}

/// Does a ready row carry this id?
fn queue_has_id(queue: &Vec<QueueRow>, id: u128) -> (r: bool)
    ensures
        r == !queue_id_absent(queue_model(queue@), id),
{
    let mut i: usize = 0;
    while i < queue.len()
        invariant
            i <= queue.len(),
            forall|j: int| 0 <= j < i ==> (#[trigger] queue_model(queue@)[j]).id != id,
        decreases queue.len() - i,
    {
        if queue[i].id == id {
            proof {
                assert(queue_model(queue@)[i as int].id == id);
            }
            return true;
        }
        i = i + 1;
    }
    false
}

/// Does a running row carry this id?
fn running_has_id(running: &Vec<RunningRow>, id: u128) -> (r: bool)
    ensures
        r == exists|j: int|
            0 <= j < running@.len() && (#[trigger] running_model(running@)[j]).id == id,
{
    let mut i: usize = 0;
    while i < running.len()
        invariant
            i <= running.len(),
            forall|j: int| 0 <= j < i ==> (#[trigger] running_model(running@)[j]).id != id,
        decreases running.len() - i,
    {
        if running[i].id == id {
            proof {
                assert(running_model(running@)[i as int].id == id);
            }
            return true;
        }
        i = i + 1;
    }
    false
}

/// Are the drawn ids pairwise distinct and absent from both queue tables?
pub open spec fn spec_ids_fresh(s: StoreModel, ids: Seq<u128>) -> bool {
    &&& forall|i: int| 0 <= i < ids.len() ==> !id_in_queues(s, #[trigger] ids[i])
    &&& forall|i: int, j: int| 0 <= i < j < ids.len() ==> ids[i] != ids[j]
}

/// What an atomic write that passed the caps does: fresh ids and a free
/// version are owed, then the checks decide, then the mutations apply in
/// order at the next version, and the enqueues join the ready table; any
/// failure leaves the state untouched.
pub open spec fn spec_commit(s: StoreModel, w: crate::types::WriteModel, now: u64, ids: Seq<u128>) -> (
    StoreModel,
    Result<Option<Seq<u8>>, KvError>,
) {
    if !spec_ids_fresh(s, ids) {
        (s, Err(KvError::IdCollision))
    } else if s.version == i64::MAX {
        (s, Err(KvError::VersionOverflow))
    } else if !spec_checks_pass(s.kv, w.checks) {
        (s, Ok(None))
    } else {
        let v2 = (s.version + 1) as i64;
        match spec_apply_mutations(s.kv, w.mutations, v2) {
            Err(e) => (s, Err(e)),
            Ok(kv2) => (
                StoreModel {
                    kv: kv2,
                    queue: spec_enqueue_all(s.queue, w.enqueues, ids, now),
                    version: v2,
                    ..s
                },
                Ok(Some(spec_versionstamp(v2))),
            ),
        }
    }
}

/// Does an executable commit result agree with the spec-level one?
pub open spec fn commit_result_agrees(
    r: Result<Option<crate::types::CommitResult>, KvError>,
    s: Result<Option<Seq<u8>>, KvError>,
) -> bool {
    match (r, s) {
        (Ok(Some(c)), Ok(Some(v))) => c.versionstamp@ == v,
        (Ok(None), Ok(None)) => true,
        (Err(a), Err(b)) => a == b,
        _ => false,
    }
}

/// Which cap a validation error names.
pub open spec fn spec_limit_error(w: crate::types::WriteModel, e: KvError) -> bool {
    match e {
        KvError::TooManyChecks => w.checks.len() > crate::limits::MAX_CHECKS,
        KvError::TooManyMutations => w.mutations.len() + w.enqueues.len()
            > crate::limits::MAX_MUTATIONS,
        KvError::EmptyKey => !crate::limits::spec_keys_ok(crate::limits::spec_write_keys(w)),
        KvError::KeyTooLargeForWrite => !crate::limits::spec_keys_ok(
            crate::limits::spec_write_keys(w),
        ),
        KvError::ValueTooLarge => !crate::limits::spec_values_ok(w.mutations),
        KvError::PayloadTooLarge => !crate::limits::spec_payloads_ok(w.enqueues),
        KvError::TotalPayloadTooLarge => crate::limits::spec_keys_size(
            crate::limits::spec_write_keys(w),
        ) + crate::limits::spec_values_size(w.mutations) + crate::limits::spec_payloads_size(
            w.enqueues,
        ) > crate::limits::MAX_TOTAL_MUTATION_SIZE_BYTES,
        KvError::TotalKeyTooLarge => crate::limits::spec_keys_size(
            crate::limits::spec_write_keys(w),
        ) > crate::limits::MAX_TOTAL_KEY_SIZE_BYTES,
        _ => false,
    }
}

impl Store {
    /// THE ATOMIC WRITE.  Validates the caps, then commits the whole write
    /// at the next version, deterministically from the wall clock reading
    /// and the drawn message ids: if every check matches the stored
    /// versionstamps, all mutations and enqueues take effect at one new
    /// version and the write reports that version's stamp; if a check
    /// fails, or anything is rejected, nothing changes.
    pub fn atomic_write_at(
        &mut self,
        write: &crate::types::AtomicWrite,
        now_ms: u64,
        ids: &Vec<u128>,
    ) -> (r: Result<Option<crate::types::CommitResult>, KvError>)
        requires
            store_wf(old(self)@),
            ids@.len() == write@.enqueues.len(),
        ensures
            store_wf(final(self)@),
            old(self)@.closed ==> final(self)@ == old(self)@ && r == Err::<
                Option<crate::types::CommitResult>,
                KvError,
            >(KvError::ClosedDatabase),
            !old(self)@.closed && !crate::limits::spec_write_within_limits(write@) ==> final(self)@
                == old(self)@ && (r matches Err(e) && spec_limit_error(write@, e)),
            !old(self)@.closed && crate::limits::spec_write_within_limits(write@) ==> (final(self)@
                == spec_commit(old(self)@, write@, now_ms, ids@).0 && commit_result_agrees(
                r,
                spec_commit(old(self)@, write@, now_ms, ids@).1,
            )),
    {
        let ghost s0 = self@;
        if self.closed {
            return Err(KvError::ClosedDatabase);
        }
        match crate::limits::validate_atomic_write(write) {
            Ok(()) => {}
            Err(e) => {
                return Err(e);
            }
        }
        // Freshness of the drawn message ids.
        let mut j: usize = 0;
        while j < ids.len()
            invariant
                j <= ids@.len(),
                self@ == s0,
                s0 == old(self)@,
                !s0.closed,
                crate::limits::spec_write_within_limits(write@),
                store_wf(s0),
                forall|a: int| 0 <= a < j ==> !id_in_queues(s0, #[trigger] ids@[a]),
                forall|a: int, b: int| 0 <= a < b < j ==> ids@[a] != ids@[b],
            decreases ids@.len() - j,
        {
            proof {
                assert(queue_model(self.queue@) =~= s0.queue);
                assert(running_model(self.running@) =~= s0.running);
            }
            if queue_has_id(&self.queue, ids[j]) {
                return Err(KvError::IdCollision);
            }
            if running_has_id(&self.running, ids[j]) {
                return Err(KvError::IdCollision);
            }
            let mut b: usize = 0;
            while b < j
                invariant
                    b <= j < ids@.len(),
                    self@ == s0,
                    s0 == old(self)@,
                    !s0.closed,
                    crate::limits::spec_write_within_limits(write@),
                    store_wf(s0),
                    forall|a: int| 0 <= a < b ==> ids@[a] != ids@[j as int],
                decreases j - b,
            {
                if ids[b] == ids[j] {
                    return Err(KvError::IdCollision);
                }
                b = b + 1;
            }
            proof {
                assert(!id_in_queues(s0, ids@[j as int]));
            }
            j = j + 1;
        }
        proof {
            assert(spec_ids_fresh(s0, ids@));
        }
        // A free version number.
        if self.version == i64::MAX {
            return Err(KvError::VersionOverflow);
        }
        // The optimistic checks.
        proof {
            assert(kv_model(self.kv@) =~= s0.kv);
        }
        let mut c: usize = 0;
        while c < write.checks.len()
            invariant
                c <= write@.checks.len(),
                self@ == s0,
                s0 == old(self)@,
                !s0.closed,
                crate::limits::spec_write_within_limits(write@),
                store_wf(s0),
                spec_ids_fresh(s0, ids@),
                s0.version != i64::MAX,
                kv_model(self.kv@) == s0.kv,
                forall|a: int| 0 <= a < c ==> spec_check_matches(s0.kv, #[trigger] write@.checks[a]),
            decreases write@.checks.len() - c,
        {
            let ok = check_matches_exec(&self.kv, &write.checks[c]);
            proof {
                assert(write.checks@[c as int]@ == write@.checks[c as int]);
            }
            if !ok {
                return Ok(None);
            }
            c = c + 1;
        }
        proof {
            assert(spec_checks_pass(s0.kv, write@.checks));
        }
        // Apply the mutations to a working copy; failures leave the state
        // untouched.
        let new_version = self.version + 1;
        let mut new_kv = copy_kv_rows(&self.kv);
        let ghost v2 = new_version;
        proof {
            assert(kv_model(self.kv@) =~= s0.kv);
            assert(kv_rows_ok(s0.kv, v2)) by {
                assert forall|i: int| 0 <= i < s0.kv.len() implies 0 <= (
                #[trigger] s0.kv[i]).version <= v2 by {
                    assert(s0.kv[i].version <= s0.version);
                }
            }
            assert(write@.mutations.skip(0) =~= write@.mutations);
        }
        let mut m: usize = 0;
        while m < write.mutations.len()
            invariant
                m <= write@.mutations.len(),
                self@ == s0,
                s0 == old(self)@,
                !s0.closed,
                crate::limits::spec_write_within_limits(write@),
                spec_ids_fresh(s0, ids@),
                spec_checks_pass(s0.kv, write@.checks),
                s0.version != i64::MAX,
                ids@.len() == write@.enqueues.len(),
                store_wf(s0),
                v2 == new_version,
                s0.version < v2 == s0.version + 1,
                kv_rows_ok(kv_model(new_kv@), v2),
                spec_apply_mutations(s0.kv, write@.mutations, v2) == spec_apply_mutations(
                    kv_model(new_kv@),
                    write@.mutations.skip(m as int),
                    v2,
                ),
            decreases write@.mutations.len() - m,
        {
            let ghost cur = kv_model(new_kv@);
            let ghost ms = write@.mutations.skip(m as int);
            proof {
                assert(ms[0] == write@.mutations[m as int]);
                assert(ms.drop_first() =~= write@.mutations.skip(m + 1));
                assert(write.mutations@[m as int]@ == write@.mutations[m as int]);
                lemma_apply_mutation_ok(cur, ms[0], v2);
            }
            let mu = &write.mutations[m];
            match &mu.kind {
                crate::types::MutationKind::Put(value) => {
                    let (bytes, tag) = crate::values::encode_value(value);
                    let row = KvRow {
                        key: copy_bytes(&mu.key),
                        value: bytes,
                        encoding: tag,
                        version: new_version,
                        expiration_ms: expiration_exec(&mu.expire_at),
                    };
                    proof {
                        assert(row@.key =~= mu@.key);
                        assert(row@ == spec_put_row(mu@.key, value@, v2, mu@.expire_at));
                    }
                    upsert_row(&mut new_kv, row);
                }
                crate::types::MutationKind::Delete => {
                    delete_row(&mut new_kv, &mu.key);
                }
                _ => {
                    let operand = match &mu.kind {
                        crate::types::MutationKind::Sum(v) => v,
                        crate::types::MutationKind::Min(v) => v,
                        crate::types::MutationKind::Max(v) => v,
                        _ => {
                            proof {
                                assert(false);
                            }
                            &crate::values::Value::U64(0)
                        }
                    };
                    let x = match operand {
                        crate::values::Value::U64(x) => *x,
                        _ => {
                            return Err(KvError::NonU64Operand);
                        }
                    };
                    let stored = match find_row(&new_kv, &mu.key) {
                        Some(i) => {
                            let row = &new_kv[i];
                            if row.encoding != crate::values::VALUE_ENCODING_LE64 {
                                proof {
                                    assert(spec_decode_value(cur[i as int].value, cur[i as int].encoding) !is U64);
                                }
                                return Err(KvError::NonU64Value);
                            }
                            proof {
                                assert(spec_valid_encoding(cur[i as int].value, cur[i as int].encoding));
                            }
                            let a = vstd::bytes::u64_from_le_bytes(row.value.as_slice());
                            Some(a)
                        }
                        None => None,
                    };
                    let combined: u64 = match stored {
                        Some(a) => {
                            match &mu.kind {
                                crate::types::MutationKind::Sum(_) => a.wrapping_add(x),
                                crate::types::MutationKind::Min(_) => if a < x {
                                    a
                                } else {
                                    x
                                },
                                _ => if a > x {
                                    a
                                } else {
                                    x
                                },
                            }
                        }
                        None => x,
                    };
                    let row = KvRow {
                        key: copy_bytes(&mu.key),
                        value: vstd::bytes::u64_to_le_bytes(combined),
                        encoding: crate::values::VALUE_ENCODING_LE64,
                        version: new_version,
                        expiration_ms: expiration_exec(&mu.expire_at),
                    };
                    proof {
                        assert(row@.key =~= mu@.key);
                        assert(row@ == spec_u64_row(mu@.key, combined, v2, mu@.expire_at));
                    }
                    upsert_row(&mut new_kv, row);
                }
            }
            proof {
                assert(spec_apply_mutation(cur, ms[0], v2) == Ok::<Seq<KvRowModel>, KvError>(
                    kv_model(new_kv@),
                ));
            }
            m = m + 1;
        }
        proof {
            assert(write@.mutations.skip(write@.mutations.len() as int) =~= Seq::<
                crate::types::MutationModel,
            >::empty());
            assert(spec_apply_mutations(s0.kv, write@.mutations, v2) == Ok::<
                Seq<KvRowModel>,
                KvError,
            >(kv_model(new_kv@)));
        }
        // Commit: swap in the new rows, bump the version, append the
        // enqueues.
        self.kv = new_kv;
        self.version = new_version;
        let ghost q0 = s0.queue;
        let ghost kv2 = kv_model(self.kv@);
        proof {
            assert(queue_model(self.queue@) =~= q0);
            assert(running_model(self.running@) =~= s0.running);
            assert(write@.enqueues.skip(0) =~= write@.enqueues);
            assert(ids@.skip(0) =~= ids@);
            assert(queue_sorted(q0));
            assert(queue_ids_unique(q0));
            assert forall|i: int| 0 <= i < ids@.len() implies queue_id_absent(
                q0,
                #[trigger] ids@[i],
            ) by {
                assert(!id_in_queues(s0, ids@[i]));
            }
        }
        let mut e: usize = 0;
        while e < write.enqueues.len()
            invariant
                e <= write@.enqueues.len(),
                ids@.len() == write@.enqueues.len(),
                s0 == old(self)@,
                !s0.closed,
                crate::limits::spec_write_within_limits(write@),
                spec_ids_fresh(s0, ids@),
                spec_checks_pass(s0.kv, write@.checks),
                s0.version != i64::MAX,
                store_wf(s0),
                v2 == new_version,
                s0.version < v2 == s0.version + 1,
                q0 == s0.queue,
                kv2 == kv_model(self.kv@),
                spec_apply_mutations(s0.kv, write@.mutations, v2) == Ok::<Seq<KvRowModel>, KvError>(kv2),
                self.version == v2,
                self.closed == s0.closed,
                self.in_flight == s0.in_flight,
                running_model(self.running@) == s0.running,
                queue_sorted(queue_model(self.queue@)),
                spec_enqueue_all(q0, write@.enqueues, ids@, now_ms) == spec_enqueue_all(
                    queue_model(self.queue@),
                    write@.enqueues.skip(e as int),
                    ids@.skip(e as int),
                    now_ms,
                ),
                queue_sorted(q0),
                queue_ids_unique(q0),
                forall|i: int| 0 <= i < ids@.len() ==> queue_id_absent(q0, #[trigger] ids@[i]),
                forall|i: int, j2: int| 0 <= i < j2 < ids@.len() ==> ids@[i] != ids@[j2],
                queue_ids_unique(queue_model(self.queue@)),
                forall|i: int|
                    e <= i < ids@.len() ==> queue_id_absent(
                        queue_model(self.queue@),
                        #[trigger] ids@[i],
                    ),
            decreases write@.enqueues.len() - e,
        {
            let ghost curq = queue_model(self.queue@);
            let ghost es = write@.enqueues.skip(e as int);
            let ghost eids = ids@.skip(e as int);
            proof {
                assert(es[0] == write@.enqueues[e as int]);
                assert(eids[0] == ids@[e as int]);
                assert(es.drop_first() =~= write@.enqueues.skip(e + 1));
                assert(eids.drop_first() =~= ids@.skip(e + 1));
                assert(write.enqueues@[e as int]@ == write@.enqueues[e as int]);
            }
            let enq = &write.enqueues[e];
            let ts = now_ms.saturating_add(enq.delay_ms);
            let backoff = match &enq.backoff_schedule {
                Some(b) => copy_u64s(b),
                None => default_backoff_schedule(),
            };
            let row = QueueRow {
                ts,
                id: ids[e],
                data: copy_bytes(&enq.payload),
                backoff_schedule: backoff,
                keys_if_undelivered: copy_keys(&enq.keys_if_undelivered),
            };
            proof {
                assert(row@.keys_if_undelivered =~= write@.enqueues[e as int].keys_if_undelivered);
                assert(row@ == spec_enqueue_row(es[0], eids[0], now_ms));
                lemma_queue_insert_props(curq, row@);
            }
            queue_insert_exec(&mut self.queue, row);
            proof {
                assert forall|i: int| e + 1 <= i < ids@.len() implies queue_id_absent(
                    queue_model(self.queue@),
                    #[trigger] ids@[i],
                ) by {
                    assert(ids@[i] != row@.id);
                    assert(queue_id_absent(curq, ids@[i]));
                }
            }
            e = e + 1;
        }
        proof {
            assert(write@.enqueues.skip(write@.enqueues.len() as int) =~= Seq::<
                crate::types::EnqueueModel,
            >::empty());
            assert(ids@.skip(ids@.len() as int) =~= Seq::<u128>::empty());
            assert(queue_model(self.queue@) == spec_enqueue_all(q0, write@.enqueues, ids@, now_ms));
        }
        let result = crate::types::CommitResult { versionstamp: version_to_versionstamp(new_version) };
        proof {
            lemma_apply_mutations_ok(s0.kv, write@.mutations, v2);
            lemma_enqueue_all_props(q0, write@.enqueues, ids@, now_ms);
            let (s2, res) = spec_commit(s0, write@, now_ms, ids@);
            assert(running_model(self.running@) =~= s0.running);
            assert forall|i: int, j2: int|
                0 <= i < queue_model(self.queue@).len() && 0 <= j2 < s0.running.len() implies (
            #[trigger] queue_model(self.queue@)[i]).id != (#[trigger] s0.running[j2]).id by {
                let q2 = queue_model(self.queue@);
                if q0.contains(q2[i]) {
                    let w = choose|w: int| 0 <= w < q0.len() && q0[w] == q2[i];
                } else {
                    let w = choose|w: int|
                        0 <= w < write@.enqueues.len() && q2[i] == spec_enqueue_row(
                            #[trigger] write@.enqueues[w],
                            ids@[w],
                            now_ms,
                        );
                    assert(!id_in_queues(s0, ids@[w]));
                }
            }
            assert(self@ == s2);
            assert(store_wf(self@));
        }
        Ok(Some(result))
    }
}

/// Relies on chrono's Utc clock: the wall-clock time in milliseconds since
/// the epoch.  Nothing is promised of the value; callers state what holds
/// whatever time comes back.
#[verifier::external_body]
fn now_millis() -> u64 {
    chrono::Utc::now().timestamp_millis() as u64
}

/// Relies on uuid's version-4 generator: a randomly drawn 128-bit message
/// id.  Nothing is promised of the value; the engine checks freshness
/// itself before committing.
#[verifier::external_body]
fn fresh_id() -> u128 {
    uuid::Uuid::new_v4().as_u128()
}

impl Store {
    /// Commits an atomic write using the wall clock and freshly drawn
    /// message ids.  Whatever the clock and the generator returned, the
    /// commit is the deterministic one of `atomic_write_at` for those
    /// values; the generator's ids are checked fresh, never assumed so.
    pub fn atomic_write(&mut self, write: &crate::types::AtomicWrite) -> (r: Result<
        Option<crate::types::CommitResult>,
        KvError,
    >)
        requires
            store_wf(old(self)@),
        ensures
            store_wf(final(self)@),
            old(self)@.closed ==> final(self)@ == old(self)@ && r == Err::<
                Option<crate::types::CommitResult>,
                KvError,
            >(KvError::ClosedDatabase),
            !old(self)@.closed && !crate::limits::spec_write_within_limits(write@) ==> final(self)@
                == old(self)@ && (r matches Err(e) && spec_limit_error(write@, e)),
            !old(self)@.closed && crate::limits::spec_write_within_limits(write@) ==> exists|
                now: u64,
                ids: Seq<u128>,
            |
                ids.len() == write@.enqueues.len() && final(self)@ == spec_commit(
                    old(self)@,
                    write@,
                    now,
                    ids,
                ).0 && commit_result_agrees(r, spec_commit(old(self)@, write@, now, ids).1),
    {
        let now = now_millis();
        let mut ids: Vec<u128> = Vec::new();
        let mut i: usize = 0;
        let n = write.enqueues.len();
        while i < n
            invariant
                i <= n,
                n == write@.enqueues.len(),
                ids@.len() == i,
            decreases n - i,
        {
            ids.push(fresh_id());
            i = i + 1;
        }
        let r = self.atomic_write_at(write, now, &ids);
        proof {
            if !old(self)@.closed && crate::limits::spec_write_within_limits(write@) {
                assert(ids@.len() == write@.enqueues.len() && self@ == spec_commit(
                    old(self)@,
                    write@,
                    now,
                    ids@,
                ).0 && commit_result_agrees(r, spec_commit(old(self)@, write@, now, ids@).1));
            }
        }
        r
    }
}

} // verus!
