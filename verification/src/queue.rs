//! The queue engine: dispatching ready messages, finishing or requeuing
//! running ones, crash recovery, and the expiration sweep.
//!
//! A message is ready (in the ready table), running (handed to a consumer),
//! done (absent), or dead-lettered (its payload written into the store under
//! each of its dead-letter keys).  On failure the head of the message's
//! backoff schedule delays a redelivery; with the schedule exhausted the
//! message is dead-lettered, and in every case it leaves the running table.

use vstd::prelude::*;

use crate::byteseq::copy_bytes;
use crate::errors::KvError;
use crate::store::{
    kv_get, kv_model, kv_rows_ok, kv_upsert, lemma_queue_insert_props, queue_id_absent,
    queue_insert, queue_insert_exec, queue_model, running_model, spec_put_row, store_wf, KvRow,
    KvRowModel, QueueRow, QueueRowModel, RunningRow, RunningRowModel, Store, StoreModel,
};
use crate::values::ValueModel;

verus! {

/// The running row a dispatched ready row becomes: its delivery time is kept
/// as the deadline.
pub open spec fn row_to_running(q: QueueRowModel) -> RunningRowModel {
    RunningRowModel {
        deadline: q.ts,
        id: q.id,
        data: q.data,
        backoff_schedule: q.backoff_schedule,
        keys_if_undelivered: q.keys_if_undelivered,
    }
}

/// How many leading ready rows are due at `now`.
pub open spec fn spec_due_len(q: Seq<QueueRowModel>, now: u64) -> int
    decreases q.len(),
{
    if q.len() == 0 {
        0
    } else if q[0].ts <= now {
        1 + spec_due_len(q.drop_first(), now)
    } else {
        0
    }
}

/// The size of one dispatch batch: the due prefix, capped at one hundred.
pub open spec fn spec_batch_len(q: Seq<QueueRowModel>, now: u64) -> int {
    if spec_due_len(q, now) > 100 {
        100
    } else {
        spec_due_len(q, now)
    }
}

/// The due prefix is exactly the leading rows whose delivery time has come.
pub proof fn lemma_due_len(q: Seq<QueueRowModel>, now: u64)
    ensures
        0 <= spec_due_len(q, now) <= q.len(),
        forall|i: int| 0 <= i < spec_due_len(q, now) ==> (#[trigger] q[i]).ts <= now,
        spec_due_len(q, now) < q.len() ==> q[spec_due_len(q, now)].ts > now,
    decreases q.len(),
{
    if q.len() > 0 && q[0].ts <= now {
        lemma_due_len(q.drop_first(), now);
        assert(forall|i: int|
            0 < i < q.len() ==> (#[trigger] q[i]) == q.drop_first()[i - 1]);
    }
}

/// The row under an id in the running table, if any.
pub open spec fn running_get(rs: Seq<RunningRowModel>, id: u128) -> Option<RunningRowModel>
    decreases rs.len(),
{
    if rs.len() == 0 {
        None
    } else if rs[0].id == id {
        Some(rs[0])
    } else {
        running_get(rs.drop_first(), id)
    }
}

/// The running table without the row under an id.
pub open spec fn running_delete(rs: Seq<RunningRowModel>, id: u128) -> Seq<RunningRowModel>
    decreases rs.len(),
{
    if rs.len() == 0 {
        Seq::empty()
    } else if rs[0].id == id {
        rs.drop_first()
    } else {
        seq![rs[0]] + running_delete(rs.drop_first(), id)
    }
}

/// What deleting by id leaves: every other row, in order.
pub proof fn lemma_running_delete(rs: Seq<RunningRowModel>, id: u128)
    ensures
        running_delete(rs, id).len() <= rs.len(),
        running_get(rs, id) is Some ==> running_delete(rs, id).len() == rs.len() - 1,
        running_get(rs, id) is None ==> running_delete(rs, id) =~= rs,
        forall|i: int|
            0 <= i < running_delete(rs, id).len() ==> rs.contains(
                #[trigger] running_delete(rs, id)[i],
            ),
        (forall|i: int, j: int|
            0 <= i < j < rs.len() ==> (#[trigger] rs[i]).id != (#[trigger] rs[j]).id) ==> (forall|
            i: int,
        |
            0 <= i < running_delete(rs, id).len() ==> (#[trigger] running_delete(rs, id)[i]).id
                != id),
    decreases rs.len(),
{
    let out = running_delete(rs, id);
    if rs.len() == 0 {
    } else if rs[0].id == id {
        assert(out =~= rs.drop_first());
        assert(forall|i: int| 0 <= i < out.len() ==> (#[trigger] out[i]) == rs[i + 1]);
        assert forall|i: int| 0 <= i < out.len() implies rs.contains(#[trigger] out[i]) by {
            assert(out[i] == rs[i + 1]);
        }
    } else {
        lemma_running_delete(rs.drop_first(), id);
        assert(out =~= seq![rs[0]] + running_delete(rs.drop_first(), id));
        assert(forall|i: int|
            0 <= i < rs.drop_first().len() ==> (#[trigger] rs.drop_first()[i]) == rs[i + 1]);
        assert forall|i: int| 0 <= i < out.len() implies rs.contains(#[trigger] out[i]) by {
            if i == 0 {
                assert(rs.contains(rs[0]));
            } else {
                let sub = running_delete(rs.drop_first(), id);
                assert(out[i] == sub[i - 1]);
                assert(rs.drop_first().contains(sub[i - 1]));
                let w = choose|w: int|
                    0 <= w < rs.drop_first().len() && rs.drop_first()[w] == sub[i - 1];
                assert(rs[w + 1] == sub[i - 1]);
                assert(rs.contains(rs[w + 1]));
            }
        }
        if running_get(rs, id) is Some {
        }
    }
}

/// Deleting one id keeps every other id absent that was absent before.
pub proof fn lemma_running_delete_absent(rs: Seq<RunningRowModel>, id: u128, x: u128)
    requires
        forall|j: int| 0 <= j < rs.len() ==> (#[trigger] rs[j]).id != x,
    ensures
        forall|i: int|
            0 <= i < running_delete(rs, id).len() ==> (#[trigger] running_delete(rs, id)[i]).id
                != x,
{
    lemma_running_delete(rs, id);
    assert forall|i: int| 0 <= i < running_delete(rs, id).len() implies (#[trigger] running_delete(
        rs,
        id,
    )[i]).id != x by {
        let w = choose|w: int| 0 <= w < rs.len() && rs[w] == running_delete(rs, id)[i];
    }
}

/// `running_get` finds rows the table holds, under their own id.
pub proof fn lemma_running_get(rs: Seq<RunningRowModel>, id: u128)
    ensures
        (match running_get(rs, id) {
            Some(row) => row.id == id && rs.contains(row),
            None => forall|i: int| 0 <= i < rs.len() ==> (#[trigger] rs[i]).id != id,
        }),
    decreases rs.len(),
{
    if rs.len() > 0 {
        if rs[0].id == id {
            assert(rs.contains(rs[0]));
        } else {
            lemma_running_get(rs.drop_first(), id);
            match running_get(rs.drop_first(), id) {
                Some(row) => {
                    let w = choose|w: int|
                        0 <= w < rs.drop_first().len() && rs.drop_first()[w] == row;
                    assert(rs[w + 1] == row);
                    assert(rs.contains(rs[w + 1]));
                }
                None => {
                    assert forall|i: int| 0 <= i < rs.len() implies (#[trigger] rs[i]).id
                        != id by {
                        if i > 0 {
                            assert(rs.drop_first()[i - 1] == rs[i]);
                        }
                    }
                }
            }
        }
    }
}

/// The store's rows after writing the payload under every dead-letter key,
/// at the given fresh version, as plain script-data values.
pub open spec fn spec_dead_letter(
    kv: Seq<KvRowModel>,
    keys: Seq<Seq<u8>>,
    data: Seq<u8>,
    version: i64,
) -> Seq<KvRowModel>
    decreases keys.len(),
{
    if keys.len() == 0 {
        kv
    } else {
        spec_dead_letter(
            kv_upsert(kv, spec_put_row(keys[0], ValueModel::V8(data), version, None)),
            keys.drop_first(),
            data,
            version,
        )
    }
}

/// Dead-lettering keeps the row facts.
pub proof fn lemma_dead_letter_ok(
    kv: Seq<KvRowModel>,
    keys: Seq<Seq<u8>>,
    data: Seq<u8>,
    version: i64,
)
    requires
        kv_rows_ok(kv, version),
        version >= 0,
    ensures
        kv_rows_ok(spec_dead_letter(kv, keys, data, version), version),
    decreases keys.len(),
{
    if keys.len() > 0 {
        let row = spec_put_row(keys[0], ValueModel::V8(data), version, None);
        crate::values::lemma_value_roundtrip(ValueModel::V8(data));
        crate::store::lemma_kv_upsert(kv, row, version);
        crate::store::lemma_rows_ok_after_upsert(kv, row, version);
        lemma_dead_letter_ok(kv_upsert(kv, row), keys.drop_first(), data, version);
    }
}

/// The requeue rule.  The running row under the id, if any, leaves the
/// running table; with backoff remaining it rejoins the ready table after
/// the head delay with the tail schedule; with backoff exhausted and
/// dead-letter keys declared, its payload is written under each of them at a
/// fresh version.  The flag says whether a ready row was created.
pub open spec fn spec_requeue(s: StoreModel, id: u128, now: u64) -> Result<
    (StoreModel, bool),
    KvError,
> {
    match running_get(s.running, id) {
        None => Ok((s, false)),
        Some(row) => {
            let s1 = StoreModel { running: running_delete(s.running, id), ..s };
            if row.backoff_schedule.len() > 0 {
                Ok(
                    (
                        StoreModel {
                            queue: queue_insert(
                                s1.queue,
                                QueueRowModel {
                                    ts: now.saturating_add(row.backoff_schedule[0]),
                                    id: row.id,
                                    data: row.data,
                                    backoff_schedule: row.backoff_schedule.drop_first(),
                                    keys_if_undelivered: row.keys_if_undelivered,
                                },
                            ),
                            ..s1
                        },
                        true,
                    ),
                )
            } else if row.keys_if_undelivered.len() > 0 {
                if s.version == i64::MAX {
                    Err(KvError::VersionOverflow)
                } else {
                    Ok(
                        (
                            StoreModel {
                                kv: spec_dead_letter(
                                    s1.kv,
                                    row.keys_if_undelivered,
                                    row.data,
                                    (s.version + 1) as i64,
                                ),
                                version: (s.version + 1) as i64,
                                ..s1
                            },
                            false,
                        ),
                    )
                }
            } else {
                Ok((s1, false))
            }
        }
    }
}

/// Finds the running row under an id.
fn find_running(running: &Vec<RunningRow>, id: u128) -> (r: Option<usize>)
    ensures
        (match r {
            Some(i) => i < running@.len() && running@[i as int]@.id == id && running_get(
                running_model(running@),
                id,
            ) == Some(running@[i as int]@) && (forall|j: int|
                0 <= j < i ==> (#[trigger] running_model(running@)[j]).id != id),
            None => running_get(running_model(running@), id) is None,
        }),
{
    let ghost model = running_model(running@);
    let mut i: usize = 0;
    proof {
        assert(model.skip(0) =~= model);
    }
    while i < running.len()
        invariant
            i <= running@.len(),
            model == running_model(running@),
            running_get(model, id) == running_get(model.skip(i as int), id),
            forall|j: int| 0 <= j < i ==> (#[trigger] model[j]).id != id,
        decreases running@.len() - i,
    {
        proof {
            assert(model.skip(i as int)[0] == model[i as int]);
            assert(model.skip(i as int).drop_first() =~= model.skip(i + 1));
        }
        if running[i].id == id {
            return Some(i);
        }
        i = i + 1;
    }
    proof {
        assert(model.skip(running@.len() as int) =~= Seq::<RunningRowModel>::empty());
    }
    None
}

/// Removing a found running row realizes `running_delete`.
proof fn lemma_running_delete_at(rs: Seq<RunningRowModel>, id: u128, pos: int)
    requires
        0 <= pos < rs.len(),
        rs[pos].id == id,
        forall|j: int| 0 <= j < pos ==> (#[trigger] rs[j]).id != id,
    ensures
        running_delete(rs, id) =~= rs.take(pos) + rs.skip(pos + 1),
    decreases rs.len(),
{
    reveal_with_fuel(running_delete, 2);
    if pos == 0 {
        assert(rs.take(0) + rs.skip(1) =~= rs.drop_first());
    } else {
        assert(rs[0].id != id);
        let sub = rs.drop_first();
        assert(forall|j: int| 0 <= j < pos - 1 ==> (#[trigger] sub[j]).id != id);
        assert(sub[pos - 1] == rs[pos]);
        lemma_running_delete_at(sub, id, pos - 1);
        assert(running_delete(rs, id) == seq![rs[0]] + running_delete(sub, id));
        assert(seq![rs[0]] + (sub.take(pos - 1) + sub.skip(pos)) =~= rs.take(pos) + rs.skip(
            pos + 1,
        ));
    }
}

impl Store {
    /// The delivery time of the next ready message: the head of the ready
    /// table, which is kept sorted by delivery time.
    pub fn earliest_ready_ts(&self) -> (r: Option<u64>)
        requires
            store_wf(self@),
        ensures
            (match r {
                Some(ts) => self@.queue.len() > 0 && ts == self@.queue[0].ts && forall|i: int|
                    0 <= i < self@.queue.len() ==> ts <= (#[trigger] self@.queue[i]).ts,
                None => self@.queue.len() == 0,
            }),
    {
        if self.queue.len() == 0 {
            None
        } else {
            let ts = self.queue[0].ts;
            proof {
                assert(self@.queue[0] == self.queue@[0]@);
                assert forall|i: int| 0 <= i < self@.queue.len() implies ts <= (
                #[trigger] self@.queue[i]).ts by {
                    if i > 0 {
                        assert(self@.queue[0].ts <= self@.queue[i].ts);
                    }
                }
            }
            Some(ts)
        }
    }

    /// Moves the due prefix of the ready table, at most one hundred rows, to
    /// the running table, and hands back their ids and payloads in delivery
    /// order.
    #[verifier::rlimit(100)]
    #[verifier::spinoff_prover]
    pub fn dequeue_ready_at(&mut self, now: u64) -> (r: Result<Vec<(u128, Vec<u8>)>, KvError>)
        requires
            store_wf(old(self)@),
        ensures
            store_wf(final(self)@),
            r is Err <==> old(self)@.closed,
            r matches Err(e) ==> e == KvError::ClosedDatabase && final(self)@ == old(self)@,
            r matches Ok(msgs) ==> ({
                let k = spec_batch_len(old(self)@.queue, now);
                &&& final(self)@ == (StoreModel {
                    queue: old(self)@.queue.skip(k),
                    running: old(self)@.running + Seq::new(
                        k as nat,
                        |i: int| row_to_running(old(self)@.queue[i]),
                    ),
                    ..old(self)@
                })
                &&& msgs@.len() == k
                &&& forall|i: int|
                    0 <= i < k ==> (#[trigger] msgs@[i]).0 == old(self)@.queue[i].id
                        && msgs@[i].1@ == old(self)@.queue[i].data
            }),
    {
        let ghost s0 = self@;
        if self.closed {
            return Err(KvError::ClosedDatabase);
        }
        proof {
            lemma_due_len(s0.queue, now);
            assert(queue_model(self.queue@) =~= s0.queue);
            assert(running_model(self.running@) =~= s0.running);
            assert(s0.queue.skip(0) =~= s0.queue);
            assert(s0.running + Seq::new(0, |i: int| row_to_running(s0.queue[i])) =~= s0.running);
        }
        let mut msgs: Vec<(u128, Vec<u8>)> = Vec::new();
        let mut taken: usize = 0;
        while taken < 100 && self.queue.len() > 0 && self.queue[0].ts <= now
            invariant
                s0 == old(self)@,
                !s0.closed,
                store_wf(s0),
                taken <= 100,
                taken <= s0.queue.len(),
                forall|i: int| 0 <= i < taken ==> (#[trigger] s0.queue[i]).ts <= now,
                queue_model(self.queue@) == s0.queue.skip(taken as int),
                running_model(self.running@) == s0.running + Seq::new(
                    taken as nat,
                    |i: int| row_to_running(s0.queue[i]),
                ),
                kv_model(self.kv@) == s0.kv,
                self.version == s0.version,
                self.closed == s0.closed,
                self.in_flight == s0.in_flight,
                msgs@.len() == taken,
                forall|i: int|
                    0 <= i < taken ==> (#[trigger] msgs@[i]).0 == s0.queue[i].id && msgs@[i].1@
                        == s0.queue[i].data,
            decreases 100 - taken,
        {
            let ghost qcur = queue_model(self.queue@);
            proof {
                assert(qcur.len() == self.queue@.len());
                assert(qcur.len() > 0);
                assert(s0.queue.skip(taken as int).len() == s0.queue.len() - taken);
                assert(taken < s0.queue.len());
                assert(s0.queue.skip(taken as int)[0] == s0.queue[taken as int]);
                assert(qcur[0] == s0.queue[taken as int]);
                assert(qcur.drop_first() =~= s0.queue.skip(taken + 1));
            }
            let row = self.queue.remove(0);
            proof {
                assert(queue_model(self.queue@) =~= qcur.drop_first());
                assert(row@ == s0.queue[taken as int]);
            }
            let running_row = RunningRow {
                deadline: row.ts,
                id: row.id,
                data: copy_bytes(&row.data),
                backoff_schedule: row.backoff_schedule,
                keys_if_undelivered: row.keys_if_undelivered,
            };
            let ghost rcur = running_model(self.running@);
            proof {
                assert(running_row@ == row_to_running(s0.queue[taken as int]));
            }
            self.running.push(running_row);
            msgs.push((row.id, row.data));
            proof {
                let next = s0.running + Seq::new(
                    (taken + 1) as nat,
                    |i: int| row_to_running(s0.queue[i]),
                );
                assert(running_model(self.running@).len() == rcur.len() + 1);
                assert forall|i: int| 0 <= i < rcur.len() implies running_model(
                    self.running@,
                )[i] == rcur[i] by {
                    assert(running_model(self.running@)[i] == self.running@[i]@);
                }
                assert(running_model(self.running@)[rcur.len() as int] == running_row@);
                assert forall|i: int| 0 <= i < next.len() implies running_model(
                    self.running@,
                )[i] == next[i] by {
                    if i < s0.running.len() {
                        assert(rcur[i] == s0.running[i]);
                    } else if i < rcur.len() {
                        assert(rcur[i] == row_to_running(s0.queue[i - s0.running.len()]));
                        assert(next[i] == row_to_running(s0.queue[i - s0.running.len()]));
                    } else {
                        assert(next[i] == row_to_running(s0.queue[taken as int]));
                    }
                }
                assert(running_model(self.running@) =~= next);
            }
            taken = taken + 1;
        }
        proof {
            // The loop stops exactly at the spec batch length.
            let k = spec_batch_len(s0.queue, now);
            let due = spec_due_len(s0.queue, now);
            if taken < 100 && (taken as int) < s0.queue.len() {
                assert(queue_model(self.queue@)[0] == s0.queue[taken as int]);
                assert(s0.queue[taken as int].ts > now);
            }
            // The due prefix is at least as long as what was taken.
            assert(due >= taken) by {
                if due < taken {
                    assert(s0.queue[due].ts > now);
                    assert(s0.queue[due].ts <= now);
                }
            }
            if taken < 100 && (taken as int) < s0.queue.len() {
                assert(due <= taken) by {
                    if due > taken {
                        assert(s0.queue[taken as int].ts <= now);
                    }
                }
            } else if taken < 100 {
                assert(taken == s0.queue.len());
                assert(due == taken);
            }
            assert(taken as int == k);
            // Well-formedness of the new state.
            let s2 = StoreModel {
                queue: s0.queue.skip(k),
                running: s0.running + Seq::new(k as nat, |i: int| row_to_running(s0.queue[i])),
                ..s0
            };
            assert(self@ == s2);
            assert(store_wf(s2)) by {
                assert forall|i: int, j: int| 0 <= i < j < s2.queue.len() implies (
                #[trigger] s2.queue[i]).ts <= (#[trigger] s2.queue[j]).ts by {
                    assert(s2.queue[i] == s0.queue[k + i]);
                    assert(s2.queue[j] == s0.queue[k + j]);
                }
                assert forall|i: int, j: int| 0 <= i < j < s2.queue.len() implies (
                #[trigger] s2.queue[i]).id != (#[trigger] s2.queue[j]).id by {
                    assert(s2.queue[i] == s0.queue[k + i]);
                    assert(s2.queue[j] == s0.queue[k + j]);
                }
                assert forall|i: int, j: int| 0 <= i < j < s2.running.len() implies (
                #[trigger] s2.running[i]).id != (#[trigger] s2.running[j]).id by {
                    if j < s0.running.len() {
                    } else if i < s0.running.len() {
                        assert(s2.running[j] == row_to_running(s0.queue[j - s0.running.len()]));
                        assert(s0.queue[j - s0.running.len()].id != s0.running[i].id);
                    } else {
                        assert(s2.running[i] == row_to_running(s0.queue[i - s0.running.len()]));
                        assert(s2.running[j] == row_to_running(s0.queue[j - s0.running.len()]));
                        assert(s0.queue[i - s0.running.len()].id != s0.queue[j
                            - s0.running.len()].id);
                    }
                }
                assert forall|i: int, j: int|
                    0 <= i < s2.queue.len() && 0 <= j < s2.running.len() implies (
                #[trigger] s2.queue[i]).id != (#[trigger] s2.running[j]).id by {
                    assert(s2.queue[i] == s0.queue[k + i]);
                    if j < s0.running.len() {
                    } else {
                        assert(s2.running[j] == row_to_running(s0.queue[j - s0.running.len()]));
                        assert(s0.queue[k + i].id != s0.queue[j - s0.running.len()].id);
                    }
                }
            }
        }
        Ok(msgs)
    }
}

/// Deleting a key's row after each upsert: what dead-lettering stores.
/// Every dead-letter key carries the payload afterwards; every other key is
/// untouched.
pub proof fn lemma_dead_letter_get(
    kv: Seq<KvRowModel>,
    keys: Seq<Seq<u8>>,
    data: Seq<u8>,
    version: i64,
    k: Seq<u8>,
)
    requires
        kv_rows_ok(kv, version),
        0 <= version,
    ensures
        keys.contains(k) ==> kv_get(spec_dead_letter(kv, keys, data, version), k) == Some(
            spec_put_row(k, ValueModel::V8(data), version, None),
        ),
        !keys.contains(k) ==> kv_get(spec_dead_letter(kv, keys, data, version), k) == kv_get(
            kv,
            k,
        ),
    decreases keys.len(),
{
    if keys.len() > 0 {
        let row = spec_put_row(keys[0], ValueModel::V8(data), version, None);
        crate::values::lemma_value_roundtrip(ValueModel::V8(data));
        crate::store::lemma_kv_upsert(kv, row, version);
        crate::store::lemma_rows_ok_after_upsert(kv, row, version);
        let kv1 = kv_upsert(kv, row);
        lemma_dead_letter_get(kv1, keys.drop_first(), data, version, k);
        if keys.contains(k) {
            let w = choose|w: int| 0 <= w < keys.len() && keys[w] == k;
            if w > 0 {
                assert(keys.drop_first()[w - 1] == k);
                assert(keys.drop_first().contains(k));
            } else {
                if keys.drop_first().contains(k) {
                } else {
                    assert(kv_get(kv1, k) == Some(row));
                }
            }
        } else {
            assert(!keys.drop_first().contains(k)) by {
                if keys.drop_first().contains(k) {
                    let w = choose|w: int|
                        0 <= w < keys.drop_first().len() && keys.drop_first()[w] == k;
                    assert(keys[w + 1] == k);
                    assert(keys.contains(keys[w + 1]));
                }
            }
            assert(keys[0] != k) by {
                if keys[0] == k {
                    assert(keys.contains(keys[0]));
                }
            }
        }
    }
}

impl Store {
    /// The requeue rule, applied to one message id.  Returns whether a new
    /// ready row was created, in which case the dispatcher should wake.
    #[verifier::rlimit(100)]
    #[verifier::spinoff_prover]
    pub fn requeue_message_at(&mut self, id: u128, now: u64) -> (r: Result<bool, KvError>)
        requires
            store_wf(old(self)@),
        ensures
            store_wf(final(self)@),
            old(self)@.closed ==> final(self)@ == old(self)@ && r == Err::<bool, KvError>(
                KvError::ClosedDatabase,
            ),
            !old(self)@.closed ==> (match spec_requeue(old(self)@, id, now) {
                Ok(pair) => final(self)@ == pair.0 && r == Ok::<bool, KvError>(pair.1),
                Err(e) => final(self)@ == old(self)@ && r == Err::<bool, KvError>(e),
            }),
    {
        let ghost s0 = self@;
        if self.closed {
            return Err(KvError::ClosedDatabase);
        }
        proof {
            assert(running_model(self.running@) =~= s0.running);
            assert(queue_model(self.queue@) =~= s0.queue);
            assert(kv_model(self.kv@) =~= s0.kv);
        }
        let pos = match find_running(&self.running, id) {
            Some(pos) => pos,
            None => {
                return Ok(false);
            }
        };
        let ghost row_model = s0.running[pos as int];
        // The one failure leaves everything untouched, so test it first.
        if self.running[pos].backoff_schedule.len() == 0
            && self.running[pos].keys_if_undelivered.len() > 0 && self.version == i64::MAX {
            return Err(KvError::VersionOverflow);
        }
        let row = self.running.remove(pos);
        proof {
            assert(row@ == row_model);
            lemma_running_delete_at(s0.running, id, pos as int);
            assert(running_model(self.running@) =~= s0.running.take(pos as int) + s0.running.skip(
                pos as int + 1,
            ));
            assert(running_model(self.running@) == running_delete(s0.running, id));
            lemma_running_delete(s0.running, id);
        }
        let ghost s1 = StoreModel { running: running_delete(s0.running, id), ..s0 };
        proof {
            assert(self@ == s1);
        }
        if row.backoff_schedule.len() > 0 {
            let delay = row.backoff_schedule[0];
            let mut tail = row.backoff_schedule;
            tail.remove(0);
            proof {
                assert(tail@ =~= row_model.backoff_schedule.drop_first());
            }
            let qrow = QueueRow {
                ts: now.saturating_add(delay),
                id: row.id,
                data: row.data,
                backoff_schedule: tail,
                keys_if_undelivered: row.keys_if_undelivered,
            };
            proof {
                assert(qrow@ == (QueueRowModel {
                    ts: now.saturating_add(row_model.backoff_schedule[0]),
                    id: row_model.id,
                    data: row_model.data,
                    backoff_schedule: row_model.backoff_schedule.drop_first(),
                    keys_if_undelivered: row_model.keys_if_undelivered,
                }));
                assert(queue_id_absent(s1.queue, qrow@.id)) by {
                    assert forall|i: int| 0 <= i < s1.queue.len() implies (
                    #[trigger] s1.queue[i]).id != qrow@.id by {
                        assert(s0.queue[i].id != s0.running[pos as int].id);
                    }
                }
                lemma_queue_insert_props(s1.queue, qrow@);
            }
            queue_insert_exec(&mut self.queue, qrow);
            proof {
                let s2 = spec_requeue(s0, id, now)->Ok_0.0;
                assert(self@ == s2);
                assert(store_wf(self@)) by {
                    let q2 = queue_model(self.queue@);
                    assert forall|i: int, j: int|
                        0 <= i < q2.len() && 0 <= j < running_delete(s0.running, id).len() implies (
                    #[trigger] q2[i]).id != (#[trigger] running_delete(s0.running, id)[j]).id by {
                        let rd = running_delete(s0.running, id);
                        assert(rd[j].id != id) by {
                            lemma_running_delete(s0.running, id);
                        }
                        if q2[i] == qrow@ {
                        } else {
                            assert(s1.queue.contains(q2[i]));
                            let w = choose|w: int| 0 <= w < s1.queue.len() && s1.queue[w] == q2[i];
                            let v = choose|v: int| 0 <= v < s0.running.len() && s0.running[v] == rd[j];
                            assert(s0.queue[w].id != s0.running[v].id);
                        }
                    }
                    assert forall|i: int, j: int|
                        0 <= i < j < running_delete(s0.running, id).len() implies (
                    #[trigger] running_delete(s0.running, id)[i]).id != (
                    #[trigger] running_delete(s0.running, id)[j]).id by {
                        lemma_running_delete_at(s0.running, id, pos as int);
                        let rd = running_delete(s0.running, id);
                        assert(rd =~= s0.running.take(pos as int) + s0.running.skip(pos as int + 1));
                        if i < pos {
                            assert(rd[i] == s0.running[i]);
                        } else {
                            assert(rd[i] == s0.running[i + 1]);
                        }
                        if j < pos {
                            assert(rd[j] == s0.running[j]);
                        } else {
                            assert(rd[j] == s0.running[j + 1]);
                        }
                    }
                }
            }
            Ok(true)
        } else if row.keys_if_undelivered.len() > 0 {
            let new_version = self.version + 1;
            let ghost v2 = new_version;
            proof {
                assert(kv_rows_ok(s1.kv, v2)) by {
                    assert forall|i: int| 0 <= i < s1.kv.len() implies 0 <= (
                    #[trigger] s1.kv[i]).version <= v2 by {
                        assert(s0.kv[i].version <= s0.version);
                    }
                }
                assert(row@.keys_if_undelivered.skip(0) =~= row_model.keys_if_undelivered);
            }
            let mut i: usize = 0;
            while i < row.keys_if_undelivered.len()
                invariant
                    i <= row.keys_if_undelivered@.len(),
                    row@.keys_if_undelivered =~= row_model.keys_if_undelivered,
                    v2 == new_version,
                    0 <= v2,
                    kv_rows_ok(kv_model(self.kv@), v2),
                    spec_dead_letter(s1.kv, row_model.keys_if_undelivered, row_model.data, v2)
                        == spec_dead_letter(
                        kv_model(self.kv@),
                        row@.keys_if_undelivered.skip(i as int),
                        row_model.data,
                        v2,
                    ),
                    queue_model(self.queue@) == s1.queue,
                    running_model(self.running@) == s1.running,
                    self.version == s0.version,
                    self.closed == s0.closed,
                    self.in_flight == s0.in_flight,
                    s0 == old(self)@,
                    !s0.closed,
                    store_wf(s0),
                    s1 == (StoreModel { running: running_delete(s0.running, id), ..s0 }),
                    row@.data == row_model.data,
                    s0.version < i64::MAX,
                decreases row.keys_if_undelivered@.len() - i,
            {
                let ghost ks = row@.keys_if_undelivered.skip(i as int);
                let ghost cur = kv_model(self.kv@);
                proof {
                    assert(ks[0] == row@.keys_if_undelivered[i as int]);
                    assert(ks.drop_first() =~= row@.keys_if_undelivered.skip(i + 1));
                    assert(row.keys_if_undelivered@[i as int]@ == row@.keys_if_undelivered[i as int]);
                }
                let kv_row = KvRow {
                    key: copy_bytes(&row.keys_if_undelivered[i]),
                    value: copy_bytes(&row.data),
                    encoding: crate::values::VALUE_ENCODING_V8,
                    version: new_version,
                    expiration_ms: -1,
                };
                proof {
                    assert(kv_row@ == spec_put_row(ks[0], ValueModel::V8(row_model.data), v2, None));
                    crate::values::lemma_value_roundtrip(ValueModel::V8(row_model.data));
                    crate::store::lemma_kv_upsert(cur, kv_row@, v2);
                    crate::store::lemma_rows_ok_after_upsert(cur, kv_row@, v2);
                }
                crate::store::upsert_row(&mut self.kv, kv_row);
                i = i + 1;
            }
            proof {
                assert(row@.keys_if_undelivered.skip(row@.keys_if_undelivered.len() as int) =~= Seq::<
                    Seq<u8>,
                >::empty());
            }
            self.version = new_version;
            proof {
                let s2 = spec_requeue(s0, id, now)->Ok_0.0;
                assert(kv_model(self.kv@) == spec_dead_letter(
                    s1.kv,
                    row_model.keys_if_undelivered,
                    row_model.data,
                    v2,
                ));
                assert(self@ == s2);
                assert(store_wf(self@)) by {
                    lemma_running_delete_at(s0.running, id, pos as int);
                    let rd = running_delete(s0.running, id);
                    assert(rd =~= s0.running.take(pos as int) + s0.running.skip(pos as int + 1));
                    assert forall|a: int, b: int| 0 <= a < b < rd.len() implies (
                    #[trigger] rd[a]).id != (#[trigger] rd[b]).id by {
                        if a < pos {
                            assert(rd[a] == s0.running[a]);
                        } else {
                            assert(rd[a] == s0.running[a + 1]);
                        }
                        if b < pos {
                            assert(rd[b] == s0.running[b]);
                        } else {
                            assert(rd[b] == s0.running[b + 1]);
                        }
                    }
                    assert forall|a: int, b: int|
                        0 <= a < s0.queue.len() && 0 <= b < rd.len() implies (
                    #[trigger] s0.queue[a]).id != (#[trigger] rd[b]).id by {
                        if b < pos {
                            assert(rd[b] == s0.running[b]);
                        } else {
                            assert(rd[b] == s0.running[b + 1]);
                        }
                    }
                }
            }
            Ok(false)
        } else {
            proof {
                let s2 = spec_requeue(s0, id, now)->Ok_0.0;
                assert(self@ == s2);
                assert(store_wf(self@)) by {
                    lemma_running_delete_at(s0.running, id, pos as int);
                    let rd = running_delete(s0.running, id);
                    assert(rd =~= s0.running.take(pos as int) + s0.running.skip(pos as int + 1));
                    assert forall|a: int, b: int| 0 <= a < b < rd.len() implies (
                    #[trigger] rd[a]).id != (#[trigger] rd[b]).id by {
                        if a < pos {
                            assert(rd[a] == s0.running[a]);
                        } else {
                            assert(rd[a] == s0.running[a + 1]);
                        }
                        if b < pos {
                            assert(rd[b] == s0.running[b]);
                        } else {
                            assert(rd[b] == s0.running[b + 1]);
                        }
                    }
                    assert forall|a: int, b: int|
                        0 <= a < s0.queue.len() && 0 <= b < rd.len() implies (
                    #[trigger] s0.queue[a]).id != (#[trigger] rd[b]).id by {
                        if b < pos {
                            assert(rd[b] == s0.running[b]);
                        } else {
                            assert(rd[b] == s0.running[b + 1]);
                        }
                    }
                }
            }
            Ok(false)
        }
    }

    /// Reports a dispatched message's outcome.  Success removes the running
    /// row; failure applies the requeue rule.  The flag says whether a new
    /// ready row was created.
    pub fn finish_at(&mut self, id: u128, success: bool, now: u64) -> (r: Result<bool, KvError>)
        requires
            store_wf(old(self)@),
        ensures
            store_wf(final(self)@),
            old(self)@.closed ==> final(self)@ == old(self)@ && r == Err::<bool, KvError>(
                KvError::ClosedDatabase,
            ),
            !old(self)@.closed && success ==> final(self)@ == (StoreModel {
                running: running_delete(old(self)@.running, id),
                ..old(self)@
            }) && r == Ok::<bool, KvError>(false),
            !old(self)@.closed && !success ==> (match spec_requeue(old(self)@, id, now) {
                Ok(pair) => final(self)@ == pair.0 && r == Ok::<bool, KvError>(pair.1),
                Err(e) => final(self)@ == old(self)@ && r == Err::<bool, KvError>(e),
            }),
    {
        let ghost s0 = self@;
        if self.closed {
            return Err(KvError::ClosedDatabase);
        }
        if !success {
            return self.requeue_message_at(id, now);
        }
        proof {
            assert(running_model(self.running@) =~= s0.running);
        }
        match find_running(&self.running, id) {
            Some(pos) => {
                self.running.remove(pos);
                proof {
                    lemma_running_delete_at(s0.running, id, pos as int);
                    assert(running_model(self.running@) =~= s0.running.take(pos as int)
                        + s0.running.skip(pos as int + 1));
                    assert(self@ == (StoreModel {
                        running: running_delete(s0.running, id),
                        ..s0
                    }));
                    assert(store_wf(self@)) by {
                        let rd = running_delete(s0.running, id);
                        assert(rd =~= s0.running.take(pos as int) + s0.running.skip(
                            pos as int + 1,
                        ));
                        assert forall|a: int, b: int| 0 <= a < b < rd.len() implies (
                        #[trigger] rd[a]).id != (#[trigger] rd[b]).id by {
                            if a < pos {
                                assert(rd[a] == s0.running[a]);
                            } else {
                                assert(rd[a] == s0.running[a + 1]);
                            }
                            if b < pos {
                                assert(rd[b] == s0.running[b]);
                            } else {
                                assert(rd[b] == s0.running[b + 1]);
                            }
                        }
                        assert forall|a: int, b: int|
                            0 <= a < s0.queue.len() && 0 <= b < rd.len() implies (
                        #[trigger] s0.queue[a]).id != (#[trigger] rd[b]).id by {
                            if b < pos {
                                assert(rd[b] == s0.running[b]);
                            } else {
                                assert(rd[b] == s0.running[b + 1]);
                            }
                        }
                    }
                }
                Ok(false)
            }
            None => {
                proof {
                    lemma_running_delete(s0.running, id);
                    assert(running_delete(s0.running, id) =~= s0.running);
                    assert(self@ == (StoreModel {
                        running: running_delete(s0.running, id),
                        ..s0
                    }));
                }
                Ok(false)
            }
        }
    }
}

/// What starting up does to the running table: the requeue rule is applied
/// to every inflight message, front to back, until the table is empty.
pub open spec fn spec_recover(s: StoreModel, now: u64) -> (StoreModel, Result<(), KvError>)
    decreases s.running.len(),
{
    if s.running.len() == 0 {
        (s, Ok(()))
    } else {
        match spec_requeue(s, s.running[0].id, now) {
            Err(e) => (s, Err(e)),
            Ok(pair) => if pair.0.running.len() < s.running.len() {
                spec_recover(pair.0, now)
            } else {
                (pair.0, Ok(()))
            },
        }
    }
}

/// The rows left after sweeping everything whose expiration has passed.
pub open spec fn spec_sweep(kv: Seq<KvRowModel>, now: u64) -> Seq<KvRowModel>
    decreases kv.len(),
{
    if kv.len() == 0 {
        Seq::empty()
    } else {
        let rest = spec_sweep(kv.drop_first(), now);
        if 0 <= kv[0].expiration_ms && kv[0].expiration_ms <= now {
            rest
        } else {
            seq![kv[0]] + rest
        }
    }
}

/// What the sweep leaves: expired rows gone, everything else in place.
pub proof fn lemma_sweep_get(kv: Seq<KvRowModel>, now: u64, k: Seq<u8>)
    requires
        forall|i: int, j: int|
            0 <= i < j < kv.len() ==> crate::byteseq::bytes_lt(
                (#[trigger] kv[i]).key,
                (#[trigger] kv[j]).key,
            ),
    ensures
        kv_get(spec_sweep(kv, now), k) == (match kv_get(kv, k) {
            Some(row) => if 0 <= row.expiration_ms && row.expiration_ms <= now {
                None
            } else {
                Some(row)
            },
            None => None::<KvRowModel>,
        }),
        spec_sweep(kv, now).len() <= kv.len(),
        forall|i: int| 0 <= i < spec_sweep(kv, now).len() ==> kv.contains(#[trigger] spec_sweep(kv, now)[i]),
        forall|i: int, j: int|
            0 <= i < j < spec_sweep(kv, now).len() ==> crate::byteseq::bytes_lt(
                (#[trigger] spec_sweep(kv, now)[i]).key,
                (#[trigger] spec_sweep(kv, now)[j]).key,
            ),
    decreases kv.len(),
{
    let out = spec_sweep(kv, now);
    if kv.len() == 0 {
    } else {
        let sub = spec_sweep(kv.drop_first(), now);
        lemma_sweep_get(kv.drop_first(), now, k);
        assert(forall|i: int|
            0 <= i < kv.drop_first().len() ==> (#[trigger] kv.drop_first()[i]) == kv[i + 1]);
        assert forall|i: int| 0 <= i < sub.len() implies kv.contains(#[trigger] sub[i]) by {
            assert(kv.drop_first().contains(sub[i]));
            let w = choose|w: int| 0 <= w < kv.drop_first().len() && kv.drop_first()[w] == sub[i];
            assert(kv[w + 1] == sub[i]);
            assert(kv.contains(kv[w + 1]));
        }
        if 0 <= kv[0].expiration_ms && kv[0].expiration_ms <= now {
            assert(out == sub);
            // The swept head's key is below every remaining key, so lookups
            // for it now miss.
            if kv[0].key == k {
                assert(kv_get(kv, k) == Some(kv[0]));
                crate::store::lemma_kv_get_present(sub, k);
                match kv_get(sub, k) {
                    Some(row) => {
                        let w = choose|w: int| 0 <= w < sub.len() && sub[w] == row;
                        let v = choose|v: int|
                            0 <= v < kv.drop_first().len() && kv.drop_first()[v] == row;
                        assert(kv[v + 1] == row);
                        assert(crate::byteseq::bytes_lt(kv[0].key, kv[v + 1].key));
                        crate::byteseq::lemma_bytes_lt_irrefl(k);
                    }
                    None => {}
                }
            } else {
                // Heads differ: recursion answers directly, and lookups in
                // kv skip the head too.
            }
        } else {
            assert(out == seq![kv[0]] + sub);
            assert(out[0] == kv[0]);
            assert(out.drop_first() =~= sub);
            assert forall|i: int, j: int| 0 <= i < j < out.len() implies crate::byteseq::bytes_lt(
                (#[trigger] out[i]).key,
                (#[trigger] out[j]).key,
            ) by {
                if i == 0 {
                    assert(out[j] == sub[j - 1]);
                    let w = choose|w: int|
                        0 <= w < kv.drop_first().len() && kv.drop_first()[w] == sub[j - 1];
                    assert(kv[w + 1] == sub[j - 1]);
                    assert(crate::byteseq::bytes_lt(kv[0].key, kv[w + 1].key));
                }
            }
        }
    }
}

impl Store {
    /// Requeues every inflight message: the crash-recovery step run once on
    /// startup, before the dispatcher first polls.
    pub fn requeue_inflight_at(&mut self, now: u64) -> (r: Result<(), KvError>)
        requires
            store_wf(old(self)@),
        ensures
            store_wf(final(self)@),
            old(self)@.closed ==> final(self)@ == old(self)@ && r == Err::<(), KvError>(
                KvError::ClosedDatabase,
            ),
            !old(self)@.closed ==> final(self)@ == spec_recover(old(self)@, now).0 && r
                == spec_recover(old(self)@, now).1,
    {
        let ghost s0 = self@;
        if self.closed {
            return Err(KvError::ClosedDatabase);
        }
        loop
            invariant
                store_wf(self@),
                !self@.closed,
                s0 == old(self)@,
                !s0.closed,
                spec_recover(s0, now) == spec_recover(self@, now),
            decreases self@.running.len(),
        {
            let ghost before = self@;
            if self.running.len() == 0 {
                return Ok(());
            }
            let id = self.running[0].id;
            proof {
                assert(running_model(self.running@) =~= before.running);
                assert(before.running[0].id == id);
                assert(running_get(before.running, before.running[0].id) == Some(
                    before.running[0],
                ));
            }
            match self.requeue_message_at(id, now) {
                Ok(_) => {
                    proof {
                        let pair = spec_requeue(before, id, now)->Ok_0;
                        assert(self@ == pair.0);
                        lemma_running_delete(before.running, id);
                        assert(self@.running.len() < before.running.len());
                    }
                }
                Err(e) => {
                    proof {
                        assert(spec_recover(before, now) == (before, Err::<(), KvError>(e)));
                    }
                    return Err(e);
                }
            }
        }
    }

    /// Deletes every row whose expiration has passed: the expiration
    /// watcher's periodic step.
    pub fn sweep_expired_at(&mut self, now: u64) -> (r: Result<(), KvError>)
        requires
            store_wf(old(self)@),
        ensures
            store_wf(final(self)@),
            old(self)@.closed ==> final(self)@ == old(self)@ && r == Err::<(), KvError>(
                KvError::ClosedDatabase,
            ),
            !old(self)@.closed ==> final(self)@ == (StoreModel {
                kv: spec_sweep(old(self)@.kv, now),
                ..old(self)@
            }) && r == Ok::<(), KvError>(()),
    {
        let ghost s0 = self@;
        if self.closed {
            return Err(KvError::ClosedDatabase);
        }
        proof {
            assert(kv_model(self.kv@) =~= s0.kv);
            assert(s0.kv.skip(0) =~= s0.kv);
        }
        let mut out: Vec<KvRow> = Vec::new();
        let mut i: usize = 0;
        while i < self.kv.len()
            invariant
                i <= self.kv@.len(),
                s0 == old(self)@,
                !s0.closed,
                store_wf(s0),
                self@ == s0,
                kv_model(self.kv@) == s0.kv,
                spec_sweep(s0.kv, now) == kv_model(out@) + spec_sweep(s0.kv.skip(i as int), now),
            decreases self.kv@.len() - i,
        {
            let ghost rest = s0.kv.skip(i as int);
            proof {
                assert(rest[0] == s0.kv[i as int]);
                assert(rest.drop_first() =~= s0.kv.skip(i + 1));
                assert(self.kv@[i as int]@ == s0.kv[i as int]);
            }
            let row = &self.kv[i];
            let expired = row.expiration_ms >= 0 && (row.expiration_ms as u64) <= now;
            if !expired {
                out.push(
                    KvRow {
                        key: copy_bytes(&row.key),
                        value: copy_bytes(&row.value),
                        encoding: row.encoding,
                        version: row.version,
                        expiration_ms: row.expiration_ms,
                    },
                );
                proof {
                    assert(kv_model(out@) =~= kv_model(out@).drop_last().push(s0.kv[i as int]));
                    assert(kv_model(out@).drop_last() + (seq![s0.kv[i as int]] + spec_sweep(
                        s0.kv.skip(i + 1),
                        now,
                    )) =~= kv_model(out@) + spec_sweep(s0.kv.skip(i + 1), now));
                }
            }
            i = i + 1;
        }
        proof {
            assert(s0.kv.skip(s0.kv.len() as int) =~= Seq::<KvRowModel>::empty());
            assert(kv_model(out@) + Seq::<KvRowModel>::empty() =~= kv_model(out@));
            assert(kv_model(out@) == spec_sweep(s0.kv, now));
        }
        self.kv = out;
        proof {
            assert(self@ == (StoreModel { kv: spec_sweep(s0.kv, now), ..s0 }));
            assert(store_wf(self@)) by {
                lemma_sweep_get(s0.kv, now, Seq::<u8>::empty());
                let swept = spec_sweep(s0.kv, now);
                assert forall|a: int| 0 <= a < swept.len() implies (crate::values::spec_valid_encoding(
                    (#[trigger] swept[a]).value,
                    swept[a].encoding,
                ) && 0 <= swept[a].version <= s0.version && swept[a].expiration_ms >= -1) by {
                    let w = choose|w: int| 0 <= w < s0.kv.len() && s0.kv[w] == swept[a];
                }
            }
        }
        Ok(())
    }
}

} // verus!
