//! The cross-cutting laws of the store, each proved once and for all.

use vstd::prelude::*;

use crate::byteseq::bytes_lt;
use crate::errors::KvError;
use crate::queue::{lemma_dead_letter_get, lemma_running_delete, running_get, spec_requeue};
use crate::store::{
    id_in_queues, kv_get, kv_rows_ok, lemma_kv_delete, lemma_kv_upsert, queue_id_absent,
    spec_apply_mutation, spec_apply_mutations, spec_checks_pass, spec_commit, spec_enqueue_row,
    spec_ids_fresh, spec_put_row, store_wf, KvRowModel, QueueRowModel, RunningRowModel, StoreModel,
};
use crate::types::{MutationKindModel, MutationModel, WriteModel};
use crate::values::{spec_versionstamp, ValueModel};

verus! {

/// THE VERSIONSTAMP LAW.  Committing atomic writes return strictly
/// increasing versionstamps: each commit takes the next version, and the
/// ten-byte stamps of increasing versions increase in byte order.  Chained
/// over a sequence of commits, every later stamp is larger than every
/// earlier one.
pub proof fn lemma_versionstamps_strictly_increase(
    s: StoreModel,
    w1: WriteModel,
    n1: u64,
    i1: Seq<u128>,
    w2: WriteModel,
    n2: u64,
    i2: Seq<u128>,
)
    requires
        0 <= s.version,
        spec_commit(s, w1, n1, i1).1 matches Ok(o) && o is Some,
        spec_commit(spec_commit(s, w1, n1, i1).0, w2, n2, i2).1 matches Ok(o) && o is Some,
    ensures
        spec_commit(s, w1, n1, i1).1 == Ok::<Option<Seq<u8>>, KvError>(
            Some(spec_versionstamp((s.version + 1) as i64)),
        ),
        spec_commit(spec_commit(s, w1, n1, i1).0, w2, n2, i2).1 == Ok::<Option<Seq<u8>>, KvError>(
            Some(spec_versionstamp((s.version + 2) as i64)),
        ),
        bytes_lt(
            spec_versionstamp((s.version + 1) as i64),
            spec_versionstamp((s.version + 2) as i64),
        ),
{
    let s1 = spec_commit(s, w1, n1, i1).0;
    assert(s1.version == s.version + 1);
    crate::values::lemma_versionstamp_order((s.version + 1) as i64, (s.version + 2) as i64);
}

/// Applying mutations that never name a key leaves that key's row alone.
pub proof fn lemma_apply_mutations_unnamed(
    kv: Seq<KvRowModel>,
    ms: Seq<MutationModel>,
    version: i64,
    k: Seq<u8>,
)
    requires
        kv_rows_ok(kv, version),
        version >= 0,
        forall|j: int| 0 <= j < ms.len() ==> (#[trigger] ms[j]).key != k,
    ensures
        spec_apply_mutations(kv, ms, version) matches Ok(k2) ==> kv_get(k2, k) == kv_get(kv, k),
    decreases ms.len(),
{
    if ms.len() > 0 {
        crate::store::lemma_apply_mutation_ok(kv, ms[0], version);
        match spec_apply_mutation(kv, ms[0], version) {
            Ok(kv1) => {
                lemma_apply_mutation_unnamed(kv, ms[0], version, k);
                assert(forall|j: int|
                    0 <= j < ms.drop_first().len() ==> (#[trigger] ms.drop_first()[j]).key != k);
                lemma_apply_mutations_unnamed(kv1, ms.drop_first(), version, k);
            }
            Err(_) => {}
        }
    }
}

/// One mutation that names another key leaves this key's row alone.
proof fn lemma_apply_mutation_unnamed(
    kv: Seq<KvRowModel>,
    m: MutationModel,
    version: i64,
    k: Seq<u8>,
)
    requires
        kv_rows_ok(kv, version),
        version >= 0,
        m.key != k,
    ensures
        spec_apply_mutation(kv, m, version) matches Ok(k2) ==> kv_get(k2, k) == kv_get(kv, k),
{
    match spec_apply_mutation(kv, m, version) {
        Ok(k2) => {
            match m.kind {
                MutationKindModel::Put(v) => {
                    lemma_kv_upsert(kv, spec_put_row(m.key, v, version, m.expire_at), version);
                }
                MutationKindModel::Delete => {
                    lemma_kv_delete(kv, m.key);
                }
                _ => {
                    assert forall|x: u64|
                        kv_get(
                            #[trigger] crate::store::kv_upsert(
                                kv,
                                crate::store::spec_u64_row(m.key, x, version, m.expire_at),
                            ),
                            k,
                        ) == kv_get(kv, k) by {
                        lemma_kv_upsert(
                            kv,
                            crate::store::spec_u64_row(m.key, x, version, m.expire_at),
                            version,
                        );
                    }
                }
            }
        }
        Err(_) => {}
    }
}

/// The row a key carries after the mutations applied: what the last
/// mutation naming it left there.
pub proof fn lemma_apply_mutations_last(
    kv: Seq<KvRowModel>,
    ms: Seq<MutationModel>,
    version: i64,
    j: int,
    k: Seq<u8>,
)
    requires
        kv_rows_ok(kv, version),
        version >= 0,
        0 <= j < ms.len(),
        ms[j].key == k,
        forall|l: int| j < l < ms.len() ==> (#[trigger] ms[l]).key != k,
    ensures
        spec_apply_mutations(kv, ms, version) matches Ok(k2) ==> (match ms[j].kind {
            MutationKindModel::Put(v) => kv_get(k2, k) == Some(
                spec_put_row(k, v, version, ms[j].expire_at),
            ),
            MutationKindModel::Delete => kv_get(k2, k) is None,
            _ => true,
        }),
    decreases ms.len(),
{
    match spec_apply_mutations(kv, ms, version) {
        Ok(_) => {
            crate::store::lemma_apply_mutation_ok(kv, ms[0], version);
            match spec_apply_mutation(kv, ms[0], version) {
                Ok(kv1) => {
                    if j == 0 {
                        match ms[0].kind {
                            MutationKindModel::Put(v) => {
                                lemma_kv_upsert(
                                    kv,
                                    spec_put_row(k, v, version, ms[0].expire_at),
                                    version,
                                );
                                assert(kv_get(kv1, k) == Some(
                                    spec_put_row(k, v, version, ms[0].expire_at),
                                ));
                            }
                            MutationKindModel::Delete => {
                                lemma_kv_delete(kv, k);
                            }
                            _ => {}
                        }
                        assert(forall|l: int|
                            0 <= l < ms.drop_first().len() ==> (
                            #[trigger] ms.drop_first()[l]).key != k);
                        lemma_apply_mutations_unnamed(kv1, ms.drop_first(), version, k);
                    } else {
                        assert(ms.drop_first()[j - 1] == ms[j]);
                        assert(forall|l: int|
                            j - 1 < l < ms.drop_first().len() ==> (
                            #[trigger] ms.drop_first()[l]).key != k) by {
                            assert(forall|l: int|
                                0 <= l < ms.drop_first().len() ==> (#[trigger] ms.drop_first()[l])
                                    == ms[l + 1]);
                        }
                        lemma_apply_mutations_last(kv1, ms.drop_first(), version, j - 1, k);
                    }
                }
                Err(_) => {}
            }
        }
        Err(_) => {}
    }
}

/// THE ATOMICITY LAW.  A commit is all or nothing: with a failed check the
/// state is untouched and the write reports no versionstamp; with passing
/// checks, every mutation and enqueue is observable at the single new
/// version -- the row under a key is what the last mutation naming it left,
/// keys no mutation names are untouched, and every enqueued message sits in
/// the ready table under its fresh id.
pub proof fn lemma_commit_all_or_nothing(
    s: StoreModel,
    w: WriteModel,
    now: u64,
    ids: Seq<u128>,
    k: Seq<u8>,
)
    requires
        store_wf(s),
        spec_ids_fresh(s, ids),
        ids.len() == w.enqueues.len(),
        s.version < i64::MAX,
    ensures
        !spec_checks_pass(s.kv, w.checks) ==> spec_commit(s, w, now, ids) == (
            s,
            Ok::<Option<Seq<u8>>, KvError>(None),
        ),
        spec_checks_pass(s.kv, w.checks) && (spec_apply_mutations(
            s.kv,
            w.mutations,
            (s.version + 1) as i64,
        ) is Ok) ==> ({
            let s2 = spec_commit(s, w, now, ids).0;
            &&& spec_commit(s, w, now, ids).1 == Ok::<Option<Seq<u8>>, KvError>(
                Some(spec_versionstamp((s.version + 1) as i64)),
            )
            &&& s2.version == s.version + 1
            &&& ((forall|j: int| 0 <= j < w.mutations.len() ==> (#[trigger] w.mutations[j]).key
                != k) ==> kv_get(s2.kv, k) == kv_get(s.kv, k))
            &&& forall|i: int|
                0 <= i < w.enqueues.len() ==> s2.queue.contains(
                    spec_enqueue_row(#[trigger] w.enqueues[i], ids[i], now),
                )
        }),
        spec_checks_pass(s.kv, w.checks) && (spec_apply_mutations(
            s.kv,
            w.mutations,
            (s.version + 1) as i64,
        ) is Err) ==> spec_commit(s, w, now, ids) == (
            s,
            Err::<Option<Seq<u8>>, KvError>(
                spec_apply_mutations(s.kv, w.mutations, (s.version + 1) as i64)->Err_0,
            ),
        ),
{
    let v2 = (s.version + 1) as i64;
    if spec_checks_pass(s.kv, w.checks) && spec_apply_mutations(s.kv, w.mutations, v2) is Ok {
        assert(kv_rows_ok(s.kv, v2)) by {
            assert forall|i: int| 0 <= i < s.kv.len() implies 0 <= (#[trigger] s.kv[i]).version
                <= v2 by {
                assert(s.kv[i].version <= s.version);
            }
        }
        if forall|j: int| 0 <= j < w.mutations.len() ==> (#[trigger] w.mutations[j]).key != k {
            lemma_apply_mutations_unnamed(s.kv, w.mutations, v2, k);
        }
        assert forall|i: int| 0 <= i < ids.len() implies queue_id_absent(
            s.queue,
            #[trigger] ids[i],
        ) by {
            assert(!id_in_queues(s, ids[i]));
        }
        crate::store::lemma_enqueue_all_props(s.queue, w.enqueues, ids, now);
    }
}

/// THE DEAD-LETTER LAW.  In every successful outcome of the requeue rule
/// the message leaves the running table.  With backoff remaining it is
/// redelivered: a ready row under the same id carries the payload, the tail
/// of the schedule, and a delivery time delayed by the schedule's head.
/// With the schedule exhausted and dead-letter keys declared, the payload is
/// written under every such key at one fresh version and the message is in
/// no queue table.
pub proof fn lemma_requeue_disposition(
    s: StoreModel,
    id: u128,
    now: u64,
    row: RunningRowModel,
    k: Seq<u8>,
)
    requires
        store_wf(s),
        running_get(s.running, id) == Some(row),
    ensures
        spec_requeue(s, id, now) matches Ok(pair) ==> running_get(pair.0.running, id) is None,
        row.backoff_schedule.len() > 0 ==> (spec_requeue(s, id, now) matches Ok(pair) && pair.1
            && pair.0.queue.contains(
            QueueRowModel {
                ts: now.saturating_add(row.backoff_schedule[0]),
                id,
                data: row.data,
                backoff_schedule: row.backoff_schedule.drop_first(),
                keys_if_undelivered: row.keys_if_undelivered,
            },
        )),
        row.backoff_schedule.len() == 0 && row.keys_if_undelivered.len() > 0 && s.version
            < i64::MAX ==> (spec_requeue(s, id, now) matches Ok(pair) && !pair.1 && !id_in_queues(
            pair.0,
            id,
        ) && (row.keys_if_undelivered.contains(k) ==> kv_get(pair.0.kv, k) == Some(
            spec_put_row(k, ValueModel::V8(row.data), (s.version + 1) as i64, None),
        ))),
        row.backoff_schedule.len() == 0 && row.keys_if_undelivered.len() == 0 ==> (spec_requeue(
            s,
            id,
            now,
        ) matches Ok(pair) && !pair.1 && !id_in_queues(pair.0, id)),
{
    crate::queue::lemma_running_get(s.running, id);
    assert(row.id == id);
    lemma_running_delete(s.running, id);
    let rd = crate::queue::running_delete(s.running, id);
    assert(forall|i: int| 0 <= i < rd.len() ==> (#[trigger] rd[i]).id != id);
    lemma_running_get_absent(rd, id);
    if row.backoff_schedule.len() > 0 {
        let qrow = QueueRowModel {
            ts: now.saturating_add(row.backoff_schedule[0]),
            id,
            data: row.data,
            backoff_schedule: row.backoff_schedule.drop_first(),
            keys_if_undelivered: row.keys_if_undelivered,
        };
        assert(queue_id_absent(s.queue, id)) by {
            assert forall|i: int| 0 <= i < s.queue.len() implies (#[trigger] s.queue[i]).id
                != id by {
                let w = choose|w: int| 0 <= w < s.running.len() && s.running[w] == row;
                assert(s.queue[i].id != s.running[w].id);
            }
        }
        crate::store::lemma_queue_insert_props(s.queue, qrow);
    } else {
        // The id was only in the running table, and leaves it.
        assert(queue_id_absent(s.queue, id)) by {
            assert forall|i: int| 0 <= i < s.queue.len() implies (#[trigger] s.queue[i]).id
                != id by {
                let w = choose|w: int| 0 <= w < s.running.len() && s.running[w] == row;
                assert(s.queue[i].id != s.running[w].id);
            }
        }
        if row.keys_if_undelivered.len() > 0 && s.version < i64::MAX {
            let v2 = (s.version + 1) as i64;
            assert(kv_rows_ok(s.kv, v2)) by {
                assert forall|i: int| 0 <= i < s.kv.len() implies 0 <= (
                #[trigger] s.kv[i]).version <= v2 by {
                    assert(s.kv[i].version <= s.version);
                }
            }
            lemma_dead_letter_get(s.kv, row.keys_if_undelivered, row.data, v2, k);
        }
    }
}

/// A running table none of whose rows carry an id yields no row for it.
proof fn lemma_running_get_absent(rs: Seq<RunningRowModel>, id: u128)
    requires
        forall|i: int| 0 <= i < rs.len() ==> (#[trigger] rs[i]).id != id,
    ensures
        running_get(rs, id) is None,
    decreases rs.len(),
{
    if rs.len() > 0 {
        assert(forall|i: int|
            0 <= i < rs.drop_first().len() ==> (#[trigger] rs.drop_first()[i]).id != id);
        lemma_running_get_absent(rs.drop_first(), id);
    }
}

} // verus!
