//! The size and shape caps enforced before a transaction is opened.

use vstd::prelude::*;

use crate::errors::KvError;
use crate::types::{
    spec_mutation_value, AtomicWrite, CheckModel, EnqueueModel, MutationModel, WriteModel,
};
use crate::values::{Value, ValueModel};

verus! {

/// The largest key an atomic write may name.
pub const MAX_WRITE_KEY_SIZE_BYTES: usize = 2048;

/// The largest key a read may name: one byte more, for the suffix a range
/// selector appends.
pub const MAX_READ_KEY_SIZE_BYTES: usize = 2049;

/// The largest value an atomic write may store.
pub const MAX_VALUE_SIZE_BYTES: usize = 65536;

/// The most ranges one snapshot read may name.
pub const MAX_READ_RANGES: usize = 10;

/// The most entries the limits of one snapshot read may add up to.
pub const MAX_READ_ENTRIES: usize = 1000;

/// The most checks one atomic write may carry.
pub const MAX_CHECKS: usize = 10;

/// The most mutations and enqueues one atomic write may carry.
pub const MAX_MUTATIONS: usize = 1000;

/// The cap on an atomic write's total payload: keys, values and enqueue
/// payloads together.
pub const MAX_TOTAL_MUTATION_SIZE_BYTES: usize = 819200;

/// The cap on an atomic write's total key bytes.
pub const MAX_TOTAL_KEY_SIZE_BYTES: usize = 81920;

/// Rejects a key too large to read.
pub fn check_read_key_size(key: &Vec<u8>) -> (r: Result<(), KvError>)
    ensures
        r is Ok <==> key@.len() <= MAX_READ_KEY_SIZE_BYTES,
        r matches Err(e) ==> e == KvError::KeyTooLargeForRead,
{
    if key.len() > MAX_READ_KEY_SIZE_BYTES {
        Err(KvError::KeyTooLargeForRead)
    } else {
        Ok(())
    }
}

/// Rejects a key too large to write; returns the key's size otherwise.
pub fn check_write_key_size(key: &Vec<u8>) -> (r: Result<usize, KvError>)
    ensures
        r is Ok <==> key@.len() <= MAX_WRITE_KEY_SIZE_BYTES,
        r matches Ok(n) ==> n == key@.len(),
        r matches Err(e) ==> e == KvError::KeyTooLargeForWrite,
{
    if key.len() > MAX_WRITE_KEY_SIZE_BYTES {
        Err(KvError::KeyTooLargeForWrite)
    } else {
        Ok(key.len())
    }
}

/// The payload size a value contributes to the total.
pub open spec fn spec_value_size(v: ValueModel) -> int {
    match v {
        ValueModel::U64(_) => 8,
        ValueModel::V8(b) => b.len() as int,
        ValueModel::Bytes(b) => b.len() as int,
    }
}

/// Is a value within the value size cap?
pub open spec fn spec_value_size_ok(v: ValueModel) -> bool {
    spec_value_size(v) <= MAX_VALUE_SIZE_BYTES
}

/// Rejects a value too large to store; returns its payload size otherwise.
pub fn check_value_size(value: &Value) -> (r: Result<usize, KvError>)
    ensures
        r is Ok <==> spec_value_size_ok(value@),
        r matches Ok(n) ==> n == spec_value_size(value@),
        r matches Err(e) ==> e == KvError::ValueTooLarge,
{
    let payload = match value {
        Value::Bytes(x) => x,
        Value::V8(x) => x,
        Value::U64(_) => {
            return Ok(8);
        }
    };
    if payload.len() > MAX_VALUE_SIZE_BYTES {
        Err(KvError::ValueTooLarge)
    } else {
        Ok(payload.len())
    }
}

/// Rejects an enqueue payload over the cap; returns its size otherwise.
pub fn check_enqueue_payload_size(payload: &Vec<u8>) -> (r: Result<usize, KvError>)
    ensures
        r is Ok <==> payload@.len() <= MAX_VALUE_SIZE_BYTES,
        r matches Ok(n) ==> n == payload@.len(),
        r matches Err(e) ==> e == KvError::PayloadTooLarge,
{
    if payload.len() > MAX_VALUE_SIZE_BYTES {
        Err(KvError::PayloadTooLarge)
    } else {
        Ok(payload.len())
    }
}

/// The keys an atomic write names, in validation order: check keys, then
/// mutation keys.
pub open spec fn spec_write_keys(w: WriteModel) -> Seq<Seq<u8>> {
    w.checks.map_values(|c: CheckModel| c.key) + w.mutations.map_values(|m: MutationModel| m.key)
}

/// The bytes a sequence of keys adds up to.
pub open spec fn spec_keys_size(ks: Seq<Seq<u8>>) -> int
    decreases ks.len(),
{
    if ks.len() == 0 {
        0
    } else {
        ks[0].len() + spec_keys_size(ks.drop_first())
    }
}

/// The payload bytes the mutation values add up to.
pub open spec fn spec_values_size(ms: Seq<MutationModel>) -> int
    decreases ms.len(),
{
    if ms.len() == 0 {
        0
    } else {
        (match spec_mutation_value(ms[0].kind) {
            Some(v) => spec_value_size(v),
            None => 0,
        }) + spec_values_size(ms.drop_first())
    }
}

/// The bytes the enqueue payloads add up to.
pub open spec fn spec_payloads_size(es: Seq<EnqueueModel>) -> int
    decreases es.len(),
{
    if es.len() == 0 {
        0
    } else {
        es[0].payload.len() + spec_payloads_size(es.drop_first())
    }
}

/// Is every named key non-empty and within the write cap?
pub open spec fn spec_keys_ok(ks: Seq<Seq<u8>>) -> bool {
    forall|i: int| 0 <= i < ks.len() ==> 0 < #[trigger] ks[i].len() <= MAX_WRITE_KEY_SIZE_BYTES
}

/// Is every mutation value within the value cap?
pub open spec fn spec_values_ok(ms: Seq<MutationModel>) -> bool {
    forall|i: int|
        0 <= i < ms.len() ==> (match spec_mutation_value(#[trigger] ms[i].kind) {
            Some(v) => spec_value_size_ok(v),
            None => true,
        })
}

/// Is every enqueue payload within the cap?
pub open spec fn spec_payloads_ok(es: Seq<EnqueueModel>) -> bool {
    forall|i: int| 0 <= i < es.len() ==> #[trigger] es[i].payload.len() <= MAX_VALUE_SIZE_BYTES
}

/// Does an atomic write respect every cap?
pub open spec fn spec_write_within_limits(w: WriteModel) -> bool {
    &&& w.checks.len() <= MAX_CHECKS
    &&& w.mutations.len() + w.enqueues.len() <= MAX_MUTATIONS
    &&& spec_keys_ok(spec_write_keys(w))
    &&& spec_values_ok(w.mutations)
    &&& spec_payloads_ok(w.enqueues)
    &&& spec_keys_size(spec_write_keys(w)) + spec_values_size(w.mutations) + spec_payloads_size(
        w.enqueues,
    ) <= MAX_TOTAL_MUTATION_SIZE_BYTES
    &&& spec_keys_size(spec_write_keys(w)) <= MAX_TOTAL_KEY_SIZE_BYTES
}

/// Adding one key adds its size.
proof fn lemma_keys_size_snoc(ks: Seq<Seq<u8>>, k: Seq<u8>)
    ensures
        spec_keys_size(ks + seq![k]) == spec_keys_size(ks) + k.len(),
    decreases ks.len(),
{
    reveal_with_fuel(spec_keys_size, 3);
    let w = ks + seq![k];
    if ks.len() == 0 {
        assert(w[0] == k);
        assert(w.drop_first() =~= Seq::<Seq<u8>>::empty());
    } else {
        assert(w[0] == ks[0]);
        assert(w.drop_first() =~= ks.drop_first() + seq![k]);
        lemma_keys_size_snoc(ks.drop_first(), k);
    }
}

/// Taking one more mutation adds its value's size.
proof fn lemma_values_size_take(ms: Seq<MutationModel>, i: int)
    requires
        0 <= i < ms.len(),
    ensures
        spec_values_size(ms.take(i + 1)) == spec_values_size(ms.take(i)) + (match
            spec_mutation_value(ms[i].kind) {
            Some(v) => spec_value_size(v),
            None => 0,
        }),
    decreases i,
{
    reveal_with_fuel(spec_values_size, 3);
    if i == 0 {
        assert(ms.take(1)[0] == ms[0]);
        assert(ms.take(1).drop_first() =~= Seq::<MutationModel>::empty());
        assert(ms.take(0) =~= Seq::<MutationModel>::empty());
    } else {
        assert(ms.take(i + 1)[0] == ms[0]);
        assert(ms.take(i)[0] == ms[0]);
        assert(ms.take(i + 1).drop_first() =~= ms.drop_first().take(i));
        assert(ms.take(i).drop_first() =~= ms.drop_first().take(i - 1));
        assert(ms.drop_first()[i - 1] == ms[i]);
        lemma_values_size_take(ms.drop_first(), i - 1);
    }
}

/// Taking one more enqueue adds its payload's size.
proof fn lemma_payloads_size_take(es: Seq<EnqueueModel>, i: int)
    requires
        0 <= i < es.len(),
    ensures
        spec_payloads_size(es.take(i + 1)) == spec_payloads_size(es.take(i)) + es[i].payload.len(),
    decreases i,
{
    reveal_with_fuel(spec_payloads_size, 3);
    if i == 0 {
        assert(es.take(1)[0] == es[0]);
        assert(es.take(1).drop_first() =~= Seq::<EnqueueModel>::empty());
        assert(es.take(0) =~= Seq::<EnqueueModel>::empty());
    } else {
        assert(es.take(i + 1)[0] == es[0]);
        assert(es.take(i)[0] == es[0]);
        assert(es.take(i + 1).drop_first() =~= es.drop_first().take(i));
        assert(es.take(i).drop_first() =~= es.drop_first().take(i - 1));
        assert(es.drop_first()[i - 1] == es[i]);
        lemma_payloads_size_take(es.drop_first(), i - 1);
    }
}

/// The size of a key prefix is bounded by the count of well-sized keys.
proof fn lemma_keys_size_bound(ks: Seq<Seq<u8>>)
    requires
        forall|i: int| 0 <= i < ks.len() ==> #[trigger] ks[i].len() <= MAX_WRITE_KEY_SIZE_BYTES,
    ensures
        spec_keys_size(ks) <= ks.len() * MAX_WRITE_KEY_SIZE_BYTES,
        spec_keys_size(ks) >= 0,
    decreases ks.len(),
{
    if ks.len() == 0 {
    } else {
        assert(forall|i: int|
            0 <= i < ks.drop_first().len() ==> #[trigger] ks.drop_first()[i].len()
                <= MAX_WRITE_KEY_SIZE_BYTES);
        lemma_keys_size_bound(ks.drop_first());
        assert(ks.len() * MAX_WRITE_KEY_SIZE_BYTES == (ks.len() - 1) * MAX_WRITE_KEY_SIZE_BYTES
            + MAX_WRITE_KEY_SIZE_BYTES) by (nonlinear_arith);
    }
}

/// Validates an atomic write against every cap, before any state changes.
/// Success is exactly the conjunction of the caps; each error names a cap
/// the write broke.
pub fn validate_atomic_write(write: &AtomicWrite) -> (r: Result<(), KvError>)
    ensures
        r is Ok <==> spec_write_within_limits(write@),
        r matches Err(e) ==> match e {
            KvError::TooManyChecks => write@.checks.len() > MAX_CHECKS,
            KvError::TooManyMutations => write@.mutations.len() + write@.enqueues.len()
                > MAX_MUTATIONS,
            KvError::EmptyKey => !spec_keys_ok(spec_write_keys(write@)),
            KvError::KeyTooLargeForWrite => !spec_keys_ok(spec_write_keys(write@)),
            KvError::ValueTooLarge => !spec_values_ok(write@.mutations),
            KvError::PayloadTooLarge => !spec_payloads_ok(write@.enqueues),
            KvError::TotalPayloadTooLarge => spec_keys_size(spec_write_keys(write@))
                + spec_values_size(write@.mutations) + spec_payloads_size(write@.enqueues)
                > MAX_TOTAL_MUTATION_SIZE_BYTES,
            KvError::TotalKeyTooLarge => spec_keys_size(spec_write_keys(write@))
                > MAX_TOTAL_KEY_SIZE_BYTES,
            _ => false,
        },
{
    let ghost keys = spec_write_keys(write@);
    if write.checks.len() > MAX_CHECKS {
        return Err(KvError::TooManyChecks);
    }
    if write.mutations.len() > MAX_MUTATIONS || write.enqueues.len() > MAX_MUTATIONS
        || write.mutations.len() + write.enqueues.len() > MAX_MUTATIONS {
        return Err(KvError::TooManyMutations);
    }
    let mut total_key_size: usize = 0;
    let mut i: usize = 0;
    proof {
        assert(keys.take(0) =~= Seq::<Seq<u8>>::empty());
    }
    while i < write.checks.len()
        invariant
            i <= write@.checks.len(),
            write@.checks.len() <= MAX_CHECKS,
            keys == spec_write_keys(write@),
            keys.len() == write@.checks.len() + write@.mutations.len(),
            forall|j: int| 0 <= j < i ==> 0 < #[trigger] keys[j].len() <= MAX_WRITE_KEY_SIZE_BYTES,
            total_key_size == spec_keys_size(keys.take(i as int)),
            total_key_size <= i * MAX_WRITE_KEY_SIZE_BYTES,
        decreases write@.checks.len() - i,
    {
        let key = &write.checks[i].key;
        proof {
            assert(keys[i as int] == key@);
        }
        if key.len() == 0 {
            return Err(KvError::EmptyKey);
        }
        if key.len() > MAX_WRITE_KEY_SIZE_BYTES {
            return Err(KvError::KeyTooLargeForWrite);
        }
        proof {
            assert(keys.take(i + 1) =~= keys.take(i as int) + seq![keys[i as int]]);
            lemma_keys_size_snoc(keys.take(i as int), keys[i as int]);
            assert((i + 1) * MAX_WRITE_KEY_SIZE_BYTES == i * MAX_WRITE_KEY_SIZE_BYTES
                + MAX_WRITE_KEY_SIZE_BYTES) by (nonlinear_arith);
            assert(i * MAX_WRITE_KEY_SIZE_BYTES <= 1010 * MAX_WRITE_KEY_SIZE_BYTES)
                by (nonlinear_arith)
                requires
                    i <= 1010,
            ;
        }
        total_key_size = total_key_size + key.len();
        i = i + 1;
    }
    let n_checks = write.checks.len();
    let mut m: usize = 0;
    while m < write.mutations.len()
        invariant
            m <= write@.mutations.len(),
            n_checks == write@.checks.len(),
            write@.checks.len() <= MAX_CHECKS,
            write@.mutations.len() <= MAX_MUTATIONS,
            keys == spec_write_keys(write@),
            keys.len() == write@.checks.len() + write@.mutations.len(),
            forall|j: int|
                0 <= j < n_checks + m ==> 0 < #[trigger] keys[j].len()
                    <= MAX_WRITE_KEY_SIZE_BYTES,
            total_key_size == spec_keys_size(keys.take(n_checks + m)),
            total_key_size <= (n_checks + m) * MAX_WRITE_KEY_SIZE_BYTES,
        decreases write@.mutations.len() - m,
    {
        let key = &write.mutations[m].key;
        proof {
            assert(keys[n_checks + m] == key@);
        }
        if key.len() == 0 {
            return Err(KvError::EmptyKey);
        }
        if key.len() > MAX_WRITE_KEY_SIZE_BYTES {
            return Err(KvError::KeyTooLargeForWrite);
        }
        proof {
            let at = n_checks + m;
            assert(keys.take(at + 1) =~= keys.take(at as int) + seq![keys[at as int]]);
            lemma_keys_size_snoc(keys.take(at as int), keys[at as int]);
            assert((at + 1) * MAX_WRITE_KEY_SIZE_BYTES == at * MAX_WRITE_KEY_SIZE_BYTES
                + MAX_WRITE_KEY_SIZE_BYTES) by (nonlinear_arith);
            assert(at * MAX_WRITE_KEY_SIZE_BYTES <= 1010 * MAX_WRITE_KEY_SIZE_BYTES)
                by (nonlinear_arith)
                requires
                    at <= 1010,
            ;
        }
        total_key_size = total_key_size + key.len();
        m = m + 1;
    }
    proof {
        assert(keys.take(keys.len() as int) =~= keys);
        assert(keys.len() * MAX_WRITE_KEY_SIZE_BYTES <= 1010 * MAX_WRITE_KEY_SIZE_BYTES)
            by (nonlinear_arith)
            requires
                keys.len() <= 1010,
        ;
    }
    let mut total_payload_size: usize = total_key_size;
    let mut v: usize = 0;
    proof {
        assert(write@.mutations.take(0) =~= Seq::<crate::types::MutationModel>::empty());
    }
    while v < write.mutations.len()
        invariant
            v <= write@.mutations.len(),
            write@.mutations.len() <= MAX_MUTATIONS,
            total_key_size <= 1010 * MAX_WRITE_KEY_SIZE_BYTES,
            forall|j: int|
                0 <= j < v ==> (match spec_mutation_value(#[trigger] write@.mutations[j].kind) {
                    Some(val) => spec_value_size_ok(val),
                    None => true,
                }),
            total_payload_size == total_key_size + spec_values_size(write@.mutations.take(v as int)),
            total_payload_size <= total_key_size + v * MAX_VALUE_SIZE_BYTES,
        decreases write@.mutations.len() - v,
    {
        proof {
            assert(v * MAX_VALUE_SIZE_BYTES <= 1000 * MAX_VALUE_SIZE_BYTES) by (nonlinear_arith)
                requires
                    v <= 1000,
            ;
        }
        let size = match write.mutations[v].kind.value() {
            Some(value) => {
                match check_value_size(value) {
                    Ok(n) => n,
                    Err(e) => {
                        return Err(e);
                    }
                }
            }
            None => 0,
        };
        proof {
            lemma_values_size_take(write@.mutations, v as int);
            assert((v + 1) * MAX_VALUE_SIZE_BYTES == v * MAX_VALUE_SIZE_BYTES
                + MAX_VALUE_SIZE_BYTES) by (nonlinear_arith);
        }
        total_payload_size = total_payload_size + size;
        v = v + 1;
    }
    proof {
        assert(write@.mutations.take(write@.mutations.len() as int) =~= write@.mutations);
        assert(v * MAX_VALUE_SIZE_BYTES <= 1000 * MAX_VALUE_SIZE_BYTES) by (nonlinear_arith)
            requires
                v <= 1000,
        ;
    }
    let ghost payload_after_values = total_payload_size;
    let mut q: usize = 0;
    proof {
        assert(write@.enqueues.take(0) =~= Seq::<crate::types::EnqueueModel>::empty());
    }
    while q < write.enqueues.len()
        invariant
            q <= write@.enqueues.len(),
            write@.enqueues.len() <= MAX_MUTATIONS,
            payload_after_values <= 1010 * MAX_WRITE_KEY_SIZE_BYTES + 1000 * MAX_VALUE_SIZE_BYTES,
            forall|j: int|
                0 <= j < q ==> #[trigger] write@.enqueues[j].payload.len()
                    <= MAX_VALUE_SIZE_BYTES,
            total_payload_size == payload_after_values + spec_payloads_size(
                write@.enqueues.take(q as int),
            ),
            total_payload_size <= payload_after_values + q * MAX_VALUE_SIZE_BYTES,
        decreases write@.enqueues.len() - q,
    {
        proof {
            assert(q * MAX_VALUE_SIZE_BYTES <= 1000 * MAX_VALUE_SIZE_BYTES) by (nonlinear_arith)
                requires
                    q <= 1000,
            ;
        }
        let size = match check_enqueue_payload_size(&write.enqueues[q].payload) {
            Ok(n) => n,
            Err(e) => {
                return Err(e);
            }
        };
        proof {
            lemma_payloads_size_take(write@.enqueues, q as int);
            assert((q + 1) * MAX_VALUE_SIZE_BYTES == q * MAX_VALUE_SIZE_BYTES
                + MAX_VALUE_SIZE_BYTES) by (nonlinear_arith);
        }
        total_payload_size = total_payload_size + size;
        q = q + 1;
    }
    proof {
        assert(write@.enqueues.take(write@.enqueues.len() as int) =~= write@.enqueues);
        assert(q * MAX_VALUE_SIZE_BYTES <= 1000 * MAX_VALUE_SIZE_BYTES) by (nonlinear_arith)
            requires
                q <= 1000,
        ;
    }
    if total_payload_size > MAX_TOTAL_MUTATION_SIZE_BYTES {
        return Err(KvError::TotalPayloadTooLarge);
    }
    if total_key_size > MAX_TOTAL_KEY_SIZE_BYTES {
        return Err(KvError::TotalKeyTooLarge);
    }
    Ok(())
}

} // verus!
