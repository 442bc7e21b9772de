//! The atomic-write pipeline and the read path on concrete scenarios.

use kvstore::errors::KvError;
use kvstore::keys::{encode_key, Key, KeyPart};
use kvstore::store::Store;
use kvstore::types::{
    expire_at_from_relative, AtomicWrite, Enqueue, KvCheck, KvMutation, MutationKind, ReadRange,
};
use kvstore::values::{versionstamp_hex, Value};

fn skey(name: &str) -> Vec<u8> {
    encode_key(&Key(vec![KeyPart::String(name.to_string())]))
}

fn single_key_range(key: &[u8]) -> ReadRange {
    let mut end = key.to_vec();
    end.push(0);
    ReadRange { start: key.to_vec(), end, limit: 1, reverse: false }
}

fn put(key: Vec<u8>, value: Value) -> AtomicWrite {
    AtomicWrite {
        checks: vec![],
        mutations: vec![KvMutation { key, kind: MutationKind::Put(value), expire_at: None }],
        enqueues: vec![],
    }
}

fn write_only(mutations: Vec<KvMutation>) -> AtomicWrite {
    AtomicWrite { checks: vec![], mutations, enqueues: vec![] }
}

#[test]
fn set_then_get() {
    let mut store = Store::new();
    let key = skey("a");
    let commit = store
        .atomic_write_at(&put(key.clone(), Value::V8(vec![0x01])), 1000, &vec![])
        .unwrap()
        .expect("no checks, so the write commits");
    let outs = store.snapshot_read(&vec![single_key_range(&key)]).unwrap();
    assert_eq!(outs.len(), 1);
    assert_eq!(outs[0].entries.len(), 1);
    let entry = &outs[0].entries[0];
    assert_eq!(entry.key, key);
    match &entry.value {
        Value::V8(b) => assert_eq!(b, &vec![0x01]),
        _ => panic!("wrong value kind"),
    }
    assert_eq!(entry.versionstamp, commit.versionstamp);
}

#[test]
fn check_then_set() {
    let mut store = Store::new();
    let key = skey("a");
    let commit1 = store
        .atomic_write_at(&put(key.clone(), Value::V8(vec![0x01])), 1000, &vec![])
        .unwrap()
        .unwrap();
    // A check expecting absence now fails: no commit, nothing changes.
    let failing = AtomicWrite {
        checks: vec![KvCheck { key: key.clone(), versionstamp: None }],
        mutations: vec![KvMutation {
            key: key.clone(),
            kind: MutationKind::Put(Value::V8(vec![0x09])),
            expire_at: None,
        }],
        enqueues: vec![],
    };
    assert!(store.atomic_write_at(&failing, 1001, &vec![]).unwrap().is_none());
    // A check expecting the current stamp commits, at a larger stamp.
    let passing = AtomicWrite {
        checks: vec![KvCheck { key: key.clone(), versionstamp: Some(commit1.versionstamp.clone()) }],
        mutations: vec![KvMutation {
            key: key.clone(),
            kind: MutationKind::Put(Value::V8(vec![0x02])),
            expire_at: None,
        }],
        enqueues: vec![],
    };
    let commit2 = store.atomic_write_at(&passing, 1002, &vec![]).unwrap().unwrap();
    assert!(commit2.versionstamp > commit1.versionstamp);
    assert!(versionstamp_hex(&commit2.versionstamp) > versionstamp_hex(&commit1.versionstamp));
    let outs = store.snapshot_read(&vec![single_key_range(&key)]).unwrap();
    match &outs[0].entries[0].value {
        Value::V8(b) => assert_eq!(b, &vec![0x02]),
        _ => panic!("wrong value kind"),
    }
}

#[test]
fn sum_with_expiration_is_swept() {
    let mut store = Store::new();
    let key = skey("n");
    let sum = |expire_at: Option<u64>| AtomicWrite {
        checks: vec![],
        mutations: vec![KvMutation {
            key: key.clone(),
            kind: MutationKind::Sum(Value::U64(5)),
            expire_at,
        }],
        enqueues: vec![],
    };
    store.atomic_write_at(&sum(None), 1000, &vec![]).unwrap().unwrap();
    // The second write declares a relative expiry of one millisecond.
    let expire_at = expire_at_from_relative(1000, Some(1));
    assert_eq!(expire_at, Some(1001));
    store.atomic_write_at(&sum(expire_at), 1000, &vec![]).unwrap().unwrap();
    let outs = store.snapshot_read(&vec![single_key_range(&key)]).unwrap();
    match &outs[0].entries[0].value {
        Value::U64(x) => assert_eq!(*x, 10),
        _ => panic!("wrong value kind"),
    }
    // After the watcher sweeps past the expiration, the row is gone.
    store.sweep_expired_at(6000).unwrap();
    let outs = store.snapshot_read(&vec![single_key_range(&key)]).unwrap();
    assert_eq!(outs[0].entries.len(), 0);
}

#[test]
fn write_key_size_boundary() {
    let mut store = Store::new();
    let exact = vec![1u8; 2048];
    assert!(store.atomic_write_at(&put(exact, Value::U64(1)), 0, &vec![]).is_ok());
    let over = vec![1u8; 2049];
    assert_eq!(
        store.atomic_write_at(&put(over, Value::U64(1)), 0, &vec![]).unwrap_err(),
        KvError::KeyTooLargeForWrite
    );
}

#[test]
fn value_size_boundary() {
    let mut store = Store::new();
    let exact = Value::V8(vec![0u8; 65536]);
    assert!(store.atomic_write_at(&put(skey("v"), exact), 0, &vec![]).is_ok());
    let over = Value::V8(vec![0u8; 65537]);
    assert_eq!(
        store.atomic_write_at(&put(skey("w"), over), 0, &vec![]).unwrap_err(),
        KvError::ValueTooLarge
    );
}

#[test]
fn sum_missing_key_and_wrapping() {
    let mut store = Store::new();
    let key = skey("c");
    let sum = |x: u64| {
        write_only(vec![KvMutation {
            key: key.clone(),
            kind: MutationKind::Sum(Value::U64(x)),
            expire_at: None,
        }])
    };
    // On a missing key the operand is the stored value.
    store.atomic_write_at(&sum(7), 0, &vec![]).unwrap().unwrap();
    let outs = store.snapshot_read(&vec![single_key_range(&key)]).unwrap();
    match &outs[0].entries[0].value {
        Value::U64(x) => assert_eq!(*x, 7),
        _ => panic!("wrong value kind"),
    }
    // An overflowing sum wraps modulo two to the sixty-fourth.
    store.atomic_write_at(&sum(u64::MAX), 0, &vec![]).unwrap().unwrap();
    let outs = store.snapshot_read(&vec![single_key_range(&key)]).unwrap();
    match &outs[0].entries[0].value {
        Value::U64(x) => assert_eq!(*x, 6),
        _ => panic!("wrapping sum"),
    }
}

#[test]
fn numeric_mutation_type_errors_leave_state_alone() {
    let mut store = Store::new();
    let key = skey("m");
    store
        .atomic_write_at(&put(key.clone(), Value::V8(vec![0xAB])), 0, &vec![])
        .unwrap()
        .unwrap();
    // Min on a stored non-integer fails with the typed error...
    let min = write_only(vec![KvMutation {
        key: key.clone(),
        kind: MutationKind::Min(Value::U64(3)),
        expire_at: None,
    }]);
    assert_eq!(store.atomic_write_at(&min, 0, &vec![]).unwrap_err(), KvError::NonU64Value);
    let max = write_only(vec![KvMutation {
        key: key.clone(),
        kind: MutationKind::Max(Value::U64(3)),
        expire_at: None,
    }]);
    assert_eq!(store.atomic_write_at(&max, 0, &vec![]).unwrap_err(), KvError::NonU64Value);
    // ...and a non-integer operand fails before touching anything.
    let bad_operand = write_only(vec![KvMutation {
        key: key.clone(),
        kind: MutationKind::Sum(Value::V8(vec![1])),
        expire_at: None,
    }]);
    assert_eq!(
        store.atomic_write_at(&bad_operand, 0, &vec![]).unwrap_err(),
        KvError::NonU64Operand
    );
    // No mutation was applied.
    let outs = store.snapshot_read(&vec![single_key_range(&key)]).unwrap();
    match &outs[0].entries[0].value {
        Value::V8(b) => assert_eq!(b, &vec![0xAB]),
        _ => panic!("state must be untouched"),
    }
}

#[test]
fn shape_caps_are_enforced() {
    let mut store = Store::new();
    let mut checks = vec![];
    for _ in 0..11 {
        checks.push(KvCheck { key: skey("x"), versionstamp: None });
    }
    let too_many_checks = AtomicWrite { checks, mutations: vec![], enqueues: vec![] };
    assert_eq!(
        store.atomic_write_at(&too_many_checks, 0, &vec![]).unwrap_err(),
        KvError::TooManyChecks
    );
    let mut mutations = vec![];
    for _ in 0..1001 {
        mutations.push(KvMutation {
            key: skey("x"),
            kind: MutationKind::Delete,
            expire_at: None,
        });
    }
    assert_eq!(
        store.atomic_write_at(&write_only(mutations), 0, &vec![]).unwrap_err(),
        KvError::TooManyMutations
    );
    let empty_key = write_only(vec![KvMutation {
        key: vec![],
        kind: MutationKind::Delete,
        expire_at: None,
    }]);
    assert_eq!(store.atomic_write_at(&empty_key, 0, &vec![]).unwrap_err(), KvError::EmptyKey);
    let big_payload = AtomicWrite {
        checks: vec![],
        mutations: vec![],
        enqueues: vec![Enqueue {
            payload: vec![0u8; 65537],
            delay_ms: 0,
            keys_if_undelivered: vec![],
            backoff_schedule: None,
        }],
    };
    assert_eq!(
        store.atomic_write_at(&big_payload, 0, &vec![0]).unwrap_err(),
        KvError::PayloadTooLarge
    );
}

#[test]
fn mutations_apply_in_order_at_one_version() {
    let mut store = Store::new();
    let key = skey("o");
    let write = write_only(vec![
        KvMutation { key: key.clone(), kind: MutationKind::Put(Value::U64(1)), expire_at: None },
        KvMutation { key: key.clone(), kind: MutationKind::Sum(Value::U64(2)), expire_at: None },
        KvMutation { key: key.clone(), kind: MutationKind::Max(Value::U64(2)), expire_at: None },
    ]);
    let commit = store.atomic_write_at(&write, 0, &vec![]).unwrap().unwrap();
    let outs = store.snapshot_read(&vec![single_key_range(&key)]).unwrap();
    let entry = &outs[0].entries[0];
    match &entry.value {
        Value::U64(x) => assert_eq!(*x, 3),
        _ => panic!("wrong value kind"),
    }
    assert_eq!(entry.versionstamp, commit.versionstamp);
}

#[test]
fn range_scan_order_limit_reverse() {
    let mut store = Store::new();
    for name in ["a", "b", "c", "d"] {
        store
            .atomic_write_at(&put(skey(name), Value::U64(1)), 0, &vec![])
            .unwrap()
            .unwrap();
    }
    let range = |limit: u32, reverse: bool| ReadRange {
        start: skey("a"),
        end: skey("e"),
        limit,
        reverse,
    };
    let outs = store.snapshot_read(&vec![range(10, false)]).unwrap();
    let keys: Vec<Vec<u8>> = outs[0].entries.iter().map(|e| e.key.clone()).collect();
    assert_eq!(keys, vec![skey("a"), skey("b"), skey("c"), skey("d")]);
    let outs = store.snapshot_read(&vec![range(2, false)]).unwrap();
    let keys: Vec<Vec<u8>> = outs[0].entries.iter().map(|e| e.key.clone()).collect();
    assert_eq!(keys, vec![skey("a"), skey("b")]);
    let outs = store.snapshot_read(&vec![range(3, true)]).unwrap();
    let keys: Vec<Vec<u8>> = outs[0].entries.iter().map(|e| e.key.clone()).collect();
    assert_eq!(keys, vec![skey("d"), skey("c"), skey("b")]);
}

#[test]
fn delete_removes_the_row() {
    let mut store = Store::new();
    let key = skey("d");
    store
        .atomic_write_at(&put(key.clone(), Value::U64(1)), 0, &vec![])
        .unwrap()
        .unwrap();
    let del = write_only(vec![KvMutation {
        key: key.clone(),
        kind: MutationKind::Delete,
        expire_at: None,
    }]);
    store.atomic_write_at(&del, 0, &vec![]).unwrap().unwrap();
    let outs = store.snapshot_read(&vec![single_key_range(&key)]).unwrap();
    assert_eq!(outs[0].entries.len(), 0);
}

#[test]
fn closed_store_refuses_every_operation() {
    let mut store = Store::new();
    store.close();
    assert_eq!(
        store.snapshot_read(&vec![single_key_range(&skey("a"))]).unwrap_err(),
        KvError::ClosedDatabase
    );
    assert_eq!(
        store.atomic_write_at(&put(skey("a"), Value::U64(1)), 0, &vec![]).unwrap_err(),
        KvError::ClosedDatabase
    );
    assert_eq!(store.dequeue_ready_at(0), Err(KvError::ClosedDatabase));
    assert_eq!(store.finish_at(1, true, 0), Err(KvError::ClosedDatabase));
    assert_eq!(store.sweep_expired_at(0), Err(KvError::ClosedDatabase));
    assert_eq!(store.requeue_inflight_at(0), Err(KvError::ClosedDatabase));
}

#[test]
fn random_ids_and_clock_commit_too() {
    let mut store = Store::new();
    let write = AtomicWrite {
        checks: vec![],
        mutations: vec![],
        enqueues: vec![
            Enqueue {
                payload: vec![1],
                delay_ms: 0,
                keys_if_undelivered: vec![],
                backoff_schedule: Some(vec![]),
            },
            Enqueue {
                payload: vec![2],
                delay_ms: 0,
                keys_if_undelivered: vec![],
                backoff_schedule: Some(vec![]),
            },
        ],
    };
    let commit = store.atomic_write(&write).unwrap();
    assert!(commit.is_some());
    // The freshly drawn ids are distinct, so both messages are queued.
    assert_eq!(store.queue.len(), 2);
    assert_ne!(store.queue[0].id, store.queue[1].id);
}
