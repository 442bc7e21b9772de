//! The queue engine on concrete scenarios: delivery, requeue, dead-letter,
//! crash recovery, and the dispatch concurrency bound.

use kvstore::errors::KvError;
use kvstore::keys::{encode_key, Key, KeyPart};
use kvstore::store::Store;
use kvstore::types::{AtomicWrite, Enqueue, ReadRange};
use kvstore::values::Value;

fn skey(name: &str) -> Vec<u8> {
    encode_key(&Key(vec![KeyPart::String(name.to_string())]))
}

fn single_key_range(key: &[u8]) -> ReadRange {
    let mut end = key.to_vec();
    end.push(0);
    ReadRange { start: key.to_vec(), end, limit: 1, reverse: false }
}

fn enqueue_write(enqueues: Vec<Enqueue>) -> AtomicWrite {
    AtomicWrite { checks: vec![], mutations: vec![], enqueues }
}

#[test]
fn queue_happy_path() {
    let mut store = Store::new();
    let write = enqueue_write(vec![Enqueue {
        payload: vec![0xAA],
        delay_ms: 0,
        keys_if_undelivered: vec![],
        backoff_schedule: None,
    }]);
    store.atomic_write_at(&write, 1000, &vec![7]).unwrap().unwrap();
    let msgs = store.dequeue_ready_at(1000).unwrap();
    assert_eq!(msgs.len(), 1);
    assert_eq!(msgs[0].0, 7);
    assert_eq!(msgs[0].1, vec![0xAA]);
    let requeued = store.finish_at(7, true, 1000).unwrap();
    assert!(!requeued);
    assert_eq!(store.queue.len(), 0);
    assert_eq!(store.running.len(), 0);
}

#[test]
fn queue_delay_holds_delivery_back() {
    let mut store = Store::new();
    let write = enqueue_write(vec![Enqueue {
        payload: vec![1],
        delay_ms: 500,
        keys_if_undelivered: vec![],
        backoff_schedule: None,
    }]);
    store.atomic_write_at(&write, 1000, &vec![1]).unwrap().unwrap();
    assert_eq!(store.earliest_ready_ts(), Some(1500));
    assert_eq!(store.dequeue_ready_at(1499).unwrap().len(), 0);
    assert_eq!(store.dequeue_ready_at(1500).unwrap().len(), 1);
}

#[test]
fn queue_requeue_then_dead_letter() {
    let mut store = Store::new();
    let dl = skey("dl");
    let write = enqueue_write(vec![Enqueue {
        payload: vec![0xEE],
        delay_ms: 0,
        keys_if_undelivered: vec![dl.clone()],
        backoff_schedule: Some(vec![10]),
    }]);
    store.atomic_write_at(&write, 1000, &vec![42]).unwrap().unwrap();
    let msgs = store.dequeue_ready_at(1000).unwrap();
    assert_eq!(msgs.len(), 1);
    // First failure: requeued no earlier than ten milliseconds out.
    let requeued = store.finish_at(42, false, 1000).unwrap();
    assert!(requeued);
    assert_eq!(store.queue.len(), 1);
    assert!(store.queue[0].ts >= 1010);
    assert_eq!(store.queue[0].backoff_schedule.len(), 0);
    // Redelivery, and a second failure: the schedule is exhausted, so the
    // payload dead-letters into the declared key and leaves the queues.
    let msgs = store.dequeue_ready_at(1010).unwrap();
    assert_eq!(msgs.len(), 1);
    assert_eq!(msgs[0].1, vec![0xEE]);
    let requeued = store.finish_at(42, false, 1010).unwrap();
    assert!(!requeued);
    assert_eq!(store.queue.len(), 0);
    assert_eq!(store.running.len(), 0);
    let outs = store.snapshot_read(&vec![single_key_range(&dl)]).unwrap();
    assert_eq!(outs[0].entries.len(), 1);
    match &outs[0].entries[0].value {
        Value::V8(b) => assert_eq!(b, &vec![0xEE]),
        _ => panic!("dead letters are stored as script data"),
    }
}

#[test]
fn crash_recovery_redelivers() {
    let mut store = Store::new();
    let write = enqueue_write(vec![Enqueue {
        payload: vec![0x55],
        delay_ms: 0,
        keys_if_undelivered: vec![],
        backoff_schedule: None,
    }]);
    store.atomic_write_at(&write, 1000, &vec![9]).unwrap().unwrap();
    let msgs = store.dequeue_ready_at(1000).unwrap();
    assert_eq!(msgs.len(), 1);
    // The consumer never finishes; the handle's store closes.
    store.close();
    // Reopening hands the persisted tables to a fresh engine.
    let mut reopened = Store {
        kv: store.kv,
        queue: store.queue,
        running: store.running,
        version: store.version,
        closed: false,
        in_flight: 0,
    };
    assert_eq!(reopened.running.len(), 1);
    reopened.requeue_inflight_at(2000).unwrap();
    assert_eq!(reopened.running.len(), 0);
    // The default backoff schedule delays the redelivery by its head.
    assert_eq!(reopened.queue.len(), 1);
    assert_eq!(reopened.queue[0].ts, 2100);
    let msgs = reopened.dequeue_ready_at(2100).unwrap();
    assert_eq!(msgs.len(), 1);
    assert_eq!(msgs[0].1, vec![0x55]);
    assert_eq!(msgs[0].0, 9, "the recovered message keeps its id");
}

#[test]
fn recovery_dead_letters_exhausted_messages() {
    let mut store = Store::new();
    let dl = skey("dead");
    let write = enqueue_write(vec![Enqueue {
        payload: vec![3],
        delay_ms: 0,
        keys_if_undelivered: vec![dl.clone()],
        backoff_schedule: Some(vec![]),
    }]);
    store.atomic_write_at(&write, 0, &vec![5]).unwrap().unwrap();
    store.dequeue_ready_at(0).unwrap();
    store.requeue_inflight_at(50).unwrap();
    assert_eq!(store.queue.len(), 0);
    assert_eq!(store.running.len(), 0);
    let outs = store.snapshot_read(&vec![single_key_range(&dl)]).unwrap();
    assert_eq!(outs[0].entries.len(), 1);
}

#[test]
fn finishing_an_unknown_id_is_a_no_op() {
    let mut store = Store::new();
    assert_eq!(store.finish_at(12345, true, 0), Ok(false));
    assert_eq!(store.finish_at(12345, false, 0), Ok(false));
}

#[test]
fn dispatch_concurrency_capped_at_one_hundred() {
    let mut store = Store::new();
    for _ in 0..100 {
        assert!(store.acquire_dispatch_permit());
    }
    assert!(!store.acquire_dispatch_permit(), "the one hundred first permit is refused");
    assert_eq!(store.in_flight, 100);
    store.release_dispatch_permit();
    assert!(store.acquire_dispatch_permit());
    assert!(!store.acquire_dispatch_permit());
}

#[test]
fn dequeue_batch_is_capped_at_one_hundred() {
    let mut store = Store::new();
    let mut enqueues = vec![];
    let mut ids = vec![];
    for i in 0..120u64 {
        enqueues.push(Enqueue {
            payload: vec![i as u8],
            delay_ms: 0,
            keys_if_undelivered: vec![],
            backoff_schedule: Some(vec![]),
        });
        ids.push(i as u128 + 1);
    }
    store.atomic_write_at(&enqueue_write(enqueues), 0, &ids).unwrap().unwrap();
    let first = store.dequeue_ready_at(10).unwrap();
    assert_eq!(first.len(), 100);
    let second = store.dequeue_ready_at(10).unwrap();
    assert_eq!(second.len(), 20);
    assert_eq!(store.queue.len(), 0);
    assert_eq!(store.running.len(), 120);
}

#[test]
fn colliding_ids_are_refused() {
    let mut store = Store::new();
    let one = enqueue_write(vec![Enqueue {
        payload: vec![1],
        delay_ms: 0,
        keys_if_undelivered: vec![],
        backoff_schedule: Some(vec![]),
    }]);
    store.atomic_write_at(&one, 0, &vec![77]).unwrap().unwrap();
    assert_eq!(store.atomic_write_at(&one, 0, &vec![77]).unwrap_err(), KvError::IdCollision);
    let two = enqueue_write(vec![
        Enqueue {
            payload: vec![1],
            delay_ms: 0,
            keys_if_undelivered: vec![],
            backoff_schedule: Some(vec![]),
        },
        Enqueue {
            payload: vec![2],
            delay_ms: 0,
            keys_if_undelivered: vec![],
            backoff_schedule: Some(vec![]),
        },
    ]);
    assert_eq!(
        store.atomic_write_at(&two, 0, &vec![88, 88]).unwrap_err(),
        KvError::IdCollision
    );
}
