//! Range selectors, cursors, and the read-side validation pipeline.

use kvstore::errors::KvError;
use kvstore::keys::{encode_key, Key, KeyPart};
use kvstore::selector::{
    common_prefix_for_bytes, decode_selector_and_cursor, encode_cursor, prepare_snapshot_read,
    RawSelector, SnapshotRange,
};
use kvstore::store::Store;
use kvstore::types::{AtomicWrite, KvMutation, MutationKind, ReadRange};
use kvstore::values::Value;

fn pkey(parts: Vec<KeyPart>) -> Key {
    Key(parts)
}

fn skey(name: &str) -> KeyPart {
    KeyPart::String(name.to_string())
}

#[test]
fn selector_combinations() {
    // Prefix alone, prefix with one bound, explicit range, and start-only
    // all build; the rest are invalid.
    assert!(RawSelector::from_tuple(Some(pkey(vec![skey("p")])), None, None).is_ok());
    assert!(
        RawSelector::from_tuple(Some(pkey(vec![skey("p")])), Some(pkey(vec![skey("a")])), None)
            .is_ok()
    );
    assert!(
        RawSelector::from_tuple(Some(pkey(vec![skey("p")])), None, Some(pkey(vec![skey("z")])))
            .is_ok()
    );
    assert!(
        RawSelector::from_tuple(None, Some(pkey(vec![skey("a")])), Some(pkey(vec![skey("z")])))
            .is_ok()
    );
    assert!(RawSelector::from_tuple(None, Some(pkey(vec![skey("a")])), None).is_ok());
    assert_eq!(
        RawSelector::from_tuple(None, None, None).err(),
        Some(KvError::InvalidRange)
    );
    assert_eq!(
        RawSelector::from_tuple(None, None, Some(pkey(vec![skey("z")]))).err(),
        Some(KvError::InvalidRange)
    );
    assert_eq!(
        RawSelector::from_tuple(
            Some(pkey(vec![skey("p")])),
            Some(pkey(vec![skey("a")])),
            Some(pkey(vec![skey("z")])),
        )
        .err(),
        Some(KvError::InvalidRange)
    );
}

#[test]
fn prefix_selector_bounds() {
    let prefix = encode_key(&pkey(vec![skey("p")]));
    let sel = RawSelector::from_tuple(Some(pkey(vec![skey("p")])), None, None).unwrap();
    let mut want_start = prefix.clone();
    want_start.push(0x00);
    let mut want_end = prefix.clone();
    want_end.push(0xff);
    assert_eq!(sel.range_start_key(), want_start);
    assert_eq!(sel.range_end_key(), want_end);
    assert_eq!(sel.common_prefix(), prefix);
}

#[test]
fn start_only_selector_covers_one_key() {
    let start = encode_key(&pkey(vec![skey("a")]));
    let sel = RawSelector::from_tuple(None, Some(pkey(vec![skey("a")])), None).unwrap();
    let mut want_end = start.clone();
    want_end.push(0x00);
    assert_eq!(sel.range_start_key(), start);
    assert_eq!(sel.range_end_key(), want_end);
}

#[test]
fn common_prefix_of_bytes() {
    assert_eq!(common_prefix_for_bytes(&vec![1, 2, 3], &vec![1, 2, 9]), vec![1, 2]);
    assert_eq!(common_prefix_for_bytes(&vec![1], &vec![2]), Vec::<u8>::new());
    assert_eq!(common_prefix_for_bytes(&vec![5, 6], &vec![5, 6]), vec![5, 6]);
}

/// Scans with a limit, then resumes at the produced cursor, and the two
/// scans together see exactly the whole range in order.
#[test]
fn cursor_resume_continues_the_scan() {
    let mut store = Store::new();
    for name in ["pa", "pb", "pc", "pd"] {
        let write = AtomicWrite {
            checks: vec![],
            mutations: vec![KvMutation {
                key: encode_key(&pkey(vec![skey("p"), skey(name)])),
                kind: MutationKind::Put(Value::U64(1)),
                expire_at: None,
            }],
            enqueues: vec![],
        };
        store.atomic_write_at(&write, 0, &vec![]).unwrap().unwrap();
    }
    let sel = RawSelector::from_tuple(Some(pkey(vec![skey("p")])), None, None).unwrap();
    let (start, end) = decode_selector_and_cursor(&sel, false, None).unwrap();
    let outs = store
        .snapshot_read(&vec![ReadRange { start, end, limit: 2, reverse: false }])
        .unwrap();
    assert_eq!(outs[0].entries.len(), 2);
    let boundary = outs[0].entries[1].key.clone();
    let token = encode_cursor(&sel, &boundary).unwrap();
    let (start2, end2) = decode_selector_and_cursor(&sel, false, Some(&token)).unwrap();
    let outs2 = store
        .snapshot_read(&vec![ReadRange { start: start2, end: end2, limit: 10, reverse: false }])
        .unwrap();
    let rest: Vec<Vec<u8>> = outs2[0].entries.iter().map(|e| e.key.clone()).collect();
    assert_eq!(
        rest,
        vec![
            encode_key(&pkey(vec![skey("p"), skey("pc")])),
            encode_key(&pkey(vec![skey("p"), skey("pd")])),
        ]
    );
}

#[test]
fn reverse_cursor_resumes_before_the_boundary() {
    let mut store = Store::new();
    for name in ["pa", "pb", "pc"] {
        let write = AtomicWrite {
            checks: vec![],
            mutations: vec![KvMutation {
                key: encode_key(&pkey(vec![skey("p"), skey(name)])),
                kind: MutationKind::Put(Value::U64(1)),
                expire_at: None,
            }],
            enqueues: vec![],
        };
        store.atomic_write_at(&write, 0, &vec![]).unwrap().unwrap();
    }
    let sel = RawSelector::from_tuple(Some(pkey(vec![skey("p")])), None, None).unwrap();
    let (start, end) = decode_selector_and_cursor(&sel, true, None).unwrap();
    let outs = store
        .snapshot_read(&vec![ReadRange { start, end, limit: 1, reverse: true }])
        .unwrap();
    let boundary = outs[0].entries[0].key.clone();
    assert_eq!(boundary, encode_key(&pkey(vec![skey("p"), skey("pc")])));
    let token = encode_cursor(&sel, &boundary).unwrap();
    let (start2, end2) = decode_selector_and_cursor(&sel, true, Some(&token)).unwrap();
    let outs2 = store
        .snapshot_read(&vec![ReadRange { start: start2, end: end2, limit: 10, reverse: true }])
        .unwrap();
    let rest: Vec<Vec<u8>> = outs2[0].entries.iter().map(|e| e.key.clone()).collect();
    assert_eq!(
        rest,
        vec![
            encode_key(&pkey(vec![skey("p"), skey("pb")])),
            encode_key(&pkey(vec![skey("p"), skey("pa")])),
        ]
    );
}

#[test]
fn cursor_out_of_bounds_is_rejected() {
    // An explicit range whose common prefix is empty: a cursor spelling a
    // key below the start resumes out of bounds.
    let sel = RawSelector::Range { start: vec![2], end: vec![3] };
    let token = encode_cursor(&sel, &vec![1]).unwrap();
    assert_eq!(
        decode_selector_and_cursor(&sel, false, Some(&token)),
        Err(KvError::CursorOutOfBounds)
    );
    // Reverse: a cursor spelling a key above the end is out of bounds too.
    let token = encode_cursor(&sel, &vec![9]).unwrap();
    assert_eq!(
        decode_selector_and_cursor(&sel, true, Some(&token)),
        Err(KvError::CursorOutOfBounds)
    );
    // A token that is not base64 at all is an invalid cursor.
    assert_eq!(
        decode_selector_and_cursor(&sel, false, Some(&"!!!".to_string())),
        Err(KvError::InvalidCursor)
    );
}

#[test]
fn cursor_token_is_base64url() {
    // With an empty common prefix the token spells the whole boundary key.
    let sel = RawSelector::Range { start: vec![0], end: vec![0xff] };
    let token = encode_cursor(&sel, &vec![1, 2, 3]).unwrap();
    assert_eq!(token, "AQID");
    let padded = encode_cursor(&sel, &vec![0xfb, 0xef]).unwrap();
    assert_eq!(padded, "--8=", "the URL-safe alphabet and padding are used");
    let (start, end) = decode_selector_and_cursor(&sel, false, Some(&token)).unwrap();
    assert_eq!(start, vec![1, 2, 3, 0]);
    assert_eq!(end, vec![0xff]);
}

#[test]
fn boundary_key_must_carry_the_prefix() {
    let sel = RawSelector::from_tuple(Some(pkey(vec![skey("p")])), None, None).unwrap();
    let stranger = encode_key(&pkey(vec![skey("q")]));
    assert_eq!(encode_cursor(&sel, &stranger), Err(KvError::InvalidBoundaryKey));
}

#[test]
fn read_pipeline_validates_shape() {
    let one = |limit: u32| SnapshotRange {
        prefix: Some(pkey(vec![skey("p")])),
        start: None,
        end: None,
        limit,
        reverse: false,
        cursor: None,
    };
    let ranges: Vec<SnapshotRange> = (0..11).map(|_| one(1)).collect();
    assert_eq!(prepare_snapshot_read(ranges).unwrap_err(), KvError::TooManyRanges);
    assert_eq!(prepare_snapshot_read(vec![one(0)]).unwrap_err(), KvError::LimitIsZero);
    assert_eq!(
        prepare_snapshot_read(vec![one(501), one(500)]).unwrap_err(),
        KvError::TooManyEntries
    );
    let ok = prepare_snapshot_read(vec![one(500), one(500)]).unwrap();
    assert_eq!(ok.len(), 2);
    assert_eq!(ok[0].limit, 500);
    let invalid = SnapshotRange {
        prefix: None,
        start: None,
        end: None,
        limit: 1,
        reverse: false,
        cursor: None,
    };
    assert_eq!(prepare_snapshot_read(vec![invalid]).unwrap_err(), KvError::InvalidRange);
}
