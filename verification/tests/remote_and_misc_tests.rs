//! The remote variant's decision logic, the evaluation output, and the
//! watcher configuration.

use kvstore::errors::KvError;
use kvstore::remote::{
    check_remote_write_supported, choose_strong_endpoint, decode_value, encode_mutation,
    encode_value, interpret_atomic_write_status, metadata_refresh_interval_ms,
    randomized_backoff_ms, status_from_code, AtomicWriteStatus, DummyQueueMessageHandle,
    EndpointInfo,
};
use kvstore::repl::{result_to_evaluation_output, EvaluationOutput, ImportCollector, TsEvaluateResponse};
use kvstore::types::{AtomicWrite, Enqueue, KvMutation, MutationKind};
use kvstore::values::Value;
use kvstore::watch::{PrintConfig, WatcherRestartMode};

#[test]
fn strong_endpoint_is_chosen() {
    let endpoints = vec![
        EndpointInfo { url: "https://a.example".to_string(), consistency: "eventual".to_string() },
        EndpointInfo { url: "https://b.example".to_string(), consistency: "strong".to_string() },
    ];
    let chosen = choose_strong_endpoint(&endpoints).expect("one endpoint is strong");
    assert_eq!(chosen.url, "https://b.example");
    let weak = vec![EndpointInfo {
        url: "https://a.example".to_string(),
        consistency: "eventual".to_string(),
    }];
    assert!(choose_strong_endpoint(&weak).is_none());
}

#[test]
fn wire_value_codec() {
    let v = encode_value(Value::U64(258));
    assert_eq!(v.encoding, 2);
    assert_eq!(v.data, vec![2, 1, 0, 0, 0, 0, 0, 0]);
    match decode_value(v.data, v.encoding).unwrap() {
        Value::U64(x) => assert_eq!(x, 258),
        _ => panic!("wrong value kind"),
    }
    assert_eq!(decode_value(vec![1, 2, 3], 2).unwrap_err(), KvError::InvalidValueEncoding);
    assert_eq!(decode_value(vec![], 0).unwrap_err(), KvError::InvalidValueEncoding);
}

#[test]
fn wire_mutation_encoding() {
    let m = encode_mutation(KvMutation {
        key: vec![1, 2],
        kind: MutationKind::Put(Value::V8(vec![9])),
        expire_at: Some(5000),
    });
    assert_eq!(m.key, vec![1, 2]);
    assert_eq!(m.mutation_type, 1);
    assert_eq!(m.expire_at_ms, 5000);
    let v = m.value.unwrap();
    assert_eq!(v.encoding, 1);
    assert_eq!(v.data, vec![9]);
    let d = encode_mutation(KvMutation { key: vec![3], kind: MutationKind::Delete, expire_at: None });
    assert_eq!(d.mutation_type, 2);
    assert_eq!(d.expire_at_ms, 0);
    let dv = d.value.unwrap();
    assert_eq!(dv.encoding, 3);
    assert_eq!(dv.data, Vec::<u8>::new());
    let s = encode_mutation(KvMutation {
        key: vec![4],
        kind: MutationKind::Sum(Value::U64(1)),
        expire_at: None,
    });
    assert_eq!(s.mutation_type, 3);
}

#[test]
fn statuses_map_to_outcomes() {
    assert_eq!(status_from_code(1), AtomicWriteStatus::AwSuccess);
    assert_eq!(status_from_code(2), AtomicWriteStatus::AwCheckFailure);
    assert_eq!(status_from_code(99), AtomicWriteStatus::AwUnspecified);
    let vs = vec![0, 0, 0, 0, 0, 0, 0, 3, 0, 0];
    let ok = interpret_atomic_write_status(AtomicWriteStatus::AwSuccess, vs.clone()).unwrap();
    assert_eq!(ok.unwrap().versionstamp, vs);
    // An empty response versionstamp stands for ten zero bytes; any other
    // length is malformed.
    let filled = interpret_atomic_write_status(AtomicWriteStatus::AwSuccess, vec![]).unwrap();
    assert_eq!(filled.unwrap().versionstamp, vec![0u8; 10]);
    assert_eq!(
        interpret_atomic_write_status(AtomicWriteStatus::AwSuccess, vec![1, 2, 3]).unwrap_err(),
        KvError::InvalidVersionstamp
    );
    let check = interpret_atomic_write_status(AtomicWriteStatus::AwCheckFailure, vec![]).unwrap();
    assert!(check.is_none());
    assert_eq!(
        interpret_atomic_write_status(AtomicWriteStatus::AwUsageLimitExceeded, vec![]).unwrap_err(),
        KvError::UsageLimitExceeded
    );
    assert_eq!(
        interpret_atomic_write_status(AtomicWriteStatus::AwWriteDisabled, vec![]).unwrap_err(),
        KvError::WriteDisabled
    );
    assert_eq!(
        interpret_atomic_write_status(AtomicWriteStatus::AwUnsupportedWrite, vec![]).unwrap_err(),
        KvError::UnsupportedWrite
    );
    assert_eq!(
        interpret_atomic_write_status(AtomicWriteStatus::AwQueueBacklogLimitExceeded, vec![])
            .unwrap_err(),
        KvError::QueueBacklogLimitExceeded
    );
    assert_eq!(
        interpret_atomic_write_status(AtomicWriteStatus::AwUnspecified, vec![]).unwrap_err(),
        KvError::Unspecified
    );
}

#[test]
fn remote_writes_with_enqueues_are_refused() {
    let plain = AtomicWrite { checks: vec![], mutations: vec![], enqueues: vec![] };
    assert!(check_remote_write_supported(&plain).is_ok());
    let with_enqueue = AtomicWrite {
        checks: vec![],
        mutations: vec![],
        enqueues: vec![Enqueue {
            payload: vec![1],
            delay_ms: 0,
            keys_if_undelivered: vec![],
            backoff_schedule: None,
        }],
    };
    assert_eq!(
        check_remote_write_supported(&with_enqueue).unwrap_err(),
        KvError::UnsupportedWrite
    );
}

#[test]
fn remote_queue_handle_refuses() {
    let mut handle = DummyQueueMessageHandle {};
    assert!(handle.take_payload().is_err());
    assert!(handle.finish(true).is_err());
}

#[test]
fn backoff_and_refresh_formulas() {
    // Base five seconds, first attempt: five seconds plus two, no jitter.
    assert_eq!(randomized_backoff_ms(5000, 0, 0), 5002);
    assert_eq!(randomized_backoff_ms(5000, 1, 0), 5004);
    // The attempt exponent caps at twelve.
    assert_eq!(randomized_backoff_ms(0, 12, 0), 8192);
    assert_eq!(randomized_backoff_ms(0, 999, 0), 8192);
    assert_eq!(randomized_backoff_ms(0, 999, 4096), 12288);
    // Refresh ten minutes early, but at least once a minute.
    assert_eq!(metadata_refresh_interval_ms(0), 60000);
    assert_eq!(metadata_refresh_interval_ms(600000), 60000);
    assert_eq!(metadata_refresh_interval_ms(660000), 60000);
    assert_eq!(metadata_refresh_interval_ms(661000), 61000);
    assert_eq!(metadata_refresh_interval_ms(3600000), 3000000);
}

#[test]
fn evaluation_output_rendering() {
    let ok = result_to_evaluation_output(Ok(EvaluationOutput::Value("42".to_string())));
    match &ok {
        EvaluationOutput::Value(s) => assert_eq!(s.as_str(), "42"),
        _ => panic!("a success stays a value"),
    }
    assert_eq!(ok.text().as_str(), "42");
    let err = result_to_evaluation_output(Err("boom".to_string()));
    match &err {
        EvaluationOutput::Error(s) => assert_eq!(s.as_str(), "error: boom"),
        _ => panic!("a failure renders as an error"),
    }
}

#[test]
fn evaluate_response_carries_its_code() {
    let response = TsEvaluateResponse {
        ts_code: "1 + 1".to_string(),
        value: EvaluationOutput::Value("2".to_string()),
    };
    assert_eq!(response.ts_code, "1 + 1");
    assert_eq!(response.value.text().as_str(), "2");
}

#[test]
fn import_collector_collects() {
    let mut collector = ImportCollector::new();
    assert_eq!(collector.imports.len(), 0);
    collector.push_import("npm:left-pad".to_string());
    collector.push_import("node:fs".to_string());
    assert_eq!(collector.imports, vec!["npm:left-pad".to_string(), "node:fs".to_string()]);
}

#[test]
fn watcher_config_carries_its_fields() {
    let config = PrintConfig { job_name: "Process".to_string(), clear_screen: true };
    assert_eq!(config.job_name, "Process");
    assert!(config.clear_screen);
    assert_eq!(WatcherRestartMode::Automatic, WatcherRestartMode::Automatic);
    assert_ne!(WatcherRestartMode::Automatic, WatcherRestartMode::Manual);
}
