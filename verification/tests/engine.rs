use kvs::logset::LogFile;
use kvs::KvStore;
use kvs::KvsError;

fn fresh_store() -> KvStore {
    KvStore::open(Vec::new()).expect("open on no files succeeds")
}

fn reopen(store: &KvStore) -> KvStore {
    let logs: Vec<LogFile> = store.log_files().clone();
    KvStore::open(logs).expect("reopen succeeds")
}

#[test]
fn open_empty_directory_starts_at_generation_one() {
    let store = fresh_store();
    assert_eq!(store.current_generation(), 1);
    assert_eq!(store.current_sequence(), 0);
    assert_eq!(store.uncompacted_bytes(), 0);
    assert_eq!(store.get("anything".to_string()).unwrap(), None);
}

#[test]
fn set_then_get_returns_value() {
    let mut store = fresh_store();
    store.set("k".to_string(), "v1".to_string()).unwrap();
    assert_eq!(store.get("k".to_string()).unwrap(), Some("v1".to_string()));
}

#[test]
fn set_twice_same_value_still_returns_it() {
    let mut store = fresh_store();
    store.set("k".to_string(), "v".to_string()).unwrap();
    store.set("k".to_string(), "v".to_string()).unwrap();
    assert_eq!(store.get("k".to_string()).unwrap(), Some("v".to_string()));
}

#[test]
fn set_twice_returns_latest_value() {
    let mut store = fresh_store();
    store.set("k".to_string(), "v1".to_string()).unwrap();
    store.set("k".to_string(), "v2".to_string()).unwrap();
    assert_eq!(store.get("k".to_string()).unwrap(), Some("v2".to_string()));
}

#[test]
fn writes_to_other_keys_leave_a_binding_alone() {
    let mut store = fresh_store();
    store.set("a".to_string(), "1".to_string()).unwrap();
    store.set("b".to_string(), "2".to_string()).unwrap();
    store.remove("b".to_string()).unwrap();
    store.set("c".to_string(), "3".to_string()).unwrap();
    assert_eq!(store.get("a".to_string()).unwrap(), Some("1".to_string()));
}

#[test]
fn remove_then_get_returns_none() {
    let mut store = fresh_store();
    store.set("k".to_string(), "v".to_string()).unwrap();
    store.remove("k".to_string()).unwrap();
    assert_eq!(store.get("k".to_string()).unwrap(), None);
}

#[test]
fn remove_twice_reports_key_not_found() {
    let mut store = fresh_store();
    store.set("k".to_string(), "v".to_string()).unwrap();
    store.remove("k".to_string()).unwrap();
    let err = store.remove("k".to_string()).unwrap_err();
    assert!(matches!(err, KvsError::KeyNotFound));
}

#[test]
fn remove_absent_key_writes_nothing() {
    let mut store = fresh_store();
    store.set("k".to_string(), "v".to_string()).unwrap();
    let bytes_before = store.total_log_bytes();
    let files_before = store.log_files().len();
    let sequence_before = store.current_sequence();
    let err = store.remove("absent".to_string()).unwrap_err();
    assert!(matches!(err, KvsError::KeyNotFound));
    assert_eq!(store.total_log_bytes(), bytes_before);
    assert_eq!(store.log_files().len(), files_before);
    assert_eq!(store.current_sequence(), sequence_before);
}

#[test]
fn sequence_numbers_strictly_increase_per_successful_write() {
    let mut store = fresh_store();
    assert_eq!(store.current_sequence(), 0);
    store.set("a".to_string(), "1".to_string()).unwrap();
    assert_eq!(store.current_sequence(), 1);
    store.set("b".to_string(), "2".to_string()).unwrap();
    assert_eq!(store.current_sequence(), 2);
    store.remove("a".to_string()).unwrap();
    assert_eq!(store.current_sequence(), 3);
    let _ = store.remove("missing".to_string());
    assert_eq!(store.current_sequence(), 3);
}

#[test]
fn empty_key_and_empty_value_are_valid() {
    let mut store = fresh_store();
    store.set(String::new(), String::new()).unwrap();
    assert_eq!(store.get(String::new()).unwrap(), Some(String::new()));
    store.set(String::new(), "v".to_string()).unwrap();
    assert_eq!(store.get(String::new()).unwrap(), Some("v".to_string()));
    store.remove(String::new()).unwrap();
    assert_eq!(store.get(String::new()).unwrap(), None);
}

#[test]
fn large_value_round_trips() {
    let mut store = fresh_store();
    let big = "x".repeat(1024 * 1024);
    store.set("big".to_string(), big.clone()).unwrap();
    assert_eq!(store.get("big".to_string()).unwrap(), Some(big));
}

#[test]
fn unicode_keys_and_values_round_trip() {
    let mut store = fresh_store();
    let key = "sch\u{fc}ssel \u{1f511}".to_string();
    let value = "wert \u{2764} \u{1f600}".to_string();
    store.set(key.clone(), value.clone()).unwrap();
    assert_eq!(store.get(key.clone()).unwrap(), Some(value.clone()));
    let reopened = reopen(&store);
    assert_eq!(reopened.get(key).unwrap(), Some(value));
}

#[test]
fn reopen_preserves_contents() {
    let mut store = fresh_store();
    store.set("a".to_string(), "1".to_string()).unwrap();
    store.set("b".to_string(), "2".to_string()).unwrap();
    store.set("a".to_string(), "3".to_string()).unwrap();
    store.remove("b".to_string()).unwrap();
    let reopened = reopen(&store);
    assert_eq!(reopened.get("a".to_string()).unwrap(), Some("3".to_string()));
    assert_eq!(reopened.get("b".to_string()).unwrap(), None);
    assert_eq!(reopened.current_generation(), store.current_generation() + 1);
    assert_eq!(reopened.current_sequence(), store.current_sequence());
}

#[test]
fn many_keys_survive_a_restart() {
    let mut store = fresh_store();
    let filler = "v".repeat(90);
    for i in 0..20_000u32 {
        let key = format!("key{:05}", i);
        let value = format!("{}{:05}", filler, i);
        store.set(key, value).unwrap();
    }
    let reopened = reopen(&store);
    for i in 0..20_000u32 {
        let key = format!("key{:05}", i);
        let expected = format!("{}{:05}", filler, i);
        assert_eq!(reopened.get(key).unwrap(), Some(expected));
    }
}

#[test]
fn explicit_compaction_drops_stale_bytes_and_files() {
    let mut store = fresh_store();
    store.set("keep".to_string(), "kept".to_string()).unwrap();
    let filler = "y".repeat(2000);
    for _ in 0..20 {
        store.set("churn".to_string(), filler.clone()).unwrap();
    }
    // Two restarts leave three generation files on disk.
    let store = reopen(&store);
    let mut store = reopen(&store);
    let files_before = store.log_files().len();
    let bytes_before = store.total_log_bytes();
    assert!(store.uncompacted_bytes() > 0);
    let generation_before = store.current_generation();
    store.compact().unwrap();
    assert_eq!(store.uncompacted_bytes(), 0);
    assert_eq!(store.log_files().len(), 2);
    assert_eq!(store.log_files()[0].generation, generation_before + 1);
    assert_eq!(store.log_files()[1].generation, generation_before + 2);
    assert!(store.log_files()[1].data.is_empty());
    assert_eq!(store.reader_safe_point(), generation_before + 1);
    assert!(store.log_files().len() < files_before);
    assert!(store.total_log_bytes() < bytes_before);
    assert_eq!(store.get("keep".to_string()).unwrap(), Some("kept".to_string()));
    assert_eq!(store.get("churn".to_string()).unwrap(), Some(filler));
}

#[test]
fn threshold_compaction_preserves_live_keys() {
    let mut store = fresh_store();
    for i in 0..50u32 {
        store.set(format!("stable{}", i), format!("value{}", i)).unwrap();
    }
    let generation_before = store.current_generation();
    // Overwrite one key until more than a mebibyte of stale bytes
    // accumulates, which triggers compaction on its own.
    let filler = "z".repeat(8 * 1024);
    for _ in 0..200 {
        store.set("hot".to_string(), filler.clone()).unwrap();
    }
    assert!(store.current_generation() > generation_before);
    assert!(store.uncompacted_bytes() <= 1024 * 1024);
    assert_eq!(store.get("hot".to_string()).unwrap(), Some(filler));
    for i in 0..50u32 {
        assert_eq!(
            store.get(format!("stable{}", i)).unwrap(),
            Some(format!("value{}", i))
        );
    }
    // The live data survives a restart after compaction too.
    let reopened = reopen(&store);
    assert_eq!(reopened.get("stable7".to_string()).unwrap(), Some("value7".to_string()));
}

#[test]
fn compaction_keeps_disk_usage_at_live_data() {
    let mut store = fresh_store();
    let value = "v".repeat(100);
    for i in 0..10u32 {
        store.set(format!("k{}", i), value.clone()).unwrap();
    }
    let live_bytes_upper_bound = store.total_log_bytes();
    for i in 0..10u32 {
        store.set(format!("k{}", i), value.clone()).unwrap();
    }
    let before = store.total_log_bytes();
    store.compact().unwrap();
    let after = store.total_log_bytes();
    assert!(after < before);
    assert!(after <= live_bytes_upper_bound);
}

#[test]
fn log_records_use_little_endian_framing() {
    let mut store = fresh_store();
    store.set("k".to_string(), "v".to_string()).unwrap();
    let files = store.log_files();
    let data = &files[files.len() - 1].data;
    assert!(data.len() > 4);
    let prefix = [data[0], data[1], data[2], data[3]];
    let body_len = u32::from_le_bytes(prefix) as usize;
    assert_eq!(body_len, data.len() - 4);
}

#[test]
fn corrupted_record_fails_recovery() {
    let mut store = fresh_store();
    store.set("k".to_string(), "value".to_string()).unwrap();
    let mut logs: Vec<LogFile> = store.log_files().clone();
    let last = logs.len() - 1;
    let end = logs[last].data.len() - 1;
    // Flip one bit of a payload byte: the record still decodes, but
    // its checksum no longer matches.
    logs[last].data[end] ^= 0x01;
    match KvStore::open(logs) {
        Err(e) => assert!(matches!(e, KvsError::CorruptedData)),
        Ok(_) => panic!("recovery must reject a corrupted record"),
    }
}

#[test]
fn truncated_record_fails_recovery() {
    let mut store = fresh_store();
    store.set("k".to_string(), "value".to_string()).unwrap();
    let mut logs: Vec<LogFile> = store.log_files().clone();
    let last = logs.len() - 1;
    logs[last].data.pop();
    match KvStore::open(logs) {
        Err(e) => assert!(matches!(e, KvsError::IoError(_))),
        Ok(_) => panic!("recovery must reject a truncated record"),
    }
}

fn frame(record: &kvs::codec::KvsCommand) -> Vec<u8> {
    let body = record.encode_to_vec();
    let mut out = (body.len() as u32).to_le_bytes().to_vec();
    out.extend_from_slice(&body);
    out
}

#[test]
fn foreign_logs_replay_like_our_own() {
    // A log written by another process: a rebind of one key and a
    // Remove for a key that was never set.
    let mut data = Vec::new();
    data.extend_from_slice(&frame(&kvs::codec::KvsCommand::set(
        "a".to_string(),
        "1".to_string(),
        1,
    )));
    data.extend_from_slice(&frame(&kvs::codec::KvsCommand::remove("b".to_string(), 2)));
    data.extend_from_slice(&frame(&kvs::codec::KvsCommand::set(
        "a".to_string(),
        "2".to_string(),
        3,
    )));
    let store = KvStore::open(vec![LogFile { generation: 5, data }]).unwrap();
    assert_eq!(store.get("a".to_string()).unwrap(), Some("2".to_string()));
    assert_eq!(store.get("b".to_string()).unwrap(), None);
    assert_eq!(store.current_generation(), 6);
    assert_eq!(store.current_sequence(), 3);
    assert!(store.uncompacted_bytes() > 0);
}

#[test]
fn effects_mirror_appends() {
    let mut store = fresh_store();
    // Opening queues the creation of the fresh current generation.
    let opened = store.take_effects();
    assert_eq!(opened.len(), 1);
    assert!(matches!(opened[0], kvs::kv::Effect::Create { generation: 1 }));
    store.set("k".to_string(), "v".to_string()).unwrap();
    let effects = store.take_effects();
    assert_eq!(effects.len(), 1);
    match &effects[0] {
        kvs::kv::Effect::Append { generation, bytes } => {
            assert_eq!(*generation, 1);
            let files = store.log_files();
            assert_eq!(&files[files.len() - 1].data, bytes);
        },
        _ => panic!("a write must queue exactly one append"),
    }
    let after = store.take_effects();
    assert!(after.is_empty());
}
