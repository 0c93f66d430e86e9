use kvs::Command;
use kvs::KvStore;
use kvs::KvsError;
use kvs::LogFile;
use kvs::encode_command;

fn reopen(store: KvStore) -> KvStore {
    store.reopen().unwrap()
}

#[test]
fn empty_store() {
    let mut dir: Vec<LogFile> = Vec::new();
    let store = KvStore::open(Vec::new()).unwrap();
    assert_eq!(store.get("x".to_string()).unwrap(), None);
    dir.extend(store.into_files());
    assert_eq!(dir.len(), 1);
    assert_eq!(dir[0].gen, 1);
    assert_eq!(dir[0].data.len(), 0);
}

#[test]
fn write_and_read() {
    let mut store = KvStore::open(Vec::new()).unwrap();
    store.set("k".to_string(), "v".to_string()).unwrap();
    assert_eq!(store.get("k".to_string()).unwrap(), Some("v".to_string()));
    let store = reopen(store);
    assert_eq!(store.get("k".to_string()).unwrap(), Some("v".to_string()));
}

#[test]
fn overwrite() {
    let mut store = KvStore::open(Vec::new()).unwrap();
    store.set("k".to_string(), "a".to_string()).unwrap();
    store.set("k".to_string(), "b".to_string()).unwrap();
    assert_eq!(store.get("k".to_string()).unwrap(), Some("b".to_string()));
    let store = reopen(store);
    assert_eq!(store.get("k".to_string()).unwrap(), Some("b".to_string()));
}

#[test]
fn remove_key() {
    let mut store = KvStore::open(Vec::new()).unwrap();
    store.set("k".to_string(), "v".to_string()).unwrap();
    store.remove("k".to_string()).unwrap();
    assert_eq!(store.get("k".to_string()).unwrap(), None);
    assert!(matches!(store.remove("k".to_string()), Err(KvsError::KeyNotFound)));
}

#[test]
fn remove_absent_key_fails_and_writes_nothing() {
    let mut store = KvStore::open(Vec::new()).unwrap();
    store.set("other".to_string(), "v".to_string()).unwrap();
    let bytes_before: usize = store.files().iter().map(|f| f.data.len()).sum();
    assert!(matches!(store.remove("absent".to_string()), Err(KvsError::KeyNotFound)));
    let bytes_after: usize = store.files().iter().map(|f| f.data.len()).sum();
    assert_eq!(bytes_before, bytes_after);
    assert_eq!(store.get("other".to_string()).unwrap(), Some("v".to_string()));
}

#[test]
fn removed_key_stays_empty_until_next_set() {
    let mut store = KvStore::open(Vec::new()).unwrap();
    store.set("k".to_string(), "v".to_string()).unwrap();
    store.remove("k".to_string()).unwrap();
    store.set("other".to_string(), "w".to_string()).unwrap();
    assert_eq!(store.get("k".to_string()).unwrap(), None);
    store.set("k".to_string(), "again".to_string()).unwrap();
    assert_eq!(store.get("k".to_string()).unwrap(), Some("again".to_string()));
}

#[test]
fn values_set_in_order_read_as_the_last() {
    let mut store = KvStore::open(Vec::new()).unwrap();
    for i in 1..6 {
        store.set("k".to_string(), format!("v{}", i)).unwrap();
    }
    assert_eq!(store.get("k".to_string()).unwrap(), Some("v5".to_string()));
}

#[test]
fn setting_twice_reads_once_but_grows_uncompacted() {
    let mut store = KvStore::open(Vec::new()).unwrap();
    store.set("k".to_string(), "v".to_string()).unwrap();
    let before = store.uncompacted();
    store.set("k".to_string(), "v".to_string()).unwrap();
    let record_len = encode_command(&Command::set("k".to_string(), "v".to_string())).len() as u64;
    assert_eq!(store.uncompacted(), before + record_len);
    assert_eq!(store.get("k".to_string()).unwrap(), Some("v".to_string()));
}

#[test]
fn compaction_trigger() {
    let mut store = KvStore::open(Vec::new()).unwrap();
    let mut compacted = false;
    let mut last_gen = store.current_gen();
    for i in 1..1000 {
        store.set(format!("key{}", i), format!("val{}", i)).unwrap();
        store.set(format!("key{}", i), format!("val2{}", i)).unwrap();
        if store.current_gen() > last_gen {
            compacted = true;
        }
        last_gen = store.current_gen();
    }
    assert!(compacted);
    for i in 1..1000 {
        assert_eq!(store.get(format!("key{}", i)).unwrap(), Some(format!("val2{}", i)));
    }
    let files = store.files();
    assert_eq!(files.len(), 2);
    assert_eq!(files[1].gen, files[0].gen + 1);
    assert_eq!(files[1].gen, store.current_gen());
}

#[test]
fn restart_after_compaction() {
    let mut store = KvStore::open(Vec::new()).unwrap();
    for i in 1..1000 {
        store.set(format!("key{}", i), format!("val{}", i)).unwrap();
        store.set(format!("key{}", i), format!("val2{}", i)).unwrap();
    }
    let max_gen = store.files().iter().map(|f| f.gen).max().unwrap();
    let store = reopen(store);
    assert_eq!(store.current_gen(), max_gen + 1);
    for i in 1..1000 {
        assert_eq!(store.get(format!("key{}", i)).unwrap(), Some(format!("val2{}", i)));
    }
}

#[test]
fn generations_grow_monotonically() {
    let mut store = KvStore::open(Vec::new()).unwrap();
    let mut seen = store.current_gen();
    for i in 1..200 {
        store.set(format!("k{}", i % 7), format!("value number {}", i)).unwrap();
        assert!(store.current_gen() >= seen);
        seen = store.current_gen();
    }
    let store = reopen(store);
    assert!(store.current_gen() > seen);
}

#[test]
fn compact_keeps_only_fresh_generations() {
    let mut store = KvStore::open(Vec::new()).unwrap();
    for i in 1..50 {
        store.set(format!("key{}", i), "value".to_string()).unwrap();
    }
    let before_gen = store.current_gen();
    store.compact().unwrap();
    assert_eq!(store.current_gen(), before_gen + 2);
    let files = store.files();
    assert_eq!(files.len(), 2);
    assert_eq!(files[0].gen, before_gen + 1);
    assert_eq!(files[1].gen, before_gen + 2);
    assert_eq!(store.uncompacted(), 0);
    for i in 1..50 {
        assert_eq!(store.get(format!("key{}", i)).unwrap(), Some("value".to_string()));
    }
}

#[test]
fn open_on_corrupt_log_fails() {
    let dir = vec![LogFile { gen: 1, data: vec![9, 9, 9] }];
    assert!(matches!(KvStore::open(dir), Err(KvsError::CorruptLog)));
}

#[test]
fn open_skips_nothing_and_replays_in_order() {
    let mut store = KvStore::open(Vec::new()).unwrap();
    store.set("a".to_string(), "1".to_string()).unwrap();
    let store = reopen(store);
    let mut store = reopen(store);
    store.set("b".to_string(), "2".to_string()).unwrap();
    let store = reopen(store);
    assert_eq!(store.get("a".to_string()).unwrap(), Some("1".to_string()));
    assert_eq!(store.get("b".to_string()).unwrap(), Some("2".to_string()));
    assert!(store.files().len() >= 3);
}

#[test]
fn unicode_keys_and_values_survive_restart() {
    let mut store = KvStore::open(Vec::new()).unwrap();
    store
        .set(
            "key\u{ff1a}with.log/delims".to_string(),
            "value:value\u{ff1a}value\u{ff1a}\u{0}".to_string(),
        )
        .unwrap();
    let store = reopen(store);
    assert_eq!(
        store.get("key\u{ff1a}with.log/delims".to_string()).unwrap(),
        Some("value:value\u{ff1a}value\u{ff1a}\u{0}".to_string())
    );
}
