use file_store::{compare_bytes, replay, AsyncStore, LogRecord, Order, ReplayLoader, Table};

fn put(k: &[u8], v: &[u8]) -> LogRecord {
    LogRecord { key: k.to_vec(), value: Some(v.to_vec()) }
}

fn tomb(k: &[u8]) -> LogRecord {
    LogRecord { key: k.to_vec(), value: None }
}

#[test]
fn compare_bytes_orders_lexicographically() {
    assert_eq!(compare_bytes(b"abc", b"abd"), Order::Less);
    assert_eq!(compare_bytes(b"ab", b"abc"), Order::Less);
    assert_eq!(compare_bytes(b"b", b"abc"), Order::Greater);
    assert_eq!(compare_bytes(b"", b""), Order::Equal);
    assert_eq!(compare_bytes(b"xyz", b"xyz"), Order::Equal);
}

#[test]
fn table_keeps_keys_sorted() {
    let mut t = Table::new();
    assert_eq!(t.insert(b"m".to_vec(), b"1".to_vec()), None);
    assert_eq!(t.insert(b"a".to_vec(), b"2".to_vec()), None);
    assert_eq!(t.insert(b"z".to_vec(), b"3".to_vec()), None);
    assert_eq!(t.insert(b"ma".to_vec(), b"4".to_vec()), None);
    assert_eq!(t.insert(b"m".to_vec(), b"5".to_vec()), Some(b"1".to_vec()));
    assert_eq!(t.keys(), vec![b"a".to_vec(), b"m".to_vec(), b"ma".to_vec(), b"z".to_vec()]);
    assert_eq!(t.values(), vec![b"2".to_vec(), b"5".to_vec(), b"4".to_vec(), b"3".to_vec()]);
    assert_eq!(t.remove(b"ma"), Some(b"4".to_vec()));
    assert_eq!(t.remove(b"ma"), None);
    assert_eq!(t.len(), 3);
}

#[test]
fn write_read_remove() {
    let mut s = AsyncStore::open(&Vec::new());
    assert_eq!(s.len(), 0);
    let ok: Result<(), String> = Ok(());
    assert_eq!(s.write(b"k".to_vec(), b"v".to_vec(), ok.clone()), Ok(None));
    assert_eq!(s.read(b"k"), Some(b"v".to_vec()));
    assert_eq!(s.write(b"k".to_vec(), b"v2".to_vec(), ok.clone()), Ok(Some(b"v".to_vec())));
    assert_eq!(s.read(b"k"), Some(b"v2".to_vec()));
    assert_eq!(s.remove(b"k", ok.clone()), Ok(Some(b"v2".to_vec())));
    assert_eq!(s.read(b"k"), None);
    assert_eq!(s.remove(b"k", ok), Ok(None));
    assert_eq!(s.len(), 0);
}

#[test]
fn failed_commit_leaves_table_untouched() {
    let mut s = AsyncStore::open(&vec![put(b"k", b"v")]);
    let failed: Result<(), String> = Err("commit failed".to_string());
    assert_eq!(
        s.write(b"k".to_vec(), b"other".to_vec(), failed.clone()),
        Err("commit failed".to_string())
    );
    assert_eq!(s.remove(b"k", failed), Err("commit failed".to_string()));
    assert_eq!(s.read(b"k"), Some(b"v".to_vec()));
    assert_eq!(s.len(), 1);
}

#[test]
fn reopen_replays_log() {
    // Appended: put k1, put k2, remove k1. Replayed newest first.
    let log = vec![tomb(b"k1"), put(b"k2", b"v2"), put(b"k1", b"v1")];
    let s = AsyncStore::open(&log);
    assert_eq!(s.keys(), vec![b"k2".to_vec()]);
    assert_eq!(s.values(), vec![b"v2".to_vec()]);
    assert_eq!(s.read(b"k2"), Some(b"v2".to_vec()));
    assert_eq!(s.read(b"k1"), None);
}

#[test]
fn tombstone_newest_wins_over_older_put() {
    let t = replay(&vec![tomb(b"k"), put(b"k", b"old"), put(b"j", b"x")]);
    assert_eq!(t.keys(), vec![b"j".to_vec()]);
    let t = replay(&vec![put(b"k", b"new"), tomb(b"k"), put(b"k", b"old")]);
    assert_eq!(t.get(b"k"), Some(b"new".to_vec()));
}

#[test]
fn loader_settles_each_key_once() {
    let mut l = ReplayLoader::new();
    assert!(l.is_required(b"a"));
    l.load(b"a".to_vec(), None);
    assert!(!l.is_required(b"a"));
    l.load(b"a".to_vec(), Some(b"stale".to_vec()));
    assert!(l.is_required(b"b"));
    l.load(b"b".to_vec(), Some(b"1".to_vec()));
    assert!(!l.is_required(b"b"));
    l.load(b"b".to_vec(), Some(b"0".to_vec()));
    let s = AsyncStore::from_loader(l);
    assert_eq!(s.keys(), vec![b"b".to_vec()]);
    assert_eq!(s.read(b"b"), Some(b"1".to_vec()));
}
