use kvs::codec::{encode, Actions};
use kvs::engine::{value_from_record, KvCore, COMPACTION_THRESHOLD};
use kvs::error::TError;
use kvs::index::{Index, RecordPos};
use kvs::naming::log_generations;
use std::collections::BTreeMap;

/// A store whose log files live in memory, driven the way the program drives files.
struct MemStore {
    core: KvCore,
    files: BTreeMap<u64, Vec<u8>>,
    compactions: usize,
}

fn ok<T>(r: Result<T, TError>) -> T {
    match r {
        Ok(v) => v,
        Err(e) => panic!("{}", e.message()),
    }
}

impl MemStore {
    fn open(mut files: BTreeMap<u64, Vec<u8>>) -> Result<MemStore, TError> {
        let names: Vec<String> = files.keys().map(|g| format!("{}.log", g)).collect();
        let mut core = KvCore::new();
        for gen in log_generations(&names) {
            assert!(gen >= core.cur_log());
            core.load(gen, &files[&gen])?;
        }
        core.start_writing();
        files.entry(core.cur_log()).or_default();
        Ok(MemStore { core, files, compactions: 0 })
    }

    fn close(self) -> BTreeMap<u64, Vec<u8>> {
        self.files
    }

    fn set(&mut self, key: &str, value: &str) -> Result<(), TError> {
        let (key, value) = (key.to_string(), value.to_string());
        let bytes = self.core.prepare_set(&key, &value)?;
        self.files.get_mut(&self.core.cur_log()).unwrap().extend(bytes);
        if self.core.commit_set(key, &value) {
            self.compact()?;
        }
        Ok(())
    }

    fn get(&self, key: &str) -> Result<Option<String>, TError> {
        match self.core.lookup(&key.to_string()) {
            None => Ok(None),
            Some(p) => {
                let file = &self.files[&p.gen];
                value_from_record(&file[p.pos as usize..(p.pos + p.len) as usize]).map(Some)
            }
        }
    }

    fn remove(&mut self, key: &str) -> Result<(), TError> {
        let key = key.to_string();
        let bytes = self.core.prepare_remove(&key)?;
        self.files.get_mut(&self.core.cur_log()).unwrap().extend(bytes);
        self.core.commit_remove(&key);
        Ok(())
    }

    fn compact(&mut self) -> Result<(), TError> {
        let plan = self.core.compact()?;
        self.files.insert(plan.active_gen, Vec::new());
        let mut out = Vec::new();
        for p in &plan.copies {
            let file = &self.files[&p.gen];
            out.extend_from_slice(&file[p.pos as usize..(p.pos + p.len) as usize]);
        }
        self.files.insert(plan.compaction_gen, out);
        self.files.retain(|g, _| *g >= plan.compaction_gen);
        self.compactions += 1;
        Ok(())
    }

    fn total_size(&self) -> usize {
        self.files.values().map(|f| f.len()).sum()
    }
}

fn fresh() -> MemStore {
    ok(MemStore::open(BTreeMap::new()))
}

#[test]
fn set_and_get() {
    let mut s = fresh();
    ok(s.set("k1", "v1"));
    assert_eq!(ok(s.get("k1")), Some("v1".to_string()));
}

#[test]
fn overwrite() {
    let mut s = fresh();
    ok(s.set("k", "a"));
    ok(s.set("k", "b"));
    assert_eq!(ok(s.get("k")), Some("b".to_string()));
}

#[test]
fn remove_then_get_and_remove_again() {
    let mut s = fresh();
    ok(s.set("k", "v"));
    ok(s.remove("k"));
    assert_eq!(ok(s.get("k")), None);
    assert!(matches!(s.remove("k"), Err(TError::NonExistentKey)));
}

#[test]
fn remove_absent_key_leaves_store_unchanged() {
    let mut s = fresh();
    ok(s.set("a", "1"));
    let before = s.files.clone();
    assert!(matches!(s.remove("missing"), Err(TError::NonExistentKey)));
    assert_eq!(s.files, before);
    assert_eq!(ok(s.get("a")), Some("1".to_string()));
    assert_eq!(ok(s.get("missing")), None);
}

#[test]
fn persistence_across_reopen() {
    let mut s = fresh();
    ok(s.set("a", "1"));
    ok(s.set("b", "2"));
    let files = s.close();
    let s = ok(MemStore::open(files));
    assert_eq!(ok(s.get("a")), Some("1".to_string()));
    assert_eq!(ok(s.get("b")), Some("2".to_string()));
}

#[test]
fn reopen_agrees_after_mixed_operations() {
    let mut s = fresh();
    for i in 0..50 {
        ok(s.set(&format!("k{}", i % 7), &format!("v{}", i)));
        if i % 5 == 0 {
            let _ = s.remove(&format!("k{}", (i + 3) % 7));
        }
    }
    let keys: Vec<String> = (0..8).map(|i| format!("k{}", i)).collect();
    let before: Vec<Option<String>> = keys.iter().map(|k| ok(s.get(k))).collect();
    let s = ok(MemStore::open(s.close()));
    let after: Vec<Option<String>> = keys.iter().map(|k| ok(s.get(k))).collect();
    assert_eq!(before, after);
}

#[test]
fn reopen_starts_a_new_generation() {
    let mut s = fresh();
    assert_eq!(s.core.cur_log(), 1);
    ok(s.set("a", "1"));
    let s = ok(MemStore::open(s.close()));
    assert_eq!(s.core.cur_log(), 2);
}

#[test]
fn compaction_trigger() {
    let mut s = fresh();
    let mut last = String::new();
    let mut written = 0usize;
    for i in 0..2000 {
        let c = (b'a' + (i % 26) as u8) as char;
        last = std::iter::repeat(c).take(1024).collect();
        ok(s.set("k", &last));
        written += 1024;
    }
    assert!(s.compactions > 0);
    assert!(s.files.len() <= 2);
    let record = 17 + 1 + 1024;
    assert!(s.total_size() < written);
    assert!(s.total_size() <= COMPACTION_THRESHOLD as usize + 3 * record);
    assert_eq!(ok(s.get("k")), Some(last));
}

#[test]
fn compaction_preserves_gets_and_bounds_size() {
    let mut s = fresh();
    ok(s.set("a", "1"));
    ok(s.set("b", "2"));
    ok(s.set("a", "3"));
    ok(s.set("c", "4"));
    ok(s.remove("b"));
    let keys = ["a", "b", "c", "d"];
    let before: Vec<Option<String>> = keys.iter().map(|k| ok(s.get(k))).collect();
    ok(s.compact());
    let after: Vec<Option<String>> = keys.iter().map(|k| ok(s.get(k))).collect();
    assert_eq!(before, after);
    let live = encode(&Actions::set("a".to_string(), "3".to_string())).len()
        + encode(&Actions::set("c".to_string(), "4".to_string())).len();
    assert_eq!(s.total_size(), live);
    assert_eq!(s.core.uncompacted(), 0);
    let gens: Vec<u64> = s.files.keys().cloned().collect();
    assert_eq!(gens, vec![2, 3]);
    assert_eq!(s.core.cur_log(), 3);
    let s = ok(MemStore::open(s.close()));
    let reopened: Vec<Option<String>> = keys.iter().map(|k| ok(s.get(k))).collect();
    assert_eq!(before, reopened);
}

#[test]
fn recovery_after_crash_mid_compaction() {
    let mut old = Vec::new();
    old.extend(encode(&Actions::set("a".to_string(), "1".to_string())));
    old.extend(encode(&Actions::set("b".to_string(), "2".to_string())));
    old.extend(encode(&Actions::set("c".to_string(), "3".to_string())));
    let mut partial = encode(&Actions::set("a".to_string(), "1".to_string()));
    let second = encode(&Actions::set("b".to_string(), "2".to_string()));
    partial.extend_from_slice(&second[..second.len() / 2]);
    let mut files = BTreeMap::new();
    files.insert(5u64, old);
    files.insert(7u64, partial);
    let s = ok(MemStore::open(files));
    assert_eq!(ok(s.get("a")), Some("1".to_string()));
    assert_eq!(ok(s.get("b")), Some("2".to_string()));
    assert_eq!(ok(s.get("c")), Some("3".to_string()));
    assert_eq!(s.core.cur_log(), 8);
}

#[test]
fn load_counts_stale_bytes() {
    let put_a = encode(&Actions::set("a".to_string(), "1".to_string()));
    let put_a2 = encode(&Actions::set("a".to_string(), "22".to_string()));
    let rm_a = encode(&Actions::rm("a".to_string()));
    let mut log = Vec::new();
    log.extend(put_a.clone());
    log.extend(put_a2.clone());
    log.extend(rm_a.clone());
    let mut files = BTreeMap::new();
    files.insert(1u64, log);
    let s = ok(MemStore::open(files));
    assert_eq!(s.core.uncompacted() as usize, put_a.len() + put_a2.len() + rm_a.len());
    assert_eq!(ok(s.get("a")), None);
}

#[test]
fn load_rejects_get_record() {
    let mut files = BTreeMap::new();
    files.insert(1u64, encode(&Actions::get("a".to_string())));
    assert!(matches!(MemStore::open(files), Err(TError::FaultyCommandInLog)));
}

#[test]
fn load_rejects_unknown_tag() {
    let mut files = BTreeMap::new();
    files.insert(1u64, vec![9u8, 0, 0]);
    assert!(matches!(MemStore::open(files), Err(TError::FaultyCommandInLog)));
}

#[test]
fn value_from_record_errors() {
    let rm = encode(&Actions::rm("a".to_string()));
    assert!(matches!(value_from_record(&rm), Err(TError::FaultyCommandInLog)));
    let mut put = encode(&Actions::set("a".to_string(), "b".to_string()));
    assert_eq!(ok(value_from_record(&put)), "b");
    put.push(0);
    assert!(matches!(value_from_record(&put), Err(TError::Codec)));
    assert!(matches!(value_from_record(&[]), Err(TError::Codec)));
    assert!(matches!(value_from_record(&[5u8]), Err(TError::FaultyCommandInLog)));
}

#[test]
fn set_reports_when_compaction_is_due() {
    let mut core = KvCore::new();
    core.start_writing();
    let big = "x".repeat(600 * 1024);
    let key = "k".to_string();
    assert!(!core.commit_set(key.clone(), &big));
    assert!(!core.commit_set(key.clone(), &big));
    assert!(core.commit_set(key.clone(), &big));
    assert!(core.uncompacted() > COMPACTION_THRESHOLD);
    assert_eq!(core.writer_pos() as usize, 3 * (17 + 1 + big.len()));
}

#[test]
fn index_insert_get_remove() {
    let mut idx = Index::new();
    let p = RecordPos { gen: 1, pos: 0, len: 10 };
    let q = RecordPos { gen: 2, pos: 5, len: 3 };
    assert!(idx.insert("a".to_string(), p).is_none());
    assert!(idx.insert("b".to_string(), q).is_none());
    assert!(idx.insert("a".to_string(), q) == Some(p));
    assert!(idx.get(&"a".to_string()) == Some(q));
    assert!(idx.contains_key(&"b".to_string()));
    assert_eq!(idx.len(), 2);
    assert!(idx.remove(&"a".to_string()) == Some(q));
    assert!(idx.remove(&"a".to_string()).is_none());
    assert!(idx.get(&"a".to_string()).is_none());
    assert!(idx.pos_at(0) == q);
}

#[test]
fn error_messages() {
    assert_eq!(TError::NonExistentKey.message(), "Key not found");
    assert_eq!(TError::FaultyCommandInLog.message(), "Error reading log file");
}

#[test]
fn index_iterates_in_key_order() {
    let mut idx = Index::new();
    let names = ["pear", "apple", "fig", "applesauce", "Zebra"];
    for (n, name) in names.iter().enumerate() {
        let p = RecordPos { gen: 1, pos: n as u64, len: 1 };
        assert!(idx.insert(name.to_string(), p).is_none());
    }
    let order: Vec<u64> = (0..idx.len()).map(|i| idx.pos_at(i).pos).collect();
    // Zebra, apple, applesauce, fig, pear
    assert_eq!(order, vec![4, 1, 3, 2, 0]);
    assert!(idx.remove(&"fig".to_string()).is_some());
    let order: Vec<u64> = (0..idx.len()).map(|i| idx.pos_at(i).pos).collect();
    assert_eq!(order, vec![4, 1, 3, 0]);
}

#[test]
fn compaction_copies_in_key_order() {
    let mut s = fresh();
    ok(s.set("b", "2"));
    ok(s.set("a", "1"));
    ok(s.compact());
    let mut expected = encode(&Actions::set("a".to_string(), "1".to_string()));
    expected.extend(encode(&Actions::set("b".to_string(), "2".to_string())));
    assert_eq!(s.files[&2], expected);
}

#[test]
fn load_rejects_invalid_text() {
    let mut log = encode(&Actions::set("a".to_string(), "1".to_string()));
    log.extend(vec![2u8, 1, 0, 0, 0, 0, 0, 0, 0, 0xfe]);
    let mut files = BTreeMap::new();
    files.insert(3u64, log);
    assert!(matches!(MemStore::open(files), Err(TError::Codec)));
}
