//! The native engine, driven the way the shell drives it: slot-file
//! operations are applied to an in-memory set of numbered files, and reads
//! that miss the cache are completed through `get_loaded`.

use kvs::codec::decode_record;
use kvs::GetStep;
use kvs::KvStore;
use kvs::KvsError;
use kvs::Record;
use kvs::SlotOp;

/// The slot files of one root directory, file `i` at index `i`.
struct SimDisk {
    files: Vec<Option<String>>,
}

impl SimDisk {
    fn new() -> SimDisk {
        SimDisk { files: Vec::new() }
    }

    fn apply(&mut self, op: SlotOp) {
        match op {
            SlotOp::Write { slot, content } => {
                while self.files.len() <= slot {
                    self.files.push(None);
                }
                self.files[slot] = Some(content);
            }
            SlotOp::Rename { from, to } => {
                let v = self.files[from].take().expect("rename of a missing file");
                self.files[to] = Some(v);
            }
            SlotOp::Unlink { slot } => {
                assert!(self.files[slot].is_some(), "unlink of a missing file");
                self.files[slot] = None;
            }
        }
    }

    /// The contiguous run of files `0, 1, …`, as an open scan reads them.
    fn scan(&self) -> Vec<String> {
        let mut out = Vec::new();
        for f in &self.files {
            match f {
                Some(text) => out.push(text.clone()),
                None => break,
            }
        }
        out
    }

    /// How many files exist at all.
    fn count(&self) -> usize {
        self.files.iter().filter(|f| f.is_some()).count()
    }

    /// The decoded record in slot `i`.
    fn record(&self, i: usize) -> Record {
        decode_record(self.files[i].as_ref().expect("missing slot file")).expect("undecodable slot")
    }
}

fn sim_set(store: &mut KvStore, disk: &mut SimDisk, key: &str, value: &str) {
    let op = store.set(key.to_string(), value.to_string());
    disk.apply(op);
}

fn sim_remove(store: &mut KvStore, disk: &mut SimDisk, key: &str) -> Result<(), KvsError> {
    match store.remove(key) {
        Ok(op) => {
            disk.apply(op);
            Ok(())
        }
        Err(e) => Err(e),
    }
}

fn sim_get(store: &mut KvStore, disk: &SimDisk, key: &str) -> Option<String> {
    match store.get(key) {
        GetStep::Done(v) => v,
        GetStep::Load(slot) => {
            let text = disk.files[slot].as_ref().expect("missing slot file").clone();
            store.get_loaded(key, &text).expect("slot file must decode")
        }
    }
}

fn sim_open(disk: &mut SimDisk) -> KvStore {
    let (store, ops) = KvStore::open(disk.scan()).expect("recovery must succeed");
    for op in ops {
        disk.apply(op);
    }
    store
}

fn expect_put(r: &Record, key: &str, value: &str) {
    match r {
        Record::Put(k, v) => {
            assert_eq!(k, key);
            assert_eq!(v, value);
        }
        Record::Remove(_) => panic!("slot holds a remove record"),
    }
}

#[test]
fn set_then_get_writes_one_slot() {
    let mut disk = SimDisk::new();
    let mut store = sim_open(&mut disk);
    sim_set(&mut store, &mut disk, "a", "1");
    assert_eq!(sim_get(&mut store, &disk, "a"), Some("1".to_string()));
    assert_eq!(disk.count(), 1);
    expect_put(&disk.record(0), "a", "1");
}

#[test]
fn overwrite_keeps_two_slots() {
    let mut disk = SimDisk::new();
    let mut store = sim_open(&mut disk);
    sim_set(&mut store, &mut disk, "a", "1");
    sim_set(&mut store, &mut disk, "b", "2");
    sim_set(&mut store, &mut disk, "a", "3");
    assert_eq!(sim_get(&mut store, &disk, "a"), Some("3".to_string()));
    assert_eq!(sim_get(&mut store, &disk, "b"), Some("2".to_string()));
    assert_eq!(disk.count(), 2);
    expect_put(&disk.record(0), "a", "3");
    expect_put(&disk.record(1), "b", "2");
}

#[test]
fn remove_compacts_to_one_slot() {
    let mut disk = SimDisk::new();
    let mut store = sim_open(&mut disk);
    sim_set(&mut store, &mut disk, "a", "1");
    sim_set(&mut store, &mut disk, "b", "2");
    sim_set(&mut store, &mut disk, "a", "3");
    sim_remove(&mut store, &mut disk, "a").expect("a is bound");
    assert_eq!(sim_get(&mut store, &disk, "a"), None);
    assert_eq!(sim_get(&mut store, &disk, "b"), Some("2".to_string()));
    assert_eq!(disk.count(), 1);
    expect_put(&disk.record(0), "b", "2");
}

#[test]
fn remove_of_missing_key_is_not_found() {
    let mut disk = SimDisk::new();
    let mut store = sim_open(&mut disk);
    match sim_remove(&mut store, &mut disk, "missing") {
        Err(KvsError::NotFound { key }) => assert_eq!(key, "missing"),
        _ => panic!("expected NotFound"),
    }
    assert_eq!(disk.count(), 0);
}

#[test]
fn reopen_preserves_bindings() {
    let mut disk = SimDisk::new();
    let mut store = sim_open(&mut disk);
    sim_set(&mut store, &mut disk, "a", "1");
    sim_set(&mut store, &mut disk, "b", "2");
    sim_set(&mut store, &mut disk, "a", "3");
    drop(store);
    let mut reopened = sim_open(&mut disk);
    assert_eq!(sim_get(&mut reopened, &disk, "a"), Some("3".to_string()));
    assert_eq!(sim_get(&mut reopened, &disk, "b"), Some("2".to_string()));
    assert_eq!(disk.count(), 2);
}

#[test]
fn remove_of_highest_slot_unlinks() {
    let mut disk = SimDisk::new();
    let mut store = sim_open(&mut disk);
    sim_set(&mut store, &mut disk, "a", "1");
    sim_set(&mut store, &mut disk, "b", "2");
    sim_remove(&mut store, &mut disk, "b").expect("b is bound");
    assert_eq!(disk.count(), 1);
    expect_put(&disk.record(0), "a", "1");
    assert_eq!(sim_get(&mut store, &disk, "b"), None);
}

#[test]
fn removes_promote_the_last_slot() {
    let mut disk = SimDisk::new();
    let mut store = sim_open(&mut disk);
    sim_set(&mut store, &mut disk, "a", "1");
    sim_set(&mut store, &mut disk, "b", "2");
    sim_set(&mut store, &mut disk, "c", "3");
    sim_remove(&mut store, &mut disk, "a").expect("a is bound");
    // slot 0 was freed; the record of c moved down into it
    assert_eq!(disk.count(), 2);
    expect_put(&disk.record(0), "c", "3");
    expect_put(&disk.record(1), "b", "2");
    assert_eq!(sim_get(&mut store, &disk, "c"), Some("3".to_string()));
}

#[test]
fn many_keys_survive_reopen() {
    let mut disk = SimDisk::new();
    let mut store = sim_open(&mut disk);
    for i in 0..50usize {
        sim_set(&mut store, &mut disk, &format!("key{}", i), &format!("value{}", i));
    }
    for i in (0..50usize).step_by(2) {
        sim_remove(&mut store, &mut disk, &format!("key{}", i)).expect("bound");
    }
    assert_eq!(disk.count(), 25);
    drop(store);
    let mut reopened = sim_open(&mut disk);
    for i in 0..50usize {
        let want = if i % 2 == 0 { None } else { Some(format!("value{}", i)) };
        assert_eq!(sim_get(&mut reopened, &disk, &format!("key{}", i)), want);
    }
}

#[test]
fn recovery_replays_duplicates_and_removes() {
    // files written as a crash might leave them: a duplicate binding of a
    // and a remove record, followed by one more binding
    let files = vec![
        "S1 1 a1".to_string(),
        "S1 1 b2".to_string(),
        "S1 1 a3".to_string(),
        "R1 b".to_string(),
        "S1 1 c4".to_string(),
    ];
    let (mut store, ops) = KvStore::open(files.clone()).expect("recovery must succeed");
    let mut disk = SimDisk::new();
    for (i, f) in files.into_iter().enumerate() {
        disk.apply(SlotOp::Write { slot: i, content: f });
    }
    for op in ops {
        disk.apply(op);
    }
    // live keys: a -> 3, c -> 4; slots must be exactly {0, 1}
    assert_eq!(disk.count(), 2);
    assert!(disk.files[0].is_some() && disk.files[1].is_some());
    assert_eq!(sim_get(&mut store, &disk, "a"), Some("3".to_string()));
    assert_eq!(sim_get(&mut store, &disk, "b"), None);
    assert_eq!(sim_get(&mut store, &disk, "c"), Some("4".to_string()));
}

#[test]
fn recovery_ignores_remove_of_absent_key() {
    let files = vec!["R1 z".to_string(), "S1 1 a1".to_string()];
    let (mut store, ops) = KvStore::open(files.clone()).expect("recovery must succeed");
    let mut disk = SimDisk::new();
    for (i, f) in files.into_iter().enumerate() {
        disk.apply(SlotOp::Write { slot: i, content: f });
    }
    for op in ops {
        disk.apply(op);
    }
    assert_eq!(disk.count(), 1);
    expect_put(&disk.record(0), "a", "1");
    assert_eq!(sim_get(&mut store, &disk, "a"), Some("1".to_string()));
    assert_eq!(sim_get(&mut store, &disk, "z"), None);
}

#[test]
fn recovery_rejects_an_undecodable_file() {
    let files = vec!["S1 1 a1".to_string(), "garbage".to_string()];
    match KvStore::open(files) {
        Err(KvsError::Format) => {}
        _ => panic!("expected a Format error"),
    }
}

#[test]
fn loaded_remove_record_heals_by_unbinding() {
    // a slot file tampered into a remove record: the read self-heals by
    // unbinding the key
    let files = vec!["S1 1 a1".to_string()];
    let (mut store, _) = KvStore::open(files).expect("recovery must succeed");
    match store.get("a") {
        GetStep::Load(slot) => {
            assert_eq!(slot, 0);
            let healed = store.get_loaded("a", "R1 a").expect("a remove record is tolerated");
            assert_eq!(healed, None);
        }
        GetStep::Done(_) => panic!("a recovered value must start on disk"),
    }
    match store.get("a") {
        GetStep::Done(None) => {}
        _ => panic!("the key must be unbound after healing"),
    }
}

#[test]
fn loaded_garbage_is_a_format_error() {
    let files = vec!["S1 1 a1".to_string()];
    let (mut store, _) = KvStore::open(files).expect("recovery must succeed");
    match store.get("a") {
        GetStep::Load(_) => match store.get_loaded("a", "not a record") {
            Err(KvsError::Format) => {}
            _ => panic!("expected a Format error"),
        },
        GetStep::Done(_) => panic!("a recovered value must start on disk"),
    }
}

#[test]
fn slot_files_stay_contiguous_through_a_workload() {
    let mut disk = SimDisk::new();
    let mut store = sim_open(&mut disk);
    let script: Vec<(&str, &str)> = vec![
        ("set", "a"),
        ("set", "b"),
        ("set", "c"),
        ("rm", "b"),
        ("set", "d"),
        ("set", "a"),
        ("rm", "d"),
        ("rm", "a"),
        ("set", "e"),
    ];
    let mut live: Vec<String> = Vec::new();
    for (op, key) in script {
        match op {
            "set" => {
                sim_set(&mut store, &mut disk, key, "v");
                if !live.iter().any(|k| k == key) {
                    live.push(key.to_string());
                }
            }
            _ => {
                sim_remove(&mut store, &mut disk, key).expect("bound");
                live.retain(|k| k != key);
            }
        }
        // the slot files are exactly {0, …, N−1} for N live keys
        let n = live.len();
        for (i, f) in disk.files.iter().enumerate() {
            assert_eq!(f.is_some(), i < n, "file {} breaks contiguity", i);
        }
    }
}

#[test]
fn reopen_deletes_a_trailing_remove_record() {
    // the canonical files of a one-key store, plus a leftover remove record
    // of an unbound key just above them
    let files = vec!["S1 1 a1".to_string(), "R1 z".to_string()];
    let (mut store, ops) = KvStore::open(files.clone()).expect("recovery must succeed");
    let mut disk = SimDisk::new();
    for (i, f) in files.into_iter().enumerate() {
        disk.apply(SlotOp::Write { slot: i, content: f });
    }
    for op in ops {
        disk.apply(op);
    }
    assert_eq!(disk.count(), 1);
    assert!(disk.files[1].is_none(), "the straggler must be deleted");
    assert_eq!(sim_get(&mut store, &disk, "a"), Some("1".to_string()));
}

#[test]
fn prepared_operations_match_the_committed_ones() {
    let mut disk = SimDisk::new();
    let mut store = sim_open(&mut disk);
    // a new key, then an overwrite
    for (key, value) in [("a", "1"), ("b", "2"), ("a", "3")] {
        let planned = store.prepare_set(key, value);
        let committed = store.set(key.to_string(), value.to_string());
        assert_eq!(planned, committed);
        disk.apply(committed);
    }
    // an absent key fails the same way before and at the commit
    match store.prepare_remove("ghost") {
        Err(KvsError::NotFound { key }) => assert_eq!(key, "ghost"),
        _ => panic!("expected NotFound"),
    }
    // a bound key: the planned unlink or rename is the committed one
    let planned = store.prepare_remove("a").expect("a is bound");
    let committed = store.remove("a").expect("a is bound");
    assert_eq!(planned, committed);
    disk.apply(committed);
    assert_eq!(sim_get(&mut store, &disk, "a"), None);
    assert_eq!(sim_get(&mut store, &disk, "b"), Some("2".to_string()));
}

#[test]
fn caching_follows_the_write_through_policy() {
    let mut disk = SimDisk::new();
    let mut store = sim_open(&mut disk);
    // a fresh binding is cached write-through: no file read needed
    sim_set(&mut store, &mut disk, "a", "1");
    match store.get("a") {
        GetStep::Done(Some(v)) => assert_eq!(v, "1"),
        _ => panic!("a fresh binding must be cached"),
    }
    // an overwrite of a resident value refreshes the cache
    sim_set(&mut store, &mut disk, "a", "2");
    match store.get("a") {
        GetStep::Done(Some(v)) => assert_eq!(v, "2"),
        _ => panic!("a refreshed binding must stay cached"),
    }
    // a recovered binding starts on disk, and an overwrite leaves it
    // there: the next read goes back to the slot file
    drop(store);
    let mut reopened = sim_open(&mut disk);
    sim_set(&mut reopened, &mut disk, "a", "3");
    match reopened.get("a") {
        GetStep::Load(slot) => assert_eq!(slot, 0),
        GetStep::Done(_) => panic!("an overwrite of an uncached binding must leave it on disk"),
    }
    assert_eq!(sim_get(&mut reopened, &disk, "a"), Some("3".to_string()));
}
