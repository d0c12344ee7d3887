//! Engine equivalence: for scenarios that do not look at the slot-file
//! layout, the native engine and the sled-backed alternative must give the
//! same client-visible answers.

use kvs::GetStep;
use kvs::KvStore;
use kvs::KvsError;
use kvs::SlotOp;

/// The native engine over in-memory slot files.
struct Native {
    store: KvStore,
    files: Vec<Option<String>>,
}

impl Native {
    fn new() -> Native {
        let (store, _) = KvStore::open(Vec::new()).expect("an empty root recovers");
        Native { store, files: Vec::new() }
    }

    fn apply(&mut self, op: SlotOp) {
        match op {
            SlotOp::Write { slot, content } => {
                while self.files.len() <= slot {
                    self.files.push(None);
                }
                self.files[slot] = Some(content);
            }
            SlotOp::Rename { from, to } => {
                let v = self.files[from].take().expect("rename of a missing file");
                self.files[to] = Some(v);
            }
            SlotOp::Unlink { slot } => {
                self.files[slot] = None;
            }
        }
    }

    fn get(&mut self, key: &str) -> Option<String> {
        match self.store.get(key) {
            GetStep::Done(v) => v,
            GetStep::Load(slot) => {
                let text = self.files[slot].as_ref().expect("missing slot file").clone();
                self.store.get_loaded(key, &text).expect("slot file must decode")
            }
        }
    }

    fn set(&mut self, key: &str, value: &str) {
        let op = self.store.set(key.to_string(), value.to_string());
        self.apply(op);
    }

    fn remove(&mut self, key: &str) -> bool {
        match self.store.remove(key) {
            Ok(op) => {
                self.apply(op);
                true
            }
            Err(KvsError::NotFound { .. }) => false,
            Err(_) => panic!("unexpected remove failure"),
        }
    }
}

/// The alternative engine, as the shell wraps it: the embedded sled store,
/// flushed after every mutation.
struct Alternative {
    db: sled::Db,
}

impl Alternative {
    fn new() -> Alternative {
        let db = sled::Config::new()
            .temporary(true)
            .open()
            .expect("a temporary sled store opens");
        Alternative { db }
    }

    fn get(&mut self, key: &str) -> Option<String> {
        self.db
            .get(key.as_bytes())
            .expect("sled get succeeds")
            .map(|v| String::from_utf8(v.as_ref().to_vec()).expect("values are text"))
    }

    fn set(&mut self, key: &str, value: &str) {
        self.db.insert(key.as_bytes(), value.as_bytes()).expect("sled insert succeeds");
        self.db.flush().expect("sled flush succeeds");
    }

    fn remove(&mut self, key: &str) -> bool {
        let removed = self.db.remove(key.as_bytes()).expect("sled remove succeeds").is_some();
        if removed {
            self.db.flush().expect("sled flush succeeds");
        }
        removed
    }
}

#[test]
fn both_engines_agree_on_a_mixed_run() {
    let mut native = Native::new();
    let mut alt = Alternative::new();
    let script: Vec<(&str, &str, &str)> = vec![
        ("set", "a", "1"),
        ("get", "a", ""),
        ("set", "b", "2"),
        ("set", "a", "3"),
        ("get", "a", ""),
        ("get", "b", ""),
        ("rm", "a", ""),
        ("get", "a", ""),
        ("rm", "a", ""),
        ("rm", "missing", ""),
        ("set", "c", "4"),
        ("get", "c", ""),
        ("rm", "b", ""),
        ("get", "b", ""),
        ("get", "c", ""),
    ];
    for (op, key, value) in script {
        match op {
            "set" => {
                native.set(key, value);
                alt.set(key, value);
            }
            "get" => {
                assert_eq!(native.get(key), alt.get(key), "get {:?} diverged", key);
            }
            "rm" => {
                assert_eq!(native.remove(key), alt.remove(key), "rm {:?} diverged", key);
            }
            _ => unreachable!(),
        }
    }
}
