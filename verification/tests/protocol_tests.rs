//! The client and server halves joined by an in-memory wire: every exchange
//! is one request text handed to the server, whose reply text goes back to
//! the client's reply readers.

use kvs::codec::decode_record;
use kvs::engine::check_archive_tag;
use kvs::engine::engine_tag;
use kvs::engine::parse_engine_name;
use kvs::engine::reconcile_archive_tag;
use kvs::engine::remove_outcome;
use kvs::ArchiveCheck;
use kvs::EngineKind;
use kvs::GetStep;
use kvs::KvStore;
use kvs::KvsClient;
use kvs::KvsEngine;
use kvs::KvsError;
use kvs::KvsServer;
use kvs::SlotOp;

/// The native engine joined to an in-memory set of slot files, exactly as
/// the shell joins it to a root directory.
struct SimEngine {
    store: KvStore,
    files: Vec<Option<String>>,
}

impl SimEngine {
    fn new() -> SimEngine {
        let (store, _) = KvStore::open(Vec::new()).expect("an empty root recovers");
        SimEngine { store, files: Vec::new() }
    }

    fn apply(&mut self, op: SlotOp) {
        match op {
            SlotOp::Write { slot, content } => {
                while self.files.len() <= slot {
                    self.files.push(None);
                }
                self.files[slot] = Some(content);
            }
            SlotOp::Rename { from, to } => {
                let v = self.files[from].take().expect("rename of a missing file");
                self.files[to] = Some(v);
            }
            SlotOp::Unlink { slot } => {
                self.files[slot] = None;
            }
        }
    }
}

impl KvsEngine for SimEngine {
    fn get(&mut self, key: &str) -> Result<Option<String>, KvsError> {
        match self.store.get(key) {
            GetStep::Done(v) => Ok(v),
            GetStep::Load(slot) => {
                let text = self.files[slot].as_ref().expect("missing slot file").clone();
                self.store.get_loaded(key, &text)
            }
        }
    }

    fn set(&mut self, key: String, value: String) -> Result<(), KvsError> {
        let op = self.store.set(key, value);
        self.apply(op);
        Ok(())
    }

    fn remove(&mut self, key: &str) -> Result<(), KvsError> {
        let op = self.store.remove(key)?;
        self.apply(op);
        Ok(())
    }
}

#[test]
fn set_get_and_remove_over_the_wire() {
    let mut server = KvsServer::new(SimEngine::new());
    let client = KvsClient::connect("127.0.0.1:4000".to_string()).expect("connect never fails");
    assert_eq!(client.address(), "127.0.0.1:4000");

    let reply = server.serve(&client.set("foo".to_string(), "bar".to_string())).unwrap();
    KvsClient::read_set_reply(&reply).expect("set succeeds");

    let reply = server.serve(&client.get("foo")).unwrap();
    assert_eq!(KvsClient::read_get_reply(&reply).expect("get succeeds"), Some("bar".to_string()));

    let reply = server.serve(&client.remove("foo")).unwrap();
    KvsClient::read_remove_reply(&reply).expect("first remove succeeds");

    // the second remove round-trips as a remote error carrying the
    // not-found text, which the shell recognizes to exit nonzero
    let reply = server.serve(&client.remove("foo")).unwrap();
    match KvsClient::read_remove_reply(&reply) {
        Err(KvsError::Remote { message }) => assert_eq!(message, "Key not found: foo"),
        _ => panic!("expected a remote not-found error"),
    }

    let reply = server.serve(&client.get("foo")).unwrap();
    assert_eq!(KvsClient::read_get_reply(&reply).expect("get succeeds"), None);
}

#[test]
fn server_refuses_garbage_requests() {
    let mut server = KvsServer::new(SimEngine::new());
    match server.serve("not a request") {
        Err(KvsError::Format) => {}
        _ => panic!("expected a Format error"),
    }
}

#[test]
fn keys_and_values_with_spaces_round_trip() {
    let mut server = KvsServer::new(SimEngine::new());
    let client = KvsClient::connect("addr".to_string()).expect("connect never fails");
    let key = "a key with spaces";
    let value = "1 2  3";
    let reply = server.serve(&client.set(key.to_string(), value.to_string())).unwrap();
    KvsClient::read_set_reply(&reply).expect("set succeeds");
    let reply = server.serve(&client.get(key)).unwrap();
    assert_eq!(KvsClient::read_get_reply(&reply).unwrap(), Some(value.to_string()));
}

#[test]
fn wire_messages_have_the_documented_shape() {
    let client = KvsClient::connect("addr".to_string()).expect("connect never fails");
    assert_eq!(client.get("foo"), "G3 foo");
    assert_eq!(client.set("foo".to_string(), "bar".to_string()), "S3 3 foobar");
    assert_eq!(client.remove("foo"), "R3 foo");
}

#[test]
fn engine_names_parse_exactly() {
    assert_eq!(parse_engine_name("kvs"), Some(EngineKind::Kvs));
    assert_eq!(parse_engine_name("sled"), Some(EngineKind::Sled));
    assert_eq!(parse_engine_name("leveldb"), None);
    assert_eq!(parse_engine_name(""), None);
    assert_eq!(parse_engine_name("kvs "), None);
}

#[test]
fn archive_tags_are_reconciled() {
    assert_eq!(engine_tag(EngineKind::Kvs), "kvs");
    assert_eq!(engine_tag(EngineKind::Sled), "sled");
    assert_eq!(check_archive_tag(Some("kvs"), "kvs"), ArchiveCheck::Matched);
    assert_eq!(check_archive_tag(Some("sled"), "kvs"), ArchiveCheck::Mismatch);
    assert_eq!(check_archive_tag(Some("kvs"), "sled"), ArchiveCheck::Mismatch);
    assert_eq!(check_archive_tag(None, "kvs"), ArchiveCheck::Missing);
}

#[test]
fn error_messages_render_exactly() {
    let e = KvsError::NotFound { key: "foo".to_string() };
    assert_eq!(e.message(), "Key not found: foo");
    assert_eq!(KvsError::Format.message(), "malformed record");
    let e = KvsError::BadArchive {
        path: "/tmp/db".to_string(),
        should: "sled".to_string(),
        tried: "kvs".to_string(),
    };
    assert_eq!(e.message(), "directory /tmp/db belongs to engine sled, not kvs");
}

#[test]
fn a_failed_engine_reply_carries_the_message() {
    let mut server = KvsServer::new(SimEngine::new());
    let client = KvsClient::connect("addr".to_string()).expect("connect never fails");
    let reply = server.serve(&client.remove("ghost")).unwrap();
    // the reply is itself a well-formed message
    assert_eq!(reply, "F20 Key not found: ghost");
    match KvsClient::read_remove_reply(&reply) {
        Err(KvsError::Remote { message }) => assert_eq!(message, "Key not found: ghost"),
        _ => panic!("expected a remote error"),
    }
}

#[test]
fn slot_files_after_wire_mutations_decode() {
    let mut server_engine = SimEngine::new();
    server_engine.set("a".to_string(), "1".to_string()).unwrap();
    server_engine.set("b".to_string(), "2".to_string()).unwrap();
    server_engine.remove("a").unwrap();
    assert_eq!(server_engine.files.iter().filter(|f| f.is_some()).count(), 1);
    let text = server_engine.files[0].as_ref().unwrap();
    assert!(decode_record(text).is_some());
}

#[test]
fn clients_refuse_garbage_replies() {
    match KvsClient::read_get_reply("not a reply") {
        Err(KvsError::Format) => {}
        _ => panic!("expected a Format error"),
    }
    match KvsClient::read_set_reply("") {
        Err(KvsError::Format) => {}
        _ => panic!("expected a Format error"),
    }
    match KvsClient::read_remove_reply("V3 bar trailing") {
        Err(KvsError::Format) => {}
        _ => panic!("expected a Format error"),
    }
}

#[test]
fn tag_reconciliation_owns_the_bad_archive_error() {
    // matching tag: proceed with nothing to write
    assert_eq!(
        reconcile_archive_tag("/data/db", Some("kvs".to_string()), EngineKind::Kvs).unwrap(),
        None
    );
    // fresh directory: the engine's own tag is to be written
    assert_eq!(
        reconcile_archive_tag("/data/db", None, EngineKind::Sled).unwrap(),
        Some("sled")
    );
    // another engine's tag: the exact failure, before anything is read
    match reconcile_archive_tag("/data/db", Some("sled".to_string()), EngineKind::Kvs) {
        Err(KvsError::BadArchive { path, should, tried }) => {
            assert_eq!(path, "/data/db");
            assert_eq!(should, "sled");
            assert_eq!(tried, "kvs");
        }
        _ => panic!("expected BadArchive"),
    }
}

#[test]
fn remove_outcomes_match_the_interface_contract() {
    assert!(remove_outcome(true, "k").is_ok());
    match remove_outcome(false, "k") {
        Err(KvsError::NotFound { key }) => assert_eq!(key, "k"),
        _ => panic!("expected NotFound"),
    }
}
