//! The native log-structured engine.
//!
//! A store holds a directory (live key to slot), a log-entry array (one entry
//! per slot: the key, and the value when cached), and the slot count.  The
//! slot files themselves live under a root directory owned by the shell; the
//! store tracks their exact contents in a ghost disk model, and every
//! mutation returns the slot-file operation that the shell must perform to
//! keep the real files equal to the model.  The in-use slots always form the
//! contiguous range `[0, N)` where `N` is the number of live keys.
//!
//! A `get` that finds its value cached answers at once; one that finds it on
//! disk asks the shell to read the slot file and hand the text back to
//! `get_loaded`, which caches the value.

use vstd::prelude::*;

use crate::codec::decode_record;
use crate::codec::encode_record;
use crate::codec::lemma_decode_encode_record;
use crate::codec::lemma_decode_record_sound;
use crate::codec::spec_decode_record;
use crate::codec::spec_encode_record;
use crate::codec::Record;
use crate::codec::RecordModel;
use crate::error::KvsError;
use crate::text::str_eq;

verus! {

/// Whether a slot's value string is resident in memory.
pub enum ValueState {
    /// The value has not been materialized since the store was opened.
    OnDisk,
    /// The value string is resident.
    Cached(String),
}

/// One in-memory log entry: the key stored in a slot, and the value when it
/// has been materialized.
pub struct LogEntry {
    pub key: String,
    pub state: ValueState,
}

/// One directory binding: a live key and the slot holding its record.
pub struct DirEntry {
    pub key: String,
    pub slot: usize,
}

/// One operation on the slot files under the store's root directory:
/// `Write` creates or truncates the decimal-named slot file, `Rename`
/// moves one slot file over another, `Unlink` deletes one.  For a mutation
/// the shell performs the operation that `prepare_set` or `prepare_remove`
/// names and commits the binding with `set` or `remove` once it succeeded;
/// the operations `open` returns are performed in order right after it.
#[derive(Debug, PartialEq, Eq)]
pub enum SlotOp {
    Write { slot: usize, content: String },
    Rename { from: usize, to: usize },
    Unlink { slot: usize },
}

/// What one slot-file operation does to the on-disk state.
pub open spec fn spec_apply_op(disk: Map<int, Seq<char>>, op: SlotOp) -> Map<int, Seq<char>> {
    match op {
        SlotOp::Write { slot, content } => disk.insert(slot as int, content@),
        SlotOp::Rename { from, to } => {
            if disk.dom().contains(from as int) {
                disk.remove(from as int).insert(to as int, disk[from as int])
            } else {
                disk
            }
        },
        SlotOp::Unlink { slot } => disk.remove(slot as int),
    }
}

/// What a sequence of slot-file operations, performed in order, does.
pub open spec fn spec_apply_ops(disk: Map<int, Seq<char>>, ops: Seq<SlotOp>) -> Map<
    int,
    Seq<char>,
>
    decreases ops.len(),
{
    if ops.len() == 0 {
        disk
    } else {
        spec_apply_op(spec_apply_ops(disk, ops.drop_last()), ops.last())
    }
}

/// The encoded `Put` record binding `key` to `value`.
pub open spec fn spec_put_record(key: Seq<char>, value: Seq<char>) -> Seq<char> {
    spec_encode_record(RecordModel::Put { key: key, value: value })
}

/// The native log-structured storage engine: directory, log-entry array,
/// slot count, and the ghost model of the slot files.
pub struct KvStore {
    dir: Vec<DirEntry>,
    logs: Vec<LogEntry>,
    seek: usize,
    disk: Ghost<Map<int, Seq<char>>>,
}

impl View for KvStore {
    type V = Map<Seq<char>, Seq<char>>;

    /// The live bindings: each live key, mapped to its current value.
    closed spec fn view(&self) -> Map<Seq<char>, Seq<char>> {
        Map::new(
            |k: Seq<char>| self.has_key(k),
            |k: Seq<char>| self.entry_value(self.slot_of_key(k)),
        )
    }
}

impl KvStore {
    /// The directory, as a sequence of bindings.
    pub closed spec fn dir_view(self) -> Seq<DirEntry> {
        self.dir@
    }

    /// The log-entry array.
    pub closed spec fn logs_view(self) -> Seq<LogEntry> {
        self.logs@
    }

    /// The model of the slot files: each in-use slot, mapped to the exact
    /// text of its file.
    pub closed spec fn disk_model(self) -> Map<int, Seq<char>> {
        self.disk@
    }

    /// The number of in-use slots.
    pub closed spec fn slot_count(self) -> int {
        self.logs@.len() as int
    }

    /// Whether some slot holds `k`.
    pub closed spec fn has_key(self, k: Seq<char>) -> bool {
        exists|i: int| 0 <= i < self.logs@.len() && self.logs@[i].key@ == k
    }

    /// The slot holding `k`; meaningful when `has_key(k)`.
    pub closed spec fn slot_of_key(self, k: Seq<char>) -> int {
        choose|i: int| 0 <= i < self.logs@.len() && self.logs@[i].key@ == k
    }

    /// Whether slot `i`'s file holds a `Put` record for slot `i`'s key.
    pub closed spec fn slot_record_ok(self, i: int) -> bool {
        exists|v: Seq<char>| self.disk@[i] == spec_put_record(self.logs@[i].key@, v)
    }

    /// The value in slot `i`'s file; meaningful when `slot_record_ok(i)`.
    pub closed spec fn slot_value(self, i: int) -> Seq<char> {
        choose|v: Seq<char>| self.disk@[i] == spec_put_record(self.logs@[i].key@, v)
    }

    /// The current value of slot `i`: the cached string if resident, else
    /// the value in the slot's file.
    pub closed spec fn entry_value(self, i: int) -> Seq<char> {
        match self.logs@[i].state {
            ValueState::Cached(v) => v@,
            ValueState::OnDisk => self.slot_value(i),
        }
    }

    /// Whether a cached value agrees with the slot's file.
    pub closed spec fn slot_cache_ok(self, i: int) -> bool {
        match self.logs@[i].state {
            ValueState::Cached(v) => self.disk@[i] == spec_put_record(self.logs@[i].key@, v@),
            ValueState::OnDisk => true,
        }
    }

    /// Whether some directory binding names slot `s`.
    pub closed spec fn dir_binds(self, s: int) -> bool {
        exists|i: int| 0 <= i < self.dir@.len() && (#[trigger] self.dir@[i]).slot == s
    }

    /// The directory invariants: one binding per live key, slots within
    /// range and bijective, and each binding naming the slot that holds its
    /// key.
    pub closed spec fn dir_ok(self) -> bool {
        &&& self.dir@.len() == self.logs@.len()
        &&& forall|i: int, j: int|
            0 <= i < j < self.dir@.len() ==> self.dir@[i].key@ != self.dir@[j].key@
        &&& forall|i: int|
            0 <= i < self.dir@.len() ==> (#[trigger] self.dir@[i]).slot < self.logs@.len()
                && self.logs@[self.dir@[i].slot as int].key@ == self.dir@[i].key@
        &&& forall|s: int| 0 <= s < self.logs@.len() ==> self.dir_binds(s)
    }

    /// The slot-file invariants: slot `i` holds a `Put` record for its key,
    /// and any cached value equals the one on disk.
    pub closed spec fn slots_ok(self) -> bool {
        forall|i: int|
            0 <= i < self.logs@.len() ==> (#[trigger] self.slot_record_ok(i))
                && self.slot_cache_ok(i)
    }

    /// Well-formedness: the invariants that hold at the boundary of every
    /// store operation.  The in-use slots are exactly `[0, N)`.
    pub closed spec fn wf(self) -> bool {
        &&& self.seek == self.logs@.len()
        &&& self.dir_ok()
        &&& forall|i: int| self.disk@.dom().contains(i) <==> 0 <= i < self.logs@.len()
        &&& self.slots_ok()
    }

    /// Under the directory invariants, no key occupies two slots.
    proof fn lemma_log_keys_distinct(self)
        requires
            self.dir_ok(),
        ensures
            forall|i: int, j: int|
                0 <= i < j < self.logs@.len() ==> self.logs@[i].key@ != self.logs@[j].key@,
    {
        assert forall|i: int, j: int|
            0 <= i < j < self.logs@.len() implies self.logs@[i].key@ != self.logs@[j].key@ by {
            if self.logs@[i].key@ == self.logs@[j].key@ {
                assert(self.dir_binds(i));
                assert(self.dir_binds(j));
                let a = choose|a: int|
                    0 <= a < self.dir@.len() && (#[trigger] self.dir@[a]).slot == i;
                let b = choose|b: int|
                    0 <= b < self.dir@.len() && (#[trigger] self.dir@[b]).slot == j;
                assert(self.dir@[a].key@ == self.logs@[i].key@);
                assert(self.dir@[b].key@ == self.logs@[j].key@);
                assert(a != b);
                assert(false);
            }
        }
    }

    /// A slot that holds `k` is the one `slot_of_key` names.
    proof fn lemma_slot_of_key_unique(self, i: int)
        requires
            self.dir_ok(),
            0 <= i < self.logs@.len(),
        ensures
            self.has_key(self.logs@[i].key@),
            self.slot_of_key(self.logs@[i].key@) == i,
    {
        self.lemma_log_keys_distinct();
        let k = self.logs@[i].key@;
        assert(self.has_key(k));
        let j = self.slot_of_key(k);
        assert(0 <= j < self.logs@.len() && self.logs@[j].key@ == k);
        if i < j {
            assert(false);
        }
        if j < i {
            assert(false);
        }
    }

    /// A key is live exactly when the directory binds it.
    proof fn lemma_has_key_dir(self, k: Seq<char>)
        requires
            self.dir_ok(),
        ensures
            self.has_key(k) <==> exists|i: int|
                0 <= i < self.dir@.len() && (#[trigger] self.dir@[i]).key@ == k,
    {
        if self.has_key(k) {
            let s = self.slot_of_key(k);
            assert(0 <= s < self.logs@.len() && self.logs@[s].key@ == k);
            assert(self.dir_binds(s));
            let a = choose|a: int| 0 <= a < self.dir@.len() && (#[trigger] self.dir@[a]).slot == s;
            assert(self.dir@[a].key@ == k);
        }
        if exists|i: int| 0 <= i < self.dir@.len() && (#[trigger] self.dir@[i]).key@ == k {
            let a = choose|i: int| 0 <= i < self.dir@.len() && (#[trigger] self.dir@[i]).key@ == k;
            let s = self.dir@[a].slot as int;
            assert(self.logs@[s].key@ == k);
            assert(self.has_key(k));
        }
    }

    /// An empty store: no bindings, no slots, no slot files.
    pub fn new() -> (s: KvStore)
        ensures
            s.wf(),
            s@ == Map::<Seq<char>, Seq<char>>::empty(),
            s.slot_count() == 0,
            s.disk_model() == Map::<int, Seq<char>>::empty(),
    {
        let s = KvStore {
            dir: Vec::new(),
            logs: Vec::new(),
            seek: 0,
            disk: Ghost(Map::empty()),
        };
        proof {
            assert(s@ =~= Map::<Seq<char>, Seq<char>>::empty());
            assert(forall|i: int| !s.disk@.dom().contains(i));
        }
        s
    }

    /// The number of live keys, which is also the number of slot files.
    pub fn len(&self) -> (n: usize)
        ensures
            n as int == self.slot_count(),
    {
        self.logs.len()
    }

    /// Finds the directory binding for `key`, if any.
    fn find_dir(&self, key: &str) -> (r: Option<usize>)
        requires
            self.dir_ok(),
        ensures
            match r {
                Some(idx) => idx < self.dir_view().len() && self.dir_view()[idx as int].key@
                    == key@,
                None => !self.has_key(key@),
            },
    {
        let mut idx: usize = 0;
        let n = self.dir.len();
        while idx < n
            invariant
                0 <= idx <= n,
                n == self.dir@.len(),
                self.dir_ok(),
                forall|j: int| 0 <= j < idx ==> self.dir@[j].key@ != key@,
            decreases n - idx,
        {
            if str_eq(self.dir[idx].key.as_str(), key) {
                return Some(idx);
            }
            idx = idx + 1;
        }
        proof {
            self.lemma_has_key_dir(key@);
        }
        None
    }
}

/// Equal `Put` records bind equal values.
proof fn lemma_put_value_unique(k: Seq<char>, v1: Seq<char>, v2: Seq<char>)
    requires
        spec_put_record(k, v1) == spec_put_record(k, v2),
    ensures
        v1 == v2,
{
    lemma_decode_encode_record(RecordModel::Put { key: k, value: v1 });
    lemma_decode_encode_record(RecordModel::Put { key: k, value: v2 });
}

/// The result of a store read, before any slot file is touched.
pub enum GetStep {
    /// The answer is already known: the value, or absence.
    Done(Option<String>),
    /// The value lives in this slot's file; the shell reads it and calls
    /// `get_loaded` with the text.
    Load(usize),
}

impl KvStore {
    /// Slot `i` holds exactly the value `v`.
    proof fn lemma_slot_value_is(self, i: int, v: Seq<char>)
        requires
            0 <= i < self.logs_view().len(),
            self.disk_model()[i] == spec_put_record(self.logs_view()[i].key@, v),
        ensures
            self.slot_record_ok(i),
            self.slot_value(i) == v,
    {
        assert(self.slot_record_ok(i));
        let v0 = self.slot_value(i);
        assert(self.disk@[i] == spec_put_record(self.logs@[i].key@, v0));
        lemma_put_value_unique(self.logs@[i].key@, v0, v);
    }

    /// Two stores with the same keys, slot for slot, and the same current
    /// values hold the same bindings.
    proof fn lemma_view_congruence(self, other: KvStore)
        requires
            self.dir_ok(),
            other.dir_ok(),
            self.logs_view().len() == other.logs_view().len(),
            forall|i: int|
                0 <= i < self.logs_view().len() ==> (#[trigger] self.logs_view()[i]).key@
                    == other.logs_view()[i].key@,
            forall|i: int|
                0 <= i < self.logs_view().len() ==> #[trigger] self.entry_value(i)
                    == other.entry_value(i),
        ensures
            self@ == other@,
    {
        assert forall|k: Seq<char>| self.has_key(k) == other.has_key(k) by {
            if self.has_key(k) {
                let i = self.slot_of_key(k);
                assert(other.logs@[i].key@ == k);
                assert(other.has_key(k));
            }
            if other.has_key(k) {
                let i = other.slot_of_key(k);
                assert(self.logs@[i].key@ == k);
                assert(self.has_key(k));
            }
        }
        assert forall|k: Seq<char>| #[trigger] self@.dom().contains(k) implies self@[k]
            == other@[k] by {
            let i = self.slot_of_key(k);
            assert(0 <= i < self.logs@.len() && self.logs@[i].key@ == k);
            self.lemma_slot_of_key_unique(i);
            other.lemma_slot_of_key_unique(i);
            assert(other.slot_of_key(k) == i);
        }
        assert(self@ =~= other@);
    }

    /// Answers a read from memory, or names the slot file to read.
    ///
    /// An absent key answers `Done(None)`; a cached value answers
    /// `Done(Some(value))`; a value not yet materialized answers
    /// `Load(slot)`, and the shell hands the slot file's text to
    /// `get_loaded`.
    pub fn get(&self, key: &str) -> (r: GetStep)
        requires
            self.wf(),
        ensures
            match r {
                GetStep::Done(opt) => match opt {
                    Some(v) => self@.contains_key(key@) && v@ == self@[key@],
                    None => !self@.contains_key(key@),
                },
                GetStep::Load(slot) => self@.contains_key(key@) && slot as int
                    == self.slot_of_key(key@) && slot < self.slot_count()
                    && self.logs_view()[slot as int].state is OnDisk,
            },
    {
        match self.find_dir(key) {
            None => {
                proof {
                    assert(!self@.dom().contains(key@));
                }
                GetStep::Done(None)
            },
            Some(idx) => {
                let slot = self.dir[idx].slot;
                proof {
                    assert(self.logs@[slot as int].key@ == key@);
                    self.lemma_slot_of_key_unique(slot as int);
                    assert(self@.dom().contains(key@));
                    assert(self@[key@] == self.entry_value(slot as int));
                }
                let entry = &self.logs[slot];
                match &entry.state {
                    ValueState::Cached(v) => GetStep::Done(Some(v.clone())),
                    ValueState::OnDisk => GetStep::Load(slot),
                }
            },
        }
    }

    /// Finishes a read whose value was on disk: `content` is the text of
    /// the slot file that `get` named.
    ///
    /// When the text is what the store wrote there — always, unless the
    /// root directory was tampered with — the value is cached and returned,
    /// and the bindings are unchanged.  The remaining clauses pin the
    /// behavior on any text: a record binding some value returns and caches
    /// that value; a remove record is an inconsistency, which is healed by
    /// unbinding the key (the shell reports it); unreadable text is a
    /// `Format` error and changes nothing.
    pub fn get_loaded(&mut self, key: &str, content: &str) -> (r: Result<
        Option<String>,
        KvsError,
    >)
        requires
            old(self).wf(),
            old(self)@.contains_key(key@),
            old(self).logs_view()[old(self).slot_of_key(key@)].state is OnDisk,
        ensures
            ({
                let slot = old(self).slot_of_key(key@);
                &&& (content@ == old(self).disk_model()[slot] ==> {
                    &&& final(self).wf()
                    &&& final(self)@ == old(self)@
                    &&& final(self).disk_model() == old(self).disk_model()
                    &&& (match r {
                        Ok(opt) => match opt {
                            Some(v) => v@ == old(self)@[key@],
                            None => false,
                        },
                        Err(_) => false,
                    })
                })
                &&& (match spec_decode_record(content@) {
                    Some(m) => match m {
                        RecordModel::Put { key: k2, value: v2 } => {
                            &&& (match r {
                                Ok(opt) => match opt {
                                    Some(v) => v@ == v2,
                                    None => false,
                                },
                                Err(_) => false,
                            })
                            &&& final(self).dir_view() == old(self).dir_view()
                            &&& final(self).disk_model() == old(self).disk_model()
                            &&& final(self).logs_view().len() == old(self).logs_view().len()
                            &&& (forall|i: int|
                                0 <= i < old(self).logs_view().len() && i != slot
                                    ==> final(self).logs_view()[i] == old(self).logs_view()[i])
                            &&& final(self).logs_view()[slot].key
                                == old(self).logs_view()[slot].key
                            &&& (final(self).logs_view()[slot].state matches ValueState::Cached(v)
                                && v@ == v2)
                        },
                        RecordModel::Remove { key: k2 } => {
                            &&& (match r {
                                Ok(opt) => opt is None,
                                Err(_) => false,
                            })
                            &&& final(self).logs_view() == old(self).logs_view()
                            &&& final(self).disk_model() == old(self).disk_model()
                            &&& (exists|idx: int|
                                0 <= idx < old(self).dir_view().len()
                                    && (#[trigger] old(self).dir_view()[idx]).key@ == key@
                                    && final(self).dir_view() == old(self).dir_view().remove(idx))
                        },
                    },
                    None => {
                        &&& r == Err::<Option<String>, KvsError>(KvsError::Format)
                        &&& *final(self) == *old(self)
                    },
                })
            }),
    {
        proof {
            old(self).lemma_log_keys_distinct();
        }
        let ghost slot_g = old(self).slot_of_key(key@);
        let idx_opt = self.find_dir(key);
        proof {
            if idx_opt is None {
                assert(!old(self).has_key(key@));
                assert(!old(self)@.dom().contains(key@));
                assert(false);
            }
        }
        let idx = idx_opt.unwrap();
        let slot = self.dir[idx].slot;
        proof {
            assert(old(self).logs@[slot as int].key@ == key@);
            old(self).lemma_slot_of_key_unique(slot as int);
            assert(slot as int == slot_g);
        }
        match decode_record(content) {
            None => {
                proof {
                    let os = *old(self);
                    if content@ == os.disk_model()[slot as int] {
                        assert(os.slot_record_ok(slot as int));
                        let v0 = os.slot_value(slot as int);
                        assert(os.disk@[slot as int] == spec_put_record(key@, v0));
                        lemma_decode_encode_record(RecordModel::Put { key: key@, value: v0 });
                        assert(false);
                    }
                }
                Err(KvsError::Format)
            },
            Some(rec) => match rec {
                Record::Put(_, v) => {
                    let ret = v.clone();
                    let k_old = self.logs[slot].key.clone();
                    self.logs.set(slot, LogEntry { key: k_old, state: ValueState::Cached(v) });
                    proof {
                        let os = *old(self);
                        let ns = *self;
                        let v2 = match spec_decode_record(content@) {
                            Some(RecordModel::Put { key: k2, value: v2 }) => v2,
                            _ => Seq::<char>::empty(),
                        };
                        assert(ret@ == v2);
                        assert(ns.dir_ok()) by {
                            assert(forall|i: int|
                                0 <= i < ns.logs@.len() ==> (#[trigger] ns.logs@[i]).key@
                                    == os.logs@[i].key@);
                            assert forall|s2: int| 0 <= s2 < ns.logs@.len() implies ns.dir_binds(
                                s2,
                            ) by {
                                assert(os.dir_binds(s2));
                                let a = choose|i: int|
                                    0 <= i < os.dir@.len() && (#[trigger] os.dir@[i]).slot == s2;
                                assert(ns.dir@[a].slot == s2);
                            }
                        }
                        if content@ == os.disk_model()[slot as int] {
                            // the slot file held what the invariant says it holds
                            assert(os.slot_record_ok(slot as int));
                            let v0 = os.slot_value(slot as int);
                            assert(os.disk@[slot as int] == spec_put_record(key@, v0));
                            lemma_decode_encode_record(
                                RecordModel::Put { key: key@, value: v0 },
                            );
                            assert(v2 == v0);
                            assert(ns.slot_cache_ok(slot as int));
                            assert(ns.slots_ok()) by {
                                assert forall|i: int|
                                    0 <= i < ns.logs@.len() implies (#[trigger] ns.slot_record_ok(
                                    i,
                                )) && ns.slot_cache_ok(i) by {
                                    assert(os.slot_record_ok(i));
                                    let vi = os.slot_value(i);
                                    assert(os.disk@[i] == spec_put_record(os.logs@[i].key@, vi));
                                    assert(ns.disk@[i] == spec_put_record(ns.logs@[i].key@, vi));
                                    if i != slot as int {
                                        assert(ns.logs@[i] == os.logs@[i]);
                                        assert(ns.slot_cache_ok(i));
                                    }
                                }
                            }
                            assert(ns.wf());
                            assert forall|i: int|
                                0 <= i < os.logs@.len() implies #[trigger] os.entry_value(i)
                                == ns.entry_value(i) by {
                                assert(os.slot_record_ok(i));
                                let vi = os.slot_value(i);
                                assert(os.disk@[i] == spec_put_record(os.logs@[i].key@, vi));
                                os.lemma_slot_value_is(i, vi);
                                ns.lemma_slot_value_is(i, vi);
                                if i == slot as int {
                                    assert(os.entry_value(i) == vi);
                                    assert(ns.entry_value(i) == v0);
                                } else {
                                    assert(ns.logs@[i] == os.logs@[i]);
                                }
                            }
                            os.lemma_view_congruence(ns);
                            assert(os@[key@] == os.entry_value(slot as int));
                        }
                    }
                    Ok(Some(ret))
                },
                Record::Remove(_) => {
                    self.dir.remove(idx);
                    proof {
                        let os = *old(self);
                        let ns = *self;
                        assert(ns.dir_view() == os.dir_view().remove(idx as int));
                        assert(os.dir_view()[idx as int].key@ == key@);
                        if content@ == os.disk_model()[slot as int] {
                            assert(os.slot_record_ok(slot as int));
                            let v0 = os.slot_value(slot as int);
                            assert(os.disk@[slot as int] == spec_put_record(key@, v0));
                            lemma_decode_encode_record(
                                RecordModel::Put { key: key@, value: v0 },
                            );
                            assert(false);
                        }
                    }
                    Ok(None)
                },
            },
        }
    }
}

impl KvStore {
    /// The directory invariants survive any change that keeps the directory
    /// itself and every slot's key.
    proof fn lemma_dir_ok_preserved(self, other: KvStore)
        requires
            self.dir_ok(),
            other.dir_view() == self.dir_view(),
            other.logs_view().len() == self.logs_view().len(),
            forall|i: int|
                0 <= i < self.logs_view().len() ==> (#[trigger] other.logs_view()[i]).key@
                    == self.logs_view()[i].key@,
        ensures
            other.dir_ok(),
    {
        assert forall|s: int| 0 <= s < other.logs@.len() implies other.dir_binds(s) by {
            assert(self.dir_binds(s));
            let a = choose|i: int| 0 <= i < self.dir@.len() && (#[trigger] self.dir@[i]).slot == s;
            assert(other.dir@[a].slot == s);
        }
    }

    /// Slot `j` of `other` carries slot `i` of `self`: same file text, same
    /// entry.  Then it also carries the invariants and the current value.
    proof fn lemma_entry_carry(self, other: KvStore, i: int, j: int)
        requires
            0 <= i < self.logs_view().len(),
            0 <= j < other.logs_view().len(),
            self.slot_record_ok(i),
            self.slot_cache_ok(i),
            other.disk_model()[j] == self.disk_model()[i],
            other.logs_view()[j] == self.logs_view()[i],
        ensures
            other.slot_record_ok(j),
            other.slot_cache_ok(j),
            other.entry_value(j) == self.entry_value(i),
    {
        let v = self.slot_value(i);
        assert(self.disk@[i] == spec_put_record(self.logs@[i].key@, v));
        other.lemma_slot_value_is(j, v);
    }

    /// The slot-file write that binding `key` to `value` requires: the same
    /// operation `set` returns.  The shell performs it first and calls
    /// `set` only once it succeeded.
    pub fn prepare_set(&self, key: &str, value: &str) -> (op: SlotOp)
        requires
            self.wf(),
        ensures
            (op matches SlotOp::Write { slot, content } && content@ == spec_put_record(
                key@,
                value@,
            ) && slot as int == (if self@.contains_key(key@) {
                self.slot_of_key(key@)
            } else {
                self.slot_count()
            })),
    {
        let content = encode_record(&Record::Put(String::from_str(key), String::from_str(value)));
        match self.find_dir(key) {
            Some(idx) => {
                let slot = self.dir[idx].slot;
                proof {
                    assert(self.logs@[slot as int].key@ == key@);
                    self.lemma_slot_of_key_unique(slot as int);
                }
                SlotOp::Write { slot, content }
            },
            None => SlotOp::Write { slot: self.logs.len(), content },
        }
    }

    /// The slot-file operation that unbinding `key` requires — the same
    /// unlink or rename `remove` returns — or `NotFound` where no binding
    /// exists.  The shell performs the operation first and calls `remove`
    /// only once it succeeded.
    pub fn prepare_remove(&self, key: &str) -> (r: Result<SlotOp, KvsError>)
        requires
            self.wf(),
        ensures
            (match r {
                Ok(op) => {
                    &&& self@.contains_key(key@)
                    &&& ({
                        let j = self.slot_of_key(key@);
                        let last = self.slot_count() - 1;
                        op == (if j == last {
                            SlotOp::Unlink { slot: last as usize }
                        } else {
                            SlotOp::Rename { from: last as usize, to: j as usize }
                        })
                    })
                },
                Err(e) => {
                    &&& !self@.contains_key(key@)
                    &&& (e matches KvsError::NotFound { key: k } && k@ == key@)
                },
            }),
    {
        match self.find_dir(key) {
            None => Err(KvsError::NotFound { key: String::from_str(key) }),
            Some(idx) => {
                let slot = self.dir[idx].slot;
                proof {
                    assert(self.logs@[slot as int].key@ == key@);
                    self.lemma_slot_of_key_unique(slot as int);
                }
                let last = self.logs.len() - 1;
                if slot == last {
                    Ok(SlotOp::Unlink { slot: last })
                } else {
                    Ok(SlotOp::Rename { from: last, to: slot })
                }
            },
        }
    }

    /// Binds `key` to `value`, overwriting any earlier binding.
    ///
    /// The one slot-file operation returned writes the encoded record: to
    /// the key's existing slot on an overwrite, to the first free slot `N`
    /// on a new key.  A new binding is cached write-through; an overwrite
    /// refreshes the cache where one is resident and leaves `OnDisk` alone,
    /// so the next read re-reads the file.
    ///
    /// The shell obtains this same operation from `prepare_set` first,
    /// performs it on the file system, and commits here only after it
    /// succeeded: a failed write then leaves the bindings unchanged.
    pub fn set(&mut self, key: String, value: String) -> (op: SlotOp)
        requires
            old(self).wf(),
            old(self).slot_count() < usize::MAX,
        ensures
            final(self).wf(),
            final(self)@ == old(self)@.insert(key@, value@),
            final(self).disk_model() == spec_apply_op(old(self).disk_model(), op),
            (op matches SlotOp::Write { slot, content } && content@ == spec_put_record(
                key@,
                value@,
            ) && slot as int == (if old(self)@.contains_key(key@) {
                old(self).slot_of_key(key@)
            } else {
                old(self).slot_count()
            })),
            final(self).slot_count() == (if old(self)@.contains_key(key@) {
                old(self).slot_count()
            } else {
                old(self).slot_count() + 1
            }),
            (old(self)@.contains_key(key@) ==> {
                let slot = old(self).slot_of_key(key@);
                &&& final(self).dir_view() == old(self).dir_view()
                &&& (match old(self).logs_view()[slot].state {
                    ValueState::Cached(_) => final(self).logs_view() == old(
                        self,
                    ).logs_view().update(
                        slot,
                        (LogEntry {
                            key: old(self).logs_view()[slot].key,
                            state: ValueState::Cached(value),
                        }),
                    ),
                    ValueState::OnDisk => final(self).logs_view() == old(self).logs_view(),
                })
            }),
            (!old(self)@.contains_key(key@) ==> final(self).dir_view() == old(
                self,
            ).dir_view().push(
                (DirEntry { key: key, slot: old(self).logs_view().len() as usize }),
            ) && final(self).logs_view() == old(self).logs_view().push(
                (LogEntry { key: key, state: ValueState::Cached(value) }),
            )),
    {
        proof {
            old(self).lemma_log_keys_distinct();
        }
        let content = encode_record(&Record::Put(key.clone(), value.clone()));
        match self.find_dir(key.as_str()) {
            Some(idx) => {
                let slot = self.dir[idx].slot;
                proof {
                    assert(old(self).logs@[slot as int].key@ == key@);
                    old(self).lemma_slot_of_key_unique(slot as int);
                }
                self.disk = Ghost(self.disk@.insert(slot as int, content@));
                let refresh = match &self.logs[slot].state {
                    ValueState::Cached(_) => true,
                    ValueState::OnDisk => false,
                };
                if refresh {
                    let k_old = self.logs[slot].key.clone();
                    self.logs.set(slot, LogEntry { key: k_old, state: ValueState::Cached(value) });
                }
                proof {
                    let os = *old(self);
                    let ns = *self;
                    assert(forall|i: int|
                        0 <= i < ns.logs@.len() ==> (#[trigger] ns.logs@[i]).key@
                            == os.logs@[i].key@);
                    os.lemma_dir_ok_preserved(ns);
                    assert(ns.slot_record_ok(slot as int)) by {
                        assert(ns.disk@[slot as int] == spec_put_record(key@, value@));
                    }
                    assert(ns.slot_cache_ok(slot as int));
                    assert forall|i: int|
                        0 <= i < ns.logs@.len() implies (#[trigger] ns.slot_record_ok(i))
                        && ns.slot_cache_ok(i) by {
                        if i != slot as int {
                            assert(os.slot_record_ok(i));
                            os.lemma_entry_carry(ns, i, i);
                        }
                    }
                    assert(ns.wf());
                    ns.lemma_log_keys_distinct();
                    assert forall|k: Seq<char>| ns.has_key(k) == os.has_key(k) by {
                        if ns.has_key(k) {
                            let i = ns.slot_of_key(k);
                            assert(os.logs@[i].key@ == k);
                        }
                        if os.has_key(k) {
                            let i = os.slot_of_key(k);
                            assert(ns.logs@[i].key@ == k);
                        }
                    }
                    assert(ns.has_key(key@));
                    assert(ns@.dom().contains(key@));
                    assert forall|k: Seq<char>| #[trigger] ns@.dom().contains(k) implies ns@[k]
                        == os@.insert(key@, value@)[k] by {
                        let i = ns.slot_of_key(k);
                        assert(0 <= i < ns.logs@.len() && ns.logs@[i].key@ == k);
                        ns.lemma_slot_of_key_unique(i);
                        os.lemma_slot_of_key_unique(i);
                        if k == key@ {
                            assert(i == slot as int);
                            if refresh {
                                assert(ns.entry_value(i) == value@);
                            } else {
                                assert(ns.logs@[i].state is OnDisk);
                                ns.lemma_slot_value_is(i, value@);
                                assert(ns.entry_value(i) == value@);
                            }
                        } else {
                            assert(i != slot as int);
                            assert(os.slot_record_ok(i));
                            os.lemma_entry_carry(ns, i, i);
                        }
                    }
                    assert(ns@ =~= os@.insert(key@, value@));
                }
                SlotOp::Write { slot, content }
            },
            None => {
                let slot = self.logs.len();
                proof {
                    old(self).lemma_has_key_dir(key@);
                }
                self.dir.push(DirEntry { key: key.clone(), slot });
                self.logs.push(LogEntry { key, state: ValueState::Cached(value) });
                self.seek = self.seek + 1;
                self.disk = Ghost(self.disk@.insert(slot as int, content@));
                proof {
                    let os = *old(self);
                    let ns = *self;
                    let n = os.logs@.len() as int;
                    assert(ns.logs@.len() == n + 1);
                    assert(ns.dir_ok()) by {
                        assert(forall|i: int|
                            0 <= i < n ==> (#[trigger] ns.dir@[i]) == os.dir@[i]);
                        assert(forall|i: int|
                            0 <= i < n ==> (#[trigger] ns.logs@[i]) == os.logs@[i]);
                        assert(ns.dir@[n].key@ == key@);
                        assert(ns.logs@[n].key@ == key@);
                        assert forall|i: int, j: int|
                            0 <= i < j < ns.dir@.len() implies ns.dir@[i].key@
                            != ns.dir@[j].key@ by {
                            if j == n {
                                assert(os.dir@[i].key@ != key@);
                            }
                        }
                        assert forall|s2: int| 0 <= s2 < ns.logs@.len() implies ns.dir_binds(
                            s2,
                        ) by {
                            if s2 < n {
                                assert(os.dir_binds(s2));
                                let a = choose|i: int|
                                    0 <= i < os.dir@.len() && (#[trigger] os.dir@[i]).slot == s2;
                                assert(ns.dir@[a].slot == s2);
                            } else {
                                assert(ns.dir@[n].slot == s2);
                            }
                        }
                    }
                    assert forall|i: int|
                        0 <= i < ns.logs@.len() implies (#[trigger] ns.slot_record_ok(i))
                        && ns.slot_cache_ok(i) by {
                        if i < n {
                            assert(os.slot_record_ok(i));
                            os.lemma_entry_carry(ns, i, i);
                        } else {
                            assert(ns.disk@[i] == spec_put_record(key@, value@));
                            assert(ns.slot_record_ok(i));
                        }
                    }
                    assert(ns.wf());
                    ns.lemma_log_keys_distinct();
                    ns.lemma_slot_of_key_unique(n);
                    assert(ns.entry_value(n) == value@);
                    assert forall|k: Seq<char>| #[trigger] ns@.dom().contains(k) implies ns@[k]
                        == os@.insert(key@, value@)[k] by {
                        let i = ns.slot_of_key(k);
                        assert(0 <= i < ns.logs@.len() && ns.logs@[i].key@ == k);
                        ns.lemma_slot_of_key_unique(i);
                        if k == key@ {
                            assert(i == n);
                        } else {
                            assert(i < n);
                            os.lemma_slot_of_key_unique(i);
                            assert(os.slot_record_ok(i));
                            os.lemma_entry_carry(ns, i, i);
                        }
                    }
                    assert forall|k: Seq<char>| os@.insert(key@, value@).dom().contains(k)
                        implies #[trigger] ns@.dom().contains(k) by {
                        if k == key@ {
                        } else {
                            assert(os.has_key(k));
                            let i = os.slot_of_key(k);
                            assert(ns.logs@[i].key@ == k);
                        }
                    }
                    assert(ns@ =~= os@.insert(key@, value@));
                }
                SlotOp::Write { slot, content }
            },
        }
    }
}

impl KvStore {
    /// Finds the directory binding that names slot `s`; one always exists.
    fn find_dir_slot(&self, s: usize) -> (idx: usize)
        requires
            self.dir_ok(),
            (s as int) < self.logs_view().len(),
        ensures
            idx < self.dir_view().len(),
            self.dir_view()[idx as int].slot == s,
    {
        let n = self.dir.len();
        let mut i: usize = 0;
        while i < n
            invariant
                0 <= i <= n,
                n == self.dir@.len(),
                forall|j: int| 0 <= j < i ==> (#[trigger] self.dir@[j]).slot != s,
            decreases n - i,
        {
            if self.dir[i].slot == s {
                return i;
            }
            i = i + 1;
        }
        proof {
            assert(self.dir_binds(s as int));
            let a = choose|j: int| 0 <= j < self.dir@.len() && (#[trigger] self.dir@[j]).slot
                == s as int;
            assert(false);
        }
        vstd::pervasive::unreached()
    }

    /// Unbinds `key`, or reports `NotFound` where no binding exists.
    ///
    /// Freeing the highest slot unlinks its file; freeing any other slot
    /// `j` promotes the current last slot into `j` with one rename, so the
    /// in-use slots stay contiguous.  The returned operation is the one
    /// unlink or rename.
    ///
    /// The shell obtains the same operation from `prepare_remove` first,
    /// performs it, and commits here only after it succeeded: a failed
    /// rename then leaves the bindings unchanged.
    pub fn remove(&mut self, key: &str) -> (r: Result<SlotOp, KvsError>)
        requires
            old(self).wf(),
        ensures
            final(self).wf(),
            (match r {
                Ok(op) => {
                    &&& old(self)@.contains_key(key@)
                    &&& final(self)@ == old(self)@.remove(key@)
                    &&& final(self).disk_model() == spec_apply_op(old(self).disk_model(), op)
                    &&& final(self).slot_count() == old(self).slot_count() - 1
                    &&& ({
                        let j = old(self).slot_of_key(key@);
                        let last = old(self).slot_count() - 1;
                        op == (if j == last {
                            SlotOp::Unlink { slot: last as usize }
                        } else {
                            SlotOp::Rename { from: last as usize, to: j as usize }
                        })
                    })
                },
                Err(e) => {
                    &&& !old(self)@.contains_key(key@)
                    &&& (e matches KvsError::NotFound { key: k } && k@ == key@)
                    &&& *final(self) == *old(self)
                },
            }),
    {
        proof {
            old(self).lemma_log_keys_distinct();
        }
        match self.find_dir(key) {
            None => Err(KvsError::NotFound { key: String::from_str(key) }),
            Some(idx) => {
                let slot = self.dir[idx].slot;
                proof {
                    assert(old(self).logs@[slot as int].key@ == key@);
                    old(self).lemma_slot_of_key_unique(slot as int);
                }
                let last = self.logs.len() - 1;
                if slot == last {
                    let _ = self.logs.pop();
                    self.dir.remove(idx);
                    self.seek = self.seek - 1;
                    self.disk = Ghost(self.disk@.remove(last as int));
                    proof {
                        let os = *old(self);
                        let ns = *self;
                        let n = os.logs@.len() as int;
                        assert(ns.logs@ =~= os.logs@.subrange(0, n - 1));
                        assert(ns.dir@ == os.dir@.remove(idx as int));
                        assert(ns.dir_ok()) by {
                            assert forall|s2: int| 0 <= s2 < ns.logs@.len() implies ns.dir_binds(
                                s2,
                            ) by {
                                assert(os.dir_binds(s2));
                                let a = choose|i: int|
                                    0 <= i < os.dir@.len() && (#[trigger] os.dir@[i]).slot == s2;
                                assert(a != idx);
                                if a < idx {
                                    assert(ns.dir@[a].slot == s2);
                                } else {
                                    assert(ns.dir@[a - 1].slot == s2);
                                }
                            }
                        }
                        assert forall|i: int|
                            0 <= i < ns.logs@.len() implies (#[trigger] ns.slot_record_ok(i))
                            && ns.slot_cache_ok(i) by {
                            assert(os.slot_record_ok(i));
                            os.lemma_entry_carry(ns, i, i);
                        }
                        assert(ns.wf());
                        assert forall|k: Seq<char>| #[trigger] ns@.dom().contains(k) implies ns@[k]
                            == os@.remove(key@)[k] by {
                            let i = ns.slot_of_key(k);
                            assert(0 <= i < ns.logs@.len() && ns.logs@[i].key@ == k);
                            ns.lemma_slot_of_key_unique(i);
                            os.lemma_slot_of_key_unique(i);
                            assert(k != key@);
                            assert(os.slot_record_ok(i));
                            os.lemma_entry_carry(ns, i, i);
                        }
                        assert forall|k: Seq<char>| os@.remove(key@).dom().contains(k)
                            implies #[trigger] ns@.dom().contains(k) by {
                            assert(os.has_key(k) && k != key@);
                            let i = os.slot_of_key(k);
                            assert(os.logs@[i].key@ == k);
                            assert(i != slot as int);
                            assert(ns.logs@[i].key@ == k);
                        }
                        assert(ns@ =~= os@.remove(key@));
                    }
                    Ok(SlotOp::Unlink { slot: last })
                } else {
                    let idx2 = self.find_dir_slot(last);
                    proof {
                        assert(idx2 != idx);
                    }
                    let promoted = self.logs.pop().unwrap();
                    self.logs.set(slot, promoted);
                    let k2 = self.dir[idx2].key.clone();
                    self.dir.set(idx2, DirEntry { key: k2, slot });
                    self.dir.remove(idx);
                    self.seek = self.seek - 1;
                    self.disk = Ghost(
                        self.disk@.remove(last as int).insert(slot as int, self.disk@[last as int]),
                    );
                    proof {
                        let os = *old(self);
                        let ns = *self;
                        let n = os.logs@.len() as int;
                        let lk = os.logs@[n - 1].key@;
                        assert(os.dir@[idx2 as int].key@ == lk);
                        assert(lk != key@);
                        assert(ns.logs@ =~= os.logs@.subrange(0, n - 1).update(
                            slot as int,
                            os.logs@[n - 1],
                        ));
                        assert(ns.dir@ =~= os.dir@.update(
                            idx2 as int,
                            DirEntry { key: os.dir@[idx2 as int].key, slot: slot },
                        ).remove(idx as int));
                        assert(ns.disk@ == os.disk@.remove(n - 1).insert(
                            slot as int,
                            os.disk@[n - 1],
                        ));
                        // every remaining log key is the old key, except the hole,
                        // which now holds the promoted key
                        assert(forall|i: int|
                            0 <= i < n - 1 && i != slot as int ==> (#[trigger] ns.logs@[i])
                                == os.logs@[i]);
                        assert(ns.logs@[slot as int] == os.logs@[n - 1]);
                        assert(ns.dir_ok()) by {
                            assert forall|i: int, j: int|
                                0 <= i < j < ns.dir@.len() implies ns.dir@[i].key@
                                != ns.dir@[j].key@ by {
                                let i0 = if i < idx as int { i } else { i + 1 };
                                let j0 = if j < idx as int { j } else { j + 1 };
                                assert(ns.dir@[i].key@ == os.dir@[i0].key@);
                                assert(ns.dir@[j].key@ == os.dir@[j0].key@);
                            }
                            assert forall|i: int|
                                0 <= i < ns.dir@.len() implies (#[trigger] ns.dir@[i]).slot
                                < ns.logs@.len() && ns.logs@[ns.dir@[i].slot as int].key@
                                == ns.dir@[i].key@ by {
                                let i0 = if i < idx as int { i } else { i + 1 };
                                if i0 == idx2 as int {
                                    assert(ns.dir@[i].slot == slot);
                                    assert(ns.dir@[i].key@ == lk);
                                } else {
                                    assert(ns.dir@[i] == os.dir@[i0]);
                                    assert(os.dir@[i0].slot != n - 1);
                                    assert(os.dir@[i0].slot != slot);
                                }
                            }
                            assert forall|s2: int| 0 <= s2 < ns.logs@.len() implies ns.dir_binds(
                                s2,
                            ) by {
                                if s2 == slot as int {
                                    let a2 = if (idx2 as int) < idx as int {
                                        idx2 as int
                                    } else {
                                        idx2 as int - 1
                                    };
                                    assert(ns.dir@[a2].slot == s2);
                                } else {
                                    assert(os.dir_binds(s2));
                                    let a = choose|i: int|
                                        0 <= i < os.dir@.len() && (#[trigger] os.dir@[i]).slot
                                            == s2;
                                    assert(a != idx);
                                    assert(a != idx2);
                                    let a2 = if a < idx as int { a } else { a - 1 };
                                    assert(ns.dir@[a2].slot == s2);
                                }
                            }
                        }
                        assert forall|i: int|
                            0 <= i < ns.logs@.len() implies (#[trigger] ns.slot_record_ok(i))
                            && ns.slot_cache_ok(i) by {
                            if i == slot as int {
                                assert(os.slot_record_ok(n - 1));
                                os.lemma_entry_carry(ns, n - 1, i);
                            } else {
                                assert(os.slot_record_ok(i));
                                os.lemma_entry_carry(ns, i, i);
                            }
                        }
                        assert(ns.wf());
                        ns.lemma_log_keys_distinct();
                        assert forall|k: Seq<char>| #[trigger] ns@.dom().contains(k) implies ns@[k]
                            == os@.remove(key@)[k] by {
                            let i = ns.slot_of_key(k);
                            assert(0 <= i < ns.logs@.len() && ns.logs@[i].key@ == k);
                            ns.lemma_slot_of_key_unique(i);
                            assert(k != key@);
                            if i == slot as int {
                                assert(k == lk);
                                os.lemma_slot_of_key_unique(n - 1);
                                assert(os.slot_record_ok(n - 1));
                                os.lemma_entry_carry(ns, n - 1, i);
                            } else {
                                os.lemma_slot_of_key_unique(i);
                                assert(os.slot_record_ok(i));
                                os.lemma_entry_carry(ns, i, i);
                            }
                        }
                        assert forall|k: Seq<char>| os@.remove(key@).dom().contains(k)
                            implies #[trigger] ns@.dom().contains(k) by {
                            assert(os.has_key(k) && k != key@);
                            let i = os.slot_of_key(k);
                            assert(os.logs@[i].key@ == k);
                            assert(i != slot as int);
                            if i == n - 1 {
                                assert(ns.logs@[slot as int].key@ == k);
                            } else {
                                assert(ns.logs@[i].key@ == k);
                            }
                        }
                        assert(ns@ =~= os@.remove(key@));
                    }
                    Ok(SlotOp::Rename { from: last, to: slot })
                }
            },
        }
    }
}

/// The bindings that a sequence of record files describes: each record in
/// turn binds or unbinds its key.  `None` where some file fails to decode.
pub open spec fn spec_replay(files: Seq<Seq<char>>) -> Option<Map<Seq<char>, Seq<char>>>
    decreases files.len(),
{
    if files.len() == 0 {
        Some(Map::<Seq<char>, Seq<char>>::empty())
    } else {
        match spec_replay(files.drop_last()) {
            None => None,
            Some(m) => match spec_decode_record(files.last()) {
                Some(RecordModel::Put { key, value }) => Some(m.insert(key, value)),
                Some(RecordModel::Remove { key }) => Some(m.remove(key)),
                None => None,
            },
        }
    }
}

/// The slot files as found on disk before recovery: file `i` for each
/// `i` below the count.
pub open spec fn spec_initial_disk(files: Seq<Seq<char>>) -> Map<int, Seq<char>> {
    Map::new(|i: int| 0 <= i < files.len(), |i: int| files[i])
}

/// Replaying one more file steps the replay of the prefix.
proof fn lemma_replay_step(fv: Seq<Seq<char>>, i: int)
    requires
        0 <= i < fv.len(),
    ensures
        spec_replay(fv.subrange(0, i + 1)) == (match spec_replay(fv.subrange(0, i)) {
            None => None::<Map<Seq<char>, Seq<char>>>,
            Some(m) => match spec_decode_record(fv[i]) {
                Some(RecordModel::Put { key, value }) => Some(m.insert(key, value)),
                Some(RecordModel::Remove { key }) => Some(m.remove(key)),
                None => None,
            },
        }),
{
    assert(fv.subrange(0, i + 1).drop_last() =~= fv.subrange(0, i));
    assert(fv.subrange(0, i + 1).last() == fv[i]);
}

/// Once a prefix fails to replay, the whole sequence fails.
proof fn lemma_replay_prefix_none(fv: Seq<Seq<char>>, m: int)
    requires
        0 <= m <= fv.len(),
        spec_replay(fv.subrange(0, m)) is None,
    ensures
        spec_replay(fv) is None,
    decreases fv.len() - m,
{
    if m == fv.len() {
        assert(fv.subrange(0, m) =~= fv);
    } else {
        lemma_replay_step(fv, m);
        lemma_replay_prefix_none(fv, m + 1);
    }
}

/// Performing one more operation steps the effect of the sequence.
proof fn lemma_apply_ops_push(disk: Map<int, Seq<char>>, ops: Seq<SlotOp>, op: SlotOp)
    ensures
        spec_apply_ops(disk, ops.push(op)) == spec_apply_op(spec_apply_ops(disk, ops), op),
{
    assert(ops.push(op).drop_last() =~= ops);
    assert(ops.push(op).last() == op);
}

impl KvStore {
    /// The state of a recovery that has replayed the first `i` files: the
    /// in-memory state is well formed over the slots `[0, N)` with nothing
    /// cached, files at and above `i` are untouched, and `present` tells
    /// which slot files exist.
    spec fn recovering(self, present: Seq<bool>, i: int, fv: Seq<Seq<char>>, ops: Seq<
        SlotOp,
    >) -> bool {
        &&& self.seek as int == self.logs@.len()
        &&& self.dir_ok()
        &&& self.slots_ok()
        &&& (forall|k: int|
            0 <= k < self.logs@.len() ==> (#[trigger] self.logs@[k]).state is OnDisk)
        &&& present.len() == fv.len()
        &&& self.logs@.len() <= i <= fv.len()
        &&& (forall|s: int|
            #[trigger] self.disk@.dom().contains(s) <==> (0 <= s < fv.len() && present[s]))
        &&& (forall|s: int| 0 <= s < self.logs@.len() ==> #[trigger] present[s])
        &&& (forall|s: int|
            i <= s < fv.len() ==> #[trigger] present[s] && self.disk@[s] == fv[s])
        &&& self.disk@ == spec_apply_ops(spec_initial_disk(fv), ops)
    }

    /// Replays one record that binds `key`: the record's file moves over the
    /// key's slot on an overwrite, or to the first free slot on a new key.
    #[verifier::rlimit(50)]
    fn replay_put(
        &mut self,
        present: &mut Vec<bool>,
        ops: &mut Vec<SlotOp>,
        key: String,
        i: usize,
        Ghost(fv): Ghost<Seq<Seq<char>>>,
        Ghost(v): Ghost<Seq<char>>,
    )
        requires
            old(self).recovering(old(present)@, i as int, fv, old(ops)@),
            (i as int) < fv.len(),
            i < usize::MAX,
            fv[i as int] == spec_put_record(key@, v),
        ensures
            final(self).recovering(final(present)@, i as int + 1, fv, final(ops)@),
            final(self)@ == old(self)@.insert(key@, v),
    {
        proof {
            old(self).lemma_log_keys_distinct();
        }
        let ghost os = *old(self);
        let ghost k = key@;
        match self.find_dir(key.as_str()) {
            Some(idx) => {
                // the key already owns a slot: move this record's file over it
                let j = self.dir[idx].slot;
                proof {
                    assert(os.logs@[j as int].key@ == k);
                    os.lemma_slot_of_key_unique(j as int);
                    lemma_apply_ops_push(
                        spec_initial_disk(fv),
                        ops@,
                        SlotOp::Rename { from: i, to: j },
                    );
                }
                ops.push(SlotOp::Rename { from: i, to: j });
                self.disk = Ghost(
                    self.disk@.remove(i as int).insert(j as int, self.disk@[i as int]),
                );
                present.set(i, false);
                proof {
                    let ns = *self;
                    let np = present@;
                    assert(ns.disk@[j as int] == spec_put_record(k, v));
                    os.lemma_dir_ok_preserved(ns);
                    assert(ns.slot_record_ok(j as int)) by {
                        assert(ns.disk@[j as int] == spec_put_record(ns.logs@[j as int].key@, v));
                    }
                    assert forall|x: int|
                        0 <= x < ns.logs@.len() implies (#[trigger] ns.slot_record_ok(x))
                        && ns.slot_cache_ok(x) by {
                        if x != j as int {
                            assert(os.slot_record_ok(x));
                            os.lemma_entry_carry(ns, x, x);
                        }
                    }
                    assert(j < os.logs@.len() <= i);
                    assert forall|s: int| ns.disk@.dom().contains(s) <==> (0 <= s < fv.len()
                        && np[s]) by {
                        if s == i as int {
                            assert(!ns.disk@.dom().contains(s));
                            assert(np[s] == false);
                        } else if s == j as int {
                            assert(ns.disk@.dom().contains(s));
                            assert(np[s] == old(present)@[s]);
                            assert(old(present)@[s]);
                        } else {
                            assert(ns.disk@.dom().contains(s) == os.disk@.dom().contains(s));
                            if 0 <= s < fv.len() {
                                assert(np[s] == old(present)@[s]);
                            }
                        }
                    }
                    assert(forall|s: int|
                        i as int + 1 <= s < fv.len() ==> np[s] && ns.disk@[s] == fv[s]);
                    ns.lemma_slot_of_key_unique(j as int);
                    ns.lemma_slot_value_is(j as int, v);
                    assert forall|k2: Seq<char>| #[trigger] ns@.dom().contains(k2) implies ns@[k2]
                        == os@.insert(k, v)[k2] by {
                        let x = ns.slot_of_key(k2);
                        assert(0 <= x < ns.logs@.len() && ns.logs@[x].key@ == k2);
                        ns.lemma_slot_of_key_unique(x);
                        os.lemma_slot_of_key_unique(x);
                        if k2 == k {
                            assert(x == j as int);
                            assert(ns.entry_value(x) == v);
                        } else {
                            assert(x != j as int);
                            assert(os.slot_record_ok(x));
                            os.lemma_entry_carry(ns, x, x);
                        }
                    }
                    assert forall|k2: Seq<char>| os@.insert(k, v).dom().contains(k2)
                        implies #[trigger] ns@.dom().contains(k2) by {
                        if k2 == k {
                            assert(ns.has_key(k2));
                        } else {
                            let x = os.slot_of_key(k2);
                            assert(ns.logs@[x].key@ == k2);
                        }
                    }
                    assert(ns@ =~= os@.insert(k, v));
                }
            },
            None => {
                // a new key: move this record's file to the first free slot
                let j = self.seek;
                proof {
                    self.lemma_has_key_dir(k);
                }
                if i != j {
                    proof {
                        lemma_apply_ops_push(
                            spec_initial_disk(fv),
                            ops@,
                            SlotOp::Rename { from: i, to: j },
                        );
                    }
                    ops.push(SlotOp::Rename { from: i, to: j });
                    self.disk = Ghost(
                        self.disk@.remove(i as int).insert(j as int, self.disk@[i as int]),
                    );
                    present.set(i, false);
                    present.set(j, true);
                } else {
                    proof {
                        assert(self.disk@.remove(i as int).insert(
                            j as int,
                            self.disk@[i as int],
                        ) =~= self.disk@);
                    }
                }
                self.dir.push(DirEntry { key: key.clone(), slot: j });
                self.logs.push(LogEntry { key: key, state: ValueState::OnDisk });
                self.seek = self.seek + 1;
                proof {
                    let ns = *self;
                    let np = present@;
                    let m = os.logs@.len() as int;
                    assert(ns.disk@[j as int] == spec_put_record(k, v));
                    assert(ns.dir_ok()) by {
                        assert(forall|x: int| 0 <= x < m ==> (#[trigger] ns.dir@[x]) == os.dir@[x]);
                        assert(forall|x: int|
                            0 <= x < m ==> (#[trigger] ns.logs@[x]) == os.logs@[x]);
                        assert forall|x: int, y: int|
                            0 <= x < y < ns.dir@.len() implies ns.dir@[x].key@
                            != ns.dir@[y].key@ by {
                            if y == m {
                                assert(os.dir@[x].key@ != k);
                            }
                        }
                        assert forall|s2: int| 0 <= s2 < ns.logs@.len() implies ns.dir_binds(
                            s2,
                        ) by {
                            if s2 < m {
                                assert(os.dir_binds(s2));
                                let a = choose|x: int|
                                    0 <= x < os.dir@.len() && (#[trigger] os.dir@[x]).slot == s2;
                                assert(ns.dir@[a].slot == s2);
                            } else {
                                assert(ns.dir@[m].slot == s2);
                            }
                        }
                    }
                    assert forall|x: int|
                        0 <= x < ns.logs@.len() implies (#[trigger] ns.slot_record_ok(x))
                        && ns.slot_cache_ok(x) by {
                        if x < m {
                            assert(os.slot_record_ok(x));
                            os.lemma_entry_carry(ns, x, x);
                        } else {
                            assert(ns.disk@[x] == spec_put_record(ns.logs@[x].key@, v));
                            assert(ns.slot_record_ok(x));
                        }
                    }
                    assert(j as int == m && m <= i);
                    assert forall|s: int| ns.disk@.dom().contains(s) <==> (0 <= s < fv.len()
                        && np[s]) by {
                        if i == j {
                            assert(np[s] == old(present)@[s]);
                            assert(ns.disk@.dom().contains(s) == os.disk@.dom().contains(s));
                        } else if s == i as int {
                            assert(!ns.disk@.dom().contains(s));
                            assert(np[s] == false);
                        } else if s == j as int {
                            assert(ns.disk@.dom().contains(s));
                            assert(np[s]);
                        } else {
                            assert(ns.disk@.dom().contains(s) == os.disk@.dom().contains(s));
                            if 0 <= s < fv.len() {
                                assert(np[s] == old(present)@[s]);
                            }
                        }
                    }
                    assert(forall|s: int|
                        i as int + 1 <= s < fv.len() ==> np[s] && ns.disk@[s] == fv[s]);
                    ns.lemma_log_keys_distinct();
                    ns.lemma_slot_of_key_unique(m);
                    ns.lemma_slot_value_is(m, v);
                    assert(ns.entry_value(m) == v);
                    assert forall|k2: Seq<char>| #[trigger] ns@.dom().contains(k2) implies ns@[k2]
                        == os@.insert(k, v)[k2] by {
                        let x = ns.slot_of_key(k2);
                        assert(0 <= x < ns.logs@.len() && ns.logs@[x].key@ == k2);
                        ns.lemma_slot_of_key_unique(x);
                        if k2 == k {
                            assert(x == m);
                        } else {
                            assert(x < m);
                            os.lemma_slot_of_key_unique(x);
                            assert(os.slot_record_ok(x));
                            os.lemma_entry_carry(ns, x, x);
                        }
                    }
                    assert forall|k2: Seq<char>| os@.insert(k, v).dom().contains(k2)
                        implies #[trigger] ns@.dom().contains(k2) by {
                        if k2 == k {
                            assert(ns.logs@[m].key@ == k2);
                        } else {
                            assert(os.has_key(k2));
                            let x = os.slot_of_key(k2);
                            assert(ns.logs@[x].key@ == k2);
                        }
                    }
                    assert(ns@ =~= os@.insert(k, v));
                }
            },
        }
    }

    /// Replays one record that unbinds `key`: the hole is filled from the
    /// current last slot, whose file — and any file this record leaves
    /// behind — becomes residue above the count, swept after the replay.
    #[verifier::rlimit(100)]
    #[verifier::spinoff_prover]
    fn replay_remove(
        &mut self,
        present: &mut Vec<bool>,
        ops: &mut Vec<SlotOp>,
        key: String,
        i: usize,
        Ghost(fv): Ghost<Seq<Seq<char>>>,
    )
        requires
            old(self).recovering(old(present)@, i as int, fv, old(ops)@),
            (i as int) < fv.len(),
        ensures
            final(self).recovering(final(present)@, i as int + 1, fv, final(ops)@),
            final(self)@ == old(self)@.remove(key@),
    {
        proof {
            old(self).lemma_log_keys_distinct();
        }
        let ghost os = *old(self);
        let ghost k = key@;
        match self.find_dir(key.as_str()) {
            None => {
                // no binding: the record's own file stays behind as residue
                proof {
                    assert(!os@.dom().contains(k));
                    assert(os@.remove(k) =~= os@);
                }
            },
            Some(idx) => {
                let j = self.dir[idx].slot;
                proof {
                    assert(os.logs@[j as int].key@ == k);
                    os.lemma_slot_of_key_unique(j as int);
                }
                let last = self.logs.len() - 1;
                if j == last {
                    // the freed slot is the highest: its file becomes residue
                    let _ = self.logs.pop();
                    self.dir.remove(idx);
                    self.seek = self.seek - 1;
                    proof {
                        let ns = *self;
                        let m = os.logs@.len() as int;
                        assert(ns.logs@ =~= os.logs@.subrange(0, m - 1));
                        assert(ns.dir_ok()) by {
                            assert forall|s2: int| 0 <= s2 < ns.logs@.len() implies ns.dir_binds(
                                s2,
                            ) by {
                                assert(os.dir_binds(s2));
                                let a = choose|x: int|
                                    0 <= x < os.dir@.len() && (#[trigger] os.dir@[x]).slot == s2;
                                assert(a != idx);
                                if a < idx {
                                    assert(ns.dir@[a].slot == s2);
                                } else {
                                    assert(ns.dir@[a - 1].slot == s2);
                                }
                            }
                        }
                        assert forall|x: int|
                            0 <= x < ns.logs@.len() implies (#[trigger] ns.slot_record_ok(x))
                            && ns.slot_cache_ok(x) by {
                            assert(os.slot_record_ok(x));
                            os.lemma_entry_carry(ns, x, x);
                        }
                        assert forall|k2: Seq<char>| #[trigger] ns@.dom().contains(k2)
                            implies ns@[k2] == os@.remove(k)[k2] by {
                            let x = ns.slot_of_key(k2);
                            assert(0 <= x < ns.logs@.len() && ns.logs@[x].key@ == k2);
                            ns.lemma_slot_of_key_unique(x);
                            os.lemma_slot_of_key_unique(x);
                            assert(k2 != k);
                            assert(os.slot_record_ok(x));
                            os.lemma_entry_carry(ns, x, x);
                        }
                        assert forall|k2: Seq<char>| os@.remove(k).dom().contains(k2)
                            implies #[trigger] ns@.dom().contains(k2) by {
                            assert(os.has_key(k2) && k2 != k);
                            let x = os.slot_of_key(k2);
                            assert(os.logs@[x].key@ == k2);
                            assert(x != j as int);
                            assert(ns.logs@[x].key@ == k2);
                        }
                        assert(ns@ =~= os@.remove(k));
                        assert(forall|x: int|
                            0 <= x < ns.logs@.len() ==> (#[trigger] ns.logs@[x]).state
                                is OnDisk);
                    }
                } else {
                    // fill the hole from the current last slot
                    let idx2 = self.find_dir_slot(last);
                    proof {
                        assert(idx2 != idx);
                        lemma_apply_ops_push(
                            spec_initial_disk(fv),
                            ops@,
                            SlotOp::Rename { from: last, to: j },
                        );
                    }
                    ops.push(SlotOp::Rename { from: last, to: j });
                    let promoted = self.logs.pop().unwrap();
                    self.logs.set(j, promoted);
                    let pk = self.dir[idx2].key.clone();
                    self.dir.set(idx2, DirEntry { key: pk, slot: j });
                    self.dir.remove(idx);
                    self.seek = self.seek - 1;
                    self.disk = Ghost(
                        self.disk@.remove(last as int).insert(j as int, self.disk@[last as int]),
                    );
                    present.set(last, false);
                    proof {
                        let ns = *self;
                        let np = present@;
                        let m = os.logs@.len() as int;
                        let lk = os.logs@[m - 1].key@;
                        assert(os.dir@[idx2 as int].key@ == lk);
                        assert(lk != k);
                        assert(ns.logs@ =~= os.logs@.subrange(0, m - 1).update(
                            j as int,
                            os.logs@[m - 1],
                        ));
                        assert(ns.dir@ =~= os.dir@.update(
                            idx2 as int,
                            DirEntry { key: os.dir@[idx2 as int].key, slot: j },
                        ).remove(idx as int));
                        assert(forall|x: int|
                            0 <= x < m - 1 && x != j as int ==> (#[trigger] ns.logs@[x])
                                == os.logs@[x]);
                        assert(ns.logs@[j as int] == os.logs@[m - 1]);
                        assert(ns.dir_ok()) by {
                            assert forall|x: int, y: int|
                                0 <= x < y < ns.dir@.len() implies ns.dir@[x].key@
                                != ns.dir@[y].key@ by {
                                let x0 = if x < idx as int {
                                    x
                                } else {
                                    x + 1
                                };
                                let y0 = if y < idx as int {
                                    y
                                } else {
                                    y + 1
                                };
                                assert(ns.dir@[x].key@ == os.dir@[x0].key@);
                                assert(ns.dir@[y].key@ == os.dir@[y0].key@);
                            }
                            assert forall|x: int|
                                0 <= x < ns.dir@.len() implies (#[trigger] ns.dir@[x]).slot
                                < ns.logs@.len() && ns.logs@[ns.dir@[x].slot as int].key@
                                == ns.dir@[x].key@ by {
                                let x0 = if x < idx as int {
                                    x
                                } else {
                                    x + 1
                                };
                                if x0 == idx2 as int {
                                    assert(ns.dir@[x].slot == j);
                                    assert(ns.dir@[x].key@ == lk);
                                } else {
                                    assert(ns.dir@[x] == os.dir@[x0]);
                                    assert(os.dir@[x0].slot != m - 1);
                                    assert(os.dir@[x0].slot != j);
                                }
                            }
                            assert forall|s2: int| 0 <= s2 < ns.logs@.len() implies ns.dir_binds(
                                s2,
                            ) by {
                                if s2 == j as int {
                                    let a2 = if (idx2 as int) < idx as int {
                                        idx2 as int
                                    } else {
                                        idx2 as int - 1
                                    };
                                    assert(ns.dir@[a2].slot == s2);
                                } else {
                                    assert(os.dir_binds(s2));
                                    let a = choose|x: int|
                                        0 <= x < os.dir@.len() && (#[trigger] os.dir@[x]).slot
                                            == s2;
                                    assert(a != idx);
                                    assert(a != idx2);
                                    let a2 = if a < idx as int {
                                        a
                                    } else {
                                        a - 1
                                    };
                                    assert(ns.dir@[a2].slot == s2);
                                }
                            }
                        }
                        assert forall|x: int|
                            0 <= x < ns.logs@.len() implies (#[trigger] ns.slot_record_ok(x))
                            && ns.slot_cache_ok(x) by {
                            if x == j as int {
                                assert(os.slot_record_ok(m - 1));
                                os.lemma_entry_carry(ns, m - 1, x);
                            } else {
                                assert(os.slot_record_ok(x));
                                os.lemma_entry_carry(ns, x, x);
                            }
                        }
                        assert(j < m - 1 < i);
                        assert forall|s: int| ns.disk@.dom().contains(s) <==> (0 <= s < fv.len()
                            && np[s]) by {
                            if s == last as int {
                                assert(!ns.disk@.dom().contains(s));
                                assert(np[s] == false);
                            } else if s == j as int {
                                assert(ns.disk@.dom().contains(s));
                                assert(np[s] == old(present)@[s]);
                                assert(old(present)@[s]);
                            } else {
                                assert(ns.disk@.dom().contains(s) == os.disk@.dom().contains(s));
                                if 0 <= s < fv.len() {
                                    assert(np[s] == old(present)@[s]);
                                }
                            }
                        }
                        assert forall|s: int| i as int + 1 <= s < fv.len() implies #[trigger] np[s]
                            && ns.disk@[s] == fv[s] by {
                            assert(np[s] == old(present)@[s]);
                            assert(ns.disk@[s] == os.disk@[s]);
                            assert(old(present)@[s]);
                            assert(os.disk@[s] == fv[s]);
                        }
                        assert(forall|x: int|
                            0 <= x < ns.logs@.len() ==> (#[trigger] ns.logs@[x]).state
                                is OnDisk);
                        ns.lemma_log_keys_distinct();
                        assert forall|k2: Seq<char>| #[trigger] ns@.dom().contains(k2)
                            implies ns@[k2] == os@.remove(k)[k2] by {
                            let x = ns.slot_of_key(k2);
                            assert(0 <= x < ns.logs@.len() && ns.logs@[x].key@ == k2);
                            ns.lemma_slot_of_key_unique(x);
                            assert(k2 != k);
                            if x == j as int {
                                assert(k2 == lk);
                                os.lemma_slot_of_key_unique(m - 1);
                                assert(os.slot_record_ok(m - 1));
                                os.lemma_entry_carry(ns, m - 1, x);
                            } else {
                                os.lemma_slot_of_key_unique(x);
                                assert(os.slot_record_ok(x));
                                os.lemma_entry_carry(ns, x, x);
                            }
                        }
                        assert forall|k2: Seq<char>| os@.remove(k).dom().contains(k2)
                            implies #[trigger] ns@.dom().contains(k2) by {
                            assert(os.has_key(k2) && k2 != k);
                            let x = os.slot_of_key(k2);
                            assert(os.logs@[x].key@ == k2);
                            assert(x != j as int);
                            if x == m - 1 {
                                assert(ns.logs@[j as int].key@ == k2);
                            } else {
                                assert(ns.logs@[x].key@ == k2);
                            }
                        }
                        assert(ns@ =~= os@.remove(k));
                    }
                }
            },
        }
    }

    /// Recovers a store from the slot files found under the root: `files[i]`
    /// is the text of slot file `i`, for the contiguous run of files that
    /// exist.  The shell reads them in order, stopping at the first index
    /// with no file, and performs the returned operations in order; they
    /// leave the slot files exactly equal to the recovered store's disk
    /// model, which is canonical: files `[0, N)`, one per live key.
    ///
    /// Replaying binds keys in file order, later records overriding earlier
    /// ones; a remove record unbinds.  Duplicate keys reuse the first slot,
    /// holes left by removes are filled from the end, and leftover files
    /// above the final count — stragglers of an interrupted run — are
    /// deleted.  A file that does not decode fails with `Format`.
    pub fn open(files: Vec<String>) -> (r: Result<(KvStore, Vec<SlotOp>), KvsError>)
        ensures
            (match r {
                Ok(pair) => {
                    &&& spec_replay(files.deep_view()) == Some(pair.0@)
                    &&& pair.0.wf()
                    &&& pair.0.disk_model() == spec_apply_ops(
                        spec_initial_disk(files.deep_view()),
                        pair.1@,
                    )
                    &&& (forall|i: int|
                        0 <= i < pair.0.logs_view().len()
                            ==> (#[trigger] pair.0.logs_view()[i]).state is OnDisk)
                },
                Err(e) => {
                    &&& e == KvsError::Format
                    &&& spec_replay(files.deep_view()) is None
                },
            }),
    {
        let ghost fv = files.deep_view();
        let n = files.len();
        let mut st = KvStore {
            dir: Vec::new(),
            logs: Vec::new(),
            seek: 0,
            disk: Ghost(spec_initial_disk(fv)),
        };
        let mut ops: Vec<SlotOp> = Vec::new();
        let mut present: Vec<bool> = vec![true; n];
        proof {
            assert(fv.len() == n);
            assert(forall|k: int| 0 <= k < n ==> fv[k] == files@[k]@);
            assert(fv.subrange(0, 0) =~= Seq::<Seq<char>>::empty());
            assert(st@ =~= Map::<Seq<char>, Seq<char>>::empty());
        }
        let mut i: usize = 0;
        while i < n
            invariant
                n == files@.len(),
                fv == files.deep_view(),
                fv.len() == n,
                forall|k: int| 0 <= k < n ==> fv[k] == files@[k]@,
                st.recovering(present@, i as int, fv, ops@),
                i <= n,
                spec_replay(fv.subrange(0, i as int)) == Some(st@),
            decreases n - i,
        {
            proof {
                lemma_replay_step(fv, i as int);
                assert(fv[i as int] == files@[i as int]@);
            }
            let file = &files[i];
            match decode_record(file.as_str()) {
                None => {
                    proof {
                        lemma_replay_prefix_none(fv, i as int + 1);
                    }
                    return Err(KvsError::Format);
                },
                Some(rec) => {
                    proof {
                        lemma_decode_record_sound(fv[i as int]);
                    }
                    match rec {
                        Record::Put(key, _) => {
                            let ghost v = match spec_decode_record(fv[i as int]) {
                                Some(RecordModel::Put { key: k2, value: v2 }) => v2,
                                _ => Seq::<char>::empty(),
                            };
                            proof {
                                assert(fv[i as int] == spec_put_record(key@, v));
                            }
                            st.replay_put(&mut present, &mut ops, key, i, Ghost(fv), Ghost(v));
                        },
                        Record::Remove(key) => {
                            st.replay_remove(&mut present, &mut ops, key, i, Ghost(fv));
                        },
                    }
                },
            }
            i = i + 1;
        }
        // sweep the residual files above the final count
        proof {
            assert(fv.subrange(0, n as int) =~= fv);
        }
        let count = st.logs.len();
        proof {
            assert forall|s: int| #[trigger] st.disk@.dom().contains(s) == ((0 <= s
                < count as int) || (count as int <= s < n && present@[s])) by {
                assert(st.disk@.dom().contains(s) <==> (0 <= s < n && present@[s]));
                if 0 <= s < count as int {
                    assert(present@[s]);
                }
            }
        }
        let mut j = count;
        while j < n
            invariant
                fv.len() == n,
                count == st.logs@.len(),
                st.seek as int == st.logs@.len(),
                count <= j <= n,
                st.dir_ok(),
                st.slots_ok(),
                forall|k: int| 0 <= k < st.logs@.len() ==> (#[trigger] st.logs@[k]).state
                    is OnDisk,
                present@.len() == n,
                forall|s: int|
                    #[trigger] st.disk@.dom().contains(s) <==> ((0 <= s < count as int) || (j <= s
                        < n && present@[s])),
                forall|s: int| 0 <= s < st.logs@.len() ==> present@[s],
                spec_replay(fv) == Some(st@),
                st.disk@ == spec_apply_ops(spec_initial_disk(fv), ops@),
            decreases n - j,
        {
            let ghost os = st;
            if present[j] {
                proof {
                    lemma_apply_ops_push(spec_initial_disk(fv), ops@, SlotOp::Unlink { slot: j });
                }
                ops.push(SlotOp::Unlink { slot: j });
                st.disk = Ghost(st.disk@.remove(j as int));
                proof {
                    let ns = st;
                    os.lemma_dir_ok_preserved(ns);
                    assert forall|x: int|
                        0 <= x < ns.logs@.len() implies (#[trigger] ns.slot_record_ok(x))
                        && ns.slot_cache_ok(x) by {
                        assert(os.slot_record_ok(x));
                        os.lemma_entry_carry(ns, x, x);
                    }
                    assert forall|x: int|
                        0 <= x < ns.logs@.len() implies #[trigger] ns.entry_value(x)
                        == os.entry_value(x) by {
                        assert(os.slot_record_ok(x));
                        os.lemma_entry_carry(ns, x, x);
                    }
                    os.lemma_view_congruence(ns);
                    assert forall|s: int| #[trigger] ns.disk@.dom().contains(s) == ((0 <= s
                        < count as int) || (j as int + 1 <= s < n && present@[s])) by {
                        assert(os.disk@.dom().contains(s) <==> ((0 <= s < count as int) || (
                        j as int <= s < n && present@[s])));
                        if s != j as int {
                            assert(ns.disk@.dom().contains(s) == os.disk@.dom().contains(s));
                        } else {
                            assert(!ns.disk@.dom().contains(s));
                        }
                    }
                }
            } else {
                proof {
                    assert forall|s: int| #[trigger] st.disk@.dom().contains(s) == ((0 <= s
                        < count as int) || (j as int + 1 <= s < n && present@[s])) by {
                        assert(st.disk@.dom().contains(s) <==> ((0 <= s < count as int) || (
                        j as int <= s < n && present@[s])));
                        if s == j as int {
                            assert(!present@[s]);
                        }
                    }
                }
            }
            j = j + 1;
        }
        proof {
            assert forall|s: int| #[trigger] st.disk@.dom().contains(s) <==> 0 <= s
                < st.logs@.len() by {
                assert(st.disk@.dom().contains(s) <==> ((0 <= s < count as int) || (n as int <= s
                    < n as int && present@[s])));
            }
            assert(st.wf());
        }
        Ok((st, ops))
    }
}

impl KvStore {
    /// The keys of the live bindings, slot by slot.
    closed spec fn key_seq(self) -> Seq<Seq<char>> {
        Seq::new(self.logs@.len(), |i: int| self.logs@[i].key@)
    }

    /// The canonical slot files of a well-formed store: file `i` for each
    /// in-use slot `i`.
    pub closed spec fn canonical_files(self) -> Seq<Seq<char>> {
        Seq::new(self.logs@.len(), |i: int| self.disk@[i])
    }

    /// After every operation the slot files are exactly `{0, …, N−1}`,
    /// where `N` is the number of live keys.
    pub proof fn lemma_slots_contiguous(self)
        requires
            self.wf(),
        ensures
            forall|i: int| self.disk_model().dom().contains(i) <==> 0 <= i < self.slot_count(),
            self@.dom().finite(),
            self@.dom().len() == self.slot_count(),
    {
        self.lemma_log_keys_distinct();
        let ks = self.key_seq();
        assert(ks.no_duplicates());
        ks.unique_seq_to_set();
        vstd::seq_lib::seq_to_set_is_finite(ks);
        assert forall|k: Seq<char>| self@.dom().contains(k) == ks.to_set().contains(k) by {
            if self.has_key(k) {
                let i = self.slot_of_key(k);
                assert(ks[i] == k);
            }
            if ks.to_set().contains(k) {
                let i = choose|i: int| 0 <= i < ks.len() && ks[i] == k;
                assert(self.logs@[i].key@ == k);
            }
        }
        assert(self@.dom() =~= ks.to_set());
    }

    /// The bindings whose slot lies below `m`.
    closed spec fn view_prefix(self, m: int) -> Map<Seq<char>, Seq<char>> {
        Map::new(
            |k: Seq<char>| self.has_key(k) && self.slot_of_key(k) < m,
            |k: Seq<char>| self.entry_value(self.slot_of_key(k)),
        )
    }

    proof fn lemma_reopen_prefix(self, m: int)
        requires
            self.wf(),
            0 <= m <= self.logs_view().len(),
        ensures
            spec_replay(self.canonical_files().subrange(0, m)) == Some(self.view_prefix(m)),
        decreases m,
    {
        self.lemma_log_keys_distinct();
        let cf = self.canonical_files();
        if m == 0 {
            assert(cf.subrange(0, 0) =~= Seq::<Seq<char>>::empty());
            assert forall|k: Seq<char>| !(self.has_key(k) && #[trigger] self.slot_of_key(k)
                < 0) by {
                if self.has_key(k) {
                    assert(self.slot_of_key(k) >= 0);
                }
            }
            assert(self.view_prefix(0) =~= Map::<Seq<char>, Seq<char>>::empty());
        } else {
            self.lemma_reopen_prefix(m - 1);
            lemma_replay_step(cf, m - 1);
            let km = self.logs@[m - 1].key@;
            assert(self.slot_record_ok(m - 1));
            let vm = self.slot_value(m - 1);
            assert(self.disk@[m - 1] == spec_put_record(km, vm));
            assert(cf[m - 1] == self.disk@[m - 1]);
            lemma_decode_encode_record(RecordModel::Put { key: km, value: vm });
            assert(spec_decode_record(cf[m - 1]) == Some(
                RecordModel::Put { key: km, value: vm },
            ));
            self.lemma_slot_of_key_unique(m - 1);
            assert(self.entry_value(m - 1) == vm) by {
                match self.logs@[m - 1].state {
                    ValueState::Cached(v) => {
                        assert(self.slot_cache_ok(m - 1));
                        lemma_put_value_unique(km, vm, v@);
                    },
                    ValueState::OnDisk => {},
                }
            }
            assert forall|k: Seq<char>| self.view_prefix(m).dom().contains(k)
                == #[trigger] self.view_prefix(m - 1).insert(km, vm).dom().contains(k) by {
                if k == km {
                    assert(self.slot_of_key(k) == m - 1);
                }
            }
            assert forall|k: Seq<char>| #[trigger] self.view_prefix(m).dom().contains(k)
                implies self.view_prefix(m)[k] == self.view_prefix(m - 1).insert(km, vm)[k] by {
                if k == km {
                    assert(self.slot_of_key(k) == m - 1);
                }
            }
            assert(self.view_prefix(m) =~= self.view_prefix(m - 1).insert(km, vm));
        }
    }

    /// Closing a well-formed store and recovering from its canonical slot
    /// files yields exactly the same bindings: reopening loses nothing.
    pub proof fn lemma_reopen_preserves_view(self)
        requires
            self.wf(),
        ensures
            spec_replay(self.canonical_files()) == Some(self@),
    {
        let n = self.logs_view().len() as int;
        self.lemma_reopen_prefix(n);
        assert(self.canonical_files().subrange(0, n) =~= self.canonical_files());
        assert forall|k: Seq<char>| #[trigger] self@.dom().contains(k) implies self.view_prefix(
            n,
        ).dom().contains(k) && self@[k] == self.view_prefix(n)[k] by {
            let i = self.slot_of_key(k);
        }
        assert(self.view_prefix(n) =~= self@);
    }
}

/// What one mutation record does to the bindings: exactly what `set` and
/// `remove` ensure of a store's bindings.
pub open spec fn apply_mutation(m: Map<Seq<char>, Seq<char>>, rec: RecordModel) -> Map<
    Seq<char>,
    Seq<char>,
> {
    match rec {
        RecordModel::Put { key, value } => m.insert(key, value),
        RecordModel::Remove { key } => m.remove(key),
    }
}

/// The bindings after a sequence of mutations on an empty store.
pub open spec fn apply_mutations(recs: Seq<RecordModel>) -> Map<Seq<char>, Seq<char>>
    decreases recs.len(),
{
    if recs.len() == 0 {
        Map::<Seq<char>, Seq<char>>::empty()
    } else {
        apply_mutation(apply_mutations(recs.drop_last()), recs.last())
    }
}

/// Whether a mutation binds or unbinds `k`.
pub open spec fn mutates_key(rec: RecordModel, k: Seq<char>) -> bool {
    match rec {
        RecordModel::Put { key, .. } => key == k,
        RecordModel::Remove { key } => key == k,
    }
}

/// Whether the last mutation of `k` in `recs` bound it to `v`.
pub open spec fn last_mutation_binds(recs: Seq<RecordModel>, k: Seq<char>, v: Seq<char>) -> bool {
    exists|i: int|
        0 <= i < recs.len() && recs[i] == (RecordModel::Put { key: k, value: v }) && (forall|j: int|
            i < j < recs.len() ==> !mutates_key(#[trigger] recs[j], k))
}

/// After any sequence of mutations on one store, a key reads back `v`
/// exactly when its last mutation bound it to `v` and no later mutation
/// removed it.
pub proof fn lemma_get_reflects_last_mutation(recs: Seq<RecordModel>, k: Seq<char>, v: Seq<char>)
    ensures
        (apply_mutations(recs).contains_key(k) && apply_mutations(recs)[k] == v)
            <==> last_mutation_binds(recs, k, v),
    decreases recs.len(),
{
    if recs.len() == 0 {
    } else {
        let n = recs.len() as int;
        let prefix = recs.drop_last();
        let r = recs.last();
        lemma_get_reflects_last_mutation(prefix, k, v);
        if mutates_key(r, k) {
            match r {
                RecordModel::Put { key, value } => {
                    if value == v {
                        assert(recs[n - 1] == (RecordModel::Put { key: k, value: v }));
                        assert(last_mutation_binds(recs, k, v)) by {
                            assert(forall|j: int|
                                n - 1 < j < n ==> !mutates_key(#[trigger] recs[j], k));
                        }
                    } else {
                        if last_mutation_binds(recs, k, v) {
                            let i = choose|i: int|
                                0 <= i < n && recs[i] == (RecordModel::Put { key: k, value: v })
                                    && (forall|j: int|
                                    i < j < n ==> !mutates_key(#[trigger] recs[j], k));
                            assert(i < n - 1 ==> mutates_key(recs[n - 1], k));
                            assert(false);
                        }
                    }
                },
                RecordModel::Remove { key } => {
                    if last_mutation_binds(recs, k, v) {
                        let i = choose|i: int|
                            0 <= i < n && recs[i] == (RecordModel::Put { key: k, value: v }) && (
                            forall|j: int| i < j < n ==> !mutates_key(#[trigger] recs[j], k));
                        assert(i < n ==> mutates_key(recs[n - 1], k));
                        assert(false);
                    }
                },
            }
        } else {
            assert(apply_mutations(recs).contains_key(k) == apply_mutations(prefix).contains_key(k)
                && (apply_mutations(prefix).contains_key(k) ==> apply_mutations(recs)[k]
                == apply_mutations(prefix)[k]));
            if last_mutation_binds(prefix, k, v) {
                let i = choose|i: int|
                    0 <= i < n - 1 && prefix[i] == (RecordModel::Put { key: k, value: v }) && (
                    forall|j: int| i < j < n - 1 ==> !mutates_key(#[trigger] prefix[j], k));
                assert(prefix[i] == recs[i]);
                assert(last_mutation_binds(recs, k, v)) by {
                    assert forall|j: int| i < j < n implies !mutates_key(
                        #[trigger] recs[j],
                        k,
                    ) by {
                        if j < n - 1 {
                            assert(recs[j] == prefix[j]);
                        }
                    }
                }
            }
            if last_mutation_binds(recs, k, v) {
                let i = choose|i: int|
                    0 <= i < n && recs[i] == (RecordModel::Put { key: k, value: v }) && (forall|
                        j: int,
                    | i < j < n ==> !mutates_key(#[trigger] recs[j], k));
                assert(i != n - 1);
                assert(prefix[i] == recs[i]);
                assert(last_mutation_binds(prefix, k, v)) by {
                    assert forall|j: int| i < j < n - 1 implies !mutates_key(
                        #[trigger] prefix[j],
                        k,
                    ) by {
                        assert(prefix[j] == recs[j]);
                    }
                }
            }
        }
    }
}

impl KvStore {
    /// A leftover remove record just above the live slots — the straggler
    /// an interrupted run can leave behind — changes nothing on reopen:
    /// recovery yields the same bindings, and the sweep deletes the file.
    pub proof fn lemma_reopen_tolerates_straggler(self, rec: Seq<char>, k: Seq<char>)
        requires
            self.wf(),
            spec_decode_record(rec) == Some(RecordModel::Remove { key: k }),
            !self@.contains_key(k),
        ensures
            spec_replay(self.canonical_files().push(rec)) == Some(self@),
    {
        self.lemma_reopen_preserves_view();
        let cf = self.canonical_files();
        let n = cf.len() as int;
        lemma_replay_step(cf.push(rec), n);
        assert(cf.push(rec).subrange(0, n) =~= cf);
        assert(cf.push(rec)[n] == rec);
        assert(self@.remove(k) =~= self@);
    }
}

impl KvStore {
    /// Each in-use slot's file is exactly the record binding that slot's
    /// key to the key's current value, and the canonical files read them
    /// off slot by slot; with the mutators' entry clauses this pins the
    /// whole on-disk layout for callers.
    pub proof fn lemma_slot_files(self)
        requires
            self.wf(),
        ensures
            self.canonical_files().len() == self.slot_count(),
            forall|i: int|
                0 <= i < self.slot_count() ==> #[trigger] self.canonical_files()[i]
                    == self.disk_model()[i],
            forall|i: int|
                0 <= i < self.slot_count() ==> self@.contains_key(
                    (#[trigger] self.logs_view()[i]).key@,
                ),
            forall|i: int|
                0 <= i < self.slot_count() ==> #[trigger] self.disk_model()[i] == spec_put_record(
                    self.logs_view()[i].key@,
                    self@[self.logs_view()[i].key@],
                ),
    {
        self.lemma_log_keys_distinct();
        assert forall|i: int| 0 <= i < self.slot_count() implies self@.contains_key(
            (#[trigger] self.logs_view()[i]).key@,
        ) && self.disk_model()[i] == spec_put_record(
            self.logs_view()[i].key@,
            self@[self.logs_view()[i].key@],
        ) by {
            self.lemma_slot_of_key_unique(i);
            assert(self.slot_record_ok(i));
            let v = self.slot_value(i);
            assert(self.disk@[i] == spec_put_record(self.logs@[i].key@, v));
            assert(self.entry_value(i) == v) by {
                match self.logs@[i].state {
                    ValueState::Cached(c) => {
                        assert(self.slot_cache_ok(i));
                        lemma_put_value_unique(self.logs@[i].key@, v, c@);
                    },
                    ValueState::OnDisk => {},
                }
            }
            assert(self@[self.logs@[i].key@] == self.entry_value(i));
        }
    }
}

} // verus!
