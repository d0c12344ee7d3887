//! The uniform storage-engine interface, engine selection, and the archive
//! tag that marks which engine owns a root directory.

use vstd::prelude::*;

use crate::error::KvsError;
use crate::text::str_eq;

verus! {

/// The capability set every storage engine offers the server: lookup,
/// binding, and unbinding.  The shell implements it once over the native
/// store and its slot files, and once over the embedded alternative store.
pub trait KvsEngine {
    fn get(&mut self, key: &str) -> Result<Option<String>, KvsError>;

    fn set(&mut self, key: String, value: String) -> Result<(), KvsError>;

    fn remove(&mut self, key: &str) -> Result<(), KvsError>;
}

/// Which engine a server runs.
#[derive(PartialEq, Eq, Structural, Clone, Copy, Debug)]
pub enum EngineKind {
    /// The native log-structured engine.
    Kvs,
    /// The adapter over the embedded alternative store.
    Sled,
}

/// The archive tag of an engine kind: the exact text of the tag file under
/// the root directory.
pub open spec fn spec_engine_tag(kind: EngineKind) -> Seq<char> {
    match kind {
        EngineKind::Kvs => "kvs"@,
        EngineKind::Sled => "sled"@,
    }
}

/// The archive tag written for an engine kind.
pub fn engine_tag(kind: EngineKind) -> (s: &'static str)
    ensures
        s@ == spec_engine_tag(kind),
{
    match kind {
        EngineKind::Kvs => "kvs",
        EngineKind::Sled => "sled",
    }
}

/// Reads an engine name from the command line: exactly `kvs` or `sled`;
/// anything else is unsupported.
pub fn parse_engine_name(name: &str) -> (r: Option<EngineKind>)
    ensures
        r == Some(EngineKind::Kvs) <==> name@ == "kvs"@,
        r == Some(EngineKind::Sled) <==> name@ == "sled"@,
        r is None <==> (name@ != "kvs"@ && name@ != "sled"@),
{
    proof {
        reveal_strlit("kvs");
        reveal_strlit("sled");
        assert("kvs"@.len() == 3 && "sled"@.len() == 4);
    }
    if str_eq(name, "kvs") {
        Some(EngineKind::Kvs)
    } else if str_eq(name, "sled") {
        Some(EngineKind::Sled)
    } else {
        None
    }
}

/// The outcome of reconciling the archive tag file against the engine that
/// is opening the root directory.
#[derive(PartialEq, Eq, Structural, Clone, Copy, Debug)]
pub enum ArchiveCheck {
    /// The tag matches: the directory belongs to this engine.
    Matched,
    /// No tag file exists: the directory is fresh, and the shell writes the
    /// engine's own tag before going on.
    Missing,
    /// The tag names a different engine: opening fails with `BadArchive`.
    Mismatch,
}

/// Reconciles the text of the archive tag file — `None` where the file does
/// not exist — with the tag of the engine doing the open.
pub fn check_archive_tag(found: Option<&str>, expected: &str) -> (r: ArchiveCheck)
    ensures
        r == ArchiveCheck::Matched <==> (found matches Some(s) && s@ == expected@),
        r == ArchiveCheck::Missing <==> found is None,
        r == ArchiveCheck::Mismatch <==> (found matches Some(s) && s@ != expected@),
{
    match found {
        None => ArchiveCheck::Missing,
        Some(s) => {
            if str_eq(s, expected) {
                ArchiveCheck::Matched
            } else {
                ArchiveCheck::Mismatch
            }
        },
    }
}

/// The whole archive-tag step of an open, before any slot file is touched:
/// `found` is the text of the tag file under the root named `root`, `None`
/// where the file does not exist.  A matching tag proceeds with nothing to
/// do; a fresh directory proceeds once the shell writes the returned tag
/// text; a directory owned by another engine fails with `BadArchive`, and
/// nothing under the root may be read or changed after that.
pub fn reconcile_archive_tag(root: &str, found: Option<String>, kind: EngineKind) -> (r: Result<
    Option<&'static str>,
    KvsError,
>)
    ensures
        (match r {
            Ok(w) => match w {
                None => found matches Some(t) && t@ == spec_engine_tag(kind),
                Some(text) => found is None && text@ == spec_engine_tag(kind),
            },
            Err(e) => {
                &&& found matches Some(t) && t@ != spec_engine_tag(kind)
                &&& (e matches KvsError::BadArchive { path, should, tried } && path@ == root@
                    && should == found->Some_0 && tried@ == spec_engine_tag(kind))
            },
        }),
{
    let expected = engine_tag(kind);
    match found {
        None => Ok(Some(expected)),
        Some(t) => {
            if str_eq(t.as_str(), expected) {
                Ok(None)
            } else {
                Err(KvsError::BadArchive {
                    path: String::from_str(root),
                    should: t,
                    tried: String::from_str(expected),
                })
            }
        },
    }
}

/// The outcome of a remove over the engine interface, from whether the
/// store held a binding: removing an absent key is `NotFound`.  The
/// alternative engine's shell learns `removed` from the embedded store and
/// maps it here.
pub fn remove_outcome(removed: bool, key: &str) -> (r: Result<(), KvsError>)
    ensures
        removed <==> r is Ok,
        !removed ==> (r matches Err(KvsError::NotFound { key: k }) && k@ == key@),
{
    if removed {
        Ok(())
    } else {
        Err(KvsError::NotFound { key: String::from_str(key) })
    }
}

} // verus!
