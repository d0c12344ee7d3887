//! The error sum of the library.
//!
//! Every failure a store, client or server can report is one of these
//! variants.  `message` renders the text that a server sends in a `Failed`
//! response and that a shell prints; the not-found text is pinned exactly,
//! because the client side recognizes it.

use vstd::prelude::*;

verus! {

/// A failure of a store operation, of a wire exchange, or of the glue
/// around them.
#[derive(Debug, Clone, PartialEq, Eq)]
pub enum KvsError {
    /// An underlying file-system or network failure, reported by the shell.
    Io { message: String },
    /// A malformed encoded record or message.
    Format,
    /// A remove of an absent key.
    NotFound { key: String },
    /// The server reported a failure to the client.
    Remote { message: String },
    /// An unknown engine name was selected.
    UnsupportedEngine { name: String },
    /// The root directory belongs to a different engine.
    BadArchive { path: String, should: String, tried: String },
    /// A failure of the embedded store behind the alternative engine.
    Backend { message: String },
}

impl KvsError {
    /// The human-readable text of this error.
    pub open spec fn spec_message(&self) -> Seq<char> {
        match self {
            KvsError::Io { message } => "input/output error: "@ + message@,
            KvsError::Format => "malformed record"@,
            KvsError::NotFound { key } => "Key not found: "@ + key@,
            KvsError::Remote { message } => "remote error: "@ + message@,
            KvsError::UnsupportedEngine { name } => "unsupported engine: "@ + name@,
            KvsError::BadArchive { path, should, tried } => "directory "@ + path@
                + " belongs to engine "@ + should@ + ", not "@ + tried@,
            KvsError::Backend { message } => "backend error: "@ + message@,
        }
    }

    /// Renders the error text; a server puts it in a `Failed` response.
    pub fn message(&self) -> (r: String)
        ensures
            r@ == self.spec_message(),
    {
        match self {
            KvsError::Io { message } => {
                let mut s = String::from_str("input/output error: ");
                s.append(message.as_str());
                s
            },
            KvsError::Format => String::from_str("malformed record"),
            KvsError::NotFound { key } => {
                let mut s = String::from_str("Key not found: ");
                s.append(key.as_str());
                s
            },
            KvsError::Remote { message } => {
                let mut s = String::from_str("remote error: ");
                s.append(message.as_str());
                s
            },
            KvsError::UnsupportedEngine { name } => {
                let mut s = String::from_str("unsupported engine: ");
                s.append(name.as_str());
                s
            },
            KvsError::BadArchive { path, should, tried } => {
                let mut s = String::from_str("directory ");
                s.append(path.as_str());
                s.append(" belongs to engine ");
                s.append(should.as_str());
                s.append(", not ");
                s.append(tried.as_str());
                s
            },
            KvsError::Backend { message } => {
                let mut s = String::from_str("backend error: ");
                s.append(message.as_str());
                s
            },
        }
    }
}

} // verus!
