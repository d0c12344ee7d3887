//! A persistent key/value store with a log-structured native engine and a
//! text wire protocol.
//!
//! Keys and values are arbitrary strings.  The native engine keeps its state
//! in numbered slot files under a root directory, one record per slot,
//! always forming the contiguous range `[0, N)` for `N` live keys.  The
//! verified core works on plain values; the file system and the network are
//! driven by a thin unverified shell that performs the slot operations and
//! the one-shot TCP exchanges this library prescribes.

pub mod client;
pub mod codec;
pub mod decimal;
pub mod engine;
pub mod error;
pub mod server;
pub mod store;
pub mod text;

pub use client::KvsClient;
pub use codec::Record;
pub use codec::Request;
pub use codec::Response;
pub use engine::ArchiveCheck;
pub use engine::EngineKind;
pub use engine::KvsEngine;
pub use error::KvsError;
pub use server::KvsServer;
pub use store::GetStep;
pub use store::KvStore;
pub use store::SlotOp;
