//! The client stub.
//!
//! A client holds only the server's address.  Each operation is a one-shot
//! exchange: the shell opens a fresh connection, writes the request text
//! that `get`, `set` or `remove` builds, half-closes its write side, reads
//! the whole reply, and hands it to the matching `read_*_reply`, which
//! decodes it and surfaces a `Failed` reply as a `Remote` error.

use vstd::prelude::*;

use crate::codec::decode_response;
use crate::codec::encode_request;
use crate::codec::spec_decode_response;
use crate::codec::spec_encode_request;
use crate::codec::Request;
use crate::codec::RequestModel;
use crate::codec::Response;
use crate::codec::ResponseModel;
use crate::error::KvsError;

verus! {

/// A handle on one server: its address, and nothing else.  No socket is
/// kept; every request opens a new connection.
pub struct KvsClient {
    address: String,
}

impl KvsClient {
    /// The address every exchange connects to.
    pub closed spec fn address_view(self) -> Seq<char> {
        self.address@
    }

    /// Records the server's address.  Nothing is sent yet: each operation
    /// connects on its own.
    pub fn connect(address: String) -> (r: Result<KvsClient, KvsError>)
        ensures
            r matches Ok(c) && c.address_view() == address@,
    {
        Ok(KvsClient { address })
    }

    /// The address to open each connection to.
    pub fn address(&self) -> (a: &String)
        ensures
            a@ == self.address_view(),
    {
        &self.address
    }

    /// The request text for a get of `key`; the reply goes to
    /// `read_get_reply`.
    pub fn get(&self, key: &str) -> (msg: String)
        ensures
            msg@ == spec_encode_request(RequestModel::Get { key: key@ }),
    {
        encode_request(&Request::Get(String::from_str(key)))
    }

    /// The request text binding `key` to `value`; the reply goes to
    /// `read_set_reply`.
    pub fn set(&self, key: String, value: String) -> (msg: String)
        ensures
            msg@ == spec_encode_request(RequestModel::Put { key: key@, value: value@ }),
    {
        encode_request(&Request::Put(key, value))
    }

    /// The request text unbinding `key`; the reply goes to
    /// `read_remove_reply`.
    pub fn remove(&self, key: &str) -> (msg: String)
        ensures
            msg@ == spec_encode_request(RequestModel::Remove { key: key@ }),
    {
        encode_request(&Request::Remove(String::from_str(key)))
    }

    /// Reads the reply to a get: the value or its absence on success, a
    /// `Remote` error carrying the server's message on a reported failure,
    /// and `Format` where the reply does not decode.
    pub fn read_get_reply(reply: &str) -> (r: Result<Option<String>, KvsError>)
        ensures
            (match spec_decode_response(reply@) {
                Some(rm) => match rm {
                    ResponseModel::Done { value } => match (r, value) {
                        (Ok(opt), v) => match (opt, v) {
                            (Some(s), Some(vs)) => s@ == vs,
                            (None, None) => true,
                            _ => false,
                        },
                        _ => false,
                    },
                    ResponseModel::Failed { message } => r matches Err(KvsError::Remote {
                        message: m,
                    }) && m@ == message,
                },
                None => r == Err::<Option<String>, KvsError>(KvsError::Format),
            }),
    {
        match decode_response(reply) {
            None => Err(KvsError::Format),
            Some(Response::Done(v)) => Ok(v),
            Some(Response::Failed(m)) => Err(KvsError::Remote { message: m }),
        }
    }

    /// Reads the reply to a set: success, or the server's failure as a
    /// `Remote` error; `Format` where the reply does not decode.
    pub fn read_set_reply(reply: &str) -> (r: Result<(), KvsError>)
        ensures
            (match spec_decode_response(reply@) {
                Some(rm) => match rm {
                    ResponseModel::Done { .. } => r is Ok,
                    ResponseModel::Failed { message } => r matches Err(KvsError::Remote {
                        message: m,
                    }) && m@ == message,
                },
                None => r == Err::<(), KvsError>(KvsError::Format),
            }),
    {
        match decode_response(reply) {
            None => Err(KvsError::Format),
            Some(Response::Done(_)) => Ok(()),
            Some(Response::Failed(m)) => Err(KvsError::Remote { message: m }),
        }
    }

    /// Reads the reply to a remove, exactly as `read_set_reply` does.  A
    /// remove of an absent key comes back as a `Remote` error carrying the
    /// server's not-found message.
    pub fn read_remove_reply(reply: &str) -> (r: Result<(), KvsError>)
        ensures
            (match spec_decode_response(reply@) {
                Some(rm) => match rm {
                    ResponseModel::Done { .. } => r is Ok,
                    ResponseModel::Failed { message } => r matches Err(KvsError::Remote {
                        message: m,
                    }) && m@ == message,
                },
                None => r == Err::<(), KvsError>(KvsError::Format),
            }),
    {
        match decode_response(reply) {
            None => Err(KvsError::Format),
            Some(Response::Done(_)) => Ok(()),
            Some(Response::Failed(m)) => Err(KvsError::Remote { message: m }),
        }
    }
}

} // verus!
