//! The per-connection server logic.
//!
//! The shell accepts one TCP connection at a time, reads the whole request
//! text — the client half-closes its write side to mark the end — and hands
//! it to `serve`, which decodes it, dispatches to the engine, and yields the
//! reply text for the shell to write back.  An engine failure becomes a
//! `Failed` reply carrying the error's text; a request that does not decode
//! is an error to the shell, which logs it and closes the connection without
//! replying.

use vstd::prelude::*;

use crate::codec::decode_request;
use crate::codec::encode_response;
use crate::codec::spec_decode_request;
use crate::codec::spec_encode_response;
use crate::codec::Request;
use crate::codec::RequestModel;
use crate::codec::Response;
use crate::codec::ResponseModel;
use crate::engine::KvsEngine;
use crate::error::KvsError;

verus! {

/// Whether `resp` is a reply the protocol allows for `req`: a failure
/// report, or a success that carries a value only for a get.
pub open spec fn reply_allowed(req: RequestModel, resp: ResponseModel) -> bool {
    match resp {
        ResponseModel::Failed { .. } => true,
        ResponseModel::Done { value } => match req {
            RequestModel::Get { .. } => true,
            _ => value is None,
        },
    }
}

/// The reply to a get, for each outcome of the engine call: the value or
/// its absence on success, the error's text on failure.
pub fn get_response(r: Result<Option<String>, KvsError>) -> (resp: Response)
    ensures
        (match r {
            Ok(v) => resp == Response::Done(v),
            Err(e) => resp matches Response::Failed(m) && m@ == e.spec_message(),
        }),
{
    match r {
        Ok(v) => Response::Done(v),
        Err(e) => Response::Failed(e.message()),
    }
}

/// The reply to a set or a remove, for each outcome of the engine call:
/// success carries no value, failure carries the error's text.
pub fn update_response(r: Result<(), KvsError>) -> (resp: Response)
    ensures
        (match r {
            Ok(u) => resp == Response::Done(None),
            Err(e) => resp matches Response::Failed(m) && m@ == e.spec_message(),
        }),
{
    match r {
        Ok(u) => Response::Done(None),
        Err(e) => Response::Failed(e.message()),
    }
}

/// A server: one engine, serving one decoded request at a time.
pub struct KvsServer<T> {
    engine: T,
}

impl<T: KvsEngine> KvsServer<T> {
    /// Wraps an engine; the server holds it for its lifetime.
    pub fn new(engine: T) -> (s: KvsServer<T>)
        ensures
            s.engine_view() == engine,
    {
        KvsServer { engine }
    }

    /// The engine the server dispatches to.
    pub closed spec fn engine_view(self) -> T {
        self.engine
    }

    /// Serves one request: decodes `request_text`, dispatches to the
    /// engine, and returns the encoded reply for the shell to send.  A
    /// request that does not decode is a `Format` error and gets no reply.
    ///
    /// Which reply comes back depends on the engine, whose interface
    /// promises nothing; what each engine outcome turns into is pinned by
    /// `get_response` and `update_response`, which this body goes through.
    pub fn serve(&mut self, request_text: &str) -> (r: Result<String, KvsError>)
        ensures
            (r matches Err(e) ==> spec_decode_request(request_text@) is None && e
                == KvsError::Format && final(self).engine_view() == old(self).engine_view()),
            (r matches Ok(reply) ==> spec_decode_request(request_text@) matches Some(req)
                && (exists|rm: ResponseModel|
                reply@ == spec_encode_response(rm) && #[trigger] reply_allowed(req, rm))),
    {
        match decode_request(request_text) {
            None => Err(KvsError::Format),
            Some(req) => {
                let ghost req_m = req@;
                let resp = match req {
                    Request::Get(k) => get_response(self.engine.get(k.as_str())),
                    Request::Put(k, v) => update_response(self.engine.set(k, v)),
                    Request::Remove(k) => update_response(self.engine.remove(k.as_str())),
                };
                let text = encode_response(&resp);
                proof {
                    assert(text@ == spec_encode_response(resp@) && reply_allowed(req_m, resp@));
                }
                Ok(text)
            },
        }
    }
}

} // verus!
