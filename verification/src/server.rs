//! The server: one engine behind the wire protocol.  The embedding
//! process accepts connections and shuttles framed messages; each
//! request payload is handled here, by one engine call, and answered
//! with a framed response of the matching kind.

use vstd::prelude::*;

use crate::engines::KvsEngine;
use crate::error::KvsError;
use crate::wire::{
    decode_request, encode_get_response, encode_remove_response, encode_set_response,
    spec_parse_ack_response, spec_parse_get_response, spec_parse_request, spec_wire_frame,
    wire_frame, GetResponse, RemoveResponse, Request, RequestView, SetResponse,
};

verus! {

/// A payload is a well-kinded answer to a request: a Get is answered
/// by a Get response, a Set or Remove by an acknowledgement.
pub open spec fn response_matches(req: RequestView, payload: Seq<u8>) -> bool {
    match req {
        RequestView::GetKey { .. } => spec_parse_get_response(payload) is Some,
        RequestView::SetKey { .. } => spec_parse_ack_response(payload) is Some,
        RequestView::RemoveKey { .. } => spec_parse_ack_response(payload) is Some,
    }
}

/// The server: an engine and nothing else.
pub struct KvsServer<E: KvsEngine> {
    engine: E,
}

/// Witnesses that a string's UTF-8 form fits in memory, which every
/// string that exists does.
fn string_fits(s: &String)
    ensures
        vstd::utf8::encode_utf8(s@).len() <= usize::MAX,
{
    let _n = s.as_str().as_bytes().len();
}

impl<E: KvsEngine> KvsServer<E> {
    /// The server is valid while its engine is.
    pub closed spec fn wf(self) -> bool {
        self.engine.inv()
    }

    /// Wraps an engine.
    pub fn new(engine: E) -> (r: KvsServer<E>)
        requires
            engine.inv(),
        ensures
            r.wf(),
    {
        KvsServer { engine }
    }

    /// Handles one request payload: decodes it, performs the matching
    /// engine operation, and returns the framed response.  An engine
    /// error is stringified into the response's failure arm; only an
    /// undecodable request, or a response too large to frame, is an
    /// error of this call, and such an error ends the connection, not
    /// the server.
    pub fn handle_request_bytes(&mut self, payload: &Vec<u8>) -> (r: Result<Vec<u8>, KvsError>)
        requires
            old(self).wf(),
        ensures
            final(self).wf(),
            match r {
                Ok(out) => {
                    &&& spec_parse_request(payload@) is Some
                    &&& out@.len() >= 4
                    &&& out@ == spec_wire_frame(out@.subrange(4, out@.len() as int))
                    &&& response_matches(
                        spec_parse_request(payload@)->Some_0,
                        out@.subrange(4, out@.len() as int),
                    )
                },
                Err(e) => (spec_parse_request(payload@) is None && e is Deserialize) || (
                spec_parse_request(payload@) is Some && e is StringError),
            },
    {
        let req = decode_request(payload)?;
        let response_bytes = match req {
            Request::GetKey { key } => {
                let resp = match self.engine.get(key) {
                    Ok(v) => GetResponse::Success(v),
                    Err(e) => GetResponse::Failure(e.to_message()),
                };
                match &resp {
                    GetResponse::Success(Some(v)) => string_fits(v),
                    GetResponse::Failure(m) => string_fits(m),
                    GetResponse::Success(None) => (),
                }
                let bytes = encode_get_response(&resp);
                proof {
                    crate::wire::lemma_parse_get_response_encoding(resp@);
                }
                bytes
            },
            Request::SetKey { key, value } => {
                let resp = match self.engine.set(key, value) {
                    Ok(_) => SetResponse::Success,
                    Err(e) => SetResponse::Failure(e.to_message()),
                };
                match &resp {
                    SetResponse::Failure(m) => string_fits(m),
                    SetResponse::Success => (),
                }
                let bytes = encode_set_response(&resp);
                proof {
                    crate::wire::lemma_parse_ack_response_encoding(resp@);
                }
                bytes
            },
            Request::RemoveKey { key } => {
                let resp = match self.engine.remove(key) {
                    Ok(_) => RemoveResponse::Success,
                    Err(e) => RemoveResponse::Failure(e.to_message()),
                };
                match &resp {
                    RemoveResponse::Failure(m) => string_fits(m),
                    RemoveResponse::Success => (),
                }
                let bytes = encode_remove_response(&resp);
                proof {
                    crate::wire::lemma_parse_ack_response_encoding(resp@);
                }
                bytes
            },
        };
        let ghost rb = response_bytes@;
        let framed = wire_frame(response_bytes)?;
        proof {
            assert(framed@.subrange(4, framed@.len() as int) =~= rb);
        }
        Ok(framed)
    }
}

} // verus!
