//! The wire protocol: the messages a client and server exchange, and
//! their binary encoding.
//!
//! Every message travels as a 4-byte big-endian length followed by
//! that many payload bytes — a different byte order from the log's
//! little-endian record framing, preserved bit-exact.  The payload
//! encoding reuses the tagged string fields of the record codec but
//! carries no integrity metadata; transport errors surface as opaque
//! strings in a response's failure arm.

use vstd::prelude::*;
use vstd::string::StringExecFns;

use crate::bytesutil::{spec_u32_to_be_bytes, u32_to_be_bytes};
use crate::codec::{
    encode_string_field, read_string_field, spec_encode_string, spec_parse_string,
    lemma_parse_string_encoding, TAG_KEY, TAG_VALUE,
};
use crate::error::KvsError;

verus! {

/// The message kind byte of a Get request.
pub const REQ_GET: u8 = 0x01;

/// The message kind byte of a Set request.
pub const REQ_SET: u8 = 0x02;

/// The message kind byte of a Remove request.
pub const REQ_REMOVE: u8 = 0x03;

/// The leading byte of a response's failure arm.
pub const RESP_FAILURE: u8 = 0x00;

/// The leading byte of a response's success arm.
pub const RESP_SUCCESS: u8 = 0x01;

/// A request from client to server.
#[derive(Debug, Clone, PartialEq)]
pub enum Request {
    /// Read a key.
    GetKey { key: String },
    /// Bind a key to a value.
    SetKey { key: String, value: String },
    /// Unbind a key.
    RemoveKey { key: String },
}

/// The reply to a Get: the value, if bound, or a server error.
#[derive(Debug, Clone, PartialEq)]
pub enum GetResponse {
    /// The key's value, or `None` when the key is absent.
    Success(Option<String>),
    /// A stringified server-side error.
    Failure(String),
}

/// The reply to a Set.
#[derive(Debug, Clone, PartialEq)]
pub enum SetResponse {
    /// The write took effect.
    Success,
    /// A stringified server-side error.
    Failure(String),
}

/// The reply to a Remove.
#[derive(Debug, Clone, PartialEq)]
pub enum RemoveResponse {
    /// The removal took effect.
    Success,
    /// A stringified server-side error.
    Failure(String),
}

/// The spec image of a request.
pub enum RequestView {
    /// Read a key.
    GetKey { key: Seq<char> },
    /// Bind a key to a value.
    SetKey { key: Seq<char>, value: Seq<char> },
    /// Unbind a key.
    RemoveKey { key: Seq<char> },
}

impl View for Request {
    type V = RequestView;

    open spec fn view(&self) -> RequestView {
        match self {
            Request::GetKey { key } => RequestView::GetKey { key: key@ },
            Request::SetKey { key, value } => RequestView::SetKey { key: key@, value: value@ },
            Request::RemoveKey { key } => RequestView::RemoveKey { key: key@ },
        }
    }
}

/// The encoding of a request: a kind byte, then its string fields.
pub open spec fn spec_encode_request(r: RequestView) -> Seq<u8> {
    match r {
        RequestView::GetKey { key } => seq![REQ_GET] + spec_encode_string(TAG_KEY, key),
        RequestView::SetKey { key, value } => seq![REQ_SET] + spec_encode_string(TAG_KEY, key)
            + spec_encode_string(TAG_VALUE, value),
        RequestView::RemoveKey { key } => seq![REQ_REMOVE] + spec_encode_string(TAG_KEY, key),
    }
}

/// Parses a request, consuming the payload exactly.
pub open spec fn spec_parse_request(b: Seq<u8>) -> Option<RequestView> {
    if b.len() < 1 {
        None
    } else if b[0] == REQ_GET {
        match spec_parse_string(b, 1, TAG_KEY) {
            Some((key, end)) => if end == b.len() {
                Some(RequestView::GetKey { key })
            } else {
                None
            },
            None => None,
        }
    } else if b[0] == REQ_SET {
        match spec_parse_string(b, 1, TAG_KEY) {
            Some((key, mid)) => match spec_parse_string(b, mid, TAG_VALUE) {
                Some((value, end)) => if end == b.len() {
                    Some(RequestView::SetKey { key, value })
                } else {
                    None
                },
                None => None,
            },
            None => None,
        }
    } else if b[0] == REQ_REMOVE {
        match spec_parse_string(b, 1, TAG_KEY) {
            Some((key, end)) => if end == b.len() {
                Some(RequestView::RemoveKey { key })
            } else {
                None
            },
            None => None,
        }
    } else {
        None
    }
}

/// Parsing a request's encoding yields the request back.
pub proof fn lemma_parse_request_encoding(r: RequestView)
    requires
        match r {
            RequestView::GetKey { key } => vstd::utf8::encode_utf8(key).len() <= u64::MAX,
            RequestView::SetKey { key, value } => vstd::utf8::encode_utf8(key).len() <= u64::MAX
                && vstd::utf8::encode_utf8(value).len() <= u64::MAX,
            RequestView::RemoveKey { key } => vstd::utf8::encode_utf8(key).len() <= u64::MAX,
        },
    ensures
        spec_parse_request(spec_encode_request(r)) == Some(r),
{
    let b = spec_encode_request(r);
    match r {
        RequestView::GetKey { key } => {
            let ek = spec_encode_string(TAG_KEY, key);
            assert(b.subrange(1, 1 + ek.len() as int) =~= ek);
            lemma_parse_string_encoding(b, 1, TAG_KEY, key);
        },
        RequestView::SetKey { key, value } => {
            let ek = spec_encode_string(TAG_KEY, key);
            let ev = spec_encode_string(TAG_VALUE, value);
            assert(b.subrange(1, 1 + ek.len() as int) =~= ek);
            lemma_parse_string_encoding(b, 1, TAG_KEY, key);
            let mid = 1 + ek.len() as int;
            assert(b.subrange(mid, mid + ev.len() as int) =~= ev);
            lemma_parse_string_encoding(b, mid, TAG_VALUE, value);
        },
        RequestView::RemoveKey { key } => {
            let ek = spec_encode_string(TAG_KEY, key);
            assert(b.subrange(1, 1 + ek.len() as int) =~= ek);
            lemma_parse_string_encoding(b, 1, TAG_KEY, key);
        },
    }
}

/// Encodes a request to payload bytes.
pub fn encode_request(r: &Request) -> (out: Vec<u8>)
    ensures
        out@ == spec_encode_request(r@),
{
    let mut out: Vec<u8> = Vec::new();
    match r {
        Request::GetKey { key } => {
            out.push(REQ_GET);
            encode_string_field(&mut out, TAG_KEY, key);
            assert(out@ =~= spec_encode_request(r@));
        },
        Request::SetKey { key, value } => {
            out.push(REQ_SET);
            encode_string_field(&mut out, TAG_KEY, key);
            encode_string_field(&mut out, TAG_VALUE, value);
            assert(out@ =~= spec_encode_request(r@));
        },
        Request::RemoveKey { key } => {
            out.push(REQ_REMOVE);
            encode_string_field(&mut out, TAG_KEY, key);
            assert(out@ =~= spec_encode_request(r@));
        },
    }
    out
}

/// Decodes a request from payload bytes.
pub fn decode_request(b: &Vec<u8>) -> (r: Result<Request, KvsError>)
    ensures
        match r {
            Ok(req) => spec_parse_request(b@) == Some(req@),
            Err(e) => spec_parse_request(b@) is None && e is Deserialize,
        },
{
    if b.len() < 1 {
        return Err(wire_error());
    }
    let kind = b[0];
    if kind == REQ_GET {
        let (key, end) = match read_string_field(b, 1, TAG_KEY) {
            Some(p) => p,
            None => {
                return Err(wire_error());
            },
        };
        if end != b.len() {
            return Err(wire_error());
        }
        Ok(Request::GetKey { key })
    } else if kind == REQ_SET {
        let (key, mid) = match read_string_field(b, 1, TAG_KEY) {
            Some(p) => p,
            None => {
                return Err(wire_error());
            },
        };
        let (value, end) = match read_string_field(b, mid, TAG_VALUE) {
            Some(p) => p,
            None => {
                return Err(wire_error());
            },
        };
        if end != b.len() {
            return Err(wire_error());
        }
        Ok(Request::SetKey { key, value })
    } else if kind == REQ_REMOVE {
        let (key, end) = match read_string_field(b, 1, TAG_KEY) {
            Some(p) => p,
            None => {
                return Err(wire_error());
            },
        };
        if end != b.len() {
            return Err(wire_error());
        }
        Ok(Request::RemoveKey { key })
    } else {
        Err(wire_error())
    }
}

/// The structural-decoding error every malformed message maps to.
fn wire_error() -> (e: KvsError)
    ensures
        e is Deserialize,
{
    KvsError::Deserialize(String::from_str("malformed wire message"))
}

/// The spec image of a Get response.
pub enum GetResponseView {
    /// The key's value, or `None` when the key is absent.
    Success(Option<Seq<char>>),
    /// A stringified server-side error.
    Failure(Seq<char>),
}

impl View for GetResponse {
    type V = GetResponseView;

    open spec fn view(&self) -> GetResponseView {
        match self {
            GetResponse::Success(None) => GetResponseView::Success(None),
            GetResponse::Success(Some(v)) => GetResponseView::Success(Some(v@)),
            GetResponse::Failure(m) => GetResponseView::Failure(m@),
        }
    }
}

/// The spec image of a Set or Remove response: success, or an error
/// message.
pub enum AckResponseView {
    /// The write took effect.
    Success,
    /// A stringified server-side error.
    Failure(Seq<char>),
}

impl View for SetResponse {
    type V = AckResponseView;

    open spec fn view(&self) -> AckResponseView {
        match self {
            SetResponse::Success => AckResponseView::Success,
            SetResponse::Failure(m) => AckResponseView::Failure(m@),
        }
    }
}

impl View for RemoveResponse {
    type V = AckResponseView;

    open spec fn view(&self) -> AckResponseView {
        match self {
            RemoveResponse::Success => AckResponseView::Success,
            RemoveResponse::Failure(m) => AckResponseView::Failure(m@),
        }
    }
}

/// The encoding of a Get response.
pub open spec fn spec_encode_get_response(r: GetResponseView) -> Seq<u8> {
    match r {
        GetResponseView::Success(None) => seq![RESP_SUCCESS, 0u8],
        GetResponseView::Success(Some(v)) => seq![RESP_SUCCESS, 1u8] + spec_encode_string(
            TAG_VALUE,
            v,
        ),
        GetResponseView::Failure(m) => seq![RESP_FAILURE] + spec_encode_string(TAG_VALUE, m),
    }
}

/// Parses a Get response, consuming the payload exactly.
pub open spec fn spec_parse_get_response(b: Seq<u8>) -> Option<GetResponseView> {
    if b.len() < 1 {
        None
    } else if b[0] == RESP_FAILURE {
        match spec_parse_string(b, 1, TAG_VALUE) {
            Some((m, end)) => if end == b.len() {
                Some(GetResponseView::Failure(m))
            } else {
                None
            },
            None => None,
        }
    } else if b[0] == RESP_SUCCESS && b.len() == 2 && b[1] == 0u8 {
        Some(GetResponseView::Success(None))
    } else if b[0] == RESP_SUCCESS && b.len() >= 2 && b[1] == 1u8 {
        match spec_parse_string(b, 2, TAG_VALUE) {
            Some((v, end)) => if end == b.len() {
                Some(GetResponseView::Success(Some(v)))
            } else {
                None
            },
            None => None,
        }
    } else {
        None
    }
}

/// The encoding of a Set or Remove response.
pub open spec fn spec_encode_ack_response(r: AckResponseView) -> Seq<u8> {
    match r {
        AckResponseView::Success => seq![RESP_SUCCESS],
        AckResponseView::Failure(m) => seq![RESP_FAILURE] + spec_encode_string(TAG_VALUE, m),
    }
}

/// Parses a Set or Remove response, consuming the payload exactly.
pub open spec fn spec_parse_ack_response(b: Seq<u8>) -> Option<AckResponseView> {
    if b.len() < 1 {
        None
    } else if b[0] == RESP_SUCCESS && b.len() == 1 {
        Some(AckResponseView::Success)
    } else if b[0] == RESP_FAILURE {
        match spec_parse_string(b, 1, TAG_VALUE) {
            Some((m, end)) => if end == b.len() {
                Some(AckResponseView::Failure(m))
            } else {
                None
            },
            None => None,
        }
    } else {
        None
    }
}

/// Parsing a Get response's encoding yields the response back.
pub proof fn lemma_parse_get_response_encoding(r: GetResponseView)
    requires
        match r {
            GetResponseView::Success(Some(v)) => vstd::utf8::encode_utf8(v).len() <= u64::MAX,
            GetResponseView::Failure(m) => vstd::utf8::encode_utf8(m).len() <= u64::MAX,
            GetResponseView::Success(None) => true,
        },
    ensures
        spec_parse_get_response(spec_encode_get_response(r)) == Some(r),
{
    let b = spec_encode_get_response(r);
    match r {
        GetResponseView::Success(None) => {},
        GetResponseView::Success(Some(v)) => {
            let ev = spec_encode_string(TAG_VALUE, v);
            assert(b.subrange(2, 2 + ev.len() as int) =~= ev);
            lemma_parse_string_encoding(b, 2, TAG_VALUE, v);
        },
        GetResponseView::Failure(m) => {
            let em = spec_encode_string(TAG_VALUE, m);
            assert(b.subrange(1, 1 + em.len() as int) =~= em);
            lemma_parse_string_encoding(b, 1, TAG_VALUE, m);
        },
    }
}

/// Parsing an acknowledgement's encoding yields the response back.
pub proof fn lemma_parse_ack_response_encoding(r: AckResponseView)
    requires
        match r {
            AckResponseView::Failure(m) => vstd::utf8::encode_utf8(m).len() <= u64::MAX,
            AckResponseView::Success => true,
        },
    ensures
        spec_parse_ack_response(spec_encode_ack_response(r)) == Some(r),
{
    let b = spec_encode_ack_response(r);
    match r {
        AckResponseView::Success => {},
        AckResponseView::Failure(m) => {
            let em = spec_encode_string(TAG_VALUE, m);
            assert(b.subrange(1, 1 + em.len() as int) =~= em);
            lemma_parse_string_encoding(b, 1, TAG_VALUE, m);
        },
    }
}

/// Encodes a Get response to payload bytes.
pub fn encode_get_response(r: &GetResponse) -> (out: Vec<u8>)
    ensures
        out@ == spec_encode_get_response(r@),
{
    let mut out: Vec<u8> = Vec::new();
    match r {
        GetResponse::Success(None) => {
            out.push(RESP_SUCCESS);
            out.push(0u8);
            assert(out@ =~= spec_encode_get_response(r@));
        },
        GetResponse::Success(Some(v)) => {
            out.push(RESP_SUCCESS);
            out.push(1u8);
            encode_string_field(&mut out, TAG_VALUE, v);
            assert(out@ =~= spec_encode_get_response(r@));
        },
        GetResponse::Failure(m) => {
            out.push(RESP_FAILURE);
            encode_string_field(&mut out, TAG_VALUE, m);
            assert(out@ =~= spec_encode_get_response(r@));
        },
    }
    out
}

/// Encodes a Set response to payload bytes.
pub fn encode_set_response(r: &SetResponse) -> (out: Vec<u8>)
    ensures
        out@ == spec_encode_ack_response(r@),
{
    let mut out: Vec<u8> = Vec::new();
    match r {
        SetResponse::Success => {
            out.push(RESP_SUCCESS);
            assert(out@ =~= spec_encode_ack_response(r@));
        },
        SetResponse::Failure(m) => {
            out.push(RESP_FAILURE);
            encode_string_field(&mut out, TAG_VALUE, m);
            assert(out@ =~= spec_encode_ack_response(r@));
        },
    }
    out
}

/// Encodes a Remove response to payload bytes.
pub fn encode_remove_response(r: &RemoveResponse) -> (out: Vec<u8>)
    ensures
        out@ == spec_encode_ack_response(r@),
{
    let mut out: Vec<u8> = Vec::new();
    match r {
        RemoveResponse::Success => {
            out.push(RESP_SUCCESS);
            assert(out@ =~= spec_encode_ack_response(r@));
        },
        RemoveResponse::Failure(m) => {
            out.push(RESP_FAILURE);
            encode_string_field(&mut out, TAG_VALUE, m);
            assert(out@ =~= spec_encode_ack_response(r@));
        },
    }
    out
}

/// Decodes a Get response from payload bytes.
pub fn decode_get_response(b: &Vec<u8>) -> (r: Result<GetResponse, KvsError>)
    ensures
        match r {
            Ok(resp) => spec_parse_get_response(b@) == Some(resp@),
            Err(e) => spec_parse_get_response(b@) is None && e is Deserialize,
        },
{
    if b.len() < 1 {
        return Err(wire_error());
    }
    let kind = b[0];
    if kind == RESP_FAILURE {
        let (m, end) = match read_string_field(b, 1, TAG_VALUE) {
            Some(p) => p,
            None => {
                return Err(wire_error());
            },
        };
        if end != b.len() {
            return Err(wire_error());
        }
        Ok(GetResponse::Failure(m))
    } else if kind == RESP_SUCCESS {
        if b.len() < 2 {
            return Err(wire_error());
        }
        let marker = b[1];
        if marker == 0u8 {
            if b.len() != 2 {
                return Err(wire_error());
            }
            Ok(GetResponse::Success(None))
        } else if marker == 1u8 {
            let (v, end) = match read_string_field(b, 2, TAG_VALUE) {
                Some(p) => p,
                None => {
                    return Err(wire_error());
                },
            };
            if end != b.len() {
                return Err(wire_error());
            }
            Ok(GetResponse::Success(Some(v)))
        } else {
            Err(wire_error())
        }
    } else {
        Err(wire_error())
    }
}

/// Decodes a Set response from payload bytes.
pub fn decode_set_response(b: &Vec<u8>) -> (r: Result<SetResponse, KvsError>)
    ensures
        match r {
            Ok(resp) => spec_parse_ack_response(b@) == Some(resp@),
            Err(e) => spec_parse_ack_response(b@) is None && e is Deserialize,
        },
{
    if b.len() < 1 {
        return Err(wire_error());
    }
    let kind = b[0];
    if kind == RESP_SUCCESS {
        if b.len() != 1 {
            return Err(wire_error());
        }
        Ok(SetResponse::Success)
    } else if kind == RESP_FAILURE {
        let (m, end) = match read_string_field(b, 1, TAG_VALUE) {
            Some(p) => p,
            None => {
                return Err(wire_error());
            },
        };
        if end != b.len() {
            return Err(wire_error());
        }
        Ok(SetResponse::Failure(m))
    } else {
        Err(wire_error())
    }
}

/// Decodes a Remove response from payload bytes.
pub fn decode_remove_response(b: &Vec<u8>) -> (r: Result<RemoveResponse, KvsError>)
    ensures
        match r {
            Ok(resp) => spec_parse_ack_response(b@) == Some(resp@),
            Err(e) => spec_parse_ack_response(b@) is None && e is Deserialize,
        },
{
    if b.len() < 1 {
        return Err(wire_error());
    }
    let kind = b[0];
    if kind == RESP_SUCCESS {
        if b.len() != 1 {
            return Err(wire_error());
        }
        Ok(RemoveResponse::Success)
    } else if kind == RESP_FAILURE {
        let (m, end) = match read_string_field(b, 1, TAG_VALUE) {
            Some(p) => p,
            None => {
                return Err(wire_error());
            },
        };
        if end != b.len() {
            return Err(wire_error());
        }
        Ok(RemoveResponse::Failure(m))
    } else {
        Err(wire_error())
    }
}

/// The big-endian frame a wire message travels in.
pub open spec fn spec_wire_frame(payload: Seq<u8>) -> Seq<u8> {
    spec_u32_to_be_bytes(payload.len() as u32) + payload
}

/// Frames a payload for the wire: a 4-byte big-endian length, then
/// the payload.  Refuses a payload longer than the prefix can carry.
pub fn wire_frame(payload: Vec<u8>) -> (r: Result<Vec<u8>, KvsError>)
    ensures
        match r {
            Ok(out) => payload@.len() <= u32::MAX && out@ == spec_wire_frame(payload@),
            Err(e) => payload@.len() > u32::MAX && e is StringError,
        },
{
    if payload.len() as u64 > u32::MAX as u64 {
        return Err(KvsError::StringError(String::from_str("message too long for the wire")));
    }
    let mut out = u32_to_be_bytes(payload.len() as u32);
    out.extend_from_slice(payload.as_slice());
    proof {
        assert(out@ =~= spec_wire_frame(payload@));
    }
    Ok(out)
}

/// Turns a Get response into the client-visible result: a failure arm
/// is lifted back into a local error.
pub fn interpret_get_response(resp: GetResponse) -> (r: Result<Option<String>, KvsError>)
    ensures
        match resp@ {
            GetResponseView::Success(None) => r matches Ok(v) && v is None,
            GetResponseView::Success(Some(v)) => r matches Ok(o) && o matches Some(s) && s@ == v,
            GetResponseView::Failure(m) => r matches Err(e) && e matches KvsError::StringError(s)
                && s@ == m,
        },
{
    match resp {
        GetResponse::Success(v) => Ok(v),
        GetResponse::Failure(m) => Err(KvsError::StringError(m)),
    }
}

/// Turns a Set response into the client-visible result.
pub fn interpret_set_response(resp: SetResponse) -> (r: Result<(), KvsError>)
    ensures
        match resp@ {
            AckResponseView::Success => r is Ok,
            AckResponseView::Failure(m) => r matches Err(e) && e matches KvsError::StringError(s)
                && s@ == m,
        },
{
    match resp {
        SetResponse::Success => Ok(()),
        SetResponse::Failure(m) => Err(KvsError::StringError(m)),
    }
}

/// Turns a Remove response into the client-visible result.
pub fn interpret_remove_response(resp: RemoveResponse) -> (r: Result<(), KvsError>)
    ensures
        match resp@ {
            AckResponseView::Success => r is Ok,
            AckResponseView::Failure(m) => r matches Err(e) && e matches KvsError::StringError(s)
                && s@ == m,
        },
{
    match resp {
        RemoveResponse::Success => Ok(()),
        RemoveResponse::Failure(m) => Err(KvsError::StringError(m)),
    }
}

} // verus!
