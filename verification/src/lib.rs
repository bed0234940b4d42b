//! A minimal HTTP/1.0 and HTTP/1.1 server-side protocol engine.
//!
//! The crate parses request lines, headers and bodies from raw bytes,
//! dispatches the parsed request to an application-supplied [`Handler`],
//! and serializes the handler's [`Response`] back into wire bytes,
//! including keep-alive connection reuse.  Transport I/O is left to the
//! caller: the engine consumes byte chunks and says what to write back.

pub mod html;
pub mod http;
pub mod url;

use vstd::prelude::*;
use vstd::slice::slice_subrange;
use vstd::slice::slice_to_vec;
use vstd::utf8::decode_utf8;
use vstd::utf8::encode_utf8;
use vstd::utf8::valid_utf8;

use crate::http::Connection;
use crate::http::Header;
use crate::http::Method;
use crate::http::PostData;
use crate::http::Protocol;
use crate::http::connection_spec;
use crate::http::content_length_spec;
use crate::http::method_spec;
use crate::http::path_spec;
use crate::http::position_of;
use crate::http::protocol_spec;
use crate::url::decode_percent;
use crate::url::decode_spec;

verus! {

/// The application side of the engine: turns one parsed request into
/// one response.
pub trait Handler {
    fn handle(&self, req: &Request) -> Response;
}

/// One parsed request, handed read-only to the handler: the raw
/// header lines, the acquired body, and the peer's address as text.
pub struct Request {
    pub peer_addr: Option<String>,
    pub header: Header,
    pub post_data: PostData,
}

impl Request {
    pub fn peer_addr(&self) -> (r: Option<&String>)
        ensures
            r matches Some(a) ==> self.peer_addr matches Some(b) && a == b,
            r is None <==> self.peer_addr is None,
    {
        match &self.peer_addr {
            Some(a) => Some(a),
            None => None,
        }
    }

    pub fn protocol(&self) -> (r: Option<Protocol>)
        ensures
            r == protocol_spec(self.header@),
    {
        self.header.protocol()
    }

    pub fn method(&self) -> (r: Option<Method>)
        ensures
            r == method_spec(self.header@),
    {
        self.header.method()
    }

    pub fn path(&self) -> (r: Option<&[u8]>)
        ensures
            r matches Some(p) ==> path_spec(self.header@) == Some(p@),
            r is None ==> path_spec(self.header@) is None,
    {
        self.header.path()
    }

    pub fn connection(&self) -> (r: Option<Connection>)
        ensures
            r == connection_spec(self.header@),
    {
        self.header.connection()
    }

    pub fn content_length(&self) -> (r: Option<usize>)
        ensures
            r is Some <==> content_length_spec(self.header@) is Some,
            r matches Some(n) ==> {
                let d = content_length_spec(self.header@).unwrap();
                (d <= usize::MAX ==> n == d) && (d > usize::MAX ==> n == usize::MAX)
            },
    {
        self.header.content_length()
    }

    pub fn post_data(&self) -> (r: Option<&Vec<u8>>)
        ensures
            r matches Some(v) ==> self.post_data.bytes() == Some(v@),
            r is None <==> self.post_data.bytes() is None,
    {
        match &self.post_data {
            PostData::Absent => None,
            PostData::Buf(v) => Some(v),
            PostData::Owned(v) => Some(v),
        }
    }

    pub fn header(&self) -> (r: &Header)
        ensures
            r == &self.header,
    {
        &self.header
    }

    /// The query parameters: everything after the first `?` of the
    /// path, or an empty cursor when path or `?` is absent.
    pub fn get_params(&self) -> (r: Params)
        ensures
            match path_spec(self.header@) {
                Some(p) => match p.index_of_first(63u8) {
                    Some(pos) => r.query matches Some(q) && q@ == p.subrange(
                        pos + 1,
                        p.len() as int,
                    ),
                    None => r.query is None,
                },
                None => r.query is None,
            },
    {
        if let Some(path) = self.header.path() {
            let n = path.len();
            if let Some(pos) = position_of(path, 63) {
                proof {
                    path@.index_of_first_ensures(63u8);
                }
                let rest = slice_subrange(path, pos + 1, n);
                return Params { query: Some(slice_to_vec(rest)) };
            }
        }
        Params { query: None }
    }

    /// The form parameters: a cursor over the body bytes, if any.
    pub fn post_params(&self) -> (r: Params)
        ensures
            self.post_data.bytes() matches Some(b) ==> r.query matches Some(q) && q@ == b,
            self.post_data.bytes() is None ==> r.query is None,
    {
        match self.post_data() {
            Some(v) => Params { query: Some(slice_to_vec(v.as_slice())) },
            None => Params { query: None },
        }
    }
}

/// What a handler returns: optional body bytes, a status code, and
/// the connection directive for the serialized reply.
pub struct Response {
    pub content: Option<Vec<u8>>,
    pub connection: Connection,
    pub status: u32,
}

impl Response {
    /// A `200` response that closes the connection.
    pub fn new(contents: Option<Vec<u8>>) -> (r: Response)
        ensures
            r.content == contents,
            r.connection == Connection::Close,
            r.status == 200,
    {
        Response { content: contents, connection: Connection::Close, status: 200 }
    }

    pub fn connection(&self) -> (c: Connection)
        ensures
            c == self.connection,
    {
        self.connection
    }

    /// A `200` response whose body is the UTF-8 bytes of `contents`.
    pub fn from_str(contents: &str) -> (r: Response)
        ensures
            r.content matches Some(b) && b@ == encode_utf8(contents@),
            r.connection == Connection::Close,
            r.status == 200,
    {
        Response::new(Some(slice_to_vec(contents.as_bytes())))
    }

    /// A `200` response whose body is the UTF-8 bytes of `contents`.
    pub fn from_string(contents: String) -> (r: Response)
        ensures
            r.content matches Some(b) && b@ == encode_utf8(contents@),
            r.connection == Connection::Close,
            r.status == 200,
    {
        Response::new(Some(slice_to_vec(contents.as_str().as_bytes())))
    }
}

/// The characters of `b` decoded as UTF-8, or nothing when the bytes
/// are not valid UTF-8.
pub open spec fn utf8_or_empty(b: Seq<u8>) -> Seq<char> {
    if valid_utf8(b) {
        decode_utf8(b)
    } else {
        Seq::empty()
    }
}

/// Relies on `std::str::from_utf8`: it returns `Ok` exactly when the
/// bytes are valid UTF-8, and the resulting text is their decoding.
#[verifier::external_body]
fn bytes_to_string(v: &[u8]) -> (r: Option<String>)
    ensures
        r is Some <==> valid_utf8(v@),
        r matches Some(s) ==> s@ == decode_utf8(v@),
{
    match std::str::from_utf8(v) {
        Ok(s) => Some(s.to_owned()),
        Err(_) => None,
    }
}

/// The name half of a parameter segment: the percent-decoded bytes
/// before the first `=`, as text; empty when `=` is absent or the
/// decoding is not valid UTF-8.
pub open spec fn param_name_spec(q: Seq<u8>) -> Seq<char> {
    match q.index_of_first(61u8) {
        Some(p) => utf8_or_empty(decode_spec(q.subrange(0, p))),
        None => Seq::empty(),
    }
}

/// The value half of a parameter segment: the percent-decoded bytes
/// after the first `=`, or the whole segment when `=` is absent;
/// empty when the decoding is not valid UTF-8.
pub open spec fn param_value_spec(q: Seq<u8>) -> Seq<char> {
    match q.index_of_first(61u8) {
        Some(p) => utf8_or_empty(decode_spec(q.subrange(p + 1, q.len() as int))),
        None => utf8_or_empty(decode_spec(q)),
    }
}

/// One `key=value` or bare-value segment of a query string or form
/// body; name and value percent-decode on demand.
pub struct Param {
    pub query: Vec<u8>,
}

impl Param {
    pub fn name(&self) -> (r: String)
        ensures
            r@ == param_name_spec(self.query@),
    {
        match position_of(self.query.as_slice(), 61) {
            Some(pos) => {
                proof {
                    self.query@.index_of_first_ensures(61u8);
                }
                let part = slice_subrange(self.query.as_slice(), 0, pos);
                let decoded = decode_percent(part);
                match bytes_to_string(decoded.as_slice()) {
                    Some(s) => s,
                    None => String::new(),
                }
            },
            None => String::new(),
        }
    }

    pub fn value(&self) -> (r: String)
        ensures
            r@ == param_value_spec(self.query@),
    {
        let n = self.query.len();
        let part = match position_of(self.query.as_slice(), 61) {
            Some(pos) => {
                proof {
                    self.query@.index_of_first_ensures(61u8);
                }
                slice_subrange(self.query.as_slice(), pos + 1, n)
            },
            None => self.query.as_slice(),
        };
        let decoded = decode_percent(part);
        match bytes_to_string(decoded.as_slice()) {
            Some(s) => s,
            None => String::new(),
        }
    }
}

/// A single-pass cursor over `&`-delimited segments; each call to
/// `next` consumes one segment irreversibly.
pub struct Params {
    pub query: Option<Vec<u8>>,
}

impl Params {
    /// The segment before the first `&`, advancing past it; the final
    /// segment exhausts the cursor.
    pub fn next(&mut self) -> (r: Option<Param>)
        ensures
            old(self).query is None ==> r is None && final(self).query is None,
            old(self).query matches Some(q) ==> match q@.index_of_first(38u8) {
                Some(pos) => r matches Some(p) && p.query@ == q@.subrange(0, pos)
                    && (final(self).query matches Some(rest)
                    && rest@ == q@.subrange(pos + 1, q@.len() as int)),
                None => r matches Some(p) && p.query@ == q@ && final(self).query is None,
            },
    {
        match self.query.take() {
            Some(q) => {
                let n = q.len();
                match position_of(q.as_slice(), 38) {
                    Some(pos) => {
                        proof {
                            q@.index_of_first_ensures(38u8);
                        }
                        let head = slice_subrange(q.as_slice(), 0, pos);
                        let rest = slice_subrange(q.as_slice(), pos + 1, n);
                        self.query = Some(slice_to_vec(rest));
                        Some(Param { query: slice_to_vec(head) })
                    },
                    None => Some(Param { query: q }),
                }
            },
            None => None,
        }
    }
}

} // verus!
