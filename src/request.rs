//! The request model, built from a framed head by decoding its fields as
//! UTF-8, and the lookup of header values.
use vstd::prelude::*;
use vstd::utf8::{
    decode_utf8, encode_utf8, encode_utf8_decode_utf8, encode_utf8_valid_utf8, is_ascii_chars,
    is_ascii_chars_encode_utf8, valid_utf8,
};
use crate::buffers::{bytes_as_slice, bytes_content, bytes_from_slice};
use crate::frame::{
    connect, copy_range, frame_spec, lemma_frame_complete, framing_recovers_fields, has_at, http11, is_plain_header,
    is_token, parse_frame, request_bytes, FrameModel, FrameParse, HeadModel, MalformedKind,
};

verus! {

/// A parsed HTTP/1.1 request.
#[derive(Debug)]
pub struct HTTPRequest {
    /// The method token, such as `GET` or `CONNECT`.
    pub method: String,
    /// The request target as it appeared on the wire.
    pub path: String,
    /// The protocol token.
    pub protocol: String,
    /// Header name and value pairs, in the order they were received.
    pub headers: Vec<(String, String)>,
    /// The bytes that followed the blank line ending the head.
    pub body: bytes::Bytes,
    /// Whether the start line began with `CONNECT`.
    pub is_tunnel: bool,
}

pub struct RequestModel {
    pub method: Seq<char>,
    pub path: Seq<char>,
    pub protocol: Seq<char>,
    pub headers: Seq<(Seq<char>, Seq<char>)>,
    pub body: Seq<u8>,
    pub is_tunnel: bool,
}

impl View for HTTPRequest {
    type V = RequestModel;

    open spec fn view(&self) -> RequestModel {
        RequestModel {
            method: self.method@,
            path: self.path@,
            protocol: self.protocol@,
            headers: self.headers@.map_values(|h: (String, String)| (h.0@, h.1@)),
            body: bytes_content(self.body),
            is_tunnel: self.is_tunnel,
        }
    }
}

pub enum ParseModel {
    Complete(RequestModel),
    Incomplete,
    Malformed(MalformedKind),
}

/// The outcome of parsing a buffer: a request, a request that needs more
/// bytes, or input that can never become a request.
#[derive(Debug)]
pub enum ParseOutcome {
    Complete(HTTPRequest),
    Incomplete,
    Malformed(MalformedKind),
}

impl View for ParseOutcome {
    type V = ParseModel;

    open spec fn view(&self) -> ParseModel {
        match self {
            ParseOutcome::Complete(r) => ParseModel::Complete(r@),
            ParseOutcome::Incomplete => ParseModel::Incomplete,
            ParseOutcome::Malformed(k) => ParseModel::Malformed(*k),
        }
    }
}

/// Every field of the head is valid UTF-8.
pub open spec fn head_is_utf8(h: HeadModel) -> bool {
    &&& valid_utf8(h.method)
    &&& valid_utf8(h.path)
    &&& valid_utf8(h.protocol)
    &&& forall|i: int|
        0 <= i < h.headers.len() ==> {
            let pair = #[trigger] h.headers[i];
            valid_utf8(pair.0) && valid_utf8(pair.1)
        }
}

pub open spec fn decode_headers(hs: Seq<(Seq<u8>, Seq<u8>)>) -> Seq<(Seq<char>, Seq<char>)> {
    hs.map_values(|h: (Seq<u8>, Seq<u8>)| (decode_utf8(h.0), decode_utf8(h.1)))
}

/// The request that buffer `s` holds: its framed head with every field
/// decoded as UTF-8, and the rest of the buffer as body.
pub open spec fn parse_spec(s: Seq<u8>) -> ParseModel {
    match frame_spec(s) {
        FrameModel::Incomplete => ParseModel::Incomplete,
        FrameModel::Malformed(k) => ParseModel::Malformed(k),
        FrameModel::Complete(h) => {
            if head_is_utf8(h) {
                ParseModel::Complete(
                    RequestModel {
                        method: decode_utf8(h.method),
                        path: decode_utf8(h.path),
                        protocol: decode_utf8(h.protocol),
                        headers: decode_headers(h.headers),
                        body: s.subrange(h.body_start, s.len() as int),
                        is_tunnel: h.is_tunnel,
                    },
                )
            } else {
                ParseModel::Malformed(MalformedKind::Utf8)
            }
        },
    }
}

/// The value of the first header named `key`.
pub open spec fn header_lookup(hs: Seq<(Seq<char>, Seq<char>)>, key: Seq<char>) -> Option<
    Seq<char>,
>
    decreases hs.len(),
{
    if hs.len() == 0 {
        None
    } else if hs[0].0 == key {
        Some(hs[0].1)
    } else {
        header_lookup(hs.drop_first(), key)
    }
}

/// Lookup follows a first-match policy: when the header at `i` is the first
/// one named `key`, its value is the result, whatever later headers of that
/// name hold.
pub proof fn lookup_takes_first_match(hs: Seq<(Seq<char>, Seq<char>)>, key: Seq<char>, i: int)
    requires
        0 <= i < hs.len(),
        hs[i].0 == key,
        forall|j: int| 0 <= j < i ==> (#[trigger] hs[j]).0 != key,
    ensures
        header_lookup(hs, key) == Some(hs[i].1),
    decreases i,
{
    if i > 0 {
        let rest = hs.drop_first();
        assert(hs[0].0 != key);
        assert forall|j: int| 0 <= j < i - 1 implies (#[trigger] rest[j]).0 != key by {
            assert(rest[j] == hs[j + 1]);
        }
        lookup_takes_first_match(rest, key, i - 1);
    }
}

/// Parsing is repeatable: two parses of one unchanged buffer give the same
/// outcome.
pub proof fn parse_is_repeatable(buf: bytes::Bytes, first: ParseOutcome, second: ParseOutcome)
    requires
        first@ == parse_spec(bytes_content(buf)),
        second@ == parse_spec(bytes_content(buf)),
    ensures
        first@ == second@,
{
}

/// A request that parsing yields has a non-empty method, target and
/// protocol.
pub open spec fn is_well_formed(m: RequestModel) -> bool {
    m.method.len() > 0 && m.path.len() > 0 && m.protocol.len() > 0
}

/// Every request that parsing yields is well formed; in particular its
/// protocol is never empty.
pub proof fn parsed_request_is_well_formed(s: Seq<u8>)
    ensures
        parse_spec(s) matches ParseModel::Complete(m) ==> is_well_formed(m),
{
    lemma_frame_complete(s);
    if let FrameModel::Complete(h) = frame_spec(s) {
        if head_is_utf8(h) {
            assert(decode_utf8(h.method).len() > 0);
            assert(decode_utf8(h.path).len() > 0);
            assert(decode_utf8(h.protocol).len() > 0);
        }
    }
}

/// The protocol token `HTTP/1.1` as characters.
pub open spec fn http11_chars() -> Seq<char> {
    seq!['H', 'T', 'T', 'P', '/', '1', '.', '1']
}

proof fn lemma_http11_decodes()
    ensures
        valid_utf8(http11()),
        decode_utf8(http11()) == http11_chars(),
{
    let c = http11_chars();
    assert(is_ascii_chars(c)) by {
        assert forall|i: int| 0 <= i < c.len() implies '\0' <= #[trigger] c[i] <= '\u{7f}' by {
            assert(c[i] == 'H' || c[i] == 'T' || c[i] == 'P' || c[i] == '/' || c[i] == '1' || c[i]
                == '.');
        }
    }
    is_ascii_chars_encode_utf8(c);
    assert(encode_utf8(c) =~= http11()) by {
        assert forall|i: int| 0 <= i < 8 implies encode_utf8(c)[i] == http11()[i] by {
            assert(c[i] as u8 == encode_utf8(c)[i]);
        }
    }
    encode_utf8_valid_utf8(c);
    encode_utf8_decode_utf8(c);
}

/// A request written in wire form, whose fields are valid UTF-8, parses
/// back to exactly those fields: its method, target and headers decoded,
/// the protocol `HTTP/1.1`, and the body that follows the blank line.
pub proof fn parse_recovers_fields(
    method: Seq<u8>,
    path: Seq<u8>,
    headers: Seq<(Seq<u8>, Seq<u8>)>,
    body: Seq<u8>,
)
    requires
        is_token(method),
        is_token(path),
        valid_utf8(method),
        valid_utf8(path),
        forall|i: int|
            0 <= i < headers.len() ==> {
                let h = #[trigger] headers[i];
                is_plain_header(h) && valid_utf8(h.0) && valid_utf8(h.1)
            },
    ensures
        parse_spec(request_bytes(method, path, headers, body)) == ParseModel::Complete(
            RequestModel {
                method: decode_utf8(method),
                path: decode_utf8(path),
                protocol: http11_chars(),
                headers: decode_headers(headers),
                body,
                is_tunnel: has_at(method, 0, connect()),
            },
        ),
{
    let s = request_bytes(method, path, headers, body);
    assert forall|i: int| 0 <= i < headers.len() implies is_plain_header(#[trigger] headers[i]) by {
        let h = headers[i];
    }
    framing_recovers_fields(method, path, headers, body);
    lemma_http11_decodes();
    let start = s.len() - body.len();
    assert(s.subrange(start, s.len() as int) =~= body);
}

/// Relies on `String::from_utf8`: it succeeds exactly on valid UTF-8, and
/// the string then holds the characters that the bytes encode.
#[verifier::external_body]
fn utf8_string(b: &[u8]) -> (r: Option<String>)
    ensures
        match r {
            Some(s) => valid_utf8(b@) && s@ == decode_utf8(b@),
            None => !valid_utf8(b@),
        },
{
    String::from_utf8(b.to_vec()).ok()
}

fn bytes_equal(a: &[u8], b: &[u8]) -> (r: bool)
    ensures
        r == (a@ == b@),
{
    if a.len() != b.len() {
        return false;
    }
    let mut i: usize = 0;
    while i < a.len()
        invariant
            a@.len() == b@.len(),
            i <= a@.len(),
            forall|k: int| 0 <= k < i ==> a@[k] == b@[k],
        decreases a@.len() - i,
    {
        if a[i] != b[i] {
            return false;
        }
        i = i + 1;
    }
    assert(a@ =~= b@);
    true
}

fn str_equal(a: &str, b: &str) -> (r: bool)
    ensures
        r == (a@ == b@),
{
    let r = bytes_equal(a.as_bytes(), b.as_bytes());
    proof {
        vstd::utf8::encode_utf8_decode_utf8(a@);
        vstd::utf8::encode_utf8_decode_utf8(b@);
    }
    r
}

/// Builds the request from a framed head of `buf`, or reports the first
/// field that is not valid UTF-8.
fn decode_request(buf: &[u8], head: &crate::frame::RawHead) -> (r: ParseOutcome)
    requires
        0 <= head@.body_start <= buf@.len(),
    ensures
        head_is_utf8(head@) ==> r@ == ParseModel::Complete(
            RequestModel {
                method: decode_utf8(head@.method),
                path: decode_utf8(head@.path),
                protocol: decode_utf8(head@.protocol),
                headers: decode_headers(head@.headers),
                body: buf@.subrange(head@.body_start, buf@.len() as int),
                is_tunnel: head@.is_tunnel,
            },
        ),
        !head_is_utf8(head@) ==> r@ == ParseModel::Malformed(MalformedKind::Utf8),
{
    let method = match utf8_string(head.method.as_slice()) {
        Some(s) => s,
        None => return ParseOutcome::Malformed(MalformedKind::Utf8),
    };
    let path = match utf8_string(head.path.as_slice()) {
        Some(s) => s,
        None => return ParseOutcome::Malformed(MalformedKind::Utf8),
    };
    let protocol = match utf8_string(head.protocol.as_slice()) {
        Some(s) => s,
        None => return ParseOutcome::Malformed(MalformedKind::Utf8),
    };
    let ghost hv = head@.headers;
    let mut headers: Vec<(String, String)> = Vec::new();
    let mut i: usize = 0;
    while i < head.headers.len()
        invariant
            i <= head.headers@.len(),
            hv == head@.headers,
            hv.len() == head.headers@.len(),
            forall|k: int|
                0 <= k < i ==> valid_utf8((#[trigger] hv[k]).0) && valid_utf8(hv[k].1),
            headers@.map_values(|h: (String, String)| (h.0@, h.1@)) =~= decode_headers(
                hv.subrange(0, i as int),
            ),
        decreases head.headers@.len() - i,
    {
        let pair = &head.headers[i];
        assert(hv[i as int] == (pair.0@, pair.1@));
        let name = match utf8_string(pair.0.as_slice()) {
            Some(s) => s,
            None => {
                assert(!valid_utf8(head@.headers[i as int].0));
                return ParseOutcome::Malformed(MalformedKind::Utf8);
            },
        };
        let value = match utf8_string(pair.1.as_slice()) {
            Some(s) => s,
            None => {
                assert(!(valid_utf8(head@.headers[i as int].0) && valid_utf8(
                    head@.headers[i as int].1,
                )));
                assert(!head_is_utf8(head@));
                return ParseOutcome::Malformed(MalformedKind::Utf8);
            },
        };
        let ghost before = headers@;
        let ghost entry = (name@, value@);
        headers.push((name, value));
        proof {
            let done = hv.subrange(0, i as int);
            assert(hv.subrange(0, i + 1) =~= done.push(hv[i as int]));
            assert(decode_headers(hv.subrange(0, i + 1)) =~= decode_headers(done).push(entry));
            assert(headers@.map_values(|h: (String, String)| (h.0@, h.1@)) =~= before.map_values(
                |h: (String, String)| (h.0@, h.1@),
            ).push(entry));
        }
        i = i + 1;
    }
    assert(hv.subrange(0, i as int) =~= hv);
    assert(head_is_utf8(head@));
    let body_bytes = copy_range(buf, head.body_start, buf.len());
    let body = bytes_from_slice(body_bytes.as_slice());
    ParseOutcome::Complete(
        HTTPRequest { method, path, protocol, headers, body, is_tunnel: head.is_tunnel },
    )
}

/// Parses the request held in `buf`, from its first byte.
pub fn parse_slice(buf: &[u8]) -> (r: ParseOutcome)
    ensures
        r@ == parse_spec(buf@),
        r matches ParseOutcome::Complete(req) ==> is_well_formed(req@),
{
    proof {
        parsed_request_is_well_formed(buf@);
    }
    match parse_frame(buf) {
        FrameParse::Incomplete => ParseOutcome::Incomplete,
        FrameParse::Malformed(k) => ParseOutcome::Malformed(k),
        FrameParse::Complete(head) => decode_request(buf, &head),
    }
}

impl HTTPRequest {
    /// The value of the first header whose name is exactly `key`, or `None`
    /// when no header has that name.
    pub fn get_header_value<'a>(&'a self, key: &str) -> (r: Option<&'a str>)
        ensures
            match r {
                Some(v) => header_lookup(self@.headers, key@) == Some(v@),
                None => header_lookup(self@.headers, key@) is None,
            },
    {
        let ghost hs = self@.headers;
        assert(hs.subrange(0, hs.len() as int) =~= hs);
        let mut i: usize = 0;
        while i < self.headers.len()
            invariant
                i <= self.headers@.len(),
                hs == self@.headers,
                hs.len() == self.headers@.len(),
                header_lookup(hs, key@) == header_lookup(hs.subrange(i as int, hs.len() as int), key@),
            decreases self.headers@.len() - i,
        {
            let pair = &self.headers[i];
            assert(hs[i as int] == (pair.0@, pair.1@));
            let ghost rest = hs.subrange(i as int, hs.len() as int);
            assert(rest[0] == hs[i as int]);
            if str_equal(pair.0.as_str(), key) {
                return Some(pair.1.as_str());
            }
            assert(rest.drop_first() =~= hs.subrange(i + 1, hs.len() as int));
            i = i + 1;
        }
        None
    }

    /// Parses the request held in `buf`: `Complete` with the request,
    /// `Incomplete` while the head is not yet terminated, or `Malformed`
    /// when no later bytes can make it valid.
    pub fn parse_message(buf: &bytes::Bytes) -> (r: ParseOutcome)
        ensures
            r@ == parse_spec(bytes_content(*buf)),
            r matches ParseOutcome::Complete(req) ==> is_well_formed(req@),
    {
        parse_slice(bytes_as_slice(buf))
    }
}

} // verus!
