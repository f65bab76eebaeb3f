//! Byte-level framing of one HTTP/1.1 request head: the start line, the
//! header lines up to the blank line, and where the body begins.
use vstd::prelude::*;

verus! {

pub const CR: u8 = 13;

pub const LF: u8 = 10;

pub const SP: u8 = 32;

pub const COLON: u8 = 58;

/// Why a buffer can never become a valid request, however many bytes follow.
#[derive(Clone, Copy, Debug, PartialEq, Eq, Structural)]
pub enum MalformedKind {
    /// The first line is not a recognised request line.
    StartLine,
    /// A line of the header block lacks the `": "` separator.
    HeaderLine,
    /// A field of the request is not valid UTF-8.
    Utf8,
}

/// The literal protocol token `HTTP/1.1`.
pub open spec fn http11() -> Seq<u8> {
    seq![72u8, 84u8, 84u8, 80u8, 47u8, 49u8, 46u8, 49u8]
}

/// The literal method prefix `CONNECT`.
pub open spec fn connect() -> Seq<u8> {
    seq![67u8, 79u8, 78u8, 78u8, 69u8, 67u8, 84u8]
}

/// `s` holds the bytes `p` starting at offset `pos`.
pub open spec fn has_at(s: Seq<u8>, pos: int, p: Seq<u8>) -> bool {
    0 <= pos && pos + p.len() <= s.len() && s.subrange(pos, pos + p.len()) == p
}

/// The first offset `i` in `[from, to - 1)` with `s[i] == a` and `s[i + 1] == b`.
pub open spec fn find_pair(s: Seq<u8>, a: u8, b: u8, from: int, to: int) -> Option<int>
    decreases to - from,
{
    if 0 <= from && from + 1 < to && to <= s.len() {
        if s[from] == a && s[from + 1] == b {
            Some(from)
        } else {
            find_pair(s, a, b, from + 1, to)
        }
    } else {
        None
    }
}

/// The first offset `i` in `[from, to)` with `s[i] == b`.
pub open spec fn find_byte(s: Seq<u8>, b: u8, from: int, to: int) -> Option<int>
    decreases to - from,
{
    if 0 <= from && from < to && to <= s.len() {
        if s[from] == b {
            Some(from)
        } else {
            find_byte(s, b, from + 1, to)
        }
    } else {
        None
    }
}

/// The head of a request as bytes of the buffer it was framed from.
pub struct HeadModel {
    pub method: Seq<u8>,
    pub path: Seq<u8>,
    pub protocol: Seq<u8>,
    pub headers: Seq<(Seq<u8>, Seq<u8>)>,
    pub is_tunnel: bool,
    /// Offset of the first byte after the blank line that ends the head.
    pub body_start: int,
}

pub enum FrameModel {
    Complete(HeadModel),
    Incomplete,
    Malformed(MalformedKind),
}

/// The start line `s[0..e)`: recognised when it ends with `HTTP/1.1` or
/// begins with `CONNECT`, and split by single spaces into exactly three
/// non-empty fields. Headers and body offset are filled in later.
pub open spec fn start_line(s: Seq<u8>, e: int) -> Option<HeadModel> {
    if (e >= 8 && has_at(s, e - 8, http11())) || (e >= 7 && has_at(s, 0, connect())) {
        match find_byte(s, SP, 0, e) {
            Some(i) => match find_byte(s, SP, i + 1, e) {
                Some(j) => {
                    if 0 < i && i + 1 < j && j + 1 < e && find_byte(s, SP, j + 1, e) is None {
                        Some(
                            HeadModel {
                                method: s.subrange(0, i),
                                path: s.subrange(i + 1, j),
                                protocol: s.subrange(j + 1, e),
                                headers: seq![],
                                is_tunnel: e >= 7 && has_at(s, 0, connect()),
                                body_start: 0,
                            },
                        )
                    } else {
                        None
                    }
                },
                None => None,
            },
            None => None,
        }
    } else {
        None
    }
}

pub proof fn lemma_find_pair_bounds(s: Seq<u8>, a: u8, b: u8, from: int, to: int)
    ensures
        find_pair(s, a, b, from, to) matches Some(i) ==> from <= i && i + 1 < to && to <= s.len()
            && s[i] == a && s[i + 1] == b,
    decreases to - from,
{
    if 0 <= from && from + 1 < to && to <= s.len() && !(s[from] == a && s[from + 1] == b) {
        lemma_find_pair_bounds(s, a, b, from + 1, to);
    }
}

pub proof fn lemma_find_byte_bounds(s: Seq<u8>, b: u8, from: int, to: int)
    ensures
        find_byte(s, b, from, to) matches Some(i) ==> from <= i && i < to && to <= s.len() && s[i]
            == b,
    decreases to - from,
{
    if 0 <= from && from < to && to <= s.len() && s[from] != b {
        lemma_find_byte_bounds(s, b, from + 1, to);
    }
}

#[via_fn]
proof fn headers_from_decreases(s: Seq<u8>, pos: int, head: HeadModel) {
    lemma_find_pair_bounds(s, CR, LF, pos, s.len() as int);
}

/// Header lines from offset `pos` on, added to `head.headers`, up to the
/// blank line; the body starts after that line's CRLF.
pub open spec fn headers_from(s: Seq<u8>, pos: int, head: HeadModel) -> FrameModel
    decreases s.len() - pos,
    via headers_from_decreases
{
    match find_pair(s, CR, LF, pos, s.len() as int) {
        None => FrameModel::Incomplete,
        Some(e) => {
            if e == pos {
                FrameModel::Complete(HeadModel { body_start: e + 2, ..head })
            } else {
                match find_pair(s, COLON, SP, pos, e) {
                    None => FrameModel::Malformed(MalformedKind::HeaderLine),
                    Some(c) => headers_from(
                        s,
                        e + 2,
                        HeadModel {
                            headers: head.headers.push((s.subrange(pos, c), s.subrange(c + 2, e))),
                            ..head
                        },
                    ),
                }
            }
        },
    }
}

/// How a buffer frames as a request head: complete, not yet complete, or
/// never valid. Lines end with CRLF; the first is the start line, each
/// following non-empty one a header `name: value`, and an empty line ends
/// the head.
pub open spec fn frame_spec(s: Seq<u8>) -> FrameModel {
    match find_pair(s, CR, LF, 0, s.len() as int) {
        None => FrameModel::Incomplete,
        Some(e) => match start_line(s, e) {
            None => FrameModel::Malformed(MalformedKind::StartLine),
            Some(head) => headers_from(s, e + 2, head),
        },
    }
}

/// The head block ends inside the buffer, and the header lines leave the
/// start line's fields as they were.
pub proof fn lemma_headers_from_complete(s: Seq<u8>, pos: int, head: HeadModel)
    ensures
        headers_from(s, pos, head) matches FrameModel::Complete(h) ==> {
            &&& 0 <= h.body_start <= s.len()
            &&& h.method == head.method
            &&& h.path == head.path
            &&& h.protocol == head.protocol
        },
    decreases s.len() - pos,
{
    lemma_find_pair_bounds(s, CR, LF, pos, s.len() as int);
    if let Some(e) = find_pair(s, CR, LF, pos, s.len() as int) {
        if e != pos {
            if let Some(c) = find_pair(s, COLON, SP, pos, e) {
                lemma_headers_from_complete(
                    s,
                    e + 2,
                    HeadModel {
                        headers: head.headers.push((s.subrange(pos, c), s.subrange(c + 2, e))),
                        ..head
                    },
                );
            }
        }
    }
}

/// A complete head ends inside the buffer, and its method, target and
/// protocol are non-empty.
pub proof fn lemma_frame_complete(s: Seq<u8>)
    ensures
        frame_spec(s) matches FrameModel::Complete(h) ==> {
            &&& 0 <= h.body_start <= s.len()
            &&& h.method.len() > 0
            &&& h.path.len() > 0
            &&& h.protocol.len() > 0
        },
{
    lemma_find_pair_bounds(s, CR, LF, 0, s.len() as int);
    if let Some(e) = find_pair(s, CR, LF, 0, s.len() as int) {
        if let Some(head) = start_line(s, e) {
            lemma_find_byte_bounds(s, SP, 0, e);
            if let Some(i) = find_byte(s, SP, 0, e) {
                lemma_find_byte_bounds(s, SP, i + 1, e);
            }
            lemma_headers_from_complete(s, e + 2, head);
        }
    }
}

proof fn lemma_find_pair_agree(s1: Seq<u8>, s2: Seq<u8>, a: u8, b: u8, from: int, to: int)
    requires
        to <= s1.len(),
        to <= s2.len(),
        forall|k: int| 0 <= k < to ==> s1[k] == s2[k],
    ensures
        find_pair(s1, a, b, from, to) == find_pair(s2, a, b, from, to),
    decreases to - from,
{
    if 0 <= from && from + 1 < to {
        lemma_find_pair_agree(s1, s2, a, b, from + 1, to);
    }
}

proof fn lemma_find_byte_agree(s1: Seq<u8>, s2: Seq<u8>, b: u8, from: int, to: int)
    requires
        to <= s1.len(),
        to <= s2.len(),
        forall|k: int| 0 <= k < to ==> s1[k] == s2[k],
    ensures
        find_byte(s1, b, from, to) == find_byte(s2, b, from, to),
    decreases to - from,
{
    if 0 <= from && from < to {
        lemma_find_byte_agree(s1, s2, b, from + 1, to);
    }
}

/// The start line `s[0..e)` depends on those bytes alone.
proof fn lemma_start_line_agree(s1: Seq<u8>, s2: Seq<u8>, e: int)
    requires
        0 <= e <= s1.len(),
        e <= s2.len(),
        forall|k: int| 0 <= k < e ==> s1[k] == s2[k],
    ensures
        start_line(s1, e) == start_line(s2, e),
{
    if e >= 8 {
        assert(s1.subrange(e - 8, e) =~= s2.subrange(e - 8, e));
    }
    if e >= 7 {
        assert(s1.subrange(0, 7) =~= s2.subrange(0, 7));
    }
    lemma_find_byte_agree(s1, s2, SP, 0, e);
    lemma_find_byte_bounds(s1, SP, 0, e);
    if let Some(i) = find_byte(s1, SP, 0, e) {
        lemma_find_byte_agree(s1, s2, SP, i + 1, e);
        lemma_find_byte_bounds(s1, SP, i + 1, e);
        if let Some(j) = find_byte(s1, SP, i + 1, e) {
            lemma_find_byte_agree(s1, s2, SP, j + 1, e);
            if 0 < i && i + 1 < j && j + 1 < e {
                assert(s1.subrange(0, i) =~= s2.subrange(0, i));
                assert(s1.subrange(i + 1, j) =~= s2.subrange(i + 1, j));
                assert(s1.subrange(j + 1, e) =~= s2.subrange(j + 1, e));
            }
        }
    }
}

/// A pair found in a prefix is the first pair of the whole buffer too.
proof fn lemma_find_pair_prefix(s: Seq<u8>, k: int, a: u8, b: u8, from: int)
    requires
        0 <= k <= s.len(),
    ensures
        find_pair(s.subrange(0, k), a, b, from, k) matches Some(i) ==> find_pair(
            s,
            a,
            b,
            from,
            s.len() as int,
        ) == Some(i),
    decreases k - from,
{
    let p = s.subrange(0, k);
    if 0 <= from && from + 1 < k && !(p[from] == a && p[from + 1] == b) {
        lemma_find_pair_prefix(s, k, a, b, from + 1);
    }
}

proof fn lemma_headers_from_prefix(s: Seq<u8>, k: int, pos: int, head: HeadModel)
    requires
        0 <= k <= s.len(),
    ensures
        headers_from(s.subrange(0, k), pos, head) is Incomplete || headers_from(
            s.subrange(0, k),
            pos,
            head,
        ) == headers_from(s, pos, head),
    decreases k - pos,
{
    let p = s.subrange(0, k);
    lemma_find_pair_prefix(s, k, CR, LF, pos);
    lemma_find_pair_bounds(p, CR, LF, pos, k);
    if let Some(e) = find_pair(p, CR, LF, pos, k) {
        if e != pos {
            lemma_find_pair_agree(p, s, COLON, SP, pos, e);
            lemma_find_pair_bounds(p, COLON, SP, pos, e);
            if let Some(c) = find_pair(p, COLON, SP, pos, e) {
                assert(p.subrange(pos, c) =~= s.subrange(pos, c));
                assert(p.subrange(c + 2, e) =~= s.subrange(c + 2, e));
                lemma_headers_from_prefix(
                    s,
                    k,
                    e + 2,
                    HeadModel {
                        headers: head.headers.push((s.subrange(pos, c), s.subrange(c + 2, e))),
                        ..head
                    },
                );
            }
        }
    }
}

/// A prefix of a buffer frames either as not yet complete or exactly as the
/// whole buffer does: later bytes never change a verdict already reached.
pub proof fn lemma_frame_prefix(s: Seq<u8>, k: int)
    requires
        0 <= k <= s.len(),
    ensures
        frame_spec(s.subrange(0, k)) is Incomplete || frame_spec(s.subrange(0, k)) == frame_spec(
            s,
        ),
{
    let p = s.subrange(0, k);
    lemma_find_pair_prefix(s, k, CR, LF, 0);
    lemma_find_pair_bounds(p, CR, LF, 0, k);
    if let Some(e) = find_pair(p, CR, LF, 0, k) {
        lemma_start_line_agree(p, s, e);
        if let Some(head) = start_line(p, e) {
            lemma_headers_from_prefix(s, k, e + 2, head);
        }
    }
}

pub open spec fn crlf() -> Seq<u8> {
    seq![CR, LF]
}

/// The request line `method target HTTP/1.1`, without its line break.
pub open spec fn request_line_bytes(method: Seq<u8>, path: Seq<u8>) -> Seq<u8> {
    method + seq![SP] + path + seq![SP] + http11()
}

/// The header line `name: value`, without its line break.
pub open spec fn header_line_bytes(h: (Seq<u8>, Seq<u8>)) -> Seq<u8> {
    h.0 + seq![COLON, SP] + h.1
}

/// The header lines, each ended by CRLF, and the blank line ending the head.
pub open spec fn header_block_bytes(hs: Seq<(Seq<u8>, Seq<u8>)>) -> Seq<u8>
    decreases hs.len(),
{
    if hs.len() == 0 {
        crlf()
    } else {
        header_line_bytes(hs[0]) + crlf() + header_block_bytes(hs.drop_first())
    }
}

/// The wire form of an HTTP/1.1 request.
pub open spec fn request_bytes(
    method: Seq<u8>,
    path: Seq<u8>,
    headers: Seq<(Seq<u8>, Seq<u8>)>,
    body: Seq<u8>,
) -> Seq<u8> {
    request_line_bytes(method, path) + crlf() + header_block_bytes(headers) + body
}

pub open spec fn lacks(s: Seq<u8>, b: u8) -> bool {
    forall|k: int| 0 <= k < s.len() ==> #[trigger] s[k] != b
}

/// A method or target: non-empty, with no space and no CR.
pub open spec fn is_token(s: Seq<u8>) -> bool {
    s.len() > 0 && lacks(s, SP) && lacks(s, CR)
}

/// A header whose name has no colon and no CR, and whose value has no CR.
pub open spec fn is_plain_header(h: (Seq<u8>, Seq<u8>)) -> bool {
    lacks(h.0, COLON) && lacks(h.0, CR) && lacks(h.1, CR)
}

proof fn lemma_find_pair_at(s: Seq<u8>, a: u8, b: u8, from: int, i: int, to: int)
    requires
        0 <= from <= i,
        i + 1 < to <= s.len(),
        forall|k: int| from <= k < i ==> s[k] != a,
        s[i] == a,
        s[i + 1] == b,
    ensures
        find_pair(s, a, b, from, to) == Some(i),
    decreases i - from,
{
    if from < i {
        lemma_find_pair_at(s, a, b, from + 1, i, to);
    }
}

proof fn lemma_find_byte_at(s: Seq<u8>, b: u8, from: int, i: int, to: int)
    requires
        0 <= from <= i < to <= s.len(),
        forall|k: int| from <= k < i ==> s[k] != b,
        s[i] == b,
    ensures
        find_byte(s, b, from, to) == Some(i),
    decreases i - from,
{
    if from < i {
        lemma_find_byte_at(s, b, from + 1, i, to);
    }
}

proof fn lemma_find_byte_none(s: Seq<u8>, b: u8, from: int, to: int)
    requires
        0 <= from <= to <= s.len(),
        forall|k: int| from <= k < to ==> s[k] != b,
    ensures
        find_byte(s, b, from, to) is None,
    decreases to - from,
{
    if from < to {
        lemma_find_byte_none(s, b, from + 1, to);
    }
}

proof fn lemma_header_block(
    s: Seq<u8>,
    pre: Seq<u8>,
    hs: Seq<(Seq<u8>, Seq<u8>)>,
    body: Seq<u8>,
    head: HeadModel,
)
    requires
        s == pre + header_block_bytes(hs) + body,
        forall|i: int| 0 <= i < hs.len() ==> is_plain_header(#[trigger] hs[i]),
    ensures
        headers_from(s, pre.len() as int, head) == FrameModel::Complete(
            HeadModel {
                headers: head.headers + hs,
                body_start: (pre.len() + header_block_bytes(hs).len()) as int,
                ..head
            },
        ),
    decreases hs.len(),
{
    let pos = pre.len() as int;
    if hs.len() == 0 {
        lemma_find_pair_at(s, CR, LF, pos, pos, s.len() as int);
        assert(head.headers + hs =~= head.headers);
    } else {
        let h = hs[0];
        let line = header_line_bytes(h);
        let rest = hs.drop_first();
        assert(is_plain_header(h));
        let e = pos + line.len();
        let c = pos + h.0.len();
        assert(s =~= pre + line + crlf() + header_block_bytes(rest) + body);
        assert forall|k: int| pos <= k < e implies s[k] != CR by {
            assert(s[k] == line[k - pos]);
            if k - pos >= h.0.len() + 2 {
                assert(line[k - pos] == h.1[k - pos - h.0.len() - 2]);
            }
        }
        assert(s[e] == CR && s[e + 1] == LF);
        lemma_find_pair_at(s, CR, LF, pos, e, s.len() as int);
        assert forall|k: int| pos <= k < c implies s[k] != COLON by {
            assert(s[k] == h.0[k - pos]);
        }
        assert(s[c] == COLON && s[c + 1] == SP);
        lemma_find_pair_at(s, COLON, SP, pos, c, e);
        assert(s.subrange(pos, c) =~= h.0);
        assert(s.subrange(c + 2, e) =~= h.1);
        let pre2 = pre + line + crlf();
        assert(s =~= pre2 + header_block_bytes(rest) + body);
        assert forall|i: int| 0 <= i < rest.len() implies is_plain_header(#[trigger] rest[i]) by {
            assert(rest[i] == hs[i + 1]);
        }
        let head2 = HeadModel { headers: head.headers.push((h.0, h.1)), ..head };
        lemma_header_block(s, pre2, rest, body, head2);
        assert(head2.headers + rest =~= head.headers + hs);
    }
}

/// A request written in wire form frames back to its own fields: the
/// method, target and protocol of its request line, its headers in order,
/// and a body that starts right after the blank line.
pub proof fn framing_recovers_fields(
    method: Seq<u8>,
    path: Seq<u8>,
    headers: Seq<(Seq<u8>, Seq<u8>)>,
    body: Seq<u8>,
)
    requires
        is_token(method),
        is_token(path),
        forall|i: int| 0 <= i < headers.len() ==> is_plain_header(#[trigger] headers[i]),
    ensures
        frame_spec(request_bytes(method, path, headers, body)) == FrameModel::Complete(
            HeadModel {
                method,
                path,
                protocol: http11(),
                headers,
                is_tunnel: has_at(method, 0, connect()),
                body_start: request_bytes(method, path, headers, body).len() - body.len() as int,
            },
        ),
{
    let s = request_bytes(method, path, headers, body);
    let line = request_line_bytes(method, path);
    let e = line.len() as int;
    let i = method.len() as int;
    let j = i + 1 + path.len();
    assert(s =~= line + crlf() + header_block_bytes(headers) + body);
    assert forall|k: int| 0 <= k < e implies s[k] != CR by {
        assert(s[k] == line[k]);
        if k < i {
            assert(line[k] == method[k]);
        } else if i < k < j {
            assert(line[k] == path[k - i - 1]);
        } else if k > j {
            assert(line[k] == http11()[k - j - 1]);
        }
    }
    assert(s[e] == CR && s[e + 1] == LF);
    lemma_find_pair_at(s, CR, LF, 0, e, s.len() as int);
    assert forall|k: int| 0 <= k < i implies s[k] != SP by {
        assert(s[k] == method[k]);
    }
    lemma_find_byte_at(s, SP, 0, i, e);
    assert forall|k: int| i + 1 <= k < j implies s[k] != SP by {
        assert(s[k] == path[k - i - 1]);
    }
    lemma_find_byte_at(s, SP, i + 1, j, e);
    assert forall|k: int| j + 1 <= k < e implies s[k] != SP by {
        assert(s[k] == http11()[k - j - 1]);
    }
    lemma_find_byte_none(s, SP, j + 1, e);
    assert(s.subrange(e - 8, e) =~= http11());
    assert(s.subrange(0, i) =~= method);
    assert(s.subrange(i + 1, j) =~= path);
    assert(s.subrange(j + 1, e) =~= http11());
    if i >= 7 {
        assert(s.subrange(0, 7) =~= method.subrange(0, 7));
    } else if s.subrange(0, 7) == connect() {
        assert(s[i] == SP);
        assert(s.subrange(0, 7)[i] == s[i]);
        assert(connect()[i] != SP);
    }
    let head = start_line(s, e).unwrap();
    assert(s =~= (line + crlf()) + header_block_bytes(headers) + body);
    lemma_header_block(s, line + crlf(), headers, body, head);
    assert(seq![] + headers =~= headers);
}

/// A framed request head; the fields hold bytes of the framed buffer.
pub struct RawHead {
    pub method: Vec<u8>,
    pub path: Vec<u8>,
    pub protocol: Vec<u8>,
    pub headers: Vec<(Vec<u8>, Vec<u8>)>,
    pub is_tunnel: bool,
    pub body_start: usize,
}

pub open spec fn header_pairs_view(hs: Seq<(Vec<u8>, Vec<u8>)>) -> Seq<(Seq<u8>, Seq<u8>)> {
    hs.map_values(|h: (Vec<u8>, Vec<u8>)| (h.0@, h.1@))
}

impl View for RawHead {
    type V = HeadModel;

    open spec fn view(&self) -> HeadModel {
        HeadModel {
            method: self.method@,
            path: self.path@,
            protocol: self.protocol@,
            headers: header_pairs_view(self.headers@),
            is_tunnel: self.is_tunnel,
            body_start: self.body_start as int,
        }
    }
}

pub enum FrameParse {
    Complete(RawHead),
    Incomplete,
    Malformed(MalformedKind),
}

impl View for FrameParse {
    type V = FrameModel;

    open spec fn view(&self) -> FrameModel {
        match self {
            FrameParse::Complete(h) => FrameModel::Complete(h@),
            FrameParse::Incomplete => FrameModel::Incomplete,
            FrameParse::Malformed(k) => FrameModel::Malformed(*k),
        }
    }
}

pub open spec fn opt_int(r: Option<usize>) -> Option<int> {
    match r {
        Some(i) => Some(i as int),
        None => None,
    }
}

fn find_pair_in(buf: &[u8], a: u8, b: u8, from: usize, to: usize) -> (r: Option<usize>)
    requires
        from <= to <= buf@.len(),
    ensures
        opt_int(r) == find_pair(buf@, a, b, from as int, to as int),
        r matches Some(i) ==> from <= i && i + 1 < to,
{
    let mut i: usize = from;
    while to - i > 1
        invariant
            from <= i <= to,
            to <= buf@.len(),
            find_pair(buf@, a, b, from as int, to as int) == find_pair(
                buf@,
                a,
                b,
                i as int,
                to as int,
            ),
        decreases to - i,
    {
        if buf[i] == a && buf[i + 1] == b {
            return Some(i);
        }
        i = i + 1;
    }
    None
}

fn find_byte_in(buf: &[u8], b: u8, from: usize, to: usize) -> (r: Option<usize>)
    requires
        from <= to <= buf@.len(),
    ensures
        opt_int(r) == find_byte(buf@, b, from as int, to as int),
        r matches Some(i) ==> from <= i && i < to,
{
    let mut i: usize = from;
    while i < to
        invariant
            from <= i <= to,
            to <= buf@.len(),
            find_byte(buf@, b, from as int, to as int) == find_byte(buf@, b, i as int, to as int),
        decreases to - i,
    {
        if buf[i] == b {
            return Some(i);
        }
        i = i + 1;
    }
    None
}

/// A copy of `buf[lo..hi)`.
pub fn copy_range(buf: &[u8], lo: usize, hi: usize) -> (r: Vec<u8>)
    requires
        lo <= hi <= buf@.len(),
    ensures
        r@ == buf@.subrange(lo as int, hi as int),
{
    let mut r: Vec<u8> = Vec::new();
    let mut i: usize = lo;
    while i < hi
        invariant
            lo <= i <= hi,
            hi <= buf@.len(),
            r@ == buf@.subrange(lo as int, i as int),
        decreases hi - i,
    {
        r.push(buf[i]);
        i = i + 1;
        assert(r@ =~= buf@.subrange(lo as int, i as int));
    }
    r
}

fn has_http11_at(buf: &[u8], pos: usize) -> (r: bool)
    requires
        pos + 8 <= buf@.len(),
    ensures
        r == has_at(buf@, pos as int, http11()),
{
    let r = buf[pos] == 72 && buf[pos + 1] == 84 && buf[pos + 2] == 84 && buf[pos + 3] == 80
        && buf[pos + 4] == 47 && buf[pos + 5] == 49 && buf[pos + 6] == 46 && buf[pos + 7] == 49;
    proof {
        let w = buf@.subrange(pos as int, pos + 8);
        if r {
            assert(w =~= http11());
        } else if w == http11() {
            assert(w[0] == http11()[0] && w[1] == http11()[1] && w[2] == http11()[2]);
            assert(w[3] == http11()[3] && w[4] == http11()[4] && w[5] == http11()[5]);
            assert(w[6] == http11()[6] && w[7] == http11()[7]);
        }
    }
    r
}

fn has_connect_prefix(buf: &[u8], e: usize) -> (r: bool)
    requires
        e <= buf@.len(),
    ensures
        r == (e >= 7 && has_at(buf@, 0, connect())),
{
    if e < 7 {
        return false;
    }
    let r = buf[0] == 67 && buf[1] == 79 && buf[2] == 78 && buf[3] == 78 && buf[4] == 69 && buf[5]
        == 67 && buf[6] == 84;
    proof {
        let w = buf@.subrange(0, 7);
        if r {
            assert(w =~= connect());
        } else if w == connect() {
            assert(w[0] == connect()[0] && w[1] == connect()[1] && w[2] == connect()[2]);
            assert(w[3] == connect()[3] && w[4] == connect()[4] && w[5] == connect()[5]);
            assert(w[6] == connect()[6]);
        }
    }
    r
}

/// The start line `buf[0..e)`, split as `start_line` says.
fn parse_start_line(buf: &[u8], e: usize) -> (r: Option<RawHead>)
    requires
        e <= buf@.len(),
    ensures
        match r {
            Some(h) => start_line(buf@, e as int) == Some(h@),
            None => start_line(buf@, e as int) is None,
        },
{
    let tunnel = has_connect_prefix(buf, e);
    let recognised = (e >= 8 && has_http11_at(buf, e - 8)) || tunnel;
    if !recognised {
        return None;
    }
    let i = match find_byte_in(buf, SP, 0, e) {
        Some(i) => i,
        None => return None,
    };
    let j = match find_byte_in(buf, SP, i + 1, e) {
        Some(j) => j,
        None => return None,
    };
    if !(0 < i && i + 1 < j && j + 1 < e) {
        return None;
    }
    if find_byte_in(buf, SP, j + 1, e).is_some() {
        return None;
    }
    let h = RawHead {
        method: copy_range(buf, 0, i),
        path: copy_range(buf, i + 1, j),
        protocol: copy_range(buf, j + 1, e),
        headers: Vec::new(),
        is_tunnel: tunnel,
        body_start: 0,
    };
    assert(header_pairs_view(h.headers@) =~= seq![]);
    Some(h)
}

/// Frames the head of the request held in `buf`.
pub fn parse_frame(buf: &[u8]) -> (r: FrameParse)
    ensures
        r@ == frame_spec(buf@),
        r matches FrameParse::Complete(h) ==> h.body_start <= buf@.len(),
{
    let e = match find_pair_in(buf, CR, LF, 0, buf.len()) {
        Some(e) => e,
        None => return FrameParse::Incomplete,
    };
    let mut head = match parse_start_line(buf, e) {
        Some(h) => h,
        None => return FrameParse::Malformed(MalformedKind::StartLine),
    };
    let mut pos: usize = e + 2;
    loop
        invariant
            pos <= buf@.len(),
            frame_spec(buf@) == headers_from(buf@, pos as int, head@),
        decreases buf@.len() - pos,
    {
        let e = match find_pair_in(buf, CR, LF, pos, buf.len()) {
            Some(e) => e,
            None => return FrameParse::Incomplete,
        };
        if e == pos {
            head.body_start = e + 2;
            return FrameParse::Complete(head);
        }
        let c = match find_pair_in(buf, COLON, SP, pos, e) {
            Some(c) => c,
            None => return FrameParse::Malformed(MalformedKind::HeaderLine),
        };
        let name = copy_range(buf, pos, c);
        let value = copy_range(buf, c + 2, e);
        let ghost before = head@;
        head.headers.push((name, value));
        assert(head@.headers =~= before.headers.push((name@, value@)));
        pos = e + 2;
    }
}

} // verus!
