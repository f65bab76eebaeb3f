//! The decisions of a reader that accumulates chunks from a byte source
//! until one request is complete. The reads themselves are the caller's:
//! each chunk read is handed to `RequestReader::feed`, an empty chunk
//! meaning that the source is exhausted.
use vstd::prelude::*;
use crate::buffers::{bytes_mut_append, bytes_mut_as_slice, bytes_mut_content, bytes_mut_new};
use vstd::utf8::encode_utf8;
use crate::frame::{lemma_frame_complete, lemma_frame_prefix, MalformedKind};
use crate::request::{header_lookup, parse_slice, parse_spec, HTTPRequest, ParseModel, ParseOutcome, RequestModel};

verus! {

/// Why a reader stopped without a request.
#[derive(Clone, Copy, Debug, PartialEq, Eq, Structural)]
pub enum ReadError {
    /// The buffered bytes can never form a request.
    Malformed(MalformedKind),
    /// The `Content-Length` value is not a non-negative decimal integer
    /// that fits in `usize`.
    InvalidContentLength,
    /// More body bytes arrived than `Content-Length` declares.
    BodyTooLong,
    /// The source was exhausted before the request was complete.
    EndOfStream,
    /// Reading from the source failed.
    Io,
}

pub enum StepModel {
    NeedMore,
    Done(Result<RequestModel, ReadError>),
}

/// What a reader does after a chunk: read another, or stop with a result.
#[derive(Debug)]
pub enum ReadStep {
    NeedMore,
    Done(Result<HTTPRequest, ReadError>),
}

impl View for ReadStep {
    type V = StepModel;

    open spec fn view(&self) -> StepModel {
        match self {
            ReadStep::NeedMore => StepModel::NeedMore,
            ReadStep::Done(Ok(r)) => StepModel::Done(Ok(r@)),
            ReadStep::Done(Err(e)) => StepModel::Done(Err(*e)),
        }
    }
}

/// The header name `Content-Length`.
pub open spec fn content_length_name() -> Seq<char> {
    seq!['C', 'o', 'n', 't', 'e', 'n', 't', '-', 'L', 'e', 'n', 'g', 't', 'h']
}

pub open spec fn all_digits(b: Seq<u8>) -> bool {
    forall|i: int| 0 <= i < b.len() ==> 48 <= #[trigger] b[i] <= 57
}

/// The number that the decimal digits `b` spell.
pub open spec fn decimal_value(b: Seq<u8>) -> nat
    decreases b.len(),
{
    if b.len() == 0 {
        0
    } else {
        decimal_value(b.drop_last()) * 10 + (b.last() - 48) as nat
    }
}

/// The value of a `Content-Length` header from its bytes: one or more
/// decimal digits whose value fits in `usize`.
pub open spec fn content_length_value(b: Seq<u8>) -> Option<nat> {
    if b.len() > 0 && all_digits(b) && decimal_value(b) <= usize::MAX {
        Some(decimal_value(b))
    } else {
        None
    }
}

/// The reader's decision on a parse of everything buffered so far; `eof`
/// tells that the source has no more bytes.
pub open spec fn step_from(p: ParseModel, eof: bool) -> StepModel {
    match p {
        ParseModel::Incomplete => if eof {
            StepModel::Done(Err(ReadError::EndOfStream))
        } else {
            StepModel::NeedMore
        },
        ParseModel::Malformed(k) => StepModel::Done(Err(ReadError::Malformed(k))),
        ParseModel::Complete(m) => match header_lookup(m.headers, content_length_name()) {
            None => StepModel::Done(Ok(m)),
            Some(v) => match content_length_value(encode_utf8(v)) {
                None => StepModel::Done(Err(ReadError::InvalidContentLength)),
                Some(n) => if m.body.len() == n {
                    StepModel::Done(Ok(m))
                } else if m.body.len() > n {
                    StepModel::Done(Err(ReadError::BodyTooLong))
                } else if eof {
                    StepModel::Done(Err(ReadError::EndOfStream))
                } else {
                    StepModel::NeedMore
                },
            },
        },
    }
}

/// The reader's decision once buffer `s` holds everything read so far.
pub open spec fn step_spec(s: Seq<u8>, eof: bool) -> StepModel {
    step_from(parse_spec(s), eof)
}

proof fn lemma_decimal_prefix_le(b: Seq<u8>, i: int)
    requires
        all_digits(b),
        0 <= i <= b.len(),
    ensures
        decimal_value(b.subrange(0, i)) <= decimal_value(b),
    decreases b.len(),
{
    if i < b.len() {
        let d = b.drop_last();
        assert(d.subrange(0, i) =~= b.subrange(0, i));
        assert(all_digits(d)) by {
            assert forall|k: int| 0 <= k < d.len() implies 48 <= #[trigger] d[k] <= 57 by {
                assert(d[k] == b[k]);
            }
        }
        lemma_decimal_prefix_le(d, i);
    } else {
        assert(b.subrange(0, i) =~= b);
    }
}

/// Reads a `Content-Length` value: `Some` with its number exactly when `v`
/// is one or more ASCII digits whose value fits in `usize`.
pub fn parse_content_length(v: &str) -> (r: Option<usize>)
    ensures
        match r {
            Some(n) => content_length_value(encode_utf8(v@)) == Some(n as nat),
            None => content_length_value(encode_utf8(v@)) is None,
        },
{
    let b = v.as_bytes();
    if b.len() == 0 {
        return None;
    }
    let mut n: usize = 0;
    let mut i: usize = 0;
    while i < b.len()
        invariant
            i <= b@.len(),
            b@ == encode_utf8(v@),
            all_digits(b@.subrange(0, i as int)),
            n as nat == decimal_value(b@.subrange(0, i as int)),
        decreases b@.len() - i,
    {
        let c = b[i];
        let ghost next = b@.subrange(0, i + 1);
        assert(next.drop_last() =~= b@.subrange(0, i as int));
        if c < 48 || c > 57 {
            assert(!all_digits(b@));
            return None;
        }
        assert(all_digits(next)) by {
            assert forall|k: int| 0 <= k < next.len() implies 48 <= #[trigger] next[k] <= 57 by {
                if k < i {
                    assert(next[k] == b@.subrange(0, i as int)[k]);
                }
            }
        }
        let d = (c - 48) as usize;
        match n.checked_mul(10) {
            Some(m) => match m.checked_add(d) {
                Some(s) => {
                    n = s;
                },
                None => {
                    proof {
                        if all_digits(b@) {
                            lemma_decimal_prefix_le(b@, i + 1);
                        }
                    }
                    return None;
                },
            },
            None => {
                proof {
                    if all_digits(b@) {
                        lemma_decimal_prefix_le(b@, i + 1);
                    }
                }
                return None;
            },
        }
        i = i + 1;
    }
    assert(b@.subrange(0, i as int) =~= b@);
    Some(n)
}

/// The reader's decision on `outcome`, the parse of everything buffered so
/// far; `eof` tells that the source has no more bytes.
pub fn decide(outcome: ParseOutcome, eof: bool) -> (r: ReadStep)
    ensures
        r@ == step_from(outcome@, eof),
{
    match outcome {
        ParseOutcome::Incomplete => if eof {
            ReadStep::Done(Err(ReadError::EndOfStream))
        } else {
            ReadStep::NeedMore
        },
        ParseOutcome::Malformed(k) => ReadStep::Done(Err(ReadError::Malformed(k))),
        ParseOutcome::Complete(req) => {
            let declared = match req.get_header_value("Content-Length") {
                None => {
                    proof {
                        reveal_strlit("Content-Length");
                        assert("Content-Length"@ =~= content_length_name());
                    }
                    return ReadStep::Done(Ok(req));
                },
                Some(v) => {
                    proof {
                        reveal_strlit("Content-Length");
                        assert("Content-Length"@ =~= content_length_name());
                    }
                    parse_content_length(v)
                },
            };
            let body_len = crate::buffers::bytes_len(&req.body);
            match declared {
                None => ReadStep::Done(Err(ReadError::InvalidContentLength)),
                Some(n) => if body_len == n {
                    ReadStep::Done(Ok(req))
                } else if body_len > n {
                    ReadStep::Done(Err(ReadError::BodyTooLong))
                } else if eof {
                    ReadStep::Done(Err(ReadError::EndOfStream))
                } else {
                    ReadStep::NeedMore
                },
            }
        },
    }
}

/// The bytes of `chunks`, one after another.
pub open spec fn concat(chunks: Seq<Seq<u8>>) -> Seq<u8>
    decreases chunks.len(),
{
    if chunks.len() == 0 {
        Seq::empty()
    } else {
        chunks[0] + concat(chunks.drop_first())
    }
}

/// What a reader holding `buf` reports when fed `chunks` one by one: the
/// first decision that is not `NeedMore`, or `NeedMore` when every chunk
/// left it waiting.
pub open spec fn run_chunks(buf: Seq<u8>, chunks: Seq<Seq<u8>>) -> StepModel
    decreases chunks.len(),
{
    if chunks.len() == 0 {
        StepModel::NeedMore
    } else {
        let next = buf + chunks[0];
        match step_spec(next, chunks[0].len() == 0) {
            StepModel::NeedMore => run_chunks(next, chunks.drop_first()),
            done => done,
        }
    }
}

/// The buffer holds a complete head followed by more body than the reader
/// would wait for: more than `Content-Length` declares, or any body at all
/// when that header is absent. A reader stops at the first chunk boundary
/// where the request is complete, so on such a buffer where the chunks end
/// matters.
pub open spec fn overruns_body(s: Seq<u8>) -> bool {
    match parse_spec(s) {
        ParseModel::Complete(m) => match header_lookup(m.headers, content_length_name()) {
            None => m.body.len() > 0,
            Some(v) => match content_length_value(encode_utf8(v)) {
                Some(n) => m.body.len() > n,
                None => false,
            },
        },
        _ => false,
    }
}

/// A proper prefix of the input leaves the reader waiting, or decides
/// exactly as the whole input does.
proof fn lemma_step_prefix(s: Seq<u8>, k: int)
    requires
        0 <= k <= s.len(),
        !overruns_body(s),
    ensures
        step_spec(s.subrange(0, k), false) is NeedMore || step_spec(s.subrange(0, k), false)
            == step_spec(s, false),
{
    let p = s.subrange(0, k);
    if k == s.len() {
        assert(p =~= s);
        return;
    }
    lemma_frame_prefix(s, k);
    lemma_frame_complete(p);
    lemma_frame_complete(s);
}

proof fn lemma_run_chunks(s: Seq<u8>, j: int, chunks: Seq<Seq<u8>>)
    requires
        0 <= j <= s.len(),
        chunks.len() > 0,
        forall|i: int| 0 <= i < chunks.len() ==> (#[trigger] chunks[i]).len() > 0,
        concat(chunks) == s.subrange(j, s.len() as int),
        !overruns_body(s),
    ensures
        run_chunks(s.subrange(0, j), chunks) == step_spec(s, false),
    decreases chunks.len(),
{
    let c0 = chunks[0];
    let rest = chunks.drop_first();
    let k = j + c0.len();
    assert(c0.len() > 0);
    assert(s.subrange(j, s.len() as int) =~= c0 + concat(rest));
    assert(s.subrange(0, j) + c0 =~= s.subrange(0, k)) by {
        assert(c0 =~= s.subrange(j, k));
    }
    lemma_step_prefix(s, k);
    assert(chunks[0].len() != 0);
    assert(run_chunks(s.subrange(0, j), chunks) == match step_spec(s.subrange(0, k), false) {
        StepModel::NeedMore => run_chunks(s.subrange(0, k), rest),
        done => done,
    });
    if rest.len() == 0 {
        assert(s.subrange(0, k) =~= s);
        assert(run_chunks(s.subrange(0, k), rest) == StepModel::NeedMore);
    } else {
        let t = s.subrange(j, s.len() as int);
        assert(t.subrange(c0.len() as int, t.len() as int) =~= concat(rest));
        assert(t.subrange(c0.len() as int, t.len() as int) =~= s.subrange(k, s.len() as int));
        assert forall|i: int| 0 <= i < rest.len() implies (#[trigger] rest[i]).len() > 0 by {
            assert(rest[i] == chunks[i + 1]);
        }
        if step_spec(s.subrange(0, k), false) is NeedMore {
            lemma_run_chunks(s, k, rest);
        }
    }
}

/// Chunk boundaries do not matter: fed the same bytes in any split into
/// non-empty chunks, a reader reports what it reports when fed all of them
/// as one chunk. Left out are buffers that carry more body than the reader
/// waits for, where it stops at the first boundary after the awaited part.
pub proof fn chunk_boundaries_do_not_matter(chunks: Seq<Seq<u8>>)
    requires
        chunks.len() > 0,
        forall|i: int| 0 <= i < chunks.len() ==> (#[trigger] chunks[i]).len() > 0,
        !overruns_body(concat(chunks)),
    ensures
        run_chunks(Seq::empty(), chunks) == run_chunks(Seq::empty(), seq![concat(chunks)]),
{
    let s = concat(chunks);
    assert(s.subrange(0, 0) =~= Seq::<u8>::empty());
    assert(s.subrange(0, s.len() as int) =~= s);
    lemma_run_chunks(s, 0, chunks);
    let one = seq![s];
    assert(concat(one.drop_first()) =~= Seq::<u8>::empty());
    assert(concat(one) =~= s);
    assert forall|i: int| 0 <= i < one.len() implies (#[trigger] one[i]).len() > 0 by {
        assert(one[i] == s);
        assert(s.len() >= chunks[0].len());
    }
    lemma_run_chunks(s, 0, one);
}

/// Accumulates the chunks of one request and decides, after each, whether
/// the request is complete.
pub struct RequestReader {
    buffer: bytes::BytesMut,
}

impl View for RequestReader {
    type V = Seq<u8>;

    /// Everything read so far.
    closed spec fn view(&self) -> Seq<u8> {
        bytes_mut_content(self.buffer)
    }
}

impl RequestReader {
    /// A reader with nothing read yet.
    pub fn new() -> (r: Self)
        ensures
            r@ == Seq::<u8>::empty(),
    {
        RequestReader { buffer: bytes_mut_new() }
    }

    /// Appends `chunk`, the next bytes read from the source, and decides on
    /// everything read so far. An empty chunk means the source is exhausted:
    /// the result is then never `NeedMore`.
    pub fn feed(&mut self, chunk: &[u8]) -> (r: ReadStep)
        ensures
            final(self)@ == old(self)@ + chunk@,
            r@ == step_spec(final(self)@, chunk@.len() == 0),
    {
        bytes_mut_append(&mut self.buffer, chunk);
        let outcome = parse_slice(bytes_mut_as_slice(&self.buffer));
        decide(outcome, chunk.len() == 0)
    }
}

} // verus!
