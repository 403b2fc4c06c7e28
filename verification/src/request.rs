//! The incremental HTTP/1.1 request parser. Bytes are appended as
//! they arrive; the builder's state is at every moment a pure
//! function of the bytes received so far, given by `classify`:
//! still incomplete, failed with a precise error, or a complete
//! request with the count of bytes it occupied.

use vstd::prelude::*;
use crate::bytes::{
    CR, LF, SP, COLON, QMARK, all_ascii, all_digits, all_hex, chars_of, dec_value, hex_value,
    find_byte_from, find_crlf_from, lemma_find_byte_from, lemma_find_crlf_from, spec_lower,
    spec_trim, find_byte, find_crlf, check_all_ascii, check_all_digits, check_all_hex,
    copy_range, trim_bytes, lower_bytes, parse_decimal, parse_hex,
};
use crate::headers::HttpHeaders;
use crate::strmap::StrMap;
use crate::strutil::{ascii_string_of, lower_chars};

verus! {

/// No header line (nor the request line) may exceed this count of
/// bytes, the two line-ending bytes not counted.
pub const LINE_CAP: usize = 16384;

/// No request may carry more headers than this.
pub const HEADER_CAP: usize = 100;

#[derive(Debug, PartialEq, Eq, Structural, Clone, Copy)]
pub enum ParseError {
    /// Malformed syntax: request line, header shape, or chunk frame.
    BadRequest,
    /// A cap was passed: line length, header count, or body size.
    EntityTooLarge,
}

/// What a parsed request is mathematically.
pub ghost struct ReqView {
    pub method: Seq<char>,
    pub path: Seq<char>,
    pub query: Seq<char>,
    pub version: Seq<char>,
    pub headers: Map<Seq<char>, Seq<char>>,
    pub query_params: Map<Seq<char>, Seq<char>>,
    pub body: Option<Seq<u8>>,
}

/// The verdict on a byte sequence: more bytes are needed, the bytes
/// are rejected, or a complete request occupies the first `int` bytes.
pub ghost enum SpecOutcome {
    Incomplete,
    Fail(ParseError),
    Complete(ReqView, int),
}

/// The request line split at single spaces into three non-empty
/// tokens, or nothing when it has any other shape.
pub open spec fn split3(line: Seq<u8>) -> Option<(Seq<u8>, Seq<u8>, Seq<u8>)> {
    match find_byte_from(line, SP, 0) {
        None => None,
        Some(i) => match find_byte_from(line, SP, i + 1) {
            None => None,
            Some(j) => if 0 < i && i + 1 < j && j + 1 < line.len() && find_byte_from(
                line,
                SP,
                j + 1,
            ) is None {
                Some((line.take(i), line.subrange(i + 1, j), line.skip(j + 1)))
            } else {
                None
            },
        },
    }
}

/// The request target's path part: everything before the first `?`.
pub open spec fn target_path(t: Seq<u8>) -> Seq<u8> {
    match find_byte_from(t, QMARK, 0) {
        Some(q) => t.take(q),
        None => t,
    }
}

/// The request target's raw query: everything after the first `?`.
pub open spec fn target_query(t: Seq<u8>) -> Seq<u8> {
    match find_byte_from(t, QMARK, 0) {
        Some(q) => t.skip(q + 1),
        None => Seq::empty(),
    }
}

/// The `k=v` pairs of a query string: segments split on `&`, each
/// split at its first `=`; segments without `=` are dropped.
pub open spec fn query_pairs_of(q: Seq<u8>) -> Seq<(Seq<u8>, Seq<u8>)>
    decreases q.len(),
    via query_pairs_of_dec
{
    let seg_end = match find_byte_from(q, crate::bytes::AMP, 0) {
        Some(j) => j,
        None => q.len() as int,
    };
    let seg = q.take(seg_end);
    let rest = if seg_end < q.len() {
        query_pairs_of(q.skip(seg_end + 1))
    } else {
        Seq::empty()
    };
    (match find_byte_from(seg, crate::bytes::EQ, 0) {
        Some(e) => seq![(seg.take(e), seg.skip(e + 1))],
        None => Seq::empty(),
    }) + rest
}

#[via_fn]
proof fn query_pairs_of_dec(q: Seq<u8>) {
    lemma_find_byte_from(q, crate::bytes::AMP, 0);
}

/// The map that a pair list denotes, later pairs overriding earlier.
pub open spec fn pairs_map(ps: Seq<(Seq<u8>, Seq<u8>)>) -> Map<Seq<char>, Seq<char>>
    decreases ps.len(),
{
    if ps.len() == 0 {
        Map::empty()
    } else {
        pairs_map(ps.drop_last()).insert(chars_of(ps.last().0), chars_of(ps.last().1))
    }
}

/// The header map that parsed (name, value) byte pairs denote; the
/// names are already lower-cased.
pub open spec fn headers_map(hs: Seq<(Seq<u8>, Seq<u8>)>) -> Map<Seq<char>, Seq<char>> {
    pairs_map(hs)
}

/// How the body is to be read, as the headers directed: none, a fixed
/// count of bytes, or chunked.
pub ghost enum BodyDirective {
    NoBody,
    Fixed(nat),
    Chunked,
}

/// The verdict on the header section from `pos`: the parsed pairs,
/// the body directive, and the position after the empty line.
pub ghost enum HeadOutcome {
    Incomplete,
    Fail(ParseError),
    Done(Seq<(Seq<u8>, Seq<u8>)>, BodyDirective, int),
}

/// Reads header lines from `pos` until the empty line. A line without
/// a colon is skipped. A header name is lower-cased and trimmed, a
/// value trimmed. `Content-Length` must be decimal and within
/// `max_body`; `Transfer-Encoding` must be `chunked`; when both kinds
/// appear, the first seen directs the body. Line length and header
/// count are capped.
pub open spec fn parse_head(
    s: Seq<u8>,
    pos: int,
    count: nat,
    hs: Seq<(Seq<u8>, Seq<u8>)>,
    dir: BodyDirective,
    max_body: nat,
) -> HeadOutcome
    decreases s.len() - pos,
    via parse_head_dec
{
    match find_crlf_from(s, pos) {
        None => if s.len() - pos > LINE_CAP + 1 {
            HeadOutcome::Fail(ParseError::EntityTooLarge)
        } else {
            HeadOutcome::Incomplete
        },
        Some(j) => if j - pos > LINE_CAP as int {
            HeadOutcome::Fail(ParseError::EntityTooLarge)
        } else if j == pos {
            HeadOutcome::Done(hs, dir, j + 2)
        } else {
            let line = s.subrange(pos, j);
            if !all_ascii(line) {
                HeadOutcome::Fail(ParseError::BadRequest)
            } else {
                match find_byte_from(line, COLON, 0) {
                    None => parse_head(s, j + 2, count, hs, dir, max_body),
                    Some(c) => if count >= HEADER_CAP as nat {
                        HeadOutcome::Fail(ParseError::EntityTooLarge)
                    } else {
                        let key = spec_lower(spec_trim(line.take(c)));
                        let val = spec_trim(line.skip(c + 1));
                        if chars_of(key) == "content-length"@ {
                            if !all_digits(val) {
                                HeadOutcome::Fail(ParseError::BadRequest)
                            } else if dec_value(val) > max_body {
                                HeadOutcome::Fail(ParseError::EntityTooLarge)
                            } else {
                                parse_head(
                                    s,
                                    j + 2,
                                    count + 1,
                                    hs.push((key, val)),
                                    if dir is NoBody {
                                        BodyDirective::Fixed(dec_value(val))
                                    } else {
                                        dir
                                    },
                                    max_body,
                                )
                            }
                        } else if chars_of(key) == "transfer-encoding"@ {
                            if chars_of(spec_lower(val)) == "chunked"@ {
                                parse_head(
                                    s,
                                    j + 2,
                                    count + 1,
                                    hs.push((key, val)),
                                    if dir is NoBody {
                                        BodyDirective::Chunked
                                    } else {
                                        dir
                                    },
                                    max_body,
                                )
                            } else {
                                HeadOutcome::Fail(ParseError::BadRequest)
                            }
                        } else {
                            parse_head(s, j + 2, count + 1, hs.push((key, val)), dir, max_body)
                        }
                    },
                }
            }
        },
    }
}

#[via_fn]
proof fn parse_head_dec(
    s: Seq<u8>,
    pos: int,
    count: nat,
    hs: Seq<(Seq<u8>, Seq<u8>)>,
    dir: BodyDirective,
    max_body: nat,
) {
    if 0 <= pos {
        lemma_find_crlf_from(s, pos);
    }
}

/// The verdict on a chunked body from `pos`: the assembled bytes and
/// the position after the terminating frame.
pub ghost enum ChunkOutcome {
    Incomplete,
    Fail(ParseError),
    Done(Seq<u8>, int),
}

/// Reads chunk frames from `pos`: a hex size line, that many bytes,
/// a closing CRLF; a zero size ends the body. The assembled size is
/// capped at `max_body`.
pub open spec fn parse_chunks(s: Seq<u8>, pos: int, acc: Seq<u8>, max_body: nat) -> ChunkOutcome
    decreases s.len() - pos,
    via parse_chunks_dec
{
    match find_crlf_from(s, pos) {
        None => if s.len() - pos > LINE_CAP + 1 {
            ChunkOutcome::Fail(ParseError::EntityTooLarge)
        } else {
            ChunkOutcome::Incomplete
        },
        Some(j) => if j == pos {
            ChunkOutcome::Fail(ParseError::BadRequest)
        } else if j - pos > LINE_CAP as int {
            ChunkOutcome::Fail(ParseError::EntityTooLarge)
        } else {
            let line = s.subrange(pos, j);
            if !all_hex(line) {
                ChunkOutcome::Fail(ParseError::BadRequest)
            } else if acc.len() + hex_value(line) > max_body {
                ChunkOutcome::Fail(ParseError::EntityTooLarge)
            } else {
                let size = hex_value(line);
                if size == 0 {
                    if s.len() < j + 4 {
                        ChunkOutcome::Incomplete
                    } else if s[j + 2] == CR && s[j + 3] == LF {
                        ChunkOutcome::Done(acc, j + 4)
                    } else {
                        ChunkOutcome::Fail(ParseError::BadRequest)
                    }
                } else {
                    if s.len() < j + 2 + size + 2 {
                        ChunkOutcome::Incomplete
                    } else if s[j + 2 + size] == CR && s[j + 2 + size + 1] == LF {
                        parse_chunks(
                            s,
                            j + 2 + size + 2,
                            acc + s.subrange(j + 2, j + 2 + size),
                            max_body,
                        )
                    } else {
                        ChunkOutcome::Fail(ParseError::BadRequest)
                    }
                }
            }
        },
    }
}

#[via_fn]
proof fn parse_chunks_dec(s: Seq<u8>, pos: int, acc: Seq<u8>, max_body: nat) {
    if 0 <= pos {
        lemma_find_crlf_from(s, pos);
    }
}

/// The request that parsed tokens, headers and body denote.
pub open spec fn make_view(
    m: Seq<u8>,
    t: Seq<u8>,
    v: Seq<u8>,
    hs: Seq<(Seq<u8>, Seq<u8>)>,
    body: Option<Seq<u8>>,
) -> ReqView {
    ReqView {
        method: chars_of(m),
        path: chars_of(target_path(t)),
        query: chars_of(target_query(t)),
        version: chars_of(v),
        headers: headers_map(hs),
        query_params: pairs_map(query_pairs_of(target_query(t))),
        body,
    }
}

/// The verdict on the request line: the three tokens and the position
/// after the line's CRLF.
pub ghost enum RlOutcome {
    Incomplete,
    Fail(ParseError),
    Done(Seq<u8>, Seq<u8>, Seq<u8>, int),
}

/// Reads the request line: one capped, ASCII, CRLF-terminated line of
/// exactly three space-separated tokens.
pub open spec fn rl_outcome(s: Seq<u8>) -> RlOutcome {
    match find_crlf_from(s, 0) {
        None => if s.len() > LINE_CAP + 1 {
            RlOutcome::Fail(ParseError::EntityTooLarge)
        } else {
            RlOutcome::Incomplete
        },
        Some(j) => if j > LINE_CAP as int {
            RlOutcome::Fail(ParseError::EntityTooLarge)
        } else {
            let line = s.subrange(0, j);
            if !all_ascii(line) {
                RlOutcome::Fail(ParseError::BadRequest)
            } else {
                match split3(line) {
                    None => RlOutcome::Fail(ParseError::BadRequest),
                    Some((m, t, v)) => RlOutcome::Done(m, t, v, j + 2),
                }
            }
        },
    }
}

/// The verdict on the bytes received so far: the request line, then
/// the headers, then the body that the headers direct.
pub open spec fn classify(s: Seq<u8>, max_body: nat) -> SpecOutcome {
    match rl_outcome(s) {
        RlOutcome::Incomplete => SpecOutcome::Incomplete,
        RlOutcome::Fail(e) => SpecOutcome::Fail(e),
        RlOutcome::Done(m, t, v, hpos) => match parse_head(
            s,
            hpos,
            0,
            Seq::empty(),
            BodyDirective::NoBody,
            max_body,
        ) {
            HeadOutcome::Incomplete => SpecOutcome::Incomplete,
            HeadOutcome::Fail(e) => SpecOutcome::Fail(e),
            HeadOutcome::Done(hs, dir, bpos) => match dir {
                BodyDirective::NoBody => SpecOutcome::Complete(make_view(m, t, v, hs, None), bpos),
                BodyDirective::Fixed(n) => if s.len() >= bpos + n {
                    SpecOutcome::Complete(
                        make_view(
                            m,
                            t,
                            v,
                            hs,
                            if n == 0 {
                                None
                            } else {
                                Some(s.subrange(bpos, bpos + n))
                            },
                        ),
                        bpos + n,
                    )
                } else {
                    SpecOutcome::Incomplete
                },
                BodyDirective::Chunked => match parse_chunks(s, bpos, Seq::empty(), max_body) {
                    ChunkOutcome::Incomplete => SpecOutcome::Incomplete,
                    ChunkOutcome::Fail(e) => SpecOutcome::Fail(e),
                    ChunkOutcome::Done(body, end) => SpecOutcome::Complete(
                        make_view(m, t, v, hs, Some(body)),
                        end,
                    ),
                },
            },
        },
    }
}

/// A parsed request: the request-line tokens, the path and raw query
/// the target splits into, the header map, the decoded query map,
/// and the body bytes.
#[derive(Debug)]
pub struct HttpRequest {
    pub method: String,
    pub path: String,
    pub query: String,
    pub version: String,
    pub headers: HttpHeaders,
    pub query_params: StrMap,
    pub body: Option<Vec<u8>>,
}

impl View for HttpRequest {
    type V = ReqView;

    open spec fn view(&self) -> ReqView {
        ReqView {
            method: self.method@,
            path: self.path@,
            query: self.query@,
            version: self.version@,
            headers: self.headers@,
            query_params: self.query_params@,
            body: match self.body {
                Some(b) => Some(b@),
                None => None,
            },
        }
    }
}

impl HttpRequest {
    pub open spec fn wf(&self) -> bool {
        self.headers.wf() && self.query_params.wf()
    }

    /// The session id named in this request's `Cookie` header, if any.
    pub fn get_session_id(&self) -> (r: Option<String>)
        requires
            self.wf(),
        ensures
            match r {
                Some(v) => self@.headers.contains_key("cookie"@)
                    && crate::cookie::session_id_of_header(self@.headers["cookie"@]) == Some(
                    v@,
                ),
                None => !self@.headers.contains_key("cookie"@)
                    || crate::cookie::session_id_of_header(self@.headers["cookie"@]) is None,
            },
    {
        proof {
            reveal_strlit("cookie");
            reveal_strlit("Cookie");
        }
        match self.headers.get("cookie") {
            Some(v) => {
                assert(lower_chars("cookie"@) =~= "cookie"@) by {
                    assert(forall|i: int|
                        0 <= i < "cookie"@.len() ==> crate::strutil::lower_char(
                            #[trigger] "cookie"@[i],
                        ) == "cookie"@[i]);
                }
                crate::cookie::extract_session_id(Some(v.as_str()))
            },
            None => {
                assert(lower_chars("cookie"@) =~= "cookie"@) by {
                    assert(forall|i: int|
                        0 <= i < "cookie"@.len() ==> crate::strutil::lower_char(
                            #[trigger] "cookie"@[i],
                        ) == "cookie"@[i]);
                }
                crate::cookie::extract_session_id(None)
            },
        }
    }
}

/// The builder's stored verdict on its buffer.
#[derive(Debug)]
pub enum BuildState {
    Incomplete,
    Failed(ParseError),
    Complete(HttpRequest, usize),
}

/// The stored verdict says exactly what `classify` says.
pub open spec fn state_matches(st: BuildState, o: SpecOutcome) -> bool {
    match st {
        BuildState::Incomplete => o is Incomplete,
        BuildState::Failed(e) => o == SpecOutcome::Fail(e),
        BuildState::Complete(req, ext) => o matches SpecOutcome::Complete(rv, e2) && rv == req@
            && e2 == ext as int && req.wf(),
    }
}

/// Builds the query map from the raw ASCII query bytes. Form bodies
/// decode through the same `k=v&k=v` shape.
pub fn build_query_map(q: &[u8]) -> (r: StrMap)
    requires
        all_ascii(q@),
    ensures
        r.wf(),
        r@ == pairs_map(query_pairs_of(q@)),
{
    let n = q.len();
    let mut out = StrMap::new();
    let mut pos: usize = 0;
    let ghost full = query_pairs_of(q@);
    let ghost mut k: int = 0;
    proof {
        assert(q@.skip(0) =~= q@);
        assert(full.take(0) =~= Seq::<(Seq<u8>, Seq<u8>)>::empty());
    }
    loop
        invariant_except_break
            pos <= n,
            n == q@.len(),
            all_ascii(q@),
            full == query_pairs_of(q@),
            0 <= k <= full.len(),
            out.wf(),
            out@ == pairs_map(full.take(k)),
            query_pairs_of(q@.skip(pos as int)).len() + k == full.len(),
            forall|i: int|
                0 <= i < query_pairs_of(q@.skip(pos as int)).len() ==> full[k + i]
                    == query_pairs_of(q@.skip(pos as int))[i],
        ensures
            out.wf(),
            out@ == pairs_map(full),
        decreases n - pos,
    {
        let ghost tail = q@.skip(pos as int);
        let ghost parsed_here = query_pairs_of(tail);
        let seg_end = match find_byte(q, crate::bytes::AMP, pos) {
            Some(j) => j,
            None => n,
        };
        let ghost segidx: int = if seg_end < n {
            seg_end - pos
        } else {
            tail.len() as int
        };
        proof {
            crate::bytes::lemma_find_byte_shift(q@, crate::bytes::AMP, pos as int);
            if seg_end < n {
                assert(find_byte_from(tail, crate::bytes::AMP, 0) == Some(segidx));
            } else {
                assert(find_byte_from(tail, crate::bytes::AMP, 0) is None);
            }
            assert(tail.take(segidx) =~= q@.subrange(pos as int, seg_end as int));
        }
        let seg = copy_range(q, pos, seg_end);
        let ghost piece: Seq<(Seq<u8>, Seq<u8>)> = (match find_byte_from(
            seg@,
            crate::bytes::EQ,
            0,
        ) {
            Some(e) => seq![(seg@.take(e), seg@.skip(e + 1))],
            None => Seq::empty(),
        });
        let ghost rest: Seq<(Seq<u8>, Seq<u8>)> = (if seg_end < n {
            query_pairs_of(q@.skip(seg_end + 1))
        } else {
            Seq::empty()
        });
        proof {
            if seg_end < n {
                assert(tail.skip(segidx + 1) =~= q@.skip(seg_end + 1));
            }
            assert(parsed_here == piece + rest);
        }
        match find_byte(seg.as_slice(), crate::bytes::EQ, 0) {
            Some(e) => {
                let kb = copy_range(seg.as_slice(), 0, e);
                let vb = copy_range(seg.as_slice(), e + 1, seg.len());
                proof {
                    assert(kb@ =~= seg@.take(e as int));
                    assert(vb@ =~= seg@.skip(e + 1));
                    assert(all_ascii(kb@) && all_ascii(vb@)) by {
                        assert(forall|i: int|
                            0 <= i < seg@.len() ==> seg@[i] == q@[pos + i]);
                    }
                }
                let ks = ascii_string_of(kb.as_slice());
                let vs = ascii_string_of(vb.as_slice());
                out.insert(ks.as_str(), vs.as_str());
                proof {
                    assert(piece.len() == 1);
                    assert(parsed_here.len() == 1 + rest.len());
                    assert(parsed_here[0] == piece[0]);
                    assert(full[k + 0] == parsed_here[0]);
                    assert(full[k] == piece[0]);
                    assert(full.take(k + 1).drop_last() =~= full.take(k));
                    assert(full.take(k + 1).last() == full[k]);
                    assert(out@ == pairs_map(full.take(k + 1)));
                    k = k + 1;
                }
            },
            None => {},
        }
        proof {
            assert(forall|i: int|
                0 <= i < rest.len() ==> parsed_here[piece.len() + i] == rest[i]);
            assert(forall|i: int| 0 <= i < rest.len() ==> full[k + i] == rest[i]);
        }
        if seg_end >= n {
            proof {
                assert(rest.len() == 0);
                assert(k == full.len());
                assert(full.take(k) =~= full);
            }
            break;
        }
        pos = seg_end + 1;
    }
    out
}

/// The body framing read out of the headers, as executable data.
#[derive(Debug, Clone, Copy)]
pub enum BodyKind {
    NoBody,
    Fixed(usize),
    Chunked,
}

pub open spec fn kind_matches(k: BodyKind, d: BodyDirective) -> bool {
    match k {
        BodyKind::NoBody => d is NoBody,
        BodyKind::Fixed(n) => d matches BodyDirective::Fixed(m) && m == n as nat,
        BodyKind::Chunked => d is Chunked,
    }
}

enum RlScan {
    Incomplete,
    Failed(ParseError),
    Done(Vec<u8>, Vec<u8>, Vec<u8>, usize),
}

/// Reads the request line out of the buffer.
fn scan_request_line(buf: &[u8]) -> (r: RlScan)
    ensures
        match r {
            RlScan::Incomplete => rl_outcome(buf@) is Incomplete,
            RlScan::Failed(e) => rl_outcome(buf@) == RlOutcome::Fail(e),
            RlScan::Done(m, t, v, hpos) => rl_outcome(buf@) == RlOutcome::Done(
                m@,
                t@,
                v@,
                hpos as int,
            ) && all_ascii(m@) && all_ascii(t@) && all_ascii(v@) && hpos <= buf@.len(),
        },
{
    let j = match find_crlf(buf, 0) {
        None => {
            if buf.len() > LINE_CAP + 1 {
                return RlScan::Failed(ParseError::EntityTooLarge);
            }
            return RlScan::Incomplete;
        },
        Some(j) => j,
    };
    if j > LINE_CAP {
        return RlScan::Failed(ParseError::EntityTooLarge);
    }
    let line = copy_range(buf, 0, j);
    proof {
        assert(line@ =~= buf@.subrange(0, j as int));
    }
    if !check_all_ascii(line.as_slice()) {
        return RlScan::Failed(ParseError::BadRequest);
    }
    let i1 = match find_byte(line.as_slice(), SP, 0) {
        None => {
            return RlScan::Failed(ParseError::BadRequest);
        },
        Some(i) => i,
    };
    let i2 = match find_byte(line.as_slice(), SP, i1 + 1) {
        None => {
            return RlScan::Failed(ParseError::BadRequest);
        },
        Some(i) => i,
    };
    if !(0 < i1 && i1 + 1 < i2 && i2 + 1 < line.len()) {
        return RlScan::Failed(ParseError::BadRequest);
    }
    match find_byte(line.as_slice(), SP, i2 + 1) {
        Some(_) => {
            return RlScan::Failed(ParseError::BadRequest);
        },
        None => {},
    }
    let m = copy_range(line.as_slice(), 0, i1);
    let t = copy_range(line.as_slice(), i1 + 1, i2);
    let v = copy_range(line.as_slice(), i2 + 1, line.len());
    proof {
        assert(m@ =~= line@.take(i1 as int));
        assert(t@ =~= line@.subrange(i1 + 1, i2 as int));
        assert(v@ =~= line@.skip(i2 + 1));
        assert(split3(line@) == Some((m@, t@, v@)));
    }
    RlScan::Done(m, t, v, j + 2)
}

enum HeadScan {
    Incomplete,
    Failed(ParseError),
    Done(HttpHeaders, BodyKind, usize),
}

/// Reads the header section out of the buffer from `hpos`.
fn scan_head(buf: &[u8], hpos: usize, max_body: usize) -> (r: HeadScan)
    requires
        hpos <= buf@.len(),
    ensures
        match r {
            HeadScan::Incomplete => parse_head(
                buf@,
                hpos as int,
                0,
                Seq::empty(),
                BodyDirective::NoBody,
                max_body as nat,
            ) is Incomplete,
            HeadScan::Failed(e) => parse_head(
                buf@,
                hpos as int,
                0,
                Seq::empty(),
                BodyDirective::NoBody,
                max_body as nat,
            ) == HeadOutcome::Fail(e),
            HeadScan::Done(headers, kind, bpos) => parse_head(
                buf@,
                hpos as int,
                0,
                Seq::empty(),
                BodyDirective::NoBody,
                max_body as nat,
            ) matches HeadOutcome::Done(hs, dir, bp) && headers@ == headers_map(hs)
                && headers.wf() && bp == bpos as int && kind_matches(kind, dir) && bpos
                <= buf@.len() && (kind matches BodyKind::Fixed(n) ==> n <= max_body),
        },
{
    let ghost goal = parse_head(
        buf@,
        hpos as int,
        0,
        Seq::empty(),
        BodyDirective::NoBody,
        max_body as nat,
    );
    let buf_len = buf.len();
    let mut pos: usize = hpos;
    let mut count: usize = 0;
    let mut headers = HttpHeaders::new();
    let mut kind = BodyKind::NoBody;
    let ghost mut hs: Seq<(Seq<u8>, Seq<u8>)> = Seq::empty();
    let ghost mut dir: BodyDirective = BodyDirective::NoBody;
    loop
        invariant_except_break
            buf_len == buf@.len(),
            hpos <= pos <= buf@.len(),
            count <= HEADER_CAP,
            count == hs.len(),
            headers.wf(),
            headers@ == headers_map(hs),
            kind_matches(kind, dir),
            kind matches BodyKind::Fixed(n) ==> n <= max_body,
            goal == parse_head(
                buf@,
                hpos as int,
                0,
                Seq::empty(),
                BodyDirective::NoBody,
                max_body as nat,
            ),
            goal == parse_head(buf@, pos as int, count as nat, hs, dir, max_body as nat),
        ensures
            headers.wf(),
            pos <= buf@.len(),
            kind matches BodyKind::Fixed(n) ==> n <= max_body,
            goal matches HeadOutcome::Done(hs2, dir2, bp2) && headers@ == headers_map(hs2)
                && kind_matches(kind, dir2) && bp2 == pos as int,
        decreases buf@.len() - pos,
    {
        let j = match find_crlf(buf, pos) {
            None => {
                if buf.len() - pos > LINE_CAP + 1 {
                    return HeadScan::Failed(ParseError::EntityTooLarge);
                }
                return HeadScan::Incomplete;
            },
            Some(j) => j,
        };
        assert(pos <= j && j + 2 <= buf_len);
        if j - pos > LINE_CAP {
            return HeadScan::Failed(ParseError::EntityTooLarge);
        }
        if j == pos {
            pos = j + 2;
            break;
        }
        let lineh = copy_range(buf, pos, j);
        proof {
            assert(lineh@ =~= buf@.subrange(pos as int, j as int));
        }
        if !check_all_ascii(lineh.as_slice()) {
            return HeadScan::Failed(ParseError::BadRequest);
        }
        let c = match find_byte(lineh.as_slice(), COLON, 0) {
            None => {
                pos = j + 2;
                continue;
            },
            Some(c) => c,
        };
        if count >= HEADER_CAP {
            return HeadScan::Failed(ParseError::EntityTooLarge);
        }
        let key_raw = copy_range(lineh.as_slice(), 0, c);
        let key_trim = trim_bytes(key_raw.as_slice());
        let keyb = lower_bytes(key_trim.as_slice());
        let val_raw = copy_range(lineh.as_slice(), c + 1, lineh.len());
        let valb = trim_bytes(val_raw.as_slice());
        let ghost keyg = spec_lower(spec_trim(lineh@.take(c as int)));
        let ghost valg = spec_trim(lineh@.skip(c + 1));
        proof {
            assert(key_raw@ =~= lineh@.take(c as int));
            assert(val_raw@ =~= lineh@.skip(c + 1));
            assert(keyb@ == keyg);
            assert(valb@ == valg);
            crate::bytes::lemma_trim_ascii(key_raw@);
            crate::bytes::lemma_trim_ascii(val_raw@);
            assert(all_ascii(keyb@)) by {
                assert(forall|i: int|
                    0 <= i < keyb@.len() ==> keyb@[i] == crate::bytes::lower_byte(
                        key_trim@[i],
                    ));
            }
            assert(forall|i: int| 0 <= i < keyb@.len() ==> !(65 <= keyb@[i] && keyb@[i] <= 90))
                by {
                assert(forall|i: int|
                    0 <= i < keyb@.len() ==> keyb@[i] == crate::bytes::lower_byte(
                        key_trim@[i],
                    ));
            }
        }
        let keystr = ascii_string_of(keyb.as_slice());
        let valstr = ascii_string_of(valb.as_slice());
        proof {
            crate::strutil::lemma_lower_chars_no_upper(keyb@);
        }
        if crate::strutil::str_eq(keystr.as_str(), "content-length") {
            if !check_all_digits(valb.as_slice()) {
                return HeadScan::Failed(ParseError::BadRequest);
            }
            let n = match parse_decimal(valb.as_slice(), max_body) {
                None => {
                    return HeadScan::Failed(ParseError::EntityTooLarge);
                },
                Some(n) => n,
            };
            headers.insert(keystr.as_str(), valstr.as_str());
            match kind {
                BodyKind::NoBody => {
                    kind = BodyKind::Fixed(n);
                },
                _ => {},
            }
            proof {
                let prev = hs;
                hs = hs.push((keyg, valg));
                assert(hs.drop_last() =~= prev);
                assert(hs.last() == (keyg, valg));
                assert(headers@ == headers_map(hs));
                dir = (if dir is NoBody {
                    BodyDirective::Fixed(dec_value(valg))
                } else {
                    dir
                });
            }
            count = count + 1;
            pos = j + 2;
        } else if crate::strutil::str_eq(keystr.as_str(), "transfer-encoding") {
            let lowval = lower_bytes(valb.as_slice());
            proof {
                assert(all_ascii(lowval@)) by {
                    assert(forall|i: int|
                        0 <= i < lowval@.len() ==> lowval@[i] == crate::bytes::lower_byte(
                            valb@[i],
                        ));
                }
            }
            let lowstr = ascii_string_of(lowval.as_slice());
            if !crate::strutil::str_eq(lowstr.as_str(), "chunked") {
                return HeadScan::Failed(ParseError::BadRequest);
            }
            headers.insert(keystr.as_str(), valstr.as_str());
            match kind {
                BodyKind::NoBody => {
                    kind = BodyKind::Chunked;
                },
                _ => {},
            }
            proof {
                let prev = hs;
                hs = hs.push((keyg, valg));
                assert(hs.drop_last() =~= prev);
                assert(hs.last() == (keyg, valg));
                assert(headers@ == headers_map(hs));
                dir = (if dir is NoBody {
                    BodyDirective::Chunked
                } else {
                    dir
                });
            }
            count = count + 1;
            pos = j + 2;
        } else {
            headers.insert(keystr.as_str(), valstr.as_str());
            proof {
                let prev = hs;
                hs = hs.push((keyg, valg));
                assert(hs.drop_last() =~= prev);
                assert(hs.last() == (keyg, valg));
                assert(headers@ == headers_map(hs));
            }
            count = count + 1;
            pos = j + 2;
        }
    }
    HeadScan::Done(headers, kind, pos)
}

enum ChunkScan {
    Incomplete,
    Failed(ParseError),
    Done(Vec<u8>, usize),
}

/// Reads the chunked body out of the buffer from `bpos`.
fn scan_chunks(buf: &[u8], bpos: usize, max_body: usize) -> (r: ChunkScan)
    requires
        bpos <= buf@.len(),
    ensures
        match r {
            ChunkScan::Incomplete => parse_chunks(
                buf@,
                bpos as int,
                Seq::empty(),
                max_body as nat,
            ) is Incomplete,
            ChunkScan::Failed(e) => parse_chunks(
                buf@,
                bpos as int,
                Seq::empty(),
                max_body as nat,
            ) == ChunkOutcome::Fail(e),
            ChunkScan::Done(body, end) => parse_chunks(
                buf@,
                bpos as int,
                Seq::empty(),
                max_body as nat,
            ) == ChunkOutcome::Done(body@, end as int) && end <= buf@.len() && body@.len()
                <= max_body,
        },
{
    let ghost goal = parse_chunks(buf@, bpos as int, Seq::empty(), max_body as nat);
    let buf_len = buf.len();
    let mut pos: usize = bpos;
    let mut acc: Vec<u8> = Vec::new();
    loop
        invariant_except_break
            buf_len == buf@.len(),
            bpos <= pos <= buf@.len(),
            acc@.len() <= max_body,
            goal == parse_chunks(buf@, bpos as int, Seq::empty(), max_body as nat),
            goal == parse_chunks(buf@, pos as int, acc@, max_body as nat),
        ensures
            goal matches ChunkOutcome::Done(b2, e2) && b2 == acc@ && e2 == pos as int && pos
                <= buf@.len() && acc@.len() <= max_body,
        decreases buf@.len() - pos,
    {
        let j = match find_crlf(buf, pos) {
            None => {
                if buf.len() - pos > LINE_CAP + 1 {
                    return ChunkScan::Failed(ParseError::EntityTooLarge);
                }
                return ChunkScan::Incomplete;
            },
            Some(j) => j,
        };
        assert(pos <= j && j + 2 <= buf_len);
        if j == pos {
            return ChunkScan::Failed(ParseError::BadRequest);
        }
        if j - pos > LINE_CAP {
            return ChunkScan::Failed(ParseError::EntityTooLarge);
        }
        let line = copy_range(buf, pos, j);
        proof {
            assert(line@ =~= buf@.subrange(pos as int, j as int));
        }
        if !check_all_hex(line.as_slice()) {
            return ChunkScan::Failed(ParseError::BadRequest);
        }
        let size = match parse_hex(line.as_slice(), max_body) {
            None => {
                return ChunkScan::Failed(ParseError::EntityTooLarge);
            },
            Some(sz) => sz,
        };
        if size > max_body - acc.len() {
            return ChunkScan::Failed(ParseError::EntityTooLarge);
        }
        if size == 0 {
            if buf_len - j < 4 {
                return ChunkScan::Incomplete;
            }
            if buf[j + 2] == CR && buf[j + 3] == LF {
                pos = j + 4;
                break;
            }
            return ChunkScan::Failed(ParseError::BadRequest);
        }
        let data_avail = buf_len - (j + 2);
        if data_avail < size || data_avail - size < 2 {
            return ChunkScan::Incomplete;
        }
        if !(buf[j + 2 + size] == CR && buf[j + 2 + size + 1] == LF) {
            return ChunkScan::Failed(ParseError::BadRequest);
        }
        let ghost acc_old = acc@;
        let mut piece = copy_range(buf, j + 2, j + 2 + size);
        acc.append(&mut piece);
        proof {
            assert(acc@ =~= acc_old + buf@.subrange(j + 2, j + 2 + size));
        }
        pos = j + 2 + size + 2;
    }
    ChunkScan::Done(acc, pos)
}

/// Assembles the parsed request from its raw pieces.
fn assemble_request(
    m: Vec<u8>,
    t: Vec<u8>,
    v: Vec<u8>,
    headers: HttpHeaders,
    body: Option<Vec<u8>>,
    Ghost(hs): Ghost<Seq<(Seq<u8>, Seq<u8>)>>,
) -> (r: HttpRequest)
    requires
        all_ascii(m@),
        all_ascii(t@),
        all_ascii(v@),
        headers.wf(),
        headers@ == headers_map(hs),
    ensures
        r.wf(),
        r@ == make_view(
            m@,
            t@,
            v@,
            hs,
            match body {
                Some(b) => Some(b@),
                None => None,
            },
        ),
{
    let t_len = t.len();
    let (path_b, query_b) = match find_byte(t.as_slice(), QMARK, 0) {
        Some(q) => {
            let p = copy_range(t.as_slice(), 0, q);
            let qb = copy_range(t.as_slice(), q + 1, t_len);
            proof {
                assert(p@ =~= target_path(t@));
                assert(qb@ =~= target_query(t@));
            }
            (p, qb)
        },
        None => {
            let p = copy_range(t.as_slice(), 0, t.len());
            let qb: Vec<u8> = Vec::new();
            proof {
                assert(p@ =~= target_path(t@));
                assert(qb@ =~= target_query(t@));
            }
            (p, qb)
        },
    };
    proof {
        assert(all_ascii(path_b@) && all_ascii(query_b@)) by {
            assert(forall|i: int|
                0 <= i < path_b@.len() ==> exists|k: int|
                    0 <= k < t@.len() && #[trigger] path_b@[i] == t@[k]) by {
                assert(forall|i: int| 0 <= i < path_b@.len() ==> path_b@[i] == t@[i]);
            }
            assert(forall|i: int| 0 <= i < path_b@.len() ==> path_b@[i] < 128) by {
                assert(forall|i: int| 0 <= i < path_b@.len() ==> path_b@[i] == t@[i]);
            }
            assert(forall|i: int| 0 <= i < query_b@.len() ==> query_b@[i] < 128) by {
                match find_byte_from(t@, QMARK, 0) {
                    Some(q) => {
                        assert(forall|i: int|
                            0 <= i < query_b@.len() ==> query_b@[i] == t@[q + 1 + i]);
                    },
                    None => {},
                }
            }
        }
    }
    let query_params = build_query_map(query_b.as_slice());
    let method = ascii_string_of(m.as_slice());
    let path = ascii_string_of(path_b.as_slice());
    let query = ascii_string_of(query_b.as_slice());
    let version = ascii_string_of(v.as_slice());
    HttpRequest { method, path, query, version, headers, query_params, body }
}

/// Reads the whole buffer: the verdict is exactly `classify`.
pub fn parse_buffer(buf: &[u8], max_body: usize) -> (r: BuildState)
    ensures
        state_matches(r, classify(buf@, max_body as nat)),
{
    let buf_len = buf.len();
    let (m, t, v, hpos) = match scan_request_line(buf) {
        RlScan::Incomplete => {
            return BuildState::Incomplete;
        },
        RlScan::Failed(e) => {
            return BuildState::Failed(e);
        },
        RlScan::Done(m, t, v, hpos) => (m, t, v, hpos),
    };
    let (headers, kind, bpos) = match scan_head(buf, hpos, max_body) {
        HeadScan::Incomplete => {
            return BuildState::Incomplete;
        },
        HeadScan::Failed(e) => {
            return BuildState::Failed(e);
        },
        HeadScan::Done(headers, kind, bpos) => (headers, kind, bpos),
    };
    let ghost hs = (match parse_head(
        buf@,
        hpos as int,
        0,
        Seq::empty(),
        BodyDirective::NoBody,
        max_body as nat,
    ) {
        HeadOutcome::Done(hs, d, b) => hs,
        _ => Seq::empty(),
    });
    match kind {
        BodyKind::NoBody => {
            let req = assemble_request(m, t, v, headers, None, Ghost(hs));
            BuildState::Complete(req, bpos)
        },
        BodyKind::Fixed(n) => {
            if buf_len - bpos < n {
                return BuildState::Incomplete;
            }
            let body = if n == 0 {
                None
            } else {
                Some(copy_range(buf, bpos, bpos + n))
            };
            let req = assemble_request(m, t, v, headers, body, Ghost(hs));
            BuildState::Complete(req, bpos + n)
        },
        BodyKind::Chunked => {
            match scan_chunks(buf, bpos, max_body) {
                ChunkScan::Incomplete => BuildState::Incomplete,
                ChunkScan::Failed(e) => BuildState::Failed(e),
                ChunkScan::Done(body, end) => {
                    let req = assemble_request(m, t, v, headers, Some(body), Ghost(hs));
                    BuildState::Complete(req, end)
                },
            }
        },
    }
}

/// What appending bytes does to the stored buffer: nothing once the
/// verdict is settled, otherwise the bytes are taken in.
pub open spec fn spec_feed(buf: Seq<u8>, data: Seq<u8>, max_body: nat) -> Seq<u8> {
    if classify(buf, max_body) is Incomplete {
        buf + data
    } else {
        buf
    }
}

/// The incremental parser: a growing buffer and the verdict on it.
#[derive(Debug)]
pub struct HttpRequestBuilder {
    buffer: Vec<u8>,
    max_body: usize,
    state: BuildState,
}

impl HttpRequestBuilder {
    /// The bytes taken in so far.
    pub closed spec fn buf(&self) -> Seq<u8> {
        self.buffer@
    }

    /// The body cap this parser enforces.
    pub closed spec fn max(&self) -> nat {
        self.max_body as nat
    }

    pub closed spec fn wf(&self) -> bool {
        state_matches(self.state, classify(self.buffer@, self.max_body as nat))
    }

    /// A fresh parser with no byte taken in and no body cap.
    pub fn new() -> (r: HttpRequestBuilder)
        ensures
            r.wf(),
            r.buf() == Seq::<u8>::empty(),
            r.max() == usize::MAX as nat,
    {
        HttpRequestBuilder::new_with_limit(usize::MAX)
    }

    /// A fresh parser that rejects bodies over `max_body` bytes.
    pub fn new_with_limit(max_body: usize) -> (r: HttpRequestBuilder)
        ensures
            r.wf(),
            r.buf() == Seq::<u8>::empty(),
            r.max() == max_body as nat,
    {
        let buffer: Vec<u8> = Vec::new();
        proof {
            lemma_find_crlf_from(buffer@, 0);
        }
        HttpRequestBuilder { buffer, max_body, state: BuildState::Incomplete }
    }

    /// Takes in newly read bytes; a settled verdict is kept as it is.
    /// The error names what rejected the bytes.
    pub fn append(&mut self, data: Vec<u8>) -> (r: Result<(), ParseError>)
        requires
            old(self).wf(),
        ensures
            final(self).wf(),
            final(self).max() == old(self).max(),
            final(self).buf() == spec_feed(old(self).buf(), data@, old(self).max()),
            match r {
                Ok(()) => !(classify(final(self).buf(), final(self).max()) is Fail),
                Err(e) => classify(final(self).buf(), final(self).max()) == SpecOutcome::Fail(
                    e,
                ),
            },
    {
        match &self.state {
            BuildState::Complete(_, _) => Ok(()),
            BuildState::Failed(e) => Err(*e),
            BuildState::Incomplete => {
                let ghost pre = self.buffer@;
                let mut moved = data;
                let ghost dv = moved@;
                self.buffer.append(&mut moved);
                proof {
                    assert(self.buffer@ == pre + dv);
                }
                let st = parse_buffer(self.buffer.as_slice(), self.max_body);
                let out = match &st {
                    BuildState::Failed(e) => Err(*e),
                    _ => Ok(()),
                };
                self.state = st;
                out
            },
        }
    }

    /// True when a complete request is available.
    pub fn done(&self) -> (r: bool)
        requires
            self.wf(),
        ensures
            r == (classify(self.buf(), self.max()) is Complete),
    {
        match &self.state {
            BuildState::Complete(_, _) => true,
            _ => false,
        }
    }

    /// The parsed request, once complete.
    pub fn get(&self) -> (r: Option<&HttpRequest>)
        requires
            self.wf(),
        ensures
            match r {
                Some(req) => classify(self.buf(), self.max()) matches SpecOutcome::Complete(
                    rv,
                    _,
                ) && rv == req@ && req.wf(),
                None => !(classify(self.buf(), self.max()) is Complete),
            },
    {
        match &self.state {
            BuildState::Complete(req, _) => Some(req),
            _ => None,
        }
    }
}

/// Where a finished header section ends: past its start, inside the
/// bytes.
proof fn lemma_head_bounds(
    s: Seq<u8>,
    pos: int,
    count: nat,
    hs: Seq<(Seq<u8>, Seq<u8>)>,
    dir: BodyDirective,
    max_body: nat,
)
    requires
        0 <= pos <= s.len(),
        parse_head(s, pos, count, hs, dir, max_body) is Done,
    ensures
        parse_head(s, pos, count, hs, dir, max_body) matches HeadOutcome::Done(_, _, end)
            && pos + 2 <= end <= s.len() && (find_crlf_from(s, pos) matches Some(j) ==> end >= j
            + 2),
    decreases s.len() - pos,
{
    lemma_find_crlf_from(s, pos);
    match find_crlf_from(s, pos) {
        Some(j) => {
            if j - pos > LINE_CAP as int {
            } else if j == pos {
            } else {
                let line = s.subrange(pos, j);
                if all_ascii(line) {
                    match find_byte_from(line, COLON, 0) {
                        None => {
                            lemma_head_bounds(s, j + 2, count, hs, dir, max_body);
                        },
                        Some(c) => {
                            if count < HEADER_CAP as nat {
                                let key = spec_lower(spec_trim(line.take(c)));
                                let val = spec_trim(line.skip(c + 1));
                                if chars_of(key) == "content-length"@ {
                                    if all_digits(val) && dec_value(val) <= max_body {
                                        lemma_head_bounds(
                                            s,
                                            j + 2,
                                            count + 1,
                                            hs.push((key, val)),
                                            if dir is NoBody {
                                                BodyDirective::Fixed(dec_value(val))
                                            } else {
                                                dir
                                            },
                                            max_body,
                                        );
                                    }
                                } else if chars_of(key) == "transfer-encoding"@ {
                                    if chars_of(spec_lower(val)) == "chunked"@ {
                                        lemma_head_bounds(
                                            s,
                                            j + 2,
                                            count + 1,
                                            hs.push((key, val)),
                                            if dir is NoBody {
                                                BodyDirective::Chunked
                                            } else {
                                                dir
                                            },
                                            max_body,
                                        );
                                    }
                                } else {
                                    lemma_head_bounds(
                                        s,
                                        j + 2,
                                        count + 1,
                                        hs.push((key, val)),
                                        dir,
                                        max_body,
                                    );
                                }
                            }
                        },
                    }
                }
            }
        },
        None => {},
    }
}

/// Where a finished chunked body ends: past its start, inside the
/// bytes.
proof fn lemma_chunks_bounds(s: Seq<u8>, pos: int, acc: Seq<u8>, max_body: nat)
    requires
        0 <= pos <= s.len(),
        parse_chunks(s, pos, acc, max_body) is Done,
    ensures
        parse_chunks(s, pos, acc, max_body) matches ChunkOutcome::Done(_, end) && pos < end
            <= s.len() && (find_crlf_from(s, pos) matches Some(j) ==> end >= j + 2),
    decreases s.len() - pos,
{
    lemma_find_crlf_from(s, pos);
    match find_crlf_from(s, pos) {
        Some(j) => {
            if j == pos || j - pos > LINE_CAP as int {
            } else {
                let line = s.subrange(pos, j);
                if all_hex(line) && acc.len() + hex_value(line) <= max_body {
                    let size = hex_value(line);
                    if size > 0 && s.len() >= j + 2 + size + 2 && s[j + 2 + size] == CR && s[j
                        + 2 + size + 1] == LF {
                        lemma_chunks_bounds(
                            s,
                            j + 2 + size + 2,
                            acc + s.subrange(j + 2, j + 2 + size),
                            max_body,
                        );
                    }
                }
            }
        },
        None => {},
    }
}

/// What a byte prefix of finished request-line bytes parses to:
/// the same tokens once the whole line is in, nothing sooner.
proof fn lemma_rl_prefix(p: Seq<u8>, u: Seq<u8>)
    requires
        p.len() <= u.len(),
        p == u.take(p.len() as int),
        rl_outcome(u) is Done,
    ensures
        rl_outcome(u) matches RlOutcome::Done(m, t, v, hpos) && 2 <= hpos <= u.len() && (
        if p.len() >= hpos {
            rl_outcome(p) == rl_outcome(u)
        } else {
            rl_outcome(p) is Incomplete
        }),
{
    crate::bytes::lemma_find_crlf_prefix(p, u, 0);
    lemma_find_crlf_from(u, 0);
    let j = find_crlf_from(u, 0)->Some_0;
    if p.len() >= j + 2 {
        assert(p.subrange(0, j) =~= u.subrange(0, j));
    } else {
        assert(p.len() <= j + 1);
        assert(j <= LINE_CAP as int);
    }
}

/// What a byte prefix of a finished header section parses to: the
/// same headers once all its bytes are in, nothing sooner.
proof fn lemma_head_prefix(
    p: Seq<u8>,
    u: Seq<u8>,
    pos: int,
    count: nat,
    hs: Seq<(Seq<u8>, Seq<u8>)>,
    dir: BodyDirective,
    max_body: nat,
)
    requires
        0 <= pos <= p.len() <= u.len(),
        p == u.take(p.len() as int),
        parse_head(u, pos, count, hs, dir, max_body) is Done,
    ensures
        parse_head(u, pos, count, hs, dir, max_body) matches HeadOutcome::Done(_, _, end) && (
        if p.len() >= end {
            parse_head(p, pos, count, hs, dir, max_body) == parse_head(
                u,
                pos,
                count,
                hs,
                dir,
                max_body,
            )
        } else {
            parse_head(p, pos, count, hs, dir, max_body) is Incomplete
        }),
    decreases u.len() - pos,
{
    lemma_head_bounds(u, pos, count, hs, dir, max_body);
    crate::bytes::lemma_find_crlf_prefix(p, u, pos);
    lemma_find_crlf_from(u, pos);
    let j = find_crlf_from(u, pos)->Some_0;
    let end = (match parse_head(u, pos, count, hs, dir, max_body) {
        HeadOutcome::Done(_, _, e) => e,
        _ => 0,
    });
    if p.len() >= j + 2 {
        let linep = p.subrange(pos, j);
        let lineu = u.subrange(pos, j);
        assert(linep =~= lineu);
        if j == pos {
        } else {
            match find_byte_from(lineu, COLON, 0) {
                None => {
                    lemma_head_prefix(p, u, j + 2, count, hs, dir, max_body);
                },
                Some(c) => {
                    let key = spec_lower(spec_trim(lineu.take(c)));
                    let val = spec_trim(lineu.skip(c + 1));
                    if chars_of(key) == "content-length"@ {
                        lemma_head_prefix(
                            p,
                            u,
                            j + 2,
                            count + 1,
                            hs.push((key, val)),
                            if dir is NoBody {
                                BodyDirective::Fixed(dec_value(val))
                            } else {
                                dir
                            },
                            max_body,
                        );
                    } else if chars_of(key) == "transfer-encoding"@ {
                        lemma_head_prefix(
                            p,
                            u,
                            j + 2,
                            count + 1,
                            hs.push((key, val)),
                            if dir is NoBody {
                                BodyDirective::Chunked
                            } else {
                                dir
                            },
                            max_body,
                        );
                    } else {
                        lemma_head_prefix(
                            p,
                            u,
                            j + 2,
                            count + 1,
                            hs.push((key, val)),
                            dir,
                            max_body,
                        );
                    }
                },
            }
        }
    } else {
        assert(p.len() - pos <= j + 1 - pos);
        assert(j - pos <= LINE_CAP as int);
        assert(parse_head(p, pos, count, hs, dir, max_body) is Incomplete);
        assert(p.len() < j + 2);
        assert(j + 2 <= end);
    }
}

/// What a byte prefix of a finished chunked body parses to: the same
/// body once all its bytes are in, nothing sooner.
proof fn lemma_chunks_prefix(p: Seq<u8>, u: Seq<u8>, pos: int, acc: Seq<u8>, max_body: nat)
    requires
        0 <= pos <= p.len() <= u.len(),
        p == u.take(p.len() as int),
        parse_chunks(u, pos, acc, max_body) is Done,
    ensures
        parse_chunks(u, pos, acc, max_body) matches ChunkOutcome::Done(_, end) && (if p.len()
            >= end {
            parse_chunks(p, pos, acc, max_body) == parse_chunks(u, pos, acc, max_body)
        } else {
            parse_chunks(p, pos, acc, max_body) is Incomplete
        }),
    decreases u.len() - pos,
{
    lemma_chunks_bounds(u, pos, acc, max_body);
    crate::bytes::lemma_find_crlf_prefix(p, u, pos);
    lemma_find_crlf_from(u, pos);
    let j = find_crlf_from(u, pos)->Some_0;
    let end = (match parse_chunks(u, pos, acc, max_body) {
        ChunkOutcome::Done(_, e) => e,
        _ => 0,
    });
    if p.len() >= j + 2 {
        let linep = p.subrange(pos, j);
        let lineu = u.subrange(pos, j);
        assert(linep =~= lineu);
        let size = hex_value(lineu);
        if size == 0 {
            if p.len() >= j + 4 {
                assert(p[j + 2] == u[j + 2] && p[j + 3] == u[j + 3]);
            } else {
                assert(p.len() < j + 4);
                assert(end == j + 4);
            }
        } else {
            if p.len() >= j + 2 + size + 2 {
                assert(p[j + 2 + size] == u[j + 2 + size] && p[j + 2 + size + 1] == u[j + 2
                    + size + 1]);
                assert(p.subrange(j + 2, j + 2 + size) =~= u.subrange(j + 2, j + 2 + size));
                lemma_chunks_prefix(
                    p,
                    u,
                    j + 2 + size + 2,
                    acc + u.subrange(j + 2, j + 2 + size),
                    max_body,
                );
            } else {
                lemma_chunks_bounds(
                    u,
                    j + 2 + size + 2,
                    acc + u.subrange(j + 2, j + 2 + size),
                    max_body,
                );
                assert(p.len() < end);
            }
        }
    } else {
        assert(p.len() - pos <= j + 1 - pos);
        assert(j - pos <= LINE_CAP as int);
        assert(p.len() < j + 2);
        assert(j + 2 <= end);
    }
}

/// What a byte prefix of a complete request parses to: the same
/// request once all its bytes are in, nothing sooner, and never an
/// error.
pub proof fn lemma_classify_prefix(p: Seq<u8>, u: Seq<u8>, max_body: nat)
    requires
        p.len() <= u.len(),
        p == u.take(p.len() as int),
        classify(u, max_body) is Complete,
    ensures
        classify(u, max_body) matches SpecOutcome::Complete(_, e) && (if p.len() >= e {
            classify(p, max_body) == classify(u, max_body)
        } else {
            classify(p, max_body) is Incomplete
        }),
{
    lemma_rl_prefix(p, u);
    let hpos = (match rl_outcome(u) {
        RlOutcome::Done(_, _, _, h) => h,
        _ => 0,
    });
    let head = parse_head(u, hpos, 0, Seq::empty(), BodyDirective::NoBody, max_body);
    lemma_head_bounds(u, hpos, 0, Seq::empty(), BodyDirective::NoBody, max_body);
    let bpos = (match head {
        HeadOutcome::Done(_, _, b) => b,
        _ => 0,
    });
    let dir = (match head {
        HeadOutcome::Done(_, d, _) => d,
        _ => BodyDirective::NoBody,
    });
    let e = (match classify(u, max_body) {
        SpecOutcome::Complete(_, ee) => ee,
        _ => 0,
    });
    if p.len() < hpos {
        assert(e >= hpos) by {
            match dir {
                BodyDirective::NoBody => {},
                BodyDirective::Fixed(n) => {},
                BodyDirective::Chunked => {
                    lemma_chunks_bounds(u, bpos, Seq::empty(), max_body);
                },
            }
        }
    } else {
        lemma_head_prefix(p, u, hpos, 0, Seq::empty(), BodyDirective::NoBody, max_body);
        if p.len() < bpos {
            assert(e >= bpos) by {
                match dir {
                    BodyDirective::NoBody => {},
                    BodyDirective::Fixed(n) => {},
                    BodyDirective::Chunked => {
                        lemma_chunks_bounds(u, bpos, Seq::empty(), max_body);
                    },
                }
            }
        } else {
            match dir {
                BodyDirective::NoBody => {},
                BodyDirective::Fixed(n) => {
                    if p.len() >= bpos + n {
                        assert(p.subrange(bpos, bpos + n) =~= u.subrange(bpos, bpos + n));
                    }
                },
                BodyDirective::Chunked => {
                    lemma_chunks_prefix(p, u, bpos, Seq::empty(), max_body);
                },
            }
        }
    }
}

/// All the chunks, one after another.
pub open spec fn concat_all(chunks: Seq<Seq<u8>>) -> Seq<u8>
    decreases chunks.len(),
{
    if chunks.len() == 0 {
        Seq::empty()
    } else {
        concat_all(chunks.drop_last()) + chunks.last()
    }
}

/// The buffer that feeding the chunks in order leaves in the parser:
/// each one is taken in only while the verdict is still open.
pub open spec fn feed_all(chunks: Seq<Seq<u8>>, max_body: nat) -> Seq<u8>
    decreases chunks.len(),
{
    if chunks.len() == 0 {
        Seq::empty()
    } else {
        spec_feed(feed_all(chunks.drop_last(), max_body), chunks.last(), max_body)
    }
}

/// Incremental parse: however a complete request's bytes are cut into
/// chunks, feeding the chunks in order ends in the very verdict that
/// feeding all the bytes at once gives — the same request.
pub proof fn lemma_incremental_parse(chunks: Seq<Seq<u8>>, max_body: nat)
    requires
        classify(concat_all(chunks), max_body) is Complete,
    ensures
        classify(feed_all(chunks, max_body), max_body) == classify(
            concat_all(chunks),
            max_body,
        ),
{
    let whole = concat_all(chunks);
    assert(whole == whole.take(whole.len() as int)) by {
        assert(whole =~= whole.take(whole.len() as int));
    }
    lemma_feed_all_prefix(chunks, whole, max_body);
}

/// Feeding any chunk list whose total is a prefix of a complete
/// request leaves either that prefix (still open) or the full request
/// (settled).
proof fn lemma_feed_all_prefix(chunks: Seq<Seq<u8>>, whole: Seq<u8>, max_body: nat)
    requires
        classify(whole, max_body) is Complete,
        concat_all(chunks).len() <= whole.len(),
        concat_all(chunks) == whole.take(concat_all(chunks).len() as int),
    ensures
        classify(whole, max_body) matches SpecOutcome::Complete(_, e) && (if concat_all(
            chunks,
        ).len() >= e {
            classify(feed_all(chunks, max_body), max_body) == classify(whole, max_body)
        } else {
            feed_all(chunks, max_body) == concat_all(chunks)
        }),
    decreases chunks.len(),
{
    let e = (match classify(whole, max_body) {
        SpecOutcome::Complete(_, ee) => ee,
        _ => 0,
    });
    if chunks.len() == 0 {
        lemma_classify_prefix(concat_all(chunks), whole, max_body);
        if concat_all(chunks).len() >= e {
        }
    } else {
        let front = chunks.drop_last();
        let cat_front = concat_all(front);
        let cat_all = concat_all(chunks);
        assert(cat_all == cat_front + chunks.last());
        assert(cat_front.len() <= cat_all.len());
        assert(cat_front == cat_all.take(cat_front.len() as int)) by {
            assert(cat_front =~= cat_all.take(cat_front.len() as int));
        }
        assert(cat_front == whole.take(cat_front.len() as int)) by {
            assert(cat_front =~= whole.take(cat_front.len() as int));
        }
        lemma_feed_all_prefix(front, whole, max_body);
        let fed = feed_all(front, max_body);
        lemma_classify_prefix(cat_front, whole, max_body);
        lemma_classify_prefix(cat_all, whole, max_body);
        if cat_front.len() >= e {
            assert(classify(fed, max_body) == classify(whole, max_body));
            assert(!(classify(fed, max_body) is Incomplete));
            assert(feed_all(chunks, max_body) == fed);
            assert(cat_all.len() >= e);
        } else {
            assert(fed == cat_front);
            assert(classify(cat_front, max_body) is Incomplete);
            assert(feed_all(chunks, max_body) == cat_front + chunks.last());
            assert(feed_all(chunks, max_body) == cat_all);
            if cat_all.len() >= e {
                assert(classify(cat_all, max_body) == classify(whole, max_body));
            }
        }
    }
}

/// A pair list denotes at most as many keys as it has pairs.
proof fn lemma_pairs_map_len(ps: Seq<(Seq<u8>, Seq<u8>)>)
    ensures
        pairs_map(ps).dom().finite(),
        pairs_map(ps).dom().len() <= ps.len(),
    decreases ps.len(),
{
    if ps.len() > 0 {
        lemma_pairs_map_len(ps.drop_last());
        let d = pairs_map(ps.drop_last()).dom();
        let k = chars_of(ps.last().0);
        vstd::set::axiom_set_insert_len(d, k);
        assert(pairs_map(ps).dom() =~= d.insert(k));
    }
}

/// The header section never takes in more pairs than the cap allows.
proof fn lemma_head_count(
    s: Seq<u8>,
    pos: int,
    count: nat,
    hs: Seq<(Seq<u8>, Seq<u8>)>,
    dir: BodyDirective,
    max_body: nat,
)
    requires
        0 <= pos,
        count <= HEADER_CAP as nat,
        hs.len() <= count,
        parse_head(s, pos, count, hs, dir, max_body) is Done,
    ensures
        parse_head(s, pos, count, hs, dir, max_body) matches HeadOutcome::Done(hs2, _, _)
            && hs2.len() <= HEADER_CAP as nat,
    decreases s.len() - pos,
{
    lemma_find_crlf_from(s, pos);
    match find_crlf_from(s, pos) {
        Some(j) => {
            if j - pos > LINE_CAP as int {
            } else if j == pos {
            } else {
                let line = s.subrange(pos, j);
                if all_ascii(line) {
                    match find_byte_from(line, COLON, 0) {
                        None => {
                            lemma_head_count(s, j + 2, count, hs, dir, max_body);
                        },
                        Some(c) => {
                            if count < HEADER_CAP as nat {
                                let key = spec_lower(spec_trim(line.take(c)));
                                let val = spec_trim(line.skip(c + 1));
                                if chars_of(key) == "content-length"@ {
                                    if all_digits(val) && dec_value(val) <= max_body {
                                        lemma_head_count(
                                            s,
                                            j + 2,
                                            count + 1,
                                            hs.push((key, val)),
                                            if dir is NoBody {
                                                BodyDirective::Fixed(dec_value(val))
                                            } else {
                                                dir
                                            },
                                            max_body,
                                        );
                                    }
                                } else if chars_of(key) == "transfer-encoding"@ {
                                    if chars_of(spec_lower(val)) == "chunked"@ {
                                        lemma_head_count(
                                            s,
                                            j + 2,
                                            count + 1,
                                            hs.push((key, val)),
                                            if dir is NoBody {
                                                BodyDirective::Chunked
                                            } else {
                                                dir
                                            },
                                            max_body,
                                        );
                                    }
                                } else {
                                    lemma_head_count(
                                        s,
                                        j + 2,
                                        count + 1,
                                        hs.push((key, val)),
                                        dir,
                                        max_body,
                                    );
                                }
                            }
                        },
                    }
                }
            }
        },
        None => {},
    }
}

/// Header-count cap: a complete request never carries more header
/// entries than the cap; more than that many header lines fail with
/// the too-large error before the request can complete.
pub proof fn lemma_header_count_cap(s: Seq<u8>, max_body: nat)
    requires
        classify(s, max_body) is Complete,
    ensures
        classify(s, max_body) matches SpecOutcome::Complete(rv, _) && rv.headers.dom().finite()
            && rv.headers.dom().len() <= HEADER_CAP as nat,
{
    let hpos = (match rl_outcome(s) {
        RlOutcome::Done(_, _, _, h) => h,
        _ => 0,
    });
    lemma_head_count(s, hpos, 0, Seq::empty(), BodyDirective::NoBody, max_body);
    let hs = (match parse_head(s, hpos, 0, Seq::empty(), BodyDirective::NoBody, max_body) {
        HeadOutcome::Done(hs, _, _) => hs,
        _ => Seq::empty(),
    });
    lemma_pairs_map_len(hs);
}

/// The directive a finished header section leaves never exceeds the
/// body cap.
proof fn lemma_head_dir(
    s: Seq<u8>,
    pos: int,
    count: nat,
    hs: Seq<(Seq<u8>, Seq<u8>)>,
    dir: BodyDirective,
    max_body: nat,
)
    requires
        0 <= pos,
        dir matches BodyDirective::Fixed(k) ==> k <= max_body,
        parse_head(s, pos, count, hs, dir, max_body) is Done,
    ensures
        parse_head(s, pos, count, hs, dir, max_body) matches HeadOutcome::Done(_, dir2, _) && (
        dir2 matches BodyDirective::Fixed(n) ==> n <= max_body),
    decreases s.len() - pos,
{
    lemma_find_crlf_from(s, pos);
    match find_crlf_from(s, pos) {
        Some(j) => {
            if j - pos > LINE_CAP as int {
            } else if j == pos {
            } else {
                let line = s.subrange(pos, j);
                if all_ascii(line) {
                    match find_byte_from(line, COLON, 0) {
                        None => {
                            lemma_head_dir(s, j + 2, count, hs, dir, max_body);
                        },
                        Some(c) => {
                            if count < HEADER_CAP as nat {
                                let key = spec_lower(spec_trim(line.take(c)));
                                let val = spec_trim(line.skip(c + 1));
                                if chars_of(key) == "content-length"@ {
                                    if all_digits(val) && dec_value(val) <= max_body {
                                        lemma_head_dir(
                                            s,
                                            j + 2,
                                            count + 1,
                                            hs.push((key, val)),
                                            if dir is NoBody {
                                                BodyDirective::Fixed(dec_value(val))
                                            } else {
                                                dir
                                            },
                                            max_body,
                                        );
                                    }
                                } else if chars_of(key) == "transfer-encoding"@ {
                                    if chars_of(spec_lower(val)) == "chunked"@ {
                                        lemma_head_dir(
                                            s,
                                            j + 2,
                                            count + 1,
                                            hs.push((key, val)),
                                            if dir is NoBody {
                                                BodyDirective::Chunked
                                            } else {
                                                dir
                                            },
                                            max_body,
                                        );
                                    }
                                } else {
                                    lemma_head_dir(
                                        s,
                                        j + 2,
                                        count + 1,
                                        hs.push((key, val)),
                                        dir,
                                        max_body,
                                    );
                                }
                            }
                        },
                    }
                }
            }
        },
        None => {},
    }
}

/// A finished chunked body never assembles past the cap.
proof fn lemma_chunks_len(s: Seq<u8>, pos: int, acc: Seq<u8>, max_body: nat)
    requires
        0 <= pos,
        acc.len() <= max_body,
        parse_chunks(s, pos, acc, max_body) is Done,
    ensures
        parse_chunks(s, pos, acc, max_body) matches ChunkOutcome::Done(b, _) && b.len()
            <= max_body,
    decreases s.len() - pos,
{
    lemma_find_crlf_from(s, pos);
    match find_crlf_from(s, pos) {
        Some(j) => {
            if j == pos || j - pos > LINE_CAP as int {
            } else {
                let line = s.subrange(pos, j);
                if all_hex(line) && acc.len() + hex_value(line) <= max_body {
                    let size = hex_value(line);
                    if size > 0 && s.len() >= j + 2 + size + 2 && s[j + 2 + size] == CR && s[j
                        + 2 + size + 1] == LF {
                        lemma_chunks_len(
                            s,
                            j + 2 + size + 2,
                            acc + s.subrange(j + 2, j + 2 + size),
                            max_body,
                        );
                    }
                }
            }
        },
        None => {},
    }
}

/// Body cap: a complete request never carries a body over the cap,
/// whether declared by length or assembled from chunks; a larger
/// body fails with the too-large error before the request can
/// complete.
pub proof fn lemma_body_cap(s: Seq<u8>, max_body: nat)
    requires
        classify(s, max_body) is Complete,
    ensures
        classify(s, max_body) matches SpecOutcome::Complete(rv, _) && (rv.body matches Some(b)
            ==> b.len() <= max_body),
{
    lemma_find_crlf_from(s, 0);
    let hpos = (match rl_outcome(s) {
        RlOutcome::Done(_, _, _, h) => h,
        _ => 0,
    });
    assert(0 <= hpos <= s.len());
    lemma_head_dir(s, hpos, 0, Seq::empty(), BodyDirective::NoBody, max_body);
    lemma_head_bounds(s, hpos, 0, Seq::empty(), BodyDirective::NoBody, max_body);
    let head = parse_head(s, hpos, 0, Seq::empty(), BodyDirective::NoBody, max_body);
    match head {
        HeadOutcome::Done(_, dir, bpos) => {
            match dir {
                BodyDirective::Chunked => {
                    lemma_chunks_len(s, bpos, Seq::empty(), max_body);
                },
                BodyDirective::Fixed(n) => {
                    assert(s.len() >= bpos + n);
                    if n > 0 {
                        assert(s.subrange(bpos, bpos + n).len() == n <= max_body);
                    }
                },
                BodyDirective::NoBody => {},
            }
        },
        _ => {},
    }
}

/// Line cap on the request line: a complete request's first line fits
/// the cap.
pub proof fn lemma_request_line_cap(s: Seq<u8>, max_body: nat)
    requires
        classify(s, max_body) is Complete,
    ensures
        find_crlf_from(s, 0) matches Some(j) && j <= LINE_CAP as int,
{
}

/// Header-line cap, rejection side: the header scanner, standing at a
/// line that runs past the cap — terminated or not — fails with the
/// too-large error.
pub proof fn lemma_header_line_cap(
    s: Seq<u8>,
    pos: int,
    count: nat,
    hs: Seq<(Seq<u8>, Seq<u8>)>,
    dir: BodyDirective,
    max_body: nat,
)
    requires
        0 <= pos <= s.len(),
        match find_crlf_from(s, pos) {
            Some(j) => j - pos > LINE_CAP as int,
            None => s.len() - pos > LINE_CAP + 1,
        },
    ensures
        parse_head(s, pos, count, hs, dir, max_body) == HeadOutcome::Fail(
            ParseError::EntityTooLarge,
        ),
{
}

/// Header-count cap, rejection side: the header scanner, standing at
/// a named header line when the cap is already reached, fails with
/// the too-large error.
pub proof fn lemma_header_count_rejects(
    s: Seq<u8>,
    pos: int,
    count: nat,
    hs: Seq<(Seq<u8>, Seq<u8>)>,
    dir: BodyDirective,
    max_body: nat,
)
    requires
        count >= HEADER_CAP as nat,
        find_crlf_from(s, pos) matches Some(j) && pos < j && j - pos <= LINE_CAP as int && {
            let line = s.subrange(pos, j);
            all_ascii(line) && find_byte_from(line, COLON, 0) is Some
        },
    ensures
        parse_head(s, pos, count, hs, dir, max_body) == HeadOutcome::Fail(
            ParseError::EntityTooLarge,
        ),
{
}

/// The same for the request line: a first line past the cap fails the
/// whole buffer with the too-large error.
pub proof fn lemma_request_line_too_long(s: Seq<u8>, max_body: nat)
    requires
        match find_crlf_from(s, 0) {
            Some(j) => j > LINE_CAP as int,
            None => s.len() > LINE_CAP + 1,
        },
    ensures
        classify(s, max_body) == SpecOutcome::Fail(ParseError::EntityTooLarge),
{
}

} // verus!
