//! The method handlers' logic: multipart extraction and building,
//! upload planning, and the responses for GET, POST and DELETE.
//! Filesystem reads and writes happen outside; these functions take
//! the outcome of each such step as a plain value.

use vstd::prelude::*;
use crate::bytes::{
    CR, LF, all_ascii, chars_of, find_byte_from, find_seq_from, lemma_find_seq_from, find_byte,
    find_seq, copy_range,
};
use crate::strutil::ascii_string_of;
use crate::cookie::{spec_parse_cookies, first_with_name};
use crate::response::HttpResponseCommon;

verus! {

/// The bytes an ASCII character sequence spells.
pub open spec fn byte_seq_of(s: Seq<char>) -> Seq<u8> {
    s.map_values(|c: char| c as u8)
}

/// The part delimiter a boundary makes: two dashes and the boundary.
pub open spec fn spec_delim(boundary: Seq<char>) -> Seq<u8> {
    seq![45u8, 45u8] + byte_seq_of(boundary)
}

/// The bytes that introduce a part's file name.
pub open spec fn fname_pat() -> Seq<u8> {
    byte_seq_of("filename=\""@)
}

/// The boundary named in a `Content-Type` value, if any: the value
/// after `boundary=` among the `;`-separated attributes.
pub open spec fn spec_boundary_of(ct: Seq<char>) -> Option<Seq<char>> {
    first_with_name(spec_parse_cookies(ct), "boundary"@)
}

/// The boundary a multipart `Content-Type` declares.
pub fn extract_boundary(content_type: &str) -> (r: Option<String>)
    ensures
        match r {
            Some(b) => spec_boundary_of(content_type@) == Some(b@),
            None => spec_boundary_of(content_type@) is None,
        },
{
    let pairs = crate::cookie::Cookie::parse(content_type);
    let ghost ps = spec_parse_cookies(content_type@);
    let mut i: usize = 0;
    while i < pairs.len()
        invariant
            ps == spec_parse_cookies(content_type@),
            0 <= i <= pairs@.len(),
            pairs@.len() == ps.len(),
            forall|m: int|
                0 <= m < pairs@.len() ==> crate::cookie::is_plain_cookie(
                    #[trigger] pairs@[m],
                    ps[m].0,
                    ps[m].1,
                ),
            forall|m: int| 0 <= m < i ==> ps[m].0 != "boundary"@,
        decreases pairs@.len() - i,
    {
        if crate::strutil::str_eq(pairs[i].name(), "boundary") {
            let v = String::from_str(pairs[i].value());
            proof {
                crate::cookie::lemma_first_with_name(ps, "boundary"@, i as int);
            }
            return Some(v);
        }
        i = i + 1;
    }
    proof {
        crate::cookie::lemma_first_with_name_none(ps, "boundary"@);
    }
    None
}

/// What one part segment holds: its head up to the blank line must
/// name a file in an ASCII `filename="..."` attribute; the content is
/// what follows the blank line, its closing CRLF stripped.
pub open spec fn spec_part(seg: Seq<u8>) -> Option<(Seq<char>, Seq<u8>)> {
    match find_seq_from(seg, seq![CR, LF, CR, LF], 0) {
        None => None,
        Some(h) => {
            let head = seg.take(h);
            let raw = seg.skip(h + 4);
            let content = (if raw.len() >= 2 && raw[raw.len() - 2] == CR && raw[raw.len() - 1]
                == LF {
                raw.take(raw.len() - 2)
            } else {
                raw
            });
            match find_seq_from(head, fname_pat(), 0) {
                None => None,
                Some(f) => {
                    let rest = head.skip(f + fname_pat().len() as int);
                    match find_byte_from(rest, 34, 0) {
                        None => None,
                        Some(q) => if all_ascii(rest.take(q)) {
                            Some((chars_of(rest.take(q)), content))
                        } else {
                            None
                        },
                    }
                },
            }
        },
    }
}

/// The (filename, bytes) pairs of the part segments from `pos`, each
/// segment reaching to the next delimiter; two dashes end the list.
pub open spec fn spec_parts_from(s: Seq<u8>, delim: Seq<u8>, pos: int) -> Seq<
    (Seq<char>, Seq<u8>),
>
    decreases s.len() - pos,
    via spec_parts_from_dec
{
    if pos + 2 <= s.len() && s[pos] == 45 && s[pos + 1] == 45 {
        Seq::empty()
    } else {
        match find_seq_from(s, delim, pos) {
            None => Seq::empty(),
            Some(j) => {
                let seg = s.subrange(pos, j);
                (match spec_part(seg) {
                    Some(p) => seq![p],
                    None => Seq::empty(),
                }) + spec_parts_from(s, delim, j + delim.len())
            },
        }
    }
}

#[via_fn]
proof fn spec_parts_from_dec(s: Seq<u8>, delim: Seq<u8>, pos: int) {
    if delim.len() > 0 && 0 <= pos {
        lemma_find_seq_from(s, delim, pos);
    }
}

/// Every (filename, bytes) pair a multipart body holds under the
/// boundary.
pub open spec fn spec_multipart(body: Seq<u8>, boundary: Seq<char>) -> Seq<(Seq<char>, Seq<u8>)> {
    let delim = spec_delim(boundary);
    match find_seq_from(body, delim, 0) {
        None => Seq::empty(),
        Some(j) => spec_parts_from(body, delim, j + delim.len()),
    }
}

/// Reads one part segment.
fn parse_part(seg: &[u8]) -> (r: Option<(String, Vec<u8>)>)
    ensures
        match r {
            Some(p) => spec_part(seg@) == Some((p.0@, p.1@)),
            None => spec_part(seg@) is None,
        },
{
    let mut crlf2: Vec<u8> = Vec::new();
    crlf2.push(CR);
    crlf2.push(LF);
    crlf2.push(CR);
    crlf2.push(LF);
    proof {
        assert(crlf2@ =~= seq![CR, LF, CR, LF]);
    }
    let h = match find_seq(seg, crlf2.as_slice(), 0) {
        None => {
            return None;
        },
        Some(h) => h,
    };
    let sl = seg.len();
    assert(h + 4 <= sl);
    let head = copy_range(seg, 0, h);
    let raw = copy_range(seg, h + 4, sl);
    proof {
        assert(head@ =~= seg@.take(h as int));
        assert(raw@ =~= seg@.skip(h + 4));
    }
    let rl = raw.len();
    let content = if rl >= 2 && raw[rl - 2] == CR && raw[rl - 1] == LF {
        copy_range(raw.as_slice(), 0, rl - 2)
    } else {
        raw
    };
    proof {
        reveal_strlit("filename=\"");
        assert("filename=\"".is_ascii());
        vstd::string::is_ascii_spec_bytes("filename=\"");
    }
    let pat = "filename=\"".as_bytes_vec();
    proof {
        assert(pat@ =~= fname_pat());
        assert(fname_pat().len() > 0);
    }
    let f = match find_seq(head.as_slice(), pat.as_slice(), 0) {
        None => {
            return None;
        },
        Some(f) => f,
    };
    let rest = copy_range(head.as_slice(), f + pat.len(), head.len());
    proof {
        assert(rest@ =~= head@.skip(f + fname_pat().len() as int));
    }
    let q = match find_byte(rest.as_slice(), 34, 0) {
        None => {
            return None;
        },
        Some(q) => q,
    };
    let name_bytes = copy_range(rest.as_slice(), 0, q);
    proof {
        assert(name_bytes@ =~= rest@.take(q as int));
    }
    if !crate::bytes::check_all_ascii(name_bytes.as_slice()) {
        return None;
    }
    let name = ascii_string_of(name_bytes.as_slice());
    Some((name, content))
}

/// The (filename, bytes) pairs the extractor returns, viewed.
pub open spec fn files_view(v: Seq<(String, Vec<u8>)>) -> Seq<(Seq<char>, Seq<u8>)> {
    v.map_values(|p: (String, Vec<u8>)| (p.0@, p.1@))
}

/// Splits a multipart body on its boundary and collects every file.
pub fn extract_multipart_files(body: &[u8], boundary: &str) -> (r: Vec<(String, Vec<u8>)>)
    requires
        boundary.is_ascii(),
    ensures
        files_view(r@) == spec_multipart(body@, boundary@),
{
    let ghost full = spec_multipart(body@, boundary@);
    let mut delim: Vec<u8> = Vec::new();
    delim.push(45);
    delim.push(45);
    proof {
        vstd::string::is_ascii_spec_bytes(boundary);
    }
    let mut bnd = boundary.as_bytes_vec();
    delim.append(&mut bnd);
    proof {
        assert(delim@ =~= spec_delim(boundary@));
    }
    let n = body.len();
    let dlen = delim.len();
    let mut out: Vec<(String, Vec<u8>)> = Vec::new();
    let mut pos: usize = match find_seq(body, delim.as_slice(), 0) {
        None => {
            proof {
                assert(files_view(out@) =~= full);
            }
            return out;
        },
        Some(j) => {
            assert(j + dlen <= n);
            j + dlen
        },
    };
    loop
        invariant_except_break
            pos <= n,
            n == body@.len(),
            dlen == delim@.len(),
            dlen >= 2,
            delim@ == spec_delim(boundary@),
            full == spec_multipart(body@, boundary@),
            files_view(out@) + spec_parts_from(body@, delim@, pos as int) == full,
        ensures
            files_view(out@) == full,
        decreases n - pos,
    {
        let ghost here = spec_parts_from(body@, delim@, pos as int);
        if pos < n && n - pos >= 2 && body[pos] == 45 && body[pos + 1] == 45 {
            proof {
                assert(here =~= Seq::<(Seq<char>, Seq<u8>)>::empty());
                assert(files_view(out@) =~= full);
            }
            break;
        }
        let j = match find_seq(body, delim.as_slice(), pos) {
            None => {
                proof {
                    assert(here =~= Seq::<(Seq<char>, Seq<u8>)>::empty());
                    assert(files_view(out@) =~= full);
                }
                break;
            },
            Some(j) => j,
        };
        let seg = copy_range(body, pos, j);
        proof {
            assert(seg@ =~= body@.subrange(pos as int, j as int));
        }
        let ghost piece: Seq<(Seq<char>, Seq<u8>)> = (match spec_part(seg@) {
            Some(p) => seq![p],
            None => Seq::empty(),
        });
        let ghost rest = spec_parts_from(body@, delim@, j + dlen);
        proof {
            assert(here == piece + rest);
        }
        assert(j + dlen <= n);
        match parse_part(seg.as_slice()) {
            Some(p) => {
                out.push(p);
                proof {
                    assert(files_view(out@) =~= files_view(out@.drop_last()) + piece);
                    assert(files_view(out@) + rest =~= full);
                }
            },
            None => {
                proof {
                    assert(piece =~= Seq::<(Seq<char>, Seq<u8>)>::empty());
                    assert(files_view(out@) + rest =~= full);
                }
            },
        }
        pos = j + dlen;
    }
    out
}

/// The wire bytes a character sequence renders to.
pub open spec fn utf8_of(s: Seq<char>) -> Seq<u8> {
    vstd::utf8::encode_utf8(s)
}

/// One rendered part: the delimiter line, a content-disposition head
/// naming the file, the blank line, the content, a closing CRLF.
pub open spec fn spec_part_bytes(name: Seq<char>, content: Seq<u8>, boundary: Seq<char>) -> Seq<
    u8,
> {
    utf8_of("--"@ + boundary + "\r\nContent-Disposition: form-data; name=\"file\"; filename=\""@
        + name + "\"\r\n\r\n"@) + content + utf8_of("\r\n"@)
}

/// The rendered parts in order, closed by the terminating delimiter.
pub open spec fn spec_multipart_bytes(
    parts: Seq<(Seq<char>, Seq<u8>)>,
    boundary: Seq<char>,
) -> Seq<u8>
    decreases parts.len(),
{
    if parts.len() == 0 {
        utf8_of("--"@ + boundary + "--\r\n"@)
    } else {
        spec_part_bytes(parts[0].0, parts[0].1, boundary) + spec_multipart_bytes(
            parts.skip(1),
            boundary,
        )
    }
}

/// Renders (filename, bytes) pairs as a multipart body under the
/// boundary.
pub fn build_multipart(parts: &Vec<(String, Vec<u8>)>, boundary: &str) -> (r: Vec<u8>)
    ensures
        r@ == spec_multipart_bytes(files_view(parts@), boundary@),
{
    let mut out: Vec<u8> = Vec::new();
    let ghost fv = files_view(parts@);
    let mut i: usize = 0;
    proof {
        assert(fv.skip(0) =~= fv);
    }
    while i < parts.len()
        invariant
            0 <= i <= parts@.len(),
            fv == files_view(parts@),
            out@ + spec_multipart_bytes(fv.skip(i as int), boundary@) == spec_multipart_bytes(
                fv,
                boundary@,
            ),
        decreases parts@.len() - i,
    {
        let ghost before = out@;
        let mut head = String::from_str("--");
        head.append(boundary);
        head.append("\r\nContent-Disposition: form-data; name=\"file\"; filename=\"");
        head.append(parts[i].0.as_str());
        head.append("\"\r\n\r\n");
        let mut hb = head.as_str().as_bytes_vec();
        out.append(&mut hb);
        let mut content: Vec<u8> = Vec::new();
        let mut k: usize = 0;
        while k < parts[i].1.len()
            invariant
                0 <= k <= parts@[i as int].1@.len(),
                i < parts@.len(),
                content@ =~= parts@[i as int].1@.take(k as int),
            decreases parts@[i as int].1@.len() - k,
        {
            content.push(parts[i].1[k]);
            assert(content@ =~= parts@[i as int].1@.take(k + 1 as int));
            k = k + 1;
        }
        proof {
            assert(content@ =~= parts@[i as int].1@);
        }
        out.append(&mut content);
        let tail = "\r\n";
        let mut tb = tail.as_bytes_vec();
        out.append(&mut tb);
        proof {
            assert(out@ =~= before + spec_part_bytes(fv[i as int].0, fv[i as int].1,
                boundary@));
            assert(fv.skip(i as int)[0] == fv[i as int]);
            assert(fv.skip(i as int).skip(1) =~= fv.skip(i + 1));
            assert(spec_multipart_bytes(fv.skip(i as int), boundary@) == spec_part_bytes(
                fv[i as int].0,
                fv[i as int].1,
                boundary@,
            ) + spec_multipart_bytes(fv.skip(i + 1), boundary@));
        }
        i = i + 1;
    }
    proof {
        assert(fv.skip(fv.len() as int) =~= Seq::<(Seq<char>, Seq<u8>)>::empty());
    }
    let mut close = String::from_str("--");
    close.append(boundary);
    close.append("--\r\n");
    let mut cb = close.as_str().as_bytes_vec();
    out.append(&mut cb);
    out
}

/// The content type an extension names.
pub open spec fn spec_mime(p: Seq<char>) -> Seq<char> {
    if ".html"@.is_suffix_of(p) {
        "text/html"@
    } else if ".css"@.is_suffix_of(p) {
        "text/css"@
    } else if ".js"@.is_suffix_of(p) {
        "application/javascript"@
    } else if ".png"@.is_suffix_of(p) {
        "image/png"@
    } else if ".jpg"@.is_suffix_of(p) || ".jpeg"@.is_suffix_of(p) {
        "image/jpeg"@
    } else if ".gif"@.is_suffix_of(p) {
        "image/gif"@
    } else {
        "application/octet-stream"@
    }
}

/// The content type to serve a file path under.
pub fn mime_type(path: &str) -> (r: &'static str)
    ensures
        r@ == spec_mime(path@),
        r.is_ascii(),
{
    proof {
        reveal_strlit(".html");
        reveal_strlit(".css");
        reveal_strlit(".js");
        reveal_strlit(".png");
        reveal_strlit(".jpg");
        reveal_strlit(".jpeg");
        reveal_strlit(".gif");
        reveal_strlit("text/html");
        reveal_strlit("text/css");
        reveal_strlit("application/javascript");
        reveal_strlit("image/png");
        reveal_strlit("image/jpeg");
        reveal_strlit("image/gif");
        reveal_strlit("application/octet-stream");
        assert("text/html".is_ascii());
        assert("text/css".is_ascii());
        assert("application/javascript".is_ascii());
        assert("image/png".is_ascii());
        assert("image/jpeg".is_ascii());
        assert("image/gif".is_ascii());
        assert("application/octet-stream".is_ascii());
    }
    if crate::strutil::ends_with_str(path, ".html") {
        "text/html"
    } else if crate::strutil::ends_with_str(path, ".css") {
        "text/css"
    } else if crate::strutil::ends_with_str(path, ".js") {
        "application/javascript"
    } else if crate::strutil::ends_with_str(path, ".png") {
        "image/png"
    } else if crate::strutil::ends_with_str(path, ".jpg") {
        "image/jpeg"
    } else if crate::strutil::ends_with_str(path, ".jpeg") {
        "image/jpeg"
    } else if crate::strutil::ends_with_str(path, ".gif") {
        "image/gif"
    } else {
        "application/octet-stream"
    }
}

/// The response served for a fetched file, or the not-found page when
/// the read failed. This sits at the end of a GET: the caller reads
/// the planned file and hands the outcome in.
pub fn handle_get(path: &str, fetched: Option<Vec<u8>>, cookie: &crate::cookie::Cookie) -> (r:
    crate::response::SimpleResponse)
    requires
        cookie.expires matches Some(t) ==> t <= crate::cookie::HTTP_DATE_MAX,
    ensures
        match fetched {
            Some(content) => {
                &&& (cookie.value.is_ascii() && vstd::utf8::is_ascii_chars(
                    crate::cookie::spec_header_value(*cookie),
                )) ==> r.remaining_bytes() == crate::response::spec_build(
                    crate::response::RespView {
                        status: 200,
                        reason: "OK"@,
                        headers: seq![
                            ("Content-Type"@, spec_mime(path@)),
                            ("Set-Cookie"@, crate::cookie::spec_header_value(*cookie)),
                        ],
                        body: content@,
                    },
                )
                &&& (cookie.value.is_ascii() && !vstd::utf8::is_ascii_chars(
                    crate::cookie::spec_header_value(*cookie),
                )) ==> r.remaining_bytes() == crate::response::spec_build(
                    crate::response::RespView {
                        status: 200,
                        reason: "OK"@,
                        headers: seq![("Content-Type"@, spec_mime(path@))],
                        body: content@,
                    },
                )
            },
            None => {
                &&& (cookie.value.is_ascii() && vstd::utf8::is_ascii_chars(
                    crate::cookie::spec_header_value(*cookie),
                )) ==> r.remaining_bytes() == crate::response::spec_build(
                    crate::response::RespView {
                        status: 404,
                        reason: "Not Found"@,
                        headers: seq![
                            ("Set-Cookie"@, crate::cookie::spec_header_value(*cookie)),
                        ],
                        body: Seq::<u8>::empty(),
                    },
                )
                &&& (cookie.value.is_ascii() && !vstd::utf8::is_ascii_chars(
                    crate::cookie::spec_header_value(*cookie),
                )) ==> r.remaining_bytes() == crate::response::spec_build(
                    crate::response::RespView {
                        status: 404,
                        reason: "Not Found"@,
                        headers: Seq::empty(),
                        body: Seq::<u8>::empty(),
                    },
                )
            },
        },
        r.inv(),
{
    match fetched {
        Some(content) => {
            let mime = mime_type(path);
            proof {
                reveal_strlit("Content-Type");
                assert("Content-Type".is_ascii());
                reveal_strlit("Set-Cookie");
                assert("Set-Cookie".is_ascii());
            }
            let hv = cookie.to_header_value();
            if !hv.as_str().is_ascii() {
                let b = crate::response::HttpResponseBuilder::ok().header(
                    "Content-Type",
                    mime,
                ).body(content);
                let ghost bv0 = b@;
                let bytes = b.build();
                proof {
                    assert(bv0.headers =~= seq![("Content-Type"@, spec_mime(path@))]);
                }
                return crate::response::SimpleResponse::new(bytes);
            }
            let b = crate::response::HttpResponseBuilder::ok().header("Content-Type", mime)
                .header("Set-Cookie", hv.as_str()).body(content);
            let ghost bv = b@;
            let bytes = b.build();
            proof {
                if cookie.value.is_ascii() {
                    assert(bv.headers =~= seq![
                        ("Content-Type"@, spec_mime(path@)),
                        ("Set-Cookie"@, crate::cookie::spec_header_value(*cookie)),
                    ]);
                }
            }
            crate::response::SimpleResponse::new(bytes)
        },
        None => {
            let hv = cookie.to_header_value();
            proof {
                reveal_strlit("Set-Cookie");
                assert("Set-Cookie".is_ascii());
            }
            if !hv.as_str().is_ascii() {
                let b = crate::response::HttpResponseBuilder::not_found();
                let ghost bv0 = b@;
                let bytes = b.build();
                proof {
                    assert(bv0.headers =~= Seq::<(Seq<char>, Seq<char>)>::empty());
                }
                return crate::response::SimpleResponse::new(bytes);
            }
            let b = crate::response::HttpResponseBuilder::not_found().header(
                "Set-Cookie",
                hv.as_str(),
            );
            let ghost bv = b@;
            let bytes = b.build();
            proof {
                if cookie.value.is_ascii() {
                    assert(bv.headers =~= seq![
                        ("Set-Cookie"@, crate::cookie::spec_header_value(*cookie)),
                    ]);
                }
            }
            crate::response::SimpleResponse::new(bytes)
        },
    }
}

/// The not-found response with the configured error page's bytes as
/// its body, carrying the session cookie when it renders as ASCII.
pub fn not_found_page(
    error_page: Option<Vec<u8>>,
    cookie: &crate::cookie::Cookie,
) -> (r: Vec<u8>)
    requires
        cookie.expires matches Some(t) ==> t <= crate::cookie::HTTP_DATE_MAX,
    ensures
        ({
            let body = (match error_page {
                Some(b) => b@,
                None => Seq::<u8>::empty(),
            });
            &&& (cookie.value.is_ascii() && vstd::utf8::is_ascii_chars(
                crate::cookie::spec_header_value(*cookie),
            )) ==> r@ == crate::response::spec_build(
                crate::response::RespView {
                    status: 404,
                    reason: "Not Found"@,
                    headers: seq![
                        ("Set-Cookie"@, crate::cookie::spec_header_value(*cookie)),
                    ],
                    body: body,
                },
            )
            &&& (cookie.value.is_ascii() && !vstd::utf8::is_ascii_chars(
                crate::cookie::spec_header_value(*cookie),
            )) ==> r@ == crate::response::spec_build(
                crate::response::RespView {
                    status: 404,
                    reason: "Not Found"@,
                    headers: Seq::empty(),
                    body: body,
                },
            )
        }),
{
    let body = match error_page {
        Some(b) => b,
        None => Vec::new(),
    };
    let hv = cookie.to_header_value();
    proof {
        reveal_strlit("Set-Cookie");
        assert("Set-Cookie".is_ascii());
    }
    if !hv.as_str().is_ascii() {
        let b = crate::response::HttpResponseBuilder::not_found().body(body);
        let ghost bv0 = b@;
        let r = b.build();
        proof {
            assert(bv0.headers =~= Seq::<(Seq<char>, Seq<char>)>::empty());
        }
        return r;
    }
    let b = crate::response::HttpResponseBuilder::not_found().header(
        "Set-Cookie",
        hv.as_str(),
    ).body(body);
    let ghost bv = b@;
    let r = b.build();
    proof {
        if cookie.value.is_ascii() {
            assert(bv.headers =~= seq![
                ("Set-Cookie"@, crate::cookie::spec_header_value(*cookie)),
            ]);
        }
    }
    r
}

/// The response for a DELETE, given whether the file could be
/// removed; a missing file serves the 404 page handed in.
pub fn handle_delete(deleted: bool, error_page: Option<Vec<u8>>) -> (r: Vec<u8>)
    ensures
        deleted ==> r@ == crate::response::spec_build(
            crate::response::RespView {
                status: 204,
                reason: "No Content"@,
                headers: Seq::empty(),
                body: Seq::<u8>::empty(),
            },
        ),
        !deleted ==> r@ == crate::response::spec_build(
            crate::response::RespView {
                status: 404,
                reason: "Not Found"@,
                headers: Seq::empty(),
                body: (match error_page {
                    Some(b) => b@,
                    None => Seq::<u8>::empty(),
                }),
            },
        ),
{
    if deleted {
        let b = crate::response::HttpResponseBuilder::no_content();
        let ghost bv = b@;
        let r = b.build();
        proof {
            assert(bv.headers =~= Seq::<(Seq<char>, Seq<char>)>::empty());
        }
        r
    } else {
        let body = match error_page {
            Some(b) => b,
            None => Vec::new(),
        };
        let b = crate::response::HttpResponseBuilder::not_found().body(body);
        let ghost bv = b@;
        let r = b.build();
        proof {
            assert(bv.headers =~= Seq::<(Seq<char>, Seq<char>)>::empty());
        }
        r
    }
}

/// Where a single-payload upload is written: the directory when the
/// target ends in `/`, else the target itself.
pub open spec fn single_save_path(file_path: Seq<char>, filename: Seq<char>) -> Seq<char> {
    if file_path.len() > 0 && file_path.last() == '/' {
        file_path + filename
    } else {
        file_path
    }
}

/// Where a multipart file is written: under the target directory.
pub open spec fn multi_save_path(file_path: Seq<char>, filename: Seq<char>) -> Seq<char> {
    if file_path.len() > 0 && file_path.last() == '/' {
        file_path + filename
    } else {
        file_path + "/"@ + filename
    }
}

/// What a POST decides: a response that rejects it outright, or the
/// files to write, each with its full target path and bytes.
pub enum PostPlan {
    Reject(Vec<u8>),
    Save { targets: Vec<(String, Vec<u8>)>, multipart: bool },
}

/// The single-payload content-type families that are accepted.
pub open spec fn spec_single_type(ct: Seq<char>) -> bool {
    "application/"@.is_prefix_of(ct) || "image/"@.is_prefix_of(ct) || "audio/"@.is_prefix_of(ct)
        || "video/"@.is_prefix_of(ct) || "font/"@.is_prefix_of(ct) || "text/"@.is_prefix_of(ct)
}

/// The last `/`-separated segment of a path.
pub open spec fn spec_last_segment(p: Seq<char>) -> Seq<char>
    decreases p.len(),
    via spec_last_segment_dec
{
    match crate::strutil::find_char_from(p, '/', 0) {
        None => p,
        Some(j) => spec_last_segment(p.skip(j + 1)),
    }
}

#[via_fn]
proof fn spec_last_segment_dec(p: Seq<char>) {
    crate::strutil::lemma_find_char_from(p, '/', 0);
}

/// The last segment lies after the last slash.
proof fn lemma_last_segment_at(s: Seq<char>, j: int)
    requires
        0 <= j < s.len(),
        s[j] == '/',
        forall|m: int| j < m < s.len() ==> s[m] != '/',
    ensures
        spec_last_segment(s) == s.skip(j + 1),
    decreases s.len(),
{
    crate::strutil::lemma_find_char_from(s, '/', 0);
    let first = crate::strutil::find_char_from(s, '/', 0)->Some_0;
    if first == j {
        crate::strutil::lemma_find_char_from(s.skip(j + 1), '/', 0);
        assert(forall|m: int|
            0 <= m < s.len() - j - 1 ==> #[trigger] s.skip(j + 1)[m] == s[j + 1 + m]);
        assert(crate::strutil::find_char_from(s.skip(j + 1), '/', 0) is None) by {
            match crate::strutil::find_char_from(s.skip(j + 1), '/', 0) {
                Some(k) => {
                    assert(s[j + 1 + k] == '/');
                },
                None => {},
            }
        }
        assert(spec_last_segment(s) == spec_last_segment(s.skip(j + 1)));
        assert(spec_last_segment(s.skip(j + 1)) == s.skip(j + 1));
    } else {
        let t = s.skip(first + 1);
        assert(forall|m: int| 0 <= m < t.len() ==> #[trigger] t[m] == s[first + 1 + m]);
        assert(t[j - first - 1] == '/');
        assert(forall|m: int| j - first - 1 < m < t.len() ==> t[m] != '/');
        lemma_last_segment_at(t, j - first - 1);
        assert(spec_last_segment(s) == spec_last_segment(t));
        assert(t.skip(j - first) =~= s.skip(j + 1));
    }
}

/// The subtype half of a content type, `dat` when there is none.
pub open spec fn spec_subtype(ct: Seq<char>) -> Seq<char> {
    match crate::strutil::find_char_from(ct, '/', 0) {
        Some(i) => ct.skip(i + 1),
        None => "dat"@,
    }
}

/// The file name a generated upload gets from a fresh id.
pub open spec fn upload_name_chars(id: Seq<char>, subtype: Seq<char>) -> Seq<char> {
    "upload_"@ + id + "."@ + subtype
}

/// The name for a generated upload, built over a fresh id.
fn upload_name(id: &str, subtype: &str) -> (r: String)
    ensures
        r@ == upload_name_chars(id@, subtype@),
{
    let mut r = String::from_str("upload_");
    r.append(id);
    r.append(".");
    r.append(subtype);
    r
}

/// The index of the last occurrence of `c` in `s`.
fn rfind_char(s: &str, c: char) -> (r: Option<usize>)
    ensures
        match r {
            Some(j) => j < s@.len() && s@[j as int] == c && (forall|m: int|
                j < m < s@.len() ==> s@[m] != c),
            None => forall|m: int| 0 <= m < s@.len() ==> s@[m] != c,
        },
{
    let n = s.unicode_len();
    let mut i: usize = n;
    while i > 0
        invariant
            0 <= i <= n == s@.len(),
            forall|m: int| i <= m < s@.len() ==> s@[m] != c,
        decreases i,
    {
        i = i - 1;
        if s.get_char(i) == c {
            return Some(i);
        }
    }
    None
}

/// The upload file name for a single payload: the request path's last
/// segment when it names a file (non-empty, holding a dot), else a
/// generated name over a fresh 36-character id.
fn pick_upload_name(req_path: &str, subtype: &str) -> (r: String)
    ensures
        ({
            let seg = spec_last_segment(req_path@);
            if seg.len() > 0 && crate::strutil::find_char_from(seg, '.', 0) is Some {
                r@ == seg
            } else {
                exists|id: Seq<char>|
                    id.len() == 36 && vstd::utf8::is_ascii_chars(id) && r@
                        == upload_name_chars(id, subtype@)
            }
        }),
{
    let n = req_path.unicode_len();
    let start = match rfind_char(req_path, '/') {
        Some(j) => {
            proof {
                lemma_last_segment_at(req_path@, j as int);
            }
            j + 1
        },
        None => {
            proof {
                crate::strutil::lemma_find_char_from(req_path@, '/', 0);
                assert(crate::strutil::find_char_from(req_path@, '/', 0) is None) by {
                    match crate::strutil::find_char_from(req_path@, '/', 0) {
                        Some(k) => {
                            assert(req_path@[k] == '/');
                        },
                        None => {},
                    }
                }
                assert(req_path@.skip(0) =~= req_path@);
            }
            0
        },
    };
    let last = crate::strutil::substring(req_path, start, n);
    proof {
        assert(last@ == spec_last_segment(req_path@));
    }
    let has_dot = match crate::strutil::find_char(last.as_str(), '.', 0) {
        Some(_) => true,
        None => false,
    };
    if has_dot && last.as_str().unicode_len() > 0 {
        last
    } else {
        let id = crate::session::fresh_uuid();
        let r = upload_name(id.as_str(), subtype);
        proof {
            assert(id@.len() == 36 && vstd::utf8::is_ascii_chars(id@) && r@
                == upload_name_chars(id@, subtype@));
        }
        r
    }
}

/// What a POST turns out to be: rejected as malformed, rejected as an
/// unknown content type, a single payload to write, or multipart
/// files to write.
pub ghost enum PostKind {
    RejectBad,
    RejectUnsupported,
    SaveSingle,
    SaveMulti,
}

/// Classifies a POST: no body, no content type, no usable boundary or
/// an empty file list are malformed; the single-payload families and
/// multipart bodies with files are saved; everything else is an
/// unknown type.
pub open spec fn spec_post_kind(rv: crate::request::ReqView) -> PostKind {
    match rv.body {
        None => PostKind::RejectBad,
        Some(body) => if !rv.headers.contains_key("content-type"@) {
            PostKind::RejectBad
        } else {
            let ct = rv.headers["content-type"@];
            if spec_single_type(ct) {
                PostKind::SaveSingle
            } else if "multipart/form-data"@.is_prefix_of(ct) {
                match spec_boundary_of(ct) {
                    None => PostKind::RejectBad,
                    Some(b) => if !vstd::utf8::is_ascii_chars(b) {
                        PostKind::RejectBad
                    } else if spec_multipart(body, b).len() == 0 {
                        PostKind::RejectBad
                    } else {
                        PostKind::SaveMulti
                    },
                }
            } else {
                PostKind::RejectUnsupported
            }
        },
    }
}

/// The 400 response a malformed POST gets.
fn reject_bad_response() -> (r: Vec<u8>)
    ensures
        r@ == crate::response::spec_build(
            crate::response::RespView {
                status: 400,
                reason: "Bad Request"@,
                headers: Seq::empty(),
                body: Seq::<u8>::empty(),
            },
        ),
{
    let b = crate::response::HttpResponseBuilder::bad_request();
    let ghost bv = b@;
    let r = b.build();
    proof {
        assert(bv.headers =~= Seq::<(Seq<char>, Seq<char>)>::empty());
    }
    r
}

/// The 415 response an unknown content type gets.
fn reject_unsupported_response() -> (r: Vec<u8>)
    ensures
        r@ == crate::response::spec_build(
            crate::response::RespView {
                status: 415,
                reason: "Unsupported Media Type"@,
                headers: Seq::empty(),
                body: Seq::<u8>::empty(),
            },
        ),
{
    let b = crate::response::HttpResponseBuilder::unsupported_media_type();
    let ghost bv = b@;
    let r = b.build();
    proof {
        assert(bv.headers =~= Seq::<(Seq<char>, Seq<char>)>::empty());
    }
    r
}

/// Decides a POST. It rejects exactly the malformed and unknown-type
/// requests `spec_post_kind` names, with the fixed 400 or 415 bytes;
/// everything else is saved: one target holding the whole body for a
/// single payload, one target per extracted file for multipart.
pub fn handle_post(file_path: &str, request: &crate::request::HttpRequest) -> (r: PostPlan)
    requires
        request.wf(),
    ensures
        (r is Reject) == (spec_post_kind(request@) is RejectBad || spec_post_kind(request@)
            is RejectUnsupported),
        r matches PostPlan::Reject(resp) ==> ((spec_post_kind(request@) is RejectBad
            ==> resp@ == crate::response::spec_build(
            crate::response::RespView {
                status: 400,
                reason: "Bad Request"@,
                headers: Seq::empty(),
                body: Seq::<u8>::empty(),
            },
        )) && (spec_post_kind(request@) is RejectUnsupported ==> resp@
            == crate::response::spec_build(
            crate::response::RespView {
                status: 415,
                reason: "Unsupported Media Type"@,
                headers: Seq::empty(),
                body: Seq::<u8>::empty(),
            },
        ))),
        r matches PostPlan::Save { targets, multipart } ==> request@.body matches Some(body)
            && {
            let ct = request@.headers["content-type"@];
            &&& multipart == (spec_post_kind(request@) is SaveMulti)
            &&& (multipart ==> (spec_boundary_of(ct) matches Some(bnd) && {
                let files = spec_multipart(body, bnd);
                &&& files.len() > 0
                &&& targets@.len() == files.len()
                &&& forall|i: int|
                    0 <= i < files.len() ==> (#[trigger] targets@[i]).0@ == multi_save_path(
                        file_path@,
                        files[i].0,
                    ) && targets@[i].1@ == files[i].1
            }))
            &&& (!multipart ==> {
                &&& spec_post_kind(request@) is SaveSingle
                &&& targets@.len() == 1
                &&& targets@[0].1@ == body
                &&& (if file_path@.len() > 0 && file_path@.last() == '/' {
                    let seg = spec_last_segment(request@.path);
                    if seg.len() > 0 && crate::strutil::find_char_from(seg, '.', 0) is Some {
                        targets@[0].0@ == file_path@ + seg
                    } else {
                        exists|id: Seq<char>|
                            id.len() == 36 && vstd::utf8::is_ascii_chars(id)
                                && targets@[0].0@ == file_path@ + upload_name_chars(
                                id,
                                spec_subtype(ct),
                            )
                    }
                } else {
                    targets@[0].0@ == file_path@
                })
            })
        },
{
    proof {
        reveal_strlit("content-type");
        assert(crate::strutil::lower_chars("content-type"@) =~= "content-type"@) by {
            assert(forall|i: int|
                0 <= i < "content-type"@.len() ==> crate::strutil::lower_char(
                    #[trigger] "content-type"@[i],
                ) == "content-type"@[i]);
        }
    }
    let body = match &request.body {
        Some(b) => b,
        None => {
            return PostPlan::Reject(reject_bad_response());
        },
    };
    let ct = match request.headers.get("content-type") {
        Some(v) => v,
        None => {
            return PostPlan::Reject(reject_bad_response());
        },
    };
    let single = crate::strutil::starts_with_str(ct.as_str(), "application/")
        || crate::strutil::starts_with_str(ct.as_str(), "image/")
        || crate::strutil::starts_with_str(ct.as_str(), "audio/")
        || crate::strutil::starts_with_str(ct.as_str(), "video/")
        || crate::strutil::starts_with_str(ct.as_str(), "font/")
        || crate::strutil::starts_with_str(ct.as_str(), "text/");
    if single {
        let n = file_path.unicode_len();
        let ends_slash = n > 0 && file_path.get_char(n - 1) == '/';
        let mut body_copy: Vec<u8> = Vec::new();
        let mut k: usize = 0;
        while k < body.len()
            invariant
                0 <= k <= body@.len(),
                body_copy@ =~= body@.take(k as int),
            decreases body@.len() - k,
        {
            body_copy.push(body[k]);
            assert(body_copy@ =~= body@.take(k + 1 as int));
            k = k + 1;
        }
        proof {
            assert(body_copy@ =~= body@);
        }
        if ends_slash {
            let ctn = ct.as_str().unicode_len();
            let sub = match crate::strutil::find_char(ct.as_str(), '/', 0) {
                Some(slash) => {
                    let piece = crate::strutil::substring(ct.as_str(), slash + 1, ctn);
                    proof {
                        assert(piece@ =~= spec_subtype(ct@));
                    }
                    piece
                },
                None => String::from_str("dat"),
            };
            proof {
                assert(sub@ == spec_subtype(ct@));
            }
            let filename = pick_upload_name(request.path.as_str(), sub.as_str());
            let mut target = String::from_str(file_path);
            target.append(filename.as_str());
            proof {
                assert(file_path@.last() == '/');
                assert(target@ == file_path@ + filename@);
            }
            let mut targets: Vec<(String, Vec<u8>)> = Vec::new();
            targets.push((target, body_copy));
            PostPlan::Save { targets, multipart: false }
        } else {
            let mut targets: Vec<(String, Vec<u8>)> = Vec::new();
            targets.push((String::from_str(file_path), body_copy));
            PostPlan::Save { targets, multipart: false }
        }
    } else if crate::strutil::starts_with_str(ct.as_str(), "multipart/form-data") {
        let boundary = match extract_boundary(ct.as_str()) {
            Some(b) => b,
            None => {
                return PostPlan::Reject(reject_bad_response());
            },
        };
        if !boundary.as_str().is_ascii() {
            return PostPlan::Reject(reject_bad_response());
        }
        let files = extract_multipart_files(body.as_slice(), boundary.as_str());
        proof {
            assert(files@.len() == spec_multipart(body@, boundary@).len());
        }
        if files.len() == 0 {
            return PostPlan::Reject(reject_bad_response());
        }
        let n = file_path.unicode_len();
        let ends_slash = n > 0 && file_path.get_char(n - 1) == '/';
        let ghost fv = spec_multipart(body@, boundary@);
        let mut targets: Vec<(String, Vec<u8>)> = Vec::new();
        let mut i: usize = 0;
        while i < files.len()
            invariant
                0 <= i <= files@.len(),
                files_view(files@) == fv,
                targets@.len() == i,
                ends_slash == (file_path@.len() > 0 && file_path@.last() == '/'),
                forall|m: int|
                    0 <= m < i ==> (#[trigger] targets@[m]).0@ == multi_save_path(
                        file_path@,
                        fv[m].0,
                    ) && targets@[m].1@ == fv[m].1,
            decreases files@.len() - i,
        {
            let mut target = String::from_str(file_path);
            if !ends_slash {
                target.append("/");
            }
            target.append(files[i].0.as_str());
            let mut content: Vec<u8> = Vec::new();
            let mut k: usize = 0;
            while k < files[i].1.len()
                invariant
                    0 <= k <= files@[i as int].1@.len(),
                    i < files@.len(),
                    content@ =~= files@[i as int].1@.take(k as int),
                decreases files@[i as int].1@.len() - k,
            {
                content.push(files[i].1[k]);
                assert(content@ =~= files@[i as int].1@.take(k + 1 as int));
                k = k + 1;
            }
            proof {
                let fi = files@[i as int];
                assert(content@ =~= fi.1@);
                assert(files_view(files@)[i as int] == (fi.0@, fi.1@));
            }
            targets.push((target, content));
            i = i + 1;
        }
        PostPlan::Save { targets, multipart: true }
    } else {
        PostPlan::Reject(reject_unsupported_response())
    }
}

/// The listing of names joined by `, `.
pub open spec fn spec_join_names(names: Seq<Seq<char>>) -> Seq<char>
    decreases names.len(),
{
    if names.len() == 0 {
        Seq::empty()
    } else if names.len() == 1 {
        names[0]
    } else {
        spec_join_names(names.drop_last()) + ", "@ + names.last()
    }
}

/// The response after the planned writes ran: a failure serves 500;
/// a single payload 200; multipart files 201 with the saved names.
pub fn post_write_response(multipart: bool, saved: &Vec<String>, failed: bool) -> (r: Vec<u8>)
    ensures
        failed ==> r@ == crate::response::spec_build(
            crate::response::RespView {
                status: 500,
                reason: "Internal Server Error"@,
                headers: Seq::empty(),
                body: Seq::<u8>::empty(),
            },
        ),
        !failed && !multipart ==> r@ == crate::response::spec_build(
            crate::response::RespView {
                status: 200,
                reason: "OK"@,
                headers: Seq::empty(),
                body: utf8_of("Upload successful"@),
            },
        ),
        !failed && multipart ==> r@ == crate::response::spec_build(
            crate::response::RespView {
                status: 201,
                reason: "Created"@,
                headers: Seq::empty(),
                body: utf8_of(
                    "Successfully uploaded: "@ + spec_join_names(
                        saved@.map_values(|n: String| n@),
                    ),
                ),
            },
        ),
{
    if failed {
        let b = crate::response::HttpResponseBuilder::server_error();
        let ghost bv = b@;
        let r = b.build();
        proof {
            assert(bv.headers =~= Seq::<(Seq<char>, Seq<char>)>::empty());
        }
        r
    } else if !multipart {
        let msg = String::from_str("Upload successful");
        let b = crate::response::HttpResponseBuilder::ok().body(msg.as_str().as_bytes_vec());
        let ghost bv = b@;
        let r = b.build();
        proof {
            assert(bv.headers =~= Seq::<(Seq<char>, Seq<char>)>::empty());
        }
        r
    } else {
        let ghost nv = saved@.map_values(|n: String| n@);
        let mut text = String::from_str("Successfully uploaded: ");
        let mut joined = String::new();
        let mut i: usize = 0;
        while i < saved.len()
            invariant
                0 <= i <= saved@.len(),
                nv == saved@.map_values(|n: String| n@),
                joined@ == spec_join_names(nv.take(i as int)),
            decreases saved@.len() - i,
        {
            if i > 0 {
                joined.append(", ");
            }
            joined.append(saved[i].as_str());
            proof {
                let t = nv.take(i + 1 as int);
                assert(t.drop_last() =~= nv.take(i as int));
                assert(t.last() == nv[i as int]);
                if i == 0 {
                    assert(t.len() == 1);
                    assert(joined@ =~= t[0]);
                }
            }
            i = i + 1;
        }
        proof {
            assert(nv.take(nv.len() as int) =~= nv);
        }
        text.append(joined.as_str());
        let b = crate::response::HttpResponseBuilder::created().body(
            text.as_str().as_bytes_vec(),
        );
        let ghost bv = b@;
        let r = b.build();
        proof {
            assert(bv.headers =~= Seq::<(Seq<char>, Seq<char>)>::empty());
        }
        r
    }
}

/// A file name with the four HTML-active characters written as
/// entities.
pub open spec fn spec_html_escape_char(c: char) -> Seq<char> {
    if c == '&' {
        "&amp;"@
    } else if c == '<' {
        "&lt;"@
    } else if c == '>' {
        "&gt;"@
    } else if c == '\"' {
        "&quot;"@
    } else {
        seq![c]
    }
}

pub open spec fn spec_html_escape(s: Seq<char>) -> Seq<char>
    decreases s.len(),
{
    if s.len() == 0 {
        Seq::empty()
    } else {
        spec_html_escape_char(s[0]) + spec_html_escape(s.skip(1))
    }
}

/// Writes `s` with HTML-active characters escaped.
pub fn html_escape(s: &str) -> (r: String)
    ensures
        r@ == spec_html_escape(s@),
{
    let n = s.unicode_len();
    let mut out = String::new();
    let mut i: usize = 0;
    while i < n
        invariant
            0 <= i <= n == s@.len(),
            out@ == spec_html_escape(s@.take(i as int)),
        decreases n - i,
    {
        let ghost prefix = s@.take(i as int);
        let c = s.get_char(i);
        if c == '&' {
            out.append("&amp;");
        } else if c == '<' {
            out.append("&lt;");
        } else if c == '>' {
            out.append("&gt;");
        } else if c == '\"' {
            out.append("&quot;");
        } else {
            let piece = crate::strutil::substring(s, i, i + 1);
            out.append(piece.as_str());
            proof {
                assert(piece@ =~= seq![c]);
            }
        }
        proof {
            lemma_html_escape_step(s@, i as int);
        }
        i = i + 1;
    }
    proof {
        assert(s@.take(n as int) =~= s@);
    }
    out
}

/// Escaping one more character appends that character's escape.
proof fn lemma_html_escape_step(s: Seq<char>, i: int)
    requires
        0 <= i < s.len(),
    ensures
        spec_html_escape(s.take(i + 1)) == spec_html_escape(s.take(i)) + spec_html_escape_char(
            s[i],
        ),
    decreases i,
{
    if i == 0 {
        assert(s.take(1).skip(1) =~= Seq::<char>::empty());
        assert(s.take(0) =~= Seq::<char>::empty());
        assert(s.take(1)[0] == s[0]);
        assert(spec_html_escape(Seq::<char>::empty()) == Seq::<char>::empty());
        assert(spec_html_escape(s.take(1)) == spec_html_escape_char(s.take(1)[0])
            + spec_html_escape(s.take(1).skip(1)));
        assert(spec_html_escape(s.take(1)) =~= spec_html_escape_char(s[0]));
        assert(spec_html_escape(s.take(1)) == spec_html_escape(s.take(0))
            + spec_html_escape_char(s[0])) by {
            assert(spec_html_escape(s.take(0)) + spec_html_escape_char(s[0])
                =~= spec_html_escape_char(s[0]));
        }
    } else {
        assert(s.take(i + 1).skip(1) =~= s.skip(1).take(i));
        assert(s.take(i).skip(1) =~= s.skip(1).take(i - 1));
        assert(s.take(i + 1)[0] == s[0]);
        assert(s.take(i)[0] == s[0]);
        lemma_html_escape_step(s.skip(1), i - 1);
        assert(s.skip(1)[i - 1] == s[i]);
        assert(spec_html_escape(s.take(i + 1)) == spec_html_escape_char(s[0])
            + spec_html_escape(s.skip(1).take(i)));
        assert(spec_html_escape(s.take(i)) == spec_html_escape_char(s[0]) + spec_html_escape(
            s.skip(1).take(i - 1),
        ));
    }
}

/// One listing line: a link under the route prefix, the name escaped.
pub open spec fn spec_listing_item(prefix: Seq<char>, name: Seq<char>) -> Seq<char> {
    "<li><a href=\""@ + prefix + "/"@ + spec_html_escape(name) + "\">"@ + spec_html_escape(
        name,
    ) + "</a></li>"@
}

/// The listing page over the entries, in order.
pub open spec fn spec_listing_items(prefix: Seq<char>, names: Seq<Seq<char>>) -> Seq<char>
    decreases names.len(),
{
    if names.len() == 0 {
        Seq::empty()
    } else {
        spec_listing_items(prefix, names.drop_last()) + spec_listing_item(
            prefix,
            names.last(),
        )
    }
}

pub open spec fn spec_listing_html(prefix: Seq<char>, names: Seq<Seq<char>>) -> Seq<char> {
    "<html><body><h1>Index</h1><ul>"@ + spec_listing_items(prefix, names)
        + "</ul></body></html>"@
}

/// Renders the directory listing for the entries the caller read,
/// linked under the route's prefix, every name HTML-escaped.
pub fn render_directory_listing(route_path: &str, entries: &Vec<String>) -> (r: Vec<u8>)
    ensures
        r@ == crate::response::spec_build(
            crate::response::RespView {
                status: 200,
                reason: "OK"@,
                headers: seq![("Content-Type"@, "text/html"@)],
                body: utf8_of(
                    spec_listing_html(
                        route_path@,
                        entries@.map_values(|e: String| e@),
                    ),
                ),
            },
        ),
{
    let ghost names = entries@.map_values(|e: String| e@);
    let mut html = String::from_str("<html><body><h1>Index</h1><ul>");
    let ghost head0 = html@;
    let mut i: usize = 0;
    proof {
        assert(names.take(0) =~= Seq::<Seq<char>>::empty());
    }
    while i < entries.len()
        invariant
            0 <= i <= entries@.len(),
            names == entries@.map_values(|e: String| e@),
            head0 == "<html><body><h1>Index</h1><ul>"@,
            html@ == head0 + spec_listing_items(route_path@, names.take(i as int)),
        decreases entries@.len() - i,
    {
        let esc = html_escape(entries[i].as_str());
        html.append("<li><a href=\"");
        html.append(route_path);
        html.append("/");
        html.append(esc.as_str());
        html.append("\">");
        html.append(esc.as_str());
        html.append("</a></li>");
        proof {
            let t = names.take(i + 1 as int);
            assert(t.drop_last() =~= names.take(i as int));
            assert(t.last() == names[i as int]);
            assert(html@ =~= head0 + spec_listing_items(route_path@, t));
        }
        i = i + 1;
    }
    proof {
        assert(names.take(names.len() as int) =~= names);
    }
    html.append("</ul></body></html>");
    proof {
        reveal_strlit("Content-Type");
        assert("Content-Type".is_ascii());
        reveal_strlit("text/html");
        assert("text/html".is_ascii());
    }
    let b = crate::response::HttpResponseBuilder::ok().header("Content-Type", "text/html")
        .body(html.as_str().as_bytes_vec());
    let ghost bv = b@;
    let r = b.build();
    proof {
        assert(bv.headers =~= seq![("Content-Type"@, "text/html"@)]);
        assert(bv.body =~= utf8_of(spec_listing_html(route_path@, names)));
    }
    r
}

/// A character below 0x80 keeps its identity through a byte cast.
proof fn lemma_ascii_cast_ne(c: char, d: char)
    requires
        '\u{0}' <= c <= '\u{7f}',
        '\u{0}' <= d <= '\u{7f}',
        c != d,
    ensures
        c as u8 != d as u8,
{
    assert((c as u8) as char == c);
    assert((d as u8) as char == d);
}

/// The head literal a rendered part opens with.
pub open spec fn part_head_lit() -> Seq<char> {
    "\r\nContent-Disposition: form-data; name=\"file\"; filename=\""@
}

/// The bytes that stand between two delimiters for one rendered
/// part: the disposition head, the blank line, the content, a CRLF.
pub open spec fn inner_bytes(name: Seq<char>, content: Seq<u8>) -> Seq<u8> {
    utf8_of(part_head_lit() + name + "\"\r\n\r\n"@) + content + utf8_of("\r\n"@)
}

/// The rendered bytes after the opening delimiter: each part's
/// interior followed by the next delimiter, closed by `--` CRLF.
pub open spec fn rendered_tail(parts: Seq<(Seq<char>, Seq<u8>)>, boundary: Seq<char>) -> Seq<u8>
    decreases parts.len(),
{
    if parts.len() == 0 {
        utf8_of("--\r\n"@)
    } else {
        inner_bytes(parts[0].0, parts[0].1) + spec_delim(boundary) + rendered_tail(
            parts.skip(1),
            boundary,
        )
    }
}

/// A file name that renders and parses back cleanly: ASCII, without
/// a quote or a line break.
pub open spec fn plain_name(name: Seq<char>) -> bool {
    &&& vstd::utf8::is_ascii_chars(name)
    &&& forall|i: int|
        0 <= i < name.len() ==> #[trigger] name[i] != '"' && name[i] != '\r' && name[i]
            != '\n'
}

/// The delimiter does not occur inside this part's rendered
/// interior, not even straddling into the delimiter that follows.
pub open spec fn part_avoids_delim(
    name: Seq<char>,
    content: Seq<u8>,
    boundary: Seq<char>,
) -> bool {
    forall|m: int|
        0 <= m < inner_bytes(name, content).len() ==> #[trigger] (inner_bytes(name, content)
            + spec_delim(boundary)).subrange(m, m + spec_delim(boundary).len() as int)
            != spec_delim(boundary)
}

/// Rendering ASCII text encodes piece by piece.
proof fn lemma_utf8_ascii_concat(a: Seq<char>, b: Seq<char>)
    requires
        vstd::utf8::is_ascii_chars(a),
        vstd::utf8::is_ascii_chars(b),
    ensures
        utf8_of(a + b) == utf8_of(a) + utf8_of(b),
{
    crate::cookie::lemma_ascii_concat(a, b);
    vstd::utf8::is_ascii_chars_encode_utf8(a);
    vstd::utf8::is_ascii_chars_encode_utf8(b);
    vstd::utf8::is_ascii_chars_encode_utf8(a + b);
    assert(utf8_of(a + b) =~= utf8_of(a) + utf8_of(b)) by {
        assert(forall|i: int|
            0 <= i < a.len() + b.len() ==> (a + b)[i] == (if i < a.len() {
                a[i]
            } else {
                b[i - a.len()]
            }));
        assert(forall|i: int|
            0 <= i < a.len() + b.len() ==> (utf8_of(a) + utf8_of(b))[i] == (if i < a.len() {
                utf8_of(a)[i]
            } else {
                utf8_of(b)[i - a.len()]
            }));
    }
}

/// The rendered `--boundary` opener is the extractor's delimiter.
proof fn lemma_utf8_delim(boundary: Seq<char>)
    requires
        vstd::utf8::is_ascii_chars(boundary),
    ensures
        utf8_of("--"@ + boundary) == spec_delim(boundary),
{
    reveal_strlit("--");
    assert("--".is_ascii());
    crate::cookie::lemma_ascii_concat("--"@, boundary);
    vstd::utf8::is_ascii_chars_encode_utf8("--"@ + boundary);
    assert(utf8_of("--"@ + boundary) =~= spec_delim(boundary)) by {
        assert(forall|i: int|
            0 <= i < boundary.len() ==> ("--"@ + boundary)[2 + i] == boundary[i]);
        assert(("--"@ + boundary)[0] == '-' && ("--"@ + boundary)[1] == '-');
        assert('-' as u8 == 45);
    }
}

/// The rendered body is the delimiter followed by the tail shape.
proof fn lemma_multipart_shape(parts: Seq<(Seq<char>, Seq<u8>)>, boundary: Seq<char>)
    requires
        vstd::utf8::is_ascii_chars(boundary),
        forall|k: int| 0 <= k < parts.len() ==> plain_name(#[trigger] parts[k].0),
    ensures
        spec_multipart_bytes(parts, boundary) == spec_delim(boundary) + rendered_tail(
            parts,
            boundary,
        ),
    decreases parts.len(),
{
    reveal_strlit("--\r\n");
    assert("--\r\n".is_ascii());
    reveal_strlit("--");
    assert("--".is_ascii());
    crate::cookie::lemma_ascii_concat("--"@, boundary);
    if parts.len() == 0 {
        lemma_utf8_ascii_concat("--"@ + boundary, "--\r\n"@);
        assert(("--"@ + boundary + "--\r\n"@) =~= ("--"@ + boundary) + "--\r\n"@);
        lemma_utf8_delim(boundary);
    } else {
        let name = parts[0].0;
        let content = parts[0].1;
        assert(plain_name(name));
        reveal_strlit("\r\nContent-Disposition: form-data; name=\"file\"; filename=\"");
        reveal_strlit("\"\r\n\r\n");
        assert(vstd::utf8::is_ascii_chars(part_head_lit()));
        assert("\"\r\n\r\n".is_ascii());
        crate::cookie::lemma_ascii_concat(part_head_lit(), name);
        crate::cookie::lemma_ascii_concat(part_head_lit() + name, "\"\r\n\r\n"@);
        lemma_utf8_ascii_concat("--"@ + boundary, part_head_lit() + name + "\"\r\n\r\n"@);
        assert(("--"@ + boundary + "\r\nContent-Disposition: form-data; name=\"file\"; filename=\""@
            + name + "\"\r\n\r\n"@) =~= ("--"@ + boundary) + (part_head_lit() + name
            + "\"\r\n\r\n"@));
        lemma_utf8_delim(boundary);
        assert(spec_part_bytes(name, content, boundary) =~= spec_delim(boundary)
            + inner_bytes(name, content));
        lemma_multipart_shape(parts.skip(1), boundary);
        assert(forall|k: int|
            0 <= k < parts.skip(1).len() ==> parts.skip(1)[k] == parts[k + 1]);
        assert(spec_multipart_bytes(parts, boundary) =~= spec_delim(boundary)
            + rendered_tail(parts, boundary));
    }
}

/// The fixed facts of the head literal the part parser scans: its
/// only carriage return opens it, and `filename="` stands only at
/// its very end.
#[verifier::rlimit(100)]
#[verifier::spinoff_prover]
proof fn lemma_head_lit_facts()
    ensures
        part_head_lit().len() == 57,
        vstd::utf8::is_ascii_chars(part_head_lit()),
        part_head_lit()[0] == '\r' && part_head_lit()[1] == '\n' && part_head_lit()[2] == 'C',
        forall|i: int| 1 <= i < 57 ==> #[trigger] part_head_lit()[i] != '\r',
        part_head_lit().skip(47) == "filename=\""@,
        forall|m: int|
            0 <= m < 47 ==> #[trigger] byte_seq_of(part_head_lit()).subrange(m, m + 10)
                != byte_seq_of("filename=\""@),
{
    reveal_strlit("\r\nContent-Disposition: form-data; name=\"file\"; filename=\"");
    reveal_strlit("filename=\"");
    let lh = part_head_lit();
    let pat = "filename=\""@;
    assert(lh.skip(47) =~= pat);
    assert(forall|m: int|
        0 <= m < 47 ==> #[trigger] byte_seq_of(lh).subrange(m, m + 10) != byte_seq_of(
            pat,
        )) by {
        assert forall|m: int| 0 <= m < 47 implies #[trigger] byte_seq_of(lh).subrange(
            m,
            m + 10,
        ) != byte_seq_of(pat) by {
            if m == 23 {
                assert(byte_seq_of(lh).subrange(m, m + 10)[1] == lh[24] as u8);
                lemma_ascii_cast_ne(lh[24], pat[1]);
                assert(byte_seq_of(pat)[1] == pat[1] as u8);
            } else if m == 40 {
                assert(byte_seq_of(lh).subrange(m, m + 10)[4] == lh[44] as u8);
                lemma_ascii_cast_ne(lh[44], pat[4]);
                assert(byte_seq_of(pat)[4] == pat[4] as u8);
            } else {
                assert(lh[m] != 'f');
                assert(byte_seq_of(lh).subrange(m, m + 10)[0] == lh[m] as u8);
                lemma_ascii_cast_ne(lh[m], pat[0]);
                assert(byte_seq_of(pat)[0] == pat[0] as u8);
            }
        }
    }
}

/// One rendered interior parses back to its own name and content.
#[verifier::rlimit(100)]
#[verifier::spinoff_prover]
proof fn lemma_part_of_inner(name: Seq<char>, content: Seq<u8>)
    requires
        plain_name(name),
    ensures
        spec_part(inner_bytes(name, content)) == Some((name, content)),
{
    lemma_head_lit_facts();
    reveal_strlit("\"\r\n\r\n");
    reveal_strlit("\r\n");
    assert("\"\r\n\r\n".is_ascii());
    assert("\r\n".is_ascii());
    let lh = part_head_lit();
    let lt = "\"\r\n\r\n"@;
    let headchars = lh + name + lt;
    crate::cookie::lemma_ascii_concat(lh, name);
    crate::cookie::lemma_ascii_concat(lh + name, lt);
    vstd::utf8::is_ascii_chars_encode_utf8(headchars);
    vstd::utf8::is_ascii_chars_encode_utf8("\r\n"@);
    let hb = utf8_of(headchars);
    let n = name.len() as int;
    let seg = inner_bytes(name, content);
    assert(hb.len() == 57 + n + 5);
    assert(seg.len() == hb.len() + content.len() + 2);
    assert(forall|i: int| 0 <= i < hb.len() ==> #[trigger] hb[i] == headchars[i] as u8);
    assert(forall|i: int| 0 <= i < hb.len() ==> #[trigger] seg[i] == hb[i]);
    assert(forall|i: int| 0 <= i < 57 ==> #[trigger] headchars[i] == lh[i]);
    assert(forall|i: int| 0 <= i < n ==> #[trigger] headchars[57 + i] == name[i]);
    assert(forall|i: int| 0 <= i < 5 ==> #[trigger] headchars[57 + n + i] == lt[i]);
    let h = 57 + n + 1;
    let pat4 = seq![CR, LF, CR, LF];
    // The blank line stands right after the closing quote, first.
    assert(seg.subrange(h, h + 4) =~= pat4) by {
        assert(lt[1] == '\r' && lt[2] == '\n' && lt[3] == '\r' && lt[4] == '\n');
        assert('\r' as u8 == 13 && '\n' as u8 == 10);
    }
    assert(forall|m: int| 0 <= m < h ==> #[trigger] seg.subrange(m, m + 4) != pat4) by {
        assert forall|m: int| 0 <= m < h implies #[trigger] seg.subrange(m, m + 4)
            != pat4 by {
            if m == 0 {
                assert(seg.subrange(m, m + 4)[2] == seg[2]);
                assert(seg[2] == lh[2] as u8);
                lemma_ascii_cast_ne(lh[2], '\r');
            } else {
                assert(seg.subrange(m, m + 4)[0] == seg[m]);
                if m < 57 {
                    assert(seg[m] == lh[m] as u8);
                    lemma_ascii_cast_ne(lh[m], '\r');
                } else if m < 57 + n {
                    assert(seg[m] == name[m - 57] as u8);
                    lemma_ascii_cast_ne(name[m - 57], '\r');
                } else {
                    assert(m == 57 + n);
                    assert(seg[m] == lt[0] as u8);
                    assert(lt[0] == '"');
                    lemma_ascii_cast_ne('"', '\r');
                }
                assert('\r' as u8 == 13);
            }
        }
    }
    crate::bytes::lemma_find_seq_from(seg, pat4, 0);
    assert(seg.subrange(h, h + pat4.len() as int) == seg.subrange(h, h + 4));
    assert(crate::bytes::find_seq_from(seg, pat4, 0) == Some(h)) by {
        match crate::bytes::find_seq_from(seg, pat4, 0) {
            Some(j) => {
                if j < h {
                    assert(seg.subrange(j, j + pat4.len() as int) == pat4);
                    assert(seg.subrange(j, j + 4) == pat4);
                }
                if j > h {
                    assert(seg.subrange(h, h + pat4.len() as int) != pat4);
                }
            },
            None => {
                assert(seg.subrange(h, h + pat4.len() as int) != pat4);
            },
        }
    }
    let head = seg.take(h);
    assert(forall|i: int| 0 <= i < h ==> #[trigger] head[i] == seg[i]);
    // The trailing CRLF is stripped from the raw content.
    let raw = seg.skip(h + 4);
    assert(raw =~= content + utf8_of("\r\n"@));
    assert(utf8_of("\r\n"@)[0] == 13 && utf8_of("\r\n"@)[1] == 10) by {
        assert('\r' as u8 == 13 && '\n' as u8 == 10);
    }
    assert(raw.len() >= 2 && raw[raw.len() - 2] == 13 && raw[raw.len() - 1] == 10);
    assert(raw.take(raw.len() - 2) =~= content);
    // The file name attribute stands only at the head literal's end.
    let fpat = fname_pat();
    assert(fpat == byte_seq_of("filename=\""@));
    assert(fpat.len() == 10) by {
        reveal_strlit("filename=\"");
    }
    assert(head.subrange(47, 57) =~= fpat) by {
        assert(forall|i: int|
            0 <= i < 10 ==> #[trigger] head[47 + i] == lh[47 + i] as u8);
        assert(forall|i: int|
            0 <= i < 10 ==> #[trigger] lh.skip(47)[i] == lh[47 + i]);
    }
    assert(forall|m: int| 0 <= m < 47 ==> #[trigger] head.subrange(m, m + 10) != fpat) by {
        assert forall|m: int| 0 <= m < 47 implies #[trigger] head.subrange(m, m + 10)
            != fpat by {
            assert(head.subrange(m, m + 10) =~= byte_seq_of(lh).subrange(m, m + 10)) by {
                assert(forall|i: int|
                    0 <= i < 10 ==> #[trigger] head.subrange(m, m + 10)[i] == lh[m
                        + i] as u8);
                assert(forall|i: int|
                    0 <= i < 10 ==> #[trigger] byte_seq_of(lh).subrange(m, m + 10)[i]
                        == lh[m + i] as u8);
            }
        }
    }
    crate::bytes::lemma_find_seq_from(head, fpat, 0);
    assert(head.subrange(47, 47 + fpat.len() as int) == head.subrange(47, 57));
    assert(crate::bytes::find_seq_from(head, fpat, 0) == Some(47int)) by {
        match crate::bytes::find_seq_from(head, fpat, 0) {
            Some(j) => {
                if j < 47 {
                    assert(head.subrange(j, j + fpat.len() as int) == fpat);
                    assert(head.subrange(j, j + 10) == fpat);
                }
                if j > 47 {
                    assert(head.subrange(47, 47 + fpat.len() as int) != fpat);
                }
            },
            None => {
                assert(head.subrange(47, 47 + fpat.len() as int) != fpat);
            },
        }
    }
    // The name runs to the first quote after the attribute.
    let rest = head.skip(57);
    assert(rest.len() == n + 1);
    assert(forall|i: int| 0 <= i < n ==> #[trigger] rest[i] == name[i] as u8);
    assert(rest[n] == lt[0] as u8);
    assert(lt[0] == '"' && '"' as u8 == 34);
    assert(forall|i: int| 0 <= i < n ==> #[trigger] rest[i] != 34) by {
        assert forall|i: int| 0 <= i < n implies #[trigger] rest[i] != 34 by {
            lemma_ascii_cast_ne(name[i], '"');
        }
    }
    crate::bytes::lemma_find_byte_from(rest, 34, 0);
    assert(crate::bytes::find_byte_from(rest, 34, 0) == Some(n)) by {
        match crate::bytes::find_byte_from(rest, 34, 0) {
            Some(j) => {
                if j < n {
                    assert(rest[j] == 34);
                }
            },
            None => {
                assert(rest[n] == 34);
            },
        }
    }
    let name_bytes = rest.take(n);
    assert(all_ascii(name_bytes)) by {
        assert(forall|i: int| 0 <= i < n ==> #[trigger] name_bytes[i] == name[i] as u8);
    }
    assert(chars_of(name_bytes) =~= name) by {
        assert(forall|i: int| 0 <= i < n ==> #[trigger] name_bytes[i] == name[i] as u8);
        assert(forall|i: int|
            0 <= i < n ==> #[trigger] chars_of(name_bytes)[i] == (name[i] as u8) as char);
        assert(forall|i: int| 0 <= i < n ==> ((#[trigger] name[i]) as u8) as char == name[i]);
    }
}

/// Every interior between delimiters parses back, in order.
proof fn lemma_parts_round(
    s: Seq<u8>,
    pos: int,
    parts: Seq<(Seq<char>, Seq<u8>)>,
    boundary: Seq<char>,
)
    requires
        vstd::utf8::is_ascii_chars(boundary),
        boundary.len() > 0,
        0 <= pos <= s.len(),
        s.skip(pos) == rendered_tail(parts, boundary),
        forall|k: int| 0 <= k < parts.len() ==> plain_name(#[trigger] parts[k].0),
        forall|k: int|
            0 <= k < parts.len() ==> part_avoids_delim(
                (#[trigger] parts[k]).0,
                parts[k].1,
                boundary,
            ),
    ensures
        spec_parts_from(s, spec_delim(boundary), pos) == parts,
    decreases parts.len(),
{
    let delim = spec_delim(boundary);
    let dlen = delim.len() as int;
    assert(dlen == 2 + boundary.len());
    reveal_strlit("--\r\n");
    assert("--\r\n".is_ascii());
    vstd::utf8::is_ascii_chars_encode_utf8("--\r\n"@);
    if parts.len() == 0 {
        assert(s.len() - pos == 4);
        assert(s[pos] == "--\r\n"@[0] as u8 && s[pos + 1] == "--\r\n"@[1] as u8) by {
            assert(s[pos] == s.skip(pos)[0] && s[pos + 1] == s.skip(pos)[1]);
        }
        assert(s[pos] == 45 && s[pos + 1] == 45) by {
            assert("--\r\n"@[0] == '-' && "--\r\n"@[1] == '-');
            assert('-' as u8 == 45);
        }
        assert(spec_parts_from(s, delim, pos) =~= parts);
    } else {
        let name = parts[0].0;
        let content = parts[0].1;
        let inner = inner_bytes(name, content);
        let ilen = inner.len() as int;
        assert(s.skip(pos) == inner + delim + rendered_tail(parts.skip(1), boundary));
        assert(forall|i: int|
            0 <= i < s.len() - pos ==> #[trigger] s[pos + i] == s.skip(pos)[i]);
        proof_inner_opens(name, content);
        assert(s[pos] == 13 && s[pos + 1] == 10) by {
            assert(s.skip(pos)[0] == inner[0] && s.skip(pos)[1] == inner[1]);
        }
        // Not the closing marker.
        assert(!(s[pos] == 45 && s[pos + 1] == 45));
        // The next delimiter is found exactly past this interior.
        let id = inner + delim;
        assert(forall|i: int| 0 <= i < id.len() ==> #[trigger] s.skip(pos)[i] == id[i]) by {
            assert(s.skip(pos) == id + rendered_tail(parts.skip(1), boundary));
            assert(forall|i: int|
                0 <= i < id.len() ==> (id + rendered_tail(parts.skip(1), boundary))[i]
                    == id[i]);
        }
        assert(forall|i: int| 0 <= i < dlen ==> #[trigger] id[ilen + i] == delim[i]);
        assert(s.subrange(pos + ilen, pos + ilen + dlen) =~= delim) by {
            assert(forall|i: int|
                0 <= i < dlen ==> #[trigger] s.subrange(pos + ilen, pos + ilen + dlen)[i]
                    == s[pos + ilen + i]);
            assert(forall|i: int|
                0 <= i < dlen ==> #[trigger] s[pos + ilen + i] == s.skip(pos)[ilen + i]);
        }
        assert(forall|m: int|
            pos <= m < pos + ilen ==> #[trigger] s.subrange(m, m + dlen) != delim) by {
            assert forall|m: int| pos <= m < pos + ilen implies #[trigger] s.subrange(
                m,
                m + dlen,
            ) != delim by {
                let w = m - pos;
                assert((inner + delim).subrange(w, w + spec_delim(boundary).len() as int)
                    != delim) by {
                    assert(part_avoids_delim(name, content, boundary));
                }
                assert(s.subrange(m, m + dlen) =~= (inner + delim).subrange(w, w + dlen)) by {
                    assert(forall|i: int|
                        0 <= i < dlen ==> #[trigger] s.subrange(m, m + dlen)[i] == s[m + i]);
                    assert(forall|i: int|
                        0 <= i < dlen ==> #[trigger] s[m + i] == s.skip(pos)[w + i]);
                    assert(forall|i: int|
                        0 <= i < dlen ==> #[trigger] (inner + delim).subrange(w, w + dlen)[i]
                            == (inner + delim)[w + i]);
                }
                assert((inner + delim).subrange(w, w + dlen) != delim);
            }
        }
        crate::bytes::lemma_find_seq_from(s, delim, pos);
        assert(forall|m: int|
            pos <= m < pos + ilen ==> #[trigger] s.subrange(m, m + delim.len() as int)
                != delim);
        assert(s.subrange(pos + ilen, pos + ilen + delim.len() as int) == delim);
        assert(crate::bytes::find_seq_from(s, delim, pos) == Some(pos + ilen)) by {
            match crate::bytes::find_seq_from(s, delim, pos) {
                Some(j) => {
                    if j < pos + ilen {
                        assert(s.subrange(j, j + delim.len() as int) == delim);
                        assert(s.subrange(j, j + dlen) == delim);
                    }
                    if j > pos + ilen {
                        assert(s.subrange(pos + ilen, pos + ilen + delim.len() as int)
                            != delim);
                    }
                },
                None => {
                    assert(s.subrange(pos + ilen, pos + ilen + delim.len() as int) != delim);
                },
            }
        }
        assert(s.subrange(pos, pos + ilen) =~= inner);
        lemma_part_of_inner(name, content);
        assert(s.skip(pos + ilen + dlen) =~= rendered_tail(parts.skip(1), boundary)) by {
            assert(id.len() == ilen + dlen);
            assert(s.skip(pos).skip(ilen + dlen) =~= s.skip(pos + ilen + dlen));
            assert((id + rendered_tail(parts.skip(1), boundary)).skip(ilen + dlen)
                =~= rendered_tail(parts.skip(1), boundary));
        }
        assert(forall|k: int|
            0 <= k < parts.skip(1).len() ==> parts.skip(1)[k] == parts[k + 1]);
        lemma_parts_round(s, pos + ilen + dlen, parts.skip(1), boundary);
        assert(spec_parts_from(s, delim, pos) =~= parts);
    }
}

/// The interior's first two bytes are the line break that opens it.
proof fn proof_inner_opens(name: Seq<char>, content: Seq<u8>)
    requires
        vstd::utf8::is_ascii_chars(name),
    ensures
        inner_bytes(name, content).len() >= 64,
        inner_bytes(name, content)[0] == 13,
        inner_bytes(name, content)[1] == 10,
{
    reveal_strlit("\r\nContent-Disposition: form-data; name=\"file\"; filename=\"");
    reveal_strlit("\"\r\n\r\n");
    assert(vstd::utf8::is_ascii_chars(part_head_lit()));
    assert("\"\r\n\r\n".is_ascii());
    crate::cookie::lemma_ascii_concat(part_head_lit(), name);
    crate::cookie::lemma_ascii_concat(part_head_lit() + name, "\"\r\n\r\n"@);
    vstd::utf8::is_ascii_chars_encode_utf8(part_head_lit() + name + "\"\r\n\r\n"@);
    reveal_strlit("\r\n");
    assert("\r\n".is_ascii());
    vstd::utf8::is_ascii_chars_encode_utf8("\r\n"@);
    let hc = part_head_lit() + name + "\"\r\n\r\n"@;
    assert(part_head_lit().len() == 57);
    assert(hc.len() == 62 + name.len());
    assert(utf8_of(hc).len() == hc.len());
    assert(inner_bytes(name, content).len() == hc.len() + content.len() + 2);
    assert(hc[0] == '\r' && hc[1] == '\n');
    assert('\r' as u8 == 13 && '\n' as u8 == 10);
    assert(inner_bytes(name, content)[0] == utf8_of(hc)[0]);
    assert(inner_bytes(name, content)[1] == utf8_of(hc)[1]);
}

/// Multipart round trip: a body built from (filename, bytes) pairs
/// under a boundary extracts back to exactly those pairs, as long as
/// the names are plain and the delimiter never occurs inside a
/// rendered part.
pub proof fn lemma_multipart_round_trip(parts: Seq<(Seq<char>, Seq<u8>)>, boundary: Seq<char>)
    requires
        vstd::utf8::is_ascii_chars(boundary),
        boundary.len() > 0,
        forall|k: int| 0 <= k < parts.len() ==> plain_name(#[trigger] parts[k].0),
        forall|k: int|
            0 <= k < parts.len() ==> part_avoids_delim(
                (#[trigger] parts[k]).0,
                parts[k].1,
                boundary,
            ),
    ensures
        spec_multipart(spec_multipart_bytes(parts, boundary), boundary) == parts,
{
    let built = spec_multipart_bytes(parts, boundary);
    let delim = spec_delim(boundary);
    let dlen = delim.len() as int;
    lemma_multipart_shape(parts, boundary);
    assert(built == delim + rendered_tail(parts, boundary));
    assert(built.subrange(0, dlen) =~= delim);
    assert(crate::bytes::find_seq_from(built, delim, 0) == Some(0int));
    assert(built.skip(dlen) =~= rendered_tail(parts, boundary));
    lemma_parts_round(built, dlen, parts, boundary);
}

} // verus!
