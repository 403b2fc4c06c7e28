//! Cookie building and parsing: a builder for `Set-Cookie` values and
//! a parser for `Cookie` headers, with the session-id lookup on top.

use vstd::prelude::*;
use crate::strutil::{
    dec_chars, find_char_from, lemma_find_char_from, find_char, trim_chars, trim_str,
    substring, str_eq,
};

verus! {

#[derive(Debug, Clone)]
pub enum SameSite {
    Strict,
    Lax,
    /// The `SameSite=None` attribute value.
    NoneValue,
}

/// A cookie under construction, or one read back from a header.
/// Times are plain seconds: `max_age` a duration, `expires` a point
/// in seconds since the Unix epoch.
#[derive(Debug, Clone)]
pub struct Cookie {
    pub name: String,
    pub value: String,
    pub path: Option<String>,
    pub domain: Option<String>,
    pub max_age: Option<u64>,
    pub expires: Option<u64>,
    pub secure: bool,
    pub http_only: bool,
    pub same_site: Option<SameSite>,
}

/// Formatting a date before the year 9999 never exceeds this count of
/// seconds since the epoch.
pub const HTTP_DATE_MAX: u64 = 253402300799;

/// What the date formatter prints for a given second count.
pub uninterp spec fn http_date_of(secs: u64) -> Seq<char>;

/// Relies on `httpdate::fmt_http_date`: formats the given point in
/// time as a fixed 29-character IMF-fixdate; the result depends on the
/// second count alone, and the formatter accepts any date up to the
/// year 9999.
#[verifier::external_body]
fn http_date_string(secs: u64) -> (r: String)
    requires
        secs <= HTTP_DATE_MAX,
    ensures
        r@ == http_date_of(secs),
        r@.len() == 29,
        r.is_ascii(),
{
    httpdate::fmt_http_date(
        std::time::SystemTime::UNIX_EPOCH + std::time::Duration::from_secs(secs),
    )
}

pub open spec fn url_safe_char(c: char) -> bool {
    ('0' <= c && c <= '9') || ('A' <= c && c <= 'Z') || ('a' <= c && c <= 'z') || c == '-'
        || c == '.' || c == '_' || c == '~'
}

/// The upper-case hex digit for a value below 16.
pub open spec fn hex_upper_digit(d: u8) -> char {
    if d < 10 {
        ((48 + d) as u8) as char
    } else {
        ((55 + d) as u8) as char
    }
}

pub open spec fn url_encode_char(c: char) -> Seq<char> {
    if url_safe_char(c) {
        seq![c]
    } else {
        seq!['%', hex_upper_digit((c as u8) / 16), hex_upper_digit((c as u8) % 16)]
    }
}

/// Percent-encoding of an ASCII string, character by character.
pub open spec fn url_encode_chars(s: Seq<char>) -> Seq<char>
    decreases s.len(),
{
    if s.len() == 0 {
        Seq::empty()
    } else {
        url_encode_char(s[0]) + url_encode_chars(s.skip(1))
    }
}

/// Relies on `urlencoding::encode`: percent-encodes every byte except
/// ASCII alphanumerics and `-`, `.`, `_`, `~`, writing two upper-case
/// hex digits after `%`; the output is always ASCII.
#[verifier::external_body]
fn url_encode(s: &str) -> (r: String)
    ensures
        s.is_ascii() ==> r@ == url_encode_chars(s@),
        r.is_ascii(),
{
    urlencoding::encode(s).into_owned()
}

/// A string of url-safe characters encodes to itself.
pub proof fn lemma_url_encode_safe_identity(s: Seq<char>)
    requires
        forall|i: int| 0 <= i < s.len() ==> url_safe_char(s[i]),
    ensures
        url_encode_chars(s) == s,
    decreases s.len(),
{
    if s.len() > 0 {
        lemma_url_encode_safe_identity(s.skip(1));
        assert(url_encode_chars(s) =~= s);
    }
}

/// The attribute part of a `Set-Cookie` value: each set attribute in
/// order, every one introduced by `; `.
pub open spec fn spec_attr_tail(c: Cookie) -> Seq<char> {
    (match c.path {
        Some(p) => "; Path="@ + p@,
        None => Seq::<char>::empty(),
    }) + (match c.domain {
        Some(d) => "; Domain="@ + d@,
        None => Seq::<char>::empty(),
    }) + (match c.max_age {
        Some(n) => "; Max-Age="@ + dec_chars(n as nat),
        None => Seq::<char>::empty(),
    }) + (match c.expires {
        Some(t) => "; Expires="@ + http_date_of(t),
        None => Seq::<char>::empty(),
    }) + (if c.secure {
        "; Secure"@
    } else {
        Seq::<char>::empty()
    }) + (if c.http_only {
        "; HttpOnly"@
    } else {
        Seq::<char>::empty()
    }) + (match c.same_site {
        Some(SameSite::Strict) => "; SameSite=Strict"@,
        Some(SameSite::Lax) => "; SameSite=Lax"@,
        Some(SameSite::NoneValue) => "; SameSite=None"@,
        None => Seq::<char>::empty(),
    })
}

/// The `Set-Cookie` value that a cookie writes: the name=value pair
/// first, then each set attribute, joined by `; `.
pub open spec fn spec_header_value(c: Cookie) -> Seq<char> {
    c.name@ + "="@ + url_encode_chars(c.value@) + spec_attr_tail(c)
}

/// The name/value pairs that a `Cookie` header value holds: segments
/// split on `;`, blanks trimmed, segments without `=` or empty
/// dropped.
pub open spec fn spec_parse_cookies(s: Seq<char>) -> Seq<(Seq<char>, Seq<char>)>
    decreases s.len(),
    via spec_parse_cookies_dec
{
    let seg_end = match find_char_from(s, ';', 0) {
        Some(j) => j,
        None => s.len() as int,
    };
    let seg = trim_chars(s.take(seg_end));
    let rest = if seg_end < s.len() {
        spec_parse_cookies(s.skip(seg_end + 1))
    } else {
        Seq::empty()
    };
    (if seg.len() == 0 {
        Seq::empty()
    } else {
        match find_char_from(seg, '=', 0) {
            Some(e) => seq![(trim_chars(seg.take(e)), trim_chars(seg.skip(e + 1)))],
            None => Seq::empty(),
        }
    }) + rest
}

#[via_fn]
proof fn spec_parse_cookies_dec(s: Seq<char>) {
    lemma_find_char_from(s, ';', 0);
}

/// A parsed cookie holds just a name and a value.
pub open spec fn is_plain_cookie(c: Cookie, name: Seq<char>, value: Seq<char>) -> bool {
    &&& c.name@ == name
    &&& c.value@ == value
    &&& c.path is None
    &&& c.domain is None
    &&& c.max_age is None
    &&& c.expires is None
    &&& !c.secure
    &&& !c.http_only
    &&& c.same_site is None
}

impl Cookie {
    /// A bare cookie with the given name and value.
    pub fn new(name: &str, value: &str) -> (r: Cookie)
        ensures
            is_plain_cookie(r, name@, value@),
    {
        Cookie {
            name: String::from_str(name),
            value: String::from_str(value),
            path: None,
            domain: None,
            max_age: None,
            expires: None,
            secure: false,
            http_only: false,
            same_site: None,
        }
    }

    /// The same cookie with the path attribute set.
    pub fn path(self, path: &str) -> (r: Cookie)
        ensures
            r.path matches Some(p) && p@ == path@,
            r == (Cookie { path: r.path, ..self }),
    {
        Cookie { path: Some(String::from_str(path)), ..self }
    }

    /// The same cookie with the domain attribute set.
    pub fn domain(self, domain: &str) -> (r: Cookie)
        ensures
            r.domain matches Some(d) && d@ == domain@,
            r == (Cookie { domain: r.domain, ..self }),
    {
        Cookie { domain: Some(String::from_str(domain)), ..self }
    }

    /// The same cookie with a max age in seconds.
    pub fn max_age(self, seconds: u64) -> (r: Cookie)
        ensures
            r == (Cookie { max_age: Some(seconds), ..self }),
    {
        Cookie { max_age: Some(seconds), ..self }
    }

    /// The same cookie with an expiry point in seconds since the epoch.
    pub fn expires(self, time: u64) -> (r: Cookie)
        ensures
            r == (Cookie { expires: Some(time), ..self }),
    {
        Cookie { expires: Some(time), ..self }
    }

    /// The same cookie with the secure flag set or cleared.
    pub fn secure(self, secure: bool) -> (r: Cookie)
        ensures
            r == (Cookie { secure, ..self }),
    {
        Cookie { secure, ..self }
    }

    /// The same cookie with the http-only flag set or cleared.
    pub fn http_only(self, http_only: bool) -> (r: Cookie)
        ensures
            r == (Cookie { http_only, ..self }),
    {
        Cookie { http_only, ..self }
    }

    /// The same cookie with the same-site attribute set.
    pub fn same_site(self, same_site: SameSite) -> (r: Cookie)
        ensures
            r == (Cookie { same_site: Some(same_site), ..self }),
    {
        Cookie { same_site: Some(same_site), ..self }
    }

    /// Writes the `Set-Cookie` header value. The value is
    /// percent-encoded; for an ASCII value the result is exactly
    /// `spec_header_value`.
    /// One attribute of the tail: `; ` and the label, then the value.
    fn push_attr(out: &mut String, label: &str, val: &str)
        ensures
            final(out)@ == old(out)@ + (label@ + val@),
    {
        let mut a = String::from_str(label);
        a.append(val);
        out.append(a.as_str());
    }

    /// The attribute part of this cookie's `Set-Cookie` value.
    #[verifier::rlimit(50)]
    fn attr_tail(&self) -> (r: String)
        requires
            self.expires matches Some(t) ==> t <= HTTP_DATE_MAX,
        ensures
            r@ == spec_attr_tail(*self),
    {
        let mut out = String::new();
        let ghost mut exp: Seq<char> = Seq::empty();
        proof {
            assert(out@ == exp);
        }
        match &self.path {
            Some(p) => {
                Self::push_attr(&mut out, "; Path=", p.as_str());
                proof {
                    exp = exp + ("; Path="@ + p@);
                }
            },
            None => {
                proof {
                    exp = exp + Seq::<char>::empty();
                    assert(out@ =~= exp);
                }
            },
        }
        proof {
            assert(out@ == exp);
        }
        match &self.domain {
            Some(d) => {
                Self::push_attr(&mut out, "; Domain=", d.as_str());
                proof {
                    exp = exp + ("; Domain="@ + d@);
                }
            },
            None => {
                proof {
                    exp = exp + Seq::<char>::empty();
                    assert(out@ =~= exp);
                }
            },
        }
        proof {
            assert(out@ == exp);
        }
        match &self.max_age {
            Some(n) => {
                let ns = crate::strutil::u64_to_string(*n);
                Self::push_attr(&mut out, "; Max-Age=", ns.as_str());
                proof {
                    exp = exp + ("; Max-Age="@ + dec_chars(*n as nat));
                }
            },
            None => {
                proof {
                    exp = exp + Seq::<char>::empty();
                    assert(out@ =~= exp);
                }
            },
        }
        proof {
            assert(out@ == exp);
        }
        match &self.expires {
            Some(t) => {
                let ds = http_date_string(*t);
                Self::push_attr(&mut out, "; Expires=", ds.as_str());
                proof {
                    exp = exp + ("; Expires="@ + http_date_of(*t));
                }
            },
            None => {
                proof {
                    exp = exp + Seq::<char>::empty();
                    assert(out@ =~= exp);
                }
            },
        }
        proof {
            assert(out@ == exp);
        }
        if self.secure {
            out.append("; Secure");
            proof {
                exp = exp + "; Secure"@;
            }
        } else {
            proof {
                exp = exp + Seq::<char>::empty();
                assert(out@ =~= exp);
            }
        }
        if self.http_only {
            out.append("; HttpOnly");
            proof {
                exp = exp + "; HttpOnly"@;
            }
        } else {
            proof {
                exp = exp + Seq::<char>::empty();
                assert(out@ =~= exp);
            }
        }
        proof {
            assert(out@ == exp);
        }
        match &self.same_site {
            Some(SameSite::Strict) => {
                out.append("; SameSite=Strict");
                proof {
                    exp = exp + "; SameSite=Strict"@;
                }
            },
            Some(SameSite::Lax) => {
                out.append("; SameSite=Lax");
                proof {
                    exp = exp + "; SameSite=Lax"@;
                }
            },
            Some(SameSite::NoneValue) => {
                out.append("; SameSite=None");
                proof {
                    exp = exp + "; SameSite=None"@;
                }
            },
            None => {
                proof {
                    exp = exp + Seq::<char>::empty();
                    assert(out@ =~= exp);
                }
            },
        }
        proof {
            assert(out@ == exp);
            assert(exp == spec_attr_tail(*self));
        }
        out
    }

    #[verifier::rlimit(50)]
    pub fn to_header_value(&self) -> (r: String)
        requires
            self.expires matches Some(t) ==> t <= HTTP_DATE_MAX,
        ensures
            self.value.is_ascii() ==> r@ == spec_header_value(*self),
    {
        let mut out = self.name.clone();
        out.append("=");
        let enc = url_encode(self.value.as_str());
        out.append(enc.as_str());
        let tail = self.attr_tail();
        out.append(tail.as_str());
        proof {
            if self.value.is_ascii() {
                assert(out@ == spec_header_value(*self));
            }
        }
        out
    }

    /// Reads every name/value pair out of a `Cookie` header value.
    pub fn parse(cookie_string: &str) -> (r: Vec<Cookie>)
        ensures
            r@.len() == spec_parse_cookies(cookie_string@).len(),
            forall|i: int|
                0 <= i < r@.len() ==> is_plain_cookie(
                    #[trigger] r@[i],
                    spec_parse_cookies(cookie_string@)[i].0,
                    spec_parse_cookies(cookie_string@)[i].1,
                ),
    {
        let s = cookie_string;
        let n = s.unicode_len();
        let mut out: Vec<Cookie> = Vec::new();
        let mut pos: usize = 0;
        let ghost full = spec_parse_cookies(s@);
        proof {
            assert(s@.skip(0) =~= s@);
        }
        loop
            invariant_except_break
                pos <= n,
                n == s@.len(),
                full == spec_parse_cookies(s@),
                spec_parse_cookies(s@.skip(pos as int)).len() + out@.len() == full.len(),
                forall|i: int|
                    0 <= i < out@.len() ==> is_plain_cookie(
                        #[trigger] out@[i],
                        full[i].0,
                        full[i].1,
                    ),
                forall|i: int|
                    0 <= i < spec_parse_cookies(s@.skip(pos as int)).len() ==> full[out@.len()
                        + i] == spec_parse_cookies(s@.skip(pos as int))[i],
            ensures
                out@.len() == full.len(),
                forall|i: int|
                    0 <= i < out@.len() ==> is_plain_cookie(
                        #[trigger] out@[i],
                        full[i].0,
                        full[i].1,
                    ),
            decreases n - pos,
        {
            let ghost old_out = out@;
            let ghost tail = s@.skip(pos as int);
            let ghost parsed_here = spec_parse_cookies(tail);
            let seg_end = match find_char(s, ';', pos) {
                Some(j) => j,
                None => n,
            };
            let ghost segidx: int = if seg_end < n {
                seg_end - pos
            } else {
                tail.len() as int
            };
            proof {
                lemma_find_char_shift(s@, ';', pos as int);
                if seg_end < n {
                    assert(find_char_from(tail, ';', 0) == Some(segidx));
                } else {
                    assert(find_char_from(tail, ';', 0) is None);
                }
                assert(tail.take(segidx) =~= s@.subrange(pos as int, seg_end as int));
            }
            let raw = substring(s, pos, seg_end);
            let seg = trim_str(raw.as_str());
            let ghost piece: Seq<(Seq<char>, Seq<char>)> = (if seg@.len() == 0 {
                Seq::empty()
            } else {
                match find_char_from(seg@, '=', 0) {
                    Some(e) => seq![
                        (trim_chars(seg@.take(e)), trim_chars(seg@.skip(e + 1))),
                    ],
                    None => Seq::empty(),
                }
            });
            let ghost rest: Seq<(Seq<char>, Seq<char>)> = (if seg_end < n {
                spec_parse_cookies(s@.skip(seg_end + 1))
            } else {
                Seq::empty()
            });
            proof {
                if seg_end < n {
                    assert(tail.skip(segidx + 1) =~= s@.skip(seg_end + 1));
                }
                assert(seg@ == trim_chars(tail.take(segidx)));
                assert(parsed_here == piece + rest);
            }
            if seg.unicode_len() > 0 {
                match find_char(seg.as_str(), '=', 0) {
                    Some(e) => {
                        let rawname = substring(seg.as_str(), 0, e);
                        let name = trim_str(rawname.as_str());
                        let rawval = substring(seg.as_str(), e + 1, seg.unicode_len());
                        let value = trim_str(rawval.as_str());
                        proof {
                            assert(seg@.take(e as int) =~= rawname@);
                            assert(seg@.skip(e + 1) =~= rawval@);
                        }
                        out.push(Cookie::new(name.as_str(), value.as_str()));
                        proof {
                            assert(piece.len() == 1);
                            assert(parsed_here[0] == piece[0]);
                            assert(full[old_out.len() as int] == piece[0]);
                            assert(is_plain_cookie(
                                out@[old_out.len() as int],
                                full[old_out.len() as int].0,
                                full[old_out.len() as int].1,
                            ));
                        }
                    },
                    None => {},
                }
            }
            proof {
                assert(forall|i: int|
                    0 <= i < rest.len() ==> parsed_here[piece.len() + i] == rest[i]);
                assert(forall|i: int|
                    0 <= i < rest.len() ==> full[out@.len() + i] == rest[i]);
            }
            if seg_end >= n {
                proof {
                    assert(rest.len() == 0);
                    assert(out@.len() == full.len());
                }
                break;
            }
            pos = seg_end + 1;
        }
        out
    }

    /// The value that clears a cookie in the client.
    pub fn delete_cookie(name: &str) -> (r: String)
        ensures
            r@ == name@ + "=; Max-Age=0; Path=/"@,
    {
        let mut out = String::from_str(name);
        out.append("=; Max-Age=0; Path=/");
        out
    }

    /// The cookie's name.
    pub fn name(&self) -> (r: &str)
        ensures
            r@ == self.name@,
    {
        self.name.as_str()
    }

    /// The cookie's value.
    pub fn value(&self) -> (r: &str)
        ensures
            r@ == self.value@,
    {
        self.value.as_str()
    }

    /// Whether the cookie's own expiry point lies at or before `now`.
    /// A cookie without an expiry point never reports expired, a
    /// max age alone not being tied to a creation time.
    pub fn is_expired(&self, now: u64) -> (r: bool)
        ensures
            r == (match self.expires {
                Some(t) => now >= t,
                None => false,
            }),
    {
        match &self.expires {
            Some(t) => now >= *t,
            None => false,
        }
    }
}

/// Shifting the start of a character search equals searching a suffix.
pub proof fn lemma_find_char_shift(s: Seq<char>, c: char, pos: int)
    requires
        0 <= pos <= s.len(),
    ensures
        match find_char_from(s, c, pos) {
            Some(j) => find_char_from(s.skip(pos), c, 0) == Some(j - pos),
            None => find_char_from(s.skip(pos), c, 0) is None,
        },
{
    lemma_find_char_from(s, c, pos);
    lemma_find_char_from(s.skip(pos), c, 0);
    assert(forall|i: int| 0 <= i < s.len() - pos ==> s.skip(pos)[i] == s[pos + i]);
    match find_char_from(s, c, pos) {
        Some(j) => {
            match find_char_from(s.skip(pos), c, 0) {
                Some(k) => {
                    assert(s.skip(pos)[j - pos] == c);
                    if k < j - pos {
                        assert(s[pos + k] == c);
                    }
                    assert(k == j - pos);
                },
                None => {
                    assert(s.skip(pos)[j - pos] == c);
                },
            }
        },
        None => {
            match find_char_from(s.skip(pos), c, 0) {
                Some(k) => {
                    assert(s[pos + k] == c);
                },
                None => {},
            }
        },
    }
}

/// The first value under `name` among parsed pairs.
pub open spec fn first_with_name(pairs: Seq<(Seq<char>, Seq<char>)>, name: Seq<char>) -> Option<
    Seq<char>,
>
    decreases pairs.len(),
{
    if pairs.len() == 0 {
        None
    } else if pairs[0].0 == name {
        Some(pairs[0].1)
    } else {
        first_with_name(pairs.skip(1), name)
    }
}

/// The session id that a `Cookie` header value carries, if any.
pub open spec fn session_id_of_header(h: Seq<char>) -> Option<Seq<char>> {
    first_with_name(spec_parse_cookies(h), "session_id"@)
}

pub open spec fn spec_session_id(cookie_header: Option<&str>) -> Option<Seq<char>> {
    match cookie_header {
        Some(h) => session_id_of_header(h@),
        None => None,
    }
}

/// The `session_id` value carried in a `Cookie` header, if any.
pub fn extract_session_id(cookie_header: Option<&str>) -> (r: Option<String>)
    ensures
        (r is Some) == (spec_session_id(cookie_header) is Some),
        r matches Some(v) ==> spec_session_id(cookie_header) == Some(v@),
{
    match cookie_header {
        Some(h) => {
            let cookies = Cookie::parse(h);
            let ghost pairs = spec_parse_cookies(h@);
            let mut i: usize = 0;
            while i < cookies.len()
                invariant
                    cookie_header == Some(h),
                    pairs == spec_parse_cookies(h@),
                    0 <= i <= cookies@.len(),
                    cookies@.len() == pairs.len(),
                    forall|m: int|
                        0 <= m < cookies@.len() ==> is_plain_cookie(
                            #[trigger] cookies@[m],
                            pairs[m].0,
                            pairs[m].1,
                        ),
                    forall|m: int| 0 <= m < i ==> pairs[m].0 != "session_id"@,
                decreases cookies@.len() - i,
            {
                if str_eq(cookies[i].name(), "session_id") {
                    let v = String::from_str(cookies[i].value());
                    proof {
                        assert(pairs[i as int].0 == "session_id"@);
                        lemma_first_with_name(pairs, "session_id"@, i as int);
                        assert(spec_session_id(cookie_header) == Some(v@));
                    }
                    return Some(v);
                }
                i = i + 1;
            }
            proof {
                lemma_first_with_name_none(pairs, "session_id"@);
            }
            None
        },
        None => None,
    }
}

/// If the pairs before `i` miss the name and pair `i` holds it, the
/// first value under the name is pair `i`'s.
pub proof fn lemma_first_with_name(pairs: Seq<(Seq<char>, Seq<char>)>, name: Seq<char>, i: int)
    requires
        0 <= i < pairs.len(),
        pairs[i].0 == name,
        forall|m: int| 0 <= m < i ==> pairs[m].0 != name,
    ensures
        first_with_name(pairs, name) == Some(pairs[i].1),
    decreases i,
{
    if i > 0 {
        assert(forall|m: int| 0 <= m < pairs.skip(1).len() ==> pairs.skip(1)[m] == pairs[m + 1]);
        lemma_first_with_name(pairs.skip(1), name, i - 1);
    }
}

/// If no pair holds the name, there is no first value under it.
pub proof fn lemma_first_with_name_none(pairs: Seq<(Seq<char>, Seq<char>)>, name: Seq<char>)
    requires
        forall|m: int| 0 <= m < pairs.len() ==> pairs[m].0 != name,
    ensures
        first_with_name(pairs, name) is None,
    decreases pairs.len(),
{
    if pairs.len() > 0 {
        assert(forall|m: int| 0 <= m < pairs.skip(1).len() ==> pairs.skip(1)[m] == pairs[m + 1]);
        lemma_first_with_name_none(pairs.skip(1), name);
    }
}

/// A url-safe character is none of the separators that the cookie
/// grammar splits on, and no blank.
proof fn lemma_safe_char_plain(c: char)
    requires
        url_safe_char(c),
    ensures
        c != ';' && c != '=' && c != ' ' && c != '\t',
{
}

/// The attribute tail, when any attribute is set, opens with `;`.
#[verifier::rlimit(100)]
#[verifier::spinoff_prover]
proof fn lemma_attr_tail_opens(c: Cookie)
    ensures
        spec_attr_tail(c).len() > 0 ==> spec_attr_tail(c)[0] == ';',
{
    reveal_strlit("; Path=");
    reveal_strlit("; Domain=");
    reveal_strlit("; Max-Age=");
    reveal_strlit("; Expires=");
    reveal_strlit("; Secure");
    reveal_strlit("; HttpOnly");
    reveal_strlit("; SameSite=Strict");
    reveal_strlit("; SameSite=Lax");
    reveal_strlit("; SameSite=None");
    let t = spec_attr_tail(c);
    if t.len() > 0 {
        if c.path is Some {
            assert(t[0] == ("; Path="@ + c.path->Some_0@)[0]);
        } else if c.domain is Some {
            assert(t[0] == ("; Domain="@ + c.domain->Some_0@)[0]);
        } else if c.max_age is Some {
            assert(t[0] == ("; Max-Age="@ + crate::strutil::dec_chars(
                c.max_age->Some_0 as nat,
            ))[0]);
        } else if c.expires is Some {
            assert(t[0] == ("; Expires="@ + http_date_of(c.expires->Some_0))[0]);
        } else if c.secure {
            assert(t[0] == "; Secure"@[0]);
        } else if c.http_only {
            assert(t[0] == "; HttpOnly"@[0]);
        } else {
            match c.same_site {
                Some(SameSite::Strict) => {
                    assert(t[0] == "; SameSite=Strict"@[0]);
                },
                Some(SameSite::Lax) => {
                    assert(t[0] == "; SameSite=Lax"@[0]);
                },
                Some(SameSite::NoneValue) => {
                    assert(t[0] == "; SameSite=None"@[0]);
                },
                None => {
                    assert(t.len() == 0);
                },
            }
        }
    }
}

/// Cookie round trip: parsing the header value a built cookie writes
/// gives back its own name and value first, as long as name and
/// value hold only url-safe characters and the name is not empty.
#[verifier::rlimit(100)]
#[verifier::spinoff_prover]
pub proof fn lemma_cookie_round_trip(c: Cookie)
    requires
        c.name@.len() > 0,
        forall|i: int| 0 <= i < c.name@.len() ==> url_safe_char(#[trigger] c.name@[i]),
        forall|i: int| 0 <= i < c.value@.len() ==> url_safe_char(#[trigger] c.value@[i]),
    ensures
        spec_parse_cookies(spec_header_value(c)).len() > 0,
        spec_parse_cookies(spec_header_value(c))[0].0 == c.name@,
        spec_parse_cookies(spec_header_value(c))[0].1 == c.value@,
{
    reveal_strlit("=");
    let n = c.name@.len() as int;
    let v = c.value@.len() as int;
    lemma_url_encode_safe_identity(c.value@);
    let tail = spec_attr_tail(c);
    let s = spec_header_value(c);
    assert(s =~= c.name@ + "="@ + c.value@ + tail);
    let pair_len = n + 1 + v;
    assert(forall|m: int| 0 <= m < n ==> #[trigger] s[m] == c.name@[m]);
    assert(s[n] == '=');
    assert(forall|m: int| n + 1 <= m < pair_len ==> #[trigger] s[m] == c.value@[m - n - 1]);
    assert(forall|m: int| 0 <= m < pair_len ==> #[trigger] s[m] != ';' && s[m] != ' ' && s[m]
        != '\t') by {
        assert forall|m: int| 0 <= m < pair_len implies #[trigger] s[m] != ';' && s[m] != ' '
            && s[m] != '\t' by {
            if m < n {
                lemma_safe_char_plain(c.name@[m]);
            } else if m == n {
            } else {
                lemma_safe_char_plain(c.value@[m - n - 1]);
            }
        }
    }
    lemma_attr_tail_opens(c);
    crate::strutil::lemma_find_char_from(s, ';', 0);
    let seg_end = (match crate::strutil::find_char_from(s, ';', 0) {
        Some(j) => j,
        None => s.len() as int,
    });
    if tail.len() > 0 {
        assert(s[pair_len] == tail[0]);
        assert(s[pair_len] == ';');
        assert(crate::strutil::find_char_from(s, ';', 0) == Some(pair_len)) by {
            match crate::strutil::find_char_from(s, ';', 0) {
                Some(j) => {
                    if j < pair_len {
                        assert(s[j] == ';');
                    }
                    if j > pair_len {
                        assert(false);
                    }
                },
                None => {
                    assert(s[pair_len] != ';');
                },
            }
        }
    } else {
        assert(s.len() == pair_len);
        assert(crate::strutil::find_char_from(s, ';', 0) is None) by {
            match crate::strutil::find_char_from(s, ';', 0) {
                Some(j) => {
                    assert(s[j] == ';');
                },
                None => {},
            }
        }
    }
    assert(seg_end == pair_len);
    let raw_seg = s.take(seg_end);
    assert(raw_seg =~= c.name@ + "="@ + c.value@);
    lemma_trim_plain(raw_seg);
    let seg = crate::strutil::trim_chars(raw_seg);
    assert(seg == raw_seg);
    assert(seg.len() == pair_len > 0);
    crate::strutil::lemma_find_char_from(seg, '=', 0);
    assert(seg[n] == '=');
    assert(forall|m: int| 0 <= m < n ==> #[trigger] seg[m] != '=') by {
        assert forall|m: int| 0 <= m < n implies #[trigger] seg[m] != '=' by {
            lemma_safe_char_plain(c.name@[m]);
        }
    }
    assert(crate::strutil::find_char_from(seg, '=', 0) == Some(n)) by {
        match crate::strutil::find_char_from(seg, '=', 0) {
            Some(e) => {
                if e < n {
                    assert(seg[e] == '=');
                }
                if e > n {
                    assert(false);
                }
            },
            None => {
                assert(seg[n] != '=');
            },
        }
    }
    assert(seg.take(n) =~= c.name@);
    assert(seg.skip(n + 1) =~= c.value@);
    lemma_trim_plain(c.name@);
    lemma_trim_plain(c.value@);
    let parsed = spec_parse_cookies(s);
    assert(parsed[0] == (c.name@, c.value@));
}

/// A sequence of url-safe characters is already trimmed.
proof fn lemma_trim_plain(x: Seq<char>)
    requires
        forall|i: int|
            0 <= i < x.len() ==> #[trigger] x[i] != ' ' && x[i] != '\t',
    ensures
        crate::strutil::trim_chars(x) == x,
{
    if x.len() == 0 {
        assert(crate::strutil::trim_start_chars(x) == x);
        assert(crate::strutil::trim_end_chars(x) == x);
    } else {
        assert(!crate::strutil::is_blank_char(x[0]));
        assert(crate::strutil::trim_start_chars(x) == x);
        assert(!crate::strutil::is_blank_char(x[x.len() - 1]));
        assert(crate::strutil::trim_end_chars(x) == x);
    }
}

/// Percent-encoded output is always ASCII, whatever went in.
pub proof fn lemma_url_encode_chars_ascii(s: Seq<char>)
    ensures
        vstd::utf8::is_ascii_chars(url_encode_chars(s)),
    decreases s.len(),
{
    if s.len() > 0 {
        lemma_url_encode_chars_ascii(s.skip(1));
        assert(vstd::utf8::is_ascii_chars(url_encode_char(s[0]))) by {
            let c = s[0];
            if url_safe_char(c) {
                assert(url_encode_char(c) =~= seq![c]);
            }
        }
        assert(forall|i: int|
            0 <= i < url_encode_chars(s).len() ==> '\u{0}' <= #[trigger] url_encode_chars(
                s,
            )[i] <= '\u{7f}') by {
            let h = url_encode_char(s[0]);
            let t = url_encode_chars(s.skip(1));
            assert(forall|i: int|
                0 <= i < h.len() + t.len() ==> (h + t)[i] == (if i < h.len() {
                    h[i]
                } else {
                    t[i - h.len()]
                }));
        }
    }
}

/// The decimal characters of a number are ASCII.
pub proof fn lemma_dec_chars_ascii(n: nat)
    ensures
        vstd::utf8::is_ascii_chars(dec_chars(n)),
{
    crate::strutil::lemma_dec_digits_value(n);
    assert(forall|i: int|
        0 <= i < dec_chars(n).len() ==> '\u{0}' <= #[trigger] dec_chars(n)[i] <= '\u{7f}')
        by {
        assert(forall|i: int|
            0 <= i < crate::strutil::dec_digits(n).len()
                ==> #[trigger] dec_chars(n)[i] == crate::strutil::dec_digits(n)[i] as char);
    }
}

/// Joining ASCII pieces keeps the text ASCII.
pub proof fn lemma_ascii_concat(a: Seq<char>, b: Seq<char>)
    requires
        vstd::utf8::is_ascii_chars(a),
        vstd::utf8::is_ascii_chars(b),
    ensures
        vstd::utf8::is_ascii_chars(a + b),
{
    assert(forall|i: int|
        0 <= i < a.len() + b.len() ==> (a + b)[i] == (if i < a.len() {
            a[i]
        } else {
            b[i - a.len()]
        }));
}

} // verus!
