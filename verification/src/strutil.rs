//! Character-level helpers: ASCII byte/char conversion, decimal
//! rendering, case folding, searching and prefix tests on strings.

use vstd::prelude::*;
use crate::bytes::{all_ascii, chars_of, all_digits, dec_value};

verus! {

/// Relies on `String::from_utf8_lossy`: ASCII bytes are valid UTF-8 and
/// decode to one character per byte, each the byte's own code point,
/// so the result is ASCII too.
#[verifier::external_body]
pub(crate) fn ascii_string_of(v: &[u8]) -> (r: String)
    requires
        all_ascii(v@),
    ensures
        r@ == chars_of(v@),
        r.is_ascii(),
{
    String::from_utf8_lossy(v).into_owned()
}

/// True exactly when the two strings spell the same characters.
pub fn str_eq(a: &str, b: &str) -> (r: bool)
    ensures
        r == (a@ == b@),
{
    let sa = String::from_str(a);
    let sb = String::from_str(b);
    sa == sb
}

/// The decimal digit bytes that spell `n`, most significant first.
pub open spec fn dec_digits(n: nat) -> Seq<u8>
    decreases n,
{
    if n < 10 {
        seq![(48 + n) as u8]
    } else {
        dec_digits(n / 10).push((48 + n % 10) as u8)
    }
}

/// The decimal characters that spell `n`.
pub open spec fn dec_chars(n: nat) -> Seq<char> {
    chars_of(dec_digits(n))
}

/// `n` written in decimal, as bytes.
pub fn u64_to_dec_bytes(n: u64) -> (r: Vec<u8>)
    ensures
        r@ == dec_digits(n as nat),
        all_digits(r@),
        all_ascii(r@),
    decreases n,
{
    if n < 10 {
        let mut v: Vec<u8> = Vec::new();
        v.push(48 + n as u8);
        assert(v@ =~= dec_digits(n as nat));
        v
    } else {
        let mut v = u64_to_dec_bytes(n / 10);
        v.push(48 + (n % 10) as u8);
        assert(v@ =~= dec_digits(n as nat));
        v
    }
}

/// `n` written in decimal, as a string.
pub fn u64_to_string(n: u64) -> (r: String)
    ensures
        r@ == dec_chars(n as nat),
{
    let v = u64_to_dec_bytes(n);
    ascii_string_of(v.as_slice())
}

/// The digits of `n` spell `n` back.
pub proof fn lemma_dec_digits_value(n: nat)
    ensures
        all_digits(dec_digits(n)),
        dec_value(dec_digits(n)) == n,
    decreases n,
{
    if n < 10 {
        let s = dec_digits(n);
        assert(s.take(s.len() - 1) =~= Seq::<u8>::empty());
        assert(dec_value(Seq::<u8>::empty()) == 0);
        assert(dec_value(s) == dec_value(s.take(s.len() - 1)) * 10 + (s[s.len() - 1]
            - 48) as nat);
        assert(s[0] == (48 + n) as u8);
    } else {
        lemma_dec_digits_value(n / 10);
        let s = dec_digits(n);
        assert(s.take(s.len() - 1) =~= dec_digits(n / 10));
    }
}

/// Index of the first occurrence of `c` in `s` at or after `from`.
pub open spec fn find_char_from(s: Seq<char>, c: char, from: int) -> Option<int>
    decreases s.len() - from,
{
    if from < 0 || from >= s.len() {
        None
    } else if s[from] == c {
        Some(from)
    } else {
        find_char_from(s, c, from + 1)
    }
}

/// What `find_char_from` returns, said without recursion.
pub proof fn lemma_find_char_from(s: Seq<char>, c: char, from: int)
    requires
        0 <= from <= s.len(),
    ensures
        match find_char_from(s, c, from) {
            Some(j) => from <= j < s.len() && s[j] == c && (forall|m: int|
                from <= m < j ==> s[m] != c),
            None => forall|m: int| from <= m < s.len() ==> s[m] != c,
        },
    decreases s.len() - from,
{
    if from < s.len() && s[from] != c {
        lemma_find_char_from(s, c, from + 1);
    }
}

/// First occurrence of `c` in `s` at or after `from`.
pub fn find_char(s: &str, c: char, from: usize) -> (r: Option<usize>)
    requires
        from <= s@.len(),
    ensures
        match r {
            Some(j) => find_char_from(s@, c, from as int) == Some(j as int) && from <= j
                < s@.len(),
            None => find_char_from(s@, c, from as int) is None,
        },
{
    let n = s.unicode_len();
    let mut i: usize = from;
    while i < n
        invariant
            from <= i <= n == s@.len(),
            find_char_from(s@, c, from as int) == find_char_from(s@, c, i as int),
        decreases n - i,
    {
        if s.get_char(i) == c {
            return Some(i);
        }
        i = i + 1;
    }
    None
}

/// True when `p` spells a prefix of `s`.
pub fn starts_with_str(s: &str, p: &str) -> (r: bool)
    ensures
        r == p@.is_prefix_of(s@),
{
    let np = p.unicode_len();
    let ns = s.unicode_len();
    if np > ns {
        return false;
    }
    let mut i: usize = 0;
    while i < np
        invariant
            0 <= i <= np == p@.len(),
            np <= ns == s@.len(),
            forall|m: int| 0 <= m < i ==> s@[m] == p@[m],
        decreases np - i,
    {
        if s.get_char(i) != p.get_char(i) {
            assert(!p@.is_prefix_of(s@)) by {
                assert(s@.take(p@.len() as int)[i as int] == s@[i as int]);
            }
            return false;
        }
        i = i + 1;
    }
    assert(s@.take(p@.len() as int) =~= p@);
    true
}

/// True when `p` spells a suffix of `s`.
pub fn ends_with_str(s: &str, p: &str) -> (r: bool)
    ensures
        r == p@.is_suffix_of(s@),
{
    let np = p.unicode_len();
    let ns = s.unicode_len();
    if np > ns {
        return false;
    }
    let off = ns - np;
    let mut i: usize = 0;
    while i < np
        invariant
            0 <= i <= np == p@.len(),
            np <= ns == s@.len(),
            off == ns - np,
            forall|m: int| 0 <= m < i ==> s@[off + m] == p@[m],
        decreases np - i,
    {
        if s.get_char(off + i) != p.get_char(i) {
            assert(!p@.is_suffix_of(s@)) by {
                assert(s@.skip(off as int)[i as int] == s@[off + i]);
            }
            return false;
        }
        i = i + 1;
    }
    assert(s@.skip(off as int) =~= p@);
    true
}

/// ASCII letters folded to lower case, character by character.
pub open spec fn lower_char(c: char) -> char {
    if 'A' <= c && c <= 'Z' {
        ((c as u8) + 32) as char
    } else {
        c
    }
}

pub open spec fn lower_chars(s: Seq<char>) -> Seq<char> {
    s.map_values(|c: char| lower_char(c))
}

/// `s` with every ASCII upper-case letter folded to lower case.
pub fn string_lower(s: &str) -> (r: String)
    requires
        s.is_ascii(),
    ensures
        r@ == lower_chars(s@),
{
    proof {
        vstd::string::is_ascii_spec_bytes(s);
    }
    let bs = s.as_bytes_vec();
    let low = crate::bytes::lower_bytes(bs.as_slice());
    assert(all_ascii(low@)) by {
        assert(forall|i: int|
            0 <= i < low@.len() ==> low@[i] == crate::bytes::lower_byte(bs@[i]));
    }
    let r = ascii_string_of(low.as_slice());
    assert(r@ =~= lower_chars(s@)) by {
        assert(forall|i: int| 0 <= i < s@.len() ==> #[trigger] bs@[i] == s@[i] as u8);
        assert(forall|i: int|
            0 <= i < s@.len() ==> #[trigger] r@[i] == crate::bytes::lower_byte(
                s@[i] as u8,
            ) as char);
        assert(forall|i: int| 0 <= i < s@.len() ==> #[trigger] r@[i] == lower_char(s@[i]));
    }
    r
}

/// The characters of `s` from `from` (inclusive) to `to` (exclusive).
pub fn substring(s: &str, from: usize, to: usize) -> (r: String)
    requires
        from <= to <= s@.len(),
    ensures
        r@ == s@.subrange(from as int, to as int),
{
    let sub = s.substring_char(from, to);
    String::from_str(sub)
}

/// The characters of `s` with leading and trailing blanks removed,
/// as a start index and an end index into `s`.
pub open spec fn is_blank_char(c: char) -> bool {
    c == ' ' || c == '\t'
}

pub open spec fn trim_start_chars(s: Seq<char>) -> Seq<char>
    decreases s.len(),
{
    if s.len() == 0 {
        s
    } else if is_blank_char(s[0]) {
        trim_start_chars(s.skip(1))
    } else {
        s
    }
}

pub open spec fn trim_end_chars(s: Seq<char>) -> Seq<char>
    decreases s.len(),
{
    if s.len() == 0 {
        s
    } else if is_blank_char(s[s.len() - 1]) {
        trim_end_chars(s.take(s.len() - 1))
    } else {
        s
    }
}

pub open spec fn trim_chars(s: Seq<char>) -> Seq<char> {
    trim_end_chars(trim_start_chars(s))
}

/// `s` with leading and trailing spaces and tabs removed.
pub fn trim_str(s: &str) -> (r: String)
    ensures
        r@ == trim_chars(s@),
{
    let n = s.unicode_len();
    let mut lo: usize = 0;
    assert(s@.subrange(0, s@.len() as int) =~= s@);
    while lo < n && (s.get_char(lo) == ' ' || s.get_char(lo) == '\t')
        invariant
            0 <= lo <= n == s@.len(),
            trim_start_chars(s@) == trim_start_chars(s@.subrange(lo as int, s@.len() as int)),
        decreases n - lo,
    {
        assert(s@.subrange(lo as int, s@.len() as int).skip(1) =~= s@.subrange(
            lo + 1,
            s@.len() as int,
        ));
        lo = lo + 1;
    }
    proof {
        if lo < s@.len() {
            assert(trim_start_chars(s@.subrange(lo as int, s@.len() as int)) == s@.subrange(
                lo as int,
                s@.len() as int,
            ));
        } else {
            assert(s@.subrange(lo as int, s@.len() as int).len() == 0);
        }
        assert(trim_start_chars(s@) == s@.subrange(lo as int, s@.len() as int));
    }
    let mut hi: usize = n;
    while lo < hi && (s.get_char(hi - 1) == ' ' || s.get_char(hi - 1) == '\t')
        invariant
            0 <= lo <= hi <= s@.len(),
            trim_start_chars(s@) == s@.subrange(lo as int, s@.len() as int),
            trim_end_chars(s@.subrange(lo as int, s@.len() as int)) == trim_end_chars(
                s@.subrange(lo as int, hi as int),
            ),
        decreases hi - lo,
    {
        assert(s@.subrange(lo as int, hi as int).take(hi - lo - 1) =~= s@.subrange(
            lo as int,
            hi - 1,
        ));
        hi = hi - 1;
    }
    proof {
        if lo < hi {
            assert(trim_end_chars(s@.subrange(lo as int, hi as int)) == s@.subrange(
                lo as int,
                hi as int,
            ));
        } else {
            assert(s@.subrange(lo as int, hi as int).len() == 0);
        }
    }
    substring(s, lo, hi)
}

/// ASCII letters folded to upper case, character by character.
pub open spec fn upper_char(c: char) -> char {
    if 'a' <= c && c <= 'z' {
        ((c as u8) - 32) as char
    } else {
        c
    }
}

pub open spec fn upper_chars(s: Seq<char>) -> Seq<char> {
    s.map_values(|c: char| upper_char(c))
}

/// `s` with every ASCII lower-case letter folded to upper case.
pub fn string_upper(s: &str) -> (r: String)
    requires
        s.is_ascii(),
    ensures
        r@ == upper_chars(s@),
{
    proof {
        vstd::string::is_ascii_spec_bytes(s);
    }
    let bs = s.as_bytes_vec();
    let up = crate::bytes::upper_bytes(bs.as_slice());
    assert(all_ascii(up@)) by {
        assert(forall|i: int|
            0 <= i < up@.len() ==> up@[i] == crate::bytes::upper_byte(bs@[i]));
    }
    let r = ascii_string_of(up.as_slice());
    assert(r@ =~= upper_chars(s@)) by {
        assert(forall|i: int| 0 <= i < s@.len() ==> #[trigger] bs@[i] == s@[i] as u8);
        assert(forall|i: int|
            0 <= i < s@.len() ==> #[trigger] r@[i] == crate::bytes::upper_byte(
                s@[i] as u8,
            ) as char);
        assert(forall|i: int| 0 <= i < s@.len() ==> #[trigger] r@[i] == upper_char(s@[i]));
    }
    r
}

/// Folding case changes nothing in a byte string that holds no
/// ASCII upper-case letter.
pub proof fn lemma_lower_chars_no_upper(bs: Seq<u8>)
    requires
        all_ascii(bs),
        forall|i: int| 0 <= i < bs.len() ==> !(65 <= bs[i] && bs[i] <= 90),
    ensures
        lower_chars(chars_of(bs)) == chars_of(bs),
{
    assert(forall|i: int|
        0 <= i < bs.len() ==> lower_char(#[trigger] chars_of(bs)[i]) == chars_of(bs)[i]);
    assert(lower_chars(chars_of(bs)) =~= chars_of(bs));
}

/// Reads a decimal number out of a string: the number its digits
/// spell, or zero when the string is empty, non-ASCII, not all
/// digits, or too large.
pub fn parse_u64_str(s: &str) -> (r: u64)
    ensures
        vstd::utf8::is_ascii_chars(s@) && all_digits(byte_digits_of(s@)) && dec_value(
            byte_digits_of(s@),
        ) <= usize::MAX ==> r == dec_value(byte_digits_of(s@)),
{
    if !s.is_ascii() {
        return 0;
    }
    proof {
        vstd::string::is_ascii_spec_bytes(s);
    }
    let bs = s.as_bytes_vec();
    proof {
        assert(bs@ =~= byte_digits_of(s@));
    }
    if !crate::bytes::check_all_digits(bs.as_slice()) {
        return 0;
    }
    match crate::bytes::parse_decimal(bs.as_slice(), usize::MAX) {
        Some(n) => n as u64,
        None => 0,
    }
}

/// The code points of a character sequence as bytes; meaningful for
/// ASCII text.
pub open spec fn byte_digits_of(s: Seq<char>) -> Seq<u8> {
    s.map_values(|c: char| c as u8)
}

} // verus!
