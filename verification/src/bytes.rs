//! Byte-level building blocks shared by the request parser and the
//! multipart extractor: searching for a byte or a CRLF pair, ASCII
//! classification, and the conversion from ASCII bytes to characters.

use vstd::prelude::*;

verus! {

pub const CR: u8 = 13;
pub const LF: u8 = 10;
pub const SP: u8 = 32;
pub const HTAB: u8 = 9;
pub const COLON: u8 = 58;
pub const QMARK: u8 = 63;
pub const AMP: u8 = 38;
pub const EQ: u8 = 61;

/// The characters that a sequence of ASCII bytes spells.
pub open spec fn chars_of(bs: Seq<u8>) -> Seq<char> {
    bs.map_values(|b: u8| b as char)
}

pub open spec fn all_ascii(bs: Seq<u8>) -> bool {
    forall|i: int| 0 <= i < bs.len() ==> bs[i] < 128
}

/// Index of the first occurrence of `b` in `s` at or after `from`.
pub open spec fn find_byte_from(s: Seq<u8>, b: u8, from: int) -> Option<int>
    decreases s.len() - from,
{
    if from < 0 || from >= s.len() {
        None
    } else if s[from] == b {
        Some(from)
    } else {
        find_byte_from(s, b, from + 1)
    }
}

/// What `find_byte_from` returns, said without recursion.
pub proof fn lemma_find_byte_from(s: Seq<u8>, b: u8, from: int)
    requires
        0 <= from <= s.len(),
    ensures
        match find_byte_from(s, b, from) {
            Some(j) => from <= j < s.len() && s[j] == b && (forall|m: int|
                from <= m < j ==> s[m] != b),
            None => forall|m: int| from <= m < s.len() ==> s[m] != b,
        },
    decreases s.len() - from,
{
    if from < s.len() && s[from] != b {
        lemma_find_byte_from(s, b, from + 1);
    }
}

/// Index of the first CRLF pair in `s` at or after `from`.
pub open spec fn find_crlf_from(s: Seq<u8>, from: int) -> Option<int>
    decreases s.len() - from,
{
    if from < 0 || from + 1 >= s.len() {
        None
    } else if s[from] == CR && s[from + 1] == LF {
        Some(from)
    } else {
        find_crlf_from(s, from + 1)
    }
}

pub open spec fn is_crlf_at(s: Seq<u8>, i: int) -> bool {
    0 <= i && i + 1 < s.len() && s[i] == CR && s[i + 1] == LF
}

/// What `find_crlf_from` returns, said without recursion.
pub proof fn lemma_find_crlf_from(s: Seq<u8>, from: int)
    requires
        0 <= from,
    ensures
        match find_crlf_from(s, from) {
            Some(j) => from <= j && is_crlf_at(s, j) && (forall|m: int|
                from <= m < j ==> !is_crlf_at(s, m)),
            None => forall|m: int| from <= m ==> !is_crlf_at(s, m),
        },
    decreases s.len() - from,
{
    if from + 1 < s.len() && !(s[from] == CR && s[from + 1] == LF) {
        lemma_find_crlf_from(s, from + 1);
    }
}

/// A CRLF search in a prefix agrees with the search in the whole,
/// as long as the found pair lies inside the prefix.
pub proof fn lemma_find_crlf_prefix(p: Seq<u8>, u: Seq<u8>, from: int)
    requires
        0 <= from <= p.len() <= u.len(),
        p == u.take(p.len() as int),
    ensures
        match find_crlf_from(u, from) {
            Some(j) => if j + 2 <= p.len() {
                find_crlf_from(p, from) == Some(j)
            } else {
                find_crlf_from(p, from) is None
            },
            None => find_crlf_from(p, from) is None,
        },
{
    lemma_find_crlf_from(p, from);
    lemma_find_crlf_from(u, from);
    assert(forall|i: int| 0 <= i < p.len() ==> p[i] == u[i]);
    match find_crlf_from(p, from) {
        Some(k) => {
            assert(is_crlf_at(u, k));
            match find_crlf_from(u, from) {
                Some(j) => {
                    if j < k {
                        assert(is_crlf_at(p, j));
                    }
                    assert(j == k);
                },
                None => {
                    assert(!is_crlf_at(u, k));
                },
            }
        },
        None => {
            match find_crlf_from(u, from) {
                Some(j) => {
                    if j + 2 <= p.len() {
                        assert(is_crlf_at(p, j));
                    }
                },
                None => {},
            }
        },
    }
}

/// First occurrence of `b` in `v` at or after `from`.
pub fn find_byte(v: &[u8], b: u8, from: usize) -> (r: Option<usize>)
    requires
        from <= v@.len(),
    ensures
        match r {
            Some(j) => find_byte_from(v@, b, from as int) == Some(j as int) && from <= j
                < v@.len(),
            None => find_byte_from(v@, b, from as int) is None,
        },
{
    let mut i: usize = from;
    while i < v.len()
        invariant
            from <= i <= v@.len(),
            find_byte_from(v@, b, from as int) == find_byte_from(v@, b, i as int),
        decreases v@.len() - i,
    {
        if v[i] == b {
            return Some(i);
        }
        i = i + 1;
    }
    None
}

/// First CRLF pair in `v` at or after `from`.
pub fn find_crlf(v: &[u8], from: usize) -> (r: Option<usize>)
    requires
        from <= v@.len(),
    ensures
        match r {
            Some(j) => find_crlf_from(v@, from as int) == Some(j as int) && from <= j && j + 2
                <= v@.len(),
            None => find_crlf_from(v@, from as int) is None,
        },
{
    if v.len() < 2 {
        return None;
    }
    let mut i: usize = from;
    while i < v.len() - 1
        invariant
            from <= i,
            i <= v@.len(),
            v@.len() >= 2,
            find_crlf_from(v@, from as int) == find_crlf_from(v@, i as int),
        decreases v@.len() - i,
    {
        if v[i] == CR && v[i + 1] == LF {
            return Some(i);
        }
        i = i + 1;
    }
    None
}

/// True when every byte of `v` is ASCII.
pub fn check_all_ascii(v: &[u8]) -> (r: bool)
    ensures
        r == all_ascii(v@),
{
    let mut i: usize = 0;
    while i < v.len()
        invariant
            0 <= i <= v@.len(),
            forall|m: int| 0 <= m < i ==> v@[m] < 128,
        decreases v@.len() - i,
    {
        if v[i] >= 128 {
            return false;
        }
        i = i + 1;
    }
    true
}

/// The bytes of `v` from `from` (inclusive) to `to` (exclusive), owned.
pub fn copy_range(v: &[u8], from: usize, to: usize) -> (r: Vec<u8>)
    requires
        from <= to <= v@.len(),
    ensures
        r@ == v@.subrange(from as int, to as int),
{
    let mut out: Vec<u8> = Vec::new();
    let mut i: usize = from;
    while i < to
        invariant
            from <= i <= to <= v@.len(),
            out@ == v@.subrange(from as int, i as int),
        decreases to - i,
    {
        out.push(v[i]);
        assert(out@ =~= v@.subrange(from as int, i + 1 as int));
        i = i + 1;
    }
    out
}

pub open spec fn is_space_byte(b: u8) -> bool {
    b == SP || b == HTAB
}

/// `s` without its leading spaces and tabs.
pub open spec fn trim_start(s: Seq<u8>) -> Seq<u8>
    decreases s.len(),
{
    if s.len() == 0 {
        s
    } else if is_space_byte(s[0]) {
        trim_start(s.skip(1))
    } else {
        s
    }
}

/// `s` without its trailing spaces and tabs.
pub open spec fn trim_end(s: Seq<u8>) -> Seq<u8>
    decreases s.len(),
{
    if s.len() == 0 {
        s
    } else if is_space_byte(s[s.len() - 1]) {
        trim_end(s.take(s.len() - 1))
    } else {
        s
    }
}

/// `s` with leading and trailing spaces and tabs removed.
pub open spec fn spec_trim(s: Seq<u8>) -> Seq<u8> {
    trim_end(trim_start(s))
}

/// The bytes of `v` between the first and last non-blank byte.
pub fn trim_bytes(v: &[u8]) -> (r: Vec<u8>)
    ensures
        r@ == spec_trim(v@),
{
    let mut lo: usize = 0;
    assert(v@.subrange(0, v@.len() as int) =~= v@);
    while lo < v.len() && (v[lo] == SP || v[lo] == HTAB)
        invariant
            0 <= lo <= v@.len(),
            trim_start(v@) == trim_start(v@.subrange(lo as int, v@.len() as int)),
        decreases v@.len() - lo,
    {
        assert(v@.subrange(lo as int, v@.len() as int).skip(1) =~= v@.subrange(
            lo + 1,
            v@.len() as int,
        ));
        lo = lo + 1;
    }
    proof {
        if lo < v@.len() {
            assert(trim_start(v@.subrange(lo as int, v@.len() as int)) == v@.subrange(
                lo as int,
                v@.len() as int,
            ));
        } else {
            assert(v@.subrange(lo as int, v@.len() as int).len() == 0);
        }
        assert(trim_start(v@) == v@.subrange(lo as int, v@.len() as int));
    }
    let mut hi: usize = v.len();
    while lo < hi && (v[hi - 1] == SP || v[hi - 1] == HTAB)
        invariant
            0 <= lo <= hi <= v@.len(),
            trim_start(v@) == v@.subrange(lo as int, v@.len() as int),
            trim_end(v@.subrange(lo as int, v@.len() as int)) == trim_end(
                v@.subrange(lo as int, hi as int),
            ),
        decreases hi - lo,
    {
        assert(v@.subrange(lo as int, hi as int).take(hi - lo - 1) =~= v@.subrange(
            lo as int,
            hi - 1,
        ));
        hi = hi - 1;
    }
    let r = copy_range(v, lo, hi);
    proof {
        if lo < hi {
            assert(trim_end(v@.subrange(lo as int, hi as int)) == v@.subrange(
                lo as int,
                hi as int,
            ));
        } else {
            assert(v@.subrange(lo as int, hi as int).len() == 0);
        }
    }
    r
}

/// ASCII letters folded to lower case; other bytes unchanged.
pub open spec fn lower_byte(b: u8) -> u8 {
    if 65 <= b && b <= 90 {
        (b + 32) as u8
    } else {
        b
    }
}

pub open spec fn spec_lower(s: Seq<u8>) -> Seq<u8> {
    s.map_values(|b: u8| lower_byte(b))
}

/// `v` with every ASCII upper-case letter folded to lower case.
pub fn lower_bytes(v: &[u8]) -> (r: Vec<u8>)
    ensures
        r@ == spec_lower(v@),
{
    let mut out: Vec<u8> = Vec::new();
    let mut i: usize = 0;
    while i < v.len()
        invariant
            0 <= i <= v@.len(),
            out@ =~= spec_lower(v@).take(i as int),
        decreases v@.len() - i,
    {
        let b = v[i];
        if 65 <= b && b <= 90 {
            out.push(b + 32);
        } else {
            out.push(b);
        }
        assert(out@ =~= spec_lower(v@).take(i + 1 as int));
        i = i + 1;
    }
    assert(out@ =~= spec_lower(v@));
    out
}

/// ASCII letters folded to upper case; other bytes unchanged.
pub open spec fn upper_byte(b: u8) -> u8 {
    if 97 <= b && b <= 122 {
        (b - 32) as u8
    } else {
        b
    }
}

pub open spec fn spec_upper(s: Seq<u8>) -> Seq<u8> {
    s.map_values(|b: u8| upper_byte(b))
}

/// `v` with every ASCII lower-case letter folded to upper case.
pub fn upper_bytes(v: &[u8]) -> (r: Vec<u8>)
    ensures
        r@ == spec_upper(v@),
{
    let mut out: Vec<u8> = Vec::new();
    let mut i: usize = 0;
    while i < v.len()
        invariant
            0 <= i <= v@.len(),
            out@ =~= spec_upper(v@).take(i as int),
        decreases v@.len() - i,
    {
        let b = v[i];
        if 97 <= b && b <= 122 {
            out.push(b - 32);
        } else {
            out.push(b);
        }
        assert(out@ =~= spec_upper(v@).take(i + 1 as int));
        i = i + 1;
    }
    assert(out@ =~= spec_upper(v@));
    out
}

pub open spec fn is_digit_byte(b: u8) -> bool {
    48 <= b && b <= 57
}

pub open spec fn all_digits(s: Seq<u8>) -> bool {
    s.len() > 0 && forall|i: int| 0 <= i < s.len() ==> is_digit_byte(s[i])
}

/// The number that a sequence of decimal digit bytes spells.
pub open spec fn dec_value(s: Seq<u8>) -> nat
    decreases s.len(),
{
    if s.len() == 0 {
        0
    } else {
        dec_value(s.take(s.len() - 1)) * 10 + (s[s.len() - 1] - 48) as nat
    }
}

/// Reads a decimal number from digit bytes; `None` when a byte is no
/// digit, the sequence is empty, or the value would not fit `cap`.
pub fn parse_decimal(v: &[u8], cap: usize) -> (r: Option<usize>)
    ensures
        match r {
            Some(n) => all_digits(v@) && n == dec_value(v@) && n <= cap,
            None => !all_digits(v@) || dec_value(v@) > cap,
        },
{
    if v.len() == 0 {
        return None;
    }
    let mut acc: usize = 0;
    let mut i: usize = 0;
    while i < v.len()
        invariant
            0 <= i <= v@.len(),
            acc == dec_value(v@.take(i as int)),
            acc <= cap,
            forall|m: int| 0 <= m < i ==> is_digit_byte(v@[m]),
            cap <= usize::MAX,
        decreases v@.len() - i,
    {
        let b = v[i];
        if b < 48 || b > 57 {
            return None;
        }
        let d = (b - 48) as usize;
        proof {
            assert(v@.take(i + 1 as int).take(i as int) =~= v@.take(i as int));
            assert(v@.take(i + 1 as int)[i as int] == v@[i as int]);
        }
        if acc > cap / 10 || (acc == cap / 10 && d > cap % 10) {
            proof {
                if all_digits(v@) {
                    lemma_dec_value_monotone(v@, i + 1 as int);
                    assert(dec_value(v@.take(i + 1 as int)) == acc * 10 + d);
                }
            }
            return None;
        }
        acc = acc * 10 + d;
        i = i + 1;
    }
    proof {
        assert(v@.take(v@.len() as int) =~= v@);
    }
    Some(acc)
}

/// A longer digit prefix spells at least as large a number.
pub proof fn lemma_dec_value_monotone(s: Seq<u8>, k: int)
    requires
        0 <= k <= s.len(),
        forall|i: int| 0 <= i < s.len() ==> is_digit_byte(s[i]),
    ensures
        dec_value(s) >= dec_value(s.take(k)),
    decreases s.len() - k,
{
    if k < s.len() {
        lemma_dec_value_monotone(s, k + 1);
        let t = s.take(k + 1);
        assert(t.take(k) =~= s.take(k));
        assert(dec_value(t) == dec_value(s.take(k)) * 10 + (t[k] - 48) as nat);
    } else {
        assert(s.take(k) =~= s);
    }
}

pub open spec fn is_hex_byte(b: u8) -> bool {
    (48 <= b && b <= 57) || (97 <= b && b <= 102) || (65 <= b && b <= 70)
}

pub open spec fn hex_digit_value(b: u8) -> nat {
    if 48 <= b && b <= 57 {
        (b - 48) as nat
    } else if 97 <= b && b <= 102 {
        (b - 87) as nat
    } else if 65 <= b && b <= 70 {
        (b - 55) as nat
    } else {
        0
    }
}

pub open spec fn all_hex(s: Seq<u8>) -> bool {
    s.len() > 0 && forall|i: int| 0 <= i < s.len() ==> is_hex_byte(s[i])
}

/// The number that a sequence of hex digit bytes spells.
pub open spec fn hex_value(s: Seq<u8>) -> nat
    decreases s.len(),
{
    if s.len() == 0 {
        0
    } else {
        hex_value(s.take(s.len() - 1)) * 16 + hex_digit_value(s[s.len() - 1])
    }
}

/// A longer hex digit prefix spells at least as large a number.
pub proof fn lemma_hex_value_monotone(s: Seq<u8>, k: int)
    requires
        0 <= k <= s.len(),
    ensures
        hex_value(s) >= hex_value(s.take(k)),
    decreases s.len() - k,
{
    if k < s.len() {
        lemma_hex_value_monotone(s, k + 1);
        let t = s.take(k + 1);
        assert(t.take(k) =~= s.take(k));
        assert(hex_value(t) == hex_value(s.take(k)) * 16 + hex_digit_value(t[k]));
    } else {
        assert(s.take(k) =~= s);
    }
}

/// Reads a hex number from digit bytes; `None` when a byte is no hex
/// digit, the sequence is empty, or the value would not fit `cap`.
pub fn parse_hex(v: &[u8], cap: usize) -> (r: Option<usize>)
    ensures
        match r {
            Some(n) => all_hex(v@) && n == hex_value(v@) && n <= cap,
            None => !all_hex(v@) || hex_value(v@) > cap,
        },
{
    if v.len() == 0 {
        return None;
    }
    let mut acc: usize = 0;
    let mut i: usize = 0;
    while i < v.len()
        invariant
            0 <= i <= v@.len(),
            acc == hex_value(v@.take(i as int)),
            acc <= cap,
            forall|m: int| 0 <= m < i ==> is_hex_byte(v@[m]),
        decreases v@.len() - i,
    {
        let b = v[i];
        let d: usize = if 48 <= b && b <= 57 {
            (b - 48) as usize
        } else if 97 <= b && b <= 102 {
            (b - 87) as usize
        } else if 65 <= b && b <= 70 {
            (b - 55) as usize
        } else {
            return None;
        };
        proof {
            assert(v@.take(i + 1 as int).take(i as int) =~= v@.take(i as int));
            assert(v@.take(i + 1 as int)[i as int] == v@[i as int]);
        }
        if acc > cap / 16 || (acc == cap / 16 && d > cap % 16) {
            proof {
                if all_hex(v@) {
                    lemma_hex_value_monotone(v@, i + 1 as int);
                    assert(hex_value(v@.take(i + 1 as int)) == acc * 16 + d);
                }
            }
            return None;
        }
        acc = acc * 16 + d;
        i = i + 1;
    }
    proof {
        assert(v@.take(v@.len() as int) =~= v@);
    }
    Some(acc)
}

/// True when `v` is non-empty and all decimal digits.
pub fn check_all_digits(v: &[u8]) -> (r: bool)
    ensures
        r == all_digits(v@),
{
    if v.len() == 0 {
        return false;
    }
    let mut i: usize = 0;
    while i < v.len()
        invariant
            0 <= i <= v@.len(),
            v@.len() > 0,
            forall|m: int| 0 <= m < i ==> is_digit_byte(v@[m]),
        decreases v@.len() - i,
    {
        let b = v[i];
        if b < 48 || b > 57 {
            return false;
        }
        i = i + 1;
    }
    true
}

/// True when `v` is non-empty and all hex digits.
pub fn check_all_hex(v: &[u8]) -> (r: bool)
    ensures
        r == all_hex(v@),
{
    if v.len() == 0 {
        return false;
    }
    let mut i: usize = 0;
    while i < v.len()
        invariant
            0 <= i <= v@.len(),
            v@.len() > 0,
            forall|m: int| 0 <= m < i ==> is_hex_byte(v@[m]),
        decreases v@.len() - i,
    {
        let b = v[i];
        if !((48 <= b && b <= 57) || (97 <= b && b <= 102) || (65 <= b && b <= 70)) {
            return false;
        }
        i = i + 1;
    }
    true
}

/// Shifting the start of a byte search equals searching a suffix.
pub proof fn lemma_find_byte_shift(s: Seq<u8>, b: u8, pos: int)
    requires
        0 <= pos <= s.len(),
    ensures
        match find_byte_from(s, b, pos) {
            Some(j) => find_byte_from(s.skip(pos), b, 0) == Some(j - pos),
            None => find_byte_from(s.skip(pos), b, 0) is None,
        },
{
    lemma_find_byte_from(s, b, pos);
    lemma_find_byte_from(s.skip(pos), b, 0);
    assert(forall|i: int| 0 <= i < s.len() - pos ==> s.skip(pos)[i] == s[pos + i]);
    match find_byte_from(s, b, pos) {
        Some(j) => {
            match find_byte_from(s.skip(pos), b, 0) {
                Some(k) => {
                    assert(s.skip(pos)[j - pos] == b);
                    if k < j - pos {
                        assert(s[pos + k] == b);
                    }
                    assert(k == j - pos);
                },
                None => {
                    assert(s.skip(pos)[j - pos] == b);
                },
            }
        },
        None => {
            match find_byte_from(s.skip(pos), b, 0) {
                Some(k) => {
                    assert(s[pos + k] == b);
                },
                None => {},
            }
        },
    }
}

/// Trimming keeps every byte property that all bytes had; stated for
/// the ASCII bound, which the parser needs.
pub proof fn lemma_trim_start_ascii(s: Seq<u8>)
    requires
        all_ascii(s),
    ensures
        all_ascii(trim_start(s)),
    decreases s.len(),
{
    if s.len() > 0 && is_space_byte(s[0]) {
        assert(forall|i: int| 0 <= i < s.len() - 1 ==> s.skip(1)[i] == s[i + 1]);
        lemma_trim_start_ascii(s.skip(1));
    }
}

pub proof fn lemma_trim_end_ascii(s: Seq<u8>)
    requires
        all_ascii(s),
    ensures
        all_ascii(trim_end(s)),
    decreases s.len(),
{
    if s.len() > 0 && is_space_byte(s[s.len() - 1]) {
        assert(forall|i: int| 0 <= i < s.len() - 1 ==> s.take(s.len() - 1)[i] == s[i]);
        lemma_trim_end_ascii(s.take(s.len() - 1));
    }
}

pub proof fn lemma_trim_ascii(s: Seq<u8>)
    requires
        all_ascii(s),
    ensures
        all_ascii(spec_trim(s)),
{
    lemma_trim_start_ascii(s);
    lemma_trim_end_ascii(trim_start(s));
}

/// Index of the first occurrence of `pat` as a block in `s` at or
/// after `from`; `None` for an empty pattern.
pub open spec fn find_seq_from(s: Seq<u8>, pat: Seq<u8>, from: int) -> Option<int>
    decreases s.len() - from,
{
    if pat.len() == 0 || from < 0 || from + pat.len() > s.len() {
        None
    } else if s.subrange(from, from + pat.len()) == pat {
        Some(from)
    } else {
        find_seq_from(s, pat, from + 1)
    }
}

/// What `find_seq_from` returns, said without recursion.
pub proof fn lemma_find_seq_from(s: Seq<u8>, pat: Seq<u8>, from: int)
    requires
        0 <= from,
        pat.len() > 0,
    ensures
        match find_seq_from(s, pat, from) {
            Some(j) => from <= j && j + pat.len() <= s.len() && s.subrange(j, j + pat.len())
                == pat && (forall|m: int|
                from <= m < j ==> #[trigger] s.subrange(m, m + pat.len()) != pat),
            None => forall|m: int|
                from <= m && m + pat.len() <= s.len() ==> #[trigger] s.subrange(
                    m,
                    m + pat.len(),
                ) != pat,
        },
    decreases s.len() - from,
{
    if from + pat.len() <= s.len() && s.subrange(from, from + pat.len()) != pat {
        lemma_find_seq_from(s, pat, from + 1);
    }
}

/// First occurrence of `pat` as a block in `v` at or after `from`.
pub fn find_seq(v: &[u8], pat: &[u8], from: usize) -> (r: Option<usize>)
    requires
        from <= v@.len(),
        pat@.len() > 0,
    ensures
        match r {
            Some(j) => find_seq_from(v@, pat@, from as int) == Some(j as int) && from <= j && j
                + pat@.len() <= v@.len(),
            None => find_seq_from(v@, pat@, from as int) is None,
        },
{
    let n = v.len();
    let m = pat.len();
    if m > n || from > n - m {
        return None;
    }
    let mut i: usize = from;
    while i <= n - m
        invariant
            from <= i,
            i <= n - m + 1,
            n == v@.len(),
            m == pat@.len(),
            0 < m <= n,
            find_seq_from(v@, pat@, from as int) == find_seq_from(v@, pat@, i as int),
        decreases n - i,
    {
        let mut k: usize = 0;
        let mut matched = true;
        while k < m
            invariant_except_break
                0 <= k <= m,
                i + m <= n,
                n == v@.len(),
                m == pat@.len(),
                matched,
                v@.subrange(i as int, i + k) =~= pat@.take(k as int),
            ensures
                matched ==> v@.subrange(i as int, i + m as int) == pat@,
                !matched ==> v@.subrange(i as int, i + m as int) != pat@,
            decreases m - k,
        {
            if v[i + k] != pat[k] {
                matched = false;
                proof {
                    assert(v@.subrange(i as int, i + m as int)[k as int] == v@[i + k]);
                    assert(pat@[k as int] != v@[i + k]);
                }
                break;
            }
            proof {
                assert(v@.subrange(i as int, i + k + 1) =~= pat@.take(k + 1 as int)) by {
                    assert(v@.subrange(i as int, i + k + 1).take(k as int) =~= v@.subrange(
                        i as int,
                        i + k,
                    ));
                    assert(pat@.take(k + 1 as int).take(k as int) =~= pat@.take(k as int));
                    assert(v@.subrange(i as int, i + k + 1)[k as int] == v@[i + k]);
                    assert(pat@.take(k + 1 as int)[k as int] == pat@[k as int]);
                }
            }
            k = k + 1;
        }
        proof {
            assert(pat@.take(m as int) =~= pat@);
        }
        if matched {
            return Some(i);
        }
        i = i + 1;
    }
    None
}

} // verus!
