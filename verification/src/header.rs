//! The textual header: magic line, comment lines (one of which may carry
//! the iteration count), and the dimension line `width height scale`.
//!
//! The grammar is line based.  The first line must be the magic token
//! `PF`.  After it, blank lines and `#` comment lines are skipped; a
//! comment tagged `#>` resets the iteration count to its second token's
//! value when that token is decimal, and to unspecified otherwise.  The
//! first remaining line must hold at least three whitespace-separated
//! tokens: two decimal dimensions and a signed decimal scale, whose sign
//! records the payload byte order (negative for little endian) and whose
//! magnitude is carried through unchanged.  The payload begins right
//! after the line feed that closes the dimension line.

use vstd::prelude::*;
use crate::num::{all_digits, dec_val, is_digit, parse_decimal};

verus! {

/// In-line whitespace: space, tab, carriage return.
pub open spec fn is_ws(b: u8) -> bool {
    b == 32 || b == 9 || b == 13
}

/// Index of the first line feed at or after `i`, or the end of `s`.
pub open spec fn line_end(s: Seq<u8>, i: int) -> int
    decreases s.len() - i,
{
    if i < 0 || i >= s.len() {
        s.len() as int
    } else if s[i] == 10 {
        i
    } else {
        line_end(s, i + 1)
    }
}

/// First index at or after `i` of `t` that is not in-line whitespace.
pub open spec fn skip_ws(t: Seq<u8>, i: int) -> int
    decreases t.len() - i,
{
    if i < 0 || i >= t.len() {
        t.len() as int
    } else if is_ws(t[i]) {
        skip_ws(t, i + 1)
    } else {
        i
    }
}

/// First index at or after `i` of `t` that is in-line whitespace, or the end.
pub open spec fn token_end(t: Seq<u8>, i: int) -> int
    decreases t.len() - i,
{
    if i < 0 || i >= t.len() {
        t.len() as int
    } else if is_ws(t[i]) {
        i
    } else {
        token_end(t, i + 1)
    }
}

/// Index of the first dot at or after `i`, or the end of `t`.
pub open spec fn dot_pos(t: Seq<u8>, i: int) -> int
    decreases t.len() - i,
{
    if i < 0 || i >= t.len() {
        t.len() as int
    } else if t[i] == 46 {
        i
    } else {
        dot_pos(t, i + 1)
    }
}

/// Index of the first exponent marker (`e` or `E`) at or after `i`,
/// or the end of `t`.
pub open spec fn exp_pos(t: Seq<u8>, i: int) -> int
    decreases t.len() - i,
{
    if i < 0 || i >= t.len() {
        t.len() as int
    } else if t[i] == 101 || t[i] == 69 {
        i
    } else {
        exp_pos(t, i + 1)
    }
}

/// A mantissa: digits with at most one dot and at least one digit.
pub open spec fn is_mantissa(t: Seq<u8>) -> bool {
    let p = dot_pos(t, 0);
    if p == t.len() {
        t.len() > 0 && all_digits(t, 0, t.len() as int)
    } else {
        all_digits(t, 0, p) && all_digits(t, p + 1, t.len() as int) && (p > 0 || p + 1
            < t.len())
    }
}

/// An exponent part, after its marker: an optional sign, then digits.
pub open spec fn is_exp_part(t: Seq<u8>) -> bool {
    if t.len() > 0 && (t[0] == 43 || t[0] == 45) {
        t.len() > 1 && all_digits(t, 1, t.len() as int)
    } else {
        t.len() > 0 && all_digits(t, 0, t.len() as int)
    }
}

/// An unsigned decimal float token: a mantissa, optionally followed by an
/// exponent.  The scale is a finite magnitude, so the textual forms of
/// infinities and NaNs are not part of the grammar.
pub open spec fn is_float_mag(t: Seq<u8>) -> bool {
    let e = exp_pos(t, 0);
    if e == t.len() {
        is_mantissa(t)
    } else {
        is_mantissa(t.subrange(0, e)) && is_exp_part(t.subrange(e + 1, t.len() as int))
    }
}

/// A float token as it stands in the header: an optional sign, then a
/// magnitude.
pub open spec fn is_float_token(t: Seq<u8>) -> bool {
    if t.len() > 0 && (t[0] == 43 || t[0] == 45) {
        is_float_mag(t.subrange(1, t.len() as int))
    } else {
        is_float_mag(t)
    }
}

/// The magnitude of a float token: the token with a leading sign removed.
pub open spec fn mag_of(t: Seq<u8>) -> Seq<u8> {
    if t.len() > 0 && (t[0] == 43 || t[0] == 45) {
        t.subrange(1, t.len() as int)
    } else {
        t
    }
}

/// The value of a token when it is a decimal number that fits in `usize`.
pub open spec fn tok_usize(t: Seq<u8>) -> Option<usize> {
    if t.len() > 0 && all_digits(t, 0, t.len() as int) && dec_val(t) <= usize::MAX {
        Some(dec_val(t) as usize)
    } else {
        None
    }
}

/// The iteration count carried by a `#>` comment line: the value of its
/// second token when that is decimal, else unspecified.
pub open spec fn iter_of_line(t: Seq<u8>) -> Option<usize> {
    let j0 = skip_ws(t, 0);
    let k0 = token_end(t, j0);
    let j1 = skip_ws(t, k0);
    let k1 = token_end(t, j1);
    tok_usize(t.subrange(j1, k1))
}

/// The dimension line: its first three tokens are width, height and
/// scale.  Yields the dimensions, the payload byte order and the scale
/// magnitude, or nothing when a token is missing or unparsable.
pub open spec fn parse_dims(t: Seq<u8>) -> Option<(usize, usize, bool, Seq<u8>)> {
    let j0 = skip_ws(t, 0);
    let k0 = token_end(t, j0);
    let j1 = skip_ws(t, k0);
    let k1 = token_end(t, j1);
    let j2 = skip_ws(t, k1);
    let k2 = token_end(t, j2);
    let t2 = t.subrange(j2, k2);
    match (tok_usize(t.subrange(j0, k0)), tok_usize(t.subrange(j1, k1))) {
        (Some(w), Some(h)) => if is_float_token(t2) {
            Some((w, h, t2.len() > 0 && t2[0] == 45, mag_of(t2)))
        } else {
            None
        },
        _ => None,
    }
}

/// The fields read from a header, and where its payload begins.
pub ghost struct HeaderInfo {
    pub width: usize,
    pub height: usize,
    pub iters: Option<usize>,
    pub little: bool,
    pub mag: Seq<u8>,
    pub body: int,
}

/// Outcome of parsing a header.
pub ghost enum HeaderParse {
    BadMagic,
    MissingMetadata,
    Found(HeaderInfo),
}

/// Walk the lines after the magic token: skip blanks and comments,
/// honour `#>` tags, and stop at the dimension line.
pub open spec fn scan_meta(s: Seq<u8>, i: int, iters: Option<usize>) -> HeaderParse
    decreases s.len() - i,
    via scan_meta_dec
{
    if i < 0 || i >= s.len() {
        HeaderParse::MissingMetadata
    } else {
        let e = line_end(s, i);
        let t = s.subrange(i, e);
        let next = if e < s.len() {
            e + 1
        } else {
            e
        };
        if skip_ws(t, 0) == t.len() {
            scan_meta(s, next, iters)
        } else if t[0] == 35 {
            if t.len() >= 2 && t[1] == 62 {
                scan_meta(s, next, iter_of_line(t))
            } else {
                scan_meta(s, next, iters)
            }
        } else {
            match parse_dims(t) {
                Some((w, h, little, mag)) => HeaderParse::Found(
                    HeaderInfo { width: w, height: h, iters, little, mag, body: next },
                ),
                None => HeaderParse::MissingMetadata,
            }
        }
    }
}

#[via_fn]
proof fn scan_meta_dec(s: Seq<u8>, i: int, iters: Option<usize>) {
    if 0 <= i < s.len() {
        lemma_line_end_bounds(s, i);
    }
}

/// `line_end` stays between its start and the end of the sequence.
pub proof fn lemma_line_end_bounds(s: Seq<u8>, i: int)
    requires
        0 <= i <= s.len(),
    ensures
        i <= line_end(s, i) <= s.len(),
    decreases s.len() - i,
{
    if i < s.len() && s[i] != 10 {
        lemma_line_end_bounds(s, i + 1);
    }
}

/// Find the end of the line that starts at `i`.
pub(crate) fn find_line_end(bytes: &Vec<u8>, i: usize) -> (e: usize)
    requires
        i <= bytes@.len(),
    ensures
        e == line_end(bytes@, i as int),
        i <= e <= bytes@.len(),
{
    let n = bytes.len();
    let mut j = i;
    while j < n && bytes[j] != 10
        invariant
            i <= j <= n,
            n == bytes@.len(),
            line_end(bytes@, i as int) == line_end(bytes@, j as int),
        decreases n - j,
    {
        j = j + 1;
    }
    j
}

/// Skip in-line whitespace from `from` within the line `[lo, hi)`.
pub(crate) fn scan_ws(bytes: &Vec<u8>, lo: usize, from: usize, hi: usize) -> (r: usize)
    requires
        lo <= from <= hi <= bytes@.len(),
    ensures
        from <= r <= hi,
        r - lo == skip_ws(bytes@.subrange(lo as int, hi as int), from - lo),
{
    let ghost t = bytes@.subrange(lo as int, hi as int);
    let mut j = from;
    while j < hi && (bytes[j] == 32 || bytes[j] == 9 || bytes[j] == 13)
        invariant
            lo <= from <= j <= hi <= bytes@.len(),
            t == bytes@.subrange(lo as int, hi as int),
            skip_ws(t, from - lo) == skip_ws(t, j - lo),
        decreases hi - j,
    {
        proof {
            assert(t[j - lo] == bytes@[j as int]);
        }
        j = j + 1;
    }
    proof {
        if j < hi {
            assert(t[j - lo] == bytes@[j as int]);
        }
    }
    j
}

/// Find the end of the token that starts at `from` within `[lo, hi)`.
pub(crate) fn scan_token(bytes: &Vec<u8>, lo: usize, from: usize, hi: usize) -> (r: usize)
    requires
        lo <= from <= hi <= bytes@.len(),
    ensures
        from <= r <= hi,
        r - lo == token_end(bytes@.subrange(lo as int, hi as int), from - lo),
{
    let ghost t = bytes@.subrange(lo as int, hi as int);
    let mut j = from;
    while j < hi && !(bytes[j] == 32 || bytes[j] == 9 || bytes[j] == 13)
        invariant
            lo <= from <= j <= hi <= bytes@.len(),
            t == bytes@.subrange(lo as int, hi as int),
            token_end(t, from - lo) == token_end(t, j - lo),
        decreases hi - j,
    {
        proof {
            assert(t[j - lo] == bytes@[j as int]);
        }
        j = j + 1;
    }
    proof {
        if j < hi {
            assert(t[j - lo] == bytes@[j as int]);
        }
    }
    j
}

/// Find the first dot at or after `from` within `[lo, hi)`.
pub(crate) fn scan_dot(bytes: &Vec<u8>, lo: usize, from: usize, hi: usize) -> (r: usize)
    requires
        lo <= from <= hi <= bytes@.len(),
    ensures
        from <= r <= hi,
        r - lo == dot_pos(bytes@.subrange(lo as int, hi as int), from - lo),
{
    let ghost t = bytes@.subrange(lo as int, hi as int);
    let mut j = from;
    while j < hi && bytes[j] != 46
        invariant
            lo <= from <= j <= hi <= bytes@.len(),
            t == bytes@.subrange(lo as int, hi as int),
            dot_pos(t, from - lo) == dot_pos(t, j - lo),
        decreases hi - j,
    {
        proof {
            assert(t[j - lo] == bytes@[j as int]);
        }
        j = j + 1;
    }
    proof {
        if j < hi {
            assert(t[j - lo] == bytes@[j as int]);
        }
    }
    j
}

/// Find the first exponent marker at or after `from` within `[lo, hi)`.
pub(crate) fn scan_exp(bytes: &Vec<u8>, lo: usize, from: usize, hi: usize) -> (r: usize)
    requires
        lo <= from <= hi <= bytes@.len(),
    ensures
        from <= r <= hi,
        r - lo == exp_pos(bytes@.subrange(lo as int, hi as int), from - lo),
{
    let ghost t = bytes@.subrange(lo as int, hi as int);
    let mut j = from;
    while j < hi && !(bytes[j] == 101 || bytes[j] == 69)
        invariant
            lo <= from <= j <= hi <= bytes@.len(),
            t == bytes@.subrange(lo as int, hi as int),
            exp_pos(t, from - lo) == exp_pos(t, j - lo),
        decreases hi - j,
    {
        proof {
            assert(t[j - lo] == bytes@[j as int]);
        }
        j = j + 1;
    }
    proof {
        if j < hi {
            assert(t[j - lo] == bytes@[j as int]);
        }
    }
    j
}

/// Test that `bytes[a..b]` is all decimal digits.
pub(crate) fn check_digits(bytes: &Vec<u8>, a: usize, b: usize) -> (r: bool)
    requires
        a <= b <= bytes@.len(),
    ensures
        r == all_digits(bytes@, a as int, b as int),
{
    let mut k = a;
    while k < b
        invariant
            a <= k <= b <= bytes@.len(),
            all_digits(bytes@, a as int, k as int),
        decreases b - k,
    {
        let c = bytes[k];
        if c < 48 || c > 57 {
            assert(!is_digit(bytes@[k as int]));
            return false;
        }
        k = k + 1;
    }
    true
}

/// Copy `bytes[a..b]` into a vector of its own.
pub(crate) fn copy_range(bytes: &Vec<u8>, a: usize, b: usize) -> (r: Vec<u8>)
    requires
        a <= b <= bytes@.len(),
    ensures
        r@ == bytes@.subrange(a as int, b as int),
{
    let mut r: Vec<u8> = Vec::new();
    let mut k = a;
    while k < b
        invariant
            a <= k <= b <= bytes@.len(),
            r@ == bytes@.subrange(a as int, k as int),
        decreases b - k,
    {
        r.push(bytes[k]);
        proof {
            assert(r@ =~= bytes@.subrange(a as int, k + 1));
        }
        k = k + 1;
    }
    r
}

/// Test that `bytes[a..b]` is a mantissa.
pub(crate) fn check_mantissa(bytes: &Vec<u8>, a: usize, b: usize) -> (r: bool)
    requires
        a <= b <= bytes@.len(),
    ensures
        r == is_mantissa(bytes@.subrange(a as int, b as int)),
{
    let ghost m = bytes@.subrange(a as int, b as int);
    let d = scan_dot(bytes, a, a, b);
    if d == b {
        let r = b > a && check_digits(bytes, a, b);
        proof {
            crate::num::lemma_all_digits_subrange(bytes@, a as int, b as int, 0, b - a);
        }
        r
    } else {
        let d1 = check_digits(bytes, a, d);
        let d2 = check_digits(bytes, d + 1, b);
        proof {
            crate::num::lemma_all_digits_subrange(bytes@, a as int, b as int, 0, d - a);
            crate::num::lemma_all_digits_subrange(bytes@, a as int, b as int, d - a + 1, b - a);
        }
        d1 && d2 && (d > a || d + 1 < b)
    }
}

/// Test that `bytes[a..b]` is an exponent part.
pub(crate) fn check_exp_part(bytes: &Vec<u8>, a: usize, b: usize) -> (r: bool)
    requires
        a <= b <= bytes@.len(),
    ensures
        r == is_exp_part(bytes@.subrange(a as int, b as int)),
{
    let ghost t = bytes@.subrange(a as int, b as int);
    if a < b && (bytes[a] == 43 || bytes[a] == 45) {
        assert(t[0] == bytes@[a as int]);
        let r = b - a > 1 && check_digits(bytes, a + 1, b);
        proof {
            crate::num::lemma_all_digits_subrange(bytes@, a as int, b as int, 1, b - a);
        }
        r
    } else {
        proof {
            if a < b {
                assert(t[0] == bytes@[a as int]);
            }
        }
        let r = a < b && check_digits(bytes, a, b);
        proof {
            crate::num::lemma_all_digits_subrange(bytes@, a as int, b as int, 0, b - a);
        }
        r
    }
}

/// Test that `bytes[a..b]` is an unsigned float magnitude.
pub(crate) fn check_float_mag(bytes: &Vec<u8>, a: usize, b: usize) -> (r: bool)
    requires
        a <= b <= bytes@.len(),
    ensures
        r == is_float_mag(bytes@.subrange(a as int, b as int)),
{
    let ghost t = bytes@.subrange(a as int, b as int);
    let e = scan_exp(bytes, a, a, b);
    if e == b {
        check_mantissa(bytes, a, b)
    } else {
        proof {
            assert(t.subrange(0, e - a) =~= bytes@.subrange(a as int, e as int));
            assert(t.subrange(e - a + 1, t.len() as int) =~= bytes@.subrange(e + 1, b as int));
        }
        let m = check_mantissa(bytes, a, e);
        let x = check_exp_part(bytes, e + 1, b);
        m && x
    }
}

/// Test that `bytes[a..b]` is a float token.
pub(crate) fn check_float_token(bytes: &Vec<u8>, a: usize, b: usize) -> (r: bool)
    requires
        a <= b <= bytes@.len(),
    ensures
        r == is_float_token(bytes@.subrange(a as int, b as int)),
{
    let ghost t = bytes@.subrange(a as int, b as int);
    if a < b && (bytes[a] == 43 || bytes[a] == 45) {
        proof {
            assert(t[0] == bytes@[a as int]);
            assert(t.subrange(1, t.len() as int) =~= bytes@.subrange(a + 1, b as int));
        }
        check_float_mag(bytes, a + 1, b)
    } else {
        proof {
            if a < b {
                assert(t[0] == bytes@[a as int]);
            }
        }
        check_float_mag(bytes, a, b)
    }
}

/// When `[i, j)` holds no line feed and `j` is one (or the end), the
/// line ends at `j`.
pub proof fn lemma_line_end_at(s: Seq<u8>, i: int, j: int)
    requires
        0 <= i <= j <= s.len(),
        forall|k: int| i <= k < j ==> s[k] != 10,
        j == s.len() || s[j] == 10,
    ensures
        line_end(s, i) == j,
    decreases j - i,
{
    if i < j {
        lemma_line_end_at(s, i + 1, j);
    }
}

/// When `[i, j)` is all whitespace and `j` is not (or is the end), the
/// whitespace run ends at `j`.
pub proof fn lemma_skip_ws_at(t: Seq<u8>, i: int, j: int)
    requires
        0 <= i <= j <= t.len(),
        forall|k: int| i <= k < j ==> is_ws(t[k]),
        j == t.len() || !is_ws(t[j]),
    ensures
        skip_ws(t, i) == j,
    decreases j - i,
{
    if i < j {
        lemma_skip_ws_at(t, i + 1, j);
    }
}

/// When `[i, j)` holds no whitespace and `j` is some (or the end), the
/// token ends at `j`.
pub proof fn lemma_token_end_at(t: Seq<u8>, i: int, j: int)
    requires
        0 <= i <= j <= t.len(),
        forall|k: int| i <= k < j ==> !is_ws(t[k]),
        j == t.len() || is_ws(t[j]),
    ensures
        token_end(t, i) == j,
    decreases j - i,
{
    if i < j {
        lemma_token_end_at(t, i + 1, j);
    }
}

/// Where the first dot stands, and that none stands before it.
pub proof fn lemma_dot_pos_facts(t: Seq<u8>, i: int)
    requires
        0 <= i <= t.len(),
    ensures
        i <= dot_pos(t, i) <= t.len(),
        dot_pos(t, i) < t.len() ==> t[dot_pos(t, i)] == 46,
        forall|k: int| i <= k < dot_pos(t, i) ==> t[k] != 46,
    decreases t.len() - i,
{
    if i < t.len() && t[i] != 46 {
        lemma_dot_pos_facts(t, i + 1);
    }
}

/// Where the first exponent marker stands, and that none stands before it.
pub proof fn lemma_exp_pos_facts(t: Seq<u8>, i: int)
    requires
        0 <= i <= t.len(),
    ensures
        i <= exp_pos(t, i) <= t.len(),
        exp_pos(t, i) < t.len() ==> (t[exp_pos(t, i)] == 101 || t[exp_pos(t, i)] == 69),
        forall|k: int| i <= k < exp_pos(t, i) ==> !(t[k] == 101 || t[k] == 69),
    decreases t.len() - i,
{
    if i < t.len() && !(t[i] == 101 || t[i] == 69) {
        lemma_exp_pos_facts(t, i + 1);
    }
}

/// A spelling byte of a float magnitude.
pub open spec fn is_mag_char(b: u8) -> bool {
    is_digit(b) || b == 46 || b == 101 || b == 69 || b == 43 || b == 45
}

/// A mantissa is digits and at most one dot, starting with one of them.
pub proof fn lemma_mantissa_chars(t: Seq<u8>)
    requires
        is_mantissa(t),
    ensures
        t.len() > 0,
        is_digit(t[0]) || t[0] == 46,
        forall|k: int| 0 <= k < t.len() ==> (is_digit(t[k]) || t[k] == 46),
{
    let p = dot_pos(t, 0);
    lemma_dot_pos_facts(t, 0);
    if p < t.len() {
        assert forall|k: int| 0 <= k < t.len() implies (is_digit(t[k]) || t[k] == 46) by {
            if k < p {
            } else if k == p {
            } else {
            }
        }
    }
}

/// An exponent part is a possible sign and then digits.
pub proof fn lemma_exp_part_chars(t: Seq<u8>)
    requires
        is_exp_part(t),
    ensures
        t.len() > 0,
        forall|k: int| 0 <= k < t.len() ==> (is_digit(t[k]) || t[k] == 43 || t[k] == 45),
{
    assert forall|k: int| 0 <= k < t.len() implies (is_digit(t[k]) || t[k] == 43 || t[k]
        == 45) by {
        if t[0] == 43 || t[0] == 45 {
        } else {
        }
    }
}

/// Every byte of a float magnitude is a spelling byte, and the first is
/// a digit or a dot — never a sign.
pub proof fn lemma_mag_chars(m: Seq<u8>)
    requires
        is_float_mag(m),
    ensures
        m.len() > 0,
        is_digit(m[0]) || m[0] == 46,
        forall|k: int| 0 <= k < m.len() ==> is_mag_char(m[k]),
{
    let e = exp_pos(m, 0);
    lemma_exp_pos_facts(m, 0);
    if e == m.len() {
        lemma_mantissa_chars(m);
    } else {
        let m2 = m.subrange(0, e);
        let m3 = m.subrange(e + 1, m.len() as int);
        lemma_mantissa_chars(m2);
        lemma_exp_part_chars(m3);
        assert(m[0] == m2[0]);
        assert forall|k: int| 0 <= k < m.len() implies is_mag_char(m[k]) by {
            if k < e {
                assert(m[k] == m2[k]);
            } else if k == e {
            } else {
                assert(m[k] == m3[k - e - 1]);
            }
        }
    }
}

/// Result of parsing a header, as executable data.
pub(crate) enum MetaExec {
    BadMagic,
    MissingMetadata,
    Found { width: usize, height: usize, iters: Option<usize>, little: bool, mag: Vec<u8>, body: usize },
}

/// What holds after a successful scan: the payload offset lies inside
/// the input, and the scale magnitude obeys the float grammar.
pub proof fn lemma_scan_found(s: Seq<u8>, i: int, iters: Option<usize>)
    requires
        0 <= i,
    ensures
        scan_meta(s, i, iters) matches HeaderParse::Found(h) ==> 0 <= h.body <= s.len()
            && is_float_mag(h.mag),
    decreases s.len() - i,
{
    if 0 <= i < s.len() {
        let e = line_end(s, i);
        lemma_line_end_bounds(s, i);
        let t = s.subrange(i, e);
        let next = if e < s.len() {
            e + 1
        } else {
            e
        };
        if skip_ws(t, 0) == t.len() {
            lemma_scan_found(s, next, iters);
        } else if t[0] == 35 {
            if t.len() >= 2 && t[1] == 62 {
                lemma_scan_found(s, next, iter_of_line(t));
            } else {
                lemma_scan_found(s, next, iters);
            }
        } else {
            match parse_dims(t) {
                Some((w, h, little, mag)) => {
                    let j2 = skip_ws(t, token_end(t, skip_ws(t, token_end(t, skip_ws(t, 0)))));
                    let k2 = token_end(t, j2);
                    let t2 = t.subrange(j2, k2);
                    assert(is_float_token(t2));
                    assert(is_float_mag(mag_of(t2)));
                },
                None => {},
            }
        }
    }
}

/// What holds of a successfully parsed header.
pub proof fn lemma_parse_header_found(s: Seq<u8>)
    ensures
        parse_header(s) matches HeaderParse::Found(h) ==> 0 <= h.body <= s.len()
            && is_float_mag(h.mag),
{
    let e = line_end(s, 0);
    lemma_line_end_bounds(s, 0);
    if s.subrange(0, magic_end(s)) =~= seq![80u8, 70u8] {
        lemma_scan_found(
            s,
            if e < s.len() {
                e + 1
            } else {
                e
            },
            None,
        );
    }
}

/// A float token is never empty.
pub proof fn lemma_float_token_nonempty(t: Seq<u8>)
    requires
        is_float_token(t),
    ensures
        t.len() > 0,
{
    if t.len() == 0 {
        assert(exp_pos(t, 0) == 0);
        assert(dot_pos(t, 0) == 0);
        assert(!is_mantissa(t));
    }
}

/// Where the magic line's content ends: its trailing carriage return,
/// if any, is dropped, so files with CRLF line endings carry the same
/// magic token.
pub open spec fn magic_end(s: Seq<u8>) -> int {
    let e = line_end(s, 0);
    if e > 0 && s[e - 1] == 13 {
        e - 1
    } else {
        e
    }
}

/// Parse the textual header of `s`.
pub open spec fn parse_header(s: Seq<u8>) -> HeaderParse {
    let e = line_end(s, 0);
    if s.subrange(0, magic_end(s)) =~= seq![80u8, 70u8] {
        scan_meta(
            s,
            if e < s.len() {
                e + 1
            } else {
                e
            },
            None,
        )
    } else {
        HeaderParse::BadMagic
    }
}

/// Parse the textual header of `bytes`.
pub(crate) fn parse_header_exec(bytes: &Vec<u8>) -> (r: MetaExec)
    ensures
        match r {
            MetaExec::BadMagic => parse_header(bytes@) is BadMagic,
            MetaExec::MissingMetadata => parse_header(bytes@) is MissingMetadata,
            MetaExec::Found { width, height, iters, little, mag, body } => parse_header(bytes@)
                == HeaderParse::Found(
                HeaderInfo { width, height, iters, little, mag: mag@, body: body as int },
            ),
        },
{
    let ghost s = bytes@;
    let n = bytes.len();
    let e0 = find_line_end(bytes, 0);
    let m_end = if e0 > 0 && bytes[e0 - 1] == 13 {
        e0 - 1
    } else {
        e0
    };
    proof {
        assert(m_end == magic_end(s));
    }
    if !(m_end == 2 && bytes[0] == 80 && bytes[1] == 70) {
        proof {
            let m = s.subrange(0, m_end as int);
            if m_end == 2 {
                assert(m[0] == s[0]);
                assert(m[1] == s[1]);
            } else {
                assert(m.len() != 2);
            }
            assert(!(m =~= seq![80u8, 70u8]));
        }
        return MetaExec::BadMagic;
    }
    proof {
        assert(s.subrange(0, 2) =~= seq![80u8, 70u8]);
    }
    let mut i: usize = if e0 < n {
        e0 + 1
    } else {
        e0
    };
    let mut cur: Option<usize> = None;
    while i < n
        invariant
            i <= n,
            n == s.len(),
            s == bytes@,
            parse_header(s) == scan_meta(s, i as int, cur),
        decreases n - i,
    {
        let e = find_line_end(bytes, i);
        let ghost t = s.subrange(i as int, e as int);
        let next = if e < n {
            e + 1
        } else {
            e
        };
        let j0 = scan_ws(bytes, i, i, e);
        if j0 == e {
            proof {
                assert(skip_ws(t, 0) == t.len());
                assert(scan_meta(s, i as int, cur) == scan_meta(s, next as int, cur));
            }
            i = next;
            continue;
        }
        proof {
            assert(skip_ws(t, 0) < t.len());
            assert(t[0] == s[i as int]);
        }
        if bytes[i] == 35 {
            if i + 1 < e && bytes[i + 1] == 62 {
                let k0 = scan_token(bytes, i, j0, e);
                let j1 = scan_ws(bytes, i, k0, e);
                let k1 = scan_token(bytes, i, j1, e);
                let v = parse_decimal(bytes, j1, k1);
                proof {
                    assert(t[1] == s[i + 1]);
                    assert(t.subrange(j1 - i, k1 - i) =~= s.subrange(j1 as int, k1 as int));
                    assert(v == iter_of_line(t));
                    assert(scan_meta(s, i as int, cur) == scan_meta(
                        s,
                        next as int,
                        iter_of_line(t),
                    ));
                }
                cur = v;
            } else {
                proof {
                    if i + 1 < e {
                        assert(t[1] == s[i + 1]);
                    }
                    assert(!(t.len() >= 2 && t[1] == 62));
                    assert(scan_meta(s, i as int, cur) == scan_meta(s, next as int, cur));
                }
            }
            i = next;
            continue;
        }
        let k0 = scan_token(bytes, i, j0, e);
        let j1 = scan_ws(bytes, i, k0, e);
        let k1 = scan_token(bytes, i, j1, e);
        let j2 = scan_ws(bytes, i, k1, e);
        let k2 = scan_token(bytes, i, j2, e);
        let w = parse_decimal(bytes, j0, k0);
        let h = parse_decimal(bytes, j1, k1);
        let okf = check_float_token(bytes, j2, k2);
        proof {
            assert(t.subrange(j0 - i, k0 - i) =~= s.subrange(j0 as int, k0 as int));
            assert(t.subrange(j1 - i, k1 - i) =~= s.subrange(j1 as int, k1 as int));
            assert(t.subrange(j2 - i, k2 - i) =~= s.subrange(j2 as int, k2 as int));
        }
        if w.is_some() && h.is_some() && okf {
            let wv = w.unwrap();
            let hv = h.unwrap();
            let little = bytes[j2] == 45;
            let ml = if bytes[j2] == 43 || bytes[j2] == 45 {
                j2 + 1
            } else {
                j2
            };
            let mag = copy_range(bytes, ml, k2);
            proof {
                let t2 = t.subrange(j2 - i, k2 - i);
                lemma_float_token_nonempty(t2);
                assert(t2[0] == s[j2 as int]);
                assert(mag@ =~= mag_of(t2));
                assert(parse_dims(t) == Some((wv, hv, little, mag_of(t2))));
            }
            return MetaExec::Found { width: wv, height: hv, iters: cur, little, mag, body: next };
        } else {
            proof {
                assert(parse_dims(t) is None);
            }
            return MetaExec::MissingMetadata;
        }
    }
    MetaExec::MissingMetadata
}

} // verus!\n