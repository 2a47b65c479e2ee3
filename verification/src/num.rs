//! Decimal digit strings: printing and parsing of unsigned integers,
//! with the lemmas that make the two inverses of each other.

use vstd::prelude::*;
use vstd::arithmetic::div_mod::lemma_fundamental_div_mod;

verus! {

/// `b` is an ASCII decimal digit.
pub open spec fn is_digit(b: u8) -> bool {
    48 <= b <= 57
}

/// Numeric value of a digit byte.
pub open spec fn digit_val(b: u8) -> nat {
    (b - 48) as nat
}

/// Every byte of `s` in `[i, j)` is a decimal digit.
pub open spec fn all_digits(s: Seq<u8>, i: int, j: int) -> bool {
    forall|k: int| i <= k < j ==> is_digit(s[k])
}

/// Value of the digit string `s` from index `i` on, read left to right
/// into the accumulator `acc`.
pub open spec fn dec_val_from(s: Seq<u8>, i: int, acc: nat) -> nat
    decreases s.len() - i,
{
    if i < 0 || i >= s.len() {
        acc
    } else {
        dec_val_from(s, i + 1, acc * 10 + digit_val(s[i]))
    }
}

/// Value of the whole digit string.
pub open spec fn dec_val(s: Seq<u8>) -> nat {
    dec_val_from(s, 0, 0)
}

/// The canonical decimal spelling of `n`: no leading zeros, `"0"` for zero.
pub open spec fn dec_digits(n: nat) -> Seq<u8>
    decreases n,
{
    if n < 10 {
        seq![(48 + n) as u8]
    } else {
        dec_digits(n / 10).push((48 + n % 10) as u8)
    }
}

/// Appending a digit multiplies the value by ten and adds the digit.
pub proof fn lemma_dec_val_from_push(s: Seq<u8>, d: u8, i: int, acc: nat)
    requires
        0 <= i <= s.len(),
    ensures
        dec_val_from(s.push(d), i, acc) == dec_val_from(s, i, acc) * 10 + digit_val(d),
    decreases s.len() - i,
{
    if i == s.len() {
        assert(dec_val_from(s.push(d), i, acc) == dec_val_from(s.push(d), i + 1, acc * 10
            + digit_val(s.push(d)[i])));
        assert(s.push(d)[i] == d);
    } else {
        assert(s.push(d)[i] == s[i]);
        lemma_dec_val_from_push(s, d, i + 1, acc * 10 + digit_val(s[i]));
    }
}

/// Parsing the canonical spelling of `n` gives back `n`.
pub proof fn lemma_dec_val_of_digits(n: nat)
    ensures
        dec_val(dec_digits(n)) == n,
    decreases n,
{
    if n < 10 {
        let s = dec_digits(n);
        assert(dec_val_from(s, 0, 0) == dec_val_from(s, 1, digit_val(s[0])));
    } else {
        lemma_dec_val_of_digits(n / 10);
        lemma_dec_val_from_push(dec_digits(n / 10), (48 + n % 10) as u8, 0, 0);
        lemma_fundamental_div_mod(n as int, 10);
    }
}

/// The canonical spelling is nonempty and made of digits alone.
pub proof fn lemma_dec_digits_are_digits(n: nat)
    ensures
        dec_digits(n).len() >= 1,
        all_digits(dec_digits(n), 0, dec_digits(n).len() as int),
    decreases n,
{
    if n >= 10 {
        lemma_dec_digits_are_digits(n / 10);
    }
}

/// The value is never below the accumulator it started from.
pub proof fn lemma_dec_val_from_ge_acc(s: Seq<u8>, i: int, acc: nat)
    ensures
        dec_val_from(s, i, acc) >= acc,
    decreases s.len() - i,
{
    if 0 <= i < s.len() {
        lemma_dec_val_from_ge_acc(s, i + 1, acc * 10 + digit_val(s[i]));
    }
}

/// Digit runs can be read on a subrange or on the whole sequence alike.
pub proof fn lemma_all_digits_subrange(s: Seq<u8>, lo: int, hi: int, x: int, y: int)
    requires
        0 <= lo <= hi <= s.len(),
        0 <= x,
        y <= hi - lo,
    ensures
        all_digits(s.subrange(lo, hi), x, y) == all_digits(s, lo + x, lo + y),
{
    let t = s.subrange(lo, hi);
    if all_digits(t, x, y) {
        assert forall|k: int| lo + x <= k < lo + y implies is_digit(s[k]) by {
            assert(t[k - lo] == s[k]);
        }
    }
    if all_digits(s, lo + x, lo + y) {
        assert forall|k: int| x <= k < y implies is_digit(t[k]) by {
            assert(t[k] == s[k + lo]);
        }
    }
}

/// Append the decimal spelling of `n` to `out`.
pub fn push_decimal(out: &mut Vec<u8>, n: usize)
    ensures
        final(out)@ == old(out)@ + dec_digits(n as nat),
    decreases n,
{
    if n < 10 {
        out.push(48 + n as u8);
        assert(out@ =~= old(out)@ + dec_digits(n as nat));
    } else {
        let ghost mid = out@ + dec_digits((n / 10) as nat);
        push_decimal(out, n / 10);
        out.push(48 + (n % 10) as u8);
        assert(out@ =~= old(out)@ + dec_digits(n as nat));
    }
}

/// Parse `bytes[lo..hi]` as an unsigned decimal number.  `None` when the
/// range is empty, holds a non-digit, or spells a value above `usize::MAX`.
pub fn parse_decimal(bytes: &Vec<u8>, lo: usize, hi: usize) -> (r: Option<usize>)
    requires
        lo <= hi <= bytes@.len(),
    ensures
        ({
            let s = bytes@.subrange(lo as int, hi as int);
            match r {
                Some(v) => lo < hi && all_digits(s, 0, s.len() as int) && v == dec_val(s),
                None => !(lo < hi && all_digits(s, 0, s.len() as int) && dec_val(s)
                    <= usize::MAX),
            }
        }),
{
    let ghost s = bytes@.subrange(lo as int, hi as int);
    if lo == hi {
        return None;
    }
    let mut acc: usize = 0;
    let mut i: usize = lo;
    while i < hi
        invariant
            lo <= i <= hi <= bytes@.len(),
            s == bytes@.subrange(lo as int, hi as int),
            all_digits(s, 0, i - lo),
            dec_val(s) == dec_val_from(s, i - lo, acc as nat),
        decreases hi - i,
    {
        let b = bytes[i];
        assert(s[i - lo] == b);
        if b < 48 || b > 57 {
            assert(!is_digit(s[i - lo]));
            return None;
        }
        let d = (b - 48) as usize;
        let next = match acc.checked_mul(10) {
            Some(t) => t.checked_add(d),
            None => None,
        };
        match next {
            Some(v) => {
                acc = v;
            },
            None => {
                proof {
                    lemma_dec_val_from_ge_acc(s, i - lo + 1, acc as nat * 10 + digit_val(b));
                }
                return None;
            },
        }
        i = i + 1;
    }
    Some(acc)
}

} // verus!
