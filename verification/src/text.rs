//! Decimal numbers and line ends as the protocol writes them.

use vstd::prelude::*;
use vstd::utf8::{valid_utf8, decode_utf8};

verus! {

/// The ASCII digits of a natural number, most significant first.
pub open spec fn digits_of(n: nat) -> Seq<u8>
    decreases n,
{
    if n < 10 {
        seq![(48 + n) as u8]
    } else {
        digits_of(n / 10).push((48 + n % 10) as u8)
    }
}

/// The decimal text of an integer: a `-` before the digits of a negative one.
pub open spec fn decimal(i: int) -> Seq<u8> {
    if i < 0 {
        seq![45u8] + digits_of((-i) as nat)
    } else {
        digits_of(i as nat)
    }
}


pub open spec fn is_digit(b: u8) -> bool {
    48 <= b <= 57
}

pub open spec fn all_digits(s: Seq<u8>) -> bool {
    forall|i: int| 0 <= i < s.len() ==> is_digit(#[trigger] s[i])
}

/// The value of a run of ASCII digits.
pub open spec fn digits_value(s: Seq<u8>) -> nat
    decreases s.len(),
{
    if s.len() == 0 {
        0
    } else {
        digits_value(s.drop_last()) * 10 + (s.last() - 48) as nat
    }
}

/// An unsigned decimal as `str::parse` reads it: an optional `+`, then one or
/// more digits.
pub open spec fn unsigned_text(s: Seq<u8>) -> Option<nat> {
    let d = if s.len() > 0 && s[0] == 43u8 { s.drop_first() } else { s };
    if d.len() > 0 && all_digits(d) {
        Some(digits_value(d))
    } else {
        None
    }
}

/// A signed decimal as `str::parse` reads it: an optional `+` or `-`, then one
/// or more digits.
pub open spec fn signed_text(s: Seq<u8>) -> Option<int> {
    if s.len() > 0 && s[0] == 45u8 {
        let d = s.drop_first();
        if d.len() > 0 && all_digits(d) {
            Some(-(digits_value(d) as int))
        } else {
            None
        }
    } else {
        match unsigned_text(s) {
            Some(n) => Some(n as int),
            None => None,
        }
    }
}

/// The text read as a `usize`: `None` where it is no decimal or too large.
pub open spec fn usize_text(s: Seq<u8>) -> Option<nat> {
    match unsigned_text(s) {
        Some(n) => if n <= usize::MAX { Some(n) } else { None },
        None => None,
    }
}

/// The text read as a `u64`.
pub open spec fn u64_text(s: Seq<u8>) -> Option<nat> {
    match unsigned_text(s) {
        Some(n) => if n <= u64::MAX { Some(n) } else { None },
        None => None,
    }
}

/// The text read as an `i64`.
pub open spec fn i64_text(s: Seq<u8>) -> Option<int> {
    match signed_text(s) {
        Some(n) => if i64::MIN <= n <= i64::MAX { Some(n) } else { None },
        None => None,
    }
}

pub proof fn lemma_digits_value_grows(s: Seq<u8>, k: int)
    requires
        0 <= k <= s.len(),
    ensures
        digits_value(s.take(k)) <= digits_value(s),
    decreases s.len(),
{
    if k < s.len() {
        assert(s.drop_last().take(k) =~= s.take(k));
        lemma_digits_value_grows(s.drop_last(), k);
    } else {
        assert(s.take(k) =~= s);
    }
}

/// The ASCII digits of `n`.
pub fn digits(n: u64) -> (r: Vec<u8>)
    ensures
        r@ == digits_of(n as nat),
    decreases n,
{
    if n < 10 {
        let mut v: Vec<u8> = Vec::new();
        v.push((48 + n) as u8);
        v
    } else {
        let mut v = digits(n / 10);
        v.push((48 + n % 10) as u8);
        v
    }
}

/// The decimal text of a signed number.
pub fn decimal_i64(i: i64) -> (r: Vec<u8>)
    ensures
        r@ == decimal(i as int),
{
    if i < 0 {
        let m: u64 = if i == i64::MIN { 9223372036854775808u64 } else { (-i) as u64 };
        let d = digits(m);
        let mut v: Vec<u8> = Vec::new();
        v.push(45u8);
        let mut k: usize = 0;
        while k < d.len()
            invariant
                k <= d.len(),
                v@ == seq![45u8] + d@.take(k as int),
            decreases d.len() - k,
        {
            v.push(d[k]);
            k = k + 1;
            assert(d@.take(k as int) =~= d@.take((k - 1) as int).push(d@[k - 1]));
        }
        assert(d@.take(k as int) =~= d@);
        v
    } else {
        digits(i as u64)
    }
}

/// The decimal text of an unsigned number.
pub fn decimal_u64(n: u64) -> (r: Vec<u8>)
    ensures
        r@ == decimal(n as int),
{
    digits(n)
}

/// The decimal text of a length.
pub fn decimal_usize(n: usize) -> (r: Vec<u8>)
    ensures
        r@ == decimal(n as int),
{
    digits(n as u64)
}

/// Reads `s[start..end]`, all of it digits, as a number, or `None` when the
/// number does not fit in a `u64`.
fn digit_run(s: &[u8], start: usize, end: usize) -> (r: Option<u64>)
    requires
        start <= end <= s@.len(),
        all_digits(s@.subrange(start as int, end as int)),
    ensures
        match r {
            Some(v) => v == digits_value(s@.subrange(start as int, end as int)),
            None => digits_value(s@.subrange(start as int, end as int)) > u64::MAX,
        },
{
    let ghost d = s@.subrange(start as int, end as int);
    let mut acc: u64 = 0;
    let mut i: usize = start;
    while i < end
        invariant
            start <= i <= end <= s@.len(),
            d == s@.subrange(start as int, end as int),
            all_digits(d),
            acc == digits_value(s@.subrange(start as int, i as int)),
        decreases end - i,
    {
        let ghost pre = s@.subrange(start as int, i as int);
        let ghost next = s@.subrange(start as int, i + 1);
        assert(next.drop_last() =~= pre);
        assert(next.last() == s@[i as int]);
        assert(is_digit(d[i - start]));
        let digit: u64 = (s[i] - 48u8) as u64;
        if acc > (u64::MAX - digit) / 10 {
            proof {
                assert(digits_value(next) == acc * 10 + digit);
                assert(acc * 10 + digit > u64::MAX) by (nonlinear_arith)
                    requires acc > (u64::MAX - digit) / 10, digit <= 9;
                assert(next =~= d.take(i + 1 - start));
                lemma_digits_value_grows(d, i + 1 - start);
            }
            return None;
        }
        proof {
            assert(acc * 10 + digit <= u64::MAX) by (nonlinear_arith)
                requires acc <= (u64::MAX - digit) / 10, digit <= 9;
        }
        acc = acc * 10 + digit;
        i = i + 1;
    }
    Some(acc)
}

/// Whether every byte of `s[start..end]` is an ASCII digit.
fn is_digit_run(s: &[u8], start: usize, end: usize) -> (r: bool)
    requires
        start <= end <= s@.len(),
    ensures
        r == all_digits(s@.subrange(start as int, end as int)),
{
    let mut i: usize = start;
    while i < end
        invariant
            start <= i <= end <= s@.len(),
            all_digits(s@.subrange(start as int, i as int)),
        decreases end - i,
    {
        if s[i] < 48u8 || s[i] > 57u8 {
            assert(!is_digit(s@.subrange(start as int, end as int)[i - start]));
            return false;
        }
        i = i + 1;
        assert forall|j: int| 0 <= j < s@.subrange(start as int, i as int).len() implies
            is_digit(#[trigger] s@.subrange(start as int, i as int)[j]) by {
            if j < i - 1 - start {
                assert(s@.subrange(start as int, (i - 1) as int)[j] == s@[start + j]);
            }
        }
    }
    true
}

/// Reads an unsigned decimal, `None` where it is none or exceeds `u64`.
fn unsigned_u64(s: &[u8]) -> (r: Option<u64>)
    ensures
        match r {
            Some(v) => unsigned_text(s@) == Some(v as nat),
            None => unsigned_text(s@) matches Some(n) ==> n > u64::MAX,
        },
{
    let n = s.len();
    let start: usize = if n > 0 && s[0] == 43u8 { 1 } else { 0 };
    let ghost d = if s@.len() > 0 && s@[0] == 43u8 { s@.drop_first() } else { s@ };
    assert(d =~= s@.subrange(start as int, n as int));
    if start == n {
        return None;
    }
    if !is_digit_run(s, start, n) {
        return None;
    }
    digit_run(s, start, n)
}

/// Reads a `usize` the way `str::parse::<usize>` does.
pub fn parse_usize(s: &[u8]) -> (r: Option<usize>)
    ensures
        match r {
            Some(v) => usize_text(s@) == Some(v as nat),
            None => usize_text(s@) is None,
        },
{
    match unsigned_u64(s) {
        Some(v) => {
            if v <= usize::MAX as u64 {
                Some(v as usize)
            } else {
                None
            }
        },
        None => None,
    }
}

/// Reads a `u64` the way `str::parse::<u64>` does.
pub fn parse_u64(s: &[u8]) -> (r: Option<u64>)
    ensures
        match r {
            Some(v) => u64_text(s@) == Some(v as nat),
            None => u64_text(s@) is None,
        },
{
    unsigned_u64(s)
}

/// Reads an `i64` the way `str::parse::<i64>` does.
pub fn parse_i64(s: &[u8]) -> (r: Option<i64>)
    ensures
        match r {
            Some(v) => i64_text(s@) == Some(v as int),
            None => i64_text(s@) is None,
        },
{
    let n = s.len();
    if n > 0 && s[0] == 45u8 {
        let ghost d = s@.drop_first();
        assert(d =~= s@.subrange(1, n as int));
        if n == 1 {
            return None;
        }
        if !is_digit_run(s, 1, n) {
            return None;
        }
        match digit_run(s, 1, n) {
            Some(m) => {
                if m <= 9223372036854775808u64 {
                    if m == 9223372036854775808u64 {
                        Some(i64::MIN)
                    } else {
                        Some(-(m as i64))
                    }
                } else {
                    None
                }
            },
            None => None,
        }
    } else {
        match unsigned_u64(s) {
            Some(v) => {
                if v <= i64::MAX as u64 {
                    Some(v as i64)
                } else {
                    None
                }
            },
            None => None,
        }
    }
}


/// An owned copy of a text.
pub fn message(m: &str) -> (r: String)
    ensures
        r@ == m@,
{
    m.to_owned()
}

/// What `String::from_utf8_lossy` makes of a byte sequence.
pub uninterp spec fn utf8_lossy(b: Seq<u8>) -> Seq<char>;

/// The text that a byte sequence is read as: its UTF-8 decoding where it is
/// valid UTF-8; otherwise the lossy reading, with U+FFFD in place of each
/// invalid sequence, which is only named here.
pub open spec fn lossy_text(b: Seq<u8>) -> Seq<char> {
    if valid_utf8(b) {
        decode_utf8(b)
    } else {
        utf8_lossy(b)
    }
}

/// `String::from_utf8_lossy(..).into_owned()`: valid UTF-8 decodes exactly; of
/// invalid input only the name `utf8_lossy` is said.
#[verifier::external_body]
pub(crate) fn lossy_string(b: &[u8]) -> (r: String)
    ensures
        valid_utf8(b@) ==> r@ == decode_utf8(b@),
        !valid_utf8(b@) ==> r@ == utf8_lossy(b@),
{
    String::from_utf8_lossy(b).into_owned()
}

} // verus!
