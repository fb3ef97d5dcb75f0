//! Signed decimal numbers as ASCII bytes: the form in which counter values
//! are stored and sent.

use vstd::prelude::*;
use crate::ascii::{DIGIT_NINE, DIGIT_ZERO, MINUS, PLUS};

verus! {

/// An ASCII decimal digit.
pub open spec fn is_digit(b: u8) -> bool {
    DIGIT_ZERO <= b && b <= DIGIT_NINE
}

/// Every byte of `s` is a decimal digit.
pub open spec fn all_digits(s: Seq<u8>) -> bool {
    forall|i: int| 0 <= i < s.len() ==> is_digit(#[trigger] s[i])
}

/// The number that a run of decimal digits denotes, most significant first.
pub open spec fn digits_value(s: Seq<u8>) -> nat
    decreases s.len(),
{
    if s.len() == 0 {
        0
    } else {
        digits_value(s.drop_last()) * 10 + (s.last() - DIGIT_ZERO) as nat
    }
}

/// The integer written in `s`: an optional sign, then one or more decimal
/// digits and nothing else. Leading zeros are allowed.
pub open spec fn parse_decimal(s: Seq<u8>) -> Option<int> {
    if s.len() > 0 && s[0] == MINUS {
        let d = s.drop_first();
        if d.len() > 0 && all_digits(d) {
            Some(-(digits_value(d) as int))
        } else {
            None
        }
    } else if s.len() > 0 && s[0] == PLUS {
        let d = s.drop_first();
        if d.len() > 0 && all_digits(d) {
            Some(digits_value(d) as int)
        } else {
            None
        }
    } else if s.len() > 0 && all_digits(s) {
        Some(digits_value(s) as int)
    } else {
        None
    }
}

/// The 64-bit value written in `s`, if `s` is a decimal integer in range.
pub open spec fn parse_i64_spec(s: Seq<u8>) -> Option<i64> {
    match parse_decimal(s) {
        Some(v) => if i64::MIN <= v && v <= i64::MAX {
            Some(v as i64)
        } else {
            None
        },
        None => None,
    }
}

/// The digits of `n`, most significant first, without leading zeros.
pub open spec fn decimal(n: nat) -> Seq<u8>
    decreases n,
{
    if n < 10 {
        seq![(DIGIT_ZERO + n) as u8]
    } else {
        decimal(n / 10).push((DIGIT_ZERO + n % 10) as u8)
    }
}

/// The decimal form of `v`: a minus sign for a negative number, then its
/// digits.
pub open spec fn render(v: int) -> Seq<u8> {
    if v < 0 {
        seq![MINUS] + decimal((-v) as nat)
    } else {
        decimal(v as nat)
    }
}

/// Digits appended to a number never make it smaller.
pub proof fn lemma_digits_value_prefix(s: Seq<u8>, k: int)
    requires
        0 <= k <= s.len(),
    ensures
        digits_value(s.subrange(0, k)) <= digits_value(s),
    decreases s.len(),
{
    if k == s.len() {
        assert(s.subrange(0, k) =~= s);
    } else {
        lemma_digits_value_prefix(s.drop_last(), k);
        assert(s.drop_last().subrange(0, k) =~= s.subrange(0, k));
    }
}

/// `decimal` writes digits only, at least one, and they denote `n`.
pub proof fn lemma_decimal_digits(n: nat)
    ensures
        decimal(n).len() > 0,
        all_digits(decimal(n)),
        digits_value(decimal(n)) == n,
    decreases n,
{
    if n < 10 {
        let s = decimal(n);
        assert(s.drop_last() =~= Seq::<u8>::empty());
        assert(digits_value(s.drop_last()) == 0);
    } else {
        lemma_decimal_digits(n / 10);
        let s = decimal(n);
        assert(s.drop_last() =~= decimal(n / 10));
        assert(s.last() == (DIGIT_ZERO + n % 10) as u8);
    }
}

/// Reading back what `render` wrote gives the number that was written.
pub proof fn lemma_parse_render(v: int)
    ensures
        parse_decimal(render(v)) == Some(v),
{
    if v < 0 {
        let n = (-v) as nat;
        lemma_decimal_digits(n);
        assert(render(v).drop_first() =~= decimal(n));
    } else {
        let n = v as nat;
        lemma_decimal_digits(n);
        assert(is_digit(decimal(n)[0]));
    }
}

/// Every 64-bit number is read back from what `render` writes for it.
pub proof fn lemma_parse_i64_render(v: i64)
    ensures
        parse_i64_spec(render(v as int)) == Some(v),
{
    lemma_parse_render(v as int);
}

/// Reads a signed 64-bit decimal number. `None` where `s` is not a decimal
/// integer or does not fit.
pub fn parse_i64(s: &[u8]) -> (r: Option<i64>)
    ensures
        r == parse_i64_spec(s@),
{
    let n = s.len();
    if n == 0 {
        return None;
    }
    let negative = s[0] == MINUS;
    let start: usize = if s[0] == MINUS || s[0] == PLUS {
        1
    } else {
        0
    };
    if start == n {
        assert(s@.drop_first().len() == 0);
        return None;
    }
    let ghost d = s@.subrange(start as int, n as int);
    assert(start == 1 ==> d =~= s@.drop_first());
    assert(start == 0 ==> d =~= s@);
    assert(!all_digits(d) ==> parse_i64_spec(s@) is None);
    assert(all_digits(d) ==> parse_decimal(s@) == Some(
        if negative {
            -(digits_value(d) as int)
        } else {
            digits_value(d) as int
        },
    ));
    let mut acc: u64 = 0;
    let mut i: usize = start;
    while i < n
        invariant
            start <= i <= n,
            n == s@.len(),
            d == s@.subrange(start as int, n as int),
            !all_digits(d) ==> parse_i64_spec(s@) is None,
            all_digits(d) && digits_value(d) > 0x8000_0000_0000_0000 ==> parse_i64_spec(s@) is None,
            all_digits(d.subrange(0, i - start)),
            acc == digits_value(d.subrange(0, i - start)),
            acc <= 0x8000_0000_0000_0000,
        decreases n - i,
    {
        let b = s[i];
        let ghost before = d.subrange(0, i - start);
        let ghost after = d.subrange(0, i - start + 1);
        assert(after.drop_last() =~= before);
        assert(after.last() == b);
        if !(DIGIT_ZERO <= b && b <= DIGIT_NINE) {
            assert(!is_digit(d[i - start]));
            return None;
        }
        assert forall|j: int| 0 <= j < after.len() implies is_digit(#[trigger] after[j]) by {
            if j < before.len() {
                assert(after[j] == before[j]);
            }
        }
        let digit: u64 = (b - DIGIT_ZERO) as u64;
        if acc > 922337203685477580 || (acc == 922337203685477580 && digit > 8) {
            // The digits read so far already exceed every 64-bit magnitude.
            proof {
                assert(digits_value(after) > 0x8000_0000_0000_0000);
                if all_digits(d) {
                    lemma_digits_value_prefix(d, i - start + 1);
                }
            }
            return None;
        }
        acc = acc * 10 + digit;
        i += 1;
    }
    assert(d.subrange(0, n - start) =~= d);
    if negative {
        if acc == 0x8000_0000_0000_0000 {
            Some(i64::MIN)
        } else {
            Some(-(acc as i64))
        }
    } else if acc == 0x8000_0000_0000_0000 {
        None
    } else {
        Some(acc as i64)
    }
}

/// Appends the digits of `n` to `out`.
fn push_decimal(out: &mut Vec<u8>, n: u64)
    ensures
        final(out)@ == old(out)@ + decimal(n as nat),
    decreases n,
{
    if n >= 10 {
        push_decimal(out, n / 10);
    }
    out.push(DIGIT_ZERO + (n % 10) as u8);
    assert(final(out)@ =~= old(out)@ + decimal(n as nat));
}

/// Writes `v` in decimal.
pub fn render_i64(v: i64) -> (out: Vec<u8>)
    ensures
        out@ == render(v as int),
{
    let mut out: Vec<u8> = Vec::new();
    if v < 0 {
        out.push(MINUS);
        let magnitude: u64 = ((-(v + 1)) as u64) + 1;
        push_decimal(&mut out, magnitude);
    } else {
        push_decimal(&mut out, v as u64);
    }
    assert(out@ =~= render(v as int));
    out
}

/// ASCII bytes as text.
pub open spec fn text_of(bytes: Seq<u8>) -> Seq<char> {
    bytes.map_values(|b: u8| b as char)
}

/// Writes `v` in decimal, as text.
pub fn decimal_text(v: i64) -> (text: String)
    ensures
        text@ == text_of(render(v as int)),
{
    let digits = render_i64(v);
    let mut text = String::new();
    let mut i: usize = 0;
    while i < digits.len()
        invariant
            i <= digits.len(),
            text@ == text_of(digits@.take(i as int)),
        decreases digits.len() - i,
    {
        text.push(digits[i] as char);
        assert(text_of(digits@.take(i + 1)) =~= text_of(digits@.take(i as int)).push(
            digits@[i as int] as char,
        ));
        i += 1;
    }
    assert(digits@.take(digits.len() as int) =~= digits@);
    text
}

} // verus!
