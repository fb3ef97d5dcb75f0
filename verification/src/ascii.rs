//! The ASCII bytes that the wire and the store file are made of, and the
//! search for one of them.

use vstd::prelude::*;

verus! {

pub const TAB: u8 = 0x09;

pub const LINE_FEED: u8 = 0x0a;

pub const FORM_FEED: u8 = 0x0c;

pub const CARRIAGE_RETURN: u8 = 0x0d;

pub const SPACE: u8 = 0x20;

pub const PLUS: u8 = 0x2b;

pub const MINUS: u8 = 0x2d;

pub const DIGIT_ZERO: u8 = 0x30;

pub const DIGIT_NINE: u8 = 0x39;

pub const COLON: u8 = 0x3a;

/// The first position from `i` on that holds `b`; the length of `s` where
/// none does.
pub open spec fn find_byte(s: Seq<u8>, b: u8, i: int) -> int
    decreases s.len() - i,
{
    if 0 <= i < s.len() && s[i] != b {
        find_byte(s, b, i + 1)
    } else {
        i
    }
}

/// `find_byte` stays within the text; before what it finds, `b` does not
/// occur.
pub proof fn lemma_find_byte(s: Seq<u8>, b: u8, i: int)
    requires
        0 <= i <= s.len(),
    ensures
        i <= find_byte(s, b, i) <= s.len(),
        find_byte(s, b, i) < s.len() ==> s[find_byte(s, b, i)] == b,
        forall|j: int| i <= j < find_byte(s, b, i) ==> s[j] != b,
    decreases s.len() - i,
{
    if i < s.len() && s[i] != b {
        lemma_find_byte(s, b, i + 1);
    }
}

/// Finds the first `b` in `s` from `i` on.
pub(crate) fn position(s: &[u8], b: u8, i: usize) -> (j: usize)
    requires
        i <= s.len(),
    ensures
        j == find_byte(s@, b, i as int),
        i <= j <= s.len(),
{
    let mut j = i;
    while j < s.len() && s[j] != b
        invariant
            i <= j <= s.len(),
            find_byte(s@, b, i as int) == find_byte(s@, b, j as int),
        decreases s.len() - j,
    {
        j += 1;
    }
    j
}

} // verus!
