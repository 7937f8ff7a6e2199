//! Which texts read as decimal numbers with a fraction and an exponent.

use crate::text::{equals_ignoring_case, is_digit, same_but_case};
use vstd::prelude::*;
use vstd::string::*;

verus! {

/// Where the digits that begin at `i` end.
pub open spec fn digits_end(text: Seq<char>, i: int) -> int
    decreases text.len() - i,
{
    if 0 <= i < text.len() && is_digit(text[i]) {
        digits_end(text, i + 1)
    } else {
        i
    }
}

pub open spec fn is_sign(c: char) -> bool {
    c == '+' || c == '-'
}

/// Where a text goes on behind a sign at `i`, if there is one.
pub open spec fn behind_sign(text: Seq<char>, i: int) -> int {
    if i < text.len() && is_sign(text[i]) {
        i + 1
    } else {
        i
    }
}

/// Where a fraction that begins at `i` ends: digits, a point, digits, with a digit on
/// one side of the point at least; the point may be missing.
pub open spec fn fraction_end(text: Seq<char>, i: int) -> Option<int> {
    let a = digits_end(text, i);
    if a < text.len() && text[a] == '.' {
        let b = digits_end(text, a + 1);
        if a == i && b == a + 1 {
            None
        } else {
            Some(b)
        }
    } else if a == i {
        None
    } else {
        Some(a)
    }
}

/// From `i` on there is nothing, or an `e` with a whole number behind it.
pub open spec fn is_exponent(text: Seq<char>, i: int) -> bool {
    i == text.len() || ((text[i] == 'e' || text[i] == 'E') && ({
        let a = behind_sign(text, i + 1);
        a < text.len() && digits_end(text, a) == text.len()
    }))
}

/// A number: a sign or none, then `inf`, `infinity` or `nan` in any case, or a
/// fraction with an exponent or without.
pub open spec fn is_numeral(text: Seq<char>) -> bool {
    let i = behind_sign(text, 0);
    let word = text.skip(i);
    ||| same_but_case(word, "inf"@)
    ||| same_but_case(word, "infinity"@)
    ||| same_but_case(word, "nan"@)
    ||| match fraction_end(text, i) {
        Some(e) => is_exponent(text, e),
        None => false,
    }
}

fn skip_digits(text: &str, from: usize) -> (r: usize)
    requires
        from <= text@.len(),
    ensures
        r == digits_end(text@, from as int),
        from <= r <= text@.len(),
{
    let n: usize = text.unicode_len();
    let mut i: usize = from;
    while i < n && '0' <= text.get_char(i) && text.get_char(i) <= '9'
        invariant
            from <= i <= n,
            n == text@.len(),
            digits_end(text@, from as int) == digits_end(text@, i as int),
        decreases n - i,
    {
        i += 1;
    }
    i
}

fn skip_sign(text: &str, i: usize) -> (r: usize)
    requires
        i <= text@.len(),
    ensures
        r == behind_sign(text@, i as int),
        r <= text@.len(),
{
    if i < text.unicode_len() && (text.get_char(i) == '+' || text.get_char(i) == '-') {
        i + 1
    } else {
        i
    }
}

/// Tells whether a text reads as a number.
pub fn reads_as_number(text: &str) -> (r: bool)
    ensures
        r == is_numeral(text@),
{
    let n: usize = text.unicode_len();
    let from: usize = skip_sign(text, 0);
    let word: &str = text.substring_char(from, n);
    assert(word@ =~= text@.skip(from as int));
    if equals_ignoring_case(word, "inf") || equals_ignoring_case(word, "infinity")
        || equals_ignoring_case(word, "nan") {
        return true;
    }
    let whole: usize = skip_digits(text, from);
    let mut end: usize = whole;
    if whole < n && text.get_char(whole) == '.' {
        end = skip_digits(text, whole + 1);
        if whole == from && end == whole + 1 {
            return false;
        }
    } else if whole == from {
        return false;
    }
    if end == n {
        return true;
    }
    let c: char = text.get_char(end);
    if c != 'e' && c != 'E' {
        return false;
    }
    let power: usize = skip_sign(text, end + 1);
    power < n && skip_digits(text, power) == n
}

} // verus!
