//! Measures of text items and shapes of lines.

use crate::single::Single;
use crate::text::{
    ascii_lowered, characters, lower_ascii, matches_at, occurs_at, part, same_chars, trim_chars, trimmed,
};
use crate::types::{ItemView, TextItem, HALF_BITS};
use crate::unicode::{ascii_digit, is_ascii_digit, is_white_space, white_space};
use vstd::prelude::*;

verus! {

/// The width of an item: its own where it has one, else half an em for each
/// character.
pub open spec fn width_or_estimate(item: ItemView) -> Single {
    if (Single { bits: 0 }).spec_less(item.width) {
        item.width
    } else {
        Single::spec_from_natural(item.text.len()).spec_times(item.font_size).spec_times(Single { bits: HALF_BITS })
    }
}

pub fn effective_width(item: &TextItem) -> (r: Single)
    ensures
        r == width_or_estimate(item@),
{
    if Single::zero().less(item.width) {
        item.width
    } else {
        let count: usize = characters(&item.text).len();
        Single::from_natural(count as u64).times(item.font_size).times(Single { bits: HALF_BITS })
    }
}

/// All characters are ASCII digits.
pub open spec fn all_digits(s: Seq<char>) -> bool {
    forall|i: int| 0 <= i < s.len() ==> ascii_digit(#[trigger] s[i])
}

/// The number of ASCII digits from the position `i` on, up to the first other
/// character.
pub open spec fn digits_from(s: Seq<char>, i: int) -> nat
    decreases s.len() - i,
{
    if 0 <= i < s.len() && ascii_digit(s[i]) {
        1 + digits_from(s, i + 1)
    } else {
        0
    }
}

pub fn are_all_digits(s: &Vec<char>) -> (r: bool)
    ensures
        r == all_digits(s@),
{
    let mut i: usize = 0;
    while i < s.len()
        invariant
            i <= s@.len(),
            forall|j: int| 0 <= j < i ==> ascii_digit(#[trigger] s@[j]),
        decreases s@.len() - i,
    {
        if !is_ascii_digit(s[i]) {
            return false;
        }
        i += 1;
    }
    true
}

fn count_digits(s: &Vec<char>) -> (r: usize)
    ensures
        r == digits_from(s@, 0),
        r <= s@.len(),
{
    let mut i: usize = 0;
    while i < s.len() && is_ascii_digit(s[i])
        invariant
            i <= s@.len(),
            digits_from(s@, 0) == i + digits_from(s@, i as int),
        decreases s@.len() - i,
    {
        i += 1;
    }
    i
}

/// The label of a running header: the word page, in any case, and behind it
/// either a number that stands alone or the word of.
pub open spec fn page_label(s: Seq<char>) -> bool {
    let lowered = ascii_lowered(s);
    let rest = trimmed(lowered.skip(4));
    let n = digits_from(rest, 0);
    &&& occurs_at(lowered, "page"@, 0)
    &&& {
        ||| rest == "of"@
        ||| occurs_at(rest, "of "@, 0)
        ||| n > 0 && (n == rest.len() || white_space(rest[n as int]))
    }
}

/// Two numbers with the word of between them.
pub open spec fn number_of_number(s: Seq<char>) -> bool {
    let n = digits_from(s, 0);
    let rest = s.skip((n + 4) as int);
    n > 0 && occurs_at(s, " of "@, n as int) && rest.len() > 0 && all_digits(rest)
}

/// A number between dashes.
pub open spec fn dashed_number(s: Seq<char>) -> bool {
    let inner = trimmed(s.subrange(1, s.len() - 1));
    s.len() >= 2 && s[0] == '-' && s.last() == '-' && inner.len() > 0 && all_digits(inner)
}

/// A line that holds a page number.
pub open spec fn page_number_line(s: Seq<char>) -> bool {
    ||| 1 <= s.len() <= 4 && all_digits(s)
    ||| page_label(s)
    ||| number_of_number(s)
    ||| dashed_number(s)
}

fn is_page_label(text: &str) -> (r: bool)
    ensures
        r == page_label(text@),
{
    let lowered = lower_ascii(text);
    if !matches_at(&lowered, &characters("page"), 0) {
        return false;
    }
    proof {
        reveal_strlit("page");
        assert(lowered@.skip(4) =~= lowered@.subrange(4, lowered@.len() as int));
    }
    let rest = trim_chars(&part(&lowered, 4, lowered.len()));
    let n = count_digits(&rest);
    same_chars(&rest, &characters("of")) || matches_at(&rest, &characters("of "), 0) || (n > 0 && (n == rest.len()
        || is_white_space(rest[n])))
}

fn is_number_of_number(s: &Vec<char>) -> (r: bool)
    ensures
        r == number_of_number(s@),
{
    let n = count_digits(s);
    let total: usize = s.len();
    if n == 0 || !matches_at(s, &characters(" of "), n) {
        return false;
    }
    proof {
        reveal_strlit(" of ");
        assert(s@.skip(n + 4) =~= s@.subrange(n + 4, s@.len() as int));
    }
    let rest = part(s, n + 4, total);
    rest.len() > 0 && are_all_digits(&rest)
}

fn is_dashed_number(s: &Vec<char>) -> (r: bool)
    ensures
        r == dashed_number(s@),
{
    if s.len() < 2 || s[0] != '-' || s[s.len() - 1] != '-' {
        return false;
    }
    let inner = trim_chars(&part(s, 1, s.len() - 1));
    inner.len() > 0 && are_all_digits(&inner)
}

/// Whether a trimmed line holds a page number: one to four digits, a number
/// with the label page, two numbers around the word of, or a number between
/// dashes.
pub fn is_page_number_line(text: &str) -> (r: bool)
    ensures
        r == page_number_line(text@),
{
    let s = characters(text);
    (s.len() >= 1 && s.len() <= 4 && are_all_digits(&s)) || is_page_label(text) || is_number_of_number(&s)
        || is_dashed_number(&s)
}

} // verus!
