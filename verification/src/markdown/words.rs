//! Words and shapes of lines.

use crate::text::{
    characters, chars_start_with, contains, contains_chars, matches_at, occurs_at, part, starts_with, text_of,
    trim_back, trim_front, without_back_space, without_front_space,
};
use crate::unicode::{alphabetic, is_white_space, lowercase, numeric, white_space};
use vstd::prelude::*;

verus! {

/// The words of a text with one space between any two.
pub open spec fn squeezed(s: Seq<char>) -> Seq<char>
    decreases s.len(),
{
    if s.len() == 0 {
        Seq::empty()
    } else {
        let before = squeezed(s.drop_last());
        let c = s.last();
        if white_space(c) {
            before
        } else if before.len() > 0 && white_space(s[s.len() - 2]) {
            before.push(' ').push(c)
        } else {
            before.push(c)
        }
    }
}

/// The number of words in a text.
pub open spec fn word_count(s: Seq<char>) -> nat
    decreases s.len(),
{
    if s.len() == 0 {
        0
    } else {
        let starts = !white_space(s.last()) && (s.len() == 1 || white_space(s[s.len() - 2]));
        word_count(s.drop_last()) + if starts {
            1nat
        } else {
            0nat
        }
    }
}

fn squeeze(s: &Vec<char>) -> (r: Vec<char>)
    ensures
        r@ == squeezed(s@),
{
    let mut out: Vec<char> = Vec::new();
    let mut i: usize = 0;
    assert(out@ =~= squeezed(s@.take(0)));
    while i < s.len()
        invariant
            i <= s@.len(),
            out@ == squeezed(s@.take(i as int)),
        decreases s@.len() - i,
    {
        let c: char = s[i];
        proof {
            let longer = s@.take(i + 1);
            assert(longer.drop_last() =~= s@.take(i as int));
            assert(i > 0 ==> longer[longer.len() - 2] == s@[i - 1]);
        }
        if !is_white_space(c) {
            if out.len() > 0 && i > 0 && is_white_space(s[i - 1]) {
                out.push(' ');
            }
            proof {
                if i == 0 {
                    assert(squeezed(s@.take(0)).len() == 0);
                }
            }
            out.push(c);
        }
        i += 1;
    }
    assert(s@.take(s@.len() as int) =~= s@);
    out
}

/// Trims a text and makes its runs of white space single spaces.
pub fn normalize_whitespace(s: &str) -> (r: String)
    ensures
        r@ == squeezed(s@),
{
    text_of(&squeeze(&characters(s)))
}

/// Counts the words of a text.
pub fn count_words(s: &Vec<char>) -> (r: usize)
    ensures
        r == word_count(s@),
        r <= s@.len(),
{
    let mut count: usize = 0;
    let mut i: usize = 0;
    while i < s.len()
        invariant
            i <= s@.len(),
            count <= i,
            count == word_count(s@.take(i as int)),
        decreases s@.len() - i,
    {
        proof {
            let longer = s@.take(i + 1);
            assert(longer.drop_last() =~= s@.take(i as int));
            assert(i > 0 ==> longer[longer.len() - 2] == s@[i - 1]);
        }
        if !is_white_space(s[i]) && (i == 0 || is_white_space(s[i - 1])) {
            count += 1;
        }
        i += 1;
    }
    assert(s@.take(s@.len() as int) =~= s@);
    count
}

/// A text without the numeric characters at its start.
pub open spec fn without_front_numbers(s: Seq<char>) -> Seq<char>
    decreases s.len(),
{
    if s.len() > 0 && numeric(s[0]) {
        without_front_numbers(s.drop_first())
    } else {
        s
    }
}

/// A text without the numeric characters at its end.
pub open spec fn without_back_numbers(s: Seq<char>) -> Seq<char>
    decreases s.len(),
{
    if s.len() > 0 && numeric(s.last()) {
        without_back_numbers(s.drop_last())
    } else {
        s
    }
}

/// A text as it is compared between pages: its words, without page numbers at
/// either end.
pub open spec fn comparable(s: Seq<char>) -> Seq<char> {
    trim_back(without_back_numbers(trim_front(without_front_numbers(squeezed(s)))))
}

fn drop_front_numbers(s: &Vec<char>) -> (r: Vec<char>)
    ensures
        r@ == without_front_numbers(s@),
{
    let mut from: usize = 0;
    assert(s@.skip(0) =~= s@);
    while from < s.len()
        invariant
            from <= s@.len(),
            without_front_numbers(s@) == without_front_numbers(s@.skip(from as int)),
        decreases s@.len() - from,
    {
        let c: char = s[from];
        assert(s@.skip(from as int)[0] == c);
        if !c.is_numeric() {
            assert(s@.skip(from as int) =~= s@.subrange(from as int, s@.len() as int));
            return part(s, from, s.len());
        }
        assert(s@.skip(from as int).drop_first() =~= s@.skip(from + 1));
        from += 1;
    }
    assert(s@.skip(from as int) =~= s@.subrange(from as int, s@.len() as int));
    part(s, from, s.len())
}

fn drop_back_numbers(s: &Vec<char>) -> (r: Vec<char>)
    ensures
        r@ == without_back_numbers(s@),
{
    let mut to: usize = s.len();
    assert(s@.take(s@.len() as int) =~= s@);
    while to > 0
        invariant
            to <= s@.len(),
            without_back_numbers(s@) == without_back_numbers(s@.take(to as int)),
        decreases to,
    {
        let c: char = s[to - 1];
        assert(s@.take(to as int).last() == c);
        if !c.is_numeric() {
            assert(s@.take(to as int) =~= s@.subrange(0, to as int));
            return part(s, 0, to);
        }
        assert(s@.take(to as int).drop_last() =~= s@.take(to - 1));
        to -= 1;
    }
    assert(s@.take(0) =~= s@.subrange(0, 0));
    part(s, 0, to)
}

/// Normalizes a text for comparison between pages.
pub fn normalize_for_comparison(s: &str) -> (r: String)
    ensures
        r@ == comparable(s@),
{
    let words = squeeze(&characters(s));
    let front = without_front_space(&drop_front_numbers(&words));
    let back = without_back_space(&drop_back_numbers(&front));
    text_of(&back)
}

/// The number of letters and digits from the position `i` on, up to the first
/// other character.
pub open spec fn alphanumerics_from(s: Seq<char>, i: int) -> nat
    decreases s.len() - i,
{
    if 0 <= i < s.len() && (alphabetic(s[i]) || numeric(s[i])) {
        1 + alphanumerics_from(s, i + 1)
    } else {
        0
    }
}

/// An annotation marker in parentheses: up to three digits or small letters.
pub open spec fn paren_marker(s: Seq<char>) -> bool {
    let n = alphanumerics_from(s, 1);
    &&& starts_with(s, '(')
    &&& 0 < n <= 3
    &&& forall|i: int| 1 <= i <= n ==> numeric(#[trigger] s[i]) || lowercase(s[i])
    &&& n + 1 < s.len() && s[(n + 1) as int] == ')'
}

/// Whether a text starts with an annotation marker in parentheses.
pub fn starts_with_paren_marker(text: &str) -> (r: bool)
    ensures
        r == paren_marker(text@),
{
    let s = characters(text);
    if s.len() == 0 || s[0] != '(' {
        return false;
    }
    let mut n: usize = 0;
    let mut plain = true;
    while n + 1 < s.len()
        invariant_except_break
            s@.len() > 0,
            n < s@.len(),
            alphanumerics_from(s@, 1) == n + alphanumerics_from(s@, n + 1),
            plain == (forall|i: int| 1 <= i <= n ==> numeric(#[trigger] s@[i]) || lowercase(s@[i])),
        ensures
            n < s@.len(),
            alphanumerics_from(s@, 1) == n,
            plain == (forall|i: int| 1 <= i <= n ==> numeric(#[trigger] s@[i]) || lowercase(s@[i])),
        decreases s@.len() - n,
    {
        let c: char = s[n + 1];
        if !(c.is_alphabetic() || c.is_numeric()) {
            break;
        }
        let fits = c.is_numeric() || c.is_lowercase();
        assert(s@[n + 1] == c);
        plain = plain && fits;
        n += 1;
    }
    plain && n > 0 && n <= 3 && n + 1 < s.len() && s[n + 1] == ')'
}

/// A numbered entry: a number first, and a stop or a closing parenthesis before
/// a space somewhere.
pub open spec fn numbered(t: Seq<char>) -> bool {
    t.len() > 0 && numeric(t[0]) && (contains(t, ". "@) || contains(t, ") "@))
}

/// A line that is a list item, a heading or an annotation.
pub open spec fn structural(s: Seq<char>) -> bool {
    let t = trim_front(s);
    ||| starts_with(t, '#')
    ||| occurs_at(t, "- "@, 0)
    ||| occurs_at(t, "* "@, 0)
    ||| occurs_at(t, "\u{2022} "@, 0)
    ||| numbered(t)
    ||| paren_marker(t)
}

/// Whether a line is a list item, a heading or an annotation, which is never
/// stripped.
pub fn is_structural_line(text: &str) -> (r: bool)
    ensures
        r == structural(text@),
{
    let t = without_front_space(&characters(text));
    let is_numbered = if t.len() > 0 {
        let c: char = t[0];
        c.is_numeric() && (contains_chars(&t, &characters(". ")) || contains_chars(&t, &characters(") ")))
    } else {
        false
    };
    chars_start_with(&t, '#') || matches_at(&t, &characters("- "), 0) || matches_at(&t, &characters("* "), 0)
        || matches_at(&t, &characters("\u{2022} "), 0) || is_numbered || starts_with_paren_marker(&text_of(&t))
}

/// A line of a single repeated character.
pub open spec fn decorative(s: Seq<char>) -> bool {
    s.len() > 0 && forall|i: int| 0 <= i < s.len() ==> #[trigger] s[i] == s[0]
}

/// Whether a line is made of a single repeated character.
pub fn is_decorative_separator(text: &str) -> (r: bool)
    ensures
        r == decorative(text@),
{
    let s = characters(text);
    if s.len() == 0 {
        return false;
    }
    let first: char = s[0];
    let mut i: usize = 0;
    while i < s.len()
        invariant
            i <= s@.len(),
            s@ == text@,
            s@.len() > 0,
            first == s@[0],
            forall|j: int| 0 <= j < i ==> #[trigger] s@[j] == s@[0],
        decreases s@.len() - i,
    {
        if s[i] != first {
            return false;
        }
        i += 1;
    }
    true
}

/// Normalizing white space twice changes nothing more.
pub proof fn law_normalized_whitespace_is_stable(s: Seq<char>)
    ensures
        squeezed(squeezed(s)) == squeezed(s),
{
    lemma_squeezed_shape(s);
    lemma_squeezed_keeps(squeezed(s));
}

/// No white space at the ends, and between words single spaces only.
pub open spec fn squeezed_shape(s: Seq<char>) -> bool {
    &&& s.len() > 0 ==> !white_space(s[0]) && !white_space(s.last())
    &&& forall|i: int| 0 <= i < s.len() && white_space(#[trigger] s[i]) ==> s[i] == ' ' && !white_space(s[i + 1])
}

proof fn lemma_squeezed_shape(s: Seq<char>)
    ensures
        squeezed_shape(squeezed(s)),
    decreases s.len(),
{
    if s.len() > 0 {
        lemma_squeezed_shape(s.drop_last());
        let before = squeezed(s.drop_last());
        let after = squeezed(s);
        assert forall|i: int| 0 <= i < after.len() && white_space(#[trigger] after[i]) implies after[i] == ' '
            && !white_space(after[i + 1]) by {
            if i < before.len() {
                assert(after[i] == before[i]);
                if i + 1 < before.len() {
                    assert(after[i + 1] == before[i + 1]);
                }
            }
        }
    }
}

pub(crate) proof fn lemma_squeezed_keeps(s: Seq<char>)
    requires
        s.len() > 0 ==> !white_space(s[0]),
        forall|i: int| 0 <= i < s.len() - 1 && white_space(#[trigger] s[i]) ==> s[i] == ' ' && !white_space(s[i + 1]),
    ensures
        squeezed(s) == if s.len() > 0 && white_space(s.last()) {
            s.drop_last()
        } else {
            s
        },
    decreases s.len(),
{
    if s.len() > 0 {
        let t = s.drop_last();
        assert forall|i: int| 0 <= i < t.len() - 1 && white_space(#[trigger] t[i]) implies t[i] == ' '
            && !white_space(t[i + 1]) by {
            assert(s[i] == t[i] && s[i + 1] == t[i + 1]);
        }
        lemma_squeezed_keeps(t);
        if s.len() > 1 {
            assert(t.last() == s[s.len() - 2]);
            if white_space(s[s.len() - 2]) {
                assert(t.len() > 1) by {
                    if t.len() == 1 {
                        assert(s[0] == t.last());
                    }
                }
                assert(!white_space(s.last()));
                assert(t.drop_last().push(' ').push(s.last()) =~= s);
            } else {
                assert(t.push(s.last()) =~= s);
            }
        } else {
            assert(t.push(s.last()) =~= s);
        }
    }
}

} // verus!
