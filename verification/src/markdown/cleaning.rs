//! What cleaning Markdown up keeps.

use crate::lines::split;
use crate::markdown::postprocess::{
    collapsed, collapsed_line, collapsed_lines, lemma_single_spaced_keeps, lemma_trim_front_is_suffix, paragraphs,
    rewritten, single_spaced, three_newlines_at, tidied, two_spaces_at, without_bracket_space,
    without_punctuation_space,
};
use crate::markdown::{MarkdownOptions, MarkdownProfile};
use crate::text::{trim_back, trim_front, trimmed};
use crate::unicode::white_space;
use vstd::prelude::*;

verus! {

/// Text with no three newlines in a row keeps its newlines: breaks between
/// paragraphs survive.
pub proof fn law_paragraph_breaks_survive(s: Seq<char>)
    requires
        forall|i: int| !three_newlines_at(s, i),
    ensures
        paragraphs(s) == s,
    decreases s.len(),
{
    if s.len() > 0 {
        let front = s.drop_last();
        assert forall|i: int| !three_newlines_at(front, i) by {
            assert(!three_newlines_at(s, i));
        }
        law_paragraph_breaks_survive(front);
        assert(!three_newlines_at(s, s.len() - 3));
        assert(front.push(s.last()) =~= s);
    } else {
        assert(paragraphs(s) =~= s);
    }
}

/// A run of newlines.
pub open spec fn newlines(n: nat) -> Seq<char> {
    Seq::new(n, |i: int| '\n')
}

proof fn lemma_newline_added(s: Seq<char>)
    requires
        s.len() >= 2,
        s.last() == '\n',
        s[s.len() - 2] == '\n',
    ensures
        paragraphs(s.push('\n')) == paragraphs(s),
{
    lemma_ends_with_break(s);
    assert(s.push('\n').drop_last() =~= s);
}

proof fn lemma_ends_with_break(s: Seq<char>)
    requires
        s.len() >= 2,
        s.last() == '\n',
        s[s.len() - 2] == '\n',
    ensures
        paragraphs(s).len() >= 2,
        paragraphs(s).last() == '\n',
        paragraphs(s)[paragraphs(s).len() - 2] == '\n',
{
    let front = s.drop_last();
    lemma_last_stays(front);
    assert(front.last() == s[s.len() - 2]);
}

proof fn lemma_last_stays(s: Seq<char>)
    ensures
        s.len() > 0 ==> paragraphs(s).len() > 0 && paragraphs(s).last() == s.last(),
    decreases s.len(),
{
    if s.len() > 0 {
        lemma_last_stays(s.drop_last());
    }
}

proof fn lemma_same_continuation(s: Seq<char>, t: Seq<char>, rest: Seq<char>)
    requires
        paragraphs(s) == paragraphs(t),
    ensures
        paragraphs(s + rest) == paragraphs(t + rest),
    decreases rest.len(),
{
    if rest.len() == 0 {
        assert(s + rest =~= s && t + rest =~= t);
    } else {
        lemma_same_continuation(s, t, rest.drop_last());
        assert((s + rest).drop_last() =~= s + rest.drop_last());
        assert((t + rest).drop_last() =~= t + rest.drop_last());
    }
}

/// A longer run of newlines counts as two: as one paragraph break.
pub proof fn law_long_breaks_are_paragraph_breaks(before: Seq<char>, n: nat, after: Seq<char>)
    requires
        n >= 2,
    ensures
        paragraphs(before + newlines(n) + after) == paragraphs(before + newlines(2) + after),
    decreases n,
{
    if n > 2 {
        law_long_breaks_are_paragraph_breaks(before, (n - 1) as nat, after);
        let short = before + newlines((n - 1) as nat);
        assert(before + newlines(n) =~= short.push('\n'));
        lemma_newline_added(short);
        lemma_same_continuation(short.push('\n'), short, after);
    }
}

/// A text without its white space.
pub open spec fn visible(s: Seq<char>) -> Seq<char>
    decreases s.len(),
{
    if s.len() == 0 {
        Seq::empty()
    } else if white_space(s.last()) {
        visible(s.drop_last())
    } else {
        visible(s.drop_last()).push(s.last())
    }
}

proof fn lemma_visible_pushed(s: Seq<char>, c: char)
    ensures
        visible(s.push(c)) == if white_space(c) {
            visible(s)
        } else {
            visible(s).push(c)
        },
{
    assert(s.push(c).drop_last() =~= s);
}

pub(crate) proof fn lemma_visible_sum(a: Seq<char>, b: Seq<char>)
    ensures
        visible(a + b) == visible(a) + visible(b),
    decreases b.len(),
{
    if b.len() == 0 {
        assert(a + b =~= a);
        assert(visible(a) + visible(b) =~= visible(a));
    } else {
        lemma_visible_sum(a, b.drop_last());
        assert((a + b).drop_last() =~= a + b.drop_last());
        if !white_space(b.last()) {
            assert(visible(a + b) =~= visible(a) + visible(b));
        }
    }
}

proof fn lemma_single_spacing_keeps_visible(s: Seq<char>)
    ensures
        visible(single_spaced(s)) == visible(s),
    decreases s.len(),
{
    if s.len() > 0 {
        lemma_single_spacing_keeps_visible(s.drop_last());
        lemma_visible_pushed(single_spaced(s.drop_last()), s.last());
    }
}

proof fn lemma_collapsing_keeps_visible(line: Seq<char>)
    ensures
        visible(collapsed_line(line)) == visible(line),
{
    let content = trim_front(line);
    lemma_trim_front_is_suffix(line);
    let front = line.take(line.len() - content.len());
    assert(line =~= front + content);
    lemma_visible_sum(front, content);
    lemma_visible_sum(front, single_spaced(content));
    lemma_single_spacing_keeps_visible(content);
}

/// The visible text of the first `n` lines.
spec fn visible_lines(lines: Seq<Seq<char>>, n: nat) -> Seq<char>
    decreases n,
{
    if n == 0 {
        Seq::empty()
    } else {
        visible_lines(lines, (n - 1) as nat) + visible(lines[n - 1])
    }
}

proof fn lemma_collapsed_lines_visible(lines: Seq<Seq<char>>, n: nat)
    requires
        n <= lines.len(),
    ensures
        visible(collapsed_lines(lines, n)) == visible_lines(lines, n),
    decreases n,
{
    if n > 0 {
        lemma_collapsed_lines_visible(lines, (n - 1) as nat);
        let before = collapsed_lines(lines, (n - 1) as nat);
        lemma_visible_pushed(before, '\n');
        lemma_visible_sum(before, collapsed_line(lines[n - 1]));
        lemma_visible_sum(before.push('\n'), collapsed_line(lines[n - 1]));
        lemma_collapsing_keeps_visible(lines[n - 1]);
    }
}

proof fn lemma_visible_lines_same(a: Seq<Seq<char>>, b: Seq<Seq<char>>, n: nat)
    requires
        n <= a.len(),
        n <= b.len(),
        forall|i: int| 0 <= i < n ==> a[i] == b[i],
    ensures
        visible_lines(a, n) == visible_lines(b, n),
    decreases n,
{
    if n > 0 {
        lemma_visible_lines_same(a, b, (n - 1) as nat);
    }
}

proof fn lemma_split_visible(s: Seq<char>)
    ensures
        split(s).len() > 0,
        visible_lines(split(s), split(s).len()) == visible(s),
    decreases s.len(),
{
    let parts = split(s);
    if s.len() == 0 {
        assert(visible_lines(parts, 0) =~= Seq::empty());
        assert(parts[0] =~= Seq::empty());
        assert(visible_lines(parts, 1) =~= visible(s));
    } else {
        lemma_split_visible(s.drop_last());
        let before = split(s.drop_last());
        let n = before.len();
        if s.last() == '\n' {
            lemma_visible_lines_same(parts, before, n);
            assert(parts[n as int] =~= Seq::empty());
            assert(visible_lines(parts, (n + 1) as nat) =~= visible_lines(before, n));
        } else {
            lemma_visible_lines_same(parts, before, (n - 1) as nat);
            lemma_visible_pushed(before.last(), s.last());
            assert(parts[n - 1] == before.last().push(s.last()));
            let front = visible_lines(before, (n - 1) as nat);
            assert(visible_lines(parts, n) == front + visible(parts[n - 1]));
            assert(visible_lines(before, n) == front + visible(before[n - 1]));
            if white_space(s.last()) {
                assert(visible_lines(parts, n) =~= visible(s));
            } else {
                assert(front + visible(before.last()).push(s.last()) =~= (front + visible(before.last())).push(
                    s.last(),
                ));
            }
        }
    }
}

proof fn lemma_brackets_keep_visible(s: Seq<char>)
    ensures
        visible(without_bracket_space(s)) == visible(s),
    decreases s.len(),
{
    if s.len() > 0 {
        lemma_brackets_keep_visible(s.drop_last());
        let before = without_bracket_space(s.drop_last());
        lemma_visible_pushed(before, s.last());
        if before.len() > 0 && before.last() == ' ' {
            lemma_visible_pushed(before.drop_last(), s.last());
            assert(before.drop_last().push(' ') =~= before);
            lemma_visible_pushed(before.drop_last(), ' ');
        }
    }
}

proof fn lemma_punctuation_keeps_visible(s: Seq<char>, n: nat)
    requires
        n <= s.len(),
    ensures
        visible(without_punctuation_space(s, n)) == visible(s.take(n as int)),
    decreases n,
{
    if n > 0 {
        lemma_punctuation_keeps_visible(s, (n - 1) as nat);
        let before = without_punctuation_space(s, (n - 1) as nat);
        let c = s[n - 1];
        assert(s.take(n as int) =~= s.take(n - 1).push(c));
        lemma_visible_pushed(s.take(n - 1), c);
        lemma_visible_pushed(before, c);
        if before.len() > 0 && before.last() == ' ' {
            lemma_visible_pushed(before.drop_last(), c);
            assert(before.drop_last().push(' ') =~= before);
            lemma_visible_pushed(before.drop_last(), ' ');
        }
    } else {
        assert(s.take(0) =~= Seq::empty());
    }
}

proof fn lemma_paragraphs_keep_visible(s: Seq<char>)
    ensures
        visible(paragraphs(s)) == visible(s),
    decreases s.len(),
{
    if s.len() > 0 {
        lemma_paragraphs_keep_visible(s.drop_last());
        lemma_visible_pushed(paragraphs(s.drop_last()), s.last());
    }
}

pub(crate) proof fn lemma_front_trimmed_visible(s: Seq<char>)
    ensures
        visible(trim_front(s)) == visible(s),
    decreases s.len(),
{
    if s.len() > 0 && white_space(s[0]) {
        lemma_front_trimmed_visible(s.drop_first());
        let first = seq![s[0]];
        assert(s =~= first + s.drop_first());
        lemma_visible_sum(first, s.drop_first());
        assert(first =~= Seq::<char>::empty().push(s[0]));
        lemma_visible_pushed(Seq::empty(), s[0]);
        assert(visible(first) =~= Seq::empty());
        assert(visible(first) + visible(s.drop_first()) =~= visible(s.drop_first()));
    }
}

proof fn lemma_back_trimmed_visible(s: Seq<char>)
    ensures
        visible(trim_back(s)) == visible(s),
    decreases s.len(),
{
    if s.len() > 0 && white_space(s.last()) {
        lemma_back_trimmed_visible(s.drop_last());
    }
}

/// Tidying changes white space alone: all other characters stay, in their
/// order, and none is added.
pub proof fn law_tidying_changes_white_space_alone(s: Seq<char>)
    ensures
        visible(collapsed(s)) == visible(s),
        visible(tidied(s)) == visible(s),
{
    lemma_split_visible(s);
    lemma_collapsed_lines_visible(split(s), split(s).len());
    lemma_brackets_keep_visible(collapsed(s));
    let brackets = without_bracket_space(collapsed(s));
    lemma_punctuation_keeps_visible(brackets, brackets.len());
    assert(brackets.take(brackets.len() as int) =~= brackets);
    let punctuation = without_punctuation_space(brackets, brackets.len());
    lemma_paragraphs_keep_visible(punctuation);
    lemma_front_trimmed_visible(paragraphs(punctuation));
    lemma_back_trimmed_visible(trim_front(paragraphs(punctuation)));
    lemma_visible_pushed(trimmed(paragraphs(punctuation)), '\n');
}

/// A space stands right before this character.
pub open spec fn space_before(s: Seq<char>, i: int) -> bool {
    0 < i < s.len() && s[i - 1] == ' '
}

/// A text with nothing to tidy: no two spaces and no three newlines in a row,
/// no space before a closing bracket or a stop, and no white space at its ends.
pub open spec fn is_tidy(s: Seq<char>) -> bool {
    &&& forall|i: int| !two_spaces_at(s, i)
    &&& forall|i: int| !three_newlines_at(s, i)
    &&& forall|i: int| #[trigger] space_before(s, i) ==> s[i] != ']' && s[i] != '.' && s[i] != ',' && s[i] != ';'
    &&& s.len() > 0 ==> !white_space(s[0]) && !white_space(s.last())
}

spec fn no_double_spaces(s: Seq<char>) -> bool {
    forall|i: int| !two_spaces_at(s, i)
}

proof fn lemma_last_piece(s: Seq<char>)
    ensures
        split(s).len() > 0,
        split(s).last().len() > 0 ==> s.len() > 0 && split(s).last().last() == s.last(),
        s.len() > 0 && s.last() != '\n' ==> split(s).last().len() > 0,
    decreases s.len(),
{
    if s.len() > 0 {
        lemma_last_piece(s.drop_last());
    }
}

proof fn lemma_pieces_singly_spaced(s: Seq<char>)
    requires
        no_double_spaces(s),
    ensures
        forall|k: int| 0 <= k < split(s).len() ==> no_double_spaces(#[trigger] split(s)[k]),
    decreases s.len(),
{
    if s.len() > 0 {
        let front = s.drop_last();
        assert(no_double_spaces(front)) by {
            assert forall|i: int| !two_spaces_at(front, i) by {
                assert(!two_spaces_at(s, i));
            }
        }
        lemma_pieces_singly_spaced(front);
        lemma_last_piece(front);
        let before = split(front);
        let after = split(s);
        assert forall|k: int| 0 <= k < after.len() implies no_double_spaces(#[trigger] after[k]) by {
            if s.last() == '\n' {
                if k < before.len() {
                    assert(after[k] == before[k]);
                } else {
                    assert(after[k] =~= Seq::empty());
                }
            } else if k < before.len() - 1 {
                assert(after[k] == before[k]);
            } else {
                let last = before[before.len() - 1];
                assert(no_double_spaces(last));
                assert(after[k] == last.push(s.last()));
                assert forall|i: int| !two_spaces_at(after[k], i) by {
                    assert(!two_spaces_at(last, i));
                    assert(!two_spaces_at(s, s.len() - 2));
                }
            }
        }
    } else {
        assert(split(s)[0] =~= Seq::empty());
    }
}

proof fn lemma_line_stays(line: Seq<char>)
    requires
        no_double_spaces(line),
    ensures
        collapsed_line(line) == line,
{
    let content = trim_front(line);
    lemma_trim_front_is_suffix(line);
    assert forall|i: int| !two_spaces_at(content, i) by {
        assert(!two_spaces_at(line, i + line.len() - content.len()));
    }
    lemma_single_spaced_keeps(content);
    assert(line.take(line.len() - content.len()) + content =~= line);
}

proof fn lemma_collapsed_same(a: Seq<Seq<char>>, b: Seq<Seq<char>>, n: nat)
    requires
        n <= a.len(),
        n <= b.len(),
        forall|i: int| 0 <= i < n ==> a[i] == b[i],
    ensures
        collapsed_lines(a, n) == collapsed_lines(b, n),
    decreases n,
{
    if n > 0 {
        lemma_collapsed_same(a, b, (n - 1) as nat);
    }
}

proof fn lemma_lines_stay(s: Seq<char>)
    requires
        forall|k: int| 0 <= k < split(s).len() ==> no_double_spaces(#[trigger] split(s)[k]),
        no_double_spaces(s),
    ensures
        collapsed(s) == s,
    decreases s.len(),
{
    let parts = split(s);
    if s.len() == 0 {
        lemma_line_stays(parts[0]);
        assert(parts[0] =~= Seq::empty());
        assert(collapsed_lines(parts, 0) =~= Seq::empty());
        assert(collapsed(s) =~= s);
    } else {
        let front = s.drop_last();
        let before = split(front);
        assert(no_double_spaces(front)) by {
            assert forall|i: int| !two_spaces_at(front, i) by {
                assert(!two_spaces_at(s, i));
            }
        }
        lemma_pieces_singly_spaced(front);
        lemma_lines_stay(front);
        lemma_last_piece(front);
        let n = before.len();
        if s.last() == '\n' {
            lemma_collapsed_same(parts, before, n);
            assert(parts[n as int] =~= Seq::empty());
            lemma_line_stays(parts[n as int]);
            assert(collapsed_lines(parts, (n + 1) as nat) =~= front.push('\n'));
            assert(front.push('\n') =~= s);
        } else {
            lemma_collapsed_same(parts, before, (n - 1) as nat);
            lemma_line_stays(before[n - 1]);
            lemma_line_stays(parts[n - 1]);
            assert(parts[n - 1] == before[n - 1].push(s.last()));
            assert(collapsed_lines(parts, n) =~= collapsed_lines(before, n).push(s.last()));
            assert(front.push(s.last()) =~= s);
        }
    }
}

proof fn lemma_brackets_stay(s: Seq<char>)
    requires
        forall|i: int| #[trigger] space_before(s, i) ==> s[i] != ']',
    ensures
        without_bracket_space(s) == s,
    decreases s.len(),
{
    if s.len() > 0 {
        let front = s.drop_last();
        assert forall|i: int| #[trigger] space_before(front, i) implies front[i] != ']' by {
            assert(space_before(s, i));
        }
        lemma_brackets_stay(front);
        if s.last() == ']' && front.len() > 0 && front.last() == ' ' {
            assert(space_before(s, s.len() - 1));
        }
        assert(front.push(s.last()) =~= s);
    } else {
        assert(without_bracket_space(s) =~= s);
    }
}

proof fn lemma_punctuation_stays(s: Seq<char>, n: nat)
    requires
        n <= s.len(),
        forall|i: int| #[trigger] space_before(s, i) ==> s[i] != '.' && s[i] != ',' && s[i] != ';',
    ensures
        without_punctuation_space(s, n) == s.take(n as int),
    decreases n,
{
    if n > 0 {
        lemma_punctuation_stays(s, (n - 1) as nat);
        let front = s.take(n - 1);
        if front.len() > 0 && front.last() == ' ' {
            assert(space_before(s, n - 1));
        }
        assert(front.push(s[n - 1]) =~= s.take(n as int));
    } else {
        assert(s.take(0) =~= Seq::empty());
    }
}

/// A tidy text stays as it is, and gets its newline at the end.
pub proof fn law_tidy_text_stays(s: Seq<char>)
    requires
        is_tidy(s),
    ensures
        tidied(s) == s.push('\n'),
        collapsed(s) == s,
{
    assert(no_double_spaces(s));
    lemma_pieces_singly_spaced(s);
    lemma_lines_stay(s);
    lemma_brackets_stay(s);
    lemma_punctuation_stays(s, s.len());
    assert(s.take(s.len() as int) =~= s);
    law_paragraph_breaks_survive(s);
    assert(trim_front(s) == s);
    assert(trim_back(s) == s);
}

/// Where nothing is to be rewritten, cleaning up leaves a tidy text as it is.
pub proof fn law_clean_text_stays(s: Seq<char>, options: MarkdownOptions)
    requires
        is_tidy(s),
        options.profile == MarkdownProfile::Fidelity,
        !options.fix_hyphenation,
        !options.remove_page_numbers,
        !options.format_urls,
    ensures
        tidied(rewritten(s, options)) == s.push('\n'),
{
    law_tidy_text_stays(s);
}

/// Trimming keeps what is visible of a text.
pub proof fn law_trimming_keeps_the_visible(s: Seq<char>)
    ensures
        visible(trimmed(s)) == visible(s),
{
    lemma_front_trimmed_visible(s);
    lemma_back_trimmed_visible(trim_front(s));
}

/// Where no two spaces stand in a row, none is left before a closing bracket.
pub proof fn law_brackets_close_their_text(s: Seq<char>)
    requires
        forall|i: int| !two_spaces_at(s, i),
    ensures
        forall|i: int| #[trigger] space_before(without_bracket_space(s), i) ==> without_bracket_space(s)[i] != ']',
        forall|i: int| !two_spaces_at(without_bracket_space(s), i),
        s.len() > 0 ==> without_bracket_space(s).len() > 0 && without_bracket_space(s).last() == s.last(),
    decreases s.len(),
{
    if s.len() > 0 {
        let front = s.drop_last();
        assert forall|i: int| !two_spaces_at(front, i) by {
            assert(!two_spaces_at(s, i));
        }
        law_brackets_close_their_text(front);
        let before = without_bracket_space(front);
        let after = without_bracket_space(s);
        assert forall|i: int| #[trigger] space_before(after, i) implies after[i] != ']' by {
            if i < after.len() - 1 {
                assert(space_before(before, i));
                assert(after[i] == before[i]);
            } else if after[i] == ']' {
                if before.len() >= 2 {
                    assert(!two_spaces_at(before, before.len() - 2));
                }
            }
        }
        assert forall|i: int| !two_spaces_at(after, i) by {
            assert(!two_spaces_at(before, i));
            assert(!two_spaces_at(s, s.len() - 2));
            if two_spaces_at(after, i) && i + 1 == after.len() - 1 {
                assert(after[i + 1] == s.last());
                assert(before.last() == front.last());
            }
        }
    }
}

proof fn lemma_punctuation_prefix(s: Seq<char>, t: Seq<char>, n: nat)
    requires
        n <= s.len(),
        n <= t.len(),
        forall|i: int| 0 <= i < n ==> s[i] == t[i],
        n < s.len() ==> white_space(s[n as int]),
        n < t.len() ==> white_space(t[n as int]),
    ensures
        without_punctuation_space(s, n) == without_punctuation_space(t, n),
{
    lemma_punctuation_same(s, t, n, n);
}

proof fn lemma_punctuation_same(s: Seq<char>, t: Seq<char>, m: nat, n: nat)
    requires
        m <= n,
        n <= s.len(),
        n <= t.len(),
        forall|i: int| 0 <= i < n ==> s[i] == t[i],
        n < s.len() ==> white_space(s[n as int]),
        n < t.len() ==> white_space(t[n as int]),
    ensures
        without_punctuation_space(s, m) == without_punctuation_space(t, m),
    decreases m,
{
    if m > 0 {
        lemma_punctuation_same(s, t, (m - 1) as nat, n);
    }
}

/// A stop that a space parts from its word, at the end of a token, joins the
/// word; the same stop in front of more text does not.
pub proof fn law_stops_join_their_word(word: Seq<char>, stop: char, more: char)
    requires
        stop == '.' || stop == ',' || stop == ';',
        !white_space(more),
        more != '|',
    ensures
        without_punctuation_space(word + seq![' ', stop], word.len() + 2) == without_punctuation_space(
            word,
            word.len(),
        ).push(stop),
        without_punctuation_space(word + seq![' ', stop, more], word.len() + 2) == without_punctuation_space(
            word,
            word.len(),
        ).push(' ').push(stop),
{
    let n = word.len();
    let s = word + seq![' ', stop];
    let t = word + seq![' ', stop, more];
    lemma_punctuation_prefix(s, word, n);
    lemma_punctuation_prefix(t, word, n);
    let before = without_punctuation_space(word, n);
    assert(s[n as int] == ' ' && s[n as int + 1] == stop);
    assert(t[n as int] == ' ' && t[n as int + 1] == stop && t[n as int + 2] == more);
    assert(without_punctuation_space(s, n + 1) == before.push(' '));
    assert(without_punctuation_space(t, n + 1) == before.push(' '));
    assert(before.push(' ').drop_last() =~= before);
    assert(before.push(' ').last() == ' ');
}

} // verus!
