//! What comparing and counting words owes to the text.

use crate::markdown::cleaning::{lemma_visible_sum, visible};
use crate::markdown::stranded::{rejoined_line, strands};
use crate::markdown::words::{
    comparable, lemma_squeezed_keeps, squeezed, squeezed_shape, structural, without_back_numbers,
    without_front_numbers, word_count,
};
use crate::text::{occurs_at, trim_back, trim_front};
use crate::text_utils::{all_digits, digits_from, page_label, page_number_line};
use crate::unicode::{ascii_digit, numeric, white_space};
use vstd::prelude::*;

verus! {

/// The words of a text put together by a space are the words of both.
pub proof fn law_words_add_up(a: Seq<char>, b: Seq<char>)
    ensures
        word_count(a.push(' ') + b) == word_count(a) + word_count(b),
    decreases b.len(),
{
    let t = a.push(' ') + b;
    assert(white_space(' '));
    if b.len() == 0 {
        assert(t =~= a.push(' '));
        assert(t.drop_last() =~= a);
    } else {
        law_words_add_up(a, b.drop_last());
        assert(t.drop_last() =~= a.push(' ') + b.drop_last());
        assert(t.last() == b.last());
        if b.len() == 1 {
            assert(t[t.len() - 2] == ' ');
        } else {
            assert(t[t.len() - 2] == b[b.len() - 2]);
        }
    }
}

/// A text without white space is one word.
pub proof fn law_unbroken_text_is_one_word(s: Seq<char>)
    requires
        s.len() > 0,
        forall|i: int| 0 <= i < s.len() ==> !white_space(#[trigger] s[i]),
    ensures
        word_count(s) == 1,
    decreases s.len(),
{
    if s.len() > 1 {
        let before = s.drop_last();
        assert forall|i: int| 0 <= i < before.len() implies !white_space(#[trigger] before[i]) by {
            assert(before[i] == s[i]);
        }
        law_unbroken_text_is_one_word(before);
        assert(!white_space(s[s.len() - 2]));
    } else {
        assert(s.drop_last() =~= Seq::<char>::empty());
        assert(word_count(s.drop_last()) == 0);
        assert(!white_space(s[0]));
    }
}

/// Squeezing keeps every visible character, in its place.
pub proof fn law_squeezing_keeps_the_visible(s: Seq<char>)
    ensures
        visible(squeezed(s)) == visible(s),
    decreases s.len(),
{
    if s.len() > 0 {
        law_squeezing_keeps_the_visible(s.drop_last());
        let before = squeezed(s.drop_last());
        let c = s.last();
        assert(white_space(' '));
        if !white_space(c) {
            assert(before.push(' ').drop_last() =~= before);
            assert(before.push(' ').push(c).drop_last() =~= before.push(' '));
            assert(before.push(c).drop_last() =~= before);
            assert(visible(before.push(' ')) =~= visible(before));
        }
    }
}

proof fn lemma_front_numbers_go(d: Seq<char>, rest: Seq<char>)
    requires
        forall|i: int| 0 <= i < d.len() ==> numeric(#[trigger] d[i]),
        rest.len() > 0,
        !numeric(rest[0]),
    ensures
        without_front_numbers(d + rest) == rest,
    decreases d.len(),
{
    if d.len() == 0 {
        assert(d + rest =~= rest);
    } else {
        assert((d + rest)[0] == d[0]);
        assert((d + rest).drop_first() =~= d.drop_first() + rest);
        lemma_front_numbers_go(d.drop_first(), rest);
    }
}

proof fn lemma_back_numbers_go(rest: Seq<char>, d: Seq<char>)
    requires
        forall|i: int| 0 <= i < d.len() ==> numeric(#[trigger] d[i]),
        rest.len() > 0,
        !numeric(rest.last()),
    ensures
        without_back_numbers(rest + d) == rest,
    decreases d.len(),
{
    if d.len() == 0 {
        assert(rest + d =~= rest);
    } else {
        assert((rest + d).last() == d.last());
        assert((rest + d).drop_last() =~= rest + d.drop_last());
        lemma_back_numbers_go(rest, d.drop_last());
    }
}

/// A page number before or behind a text makes no difference to what it is
/// compared by.
pub proof fn law_page_numbers_do_not_tell_texts_apart(s: Seq<char>, d: Seq<char>)
    requires
        squeezed_shape(s),
        s.len() > 0,
        !numeric(s[0]),
        !numeric(s.last()),
        d.len() > 0,
        forall|i: int| 0 <= i < d.len() ==> numeric(#[trigger] d[i]) && !white_space(d[i]),
        !numeric(' '),
    ensures
        comparable(s) == s,
        comparable(d.push(' ') + s) == s,
        comparable(s.push(' ') + d) == s,
{
    assert(white_space(' '));
    lemma_squeezed_keeps(s);
    assert(without_front_numbers(s) == s);
    assert(trim_front(s) == s);
    assert(without_back_numbers(s) == s);
    assert(trim_back(s) == s);
    let front = d.push(' ') + s;
    assert(squeezed_shape(front)) by {
        assert forall|i: int| 0 <= i < front.len() && white_space(#[trigger] front[i]) implies front[i] == ' '
            && !white_space(front[i + 1]) by {
            if i < d.len() {
                assert(front[i] == d[i]);
            } else if i == d.len() {
                assert(front[i + 1] == s[0]);
            } else {
                let j = i - d.len() - 1;
                assert(front[i] == s[j]);
                assert(white_space(s[j]));
                if j + 1 < s.len() {
                    assert(front[i + 1] == s[j + 1]);
                } else {
                    assert(s[j] == s.last());
                }
            }
        }
        assert(front[0] == d[0]);
        assert(front.last() == s.last());
    }
    lemma_squeezed_keeps(front);
    let tail = seq![' '] + s;
    assert(front =~= d + tail);
    lemma_front_numbers_go(d, tail);
    assert(tail.drop_first() =~= s);
    assert(trim_front(tail) == s);
    let back = s.push(' ') + d;
    assert(squeezed_shape(back)) by {
        assert forall|i: int| 0 <= i < back.len() && white_space(#[trigger] back[i]) implies back[i] == ' '
            && !white_space(back[i + 1]) by {
            if i < s.len() {
                assert(back[i] == s[i]);
                assert(white_space(s[i]));
                if i + 1 < s.len() {
                    assert(back[i + 1] == s[i + 1]);
                } else {
                    assert(s[i] == s.last());
                }
            } else if i == s.len() {
                assert(back[i + 1] == d[0]);
            } else {
                assert(back[i] == d[i - s.len() - 1]);
            }
        }
        assert(back[0] == s[0]);
        assert(back.last() == d.last());
    }
    lemma_squeezed_keeps(back);
    assert(without_front_numbers(back) == back);
    assert(trim_front(back) == back);
    lemma_back_numbers_go(s.push(' '), d);
    assert(s.push(' ').drop_last() =~= s);
    assert(trim_back(s.push(' ')) == s);
}

/// One to four digits alone are a page number; five or more are not.
pub proof fn law_page_numbers_are_short(s: Seq<char>)
    requires
        s.len() > 0,
        all_digits(s),
    ensures
        page_number_line(s) <==> s.len() <= 4,
{
    lemma_all_counted(s, 0);
    assert(ascii_digit(s[0]));
    assert(!page_label(s)) by {
        reveal_strlit("page");
        let lowered = crate::text::ascii_lowered(s);
        if occurs_at(lowered, "page"@, 0) {
            assert(lowered.subrange(0, 4)[0] == "page"@[0]);
            assert(lowered[0] == 'p');
        }
    }
    reveal_strlit(" of ");
}

proof fn lemma_all_counted(s: Seq<char>, i: int)
    requires
        0 <= i <= s.len(),
        all_digits(s),
    ensures
        digits_from(s, i) == s.len() - i,
    decreases s.len() - i,
{
    if i < s.len() {
        assert(ascii_digit(s[i]));
        lemma_all_counted(s, i + 1);
    }
}

/// A count of pages is a page number whatever the two numbers are.
pub proof fn law_counts_of_pages_are_page_numbers(a: Seq<char>, b: Seq<char>)
    requires
        a.len() > 0,
        b.len() > 0,
        all_digits(a),
        all_digits(b),
    ensures
        page_number_line(a + seq![' ', 'o', 'f', ' '] + b),
        page_number_line(seq!['-'] + a + seq!['-']),
        page_number_line(seq!['-', ' '] + a + seq![' ', '-']),
{
    reveal_strlit(" of ");
    let s = a + seq![' ', 'o', 'f', ' '] + b;
    lemma_leading_digits(a, seq![' ', 'o', 'f', ' '] + b, 0);
    assert(s =~= a + (seq![' ', 'o', 'f', ' '] + b));
    let n = a.len() as int;
    assert(s.subrange(n, n + 4) =~= " of "@);
    assert(s.skip(n + 4) =~= b);
    let dashed = seq!['-'] + a + seq!['-'];
    assert(dashed.subrange(1, dashed.len() - 1) =~= a);
    assert(!white_space(a[0]) && !white_space(a.last())) by {
        assert(ascii_digit(a[0]) && ascii_digit(a[a.len() - 1]));
    }
    assert(trim_front(a) == a && trim_back(a) == a);
    assert(dashed.last() == '-');
    let spaced = seq!['-', ' '] + a + seq![' ', '-'];
    let inner = spaced.subrange(1, spaced.len() - 1);
    assert(inner =~= seq![' '] + a + seq![' ']);
    assert(white_space(' '));
    assert(inner.drop_first() =~= a.push(' '));
    assert(trim_front(a.push(' ')) == a.push(' ')) by {
        assert(a.push(' ')[0] == a[0]);
    }
    assert(a.push(' ').drop_last() =~= a);
    assert(trim_back(a.push(' ')) == a);
    assert(spaced.last() == '-');
}

proof fn lemma_leading_digits(a: Seq<char>, rest: Seq<char>, i: int)
    requires
        0 <= i <= a.len(),
        all_digits(a),
        rest.len() > 0,
        !ascii_digit(rest[0]),
    ensures
        digits_from(a + rest, i) == a.len() - i,
    decreases a.len() - i,
{
    if i < a.len() {
        assert(ascii_digit(a[i]));
        assert((a + rest)[i] == a[i]);
        lemma_leading_digits(a, rest, i + 1);
    } else {
        assert((a + rest)[i] == rest[0]);
    }
}

/// A heading and a list item are told by how they start, whatever white space
/// comes first.
pub proof fn law_list_items_are_structural(s: Seq<char>)
    ensures
        structural(seq!['#'] + s),
        structural(seq!['-', ' '] + s),
        structural(seq!['*', ' '] + s),
        structural(seq!['\u{2022}', ' '] + s),
        structural(seq![' '] + s) <==> structural(s),
{
    reveal_strlit("- ");
    reveal_strlit("* ");
    reveal_strlit("\u{2022} ");
    assert(white_space(' '));
    let a = seq!['#'] + s;
    assert(a[0] == '#' && trim_front(a) == a);
    let b = seq!['-', ' '] + s;
    assert(b[0] == '-' && trim_front(b) == b);
    assert(b.subrange(0, 2) =~= "- "@);
    let c = seq!['*', ' '] + s;
    assert(c[0] == '*' && trim_front(c) == c);
    assert(c.subrange(0, 2) =~= "* "@);
    let d = seq!['\u{2022}', ' '] + s;
    assert(d[0] == '\u{2022}' && trim_front(d) == d);
    assert(d.subrange(0, 2) =~= "\u{2022} "@);
    let e = seq![' '] + s;
    assert(e[0] == ' ');
    assert(e.drop_first() =~= s);
}

/// Rejoining a stranded letter takes away the space before it and nothing else.
pub proof fn law_rejoining_drops_one_space(lines: Seq<Seq<char>>, i: int)
    requires
        0 <= i < lines.len(),
    ensures
        visible(rejoined_line(lines, i)) == visible(lines[i]),
        !strands(lines, i) ==> rejoined_line(lines, i) == lines[i],
        strands(lines, i) ==> rejoined_line(lines, i).len() == lines[i].len() - 1 && lines[i][lines[i].len() - 2] == ' ',
{
    let s = lines[i];
    if strands(lines, i) {
        let to = s.len() - 2;
        let last = seq![s.last()];
        assert(white_space(' '));
        assert(s =~= s.take(to).push(' ') + last);
        assert(rejoined_line(lines, i) =~= s.take(to) + last);
        lemma_visible_sum(s.take(to).push(' '), last);
        lemma_visible_sum(s.take(to), last);
        assert(s.take(to).push(' ').drop_last() =~= s.take(to));
    }
}

} // verus!
