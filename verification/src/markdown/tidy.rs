//! The spaces of cleaned Markdown.

use crate::lines::split;
use crate::markdown::postprocess::{
    collapsed, collapsed_line, collapsed_lines, is_table_row, lemma_no_double_space, lemma_trim_front_is_suffix,
    paragraphs, single_spaced, tidied, two_spaces_at, without_bracket_space, without_punctuation_space,
};
use crate::text::{trim_back, trim_front, trimmed};
use crate::unicode::white_space;
use vstd::prelude::*;

verus! {

/// Whether the last line of a text is blank, and whether it is a table row.
pub open spec fn last_line(s: Seq<char>) -> (bool, bool) {
    let line = split(s).last();
    (trim_front(line).len() == 0, is_table_row(line))
}

/// The last line of a text holds text already, and is no table row.
pub open spec fn after_text(s: Seq<char>) -> bool {
    !last_line(s).0 && !last_line(s).1
}

/// No two spaces in a row come behind the first text of a line, but in table
/// rows.
pub open spec fn spaced_singly(s: Seq<char>) -> bool {
    forall|i: int| #[trigger] two_spaces_at(s, i) ==> !after_text(s.take(i))
}

proof fn lemma_trim_grown(line: Seq<char>, c: char)
    ensures
        trim_front(line.push(c)) == if trim_front(line).len() > 0 {
            trim_front(line).push(c)
        } else if white_space(c) {
            Seq::empty()
        } else {
            seq![c]
        },
    decreases line.len(),
{
    let longer = line.push(c);
    if line.len() == 0 {
        assert(longer.drop_first() =~= Seq::empty());
        assert(longer =~= seq![c]);
        assert(trim_front(longer.drop_first()) =~= Seq::empty());
    } else if white_space(line[0]) {
        lemma_trim_grown(line.drop_first(), c);
        assert(longer.drop_first() =~= line.drop_first().push(c));
    }
}

proof fn lemma_last_line_grown(s: Seq<char>, c: char)
    ensures
        last_line(s.push(c)) == if c == '\n' {
            (true, false)
        } else if last_line(s).0 {
            (white_space(c), c == '|')
        } else {
            last_line(s)
        },
{
    assert(s.push(c).drop_last() =~= s);
    lemma_trim_grown(split(s).last(), c);
}

proof fn lemma_last_line_of_nothing()
    ensures
        last_line(Seq::empty()) == (true, false),
{
}

proof fn lemma_space_changes_no_line(s: Seq<char>)
    requires
        s.len() > 0,
        s.last() == ' ',
    ensures
        last_line(s) == last_line(s.drop_last()),
{
    lemma_last_line_grown(s.drop_last(), ' ');
    assert(s.drop_last().push(' ') =~= s);
    lemma_blank_is_no_row(s.drop_last());
}

proof fn lemma_blank_is_no_row(s: Seq<char>)
    ensures
        last_line(s).0 ==> !last_line(s).1,
{
}

/// A text grows by a character and stays singly spaced, unless a space comes
/// behind a space behind text.
proof fn lemma_grown_singly(s: Seq<char>, c: char)
    requires
        spaced_singly(s),
        c == ' ' && s.len() > 0 && s.last() == ' ' ==> !after_text(s),
    ensures
        spaced_singly(s.push(c)),
{
    let longer = s.push(c);
    assert forall|i: int| #[trigger] two_spaces_at(longer, i) implies !after_text(longer.take(i)) by {
        if i + 1 < s.len() {
            assert(two_spaces_at(s, i));
            assert(longer.take(i) =~= s.take(i));
        } else {
            lemma_space_changes_no_line(s);
            assert(longer.take(i) =~= s.drop_last());
        }
    }
}

proof fn lemma_shortened_singly(s: Seq<char>)
    requires
        spaced_singly(s),
        s.len() > 0,
    ensures
        spaced_singly(s.drop_last()),
{
    let shorter = s.drop_last();
    assert forall|i: int| #[trigger] two_spaces_at(shorter, i) implies !after_text(shorter.take(i)) by {
        assert(two_spaces_at(s, i));
        assert(shorter.take(i) =~= s.take(i));
    }
}

/// What a singly spaced text says of its last two characters.
proof fn lemma_last_two(s: Seq<char>)
    requires
        spaced_singly(s),
        s.len() > 1,
        s.last() == ' ',
        s[s.len() - 2] == ' ',
    ensures
        !after_text(s.drop_last()),
{
    assert(two_spaces_at(s, s.len() - 2));
    assert(s.take(s.len() - 2) =~= s.drop_last().drop_last());
    lemma_space_changes_no_line(s.drop_last());
}

proof fn lemma_brackets_singly(s: Seq<char>)
    requires
        spaced_singly(s),
    ensures
        spaced_singly(without_bracket_space(s)),
        last_line(without_bracket_space(s)) == last_line(s),
        s.len() > 0 ==> without_bracket_space(s).len() > 0 && without_bracket_space(s).last() == s.last(),
        s.len() == 0 ==> without_bracket_space(s).len() == 0,
    decreases s.len(),
{
    if s.len() > 0 {
        let shorter = s.drop_last();
        lemma_shortened_singly(s);
        lemma_brackets_singly(shorter);
        let before = without_bracket_space(shorter);
        assert(shorter.push(s.last()) =~= s);
        lemma_last_line_grown(shorter, s.last());
        if s.last() == ']' && before.len() > 0 && before.last() == ' ' {
            lemma_space_changes_no_line(before);
            lemma_shortened_singly(before);
            lemma_last_line_grown(before.drop_last(), ']');
            lemma_grown_singly(before.drop_last(), ']');
        } else {
            lemma_last_line_grown(before, s.last());
            if s.last() == ' ' && before.len() > 0 && before.last() == ' ' {
                lemma_last_two(s);
            }
            lemma_grown_singly(before, s.last());
        }
    } else {
        assert(s =~= without_bracket_space(s));
    }
}

proof fn lemma_punctuation_singly(s: Seq<char>, n: nat)
    requires
        spaced_singly(s),
        n <= s.len(),
    ensures
        spaced_singly(without_punctuation_space(s, n)),
        last_line(without_punctuation_space(s, n)) == last_line(s.take(n as int)),
        n > 0 ==> without_punctuation_space(s, n).len() > 0 && without_punctuation_space(s, n).last() == s[n - 1],
        n == 0 ==> without_punctuation_space(s, n).len() == 0,
    decreases n,
{
    if n > 0 {
        let c = s[n - 1];
        let shorter = s.take(n - 1);
        lemma_punctuation_singly(s, (n - 1) as nat);
        let before = without_punctuation_space(s, (n - 1) as nat);
        assert(shorter.push(c) =~= s.take(n as int));
        lemma_last_line_grown(shorter, c);
        let after = without_punctuation_space(s, n);
        if after == before.push(c) {
            lemma_last_line_grown(before, c);
            if c == ' ' && before.len() > 0 && before.last() == ' ' {
                assert(two_spaces_at(s, n - 2));
                lemma_space_changes_no_line(shorter);
                assert(shorter.drop_last() =~= s.take(n - 2));
            }
            lemma_grown_singly(before, c);
        } else {
            lemma_space_changes_no_line(before);
            lemma_shortened_singly(before);
            lemma_last_line_grown(before.drop_last(), c);
            lemma_grown_singly(before.drop_last(), c);
        }
    } else {
        assert(s.take(0) =~= without_punctuation_space(s, 0));
    }
}

proof fn lemma_paragraphs_singly(s: Seq<char>)
    requires
        spaced_singly(s),
    ensures
        spaced_singly(paragraphs(s)),
        last_line(paragraphs(s)) == last_line(s),
        s.len() > 0 ==> paragraphs(s).len() > 0 && paragraphs(s).last() == s.last(),
        s.len() == 0 ==> paragraphs(s).len() == 0,
    decreases s.len(),
{
    if s.len() > 0 {
        let shorter = s.drop_last();
        lemma_shortened_singly(s);
        lemma_paragraphs_singly(shorter);
        let before = paragraphs(shorter);
        assert(shorter.push(s.last()) =~= s);
        lemma_last_line_grown(shorter, s.last());
        if paragraphs(s) == before.push(s.last()) {
            lemma_last_line_grown(before, s.last());
            if s.last() == ' ' && before.len() > 0 && before.last() == ' ' {
                lemma_last_two(s);
            }
            lemma_grown_singly(before, s.last());
        } else {
            lemma_last_line_grown(before.drop_last(), '\n');
            assert(before.drop_last().push('\n') =~= before);
        }
    } else {
        assert(s =~= paragraphs(s));
    }
}

/// Behind a blank line the last line is that of what follows alone.
proof fn lemma_last_line_behind(before: Seq<char>, s: Seq<char>)
    requires
        last_line(before) == (true, false),
    ensures
        last_line(before + s) == last_line(s),
    decreases s.len(),
{
    if s.len() > 0 {
        lemma_last_line_behind(before, s.drop_last());
        lemma_last_line_grown(before + s.drop_last(), s.last());
        lemma_last_line_grown(s.drop_last(), s.last());
        assert((before + s.drop_last()).push(s.last()) =~= before + s);
        assert(s.drop_last().push(s.last()) =~= s);
    } else {
        assert(before + s =~= before);
        assert(s =~= Seq::empty());
    }
}

proof fn lemma_joined_singly(before: Seq<char>, s: Seq<char>)
    requires
        spaced_singly(before),
        spaced_singly(s),
        before.len() == 0 || before.last() == '\n',
    ensures
        spaced_singly(before + s),
{
    let whole = before + s;
    if before.len() > 0 {
        lemma_last_line_grown(before.drop_last(), '\n');
        assert(before.drop_last().push('\n') =~= before);
    } else {
        assert(before =~= Seq::empty());
        lemma_last_line_of_nothing();
    }
    assert forall|i: int| #[trigger] two_spaces_at(whole, i) implies !after_text(whole.take(i)) by {
        if i + 1 < before.len() {
            assert(two_spaces_at(before, i));
            assert(whole.take(i) =~= before.take(i));
        } else if i >= before.len() {
            let k = i - before.len();
            assert(two_spaces_at(s, k));
            assert(whole.take(i) =~= before + s.take(k));
            lemma_last_line_behind(before, s.take(k));
        }
    }
}

/// A text within one line is itself the line.
proof fn lemma_within_line(line: Seq<char>)
    requires
        !line.contains('\n'),
    ensures
        split(line) == seq![line],
    decreases line.len(),
{
    if line.len() > 0 {
        let shorter = line.drop_last();
        assert forall|i: int| 0 <= i < shorter.len() implies shorter[i] != '\n' by {
            assert(line[i] == shorter[i]);
        }
        lemma_within_line(shorter);
        assert(line.contains(line.last()));
        assert(shorter.push(line.last()) =~= line);
        assert(split(line) =~= seq![line]);
    } else {
        assert(line =~= Seq::empty());
        assert(split(line) =~= seq![line]);
    }
}

proof fn lemma_pieces_hold_no_newline(s: Seq<char>, k: int)
    requires
        0 <= k < split(s).len(),
    ensures
        !split(s)[k].contains('\n'),
    decreases s.len(),
{
    if s.len() > 0 {
        let before = split(s.drop_last());
        if k < before.len() {
            lemma_pieces_hold_no_newline(s.drop_last(), k);
        }
        if s.last() != '\n' && k == before.len() - 1 {
            assert forall|i: int| 0 <= i < split(s)[k].len() implies split(s)[k][i] != '\n' by {
                if i < before[k].len() {
                    assert(before[k].contains(before[k][i]));
                }
            }
        }
    }
}

/// What stands before the content of a line is blank, and what follows its
/// start keeps what it is.
proof fn lemma_within_content(line: Seq<char>, i: int)
    requires
        0 <= i <= line.len(),
    ensures
        i <= line.len() - trim_front(line).len() ==> trim_front(line.take(i)).len() == 0,
        i > line.len() - trim_front(line).len() ==> trim_front(line.take(i)).len() > 0 && trim_front(line.take(i))[0]
            == trim_front(line)[0],
    decreases i,
{
    lemma_trim_front_is_suffix(line);
    if i > 0 {
        lemma_within_content(line, i - 1);
        assert(line.take(i) =~= line.take(i - 1).push(line[i - 1]));
        lemma_trim_grown(line.take(i - 1), line[i - 1]);
        let start = line.len() - trim_front(line).len();
        if i <= start {
            lemma_front_is_white(line, i - 1);
        } else if i - 1 == start {
            assert(trim_front(line)[0] == line[start]);
            lemma_content_starts_with_text(line);
        }
    }
}

proof fn lemma_front_is_white(line: Seq<char>, i: int)
    requires
        0 <= i < line.len() - trim_front(line).len(),
    ensures
        white_space(line[i]),
    decreases line.len(),
{
    if i > 0 {
        lemma_trim_front_is_suffix(line.drop_first());
        lemma_front_is_white(line.drop_first(), i - 1);
    }
}

proof fn lemma_content_starts_with_text(line: Seq<char>)
    ensures
        trim_front(line).len() > 0 ==> !white_space(trim_front(line)[0]),
    decreases line.len(),
{
    if line.len() > 0 && white_space(line[0]) {
        lemma_content_starts_with_text(line.drop_first());
    }
}

proof fn lemma_line_singly(line: Seq<char>)
    requires
        !line.contains('\n'),
    ensures
        spaced_singly(collapsed_line(line)),
{
    let content = trim_front(line);
    let out = collapsed_line(line);
    let start = line.len() - content.len();
    lemma_trim_front_is_suffix(line);
    assert forall|i: int| #[trigger] two_spaces_at(out, i) implies !after_text(out.take(i)) by {
        if is_table_row(line) {
            lemma_within_content(line, i);
            assert forall|j: int| 0 <= j < line.take(i).len() implies line.take(i)[j] != '\n' by {
                assert(line.contains(line[j]));
            }
            lemma_within_line(line.take(i));
        } else if i < start {
            assert(out.take(i) =~= line.take(i));
            lemma_within_content(line, i);
            assert forall|j: int| 0 <= j < line.take(i).len() implies line.take(i)[j] != '\n' by {
                assert(line.contains(line[j]));
            }
            lemma_within_line(line.take(i));
        } else {
            lemma_no_double_space(content);
            assert(two_spaces_at(single_spaced(content), i - start));
        }
    }
}

proof fn lemma_lines_singly(lines: Seq<Seq<char>>, n: nat)
    requires
        n <= lines.len(),
        forall|k: int| 0 <= k < lines.len() ==> !(#[trigger] lines[k]).contains('\n'),
    ensures
        spaced_singly(collapsed_lines(lines, n)),
    decreases n,
{
    if n > 0 {
        lemma_lines_singly(lines, (n - 1) as nat);
        let before = collapsed_lines(lines, (n - 1) as nat);
        lemma_line_singly(lines[n - 1]);
        lemma_grown_singly(before, '\n');
        if n == 1 {
            assert(before =~= Seq::empty());
            lemma_joined_singly(before, collapsed_line(lines[0]));
        } else {
            lemma_joined_singly(before.push('\n'), collapsed_line(lines[n - 1]));
        }
    }
}

proof fn lemma_front_trimmed_singly(s: Seq<char>)
    requires
        spaced_singly(s),
    ensures
        spaced_singly(trim_front(s)),
    decreases s.len(),
{
    if s.len() > 0 && white_space(s[0]) {
        let rest = s.drop_first();
        let first = seq![s[0]];
        lemma_last_line_grown(Seq::empty(), s[0]);
        assert(Seq::<char>::empty().push(s[0]) =~= first);
        assert forall|i: int| #[trigger] two_spaces_at(rest, i) implies !after_text(rest.take(i)) by {
            assert(two_spaces_at(s, i + 1));
            assert(s.take(i + 1) =~= first + rest.take(i));
            lemma_last_line_behind(first, rest.take(i));
        }
        lemma_front_trimmed_singly(rest);
    }
}

proof fn lemma_back_trimmed_singly(s: Seq<char>)
    requires
        spaced_singly(s),
    ensures
        spaced_singly(trim_back(s)),
    decreases s.len(),
{
    if s.len() > 0 && white_space(s.last()) {
        lemma_shortened_singly(s);
        lemma_back_trimmed_singly(s.drop_last());
    }
}

/// In cleaned Markdown no two spaces follow the first text of a line, but in
/// table rows.
pub proof fn law_clean_markdown_is_singly_spaced(s: Seq<char>)
    ensures
        spaced_singly(tidied(s)),
{
    let lines = split(s);
    assert forall|k: int| 0 <= k < lines.len() implies !(#[trigger] lines[k]).contains('\n') by {
        lemma_pieces_hold_no_newline(s, k);
    }
    lemma_lines_singly(lines, lines.len());
    lemma_brackets_singly(collapsed(s));
    let brackets = without_bracket_space(collapsed(s));
    lemma_punctuation_singly(brackets, brackets.len());
    let punctuation = without_punctuation_space(brackets, brackets.len());
    lemma_paragraphs_singly(punctuation);
    lemma_front_trimmed_singly(paragraphs(punctuation));
    lemma_back_trimmed_singly(trim_front(paragraphs(punctuation)));
    lemma_grown_singly(trimmed(paragraphs(punctuation)), '\n');
}

} // verus!
