//! Words whose last letter a line break stranded behind a space.

use crate::lines::{join_lines, joined_lines, split, split_lines, texts};
use crate::markdown::postprocess::{in_code, is_blank, is_blank_line, is_table_row, starts_fence};
use crate::text::{characters, contains, contains_chars, part, text_of, without_front_space};
use vstd::prelude::*;

verus! {

/// The least letters of a word that a letter was stranded from.
pub const LEAST_STRANDED_WORD: usize = 3;

/// A small vowel.
pub open spec fn small_vowel(c: char) -> bool {
    c == 'a' || c == 'e' || c == 'i' || c == 'o' || c == 'u'
}

fn is_small_vowel(c: char) -> (r: bool)
    ensures
        r == small_vowel(c),
{
    c == 'a' || c == 'e' || c == 'i' || c == 'o' || c == 'u'
}

/// Where the word that ends before `end` starts: behind the last space.
pub open spec fn word_start(s: Seq<char>, end: int) -> int
    decreases end,
{
    if 0 < end <= s.len() && s[end - 1] != ' ' {
        word_start(s, end - 1)
    } else {
        end
    }
}

/// A capitalized word that stops at a consonant, in the middle of a line.
pub open spec fn stops_short(s: Seq<char>, from: int, to: int) -> bool {
    &&& to - from >= LEAST_STRANDED_WORD
    &&& 'A' <= s[from] <= 'Z'
    &&& 'a' <= s[to - 1] <= 'z' && !small_vowel(s[to - 1])
    &&& from >= 2 && s[from - 2] != ' '
}

/// The word stands elsewhere: on another line, or before `from` on this one.
pub open spec fn stands_elsewhere(lines: Seq<Seq<char>>, i: int, from: int, word: Seq<char>) -> bool {
    ||| contains(lines[i].take(from), word)
    ||| exists|j: int| 0 <= j < lines.len() && j != i && contains(#[trigger] lines[j], word)
}

/// The last character of the line is the end of the word before it: a lone
/// vowel at the end of a paragraph, behind a capitalized word that stops at a
/// consonant and stands nowhere else in the text. Code and tables have none.
pub open spec fn strands(lines: Seq<Seq<char>>, i: int) -> bool {
    let s = lines[i];
    let to = s.len() - 2;
    let from = word_start(s, to);
    &&& s.len() >= 2 && small_vowel(s.last()) && s[to] == ' '
    &&& stops_short(s, from, to)
    &&& i + 1 == lines.len() || is_blank(lines[i + 1])
    &&& !stands_elsewhere(lines, i, from, s.subrange(from, to))
    &&& !in_code(lines, (i + 1) as nat) && !is_table_row(s)
}

/// A line with its stranded letter joined to its word.
pub open spec fn rejoined_line(lines: Seq<Seq<char>>, i: int) -> Seq<char> {
    if strands(lines, i) {
        lines[i].take(lines[i].len() - 2).push(lines[i].last())
    } else {
        lines[i]
    }
}

/// A text with its stranded letters joined to their words.
pub open spec fn rejoined(s: Seq<char>) -> Seq<char> {
    let lines = split(s);
    joined_lines(Seq::new(lines.len(), |i: int| rejoined_line(lines, i)), lines.len())
}

fn find_word_start(s: &Vec<char>, end: usize) -> (r: usize)
    requires
        end <= s@.len(),
    ensures
        r == word_start(s@, end as int),
        r <= end,
{
    let mut at: usize = end;
    while at > 0 && s[at - 1] != ' '
        invariant
            at <= end <= s@.len(),
            word_start(s@, end as int) == word_start(s@, at as int),
        decreases at,
    {
        at -= 1;
    }
    at
}

fn does_stand_elsewhere(lines: &Vec<Vec<char>>, i: usize, from: usize, word: &Vec<char>) -> (r: bool)
    requires
        i < lines@.len(),
        from <= lines@[i as int]@.len(),
    ensures
        r == stands_elsewhere(texts(lines@), i as int, from as int, word@),
{
    let ghost model = texts(lines@);
    assert(model[i as int] == lines@[i as int]@);
    let before = part(&lines[i], 0, from);
    assert(before@ =~= model[i as int].take(from as int));
    if contains_chars(&before, word) {
        return true;
    }
    let mut j: usize = 0;
    while j < lines.len()
        invariant
            j <= lines@.len(),
            i < lines@.len(),
            model == texts(lines@),
            forall|k: int| 0 <= k < j && k != i ==> !contains(#[trigger] model[k], word@),
        decreases lines@.len() - j,
    {
        assert(model[j as int] == lines@[j as int]@);
        if j != i && contains_chars(&lines[j], word) {
            return true;
        }
        j += 1;
    }
    false
}

fn does_strand(lines: &Vec<Vec<char>>, i: usize, code: bool) -> (r: bool)
    requires
        i < lines@.len(),
        code == in_code(texts(lines@), (i + 1) as nat),
    ensures
        r == strands(texts(lines@), i as int),
{
    let ghost model = texts(lines@);
    let s = &lines[i];
    assert(model[i as int] == s@);
    let n: usize = s.len();
    if code || n < 2 || !is_small_vowel(s[n - 1]) || s[n - 2] != ' ' {
        return false;
    }
    let content = without_front_space(s);
    if content.len() > 0 && content[0] == '|' {
        return false;
    }
    let to: usize = n - 2;
    let from = find_word_start(s, to);
    if to - from < LEAST_STRANDED_WORD || from < 2 {
        return false;
    }
    let first: char = s[from];
    let last: char = s[to - 1];
    if !('A' <= first && first <= 'Z' && 'a' <= last && last <= 'z') || is_small_vowel(last) || s[from - 2] == ' ' {
        return false;
    }
    let count: usize = lines.len();
    if i + 1 < count {
        assert(model[i + 1] == lines@[i + 1]@);
        if !is_blank_line(&lines[i + 1]) {
            return false;
        }
    }
    let word = part(s, from, to);
    assert(word@ =~= s@.subrange(from as int, to as int));
    !does_stand_elsewhere(lines, i, from, &word)
}

/// Joins letters that were stranded at the end of a paragraph to their words:
/// "Limoeiro do Nort e" is "Limoeiro do Norte".
pub fn rejoin_stranded_letters(text: &str) -> (r: String)
    ensures
        r@ == rejoined(text@),
{
    let lines = split_lines(&characters(text));
    let ghost model = texts(lines@);
    let mut out: Vec<Vec<char>> = Vec::new();
    let mut code = false;
    let mut i: usize = 0;
    while i < lines.len()
        invariant
            i <= lines@.len(),
            model == texts(lines@),
            code == in_code(model, i as nat),
            out@.len() == i,
            forall|j: int| 0 <= j < i ==> (#[trigger] out@[j])@ == rejoined_line(model, j),
        decreases lines@.len() - i,
    {
        let line = &lines[i];
        assert(model[i as int] == line@);
        if starts_fence(line) {
            code = !code;
        }
        if does_strand(&lines, i, code) {
            let n: usize = line.len();
            let mut joined = part(line, 0, n - 2);
            joined.push(line[n - 1]);
            assert(joined@ =~= line@.take(n - 2).push(line@.last()));
            out.push(joined);
        } else {
            let same = part(line, 0, line.len());
            assert(same@ =~= line@);
            out.push(same);
        }
        i += 1;
    }
    assert(texts(out@) =~= Seq::new(model.len(), |i: int| rejoined_line(model, i)));
    text_of(&join_lines(&out))
}

/// Rejoining changes no line of a code block, no table row and no line that
/// does not end a paragraph.
pub proof fn law_only_paragraph_ends_rejoin(s: Seq<char>, i: int)
    requires
        0 <= i < split(s).len(),
        in_code(split(s), (i + 1) as nat) || is_table_row(split(s)[i]) || (i + 1 < split(s).len() && !is_blank(
            split(s)[i + 1],
        )),
    ensures
        rejoined_line(split(s), i) == split(s)[i],
{
}

} // verus!
