//! Markdown clean-up.

use crate::lines::{join_lines, joined_lines, lines, lines_of, split, split_lines, texts};
use crate::markdown::links::{
    bracketless, law_links_come_off, law_plain_text_has_no_links, lemma_part_bracketless, unlinked,
};
use crate::markdown::stranded::{rejoin_stranded_letters, rejoined};
use crate::markdown::urls::url_spans;
use crate::markdown::{MarkdownOptions, MarkdownProfile};
use crate::patterns::{
    covered, cut, find_matches, group, group_of, match_views, matches_of, replace_all, replaced, MatchView, RegexMatch,
};
use crate::text::{
    characters, chars_end_with, ends_with, matches_at, occurs_at, part, push_chars, push_text, same_chars,
    starts_with, text_of, trim_chars, trim_front, trimmed, without_front_space,
};
use crate::text_utils::{is_page_number_line, page_number_line};
use crate::unicode::{is_white_space, lowercased, uppercase, white_space};
use vstd::prelude::*;

verus! {

/// A line's text with runs of spaces made single.
pub open spec fn single_spaced(s: Seq<char>) -> Seq<char>
    decreases s.len(),
{
    if s.len() == 0 {
        Seq::empty()
    } else {
        let before = single_spaced(s.drop_last());
        if s.last() == ' ' && s.len() > 1 && s[s.len() - 2] == ' ' {
            before
        } else {
            before.push(s.last())
        }
    }
}

/// A line with the runs of spaces behind its indentation made single. The
/// lines of tables stay as they are.
pub open spec fn collapsed_line(line: Seq<char>) -> Seq<char> {
    let content = trim_front(line);
    if is_table_row(line) {
        line
    } else {
        line.take(line.len() - content.len()) + single_spaced(content)
    }
}

/// The first `n` lines, collapsed, with newlines between them.
pub open spec fn collapsed_lines(lines: Seq<Seq<char>>, n: nat) -> Seq<char>
    decreases n,
{
    if n == 0 {
        Seq::empty()
    } else {
        let before = collapsed_lines(lines, (n - 1) as nat);
        (if n == 1 {
            before
        } else {
            before.push('\n')
        }) + collapsed_line(lines[n - 1])
    }
}

/// A text with runs of spaces made single.
pub open spec fn collapsed(s: Seq<char>) -> Seq<char> {
    collapsed_lines(split(s), split(s).len())
}

pub(crate) proof fn lemma_trim_front_is_suffix(s: Seq<char>)
    ensures
        trim_front(s).len() <= s.len(),
        trim_front(s) == s.skip(s.len() - trim_front(s).len()),
    decreases s.len(),
{
    if s.len() > 0 && white_space(s[0]) {
        lemma_trim_front_is_suffix(s.drop_first());
        let rest = trim_front(s);
        assert(s.drop_first().skip(s.drop_first().len() - rest.len()) =~= s.skip(s.len() - rest.len()));
    } else {
        assert(s.skip(0) =~= s);
    }
}

fn push_single_spaced(out: &mut Vec<char>, s: &Vec<char>)
    ensures
        final(out)@ == old(out)@ + single_spaced(s@),
{
    let mut i: usize = 0;
    assert(out@ =~= old(out)@ + single_spaced(s@.take(0)));
    while i < s.len()
        invariant
            i <= s@.len(),
            out@ == old(out)@ + single_spaced(s@.take(i as int)),
        decreases s@.len() - i,
    {
        let c: char = s[i];
        let ghost before = out@;
        proof {
            let longer = s@.take(i + 1);
            assert(longer.drop_last() =~= s@.take(i as int));
            assert(i > 0 ==> longer[longer.len() - 2] == s@[i - 1]);
        }
        if !(c == ' ' && i > 0 && s[i - 1] == ' ') {
            out.push(c);
        }
        assert(out@ =~= old(out)@ + single_spaced(s@.take(i + 1)));
        i += 1;
    }
    assert(s@.take(s@.len() as int) =~= s@);
}

/// Makes runs of spaces single within each line, behind its indentation. The
/// alignment of tables stays.
pub fn collapse_consecutive_spaces(text: &mut String)
    ensures
        final(text)@ == collapsed(old(text)@),
{
    let chars = characters(text);
    let lines = split_lines(&chars);
    let ghost model = texts(lines@);
    let mut out: Vec<char> = Vec::new();
    let mut i: usize = 0;
    assert(out@ =~= collapsed_lines(model, 0));
    while i < lines.len()
        invariant
            i <= lines@.len(),
            model == texts(lines@),
            out@ == collapsed_lines(model, i as nat),
        decreases lines@.len() - i,
    {
        let line = &lines[i];
        assert(model[i as int] == line@);
        let ghost before = out@;
        if i > 0 {
            out.push('\n');
        }
        let content = without_front_space(line);
        proof {
            lemma_trim_front_is_suffix(line@);
        }
        if content.len() > 0 && content[0] == '|' {
            push_chars(&mut out, line);
        } else {
            let indent = part(line, 0, line.len() - content.len());
            assert(indent@ =~= line@.take(line@.len() - content@.len()));
            push_chars(&mut out, &indent);
            push_single_spaced(&mut out, &content);
        }
        assert(out@ =~= collapsed_lines(model, (i + 1) as nat));
        i += 1;
    }
    *text = text_of(&out);
}

/// A text without a space right before each closing square bracket.
pub open spec fn without_bracket_space(s: Seq<char>) -> Seq<char>
    decreases s.len(),
{
    if s.len() == 0 {
        Seq::empty()
    } else {
        let before = without_bracket_space(s.drop_last());
        (if s.last() == ']' && ends_with(before, ' ') {
            before.drop_last()
        } else {
            before
        }).push(s.last())
    }
}

/// Removes a space before each closing square bracket.
pub fn remove_spaces_before_closing_brackets(text: &mut String)
    ensures
        final(text)@ == without_bracket_space(old(text)@),
{
    let chars = characters(text);
    let mut out: Vec<char> = Vec::new();
    let mut i: usize = 0;
    assert(out@ =~= without_bracket_space(chars@.take(0)));
    while i < chars.len()
        invariant
            i <= chars@.len(),
            out@ == without_bracket_space(chars@.take(i as int)),
        decreases chars@.len() - i,
    {
        let c: char = chars[i];
        assert(chars@.take(i + 1).drop_last() =~= chars@.take(i as int));
        if c == ']' && chars_end_with(&out, ' ') {
            out.pop();
        }
        out.push(c);
        i += 1;
    }
    assert(chars@.take(chars@.len() as int) =~= chars@);
    *text = text_of(&out);
}

/// Punctuation at `i` ends a token: white space, a cell boundary or the end of
/// the text follows.
pub open spec fn token_ends(s: Seq<char>, i: int) -> bool {
    i + 1 >= s.len() || white_space(s[i + 1]) || s[i + 1] == '|'
}

/// The first `n` characters without a space before sentence punctuation that
/// ends a token. Runs of dots are never touched.
pub open spec fn without_punctuation_space(s: Seq<char>, n: nat) -> Seq<char>
    decreases n,
{
    if n == 0 {
        Seq::empty()
    } else {
        let before = without_punctuation_space(s, (n - 1) as nat);
        let i = n - 1;
        let c = s[i];
        (if (c == '.' || c == ',' || c == ';') && ends_with(before, ' ') && token_ends(s, i) {
            before.drop_last()
        } else {
            before
        }).push(c)
    }
}

/// Removes a stray space before sentence punctuation that ends a token.
pub fn remove_spaces_before_sentence_punctuation(text: &mut String)
    ensures
        final(text)@ == without_punctuation_space(old(text)@, old(text)@.len()),
{
    let chars = characters(text);
    let mut out: Vec<char> = Vec::new();
    let mut i: usize = 0;
    assert(out@ =~= without_punctuation_space(chars@, 0));
    while i < chars.len()
        invariant
            i <= chars@.len(),
            out@ == without_punctuation_space(chars@, i as nat),
        decreases chars@.len() - i,
    {
        let c: char = chars[i];
        let ends = i + 1 >= chars.len() || is_white_space(chars[i + 1]) || chars[i + 1] == '|';
        if (c == '.' || c == ',' || c == ';') && chars_end_with(&out, ' ') && ends {
            out.pop();
        }
        out.push(c);
        i += 1;
    }
    *text = text_of(&out);
}

/// Runs of four or more dots.
pub open spec fn dot_leader_pattern() -> Seq<char> {
    "\\.{4,}"@
}

/// Replaces dot leaders, runs of four or more dots, by three dots between
/// spaces.
pub fn collapse_dot_leaders(text: &str) -> (r: String)
    ensures
        r@ == replaced(dot_leader_pattern(), text@, " ... "@),
{
    text_of(&replace_all("\\.{4,}", text, " ... "))
}

/// A letter, a spaced hyphen and a letter.
pub open spec fn spaced_hyphen_pattern() -> Seq<char> {
    "([a-zA-ZáàâãéèêíïóôõöúçñÁÀÂÃÉÈÊÍÏÓÔÕÖÚÇÑ]) - ([a-zA-ZáàâãéèêíïóôõöúçñÁÀÂÃÉÈÊÍÏÓÔÕÖÚÇÑ])"@
}

/// The first `n` matches of a spaced hyphen, each made tight.
pub open spec fn tightened(matches: Seq<MatchView>, n: nat) -> Seq<char>
    decreases n,
{
    if n == 0 {
        Seq::empty()
    } else {
        let m = matches[n - 1];
        tightened(matches, (n - 1) as nat) + m.before + group(m, 0) + "-"@ + group(m, 1)
    }
}

/// A text with all given matches of a spaced hyphen made tight.
pub fn tighten_hyphens(matches: &Vec<RegexMatch>, tail: &str) -> (r: String)
    ensures
        r@ == tightened(match_views(matches@), matches@.len()) + tail@,
{
    let ghost model = match_views(matches@);
    let mut out: Vec<char> = Vec::new();
    let mut i: usize = 0;
    assert(out@ =~= tightened(model, 0));
    while i < matches.len()
        invariant
            i <= matches@.len(),
            model == match_views(matches@),
            out@ == tightened(model, i as nat),
        decreases matches@.len() - i,
    {
        let m = &matches[i];
        assert(model[i as int] == m@);
        push_chars(&mut out, &characters(&m.before));
        push_chars(&mut out, &group_of(m, 0));
        push_text(&mut out, "-");
        push_chars(&mut out, &group_of(m, 1));
        i += 1;
    }
    push_chars(&mut out, &characters(tail));
    text_of(&out)
}

/// A text with spaced hyphens between letters made tight.
pub open spec fn with_tight_hyphens(s: Seq<char>) -> Seq<char> {
    let (matches, tail) = matches_of(spaced_hyphen_pattern(), s);
    tightened(matches, matches.len()) + tail
}

/// Fixes spaced hyphens inside compounds, then words broken at line ends, with
/// a hyphen or with a space.
pub fn fix_hyphenation(text: &str) -> (r: String)
    ensures
        r@ == rejoined(dehyphenated(with_tight_hyphens(text@))),
{
    let (matches, tail) = find_matches(
        "([a-zA-ZáàâãéèêíïóôõöúçñÁÀÂÃÉÈÊÍÏÓÔÕÖÚÇÑ]) - ([a-zA-ZáàâãéèêíïóôõöúçñÁÀÂÃÉÈÊÍÏÓÔÕÖÚÇÑ])",
        text,
    );
    let result = tighten_hyphens(&matches, &tail);
    rejoin_stranded_letters(&dehyphenate_line_breaks(&result))
}

/// What the hyphen of a line break becomes.
#[derive(Clone, Copy, PartialEq, Eq, Debug, Structural)]
pub enum Join {
    /// The fragments are one word.
    Plain,
    /// The fragments are a hyphenated compound.
    Hyphen,
    /// No evidence, or a suspended hyphen: the break stays as it is.
    Keep,
}

/// The longest pair of fragments that is joined. Longer ones are reading-order
/// noise.
pub const MAX_JOINED_CHARS: usize = 40;

/// The shortest continuation that two known words make a compound with.
/// Conjunctions behind a suspended hyphen are shorter.
pub const LEAST_COMPOUND_CHARS: usize = 4;

/// The words of a list.
pub open spec fn word_set(words: Seq<String>) -> Set<Seq<char>> {
    Set::new(|w: Seq<char>| exists|i: int| 0 <= i < words.len() && #[trigger] words[i]@ == w)
}

/// What a line break between two fragments becomes by the evidence of the
/// document's own words: joined plain where the joined word appears, with the
/// hyphen where the compound appears, where the continuation is capitalized or
/// where both fragments are words; else it is kept.
pub open spec fn joined_as(a: Seq<char>, b: Seq<char>, words: Set<Seq<char>>, hyphenated: Set<Seq<char>>) -> Join {
    if a.len() + b.len() > MAX_JOINED_CHARS {
        Join::Keep
    } else if words.contains(lowercased(a) + lowercased(b)) {
        Join::Plain
    } else if hyphenated.contains(lowercased(a) + "-"@ + lowercased(b)) || (b.len() > 0 && uppercase(b[0])) {
        Join::Hyphen
    } else if b.len() >= LEAST_COMPOUND_CHARS && words.contains(lowercased(a)) && words.contains(lowercased(b)) {
        Join::Hyphen
    } else {
        Join::Keep
    }
}

fn is_word(words: &Vec<String>, word: &String) -> (r: bool)
    ensures
        r == word_set(words@).contains(word@),
{
    let mut i: usize = 0;
    while i < words.len()
        invariant
            i <= words@.len(),
            forall|j: int| 0 <= j < i ==> #[trigger] words@[j]@ != word@,
        decreases words@.len() - i,
    {
        if words[i] == *word {
            assert(words@[i as int]@ == word@);
            return true;
        }
        i += 1;
    }
    false
}

/// Decides what a line break between two fragments becomes.
pub fn join_decision(a: &str, b: &str, words: &Vec<String>, hyphenated: &Vec<String>) -> (r: Join)
    ensures
        r == joined_as(a@, b@, word_set(words@), word_set(hyphenated@)),
{
    let first = characters(a);
    let second = characters(b);
    if first.len() > MAX_JOINED_CHARS || second.len() > MAX_JOINED_CHARS - first.len() {
        return Join::Keep;
    }
    let low_a = a.to_lowercase();
    let low_b = b.to_lowercase();
    let mut plain: Vec<char> = characters(&low_a);
    let mut compound: Vec<char> = characters(&low_a);
    push_chars(&mut plain, &characters(&low_b));
    push_text(&mut compound, "-");
    push_chars(&mut compound, &characters(&low_b));
    if is_word(words, &text_of(&plain)) {
        return Join::Plain;
    }
    let capitalized = if second.len() > 0 {
        let c: char = second[0];
        c.is_uppercase()
    } else {
        false
    };
    if is_word(hyphenated, &text_of(&compound)) || capitalized {
        Join::Hyphen
    } else if second.len() >= LEAST_COMPOUND_CHARS && is_word(words, &low_a) && is_word(words, &low_b) {
        Join::Hyphen
    } else {
        Join::Keep
    }
}

/// Two fragments around a hyphen and a space.
pub open spec fn break_pattern() -> Seq<char> {
    "(\\p{L}{2,})- (\\p{L}{2,})"@
}

/// Two fragments around a hyphen, with an emphasis span that was split with
/// the word.
pub open spec fn emphasis_break_pattern() -> Seq<char> {
    "(\\p{L}{2,})-(\\*{1,2}) (\\*{1,2})(\\p{L}{2,})"@
}

pub open spec fn plain_word_pattern() -> Seq<char> {
    "\\p{L}{3,}"@
}

pub open spec fn hyphenated_pattern() -> Seq<char> {
    "(\\p{L}{2,})-(\\p{L}{2,})"@
}

/// Two fragments as a decision joins them, or the break as it is.
pub open spec fn rendered(decision: Join, a: Seq<char>, b: Seq<char>, whole: Seq<char>) -> Seq<char> {
    match decision {
        Join::Plain => a + b,
        Join::Hyphen => a + "-"@ + b,
        Join::Keep => whole,
    }
}

/// What a broken word becomes.
pub open spec fn mended_break(m: MatchView, words: Set<Seq<char>>, hyphenated: Set<Seq<char>>) -> Seq<char> {
    let a = group(m, 0);
    let b = group(m, 1);
    if m.whole == a + "- "@ + b {
        rendered(joined_as(a, b, words, hyphenated), a, b, m.whole)
    } else {
        m.whole
    }
}

/// What a word that was broken together with its emphasis becomes. Markers
/// that differ are no split span.
pub open spec fn mended_emphasis(m: MatchView, words: Set<Seq<char>>, hyphenated: Set<Seq<char>>) -> Seq<char> {
    let a = group(m, 0);
    let b = group(m, 3);
    if m.whole == a + "-"@ + group(m, 1) + " "@ + group(m, 2) + b && group(m, 1) == group(m, 2) {
        rendered(joined_as(a, b, words, hyphenated), a, b, m.whole)
    } else {
        m.whole
    }
}

/// The first `n` matches, mended.
pub open spec fn mended(
    matches: Seq<MatchView>,
    words: Set<Seq<char>>,
    hyphenated: Set<Seq<char>>,
    emphasis: bool,
    n: nat,
) -> Seq<char>
    decreases n,
{
    if n == 0 {
        Seq::empty()
    } else {
        let m = matches[n - 1];
        mended(matches, words, hyphenated, emphasis, (n - 1) as nat) + m.before + if emphasis {
            mended_emphasis(m, words, hyphenated)
        } else {
            mended_break(m, words, hyphenated)
        }
    }
}

/// A text with its breaks of one kind mended.
pub open spec fn mended_text(
    s: Seq<char>,
    words: Set<Seq<char>>,
    hyphenated: Set<Seq<char>>,
    emphasis: bool,
) -> Seq<char> {
    let pattern = if emphasis {
        emphasis_break_pattern()
    } else {
        break_pattern()
    };
    let (matches, tail) = matches_of(pattern, s);
    mended(matches, words, hyphenated, emphasis, matches.len()) + tail
}

/// A line after one pass over its breaks.
pub open spec fn one_pass(line: Seq<char>, words: Set<Seq<char>>, hyphenated: Set<Seq<char>>) -> Seq<char> {
    mended_text(mended_text(line, words, hyphenated, true), words, hyphenated, false)
}

/// A line after as many passes as change it. A break can chain, and each pass
/// that changes the line makes it shorter.
pub open spec fn settled(line: Seq<char>, words: Set<Seq<char>>, hyphenated: Set<Seq<char>>) -> Seq<char>
    decreases line.len(),
{
    let next = one_pass(line, words, hyphenated);
    if next.len() < line.len() {
        settled(next, words, hyphenated)
    } else {
        next
    }
}

/// A line that opens or closes a code block.
pub open spec fn is_fence(line: Seq<char>) -> bool {
    occurs_at(trim_front(line), "```"@, 0)
}

/// A table row.
pub open spec fn is_table_row(line: Seq<char>) -> bool {
    starts_with(trim_front(line), '|')
}

/// The number of fences among the first `n` lines is odd: the next line is in
/// a code block.
pub open spec fn in_code(lines: Seq<Seq<char>>, n: nat) -> bool
    decreases n,
{
    if n == 0 {
        false
    } else {
        in_code(lines, (n - 1) as nat) != is_fence(lines[n - 1])
    }
}

/// The lines outside code blocks, each with a newline.
pub open spec fn prose(lines: Seq<Seq<char>>, n: nat) -> Seq<char>
    decreases n,
{
    if n == 0 {
        Seq::empty()
    } else {
        let before = prose(lines, (n - 1) as nat);
        let line = lines[n - 1];
        if is_fence(line) || in_code(lines, (n - 1) as nat) {
            before
        } else {
            (before + line).push('\n')
        }
    }
}

/// Prose without its broken words: they would donate their own fragments.
pub open spec fn evidence(s: Seq<char>) -> Seq<char> {
    let all = prose(split(s), split(s).len());
    replaced(break_pattern(), replaced(emphasis_break_pattern(), all, " "@), " "@)
}

/// The words that matches give, in lower case.
pub open spec fn matched_words(matches: Seq<MatchView>) -> Set<Seq<char>> {
    Set::new(|w: Seq<char>| exists|i: int| 0 <= i < matches.len() && lowercased((#[trigger] matches[i]).whole) == w)
}

/// A compound in lower case.
pub open spec fn compound_of(m: MatchView) -> Seq<char> {
    lowercased(group(m, 0)) + "-"@ + lowercased(group(m, 1))
}

/// The compounds that matches give, in lower case.
pub open spec fn matched_compounds(matches: Seq<MatchView>) -> Set<Seq<char>> {
    Set::new(|w: Seq<char>| exists|i: int| 0 <= i < matches.len() && compound_of(#[trigger] matches[i]) == w)
}

/// The words that a document uses.
pub open spec fn document_words(s: Seq<char>) -> Set<Seq<char>> {
    matched_words(matches_of(plain_word_pattern(), evidence(s)).0)
}

/// The compounds that a document uses.
pub open spec fn document_compounds(s: Seq<char>) -> Set<Seq<char>> {
    matched_compounds(matches_of(hyphenated_pattern(), evidence(s)).0)
}

/// The first `n` lines with their broken words joined; lines of code blocks and
/// table rows are as they are.
pub open spec fn joined_breaks(
    lines: Seq<Seq<char>>,
    words: Set<Seq<char>>,
    hyphenated: Set<Seq<char>>,
    n: nat,
) -> Seq<Seq<char>> {
    Seq::new(
        n,
        |i: int|
            if in_code(lines, (i + 1) as nat) || is_table_row(lines[i]) {
                lines[i]
            } else {
                settled(lines[i], words, hyphenated)
            },
    )
}

/// A text with the words that were broken at line ends joined by the evidence
/// of its own words.
pub open spec fn dehyphenated(s: Seq<char>) -> Seq<char> {
    let lines = split(s);
    joined_lines(joined_breaks(lines, document_words(s), document_compounds(s), lines.len()), lines.len())
}

fn mend_match(m: &RegexMatch, words: &Vec<String>, hyphenated: &Vec<String>, emphasis: bool) -> (r: Vec<char>)
    ensures
        r@ == if emphasis {
            mended_emphasis(m@, word_set(words@), word_set(hyphenated@))
        } else {
            mended_break(m@, word_set(words@), word_set(hyphenated@))
        },
        r@.len() <= m@.whole.len(),
        r@.len() == m@.whole.len() ==> r@ == m@.whole,
{
    let whole = characters(&m.whole);
    let a = group_of(m, 0);
    let b = if emphasis {
        group_of(m, 3)
    } else {
        group_of(m, 1)
    };
    let mut shape: Vec<char> = Vec::new();
    push_chars(&mut shape, &a);
    let mut fits = true;
    if emphasis {
        let first = group_of(m, 1);
        let second = group_of(m, 2);
        push_text(&mut shape, "-");
        push_chars(&mut shape, &first);
        push_text(&mut shape, " ");
        push_chars(&mut shape, &second);
        fits = same_chars(&first, &second);
    } else {
        push_text(&mut shape, "- ");
    }
    push_chars(&mut shape, &b);
    proof {
        reveal_strlit("- ");
        reveal_strlit("-");
        reveal_strlit(" ");
        if emphasis {
            assert(shape@ =~= a@ + "-"@ + group(m@, 1) + " "@ + group(m@, 2) + b@);
        } else {
            assert(shape@ =~= a@ + "- "@ + b@);
        }
    }
    if !(fits && same_chars(&shape, &whole)) {
        return whole;
    }
    match join_decision(&text_of(&a), &text_of(&b), words, hyphenated) {
        Join::Plain => {
            let mut out = a;
            push_chars(&mut out, &b);
            out
        },
        Join::Hyphen => {
            let mut out = a;
            push_text(&mut out, "-");
            push_chars(&mut out, &b);
            out
        },
        Join::Keep => whole,
    }
}

/// Mends the given matches of broken words. The result is no longer than the
/// text, and as long only where it is the text.
pub fn mend_matches(
    matches: &Vec<RegexMatch>,
    tail: &str,
    words: &Vec<String>,
    hyphenated: &Vec<String>,
    emphasis: bool,
) -> (r: Vec<char>)
    ensures
        r@ == mended(match_views(matches@), word_set(words@), word_set(hyphenated@), emphasis, matches@.len())
            + tail@,
        r@.len() <= (covered(match_views(matches@), matches@.len()) + tail@).len(),
        r@.len() == (covered(match_views(matches@), matches@.len()) + tail@).len() ==> r@ == covered(
            match_views(matches@),
            matches@.len(),
        ) + tail@,
{
    let ghost model = match_views(matches@);
    let ghost w = word_set(words@);
    let ghost h = word_set(hyphenated@);
    let mut out: Vec<char> = Vec::new();
    let mut i: usize = 0;
    assert(out@ =~= mended(model, w, h, emphasis, 0));
    while i < matches.len()
        invariant
            i <= matches@.len(),
            model == match_views(matches@),
            w == word_set(words@),
            h == word_set(hyphenated@),
            out@ == mended(model, w, h, emphasis, i as nat),
            out@.len() <= covered(model, i as nat).len(),
            out@.len() == covered(model, i as nat).len() ==> out@ == covered(model, i as nat),
        decreases matches@.len() - i,
    {
        let m = &matches[i];
        assert(model[i as int] == m@);
        push_chars(&mut out, &characters(&m.before));
        let piece = mend_match(m, words, hyphenated, emphasis);
        push_chars(&mut out, &piece);
        i += 1;
    }
    push_chars(&mut out, &characters(tail));
    out
}

fn mend_text(text: &Vec<char>, words: &Vec<String>, hyphenated: &Vec<String>, emphasis: bool) -> (r: Vec<char>)
    ensures
        r@ == mended_text(text@, word_set(words@), word_set(hyphenated@), emphasis),
        r@.len() <= text@.len(),
        r@.len() == text@.len() ==> r@ == text@,
{
    let source = text_of(text);
    let (matches, tail) = if emphasis {
        find_matches("(\\p{L}{2,})-(\\*{1,2}) (\\*{1,2})(\\p{L}{2,})", &source)
    } else {
        find_matches("(\\p{L}{2,})- (\\p{L}{2,})", &source)
    };
    mend_matches(&matches, &tail, words, hyphenated, emphasis)
}

fn settle(line: &Vec<char>, words: &Vec<String>, hyphenated: &Vec<String>) -> (r: Vec<char>)
    ensures
        r@ == settled(line@, word_set(words@), word_set(hyphenated@)),
{
    let ghost w = word_set(words@);
    let ghost h = word_set(hyphenated@);
    let mut current: Vec<char> = part(line, 0, line.len());
    assert(current@ =~= line@);
    loop
        invariant
            w == word_set(words@),
            h == word_set(hyphenated@),
            settled(line@, w, h) == settled(current@, w, h),
        decreases current@.len(),
    {
        let emphasis = mend_text(&current, words, hyphenated, true);
        let next = mend_text(&emphasis, words, hyphenated, false);
        if next.len() >= current.len() {
            return next;
        }
        current = next;
    }
}

pub(crate) fn starts_fence(line: &Vec<char>) -> (r: bool)
    ensures
        r == is_fence(line@),
{
    let content = without_front_space(line);
    matches_at(&content, &characters("```"), 0)
}

fn collect_prose(lines: &Vec<Vec<char>>) -> (r: Vec<char>)
    ensures
        r@ == prose(texts(lines@), lines@.len()),
{
    let ghost model = texts(lines@);
    let mut out: Vec<char> = Vec::new();
    let mut code = false;
    let mut i: usize = 0;
    assert(out@ =~= prose(model, 0));
    while i < lines.len()
        invariant
            i <= lines@.len(),
            model == texts(lines@),
            code == in_code(model, i as nat),
            out@ == prose(model, i as nat),
        decreases lines@.len() - i,
    {
        assert(model[i as int] == lines@[i as int]@);
        if starts_fence(&lines[i]) {
            code = !code;
        } else if !code {
            push_chars(&mut out, &lines[i]);
            out.push('\n');
        }
        i += 1;
    }
    out
}

fn collect_words(text: &str) -> (r: Vec<String>)
    ensures
        word_set(r@) == matched_words(matches_of(plain_word_pattern(), text@).0),
{
    let (matches, _) = find_matches("\\p{L}{3,}", text);
    let ghost model = match_views(matches@);
    let mut words: Vec<String> = Vec::new();
    let mut i: usize = 0;
    while i < matches.len()
        invariant
            i <= matches@.len(),
            model == match_views(matches@),
            words@.len() == i,
            forall|j: int| 0 <= j < i ==> (#[trigger] words@[j])@ == lowercased(model[j].whole),
        decreases matches@.len() - i,
    {
        assert(model[i as int] == matches@[i as int]@);
        words.push(matches[i].whole.to_lowercase());
        i += 1;
    }
    proof {
        let left = word_set(words@);
        let right = matched_words(model);
        assert forall|w: Seq<char>| #[trigger] left.contains(w) <==> right.contains(w) by {
            if left.contains(w) {
                let k = choose|k: int| 0 <= k < words@.len() && #[trigger] words@[k]@ == w;
                assert(lowercased(model[k].whole) == w);
            }
            if right.contains(w) {
                let k = choose|k: int| 0 <= k < model.len() && lowercased((#[trigger] model[k]).whole) == w;
                assert(words@[k]@ == w);
            }
        }
        assert(left =~= right);
    }
    words
}

fn collect_compounds(text: &str) -> (r: Vec<String>)
    ensures
        word_set(r@) == matched_compounds(matches_of(hyphenated_pattern(), text@).0),
{
    let (matches, _) = find_matches("(\\p{L}{2,})-(\\p{L}{2,})", text);
    let ghost model = match_views(matches@);
    let mut words: Vec<String> = Vec::new();
    let mut i: usize = 0;
    while i < matches.len()
        invariant
            i <= matches@.len(),
            model == match_views(matches@),
            words@.len() == i,
            forall|j: int| 0 <= j < i ==> (#[trigger] words@[j])@ == compound_of(model[j]),
        decreases matches@.len() - i,
    {
        assert(model[i as int] == matches@[i as int]@);
        let a = text_of(&group_of(&matches[i], 0)).to_lowercase();
        let b = text_of(&group_of(&matches[i], 1)).to_lowercase();
        let mut compound = characters(&a);
        push_text(&mut compound, "-");
        push_chars(&mut compound, &characters(&b));
        words.push(text_of(&compound));
        i += 1;
    }
    proof {
        let left = word_set(words@);
        let right = matched_compounds(model);
        assert forall|w: Seq<char>| #[trigger] left.contains(w) <==> right.contains(w) by {
            if left.contains(w) {
                let k = choose|k: int| 0 <= k < words@.len() && #[trigger] words@[k]@ == w;
                assert(compound_of(model[k]) == w);
            }
            if right.contains(w) {
                let k = choose|k: int| 0 <= k < model.len() && compound_of(#[trigger] model[k]) == w;
                assert(words@[k]@ == w);
            }
        }
        assert(left =~= right);
    }
    words
}

/// Rejoins words that were hyphenated at line breaks.
///
/// Whether the hyphen belongs to the word cannot be decided locally, so the
/// document is its own dictionary. Table rows and code blocks are left as they
/// are, and code is no evidence.
pub fn dehyphenate_line_breaks(text: &str) -> (r: String)
    ensures
        r@ == dehyphenated(text@),
{
    let lines = split_lines(&characters(text));
    let ghost model = texts(lines@);
    let all = text_of(&collect_prose(&lines));
    let scrubbed = text_of(&replace_all("(\\p{L}{2,})-(\\*{1,2}) (\\*{1,2})(\\p{L}{2,})", &all, " "));
    let scrubbed = text_of(&replace_all("(\\p{L}{2,})- (\\p{L}{2,})", &scrubbed, " "));
    let words = collect_words(&scrubbed);
    let compounds = collect_compounds(&scrubbed);
    let ghost w = document_words(text@);
    let ghost h = document_compounds(text@);
    let mut out: Vec<Vec<char>> = Vec::new();
    let mut code = false;
    let mut i: usize = 0;
    while i < lines.len()
        invariant
            i <= lines@.len(),
            model == texts(lines@),
            w == word_set(words@),
            h == word_set(compounds@),
            code == in_code(model, i as nat),
            out@.len() == i,
            forall|j: int| 0 <= j < i ==> (#[trigger] out@[j])@ == joined_breaks(model, w, h, model.len())[j],
        decreases lines@.len() - i,
    {
        let line = &lines[i];
        assert(model[i as int] == line@);
        if starts_fence(line) {
            code = !code;
        }
        let content = without_front_space(line);
        if code || (content.len() > 0 && content[0] == '|') {
            let same = part(line, 0, line.len());
            assert(same@ =~= line@);
            out.push(same);
        } else {
            out.push(settle(line, &words, &compounds));
        }
        i += 1;
    }
    assert(texts(out@) =~= joined_breaks(model, w, h, model.len()));
    text_of(&join_lines(&out))
}

/// The line is a horizontal rule, which marks a page break.
pub open spec fn is_break(line: Seq<char>) -> bool {
    trimmed(line) == "---"@
}

/// The line holds nothing but white space.
pub open spec fn is_blank(line: Seq<char>) -> bool {
    trimmed(line).len() == 0
}

/// A page number on its own between blank lines or page breaks.
pub open spec fn isolated(lines: Seq<Seq<char>>, i: int) -> bool {
    &&& i == 0 || is_break(lines[i - 1]) || is_blank(lines[i - 1])
    &&& i + 1 == lines.len() || is_break(lines[i + 1]) || is_blank(lines[i + 1])
}

/// A page break follows the line, with at most one blank line between.
pub open spec fn before_break(lines: Seq<Seq<char>>, i: int) -> bool {
    ||| i + 1 < lines.len() && is_break(lines[i + 1])
    ||| i + 2 < lines.len() && is_blank(lines[i + 1]) && is_break(lines[i + 2])
}

/// The line is a page number that is removed.
pub open spec fn dropped(lines: Seq<Seq<char>>, i: int) -> bool {
    page_number_line(trimmed(lines[i])) && (isolated(lines, i) || before_break(lines, i))
}

/// The first `n` lines without the removed page numbers.
pub open spec fn without_numbers(lines: Seq<Seq<char>>, n: nat) -> Seq<Seq<char>>
    decreases n,
{
    if n == 0 {
        Seq::empty()
    } else {
        let before = without_numbers(lines, (n - 1) as nat);
        if dropped(lines, n - 1) {
            before
        } else {
            before.push(lines[n - 1])
        }
    }
}

/// A text without isolated page numbers.
pub open spec fn without_page_numbers(s: Seq<char>) -> Seq<char> {
    let lines = lines_of(s);
    let kept = without_numbers(lines, lines.len());
    joined_lines(kept, kept.len())
}

fn is_break_line(line: &Vec<char>) -> (r: bool)
    ensures
        r == is_break(line@),
{
    same_chars(&trim_chars(line), &characters("---"))
}

pub(crate) fn is_blank_line(line: &Vec<char>) -> (r: bool)
    ensures
        r == is_blank(line@),
{
    trim_chars(line).len() == 0
}

fn is_dropped(lines: &Vec<Vec<char>>, i: usize) -> (r: bool)
    requires
        i < lines@.len(),
    ensures
        r == dropped(texts(lines@), i as int),
{
    let ghost model = texts(lines@);
    let count: usize = lines.len();
    assert(model[i as int] == lines@[i as int]@);
    assert(i > 0 ==> model[i - 1] == lines@[i - 1]@);
    assert(i + 1 < count ==> model[i + 1] == lines@[i + 1]@);
    assert(i + 2 < count ==> model[i + 2] == lines@[i + 2]@);
    if !is_page_number_line(&text_of(&trim_chars(&lines[i]))) {
        return false;
    }
    let free_above = i == 0 || is_break_line(&lines[i - 1]) || is_blank_line(&lines[i - 1]);
    let last = i == count - 1;
    let break_below = !last && is_break_line(&lines[i + 1]);
    let blank_below = !last && is_blank_line(&lines[i + 1]);
    let break_further = blank_below && i + 1 < count - 1 && is_break_line(&lines[i + 2]);
    (free_above && (last || break_below || blank_below)) || break_below || break_further
}

/// Removes page numbers that stand alone or right before a page break.
pub fn remove_page_numbers(text: &str) -> (r: String)
    ensures
        r@ == without_page_numbers(text@),
{
    let all = lines(&characters(text));
    let ghost model = texts(all@);
    let mut kept: Vec<Vec<char>> = Vec::new();
    let mut i: usize = 0;
    assert(texts(kept@) =~= without_numbers(model, 0));
    while i < all.len()
        invariant
            i <= all@.len(),
            model == texts(all@),
            texts(kept@) == without_numbers(model, i as nat),
        decreases all@.len() - i,
    {
        assert(model[i as int] == all@[i as int]@);
        if !is_dropped(&all, i) {
            let ghost before = texts(kept@);
            let line = part(&all[i], 0, all[i].len());
            assert(line@ =~= all@[i as int]@);
            kept.push(line);
            assert(texts(kept@) =~= before.push(model[i as int]));
        }
        i += 1;
    }
    assert(texts(kept@).len() == kept@.len());
    text_of(&join_lines(&kept))
}

/// How often a character stands in a text.
pub open spec fn occurrences(s: Seq<char>, c: char) -> nat
    decreases s.len(),
{
    if s.len() == 0 {
        0
    } else {
        occurrences(s.drop_last(), c) + if s.last() == c {
            1nat
        } else {
            0nat
        }
    }
}

/// Behind this text a URL is part of a link already: the target of one, or
/// inside its brackets.
pub open spec fn in_link(prefix: Seq<char>) -> bool {
    ||| prefix.len() >= 2 && prefix[prefix.len() - 2] == ']' && prefix.last() == '('
    ||| occurrences(prefix, '[') > occurrences(prefix, ']')
}

/// A URL as a link to itself.
pub open spec fn self_link(url: Seq<char>) -> Seq<char> {
    "["@ + url + "]("@ + url + ")"@
}

/// The first `n` URLs, each as a link unless it is part of one.
pub open spec fn linked(matches: Seq<MatchView>, n: nat) -> Seq<char>
    decreases n,
{
    if n == 0 {
        Seq::empty()
    } else {
        let m = matches[n - 1];
        let prefix = covered(matches, (n - 1) as nat) + m.before;
        linked(matches, (n - 1) as nat) + m.before + if in_link(prefix) {
            m.whole
        } else {
            self_link(m.whole)
        }
    }
}

/// A text with its bare URLs made links.
pub open spec fn with_links(s: Seq<char>) -> Seq<char> {
    let (matches, tail) = cut(s, url_spans(s));
    linked(matches, matches.len()) + tail
}

fn count_brackets(s: &Vec<char>) -> (r: (usize, usize))
    ensures
        r.0 == occurrences(s@, '['),
        r.1 == occurrences(s@, ']'),
{
    let mut open: usize = 0;
    let mut close: usize = 0;
    let mut i: usize = 0;
    while i < s.len()
        invariant
            i <= s@.len(),
            open <= i,
            close <= i,
            open == occurrences(s@.take(i as int), '['),
            close == occurrences(s@.take(i as int), ']'),
        decreases s@.len() - i,
    {
        assert(s@.take(i + 1).drop_last() =~= s@.take(i as int));
        if s[i] == '[' {
            open += 1;
        } else if s[i] == ']' {
            close += 1;
        }
        i += 1;
    }
    assert(s@.take(s@.len() as int) =~= s@);
    (open, close)
}

fn is_in_link(prefix: &Vec<char>) -> (r: bool)
    ensures
        r == in_link(prefix@),
{
    let n: usize = prefix.len();
    let (open, close) = count_brackets(prefix);
    (n >= 2 && prefix[n - 2] == ']' && prefix[n - 1] == '(') || open > close
}

/// Makes links of the given URLs, unless they are part of one.
pub fn link_matches(matches: &Vec<RegexMatch>, tail: &str) -> (r: String)
    ensures
        r@ == linked(match_views(matches@), matches@.len()) + tail@,
{
    let ghost model = match_views(matches@);
    let mut prefix: Vec<char> = Vec::new();
    let mut out: Vec<char> = Vec::new();
    let mut i: usize = 0;
    assert(out@ =~= linked(model, 0));
    assert(prefix@ =~= covered(model, 0));
    while i < matches.len()
        invariant
            i <= matches@.len(),
            model == match_views(matches@),
            out@ == linked(model, i as nat),
            prefix@ == covered(model, i as nat),
        decreases matches@.len() - i,
    {
        let m = &matches[i];
        assert(model[i as int] == m@);
        let before = characters(&m.before);
        let url = characters(&m.whole);
        push_chars(&mut prefix, &before);
        push_chars(&mut out, &before);
        let ghost start = out@;
        if is_in_link(&prefix) {
            push_chars(&mut out, &url);
        } else {
            push_text(&mut out, "[");
            push_chars(&mut out, &url);
            push_text(&mut out, "](");
            push_chars(&mut out, &url);
            push_text(&mut out, ")");
            assert(out@ =~= start + self_link(m@.whole));
        }
        push_chars(&mut prefix, &url);
        i += 1;
    }
    push_chars(&mut out, &characters(tail));
    text_of(&out)
}

/// Converts bare URLs to links. Taken off again, the links leave a text
/// without square brackets as it was.
pub fn format_urls(text: &str) -> (r: String)
    ensures
        r@ == with_links(text@),
        bracketless(text@) ==> unlinked(r@) == text@,
{
    let (matches, tail) = find_matches("https?://[^\\s<>\\)\\]]+[^\\s<>\\)\\]\\.\\,;]", text);
    proof {
        let model = match_views(matches@);
        if bracketless(text@) {
            lemma_part_bracketless(text@, covered(model, model.len()), tail@);
            law_links_come_off(model, model.len(), tail@);
            law_plain_text_has_no_links(tail@);
        }
    }
    link_matches(&matches, &tail)
}

/// A text with at most two newlines in a row.
pub open spec fn paragraphs(s: Seq<char>) -> Seq<char>
    decreases s.len(),
{
    if s.len() == 0 {
        Seq::empty()
    } else {
        let before = paragraphs(s.drop_last());
        if s.last() == '\n' && before.len() >= 2 && before.last() == '\n' && before[before.len() - 2] == '\n' {
            before
        } else {
            before.push(s.last())
        }
    }
}

fn limit_newlines(s: &Vec<char>) -> (r: Vec<char>)
    ensures
        r@ == paragraphs(s@),
{
    let mut out: Vec<char> = Vec::new();
    let mut i: usize = 0;
    assert(out@ =~= paragraphs(s@.take(0)));
    while i < s.len()
        invariant
            i <= s@.len(),
            out@ == paragraphs(s@.take(i as int)),
        decreases s@.len() - i,
    {
        assert(s@.take(i + 1).drop_last() =~= s@.take(i as int));
        let c: char = s[i];
        let n: usize = out.len();
        if !(c == '\n' && n >= 2 && out[n - 1] == '\n' && out[n - 2] == '\n') {
            out.push(c);
        }
        i += 1;
    }
    assert(s@.take(s@.len() as int) =~= s@);
    out
}

/// The text before its spaces and newlines are tidied.
pub open spec fn rewritten(s: Seq<char>, options: MarkdownOptions) -> Seq<char> {
    let compact = if options.profile == MarkdownProfile::Compact {
        replaced(dot_leader_pattern(), s, " ... "@)
    } else {
        s
    };
    let spaced = collapsed(compact);
    let hyphens = if options.fix_hyphenation {
        rejoined(dehyphenated(with_tight_hyphens(spaced)))
    } else {
        spaced
    };
    let numbers = if options.remove_page_numbers {
        without_page_numbers(hyphens)
    } else {
        hyphens
    };
    if options.format_urls {
        with_links(numbers)
    } else {
        numbers
    }
}

/// The text with its spaces, newlines and ends tidied.
pub open spec fn tidied(s: Seq<char>) -> Seq<char> {
    let brackets = without_bracket_space(collapsed(s));
    trimmed(paragraphs(without_punctuation_space(brackets, brackets.len()))).push('\n')
}

/// Cleans Markdown up by the options. The result ends with one newline.
pub fn clean_markdown(text: String, options: &MarkdownOptions) -> (r: String)
    ensures
        r@ == tidied(rewritten(text@, *options)),
{
    let mut text = text;
    if options.profile == MarkdownProfile::Compact {
        // Saves tokens but changes source text.
        text = collapse_dot_leaders(&text);
    }
    // Breaks with two spaces must look like single-spaced ones before the
    // hyphenation passes.
    collapse_consecutive_spaces(&mut text);
    if options.fix_hyphenation {
        text = fix_hyphenation(&text);
    }
    if options.remove_page_numbers {
        text = remove_page_numbers(&text);
    }
    if options.format_urls {
        text = format_urls(&text);
    }
    collapse_consecutive_spaces(&mut text);
    remove_spaces_before_closing_brackets(&mut text);
    remove_spaces_before_sentence_punctuation(&mut text);
    let mut out = trim_chars(&limit_newlines(&characters(&text)));
    out.push('\n');
    text_of(&out)
}

/// Three newlines stand in a row at `i`.
pub open spec fn three_newlines_at(s: Seq<char>, i: int) -> bool {
    0 <= i && i + 2 < s.len() && s[i] == '\n' && s[i + 1] == '\n' && s[i + 2] == '\n'
}

proof fn lemma_paragraphs_limit_newlines(s: Seq<char>)
    ensures
        forall|i: int| !three_newlines_at(paragraphs(s), i),
    decreases s.len(),
{
    if s.len() > 0 {
        let before = paragraphs(s.drop_last());
        lemma_paragraphs_limit_newlines(s.drop_last());
        let after = paragraphs(s);
        assert forall|i: int| !three_newlines_at(after, i) by {
            assert(!three_newlines_at(before, i));
            if three_newlines_at(after, i) {
                assert(after == before.push(s.last()));
                if i + 2 < before.len() {
                    assert(before[i] == after[i] && before[i + 1] == after[i + 1] && before[i + 2] == after[i + 2]);
                } else {
                    assert(before.last() == after[i + 1] && before[before.len() - 2] == after[i]);
                }
            }
        }
    }
}

proof fn lemma_trimmed_is_part(s: Seq<char>)
    ensures
        exists|from: int, to: int| 0 <= from <= to <= s.len() && trimmed(s) == #[trigger] s.subrange(from, to),
{
    lemma_trim_front_is_suffix(s);
    let front = trim_front(s);
    lemma_trim_back_is_prefix(front);
    let from = s.len() - front.len();
    let to = from + trimmed(s).len();
    assert(trimmed(s) =~= s.subrange(from, to));
}

proof fn lemma_trim_back_is_prefix(s: Seq<char>)
    ensures
        crate::text::trim_back(s).len() <= s.len(),
        crate::text::trim_back(s) == s.take(crate::text::trim_back(s).len() as int),
    decreases s.len(),
{
    if s.len() > 0 && white_space(s.last()) {
        lemma_trim_back_is_prefix(s.drop_last());
        let n = crate::text::trim_back(s).len() as int;
        assert(s.drop_last().take(n) =~= s.take(n));
    } else {
        assert(s.take(s.len() as int) =~= s);
    }
}

/// Cleaned Markdown ends with exactly one newline, starts with no white space
/// and never has three newlines in a row.
pub proof fn law_clean_markdown_is_tidy(s: Seq<char>)
    ensures
        tidied(s).last() == '\n',
        tidied(s).len() > 1 ==> !white_space(tidied(s)[0]) && !white_space(tidied(s)[tidied(s).len() - 2]),
        forall|i: int| !three_newlines_at(tidied(s), i),
{
    let brackets = without_bracket_space(collapsed(s));
    let punctuation = without_punctuation_space(brackets, brackets.len());
    let limited = paragraphs(punctuation);
    let core = trimmed(limited);
    crate::text::law_trimming_is_idempotent(limited);
    lemma_paragraphs_limit_newlines(punctuation);
    lemma_trimmed_is_part(limited);
    let (from, to) = choose|from: int, to: int|
        0 <= from <= to <= limited.len() && core == #[trigger] limited.subrange(from, to);
    assert(tidied(s) == core.push('\n'));
    assert forall|i: int| !three_newlines_at(tidied(s), i) by {
        if three_newlines_at(tidied(s), i) {
            if i + 2 < core.len() {
                assert(three_newlines_at(limited, from + i));
            } else {
                assert(core.last() == '\n');
            }
        }
    }
}

/// Making runs of spaces single twice changes nothing more.
pub proof fn law_single_spacing_is_idempotent(s: Seq<char>)
    ensures
        single_spaced(single_spaced(s)) == single_spaced(s),
    decreases s.len(),
{
    lemma_no_double_space(s);
    lemma_single_spaced_keeps(single_spaced(s));
}

/// Two spaces stand in a row at `i`.
pub open spec fn two_spaces_at(s: Seq<char>, i: int) -> bool {
    0 <= i && i + 1 < s.len() && s[i] == ' ' && s[i + 1] == ' '
}

pub(crate) proof fn lemma_no_double_space(s: Seq<char>)
    ensures
        forall|i: int| !two_spaces_at(single_spaced(s), i),
        s.len() > 0 ==> single_spaced(s).len() > 0 && single_spaced(s).last() == s.last(),
    decreases s.len(),
{
    if s.len() > 0 {
        lemma_no_double_space(s.drop_last());
        let before = single_spaced(s.drop_last());
        let after = single_spaced(s);
        if s.len() > 1 {
            assert(s.drop_last().last() == s[s.len() - 2]);
        }
        assert forall|i: int| !two_spaces_at(after, i) by {
            assert(!two_spaces_at(before, i));
            if two_spaces_at(after, i) && i + 1 >= before.len() {
                assert(after == before.push(s.last()));
                assert(before.last() == after[i]);
            }
        }
    }
}

pub(crate) proof fn lemma_single_spaced_keeps(s: Seq<char>)
    requires
        forall|i: int| !two_spaces_at(s, i),
    ensures
        single_spaced(s) == s,
    decreases s.len(),
{
    if s.len() > 0 {
        assert forall|i: int| !two_spaces_at(s.drop_last(), i) by {
            assert(!two_spaces_at(s, i));
        }
        lemma_single_spaced_keeps(s.drop_last());
        assert(!two_spaces_at(s, s.len() - 2));
        assert(s.drop_last().push(s.last()) =~= s);
    }
}

/// Rejoining words changes no line of a code block and no table row, whatever
/// the words are.
pub proof fn law_code_and_tables_keep_their_breaks(s: Seq<char>, i: int)
    requires
        0 <= i < split(s).len(),
        in_code(split(s), (i + 1) as nat) || is_table_row(split(s)[i]),
    ensures
        joined_breaks(split(s), document_words(s), document_compounds(s), split(s).len())[i] == split(s)[i],
{
}

/// Without a word of evidence a break before a small letter stays as it is.
pub proof fn law_breaks_without_evidence_stay(a: Seq<char>, b: Seq<char>)
    requires
        !(b.len() > 0 && uppercase(b[0])),
    ensures
        joined_as(a, b, Set::empty(), Set::empty()) == Join::Keep,
{
}

proof fn lemma_numbers_kept(lines: Seq<Seq<char>>, n: nat)
    requires
        n <= lines.len(),
    ensures
        without_numbers(lines, n).len() <= n,
        forall|i: int| 0 <= i < without_numbers(lines, n).len() ==> lines.contains(#[trigger] without_numbers(lines, n)[i]),
    decreases n,
{
    if n > 0 {
        lemma_numbers_kept(lines, (n - 1) as nat);
        assert(lines[n - 1] == lines[(n - 1) as int]);
    }
}

/// Removing page numbers only drops lines: every line that is left was there.
pub proof fn law_page_number_removal_only_drops(s: Seq<char>)
    ensures
        without_numbers(lines_of(s), lines_of(s).len()).len() <= lines_of(s).len(),
        forall|i: int|
            0 <= i < without_numbers(lines_of(s), lines_of(s).len()).len() ==> lines_of(s).contains(
                #[trigger] without_numbers(lines_of(s), lines_of(s).len())[i],
            ),
{
    lemma_numbers_kept(lines_of(s), lines_of(s).len());
}

} // verus!
