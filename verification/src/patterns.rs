//! Regular expressions, through the crate `regex`.

use crate::markdown::urls::{url_pattern, url_spans};
use crate::text::{characters, copy_text, find_utf8_length, part, push_chars, text_bytes, text_of};
use vstd::prelude::*;

verus! {

/// A match in a text.
pub struct RegexMatch {
    /// The text between the previous match and this one.
    pub before: String,
    /// The match.
    pub whole: String,
    /// The capture groups of the match; one that took no part is empty.
    pub groups: Vec<String>,
}

/// What a [`RegexMatch`] is.
pub struct MatchView {
    pub before: Seq<char>,
    pub whole: Seq<char>,
    pub groups: Seq<Seq<char>>,
}

impl View for RegexMatch {
    type V = MatchView;

    open spec fn view(&self) -> MatchView {
        MatchView {
            before: self.before@,
            whole: self.whole@,
            groups: Seq::new(self.groups@.len(), |i: int| self.groups@[i]@),
        }
    }
}

pub open spec fn match_views(matches: Seq<RegexMatch>) -> Seq<MatchView> {
    Seq::new(matches.len(), |i: int| matches[i]@)
}

/// The first `n` matches with the text before each of them.
pub open spec fn covered(matches: Seq<MatchView>, n: nat) -> Seq<char>
    decreases n,
{
    if n == 0 {
        Seq::empty()
    } else {
        covered(matches, (n - 1) as nat) + matches[n - 1].before + matches[n - 1].whole
    }
}

/// Where a match is in a text, in bytes of UTF-8.
pub struct RegexSpan {
    pub start: usize,
    pub end: usize,
    /// The capture groups of the match; one that took no part is `None`.
    pub groups: Vec<Option<String>>,
}

/// What a [`RegexSpan`] is.
#[verifier::ext_equal]
pub struct SpanView {
    pub start: nat,
    pub end: nat,
    pub groups: Seq<Option<Seq<char>>>,
}

/// What is left of an optional text.
pub open spec fn group_view(group: Option<String>) -> Option<Seq<char>> {
    match group {
        Some(text) => Some(text@),
        None => None,
    }
}

impl View for RegexSpan {
    type V = SpanView;

    open spec fn view(&self) -> SpanView {
        SpanView {
            start: self.start as nat,
            end: self.end as nat,
            groups: Seq::new(self.groups@.len(), |i: int| group_view(self.groups@[i])),
        }
    }
}

pub open spec fn span_views(spans: Seq<RegexSpan>) -> Seq<SpanView> {
    Seq::new(spans.len(), |i: int| spans[i]@)
}

/// Where the matches of a pattern are in a text, or `None` where the pattern is
/// none.
pub uninterp spec fn regex_spans(pattern: Seq<char>, text: Seq<char>) -> Option<Seq<SpanView>>;

/// The matches follow one another.
pub open spec fn in_order(spans: Seq<SpanView>) -> bool {
    &&& forall|k: int| 0 <= k < spans.len() ==> (#[trigger] spans[k]).start <= spans[k].end
    &&& forall|k: int| 0 < k < spans.len() ==> spans[k - 1].end <= (#[trigger] spans[k]).start
}

/// `regex::Regex::captures_iter`: where the successive matches of the pattern
/// are, each with its capture groups. They follow one another. Which matches
/// there are is the pattern's meaning. It is stated for the pattern of URLs,
/// and left unstated for the others.
#[verifier::external_body]
fn capture_all(pattern: &str, text: &str) -> (r: Option<Vec<RegexSpan>>)
    ensures
        match r {
            Some(spans) => {
                &&& regex_spans(pattern@, text@) == Some(span_views(spans@))
                &&& in_order(span_views(spans@))
                &&& pattern@ == url_pattern() ==> span_views(spans@) == url_spans(text@)
            },
            None => regex_spans(pattern@, text@) is None && pattern@ != url_pattern(),
        },
{
    let expression = regex::Regex::new(pattern).ok()?;
    let mut spans = Vec::new();
    for captures in expression.captures_iter(text) {
        let whole = captures.get(0)?;
        let groups = captures.iter().skip(1).map(|group| group.map(|group| group.as_str().to_string())).collect();
        spans.push(RegexSpan { start: whole.start(), end: whole.end(), groups });
    }
    Some(spans)
}

/// The first place from `i` on that has so many bytes before it.
pub open spec fn place_from(text: Seq<char>, bytes: nat, i: int) -> int
    decreases text.len() - i,
{
    if i < 0 || i >= text.len() || text_bytes(text.take(i)) >= bytes {
        i
    } else {
        place_from(text, bytes, i + 1)
    }
}

/// The place in a text that so many bytes lead to.
pub open spec fn place_of(text: Seq<char>, bytes: nat) -> int {
    place_from(text, bytes, 0)
}

/// The end of the match before the match `k`, or the start of the text.
pub open spec fn cut_start(text: Seq<char>, spans: Seq<SpanView>, k: int) -> int {
    if k <= 0 {
        0
    } else {
        place_of(text, spans[k - 1].end)
    }
}

/// The text of a capture group; nothing where it took no part.
pub open spec fn group_text(group: Option<Seq<char>>) -> Seq<char> {
    match group {
        Some(text) => text,
        None => Seq::empty(),
    }
}

/// The match `k`, cut out of the text.
pub open spec fn cut_match(text: Seq<char>, spans: Seq<SpanView>, k: int) -> MatchView {
    let start = place_of(text, spans[k].start);
    MatchView {
        before: text.subrange(cut_start(text, spans, k), start),
        whole: text.subrange(start, place_of(text, spans[k].end)),
        groups: Seq::new(spans[k].groups.len(), |i: int| group_text(spans[k].groups[i])),
    }
}

/// The matches, cut out of the text, and the text behind the last.
pub open spec fn cut(text: Seq<char>, spans: Seq<SpanView>) -> (Seq<MatchView>, Seq<char>) {
    (
        Seq::new(spans.len(), |k: int| cut_match(text, spans, k)),
        text.skip(cut_start(text, spans, spans.len() as int)),
    )
}

proof fn lemma_place_from(text: Seq<char>, bytes: nat, i: int)
    requires
        0 <= i <= text.len(),
    ensures
        i <= place_from(text, bytes, i) <= text.len(),
        forall|k: int| i <= k < place_from(text, bytes, i) ==> text_bytes(#[trigger] text.take(k)) < bytes,
    decreases text.len() - i,
{
    if i < text.len() && text_bytes(text.take(i)) < bytes {
        lemma_place_from(text, bytes, i + 1);
    }
}

proof fn lemma_place_later(text: Seq<char>, bytes: nat, i: int, k: int)
    requires
        0 <= i <= k <= text.len(),
        forall|j: int| i <= j < k ==> text_bytes(#[trigger] text.take(j)) < bytes,
    ensures
        place_from(text, bytes, i) == place_from(text, bytes, k),
    decreases k - i,
{
    if i < k {
        assert(text_bytes(text.take(i)) < bytes);
        lemma_place_later(text, bytes, i + 1, k);
    }
}

/// More bytes lead to the same place or a later one.
pub(crate) proof fn lemma_places_follow(text: Seq<char>, few: nat, many: nat)
    requires
        few <= many,
    ensures
        0 <= place_of(text, few) <= place_of(text, many) <= text.len(),
        place_of(text, many) == place_from(text, many, place_of(text, few)),
{
    lemma_place_from(text, few, 0);
    let k = place_of(text, few);
    lemma_place_later(text, many, 0, k);
    lemma_place_from(text, many, k);
}

pub(crate) proof fn lemma_bytes_grow(text: Seq<char>, i: int, k: int)
    requires
        0 <= i < k <= text.len(),
    ensures
        text_bytes(text.take(i)) < text_bytes(text.take(k)),
    decreases k - i,
{
    assert(text.take(k).drop_last() =~= text.take(k - 1));
    if i < k - 1 {
        lemma_bytes_grow(text, i, k - 1);
    }
}

/// The bytes before a place lead back to it.
pub(crate) proof fn lemma_place_of_bytes(text: Seq<char>, i: int)
    requires
        0 <= i <= text.len(),
    ensures
        place_of(text, text_bytes(text.take(i))) == i,
{
    let bytes = text_bytes(text.take(i));
    assert forall|k: int| 0 <= k < i implies text_bytes(#[trigger] text.take(k)) < bytes by {
        lemma_bytes_grow(text, k, i);
    }
    lemma_place_later(text, bytes, 0, i);
}

/// The cut matches up to `n` are the text up to the end of the last.
pub(crate) proof fn lemma_cut_covers(text: Seq<char>, spans: Seq<SpanView>, n: nat)
    requires
        in_order(spans),
        n <= spans.len(),
    ensures
        0 <= cut_start(text, spans, n as int) <= text.len(),
        covered(cut(text, spans).0, n) == text.take(cut_start(text, spans, n as int)),
    decreases n,
{
    if n == 0 {
        assert(text.take(0) =~= Seq::empty());
    } else {
        lemma_cut_covers(text, spans, (n - 1) as nat);
        let span = spans[n - 1];
        let from = cut_start(text, spans, n - 1);
        if n > 1 {
            assert(spans[n - 1 - 1].end <= spans[n - 1].start);
            lemma_places_follow(text, spans[n - 2].end, span.start);
        } else {
            lemma_place_from(text, span.start, 0);
        }
        lemma_places_follow(text, span.start, span.end);
        let m = cut(text, spans).0[n - 1];
        assert(m == cut_match(text, spans, n - 1));
        assert(text.take(from) + m.before + m.whole =~= text.take(cut_start(text, spans, n as int)));
    }
}

/// Goes on to the place that so many bytes lead to.
fn go_to(chars: &Vec<char>, from: usize, passed: u128, bytes: usize) -> (r: (usize, u128))
    requires
        from <= chars@.len(),
        passed == text_bytes(chars@.take(from as int)),
    ensures
        from <= r.0 <= chars@.len(),
        r.0 == place_from(chars@, bytes as nat, from as int),
        r.1 == text_bytes(chars@.take(r.0 as int)),
{
    let mut at: usize = from;
    let mut passed: u128 = passed;
    while at < chars.len() && passed < bytes as u128
        invariant
            from <= at <= chars@.len(),
            passed == text_bytes(chars@.take(at as int)),
            place_from(chars@, bytes as nat, from as int) == place_from(chars@, bytes as nat, at as int),
        decreases chars@.len() - at,
    {
        assert(chars@.take(at + 1).drop_last() =~= chars@.take(at as int));
        passed += find_utf8_length(chars[at]) as u128;
        at += 1;
    }
    (at, passed)
}

fn take_groups(groups: &Vec<Option<String>>) -> (r: Vec<String>)
    ensures
        r@.len() == groups@.len(),
        forall|i: int| 0 <= i < r@.len() ==> (#[trigger] r@[i])@ == group_text(group_view(groups@[i])),
{
    let mut out: Vec<String> = Vec::new();
    let mut i: usize = 0;
    while i < groups.len()
        invariant
            i <= groups@.len(),
            out@.len() == i,
            forall|k: int| 0 <= k < i ==> (#[trigger] out@[k])@ == group_text(group_view(groups@[k])),
        decreases groups@.len() - i,
    {
        let text = match &groups[i] {
            Some(text) => copy_text(text),
            None => String::new(),
        };
        assert(text@ =~= group_text(group_view(groups@[i as int])));
        out.push(text);
        i += 1;
    }
    out
}

/// Cuts the matches out of a text.
fn cut_matches(text: &str, spans: &Vec<RegexSpan>) -> (r: (Vec<RegexMatch>, String))
    requires
        in_order(span_views(spans@)),
    ensures
        (match_views(r.0@), r.1@) == cut(text@, span_views(spans@)),
        covered(match_views(r.0@), r.0@.len()) + r.1@ == text@,
{
    let chars = characters(text);
    let ghost model = span_views(spans@);
    let ghost parts = cut(text@, model).0;
    let mut matches: Vec<RegexMatch> = Vec::new();
    let mut at: usize = 0;
    let mut passed: u128 = 0;
    let mut i: usize = 0;
    assert(chars@.take(0) =~= Seq::empty());
    while i < spans.len()
        invariant
            i <= spans@.len(),
            chars@ == text@,
            model == span_views(spans@),
            in_order(model),
            parts == cut(text@, model).0,
            at <= chars@.len(),
            at == cut_start(text@, model, i as int),
            passed == text_bytes(chars@.take(at as int)),
            matches@.len() == i,
            forall|k: int| 0 <= k < i ==> (#[trigger] matches@[k])@ == parts[k],
        decreases spans@.len() - i,
    {
        let span = &spans[i];
        assert(model[i as int] == span@);
        proof {
            if i > 0 {
                assert(model[i - 1].end <= model[i as int].start);
                lemma_places_follow(text@, model[i - 1].end, span.start as nat);
            }
            lemma_places_follow(text@, span.start as nat, span.end as nat);
        }
        let (start, before_start) = go_to(&chars, at, passed, span.start);
        let (end, before_end) = go_to(&chars, start, before_start, span.end);
        let found = RegexMatch {
            before: text_of(&part(&chars, at, start)),
            whole: text_of(&part(&chars, start, end)),
            groups: take_groups(&span.groups),
        };
        assert(found@.groups =~= cut_match(text@, model, i as int).groups);
        matches.push(found);
        at = end;
        passed = before_end;
        i += 1;
    }
    let tail = text_of(&part(&chars, at, chars.len()));
    proof {
        assert(match_views(matches@) =~= parts);
        assert(chars@.subrange(at as int, chars@.len() as int) =~= text@.skip(at as int));
        lemma_cut_covers(text@, model, model.len());
        assert(text@.take(at as int) + text@.skip(at as int) =~= text@);
    }
    (matches, tail)
}

/// The matches of a pattern and the text behind the last. A pattern that is
/// none matches nothing.
pub open spec fn matches_of(pattern: Seq<char>, text: Seq<char>) -> (Seq<MatchView>, Seq<char>) {
    match regex_spans(pattern, text) {
        Some(spans) => cut(text, spans),
        None => (Seq::empty(), text),
    }
}

/// Finds the matches of a pattern in a text.
pub fn find_matches(pattern: &str, text: &str) -> (r: (Vec<RegexMatch>, String))
    ensures
        (match_views(r.0@), r.1@) == matches_of(pattern@, text@),
        covered(match_views(r.0@), r.0@.len()) + r.1@ == text@,
        pattern@ == url_pattern() ==> (match_views(r.0@), r.1@) == cut(text@, url_spans(text@)),
{
    match capture_all(pattern, text) {
        Some(spans) => cut_matches(text, &spans),
        None => {
            let none: Vec<RegexMatch> = Vec::new();
            let tail = text_of(&characters(text));
            assert(match_views(none@) =~= Seq::empty());
            assert(covered(match_views(none@), 0) + tail@ =~= text@);
            (none, tail)
        },
    }
}

/// The text that a capture group matched.
pub open spec fn group(m: MatchView, i: int) -> Seq<char> {
    if 0 <= i < m.groups.len() {
        m.groups[i]
    } else {
        Seq::empty()
    }
}

pub fn group_of(m: &RegexMatch, i: usize) -> (r: Vec<char>)
    ensures
        r@ == group(m@, i as int),
{
    if i < m.groups.len() {
        assert(m@.groups[i as int] == m.groups@[i as int]@);
        characters(&m.groups[i])
    } else {
        let none: Vec<char> = Vec::new();
        assert(none@ =~= Seq::empty());
        none
    }
}

/// The first `n` matches, each replaced by one text.
pub open spec fn replaced_by(matches: Seq<MatchView>, replacement: Seq<char>, n: nat) -> Seq<char>
    decreases n,
{
    if n == 0 {
        Seq::empty()
    } else {
        replaced_by(matches, replacement, (n - 1) as nat) + matches[n - 1].before + replacement
    }
}

/// A text with all matches of a pattern replaced by one text.
pub open spec fn replaced(pattern: Seq<char>, text: Seq<char>, replacement: Seq<char>) -> Seq<char> {
    let (matches, tail) = matches_of(pattern, text);
    replaced_by(matches, replacement, matches.len()) + tail
}

/// Replaces all given matches by one text.
pub fn replace_matches(matches: &Vec<RegexMatch>, tail: &str, replacement: &str) -> (r: Vec<char>)
    ensures
        r@ == replaced_by(match_views(matches@), replacement@, matches@.len()) + tail@,
{
    let ghost model = match_views(matches@);
    let mut out: Vec<char> = Vec::new();
    let mut i: usize = 0;
    assert(out@ =~= replaced_by(model, replacement@, 0));
    while i < matches.len()
        invariant
            i <= matches@.len(),
            model == match_views(matches@),
            out@ == replaced_by(model, replacement@, i as nat),
        decreases matches@.len() - i,
    {
        assert(model[i as int] == matches@[i as int]@);
        push_chars(&mut out, &characters(&matches[i].before));
        push_chars(&mut out, &characters(replacement));
        i += 1;
    }
    push_chars(&mut out, &characters(tail));
    out
}

/// Replaces all matches of a pattern by one text.
pub fn replace_all(pattern: &str, text: &str, replacement: &str) -> (r: Vec<char>)
    ensures
        r@ == replaced(pattern@, text@, replacement@),
{
    let (matches, tail) = find_matches(pattern, text);
    replace_matches(&matches, &tail, replacement)
}

} // verus!
