//! The links that bare URLs become, and the way back.

use crate::markdown::postprocess::{in_link, linked, occurrences, self_link, with_links};
use crate::markdown::urls::{
    lemma_next_url, lemma_no_url_before_link, lemma_none_between, lemma_places, lemma_url_closed, lemma_url_parts,
    next_url, search_start, url_char, url_len, url_places, url_spans,
};
use crate::patterns::{
    covered, cut, cut_match, cut_start, in_order, lemma_bytes_grow, lemma_cut_covers, lemma_place_of_bytes, MatchView,
};
use vstd::prelude::*;

verus! {

/// The text holds no square bracket.
pub open spec fn bracketless(s: Seq<char>) -> bool {
    !s.contains('[') && !s.contains(']')
}

/// The target of the link to itself that a text starts with, if it starts with
/// one.
pub open spec fn leading_link(s: Seq<char>) -> Option<Seq<char>> {
    match s.index_of_first(']') {
        Some(k) => {
            let url = s.subrange(1, k);
            if 1 <= k && self_link(url).is_prefix_of(s) {
                Some(url)
            } else {
                None
            }
        },
        None => None,
    }
}

/// A text with each link to itself made its URL again.
pub open spec fn unlinked(s: Seq<char>) -> Seq<char>
    decreases s.len(),
{
    if s.len() == 0 {
        Seq::empty()
    } else {
        match leading_link(s) {
            Some(url) => if self_link(url).len() > 0 {
                url + unlinked(s.skip(self_link(url).len() as int))
            } else {
                s
            },
            None => seq![s[0]] + unlinked(s.drop_first()),
        }
    }
}

proof fn lemma_self_link(url: Seq<char>)
    ensures
        self_link(url) == seq!['['] + url + seq![']', '('] + url + seq![')'],
        self_link(url).len() == 2 * url.len() + 4,
{
    reveal_strlit("[");
    reveal_strlit("](");
    reveal_strlit(")");
    assert("["@ =~= seq!['[']);
    assert("]("@ =~= seq![']', '(']);
    assert(")"@ =~= seq![')']);
}

proof fn lemma_plain_stays(x: Seq<char>, y: Seq<char>)
    requires
        bracketless(x),
    ensures
        unlinked(x + y) == x + unlinked(y),
    decreases x.len(),
{
    if x.len() == 0 {
        assert(x + y =~= y);
        assert(x + unlinked(y) =~= unlinked(y));
    } else {
        let s = x + y;
        assert(x.contains(x[0]));
        assert(s[0] == x[0]);
        if let Some(url) = leading_link(s) {
            lemma_self_link(url);
            assert(self_link(url)[0] == s[0]);
        }
        assert forall|i: int| 0 <= i < x.drop_first().len() implies x.drop_first()[i] != '[' && x.drop_first()[i] != ']' by {
            assert(x.contains(x[i + 1]));
        }
        lemma_plain_stays(x.drop_first(), y);
        assert(s.drop_first() =~= x.drop_first() + y);
        assert(seq![s[0]] + (x.drop_first() + unlinked(y)) =~= x + unlinked(y));
    }
}

proof fn lemma_link_comes_off(url: Seq<char>, y: Seq<char>)
    requires
        bracketless(url),
    ensures
        unlinked(self_link(url) + y) == url + unlinked(y),
{
    let link = self_link(url);
    let s = link + y;
    let k = url.len() as int + 1;
    lemma_self_link(url);
    s.index_of_first_ensures(']');
    assert(s[k] == ']');
    assert(s.contains(']'));
    let first = s.index_of_first(']')->0;
    assert(s.index_of_first(']') == Some(first));
    if first != k {
        if first < k {
            assert(first >= 1);
            assert(s[first] == url[first - 1]);
            assert(url.contains(url[first - 1]));
        }
    }
    assert(s.subrange(1, k) =~= url);
    assert(link.is_prefix_of(s));
    assert(leading_link(s) == Some(url));
    assert(s.skip(link.len() as int) =~= y);
}

proof fn lemma_no_occurrence(s: Seq<char>, c: char)
    requires
        !s.contains(c),
    ensures
        occurrences(s, c) == 0,
    decreases s.len(),
{
    if s.len() > 0 {
        assert(s.contains(s.last()));
        assert forall|i: int| 0 <= i < s.drop_last().len() implies s.drop_last()[i] != c by {
            assert(s.contains(s[i]));
        }
        lemma_no_occurrence(s.drop_last(), c);
    }
}

pub(crate) proof fn lemma_part_bracketless(whole: Seq<char>, a: Seq<char>, b: Seq<char>)
    requires
        bracketless(whole),
        whole == a + b,
    ensures
        bracketless(a),
        bracketless(b),
{
    assert forall|i: int| 0 <= i < a.len() implies a[i] != '[' && a[i] != ']' by {
        assert(whole.contains(whole[i]));
    }
    assert forall|i: int| 0 <= i < b.len() implies b[i] != '[' && b[i] != ']' by {
        assert(whole.contains(whole[a.len() + i]));
    }
}

/// Taken off again, the links of a text without square brackets leave the
/// text.
pub proof fn law_links_come_off(matches: Seq<MatchView>, n: nat, tail: Seq<char>)
    requires
        n <= matches.len(),
        bracketless(covered(matches, n)),
    ensures
        unlinked(linked(matches, n) + tail) == covered(matches, n) + unlinked(tail),
    decreases n,
{
    if n == 0 {
        assert(linked(matches, n) + tail =~= tail);
        assert(covered(matches, n) + unlinked(tail) =~= unlinked(tail));
    } else {
        let m = matches[n - 1];
        let shorter = covered(matches, (n - 1) as nat);
        let prefix = shorter + m.before;
        lemma_part_bracketless(covered(matches, n), prefix, m.whole);
        lemma_part_bracketless(prefix, shorter, m.before);
        lemma_no_occurrence(prefix, '[');
        if prefix.len() >= 2 {
            assert(prefix.contains(prefix[prefix.len() - 2]));
        }
        assert(!in_link(prefix));
        let rest = m.before + (self_link(m.whole) + tail);
        assert(linked(matches, n) + tail =~= linked(matches, (n - 1) as nat) + rest);
        law_links_come_off(matches, (n - 1) as nat, rest);
        lemma_plain_stays(m.before, self_link(m.whole) + tail);
        lemma_link_comes_off(m.whole, tail);
        assert(shorter + (m.before + (m.whole + unlinked(tail))) =~= covered(matches, n) + unlinked(tail));
    }
}

/// A text without square brackets holds no links.
pub proof fn law_plain_text_has_no_links(s: Seq<char>)
    requires
        bracketless(s),
    ensures
        unlinked(s) == s,
{
    lemma_plain_stays(s, Seq::empty());
    assert(s + Seq::<char>::empty() =~= s);
    assert(s + unlinked(Seq::empty()) =~= s);
}

proof fn lemma_occurrences_sum(a: Seq<char>, b: Seq<char>, c: char)
    ensures
        occurrences(a + b, c) == occurrences(a, c) + occurrences(b, c),
    decreases b.len(),
{
    if b.len() == 0 {
        assert(a + b =~= a);
    } else {
        lemma_occurrences_sum(a, b.drop_last(), c);
        assert((a + b).drop_last() =~= a + b.drop_last());
    }
}

proof fn lemma_single_occurrence(c: char, d: char)
    ensures
        occurrences(seq![c], d) == if c == d {
            1nat
        } else {
            0nat
        },
{
    assert(seq![c].drop_last() =~= Seq::empty());
    assert(occurrences(seq![c].drop_last(), d) == 0);
}

proof fn lemma_link_brackets(url: Seq<char>)
    requires
        bracketless(url),
    ensures
        occurrences(self_link(url), '[') == occurrences(self_link(url), ']'),
{
    lemma_self_link(url);
    lemma_no_occurrence(url, '[');
    lemma_no_occurrence(url, ']');
    let a = seq!['['];
    let b = a + url;
    let c = b + seq![']', '('];
    let d = c + url;
    assert(seq![']', '('] =~= seq![']'] + seq!['(']);
    assert forall|x: char| x == '[' || x == ']' implies #[trigger] occurrences(self_link(url), x) == 1 by {
        lemma_occurrences_sum(a, url, x);
        lemma_occurrences_sum(seq![']'], seq!['('], x);
        lemma_occurrences_sum(b, seq![']', '('], x);
        lemma_occurrences_sum(c, url, x);
        lemma_occurrences_sum(d, seq![')'], x);
        lemma_single_occurrence('[', x);
        lemma_single_occurrence(']', x);
        lemma_single_occurrence('(', x);
        lemma_single_occurrence(')', x);
        lemma_no_occurrence(url, x);
    }
}

proof fn lemma_links_balance(matches: Seq<MatchView>, n: nat)
    requires
        n <= matches.len(),
        bracketless(covered(matches, n)),
    ensures
        occurrences(linked(matches, n), '[') == occurrences(linked(matches, n), ']'),
    decreases n,
{
    if n > 0 {
        let m = matches[n - 1];
        let shorter = covered(matches, (n - 1) as nat);
        let prefix = shorter + m.before;
        lemma_part_bracketless(covered(matches, n), prefix, m.whole);
        lemma_part_bracketless(prefix, shorter, m.before);
        lemma_links_balance(matches, (n - 1) as nat);
        lemma_no_occurrence(prefix, '[');
        if prefix.len() >= 2 {
            assert(prefix.contains(prefix[prefix.len() - 2]));
        }
        let start = linked(matches, (n - 1) as nat);
        lemma_link_brackets(m.whole);
        lemma_no_occurrence(m.before, '[');
        lemma_no_occurrence(m.before, ']');
        lemma_occurrences_sum(start, m.before, '[');
        lemma_occurrences_sum(start, m.before, ']');
        lemma_occurrences_sum(start + m.before, self_link(m.whole), '[');
        lemma_occurrences_sum(start + m.before, self_link(m.whole), ']');
    }
}

proof fn lemma_prefix_bracketless(matches: Seq<MatchView>, k: nat, n: nat)
    requires
        k <= n <= matches.len(),
        bracketless(covered(matches, n)),
    ensures
        bracketless(covered(matches, k)),
    decreases n,
{
    if k < n {
        let shorter = covered(matches, (n - 1) as nat);
        let m = matches[n - 1];
        assert(covered(matches, n) =~= shorter + (m.before + m.whole));
        lemma_part_bracketless(covered(matches, n), shorter, m.before + m.whole);
        lemma_prefix_bracketless(matches, k, (n - 1) as nat);
    }
}

proof fn lemma_url_spans_in_order(s: Seq<char>)
    ensures
        in_order(url_spans(s)),
{
    let places = url_places(s, 0);
    let spans = url_spans(s);
    lemma_places(s, 0);
    assert forall|k: int| 0 <= k < spans.len() implies (#[trigger] spans[k]).start <= spans[k].end by {
        assert(places[k].0 < places[k].1);
        lemma_bytes_grow(s, places[k].0, places[k].1);
    }
    assert forall|k: int| 0 < k < spans.len() implies spans[k - 1].end <= (#[trigger] spans[k]).start by {
        assert(places[k - 1].1 <= places[k].0);
        assert(0 <= places[k - 1].0);
        if places[k - 1].1 < places[k].0 {
            lemma_bytes_grow(s, places[k - 1].1, places[k].0);
        }
    }
}

proof fn lemma_cut_start(s: Seq<char>, k: int)
    requires
        0 <= k <= url_places(s, 0).len(),
    ensures
        cut_start(s, url_spans(s), k) == search_start(url_places(s, 0), 0, k),
        0 <= search_start(url_places(s, 0), 0, k) <= s.len(),
{
    let places = url_places(s, 0);
    lemma_places(s, 0);
    if k > 0 {
        assert(0 <= places[k - 1].0);
        lemma_place_of_bytes(s, places[k - 1].1);
    }
}

/// The URLs of a text and what stands between them are the text.
proof fn lemma_url_cut(s: Seq<char>)
    ensures
        cut(s, url_spans(s)).0.len() == url_places(s, 0).len(),
        cut(s, url_spans(s)).1 == s.skip(search_start(url_places(s, 0), 0, url_places(s, 0).len() as int)),
        covered(cut(s, url_spans(s)).0, cut(s, url_spans(s)).0.len()) + cut(s, url_spans(s)).1 == s,
{
    let n = url_places(s, 0).len() as int;
    lemma_url_spans_in_order(s);
    lemma_cut_start(s, n);
    lemma_cut_covers(s, url_spans(s), n as nat);
    let at = cut_start(s, url_spans(s), n);
    assert(s.take(at) + s.skip(at) =~= s);
}

/// The URL `k` of a text, cut out of it.
proof fn lemma_url_cut_at(s: Seq<char>, k: int)
    requires
        0 <= k < url_places(s, 0).len(),
    ensures
        ({
            let (start, end) = url_places(s, 0)[k];
            let from = search_start(url_places(s, 0), 0, k);
            let m = cut(s, url_spans(s)).0[k];
            &&& 0 <= from <= start < end <= s.len()
            &&& end == start + url_len(s.skip(start))
            &&& m.before == s.subrange(from, start)
            &&& m.whole == s.subrange(start, end)
            &&& covered(cut(s, url_spans(s)).0, k as nat) == s.take(from)
        }),
{
    let places = url_places(s, 0);
    let spans = url_spans(s);
    lemma_places(s, 0);
    lemma_cut_start(s, k);
    assert(cut(s, spans).0[k] == cut_match(s, spans, k));
    assert(0 <= places[k].0 < places[k].1 <= s.len());
    if k > 0 {
        assert(places[k - 1].1 <= places[k].0);
    }
    lemma_place_of_bytes(s, places[k].0);
    lemma_place_of_bytes(s, places[k].1);
    lemma_url_spans_in_order(s);
    lemma_cut_covers(s, spans, k as nat);
}

/// A URL that is the target of a link starts here.
spec fn is_target(s: Seq<char>, t: int) -> bool {
    2 <= t < s.len() && s[t - 2] == ']' && s[t - 1] == '(' && url_len(s.skip(t)) > 0
}

/// The place lies within the target of a link.
spec fn in_target(s: Seq<char>, p: int) -> bool {
    exists|t: int| #[trigger] is_target(s, t) && t < p < t + url_len(s.skip(t))
}

/// Where a URL of the text is part of a link, or within the target of one.
spec fn links_hold(s: Seq<char>) -> bool {
    forall|p: int|
        0 <= p < s.len() && url_len(#[trigger] s.skip(p)) > 0 ==> in_link(s.take(p)) || in_target(s, p)
}

/// The URLs found from a place outside all targets on are parts of links.
proof fn lemma_found_in_links(s: Seq<char>, i: int)
    requires
        0 <= i <= s.len(),
        links_hold(s),
        !in_target(s, i),
    ensures
        forall|k: int| 0 <= k < url_places(s, i).len() ==> in_link(s.take((#[trigger] url_places(s, i)[k]).0)),
    decreases s.len() - i,
{
    lemma_next_url(s, i);
    if let Some(start) = next_url(s, i) {
        let found = s.skip(start);
        let end = start + url_len(found);
        lemma_url_parts(found);
        if in_target(s, start) {
            let t = choose|t: int| #[trigger] is_target(s, t) && t < start < t + url_len(s.skip(t));
            if t >= i {
                assert(url_len(s.skip(t)) == 0);
            } else {
                assert(t < i < t + url_len(s.skip(t)));
            }
        }
        assert(in_link(s.take(start)));
        if in_target(s, end) {
            let t = choose|t: int| #[trigger] is_target(s, t) && t < end < t + url_len(s.skip(t));
            if t < start {
                assert(t < start < t + url_len(s.skip(t)));
                assert(in_target(s, start));
            } else if t > start {
                if start == t - 1 {
                    assert(found[0] == s[start]);
                } else {
                    assert(found[t - 2 - start] == s[t - 2]);
                    assert(url_char(found[t - 2 - start]));
                }
            }
        }
        lemma_found_in_links(s, end);
        let later = url_places(s, end);
        let places = url_places(s, i);
        assert(places == seq![(start, end)] + later);
        assert forall|k: int| 0 <= k < places.len() implies in_link(s.take((#[trigger] places[k]).0)) by {
            if k > 0 {
                assert(places[k] == later[k - 1]);
            }
        }
    }
}

proof fn lemma_linked_step(matches: Seq<MatchView>, k: int)
    requires
        0 <= k < matches.len(),
        bracketless(covered(matches, matches.len())),
    ensures
        linked(matches, (k + 1) as nat) == linked(matches, k as nat) + matches[k].before + self_link(matches[k].whole),
        bracketless(covered(matches, k as nat)),
        bracketless(matches[k].before),
        bracketless(matches[k].whole),
{
    let m = matches[k];
    let shorter = covered(matches, k as nat);
    let prefix = shorter + m.before;
    lemma_prefix_bracketless(matches, (k + 1) as nat, matches.len());
    lemma_part_bracketless(covered(matches, (k + 1) as nat), prefix, m.whole);
    lemma_part_bracketless(prefix, shorter, m.before);
    lemma_no_occurrence(prefix, '[');
    if prefix.len() >= 2 {
        assert(prefix.contains(prefix[prefix.len() - 2]));
    }
}

proof fn lemma_linked_prefix(matches: Seq<MatchView>, k: nat, n: nat)
    requires
        k <= n <= matches.len(),
        bracketless(covered(matches, matches.len())),
    ensures
        linked(matches, k).len() <= linked(matches, n).len(),
        linked(matches, n).take(linked(matches, k).len() as int) == linked(matches, k),
    decreases n - k,
{
    if k < n {
        lemma_linked_prefix(matches, k, (n - 1) as nat);
        lemma_linked_step(matches, n - 1);
        assert(linked(matches, n).take(linked(matches, k).len() as int) =~= linked(matches, (n - 1) as nat).take(
            linked(matches, k).len() as int,
        ));
    } else {
        assert(linked(matches, n).take(linked(matches, k).len() as int) =~= linked(matches, k));
    }
}

/// A link that follows text without a URL does not make one of it, and the URLs
/// in the link are parts of it or within its target.
proof fn lemma_url_in_link(
    front: Seq<char>,
    before: Seq<char>,
    url: Seq<char>,
    rest: Seq<char>,
    source: Seq<char>,
    p: int,
)
    requires
        bracketless(before),
        bracketless(url),
        occurrences(front, '[') == occurrences(front, ']'),
        url_len(url + source) == url.len(),
        url.len() > 0,
        forall|x: int| 0 <= x < before.len() ==> url_len(#[trigger] before.skip(x) + url + source) == 0,
        front.len() <= p < front.len() + before.len() + self_link(url).len(),
        url_len((front + before + self_link(url) + rest).skip(p)) > 0,
    ensures
        in_link((front + before + self_link(url) + rest).take(p)) || in_target(
            front + before + self_link(url) + rest,
            p,
        ),
{
    let link = self_link(url);
    let text = front + before + link + rest;
    lemma_self_link(url);
    let x = p - front.len();
    let found = url + source;
    lemma_url_parts(found);
    let here = text.skip(p);
    lemma_url_parts(here);
    assert(here[0] == text[p]);
    let b = before.len() as int;
    let u = url.len() as int;
    assert(link[0] == '[' && link[u + 1] == ']' && link[u + 2] == '(' && link[2 * u + 3] == ')');
    if x < b {
        let ahead = before.skip(x);
        assert(here =~= ahead + (link + rest));
        assert((link + rest)[0] == '[');
        assert(url_len(ahead + url + source) == 0);
        lemma_no_url_before_link(ahead, url, source, link + rest);
    } else {
        assert(text[p] == link[x - b]);
        if x == b || x == b + u + 1 || x == b + u + 2 || x == b + 2 * u + 3 {
        } else if x <= b + u {
            let part = url.take(x - b - 1);
            assert(text.take(p) =~= front + before + (seq!['['] + part)) by {
                assert forall|i: int| front.len() + b < i < p implies #[trigger] text[i] == part[i - front.len() - b - 1] by {
                    assert(text[i] == link[i - front.len() - b]);
                }
                assert(text[front.len() + b] == link[0]);
            }
            lemma_open_bracket(front, before, url, x - b - 1);
        } else {
            let t = front.len() + b + u + 3;
            let target = text.skip(t);
            assert(text[t - 2] == link[u + 1]);
            assert(text[t - 1] == link[u + 2]);
            assert(target.take(u) =~= url) by {
                assert forall|i: int| 0 <= i < u implies #[trigger] target[i] == url[i] by {
                    assert(text[t + i] == link[u + 3 + i]);
                }
            }
            assert(found.take(u) =~= url);
            assert(target[u] == text[t + u]);
            assert(text[t + u] == link[2 * u + 3]);
            lemma_url_closed(found, target);
            if p == t {
                let prefix = text.take(p);
                assert(prefix[prefix.len() - 2] == ']');
                assert(prefix.last() == '(');
            } else {
                assert(is_target(text, t));
            }
        }
    }
}

/// Behind an opening bracket and a part of a URL there is one more opening than
/// closing bracket.
proof fn lemma_open_bracket(front: Seq<char>, before: Seq<char>, url: Seq<char>, n: int)
    requires
        bracketless(before),
        bracketless(url),
        0 <= n <= url.len(),
        occurrences(front, '[') == occurrences(front, ']'),
    ensures
        in_link(front + before + (seq!['['] + url.take(n))),
{
    let part = url.take(n);
    let inner = seq!['['] + part;
    let text = front + before + inner;
    assert(url =~= part + url.skip(n));
    lemma_part_bracketless(url, part, url.skip(n));
    lemma_no_occurrence(before, '[');
    lemma_no_occurrence(before, ']');
    lemma_no_occurrence(part, '[');
    lemma_no_occurrence(part, ']');
    lemma_occurrences_sum(front, before, '[');
    lemma_occurrences_sum(front, before, ']');
    lemma_occurrences_sum(front + before, inner, '[');
    lemma_occurrences_sum(front + before, inner, ']');
    lemma_occurrences_sum(seq!['['], part, '[');
    lemma_occurrences_sum(seq!['['], part, ']');
    lemma_single_occurrence('[', '[');
    lemma_single_occurrence('[', ']');
}

/// A text with its links, parted at the link that the URL `k` became.
proof fn lemma_parted_at_link(s: Seq<char>, k: int)
    requires
        bracketless(s),
        0 <= k < cut(s, url_spans(s)).0.len(),
    ensures
        ({
            let matches = cut(s, url_spans(s)).0;
            let front = linked(matches, k as nat);
            let through = linked(matches, (k + 1) as nat);
            &&& with_links(s) == front + matches[k].before + self_link(matches[k].whole) + with_links(s).skip(
                through.len() as int,
            )
            &&& through.len() == front.len() + matches[k].before.len() + self_link(matches[k].whole).len()
            &&& occurrences(front, '[') == occurrences(front, ']')
            &&& bracketless(matches[k].before)
            &&& bracketless(matches[k].whole)
        }),
{
    let (matches, tail) = cut(s, url_spans(s));
    let text = with_links(s);
    lemma_url_cut(s);
    lemma_part_bracketless(s, covered(matches, matches.len()), tail);
    lemma_linked_step(matches, k);
    lemma_linked_prefix(matches, (k + 1) as nat, matches.len());
    lemma_links_balance(matches, k as nat);
    let through = linked(matches, (k + 1) as nat);
    assert(text.take(through.len() as int) =~= linked(matches, matches.len()).take(through.len() as int));
    assert(text =~= through + text.skip(through.len() as int));
}

/// In front of the URL `k` of a text, no URL starts behind the one before.
proof fn lemma_none_in_front(s: Seq<char>, k: int, x: int)
    requires
        0 <= k < url_places(s, 0).len(),
        0 <= x < cut(s, url_spans(s)).0[k].before.len(),
    ensures
        ({
            let m = cut(s, url_spans(s)).0[k];
            url_len(m.before.skip(x) + m.whole + s.skip(url_places(s, 0)[k].1)) == 0
        }),
{
    let (start, end) = url_places(s, 0)[k];
    let from = search_start(url_places(s, 0), 0, k);
    let m = cut(s, url_spans(s)).0[k];
    lemma_url_cut_at(s, k);
    assert(m.before.skip(x) + m.whole + s.skip(end) =~= s.skip(from + x));
    lemma_none_between(s, 0, k, from + x);
}

/// A URL within the link that the URL `k` of a text became is part of it, or
/// within its target.
proof fn lemma_url_in_its_link(s: Seq<char>, k: int, p: int)
    requires
        bracketless(s),
        0 <= k < cut(s, url_spans(s)).0.len(),
        linked(cut(s, url_spans(s)).0, k as nat).len() <= p < linked(cut(s, url_spans(s)).0, (k + 1) as nat).len(),
        url_len(with_links(s).skip(p)) > 0,
    ensures
        in_link(with_links(s).take(p)) || in_target(with_links(s), p),
{
    let m = cut(s, url_spans(s)).0[k];
    let (start, end) = url_places(s, 0)[k];
    let source = s.skip(end);
    let through = linked(cut(s, url_spans(s)).0, (k + 1) as nat);
    let rest = with_links(s).skip(through.len() as int);
    lemma_parted_at_link(s, k);
    lemma_url_cut_at(s, k);
    assert(m.whole + source =~= s.skip(start));
    assert forall|x: int| 0 <= x < m.before.len() implies url_len(#[trigger] m.before.skip(x) + m.whole + source) == 0 by {
        lemma_none_in_front(s, k, x);
    }
    lemma_url_in_link(linked(cut(s, url_spans(s)).0, k as nat), m.before, m.whole, rest, source, p);
}

proof fn lemma_urls_in_links(s: Seq<char>, n: nat, p: int)
    requires
        bracketless(s),
        n <= cut(s, url_spans(s)).0.len(),
        0 <= p < linked(cut(s, url_spans(s)).0, n).len(),
        url_len(with_links(s).skip(p)) > 0,
    ensures
        in_link(with_links(s).take(p)) || in_target(with_links(s), p),
    decreases n,
{
    let matches = cut(s, url_spans(s)).0;
    if n > 0 {
        if p < linked(matches, (n - 1) as nat).len() {
            lemma_urls_in_links(s, (n - 1) as nat, p);
        } else {
            lemma_url_in_its_link(s, n - 1, p);
        }
    }
}

proof fn lemma_links_stay(matches: Seq<MatchView>, n: nat)
    requires
        n <= matches.len(),
        forall|k: int| 0 <= k < n ==> in_link(covered(matches, k as nat) + (#[trigger] matches[k]).before),
    ensures
        linked(matches, n) == covered(matches, n),
    decreases n,
{
    if n > 0 {
        lemma_links_stay(matches, (n - 1) as nat);
        assert(in_link(covered(matches, (n - 1) as nat) + matches[n - 1].before));
    }
}

/// In a text with its links, every URL is part of a link or within the target
/// of one.
proof fn lemma_links_hold(s: Seq<char>)
    requires
        bracketless(s),
    ensures
        links_hold(with_links(s)),
{
    let (matches, tail) = cut(s, url_spans(s));
    let places = url_places(s, 0);
    let text = with_links(s);
    lemma_url_cut(s);
    let done = linked(matches, matches.len()).len() as int;
    let last = search_start(places, 0, places.len() as int);
    lemma_cut_start(s, places.len() as int);
    assert forall|p: int| 0 <= p < text.len() && url_len(#[trigger] text.skip(p)) > 0 implies in_link(text.take(p))
        || in_target(text, p) by {
        if p < done {
            lemma_urls_in_links(s, matches.len(), p);
        } else {
            assert(text.skip(p) =~= s.skip(last + p - done));
            lemma_none_between(s, 0, places.len() as int, last + p - done);
        }
    }
}

/// Making the URLs of a text without square brackets links twice changes
/// nothing more than doing it once.
pub proof fn law_linking_twice_changes_nothing_more(s: Seq<char>)
    requires
        bracketless(s),
    ensures
        with_links(with_links(s)) == with_links(s),
{
    let text = with_links(s);
    lemma_links_hold(s);
    assert(!in_target(text, 0));
    lemma_found_in_links(text, 0);
    lemma_url_cut(text);
    let again = cut(text, url_spans(text)).0;
    let found = url_places(text, 0);
    assert forall|k: int| 0 <= k < again.len() implies in_link(
        covered(again, k as nat) + (#[trigger] again[k]).before,
    ) by {
        assert(in_link(text.take(found[k].0)));
        lemma_url_cut_at(text, k);
        assert(covered(again, k as nat) + again[k].before =~= text.take(found[k].0));
    }
    lemma_links_stay(again, again.len());
}

/// A text whose links were taken off again is the text that was given them, for
/// every text without square brackets.
pub proof fn law_links_come_off_again(s: Seq<char>)
    requires
        bracketless(s),
    ensures
        unlinked(with_links(s)) == s,
{
    let (matches, tail) = cut(s, url_spans(s));
    lemma_url_cut(s);
    lemma_part_bracketless(s, covered(matches, matches.len()), tail);
    law_links_come_off(matches, matches.len(), tail);
    law_plain_text_has_no_links(tail);
}

} // verus!
