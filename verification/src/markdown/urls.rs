//! Where the URLs of a text are.

use crate::patterns::SpanView;
use crate::text::text_bytes;
use crate::unicode::white_space;
use vstd::prelude::*;

verus! {

/// A URL: it ends neither in white space or a bracket nor in a stop.
pub open spec fn url_pattern() -> Seq<char> {
    "https?://[^\\s<>\\)\\]]+[^\\s<>\\)\\]\\.\\,;]"@
}

/// A character of a URL.
pub open spec fn url_char(c: char) -> bool {
    !white_space(c) && c != '<' && c != '>' && c != ')' && c != ']'
}

/// A character that a URL can end with.
pub open spec fn url_end_char(c: char) -> bool {
    url_char(c) && c != '.' && c != ',' && c != ';'
}

/// The length of the scheme that a text starts with, 0 without one.
pub open spec fn scheme_len(s: Seq<char>) -> nat {
    if "http://"@.is_prefix_of(s) {
        7
    } else if "https://"@.is_prefix_of(s) {
        8
    } else {
        0
    }
}

/// The number of characters of a URL that a text starts with.
pub open spec fn run_len(s: Seq<char>) -> nat
    decreases s.len(),
{
    if s.len() > 0 && url_char(s[0]) {
        1 + run_len(s.drop_first())
    } else {
        0
    }
}

/// The greatest of the first `n` lengths, at least 2, at which a URL can end;
/// 0 without one.
pub open spec fn stop_len(s: Seq<char>, n: nat) -> nat
    decreases n,
{
    if n < 2 {
        0
    } else if url_end_char(s[n - 1]) {
        n
    } else {
        stop_len(s, (n - 1) as nat)
    }
}

/// The length of the URL that a text starts with, 0 without one: a scheme, and
/// behind it as many characters as can be, at least two.
pub open spec fn url_len(s: Seq<char>) -> nat {
    let scheme = scheme_len(s);
    let rest = s.skip(scheme as int);
    let stop = stop_len(rest, run_len(rest));
    if scheme == 0 || stop == 0 {
        0
    } else {
        scheme + stop
    }
}

/// The start of the first URL from `i` on.
pub open spec fn next_url(s: Seq<char>, i: int) -> Option<int>
    decreases s.len() - i,
{
    if i < 0 || i >= s.len() {
        None
    } else if url_len(s.skip(i)) > 0 {
        Some(i)
    } else {
        next_url(s, i + 1)
    }
}

/// The URLs from `i` on, from start to end: each is the first behind the one
/// before.
pub open spec fn url_places(s: Seq<char>, i: int) -> Seq<(int, int)>
    decreases s.len() - i,
{
    match next_url(s, i) {
        Some(start) => {
            let end = start + url_len(s.skip(start));
            if 0 <= i <= start < end <= s.len() {
                seq![(start, end)] + url_places(s, end)
            } else {
                Seq::empty()
            }
        },
        None => Seq::empty(),
    }
}

/// Where the URLs of a text are, in bytes of UTF-8.
pub open spec fn url_spans(s: Seq<char>) -> Seq<SpanView> {
    let places = url_places(s, 0);
    Seq::new(
        places.len(),
        |k: int|
            SpanView {
                start: text_bytes(s.take(places[k].0)),
                end: text_bytes(s.take(places[k].1)),
                groups: Seq::empty(),
            },
    )
}

pub(crate) proof fn lemma_next_url(s: Seq<char>, i: int)
    requires
        0 <= i,
    ensures
        match next_url(s, i) {
            Some(start) => i <= start < s.len() && url_len(s.skip(start)) > 0 && forall|p: int|
                i <= p < start ==> url_len(#[trigger] s.skip(p)) == 0,
            None => forall|p: int| i <= p < s.len() ==> url_len(#[trigger] s.skip(p)) == 0,
        },
    decreases s.len() - i,
{
    if i < s.len() && url_len(s.skip(i)) == 0 {
        lemma_next_url(s, i + 1);
    }
}

proof fn lemma_run_len(s: Seq<char>)
    ensures
        run_len(s) <= s.len(),
        forall|k: int| 0 <= k < run_len(s) ==> url_char(#[trigger] s[k]),
        run_len(s) < s.len() ==> !url_char(s[run_len(s) as int]),
    decreases s.len(),
{
    if s.len() > 0 && url_char(s[0]) {
        lemma_run_len(s.drop_first());
        assert forall|k: int| 0 <= k < run_len(s) implies url_char(#[trigger] s[k]) by {
            if k > 0 {
                assert(s.drop_first()[k - 1] == s[k]);
            }
        }
    }
}

proof fn lemma_stop_len(s: Seq<char>, n: nat)
    ensures
        stop_len(s, n) <= n,
        stop_len(s, n) > 0 ==> stop_len(s, n) >= 2 && url_end_char(s[stop_len(s, n) - 1]),
        forall|k: int| 2 <= k <= n && url_end_char(#[trigger] s[k - 1]) ==> k <= stop_len(s, n),
    decreases n,
{
    if n >= 2 && !url_end_char(s[n - 1]) {
        lemma_stop_len(s, (n - 1) as nat);
    }
}

proof fn lemma_starts(s: Seq<char>, prefix: Seq<char>)
    requires
        prefix.is_prefix_of(s),
    ensures
        prefix.len() <= s.len(),
        forall|k: int| 0 <= k < prefix.len() ==> s[k] == #[trigger] prefix[k],
{
    assert forall|k: int| 0 <= k < prefix.len() implies s[k] == #[trigger] prefix[k] by {
        assert(s.subrange(0, prefix.len() as int)[k] == prefix[k]);
    }
}

proof fn lemma_scheme(s: Seq<char>)
    ensures
        scheme_len(s) <= s.len(),
        scheme_len(s) > 0 ==> scheme_len(s) >= 7 && s[0] == 'h' && s[1] == 't' && s[2] == 't' && s[3] == 'p',
        forall|k: int| 0 <= k < scheme_len(s) ==> url_char(#[trigger] s[k]) && s[k] != '[',
{
    reveal_strlit("http://");
    reveal_strlit("https://");
    if "http://"@.is_prefix_of(s) {
        lemma_starts(s, "http://"@);
        assert forall|k: int| 0 <= k < 7 implies url_char(#[trigger] s[k]) && s[k] != '[' by {
            assert(s[k] == "http://"@[k]);
        }
        assert("http://"@[0] == 'h' && "http://"@[1] == 't' && "http://"@[2] == 't' && "http://"@[3] == 'p');
    } else if "https://"@.is_prefix_of(s) {
        lemma_starts(s, "https://"@);
        assert forall|k: int| 0 <= k < 8 implies url_char(#[trigger] s[k]) && s[k] != '[' by {
            assert(s[k] == "https://"@[k]);
        }
        assert("https://"@[0] == 'h' && "https://"@[1] == 't' && "https://"@[2] == 't' && "https://"@[3] == 'p');
    }
}

/// What a URL at the start of a text is made of.
pub(crate) proof fn lemma_url_parts(s: Seq<char>)
    requires
        url_len(s) > 0,
    ensures
        9 <= url_len(s) <= s.len(),
        s[0] == 'h',
        forall|k: int| 0 <= k < url_len(s) ==> url_char(#[trigger] s[k]),
{
    let scheme = scheme_len(s);
    let rest = s.skip(scheme as int);
    lemma_scheme(s);
    lemma_run_len(rest);
    lemma_stop_len(rest, run_len(rest));
    assert forall|k: int| 0 <= k < url_len(s) implies url_char(#[trigger] s[k]) by {
        if k >= scheme {
            assert(rest[k - scheme] == s[k]);
        }
    }
}

proof fn lemma_same_scheme(s: Seq<char>, t: Seq<char>, n: nat)
    requires
        n <= s.len(),
        n <= t.len(),
        s.take(n as int) == t.take(n as int),
        0 < scheme_len(s) <= n,
    ensures
        scheme_len(t) == scheme_len(s),
{
    reveal_strlit("http://");
    reveal_strlit("https://");
    assert forall|k: int| 0 <= k < n implies #[trigger] s[k] == t[k] by {
        assert(s.take(n as int)[k] == s[k]);
        assert(t.take(n as int)[k] == t[k]);
    }
    assert("http://"@.is_prefix_of(s) ==> "http://"@.is_prefix_of(t)) by {
        if "http://"@.is_prefix_of(s) {
            assert(t.subrange(0, 7) =~= s.subrange(0, 7));
        }
    }
    if !"http://"@.is_prefix_of(s) {
        assert(t.subrange(0, 8) =~= s.subrange(0, 8));
        assert("https://"@.is_prefix_of(t));
        lemma_starts(s, "https://"@);
        assert(s[4] == "https://"@[4]);
        assert(t[4] == s[4]);
        if "http://"@.is_prefix_of(t) {
            lemma_starts(t, "http://"@);
            assert(t[4] == "http://"@[4]);
        }
    }
}

/// A URL that ends before a character that is none of a URL's is the same URL.
pub(crate) proof fn lemma_url_closed(s: Seq<char>, t: Seq<char>)
    requires
        url_len(s) > 0,
        url_len(s) < t.len(),
        t.take(url_len(s) as int) == s.take(url_len(s) as int),
        !url_char(t[url_len(s) as int]),
    ensures
        url_len(t) == url_len(s),
{
    let n = url_len(s);
    let scheme = scheme_len(s);
    lemma_url_parts(s);
    lemma_scheme(s);
    lemma_same_scheme(s, t, n);
    let rest = t.skip(scheme as int);
    let whole = s.skip(scheme as int);
    lemma_run_len(rest);
    lemma_run_len(whole);
    lemma_stop_len(whole, run_len(whole));
    assert forall|k: int| 0 <= k < n implies #[trigger] s[k] == t[k] by {
        assert(s.take(n as int)[k] == s[k]);
        assert(t.take(n as int)[k] == t[k]);
    }
    let left = (n - scheme) as nat;
    assert(rest[left as int] == t[n as int]);
    assert forall|k: int| 0 <= k < left implies url_char(rest[k]) by {
        assert(rest[k] == s[k + scheme]);
    }
    if run_len(rest) < left {
        assert(!url_char(rest[run_len(rest) as int]));
    }
    if run_len(rest) > left {
        assert(url_char(rest[left as int]));
    }
    assert(rest[left - 1] == whole[left - 1]);
    assert(stop_len(rest, left) == left);
}

/// Text that starts no URL in front of one starts none in front of a link
/// either.
pub(crate) proof fn lemma_no_url_before_link(x: Seq<char>, url: Seq<char>, rest: Seq<char>, link: Seq<char>)
    requires
        x.len() > 0,
        url_len(x + url + rest) == 0,
        url_len(url + rest) == url.len(),
        url.len() > 0,
        link.len() > 0,
        link[0] == '[',
    ensures
        url_len(x + link) == 0,
{
    let s = x + url + rest;
    let t = x + link;
    lemma_url_parts(url + rest);
    lemma_scheme(t);
    if url_len(t) > 0 {
        let scheme = scheme_len(t);
        if scheme > x.len() {
            assert(t[x.len() as int] == '[');
        }
        assert(t.take(x.len() as int) =~= s.take(x.len() as int));
        lemma_same_scheme(t, s, x.len());
        let after = s.skip(scheme as int);
        let other = t.skip(scheme as int);
        let left = (x.len() - scheme) as nat;
        lemma_run_len(after);
        lemma_run_len(other);
        lemma_stop_len(after, run_len(after));
        lemma_stop_len(other, run_len(other));
        assert forall|k: int| 0 <= k < left implies after[k] == other[k] by {
            assert(after[k] == x[k + scheme]);
            assert(other[k] == x[k + scheme]);
        }
        if run_len(after) <= left && run_len(other) <= left && run_len(after) == run_len(other) {
            let stop = stop_len(other, run_len(other));
            assert(url_end_char(other[stop - 1]));
            assert(url_end_char(after[stop - 1]));
        } else {
            // The run goes on into the URL, which has a second letter.
            let k = left as int + 1;
            assert(after[left as int] == (url + rest)[0]);
            assert(after[k] == (url + rest)[1]);
            lemma_scheme(url + rest);
            if run_len(after) <= left {
                assert(!url_char(after[run_len(after) as int]));
                if run_len(after) < left {
                    assert(!url_char(other[run_len(after) as int]));
                    if run_len(other) < run_len(after) {
                        assert(!url_char(other[run_len(other) as int]));
                    }
                } else {
                    assert(url_char((url + rest)[0]));
                }
            }
            assert(run_len(after) > left);
            if run_len(after) == left + 1 {
                assert(!url_char(after[k]));
            }
            assert(url_end_char(after[k + 1 - 1]));
        }
    }
}

/// Every URL starts behind the one before and lies within the text.
pub(crate) proof fn lemma_places(s: Seq<char>, i: int)
    requires
        0 <= i,
    ensures
        ({
            let places = url_places(s, i);
            &&& forall|k: int|
                0 <= k < places.len() ==> i <= (#[trigger] places[k]).0 < places[k].1 <= s.len() && places[k].1
                    == places[k].0 + url_len(s.skip(places[k].0))
            &&& forall|k: int| 0 < k < places.len() ==> places[k - 1].1 <= (#[trigger] places[k]).0
        }),
    decreases s.len() - i,
{
    lemma_next_url(s, i);
    if let Some(start) = next_url(s, i) {
        let end = start + url_len(s.skip(start));
        lemma_url_parts(s.skip(start));
        lemma_places(s, end);
        let later = url_places(s, end);
        let places = url_places(s, i);
        assert(places == seq![(start, end)] + later);
        assert forall|k: int| 0 <= k < places.len() implies i <= (#[trigger] places[k]).0 < places[k].1 <= s.len()
            && places[k].1 == places[k].0 + url_len(s.skip(places[k].0)) by {
            if k > 0 {
                assert(places[k] == later[k - 1]);
            }
        }
        assert forall|k: int| 0 < k < places.len() implies places[k - 1].1 <= (#[trigger] places[k]).0 by {
            assert(places[k] == later[k - 1]);
            if k > 1 {
                assert(places[k - 1] == later[k - 2]);
            }
        }
    }
}

/// Where the URL `k` is looked for: behind the one before it.
pub open spec fn search_start(places: Seq<(int, int)>, i: int, k: int) -> int {
    if k == 0 {
        i
    } else {
        places[k - 1].1
    }
}

/// Between the URLs there is none, nor behind the last.
pub(crate) proof fn lemma_none_between(s: Seq<char>, i: int, k: int, p: int)
    requires
        0 <= i,
        0 <= k <= url_places(s, i).len(),
        search_start(url_places(s, i), i, k) <= p < s.len(),
        k < url_places(s, i).len() ==> p < url_places(s, i)[k].0,
    ensures
        url_len(s.skip(p)) == 0,
    decreases k,
{
    lemma_next_url(s, i);
    lemma_places(s, i);
    match next_url(s, i) {
        Some(start) => {
            let end = start + url_len(s.skip(start));
            let later = url_places(s, end);
            let places = url_places(s, i);
            lemma_url_parts(s.skip(start));
            assert(places == seq![(start, end)] + later);
            if k > 0 {
                if k > 1 {
                    assert(places[k - 1] == later[k - 2]);
                }
                if k < places.len() {
                    assert(places[k] == later[k - 1]);
                }
                lemma_none_between(s, end, k - 1, p);
            }
        },
        None => {},
    }
}

} // verus!
