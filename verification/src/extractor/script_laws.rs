//! What merging superscripts and subscripts keeps.

use crate::extractor::scripts::{
    anchor_gap, anchored_runs, applied, below, better, best_anchor, body_anchor, below_window, chains_of,
    continued_chain, flagged_head, fused_anchor, fuses, glyph_shaped, heights, joined_texts, kept, largest_size,
    marked, merged_scripts, middle, ordered_items, page_chains, page_groups, page_keys, page_runs, page_window, pages_of,
    participants, raised_run, reading_order, right_edge, rough_group, rough_lines, run_of_glyph, runs_of_pages, script_digit,
    script_digits, script_runs, x_keys, xy_keys, y_keys, Anchor, RunView, SCRIPT_MAX_NESTING,
    SCRIPT_MIN_SHIFT_BITS, TWO_BITS,
};
use crate::fractions::{
    law_a_number_is_once_itself, law_nothing_lies_between_the_same, law_one_and_zero_multiply,
    law_products_are_ordered, law_quotients_are_ordered, law_sums_are_ordered,
};
use crate::single::{Single, ONE_BITS};
use crate::sorting::{inserted, key_before, stably_sorted};
use crate::types::ItemView;
use crate::unicode::white_space;
use vstd::prelude::*;

verus! {

/// The ASCII digit that a superscript or subscript digit stands for; any other
/// character as it is.
pub open spec fn plain_form(c: char) -> char {
    if '\u{2080}' <= c <= '\u{2089}' {
        (c as u32 - 0x2080 + '0' as u32) as char
    } else if c == '\u{b9}' {
        '1'
    } else if c == '\u{b2}' {
        '2'
    } else if c == '\u{b3}' {
        '3'
    } else if c == '\u{2070}' || '\u{2074}' <= c <= '\u{2079}' {
        (c as u32 - 0x2070 + '0' as u32) as char
    } else {
        c
    }
}

/// How often a character stands in a text, script digits counted as the digits
/// they stand for.
pub open spec fn count_in(text: Seq<char>, c: char) -> nat
    decreases text.len(),
{
    if text.len() == 0 {
        0
    } else {
        count_in(text.drop_last(), c) + if plain_form(text.last()) == c {
            1nat
        } else {
            0nat
        }
    }
}

/// How often a character stands in the texts of items.
pub open spec fn tally(items: Seq<ItemView>, c: char) -> nat
    decreases items.len(),
{
    if items.len() == 0 {
        0
    } else {
        tally(items.drop_last(), c) + count_in(items.last().text, c)
    }
}

/// How often a character stands in the texts of a list.
spec fn listed(items: Seq<ItemView>, list: Seq<usize>, c: char) -> nat
    decreases list.len(),
{
    if list.len() == 0 {
        0
    } else {
        listed(items, list.drop_last(), c) + count_in(items[list.last() as int].text, c)
    }
}

/// How often a character stands in the texts of the first `n` items that are
/// not removed.
spec fn live(items: Seq<ItemView>, removed: Seq<bool>, c: char, n: nat) -> nat
    decreases n,
{
    if n == 0 {
        0
    } else {
        live(items, removed, c, (n - 1) as nat) + if removed[n - 1] {
            0
        } else {
            count_in(items[n - 1].text, c)
        }
    }
}

/// How often an index stands in a list.
spec fn times(list: Seq<usize>, g: usize) -> nat
    decreases list.len(),
{
    if list.len() == 0 {
        0
    } else {
        times(list.drop_last(), g) + if list.last() == g {
            1nat
        } else {
            0nat
        }
    }
}

/// How often an index stands in the first `n` lists.
spec fn spread(lists: Seq<Seq<usize>>, n: nat, g: usize) -> nat
    decreases n,
{
    if n == 0 {
        0
    } else {
        spread(lists, (n - 1) as nat, g) + times(lists[n - 1], g)
    }
}

/// How often an index stands among the glyphs of the first `n` runs.
spec fn run_spread(runs: Seq<RunView>, n: nat, g: usize) -> nat
    decreases n,
{
    if n == 0 {
        0
    } else {
        run_spread(runs, (n - 1) as nat, g) + times(runs[n - 1].glyphs, g)
    }
}

proof fn lemma_plain_of_script(c: char, raised: bool)
    ensures
        plain_form(script_digit(c, raised)) == plain_form(c),
{
}

proof fn lemma_count_mapped(s: Seq<char>, raised: bool, c: char)
    ensures
        count_in(script_digits(s, raised), c) == count_in(s, c),
    decreases s.len(),
{
    if s.len() > 0 {
        lemma_count_mapped(s.drop_last(), raised, c);
        lemma_plain_of_script(s.last(), raised);
        assert(script_digits(s, raised).drop_last() =~= script_digits(s.drop_last(), raised));
    }
}

proof fn lemma_count_sum(a: Seq<char>, b: Seq<char>, c: char)
    ensures
        count_in(a + b, c) == count_in(a, c) + count_in(b, c),
    decreases b.len(),
{
    if b.len() == 0 {
        assert(a + b =~= a);
    } else {
        lemma_count_sum(a, b.drop_last(), c);
        assert((a + b).drop_last() =~= a + b.drop_last());
    }
}

proof fn lemma_count_joined(items: Seq<ItemView>, list: Seq<usize>, c: char)
    ensures
        count_in(joined_texts(items, list), c) == listed(items, list, c),
    decreases list.len(),
{
    if list.len() > 0 {
        lemma_count_joined(items, list.drop_last(), c);
        lemma_count_sum(joined_texts(items, list.drop_last()), items[list.last() as int].text, c);
    }
}

proof fn lemma_times_pushed(list: Seq<usize>, x: usize, g: usize)
    ensures
        times(list.push(x), g) == times(list, g) + if x == g {
            1nat
        } else {
            0nat
        },
{
    assert(list.push(x).drop_last() =~= list);
}

proof fn lemma_times_one(x: usize, g: usize)
    ensures
        times(seq![x], g) == if x == g {
            1nat
        } else {
            0nat
        },
{
    lemma_times_pushed(Seq::empty(), x, g);
    assert(Seq::<usize>::empty().push(x) =~= seq![x]);
}

proof fn lemma_times_sum(a: Seq<usize>, b: Seq<usize>, g: usize)
    ensures
        times(a + b, g) == times(a, g) + times(b, g),
    decreases b.len(),
{
    if b.len() == 0 {
        assert(a + b =~= a);
    } else {
        lemma_times_sum(a, b.drop_last(), g);
        assert((a + b).drop_last() =~= a + b.drop_last());
    }
}

proof fn lemma_times_found(list: Seq<usize>, g: usize)
    ensures
        list.contains(g) <==> times(list, g) > 0,
    decreases list.len(),
{
    if list.len() > 0 {
        lemma_times_found(list.drop_last(), g);
        if list.contains(g) && list.last() != g {
            let i = choose|i: int| 0 <= i < list.len() && list[i] == g;
            assert(list.drop_last()[i] == g);
        }
        if times(list, g) > 0 {
            if list.last() == g {
                assert(list[list.len() - 1] == g);
            } else {
                let i = choose|i: int| 0 <= i < list.drop_last().len() && list.drop_last()[i] == g;
                assert(list[i] == g);
            }
        }
    }
}

proof fn lemma_times_inserted(sorted: Seq<usize>, keys: Seq<(i64, i64)>, x: usize, g: usize)
    ensures
        times(inserted(sorted, keys, x), g) == times(sorted, g) + if x == g {
            1nat
        } else {
            0nat
        },
    decreases sorted.len(),
{
    if sorted.len() == 0 || !key_before(keys[x as int], keys[sorted.last() as int]) {
        lemma_times_pushed(sorted, x, g);
    } else {
        lemma_times_inserted(sorted.drop_last(), keys, x, g);
        lemma_times_pushed(inserted(sorted.drop_last(), keys, x), sorted.last(), g);
    }
}

proof fn lemma_times_sorted(list: Seq<usize>, keys: Seq<(i64, i64)>, g: usize)
    ensures
        times(stably_sorted(list, keys), g) == times(list, g),
    decreases list.len(),
{
    if list.len() > 0 {
        lemma_times_sorted(list.drop_last(), keys, g);
        lemma_times_inserted(stably_sorted(list.drop_last(), keys), keys, list.last(), g);
    }
}

proof fn lemma_spread_same(a: Seq<Seq<usize>>, b: Seq<Seq<usize>>, n: nat, g: usize)
    requires
        n <= a.len(),
        n <= b.len(),
        forall|i: int| 0 <= i < n ==> a[i] == b[i],
    ensures
        spread(a, n, g) == spread(b, n, g),
    decreases n,
{
    if n > 0 {
        lemma_spread_same(a, b, (n - 1) as nat, g);
    }
}

proof fn lemma_spread_added(lists: Seq<Seq<usize>>, list: Seq<usize>, g: usize)
    ensures
        spread(lists.push(list), lists.len() + 1, g) == spread(lists, lists.len(), g) + times(list, g),
{
    lemma_spread_same(lists, lists.push(list), lists.len(), g);
}

proof fn lemma_spread_grown(lists: Seq<Seq<usize>>, k: int, x: usize, n: nat, g: usize)
    requires
        0 <= k < n <= lists.len(),
    ensures
        spread(lists.update(k, lists[k].push(x)), n, g) == spread(lists, n, g) + if x == g {
            1nat
        } else {
            0nat
        },
    decreases n,
{
    let grown = lists.update(k, lists[k].push(x));
    if k == n - 1 {
        lemma_spread_same(lists, grown, k as nat, g);
        lemma_times_pushed(lists[k], x, g);
    } else {
        lemma_spread_grown(lists, k, x, (n - 1) as nat, g);
    }
}

proof fn lemma_continued_chain(items: Seq<ItemView>, chains: Seq<Seq<usize>>, g: usize, n: nat)
    ensures
        continued_chain(items, chains, g, n) matches Some(k) ==> k < n,
    decreases n,
{
    if n > 0 {
        lemma_continued_chain(items, chains, g, (n - 1) as nat);
    }
}

proof fn lemma_chains_spread(items: Seq<ItemView>, glyphs: Seq<usize>, g: usize)
    ensures
        spread(chains_of(items, glyphs), chains_of(items, glyphs).len(), g) == times(glyphs, g),
        forall|i: int| 0 <= i < chains_of(items, glyphs).len() ==> (#[trigger] chains_of(items, glyphs)[i]).len() > 0,
    decreases glyphs.len(),
{
    if glyphs.len() > 0 {
        lemma_chains_spread(items, glyphs.drop_last(), g);
        let before = chains_of(items, glyphs.drop_last());
        let x = glyphs.last();
        lemma_continued_chain(items, before, x, before.len());
        match continued_chain(items, before, x, before.len()) {
            Some(k) => {
                lemma_spread_grown(before, k as int, x, before.len(), g);
            },
            None => {
                lemma_spread_added(before, seq![x], g);
                lemma_times_one(x, g);
            },
        }
    }
}

proof fn lemma_pages_spread(items: Seq<ItemView>, list: Seq<usize>, g: usize)
    ensures
        spread(page_groups(items, list), page_groups(items, list).len(), g) == times(list, g),
    decreases list.len(),
{
    if list.len() > 0 {
        lemma_pages_spread(items, list.drop_last(), g);
        let before = page_groups(items, list.drop_last());
        let x = list.last();
        if before.len() > 0 && items[before.last().last() as int].page == items[x as int].page {
            let k = before.len() - 1;
            assert(page_groups(items, list) =~= before.update(k, before[k].push(x)));
            lemma_spread_grown(before, k, x, before.len(), g);
        } else {
            lemma_spread_added(before, seq![x], g);
            lemma_times_one(x, g);
        }
    }
}

proof fn lemma_glyphs_within(items: Seq<ItemView>, list: Seq<usize>, g: usize)
    ensures
        times(glyph_shaped(items, list), g) <= times(list, g),
    decreases list.len(),
{
    if list.len() > 0 {
        lemma_glyphs_within(items, list.drop_last(), g);
        lemma_times_pushed(glyph_shaped(items, list.drop_last()), list.last(), g);
    }
}

proof fn lemma_participants_once(items: Seq<ItemView>, n: nat, g: usize)
    requires
        n <= usize::MAX,
    ensures
        times(participants(items, n), g) <= if g < n {
            1nat
        } else {
            0nat
        },
    decreases n,
{
    if n > 0 {
        lemma_participants_once(items, (n - 1) as nat, g);
        lemma_times_pushed(participants(items, (n - 1) as nat), (n - 1) as usize, g);
    }
}

proof fn lemma_run_spread_same(a: Seq<RunView>, b: Seq<RunView>, n: nat, g: usize)
    requires
        n <= a.len(),
        n <= b.len(),
        forall|i: int| 0 <= i < n ==> a[i] == b[i],
    ensures
        run_spread(a, n, g) == run_spread(b, n, g),
    decreases n,
{
    if n > 0 {
        lemma_run_spread_same(a, b, (n - 1) as nat, g);
    }
}

proof fn lemma_run_spread_sum(a: Seq<RunView>, b: Seq<RunView>, m: nat, g: usize)
    requires
        m <= b.len(),
    ensures
        run_spread(a + b, a.len() + m, g) == run_spread(a, a.len(), g) + run_spread(b, m, g),
    decreases m,
{
    if m == 0 {
        lemma_run_spread_same(a + b, a, a.len(), g);
    } else {
        lemma_run_spread_sum(a, b, (m - 1) as nat, g);
        assert((a + b)[a.len() + m - 1] == b[m - 1]);
    }
}

proof fn lemma_run_spread_grows(runs: Seq<RunView>, m: nat, n: nat, g: usize)
    requires
        m <= n,
    ensures
        run_spread(runs, m, g) <= run_spread(runs, n, g),
    decreases n,
{
    if m < n {
        lemma_run_spread_grows(runs, m, (n - 1) as nat, g);
    }
}

/// The glyphs and the anchor of a run are items, and it has a glyph.
spec fn sound(run: RunView, n: nat) -> bool {
    run.glyphs.len() > 0 && run.anchor < n
}

proof fn lemma_best_anchor_is_listed(
    items: Seq<ItemView>,
    chain: Seq<usize>,
    run_size: Single,
    window: Single,
    by_y: Seq<usize>,
    k: int,
    best: Anchor,
    n: nat,
)
    requires
        0 <= k,
        below(by_y, n),
        best matches Some((_, anchor, _)) ==> anchor < n,
    ensures
        best_anchor(items, chain, run_size, window, by_y, k, best) matches Some((_, anchor, _)) ==> anchor < n,
    decreases by_y.len() - k,
{
    if k < by_y.len() {
        let x = by_y[k];
        let body = items[x as int];
        let first = items[chain[0] as int];
        let last = items[chain.last() as int];
        if !first.y.spec_plus(window).spec_less(body.y) {
            let next = if chain.contains(x) {
                best
            } else {
                match anchor_gap(first, last, run_size, body) {
                    None => best,
                    Some((gap, on_left)) => if better(best, gap, on_left) {
                        Some((gap, x, on_left))
                    } else {
                        best
                    },
                }
            };
            lemma_best_anchor_is_listed(items, chain, run_size, window, by_y, k + 1, next, n);
        }
    }
}

proof fn lemma_window_start(items: Seq<ItemView>, by_y: Seq<usize>, bottom: Single, k: int)
    requires
        0 <= k,
    ensures
        below_window(items, by_y, bottom, k) >= 0,
    decreases by_y.len() - k,
{
    if k < by_y.len() && items[by_y[k] as int].y.spec_less(bottom) {
        lemma_window_start(items, by_y, bottom, k + 1);
    }
}

proof fn lemma_anchored_runs(
    items: Seq<ItemView>,
    by_y: Seq<usize>,
    window: Single,
    chains: Seq<Seq<usize>>,
    n: nat,
    g: usize,
)
    requires
        n <= chains.len(),
        below(by_y, items.len()),
        forall|i: int| 0 <= i < chains.len() ==> (#[trigger] chains[i]).len() > 0,
    ensures
        run_spread(
            anchored_runs(items, by_y, window, chains, n),
            anchored_runs(items, by_y, window, chains, n).len(),
            g,
        ) <= spread(chains, n, g),
        all_sound(anchored_runs(items, by_y, window, chains, n), items.len()),
    decreases n,
{
    if n > 0 {
        lemma_anchored_runs(items, by_y, window, chains, (n - 1) as nat, g);
        let before = anchored_runs(items, by_y, window, chains, (n - 1) as nat);
        let after = anchored_runs(items, by_y, window, chains, n);
        let chain = chains[n - 1];
        let bottom = items[chain[0] as int].y.spec_minus(window);
        lemma_window_start(items, by_y, bottom, 0);
        lemma_best_anchor_is_listed(
            items,
            chain,
            largest_size(items, chain),
            window,
            by_y,
            below_window(items, by_y, bottom, 0),
            None,
            items.len(),
        );
        if after.len() > before.len() {
            lemma_run_spread_same(before, after, before.len(), g);
        }
    }
}

/// The runs have a glyph each, and anchors that are items.
spec fn all_sound(runs: Seq<RunView>, n: nat) -> bool {
    forall|i: int| 0 <= i < runs.len() ==> sound(#[trigger] runs[i], n)
}

proof fn lemma_page_runs(items: Seq<ItemView>, page: Seq<usize>, g: usize)
    requires
        forall|x: usize| #[trigger] times(page, x) > 0 ==> x < items.len(),
    ensures
        run_spread(page_runs(items, page), page_runs(items, page).len(), g) <= times(page, g),
        all_sound(page_runs(items, page), items.len()),
{
    let by_y = heights(items, page);
    assert forall|i: int| 0 <= i < by_y.len() implies (#[trigger] by_y[i]) < items.len() by {
        assert(by_y.contains(by_y[i]));
        lemma_times_found(by_y, by_y[i]);
        lemma_times_sorted(page, y_keys(items), by_y[i]);
    }
    let glyphs = glyph_shaped(items, by_y);
    let across = stably_sorted(glyphs, xy_keys(items));
    lemma_times_sorted(page, y_keys(items), g);
    lemma_glyphs_within(items, by_y, g);
    lemma_times_sorted(glyphs, xy_keys(items), g);
    lemma_chains_spread(items, across, g);
    let chains = page_chains(items, page);
    lemma_anchored_runs(items, by_y, page_window(items, page), chains, chains.len(), g);
}

proof fn lemma_spread_of_one(lists: Seq<Seq<usize>>, n: nat, k: int, g: usize)
    requires
        0 <= k < n <= lists.len(),
    ensures
        times(lists[k], g) <= spread(lists, n, g),
    decreases n,
{
    if k < n - 1 {
        lemma_spread_of_one(lists, (n - 1) as nat, k, g);
    }
}

proof fn lemma_runs_of_pages(items: Seq<ItemView>, pages: Seq<Seq<usize>>, n: nat, g: usize)
    requires
        n <= pages.len(),
        forall|x: usize| #[trigger] spread(pages, pages.len(), x) > 0 ==> x < items.len(),
    ensures
        run_spread(runs_of_pages(items, pages, n), runs_of_pages(items, pages, n).len(), g) <= spread(pages, n, g),
        all_sound(runs_of_pages(items, pages, n), items.len()),
    decreases n,
{
    if n > 0 {
        lemma_runs_of_pages(items, pages, (n - 1) as nat, g);
        let before = runs_of_pages(items, pages, (n - 1) as nat);
        let page = pages[n - 1];
        assert forall|x: usize| #[trigger] times(page, x) > 0 implies x < items.len() by {
            lemma_spread_of_one(pages, pages.len(), n - 1, x);
            assert(spread(pages, pages.len(), x) > 0);
        }
        lemma_page_runs(items, page, g);
        let more = page_runs(items, page);
        lemma_run_spread_sum(before, more, more.len(), g);
    }
}

/// No item is a glyph of two runs or twice of one.
proof fn lemma_glyphs_once(items: Seq<ItemView>, g: usize)
    requires
        items.len() <= usize::MAX,
    ensures
        run_spread(script_runs(items), script_runs(items).len(), g) <= if g < items.len() {
            1nat
        } else {
            0nat
        },
        all_sound(script_runs(items), items.len()),
{
    let all = participants(items, items.len());
    let sorted = stably_sorted(all, page_keys(items));
    let pages = pages_of(items);
    assert forall|x: usize| #[trigger] spread(pages, pages.len(), x) <= if x < items.len() {
        1nat
    } else {
        0nat
    } by {
        lemma_participants_once(items, items.len(), x);
        lemma_times_sorted(all, page_keys(items), x);
        lemma_pages_spread(items, sorted, x);
    }
    lemma_runs_of_pages(items, pages, pages.len(), g);
    assert(spread(pages, pages.len(), g) <= if g < items.len() {
        1nat
    } else {
        0nat
    });
}

proof fn lemma_live_without(items: Seq<ItemView>, removed: Seq<bool>, k: int, c: char, n: nat)
    requires
        0 <= k < removed.len(),
        n <= removed.len(),
        !removed[k],
    ensures
        live(items, removed.update(k, true), c, n) + (if k < n {
            count_in(items[k].text, c)
        } else {
            0
        }) == live(items, removed, c, n),
    decreases n,
{
    if n > 0 {
        lemma_live_without(items, removed, k, c, (n - 1) as nat);
    }
}

proof fn lemma_live_changed(items: Seq<ItemView>, removed: Seq<bool>, k: int, item: ItemView, c: char, n: nat)
    requires
        0 <= k < removed.len(),
        n <= removed.len(),
        removed.len() == items.len(),
        !removed[k],
    ensures
        live(items.update(k, item), removed, c, n) + (if k < n {
            count_in(items[k].text, c)
        } else {
            0
        }) == live(items, removed, c, n) + (if k < n {
            count_in(item.text, c)
        } else {
            0
        }),
    decreases n,
{
    if n > 0 {
        lemma_live_changed(items, removed, k, item, c, (n - 1) as nat);
    }
}

proof fn lemma_live_marked(items: Seq<ItemView>, removed: Seq<bool>, list: Seq<usize>, c: char)
    requires
        removed.len() == items.len() <= usize::MAX,
        forall|g: usize| #[trigger] times(list, g) <= 1,
        forall|g: usize| #[trigger] times(list, g) > 0 ==> g < items.len() && !removed[g as int],
    ensures
        live(items, marked(removed, list), c, items.len()) + listed(items, list, c) == live(
            items,
            removed,
            c,
            items.len(),
        ),
    decreases list.len(),
{
    if list.len() == 0 {
        assert(marked(removed, list) =~= removed);
    } else {
        let shorter = list.drop_last();
        let g = list.last();
        assert forall|x: usize| #[trigger] times(shorter, x) <= 1 by {
            assert(times(list, x) <= 1);
        }
        assert forall|x: usize| #[trigger] times(shorter, x) > 0 implies x < items.len() && !removed[x as int] by {
            assert(times(list, x) > 0);
        }
        lemma_live_marked(items, removed, shorter, c);
        assert(times(list, g) <= 1);
        assert(times(shorter, g) == 0);
        lemma_times_found(shorter, g);
        assert(shorter.push(g) =~= list);
        let before = marked(removed, shorter);
        assert(times(list, g) > 0);
        assert forall|i: int| 0 <= i < removed.len() implies #[trigger] marked(removed, list)[i] == before.update(g as int, true)[i] by {
            lemma_times_found(list, i as usize);
            lemma_times_found(shorter, i as usize);
        }
        assert(marked(removed, list) =~= before.update(g as int, true));
        lemma_live_without(items, before, g as int, c, items.len());
    }
}

proof fn lemma_listed_from_head(items: Seq<ItemView>, list: Seq<usize>, c: char)
    requires
        list.len() > 0,
    ensures
        listed(items, list, c) == count_in(items[list[0] as int].text, c) + listed(items, list.drop_first(), c),
    decreases list.len(),
{
    if list.len() == 1 {
        assert(list.drop_last() =~= Seq::empty());
        assert(list.drop_first() =~= Seq::empty());
    } else {
        lemma_listed_from_head(items, list.drop_last(), c);
        assert(list.drop_last().drop_first() =~= list.drop_first().drop_last());
    }
}

proof fn lemma_no_run_of_glyph(runs: Seq<RunView>, g: usize, n: nat)
    requires
        run_of_glyph(runs, g, n) is None,
    ensures
        run_spread(runs, n, g) == 0,
    decreases n,
{
    if n > 0 {
        lemma_no_run_of_glyph(runs, g, (n - 1) as nat);
        lemma_times_found(runs[n - 1].glyphs, g);
    }
}

/// Applying runs keeps the characters of what is not removed.
proof fn lemma_applied_keeps_characters(items: Seq<ItemView>, runs: Seq<RunView>, n: nat, c: char)
    requires
        n <= runs.len(),
        items.len() <= usize::MAX,
        all_sound(runs, items.len()),
        forall|g: usize| #[trigger] run_spread(runs, runs.len(), g) <= if g < items.len() {
            1nat
        } else {
            0nat
        },
    ensures
        applied(items, runs, n).items.len() == items.len(),
        applied(items, runs, n).removed.len() == items.len(),
        forall|g: usize|
            g < items.len() && #[trigger] applied(items, runs, n).removed[g as int] ==> run_spread(runs, n, g) > 0,
        live(applied(items, runs, n).items, applied(items, runs, n).removed, c, items.len()) == live(
            items,
            Seq::new(items.len(), |i: int| false),
            c,
            items.len(),
        ),
    decreases n,
{
    if n > 0 {
        lemma_applied_keeps_characters(items, runs, (n - 1) as nat, c);
        let before = applied(items, runs, (n - 1) as nat);
        let after = applied(items, runs, n);
        let run = runs[n - 1];
        let list = run.glyphs;
        assert(sound(run, items.len()));
        assert forall|g: usize| #[trigger] times(list, g) <= 1 && (times(list, g) > 0 ==> g < items.len()
            && !before.removed[g as int]) by {
            assert(run_spread(runs, runs.len(), g) <= if g < items.len() {
                1nat
            } else {
                0nat
            });
            lemma_run_spread_grows(runs, n, runs.len(), g);
        }
        lemma_count_joined(before.items, list, c);
        if fuses(before.items, runs, run) {
            let anchor = run.anchor;
            lemma_no_run_of_glyph(runs, anchor, runs.len());
            lemma_run_spread_grows(runs, n, runs.len(), anchor);
            lemma_times_found(list, anchor);
            lemma_live_marked(before.items, before.removed, list, c);
            let removed = marked(before.removed, list);
            let fused = fused_anchor(before.items, run);
            lemma_live_changed(before.items, removed, anchor as int, fused, c, items.len());
            let raised = raised_run(before.items, run);
            let joined = joined_texts(before.items, list);
            lemma_count_mapped(joined, raised, c);
            lemma_count_sum(before.items[anchor as int].text, script_digits(joined, raised), c);
            lemma_count_sum(script_digits(joined, raised), before.items[anchor as int].text, c);
            assert forall|g: usize| g < items.len() && #[trigger] after.removed[g as int] implies run_spread(runs, n, g) > 0 by {
                lemma_times_found(list, g);
                assert(before.removed[g as int] || list.contains(g));
            }
        } else {
            let head = list[0];
            let rest = list.drop_first();
            assert(list =~= seq![head] + rest);
            assert forall|g: usize| #[trigger] times(rest, g) <= 1 && (times(rest, g) > 0 ==> g < items.len()
                && !before.removed[g as int]) by {
                lemma_times_sum(seq![head], rest, g);
                assert(times(list, g) <= 1);
            }
            lemma_times_sum(seq![head], rest, head);
            lemma_times_one(head, head);
            assert(times(list, head) <= 1);
            lemma_times_found(rest, head);
            lemma_live_marked(before.items, before.removed, rest, c);
            let removed = marked(before.removed, rest);
            let anchor_y = items[body_anchor(runs, run.anchor, SCRIPT_MAX_NESTING as nat) as int].y;
            let flagged = flagged_head(before.items, run, anchor_y);
            lemma_live_changed(before.items, removed, head as int, flagged, c, items.len());
            lemma_listed_from_head(before.items, list, c);
            assert forall|g: usize| g < items.len() && #[trigger] after.removed[g as int] implies run_spread(runs, n, g) > 0 by {
                lemma_times_found(rest, g);
                lemma_times_sum(seq![head], rest, g);
                assert(before.removed[g as int] || rest.contains(g));
            }
        }
    } else {
        assert(applied(items, runs, 0).removed =~= Seq::new(items.len(), |i: int| false));
    }
}

proof fn lemma_kept_tally(items: Seq<ItemView>, removed: Seq<bool>, c: char, n: nat)
    ensures
        tally(kept(items, removed, n), c) == live(items, removed, c, n),
    decreases n,
{
    if n > 0 {
        lemma_kept_tally(items, removed, c, (n - 1) as nat);
        let before = kept(items, removed, (n - 1) as nat);
        assert(before.push(items[n - 1]).drop_last() =~= before);
    }
}

proof fn lemma_live_tally(items: Seq<ItemView>, c: char, n: nat)
    requires
        n <= items.len(),
    ensures
        live(items, Seq::new(items.len(), |i: int| false), c, n) == tally(items.take(n as int), c),
    decreases n,
{
    if n > 0 {
        lemma_live_tally(items, c, (n - 1) as nat);
        assert(items.take(n as int).drop_last() =~= items.take(n - 1));
    }
}

proof fn lemma_tally_of_list(items: Seq<ItemView>, order: Seq<usize>, c: char)
    ensures
        tally(Seq::new(order.len(), |i: int| items[order[i] as int]), c) == listed(items, order, c),
    decreases order.len(),
{
    if order.len() > 0 {
        lemma_tally_of_list(items, order.drop_last(), c);
        assert(Seq::new(order.len(), |i: int| items[order[i] as int]).drop_last() =~= Seq::new(
            order.drop_last().len(),
            |i: int| items[order.drop_last()[i] as int],
        ));
    }
}

proof fn lemma_listed_without(items: Seq<ItemView>, list: Seq<usize>, k: int, c: char, g: usize)
    requires
        0 <= k < list.len(),
    ensures
        listed(items, list, c) == listed(items, list.remove(k), c) + count_in(items[list[k] as int].text, c),
        times(list, g) == times(list.remove(k), g) + if list[k] == g {
            1nat
        } else {
            0nat
        },
    decreases list.len(),
{
    if k == list.len() - 1 {
        assert(list.remove(k) =~= list.drop_last());
    } else {
        lemma_listed_without(items, list.drop_last(), k, c, g);
        assert(list.remove(k).drop_last() =~= list.drop_last().remove(k));
        assert(list.remove(k).last() == list.last());
    }
}

/// A list that holds every index below `n` once tallies the first `n` items.
proof fn lemma_listed_once(items: Seq<ItemView>, list: Seq<usize>, c: char, n: nat)
    requires
        n <= items.len() <= usize::MAX,
        forall|g: usize| #[trigger] times(list, g) == if g < n {
            1nat
        } else {
            0nat
        },
    ensures
        listed(items, list, c) == tally(items.take(n as int), c),
    decreases n,
{
    if n == 0 {
        if list.len() > 0 {
            lemma_times_found(list, list[0]);
            assert(list.contains(list[0]));
            assert(times(list, list[0]) == 0);
        }
    } else {
        let g = (n - 1) as usize;
        assert(times(list, g) == 1);
        lemma_times_found(list, g);
        let k = choose|k: int| 0 <= k < list.len() && list[k] == g;
        let rest = list.remove(k);
        assert forall|x: usize| #[trigger] times(rest, x) == if x < n - 1 {
            1nat
        } else {
            0nat
        } by {
            lemma_listed_without(items, list, k, c, x);
            assert(times(list, x) == if x < n {
                1nat
            } else {
                0nat
            });
        }
        lemma_listed_without(items, list, k, c, g);
        lemma_listed_once(items, rest, c, (n - 1) as nat);
        assert(items.take(n as int).drop_last() =~= items.take(n - 1));
    }
}

proof fn lemma_rough_group(items: Seq<ItemView>, groups: Seq<Seq<usize>>, x: usize, k: int)
    ensures
        rough_group(items, groups, x, k) matches Some(found) ==> found < groups.len(),
    decreases groups.len() - k,
{
    if 0 <= k < groups.len() {
        lemma_rough_group(items, groups, x, k + 1);
    }
}

proof fn lemma_rough_lines_once(items: Seq<ItemView>, n: nat, g: usize)
    requires
        n <= usize::MAX,
    ensures
        spread(rough_lines(items, n), rough_lines(items, n).len(), g) == if g < n {
            1nat
        } else {
            0nat
        },
    decreases n,
{
    if n > 0 {
        lemma_rough_lines_once(items, (n - 1) as nat, g);
        let before = rough_lines(items, (n - 1) as nat);
        let x = (n - 1) as usize;
        lemma_rough_group(items, before, x, 0);
        match rough_group(items, before, x, 0) {
            Some(k) => {
                lemma_spread_grown(before, k as int, x, before.len(), g);
            },
            None => {
                lemma_spread_added(before, seq![x], g);
                lemma_times_one(x, g);
            },
        }
    }
}

proof fn lemma_reading_order_spread(items: Seq<ItemView>, groups: Seq<Seq<usize>>, n: nat, g: usize)
    requires
        n <= groups.len(),
    ensures
        times(reading_order(items, groups, n), g) == spread(groups, n, g),
    decreases n,
{
    if n > 0 {
        lemma_reading_order_spread(items, groups, (n - 1) as nat, g);
        let line = stably_sorted(groups[n - 1], x_keys(items));
        lemma_times_sorted(groups[n - 1], x_keys(items), g);
        lemma_times_sum(reading_order(items, groups, (n - 1) as nat), line, g);
    }
}

/// Merging superscripts and subscripts loses no character and invents none:
/// every character stands in the items as often as before, where a script digit
/// counts as the digit it stands for.
pub proof fn law_merging_keeps_every_character(items: Seq<ItemView>, c: char)
    requires
        items.len() <= usize::MAX,
    ensures
        tally(merged_scripts(items), c) == tally(items, c),
{
    if items.len() >= 2 {
        let groups = rough_lines(items, items.len());
        let order = reading_order(items, groups, groups.len());
        assert forall|g: usize| #[trigger] times(order, g) == if g < items.len() {
            1nat
        } else {
            0nat
        } by {
            lemma_rough_lines_once(items, items.len(), g);
            lemma_reading_order_spread(items, groups, groups.len(), g);
        }
        lemma_listed_once(items, order, c, items.len());
        lemma_tally_of_list(items, order, c);
        assert(items.take(items.len() as int) =~= items);
        let ordered = ordered_items(items);
        lemma_once_each(order, items.len());
        let runs = script_runs(ordered);
        lemma_glyphs_once(ordered, 0);
        assert forall|g: usize| #[trigger] run_spread(runs, runs.len(), g) <= if g < ordered.len() {
            1nat
        } else {
            0nat
        } by {
            lemma_glyphs_once(ordered, g);
        }
        lemma_applied_keeps_characters(ordered, runs, runs.len(), c);
        let done = applied(ordered, runs, runs.len());
        lemma_kept_tally(done.items, done.removed, c, ordered.len());
        lemma_live_tally(ordered, c, ordered.len());
        assert(ordered.take(ordered.len() as int) =~= ordered);
    }
}

/// A list that holds every index below `n` once has `n` of them.
proof fn lemma_once_each(list: Seq<usize>, n: nat)
    requires
        n <= usize::MAX,
        forall|g: usize| #[trigger] times(list, g) == if g < n {
            1nat
        } else {
            0nat
        },
    ensures
        list.len() == n,
    decreases n,
{
    if n == 0 {
        if list.len() > 0 {
            lemma_times_found(list, list[0]);
            assert(list.contains(list[0]));
            assert(times(list, list[0]) == 0);
        }
    } else {
        let g = (n - 1) as usize;
        assert(times(list, g) == 1);
        lemma_times_found(list, g);
        let k = choose|k: int| 0 <= k < list.len() && list[k] == g;
        let rest = list.remove(k);
        assert forall|x: usize| #[trigger] times(rest, x) == if x < n - 1 {
            1nat
        } else {
            0nat
        } by {
            lemma_listed_without(Seq::empty(), list, k, 'a', x);
            assert(times(list, x) == if x < n {
                1nat
            } else {
                0nat
            });
        }
        lemma_once_each(rest, (n - 1) as nat);
    }
}

/// Text of the body's size or larger is no script of it, nor is text on its
/// baseline, nor text beside white space.
pub proof fn law_scripts_are_smaller_and_off_the_baseline(
    first: ItemView,
    last: ItemView,
    run_size: Single,
    body: ItemView,
)
    requires
        body.font_size.spec_finite(),
        run_size.spec_finite(),
        (Single { bits: ONE_BITS }).spec_at_most(body.font_size),
        first.y.spec_finite(),
        body.y.spec_finite(),
        anchor_gap(first, last, run_size, body) is Some,
    ensures
        run_size.spec_less(body.font_size),
        !first.y.spec_same(body.y),
        anchor_gap(first, last, run_size, body) matches Some((gap, on_left)) && (Single { bits: 0 }).spec_at_most(gap)
            && body.text.len() > 0 && !white_space(if on_left {
            body.text.last()
        } else {
            body.text[0]
        }),
{
    let size = body.font_size;
    let one = Single { bits: ONE_BITS };
    if size.spec_at_most(run_size) {
        law_quotients_are_ordered(size, run_size, size);
        law_a_number_is_once_itself(size);
    }
    if first.y.spec_same(body.y) {
        law_nothing_lies_between_the_same(first.y, body.y);
        law_products_are_ordered(one, size, Single { bits: SCRIPT_MIN_SHIFT_BITS });
        law_one_and_zero_multiply(Single { bits: SCRIPT_MIN_SHIFT_BITS });
    }
}

/// A body that lies to the left of a run anchors it on its left, and one to the
/// right on its right.
pub proof fn law_anchors_stand_on_their_side(first: ItemView, last: ItemView, run_size: Single, body: ItemView)
    requires
        body.x.spec_finite(),
        right_edge(body).spec_finite(),
        first.x.spec_finite(),
        right_edge(last).spec_finite(),
        body.x.spec_plus(right_edge(body)).spec_finite(),
        first.x.spec_plus(right_edge(last)).spec_finite(),
        body.x.spec_plus(right_edge(last)).spec_finite(),
        first.x.spec_plus(right_edge(body)).spec_finite(),
    ensures
        body.x.spec_at_most(first.x) && right_edge(body).spec_at_most(right_edge(last)) ==> (anchor_gap(
            first,
            last,
            run_size,
            body,
        ) matches Some((_, on_left)) ==> on_left),
        middle(first.x, right_edge(last)).spec_less(middle(body.x, right_edge(body))) ==> (anchor_gap(
            first,
            last,
            run_size,
            body,
        ) matches Some((_, on_left)) ==> !on_left),
{
    if body.x.spec_at_most(first.x) && right_edge(body).spec_at_most(right_edge(last)) {
        law_sums_are_ordered(body.x, first.x, right_edge(body));
        law_sums_are_ordered(right_edge(body), right_edge(last), first.x);
        law_quotients_are_ordered(
            body.x.spec_plus(right_edge(body)),
            first.x.spec_plus(right_edge(last)),
            Single { bits: TWO_BITS },
        );
    }
}

/// A text with every script digit made the digit it stands for.
pub open spec fn plain_text(s: Seq<char>) -> Seq<char> {
    Seq::new(s.len(), |i: int| plain_form(s[i]))
}

/// Fused digits stand on the side of their run, as the digits they were, behind
/// or before the whole text of the anchor.
pub proof fn law_fused_digits_stand_on_their_side(items: Seq<ItemView>, run: RunView)
    ensures
        ({
            let anchor = items[run.anchor as int];
            let fused = fused_anchor(items, run);
            let digits = joined_texts(items, run.glyphs);
            let n = anchor.text.len() as int;
            let d = digits.len() as int;
            &&& fused.text.len() == n + d
            &&& run.anchor_on_left ==> fused.text.take(n) == anchor.text && plain_text(fused.text.skip(n)) == plain_text(
                digits,
            )
            &&& !run.anchor_on_left ==> fused.text.skip(d) == anchor.text && plain_text(fused.text.take(d))
                == plain_text(digits)
            &&& fused.y == anchor.y && fused.page == anchor.page && fused.font_size == anchor.font_size
            &&& run.anchor_on_left ==> fused.x == anchor.x
        }),
{
    let anchor = items[run.anchor as int];
    let fused = fused_anchor(items, run);
    let digits = joined_texts(items, run.glyphs);
    let raised = raised_run(items, run);
    let mapped = script_digits(digits, raised);
    assert forall|i: int| 0 <= i < digits.len() implies plain_form(#[trigger] mapped[i]) == plain_form(digits[i]) by {
        lemma_plain_of_script(digits[i], raised);
    }
    assert(plain_text(mapped) =~= plain_text(digits));
    if run.anchor_on_left {
        assert(fused.text.take(anchor.text.len() as int) =~= anchor.text);
        assert(fused.text.skip(anchor.text.len() as int) =~= mapped);
    } else {
        assert(fused.text.skip(digits.len() as int) =~= anchor.text);
        assert(fused.text.take(digits.len() as int) =~= mapped);
    }
}

/// A run that is not fused keeps its text and its place, and is shifted up
/// exactly where it stands above the body.
pub proof fn law_flagged_runs_keep_their_text(items: Seq<ItemView>, run: RunView, anchor_y: Single)
    requires
        run.glyphs.len() > 0,
        items[run.glyphs[0] as int].y.spec_finite(),
        anchor_y.spec_finite(),
    ensures
        ({
            let head = items[run.glyphs[0] as int];
            let flagged = flagged_head(items, run, anchor_y);
            &&& flagged.text == joined_texts(items, run.glyphs)
            &&& flagged.x == head.x && flagged.y == head.y && flagged.page == head.page
            &&& head.y.spec_same(anchor_y) ==> flagged.baseline_shift.spec_zero()
            &&& anchor_y.spec_at_most(head.y) ==> (Single { bits: 0 }).spec_at_most(flagged.baseline_shift)
            &&& head.y.spec_at_most(anchor_y) ==> flagged.baseline_shift.spec_at_most(Single { bits: 0 })
        }),
{
    let head = items[run.glyphs[0] as int];
    law_nothing_lies_between_the_same(anchor_y, anchor_y);
    if head.y.spec_same(anchor_y) {
        law_nothing_lies_between_the_same(head.y, anchor_y);
    }
    if anchor_y.spec_at_most(head.y) {
        law_sums_are_ordered(anchor_y, head.y, anchor_y.spec_negated());
    }
    if head.y.spec_at_most(anchor_y) {
        law_sums_are_ordered(head.y, anchor_y, anchor_y.spec_negated());
    }
}

/// The items of the list are all on one page.
spec fn one_page(items: Seq<ItemView>, list: Seq<usize>, page: u32) -> bool {
    forall|i: int| 0 <= i < list.len() ==> items[(#[trigger] list[i]) as int].page == page
}

proof fn lemma_groups_of_one_page(items: Seq<ItemView>, list: Seq<usize>)
    ensures
        forall|k: int|
            0 <= k < page_groups(items, list).len() ==> (#[trigger] page_groups(items, list)[k]).len() > 0 && one_page(
                items,
                page_groups(items, list)[k],
                items[page_groups(items, list)[k].last() as int].page,
            ),
    decreases list.len(),
{
    if list.len() > 0 {
        lemma_groups_of_one_page(items, list.drop_last());
        let before = page_groups(items, list.drop_last());
        let after = page_groups(items, list);
        let x = list.last();
        assert forall|k: int| 0 <= k < after.len() implies (#[trigger] after[k]).len() > 0 && one_page(
            items,
            after[k],
            items[after[k].last() as int].page,
        ) by {
            if k < before.len() - 1 || after.len() > before.len() && k < before.len() {
                assert(after[k] == before[k]);
            } else if after.len() == before.len() {
                let last = before[before.len() - 1];
                assert(after[k] == last.push(x));
                assert(one_page(items, last, items[last.last() as int].page));
            } else {
                assert(after[k] == seq![x]);
            }
        }
    }
}

proof fn lemma_members_of_one_page(items: Seq<ItemView>, page: Seq<usize>, list: Seq<usize>, number: u32)
    requires
        one_page(items, page, number),
        forall|g: usize| #[trigger] times(list, g) > 0 ==> times(page, g) > 0,
    ensures
        one_page(items, list, number),
{
    assert forall|i: int| 0 <= i < list.len() implies items[(#[trigger] list[i]) as int].page == number by {
        assert(list.contains(list[i]));
        lemma_times_found(list, list[i]);
        lemma_times_found(page, list[i]);
        let k = page.index_of(list[i]);
        assert(items[page[k] as int].page == number);
    }
}

/// The anchor of a run is one of the bodies that were looked at.
proof fn lemma_best_anchor_on_page(
    items: Seq<ItemView>,
    chain: Seq<usize>,
    run_size: Single,
    window: Single,
    by_y: Seq<usize>,
    k: int,
    best: Anchor,
    number: u32,
)
    requires
        0 <= k,
        one_page(items, by_y, number),
        best matches Some((_, anchor, _)) ==> items[anchor as int].page == number,
    ensures
        best_anchor(items, chain, run_size, window, by_y, k, best) matches Some((_, anchor, _)) ==> items[
            anchor as int
        ].page == number,
    decreases by_y.len() - k,
{
    if k < by_y.len() {
        let x = by_y[k];
        let body = items[x as int];
        let first = items[chain[0] as int];
        let last = items[chain.last() as int];
        if !first.y.spec_plus(window).spec_less(body.y) {
            let next = if chain.contains(x) {
                best
            } else {
                match anchor_gap(first, last, run_size, body) {
                    None => best,
                    Some((gap, on_left)) => if better(best, gap, on_left) {
                        Some((gap, x, on_left))
                    } else {
                        best
                    },
                }
            };
            lemma_best_anchor_on_page(items, chain, run_size, window, by_y, k + 1, next, number);
        }
    }
}

/// The run stays on one page, that of its anchor.
pub open spec fn on_anchor_page(items: Seq<ItemView>, run: RunView) -> bool {
    forall|i: int|
        0 <= i < run.glyphs.len() ==> items[(#[trigger] run.glyphs[i]) as int].page == items[run.anchor as int].page
}

proof fn lemma_anchored_runs_on_page(
    items: Seq<ItemView>,
    by_y: Seq<usize>,
    window: Single,
    chains: Seq<Seq<usize>>,
    n: nat,
    number: u32,
)
    requires
        n <= chains.len(),
        one_page(items, by_y, number),
        forall|i: int| 0 <= i < chains.len() ==> one_page(items, #[trigger] chains[i], number),
    ensures
        forall|i: int|
            0 <= i < anchored_runs(items, by_y, window, chains, n).len() ==> on_anchor_page(
                items,
                #[trigger] anchored_runs(items, by_y, window, chains, n)[i],
            ),
    decreases n,
{
    if n > 0 {
        lemma_anchored_runs_on_page(items, by_y, window, chains, (n - 1) as nat, number);
        let before = anchored_runs(items, by_y, window, chains, (n - 1) as nat);
        let after = anchored_runs(items, by_y, window, chains, n);
        let chain = chains[n - 1];
        let bottom = items[chain[0] as int].y.spec_minus(window);
        lemma_window_start(items, by_y, bottom, 0);
        lemma_best_anchor_on_page(
            items,
            chain,
            largest_size(items, chain),
            window,
            by_y,
            below_window(items, by_y, bottom, 0),
            None,
            number,
        );
        assert forall|i: int| 0 <= i < after.len() implies on_anchor_page(items, #[trigger] after[i]) by {
            if i < before.len() {
                assert(after[i] == before[i]);
            } else {
                assert(after[i].glyphs == chain);
                assert(one_page(items, chain, number));
            }
        }
    }
}

proof fn lemma_chains_within(items: Seq<ItemView>, glyphs: Seq<usize>, k: int, g: usize)
    requires
        0 <= k < chains_of(items, glyphs).len(),
    ensures
        times(chains_of(items, glyphs)[k], g) <= times(glyphs, g),
{
    lemma_chains_spread(items, glyphs, g);
    lemma_spread_of_one(chains_of(items, glyphs), chains_of(items, glyphs).len(), k, g);
}

proof fn lemma_page_runs_on_page(items: Seq<ItemView>, page: Seq<usize>, number: u32)
    requires
        one_page(items, page, number),
    ensures
        forall|i: int|
            0 <= i < page_runs(items, page).len() ==> on_anchor_page(items, #[trigger] page_runs(items, page)[i]),
{
    let by_y = heights(items, page);
    assert forall|g: usize| #[trigger] times(by_y, g) > 0 implies times(page, g) > 0 by {
        lemma_times_sorted(page, y_keys(items), g);
    }
    lemma_members_of_one_page(items, page, by_y, number);
    let glyphs = glyph_shaped(items, by_y);
    let across = stably_sorted(glyphs, xy_keys(items));
    let chains = page_chains(items, page);
    assert forall|i: int| 0 <= i < chains.len() implies one_page(items, #[trigger] chains[i], number) by {
        assert forall|g: usize| #[trigger] times(chains[i], g) > 0 implies times(page, g) > 0 by {
            lemma_chains_within(items, across, i, g);
            lemma_times_sorted(glyphs, xy_keys(items), g);
            lemma_glyphs_within(items, by_y, g);
            lemma_times_sorted(page, y_keys(items), g);
        }
        lemma_members_of_one_page(items, page, chains[i], number);
    }
    lemma_anchored_runs_on_page(items, by_y, page_window(items, page), chains, chains.len(), number);
}

proof fn lemma_runs_on_pages(items: Seq<ItemView>, pages: Seq<Seq<usize>>, n: nat)
    requires
        n <= pages.len(),
        forall|k: int|
            0 <= k < pages.len() ==> (#[trigger] pages[k]).len() > 0 && one_page(
                items,
                pages[k],
                items[pages[k].last() as int].page,
            ),
    ensures
        forall|i: int|
            0 <= i < runs_of_pages(items, pages, n).len() ==> on_anchor_page(
                items,
                #[trigger] runs_of_pages(items, pages, n)[i],
            ),
    decreases n,
{
    if n > 0 {
        lemma_runs_on_pages(items, pages, (n - 1) as nat);
        let before = runs_of_pages(items, pages, (n - 1) as nat);
        let page = pages[n - 1];
        lemma_page_runs_on_page(items, page, items[page.last() as int].page);
        let more = page_runs(items, page);
        let after = runs_of_pages(items, pages, n);
        assert forall|i: int| 0 <= i < after.len() implies on_anchor_page(items, #[trigger] after[i]) by {
            if i < before.len() {
                assert(after[i] == before[i]);
            } else {
                assert(after[i] == more[i - before.len()]);
            }
        }
    }
}

/// A script run and its anchor are on one page.
pub proof fn law_runs_stay_on_the_page_of_their_anchor(items: Seq<ItemView>, i: int)
    requires
        0 <= i < script_runs(items).len(),
    ensures
        on_anchor_page(items, script_runs(items)[i]),
{
    let pages = pages_of(items);
    lemma_groups_of_one_page(items, stably_sorted(participants(items, items.len()), page_keys(items)));
    lemma_runs_on_pages(items, pages, pages.len());
}

} // verus!
