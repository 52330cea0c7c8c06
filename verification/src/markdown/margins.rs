//! The margins of pages, and the furniture that runs through a document.

use crate::fractions::{
    fits, fraction, law_fractions_add_exactly, law_fractions_divide_exactly, law_fractions_subtract_exactly,
    law_integers_are_whole, law_nothing_lies_between_the_same, law_zero_fractions, law_zero_is_a_fraction, whole,
};
use crate::markdown::furniture::{
    at_edge, average_span, consistent, distinct_heights, height_keys, height_position, in_row_of, indices,
    is_structural, kept_lines, key_heights, key_pages, line_rows, page_heights, page_threshold, protected, removed,
    removed_alone, removed_flags, repeats_alone, row_size, same_row, sorted_values, squares, sum_of, without_repeated,
    without_repeats, RowView, SAME_HEIGHT_BITS,
};
use crate::markdown::words::{comparable, decorative, structural};
use crate::single::{order_key, total_key, Single};
use crate::sorting::{key_before, law_sorted_is_an_ordered_permutation, stably_sorted};
use crate::types::LineView;
use vstd::prelude::*;

verus! {

/// The heights of the lines are finite.
pub open spec fn level_lines(lines: Seq<LineView>) -> bool {
    forall|i: int| 0 <= i < lines.len() ==> (#[trigger] lines[i]).y.spec_finite()
}

/// Two heights are one, or they are told apart.
pub open spec fn told_apart(a: Single, b: Single) -> bool {
    a.spec_same(b) || !a.spec_minus(b).spec_absolute().spec_less(Single { bits: SAME_HEIGHT_BITS })
}

/// Different heights of a page are told apart.
pub open spec fn spaced(lines: Seq<LineView>, page: u32) -> bool {
    forall|i: int, j: int|
        0 <= i < lines.len() && 0 <= j < lines.len() && (#[trigger] lines[i]).page == page && (
        #[trigger] lines[j]).page == page ==> told_apart(lines[i].y, lines[j].y)
}

/// A height of the page that lies below a line.
pub open spec fn below(lines: Seq<LineView>, i: int, j: int) -> bool {
    0 <= j < lines.len() && lines[j].page == lines[i].page && lines[j].y.spec_less(lines[i].y)
}

/// The distinct heights of the page below a line.
pub open spec fn heights_below(lines: Seq<LineView>, i: int) -> Set<int> {
    Set::new(|h: int| exists|j: int| #[trigger] below(lines, i, j) && h == order_key(lines[j].y.bits))
}

/// A height of the page that lies above a line.
pub open spec fn above(lines: Seq<LineView>, i: int, j: int) -> bool {
    0 <= j < lines.len() && lines[j].page == lines[i].page && lines[i].y.spec_less(lines[j].y)
}

/// The distinct heights of the page above a line.
pub open spec fn heights_above(lines: Seq<LineView>, i: int) -> Set<int> {
    Set::new(|h: int| exists|j: int| #[trigger] above(lines, i, j) && h == order_key(lines[j].y.bits))
}

/// A line of the page is at this height.
pub open spec fn stands_at(lines: Seq<LineView>, page: u32, y: Single, n: int) -> bool {
    exists|i: int| 0 <= i < n && (#[trigger] lines[i]).page == page && lines[i].y == y
}

/// One of the numbers is the same as this one.
pub open spec fn holds(values: Seq<Single>, y: Single) -> bool {
    exists|k: int| 0 <= k < values.len() && (#[trigger] values[k]).spec_same(y)
}

proof fn lemma_page_heights(lines: Seq<LineView>, page: u32, n: nat)
    requires
        n <= lines.len(),
    ensures
        page_heights(lines, page, n).len() <= n,
        forall|k: int|
            0 <= k < page_heights(lines, page, n).len() ==> stands_at(
                lines,
                page,
                #[trigger] page_heights(lines, page, n)[k],
                n as int,
            ),
        forall|i: int|
            0 <= i < n && (#[trigger] lines[i]).page == page ==> page_heights(lines, page, n).contains(lines[i].y),
    decreases n,
{
    if n > 0 {
        lemma_page_heights(lines, page, (n - 1) as nat);
        let before = page_heights(lines, page, (n - 1) as nat);
        let after = page_heights(lines, page, n);
        assert forall|k: int| 0 <= k < after.len() implies stands_at(lines, page, #[trigger] after[k], n as int) by {
            if k < before.len() {
                assert(after[k] == before[k]);
                assert(stands_at(lines, page, before[k], n - 1));
                let i = choose|i: int|
                    0 <= i < n - 1 && (#[trigger] lines[i]).page == page && lines[i].y == before[k];
                assert(lines[i].page == page && lines[i].y == after[k]);
            } else {
                assert(lines[n - 1].page == page && lines[n - 1].y == after[k]);
            }
        }
        assert forall|i: int| 0 <= i < n && (#[trigger] lines[i]).page == page implies after.contains(lines[i].y) by {
            if i < n - 1 {
                assert(before.contains(lines[i].y));
                let k = before.index_of(lines[i].y);
                assert(after[k] == lines[i].y);
            } else {
                assert(after[after.len() - 1] == lines[i].y);
            }
        }
    }
}

/// Sorted numbers are the same numbers, in their order.
pub proof fn law_sorted_values_are_in_order(values: Seq<Single>)
    requires
        values.len() <= usize::MAX,
    ensures
        sorted_values(values).len() == values.len(),
        forall|k: int| 0 <= k < values.len() ==> values.contains(#[trigger] sorted_values(values)[k]),
        forall|k: int| 0 <= k < values.len() ==> sorted_values(values).contains(#[trigger] values[k]),
        forall|i: int, j: int|
            0 <= i < j < values.len() ==> total_key((#[trigger] sorted_values(values)[i]).bits) <= total_key(
                (#[trigger] sorted_values(values)[j]).bits,
            ),
{
    broadcast use vstd::seq_lib::group_to_multiset_ensures;

    let list = indices(values.len());
    let keys = height_keys(values);
    let order = stably_sorted(list, keys);
    let sorted = sorted_values(values);
    law_sorted_is_an_ordered_permutation(list, keys);
    assert forall|k: int| 0 <= k < order.len() implies (#[trigger] order[k]) < values.len() by {
        assert(order.contains(order[k]));
        assert(order.to_multiset().count(order[k]) > 0);
        assert(list.to_multiset().count(order[k]) > 0);
        assert(list.contains(order[k]));
        let i = list.index_of(order[k]);
        assert(list[i] == i as usize);
    }
    assert forall|k: int| 0 <= k < values.len() implies values.contains(#[trigger] sorted[k]) by {
        assert(values[order[k] as int] == sorted[k]);
    }
    assert forall|k: int| 0 <= k < values.len() implies sorted.contains(#[trigger] values[k]) by {
        assert(list[k] == k as usize);
        assert(list.contains(k as usize));
        assert(list.to_multiset().count(k as usize) > 0);
        assert(order.to_multiset().count(k as usize) > 0);
        assert(order.contains(k as usize));
        let p = order.index_of(k as usize);
        assert(sorted[p] == values[k]);
    }
    assert forall|i: int, j: int| 0 <= i < j < values.len() implies total_key((#[trigger] sorted[i]).bits)
        <= total_key((#[trigger] sorted[j]).bits) by {
        assert(!key_before(keys[order[j] as int], keys[order[i] as int]));
    }
}

/// Numbers in ascending order, no two the same.
pub open spec fn ascending(values: Seq<Single>) -> bool {
    forall|i: int, j: int|
        0 <= i < j < values.len() ==> order_key((#[trigger] values[i]).bits) < order_key((#[trigger] values[j]).bits)
}

/// Numbers in their total order.
spec fn sorted(values: Seq<Single>) -> bool {
    forall|i: int, j: int|
        0 <= i < j < values.len() ==> total_key((#[trigger] values[i]).bits) <= total_key((#[trigger] values[j]).bits)
}

spec fn all_finite(values: Seq<Single>) -> bool {
    forall|i: int| 0 <= i < values.len() ==> (#[trigger] values[i]).spec_finite()
}

proof fn lemma_pushed_ascending(before: Seq<Single>, last: Single)
    requires
        ascending(before),
        before.len() > 0 ==> order_key(before.last().bits) < order_key(last.bits),
    ensures
        ascending(before.push(last)),
{
    let after = before.push(last);
    assert forall|i: int, j: int| 0 <= i < j < after.len() implies order_key((#[trigger] after[i]).bits) < order_key(
        (#[trigger] after[j]).bits,
    ) by {
        assert(after[i] == before[i]);
        if j < before.len() {
            assert(after[j] == before[j]);
        } else if i < before.len() - 1 {
            assert(order_key(before[i].bits) < order_key(before[before.len() - 1].bits));
        }
    }
}

proof fn lemma_without_repeats(values: Seq<Single>)
    requires
        all_finite(values),
        sorted(values),
    ensures
        ascending(without_repeats(values)),
        forall|k: int| 0 <= k < without_repeats(values).len() ==> values.contains(#[trigger] without_repeats(values)[k]),
        forall|i: int| 0 <= i < values.len() ==> holds(without_repeats(values), #[trigger] values[i]),
        values.len() > 0 ==> without_repeats(values).len() > 0 && without_repeats(values).last().spec_same(
            values.last(),
        ),
    decreases values.len(),
{
    if values.len() > 0 {
        let front = values.drop_last();
        assert(all_finite(front)) by {
            assert forall|i: int| 0 <= i < front.len() implies (#[trigger] front[i]).spec_finite() by {
                assert(front[i] == values[i]);
            }
        }
        assert(sorted(front)) by {
            assert forall|i: int, j: int| 0 <= i < j < front.len() implies total_key((#[trigger] front[i]).bits)
                <= total_key((#[trigger] front[j]).bits) by {
                assert(front[i] == values[i] && front[j] == values[j]);
            }
        }
        lemma_without_repeats(front);
        let before = without_repeats(front);
        let after = without_repeats(values);
        let last = values[values.len() - 1];
        assert(last.spec_finite());
        if front.len() > 0 {
            let near = values[values.len() - 2];
            assert(front.last() == near);
            assert(total_key(near.bits) <= total_key(last.bits));
            assert(near.spec_finite());
            if !before.last().spec_same(last) {
                assert(order_key(before.last().bits) < order_key(last.bits));
                lemma_pushed_ascending(before, last);
            }
        } else {
            lemma_pushed_ascending(before, last);
        }
        assert forall|k: int| 0 <= k < after.len() implies values.contains(#[trigger] after[k]) by {
            if k < before.len() {
                assert(after[k] == before[k]);
                let i = front.index_of(before[k]);
                assert(values[i] == after[k]);
            } else {
                assert(values[values.len() - 1] == after[k]);
            }
        }
        assert(after.last().spec_same(last));
        assert forall|i: int| 0 <= i < values.len() implies holds(after, #[trigger] values[i]) by {
            if i < front.len() {
                assert(front[i] == values[i]);
                assert(holds(before, front[i]));
                let k = choose|k: int| 0 <= k < before.len() && (#[trigger] before[k]).spec_same(front[i]);
                assert(after[k] == before[k]);
            } else {
                assert(after[after.len() - 1].spec_same(values[i]));
            }
        }
    }
}

/// The distinct heights of a page are those of its lines, from the lowest to
/// the highest, each once.
pub proof fn law_heights_of_a_page_ascend(lines: Seq<LineView>, page: u32)
    requires
        lines.len() <= usize::MAX,
        level_lines(lines),
    ensures
        ascending(distinct_heights(lines, page)),
        forall|k: int|
            0 <= k < distinct_heights(lines, page).len() ==> stands_at(
                lines,
                page,
                #[trigger] distinct_heights(lines, page)[k],
                lines.len() as int,
            ),
        forall|i: int|
            0 <= i < lines.len() && (#[trigger] lines[i]).page == page ==> holds(
                distinct_heights(lines, page),
                lines[i].y,
            ),
{
    let all = page_heights(lines, page, lines.len());
    let ordered = sorted_values(all);
    let heights = distinct_heights(lines, page);
    lemma_page_heights(lines, page, lines.len());
    law_sorted_values_are_in_order(all);
    assert(all_finite(ordered)) by {
        assert forall|k: int| 0 <= k < ordered.len() implies (#[trigger] ordered[k]).spec_finite() by {
            assert(all.contains(ordered[k]));
            let p = all.index_of(ordered[k]);
            assert(stands_at(lines, page, all[p], lines.len() as int));
        }
    }
    lemma_without_repeats(ordered);
    assert forall|k: int| 0 <= k < heights.len() implies stands_at(
        lines,
        page,
        #[trigger] heights[k],
        lines.len() as int,
    ) by {
        assert(ordered.contains(heights[k]));
        let p = ordered.index_of(heights[k]);
        assert(all.contains(ordered[p]));
        let q = all.index_of(ordered[p]);
        assert(stands_at(lines, page, all[q], lines.len() as int));
    }
    assert forall|i: int| 0 <= i < lines.len() && (#[trigger] lines[i]).page == page implies holds(
        heights,
        lines[i].y,
    ) by {
        assert(all.contains(lines[i].y));
        let p = all.index_of(lines[i].y);
        assert(ordered.contains(all[p]));
        let q = ordered.index_of(all[p]);
        assert(holds(heights, ordered[q]));
    }
}

proof fn lemma_position(heights: Seq<Single>, y: Single, from: int, k: int)
    requires
        0 <= from <= k < heights.len(),
        forall|p: int|
            from <= p < k ==> !(#[trigger] heights[p]).spec_minus(y).spec_absolute().spec_less(
                Single { bits: SAME_HEIGHT_BITS },
            ),
        heights[k].spec_minus(y).spec_absolute().spec_less(Single { bits: SAME_HEIGHT_BITS }),
    ensures
        height_position(heights, y, from) == Some(k),
    decreases k - from,
{
    if from < k {
        assert(!heights[from].spec_minus(y).spec_absolute().spec_less(Single { bits: SAME_HEIGHT_BITS }));
        lemma_position(heights, y, from + 1, k);
    }
}

/// A number among ascending ones that is told apart from the others is found
/// in its place.
proof fn lemma_found(heights: Seq<Single>, y: Single, k: int)
    requires
        ascending(heights),
        all_finite(heights),
        y.spec_finite(),
        0 <= k < heights.len(),
        heights[k].spec_same(y),
        forall|p: int| 0 <= p < heights.len() ==> told_apart(#[trigger] heights[p], y),
    ensures
        height_position(heights, y, 0) == Some(k),
{
    law_nothing_lies_between_the_same(heights[k], y);
    assert forall|p: int| 0 <= p < k implies !(#[trigger] heights[p]).spec_minus(y).spec_absolute().spec_less(
        Single { bits: SAME_HEIGHT_BITS },
    ) by {
        assert(order_key(heights[p].bits) < order_key(heights[k].bits));
        assert(told_apart(heights[p], y));
    }
    lemma_position(heights, y, 0, k);
}

/// Where the height of a line is told apart from the others of its page, it is
/// found in its place.
proof fn lemma_place(lines: Seq<LineView>, i: int) -> (k: int)
    requires
        0 <= i < lines.len() <= usize::MAX,
        level_lines(lines),
        spaced(lines, lines[i].page),
    ensures
        0 <= k < distinct_heights(lines, lines[i].page).len(),
        distinct_heights(lines, lines[i].page)[k].spec_same(lines[i].y),
        height_position(distinct_heights(lines, lines[i].page), lines[i].y, 0) == Some(k),
{
    let page = lines[i].page;
    let y = lines[i].y;
    let heights = distinct_heights(lines, page);
    law_heights_of_a_page_ascend(lines, page);
    assert(holds(heights, y));
    let k = choose|k: int| 0 <= k < heights.len() && (#[trigger] heights[k]).spec_same(y);
    lemma_heights_finite(lines, page);
    assert forall|p: int| 0 <= p < heights.len() implies told_apart(#[trigger] heights[p], y) by {
        assert(stands_at(lines, page, heights[p], lines.len() as int));
        let q = choose|q: int|
            0 <= q < lines.len() && (#[trigger] lines[q]).page == page && lines[q].y == heights[p];
        assert(told_apart(lines[q].y, lines[i].y));
    }
    lemma_found(heights, y, k);
    k
}

proof fn lemma_heights_finite(lines: Seq<LineView>, page: u32)
    requires
        lines.len() <= usize::MAX,
        level_lines(lines),
    ensures
        all_finite(distinct_heights(lines, page)),
{
    let heights = distinct_heights(lines, page);
    law_heights_of_a_page_ascend(lines, page);
    assert forall|p: int| 0 <= p < heights.len() implies (#[trigger] heights[p]).spec_finite() by {
        assert(stands_at(lines, page, heights[p], lines.len() as int));
    }
}

/// The heights below a line are those before its place.
proof fn lemma_below(lines: Seq<LineView>, i: int, k: int)
    requires
        0 <= i < lines.len() <= usize::MAX,
        level_lines(lines),
        0 <= k < distinct_heights(lines, lines[i].page).len(),
        distinct_heights(lines, lines[i].page)[k].spec_same(lines[i].y),
    ensures
        heights_below(lines, i).finite(),
        heights_below(lines, i).len() == k,
{
    let page = lines[i].page;
    let heights = distinct_heights(lines, page);
    law_heights_of_a_page_ascend(lines, page);
    lemma_heights_finite(lines, page);
    let low = Seq::new(k as nat, |p: int| order_key(heights[p].bits));
    assert(low.no_duplicates());
    low.unique_seq_to_set();
    vstd::seq_lib::seq_to_set_is_finite(low);
    let set = heights_below(lines, i);
    assert forall|h: int| low.to_set().contains(h) implies set.contains(h) by {
        let p = low.index_of(h);
        assert(stands_at(lines, page, heights[p], lines.len() as int));
        let j = choose|j: int|
            0 <= j < lines.len() && (#[trigger] lines[j]).page == page && lines[j].y == heights[p];
        assert(order_key(heights[p].bits) < order_key(heights[k].bits));
        assert(lines[j].y.spec_finite() && lines[i].y.spec_finite());
        assert(below(lines, i, j));
    }
    assert forall|h: int| set.contains(h) implies low.to_set().contains(h) by {
        let j = choose|j: int| #[trigger] below(lines, i, j) && h == order_key(lines[j].y.bits);
        assert(lines[j].page == page);
        assert(holds(heights, lines[j].y));
        let p = choose|p: int| 0 <= p < heights.len() && (#[trigger] heights[p]).spec_same(lines[j].y);
        if p > k {
            assert(order_key(heights[k].bits) < order_key(heights[p].bits));
        }
        assert(p < k);
        assert(low[p] == h);
    }
    assert(low.to_set() =~= set);
}

/// The heights above a line are those behind its place.
proof fn lemma_above(lines: Seq<LineView>, i: int, k: int)
    requires
        0 <= i < lines.len() <= usize::MAX,
        level_lines(lines),
        0 <= k < distinct_heights(lines, lines[i].page).len(),
        distinct_heights(lines, lines[i].page)[k].spec_same(lines[i].y),
    ensures
        heights_above(lines, i).finite(),
        heights_above(lines, i).len() == distinct_heights(lines, lines[i].page).len() - k - 1,
{
    let page = lines[i].page;
    let heights = distinct_heights(lines, page);
    law_heights_of_a_page_ascend(lines, page);
    lemma_heights_finite(lines, page);
    let high = Seq::new((heights.len() - k - 1) as nat, |p: int| order_key(heights[p + k + 1].bits));
    assert(high.no_duplicates());
    high.unique_seq_to_set();
    vstd::seq_lib::seq_to_set_is_finite(high);
    let set = heights_above(lines, i);
    assert forall|h: int| high.to_set().contains(h) implies set.contains(h) by {
        let q = high.index_of(h);
        let p = q + k + 1;
        assert(stands_at(lines, page, heights[p], lines.len() as int));
        let j = choose|j: int|
            0 <= j < lines.len() && (#[trigger] lines[j]).page == page && lines[j].y == heights[p];
        assert(order_key(heights[k].bits) < order_key(heights[p].bits));
        assert(lines[j].y.spec_finite() && lines[i].y.spec_finite());
        assert(above(lines, i, j));
    }
    assert forall|h: int| set.contains(h) implies high.to_set().contains(h) by {
        let j = choose|j: int| #[trigger] above(lines, i, j) && h == order_key(lines[j].y.bits);
        assert(lines[j].page == page);
        assert(holds(heights, lines[j].y));
        let p = choose|p: int| 0 <= p < heights.len() && (#[trigger] heights[p]).spec_same(lines[j].y);
        if p < k {
            assert(order_key(heights[p].bits) < order_key(heights[k].bits));
        }
        assert(p > k);
        assert(high[p - k - 1] == h);
    }
    assert(high.to_set() =~= set);
}

/// A line is at the edge of its page exactly where fewer than five heights lie
/// below it, or fewer than five above it: both ends of a page are its edge
/// alike.
pub proof fn law_both_ends_of_a_page_are_its_edge(lines: Seq<LineView>, i: int)
    requires
        0 <= i < lines.len() <= usize::MAX,
        level_lines(lines),
        spaced(lines, lines[i].page),
    ensures
        heights_below(lines, i).finite(),
        heights_above(lines, i).finite(),
        at_edge(lines, i) <==> heights_below(lines, i).len() < 5 || heights_above(lines, i).len() < 5,
{
    let k = lemma_place(lines, i);
    lemma_below(lines, i, k);
    lemma_above(lines, i, k);
}

/// No line of the page is lower.
pub open spec fn is_lowest(lines: Seq<LineView>, i: int) -> bool {
    forall|j: int|
        0 <= j < lines.len() && (#[trigger] lines[j]).page == lines[i].page ==> lines[i].y.spec_at_most(lines[j].y)
}

/// No line of the page is higher.
pub open spec fn is_highest(lines: Seq<LineView>, i: int) -> bool {
    forall|j: int|
        0 <= j < lines.len() && (#[trigger] lines[j]).page == lines[i].page ==> lines[j].y.spec_at_most(lines[i].y)
}

/// The lowest line of every page is at its edge, and so is the highest where
/// the heights of the page are told apart.
pub proof fn law_outermost_lines_are_at_the_edge(lines: Seq<LineView>, i: int)
    requires
        0 <= i < lines.len() <= usize::MAX,
        level_lines(lines),
    ensures
        is_lowest(lines, i) ==> at_edge(lines, i),
        is_highest(lines, i) && spaced(lines, lines[i].page) ==> at_edge(lines, i),
{
    let page = lines[i].page;
    let y = lines[i].y;
    let heights = distinct_heights(lines, page);
    if is_lowest(lines, i) {
        law_heights_of_a_page_ascend(lines, page);
        lemma_heights_finite(lines, page);
        assert(holds(heights, y));
        let k = choose|k: int| 0 <= k < heights.len() && (#[trigger] heights[k]).spec_same(y);
        assert(stands_at(lines, page, heights[0], lines.len() as int));
        let j = choose|j: int| 0 <= j < lines.len() && (#[trigger] lines[j]).page == page && lines[j].y == heights[0];
        assert(y.spec_at_most(lines[j].y));
        if k > 0 {
            assert(order_key(heights[0].bits) < order_key(heights[k].bits));
        }
        assert(y.spec_finite());
        law_nothing_lies_between_the_same(heights[0], y);
        lemma_position(heights, y, 0, 0);
    }
    if is_highest(lines, i) && spaced(lines, page) {
        law_both_ends_of_a_page_are_its_edge(lines, i);
        assert(heights_above(lines, i) =~= Set::empty()) by {
            assert forall|h: int| !heights_above(lines, i).contains(h) by {
                if heights_above(lines, i).contains(h) {
                    let j = choose|j: int| #[trigger] above(lines, i, j) && h == order_key(lines[j].y.bits);
                    assert(lines[j].page == page);
                }
            }
        }
    }
}

/// The line has this text, by which lines are compared.
pub open spec fn says(lines: Seq<LineView>, i: int, key: Seq<char>) -> bool {
    0 <= i < lines.len() && comparable(lines[i].text()) == key
}

/// A line of the page has this text.
pub open spec fn on_page(lines: Seq<LineView>, key: Seq<char>, page: u32) -> bool {
    exists|i: int| #[trigger] says(lines, i, key) && lines[i].page == page
}

/// One of the first `n` lines has this text.
pub open spec fn said_before(lines: Seq<LineView>, n: int, key: Seq<char>) -> bool {
    exists|j: int| 0 <= j < n && #[trigger] says(lines, j, key)
}

/// No other line stands in the row of the line.
pub open spec fn alone_in_row(lines: Seq<LineView>, i: int) -> bool {
    forall|j: int| 0 <= j < lines.len() && j != i ==> !same_row(#[trigger] lines[j], lines[i])
}

/// A plain text of ten or more characters runs through a document: it stands
/// once on every page, page after page, always at one height at the bottom or
/// at the top of the page, in a row of its own that no structural line is near.
pub open spec fn runs_through(lines: Seq<LineView>, key: Seq<char>, y: Single, page_count: u32) -> bool {
    &&& key.len() >= 10 && !decorative(key) && !structural(key)
    &&& forall|page: u32| 1 <= page <= page_count ==> #[trigger] on_page(lines, key, page)
    &&& forall|i: int, j: int|
        i < j && #[trigger] says(lines, i, key) && #[trigger] says(lines, j, key) ==> lines[i].page < lines[j].page
    &&& forall|i: int| #[trigger]
        says(lines, i, key) ==> {
            &&& lines[i].y == y
            &&& is_lowest(lines, i) || (is_highest(lines, i) && spaced(lines, lines[i].page))
            &&& !is_structural(lines[i])
            &&& !protected(lines, i)
            &&& alone_in_row(lines, i)
        }
}

proof fn lemma_holds_all_pages(pages: Seq<u32>, count: u32)
    requires
        forall|page: u32| 1 <= page <= count ==> pages.contains(page),
    ensures
        pages.len() >= count,
    decreases count,
{
    if count > 0 {
        assert(pages.contains(count));
        let k = pages.index_of(count);
        let rest = pages.remove(k);
        assert forall|page: u32| 1 <= page <= count - 1 implies rest.contains(page) by {
            assert(pages.contains(page));
            let p = pages.index_of(page);
            assert(p != k);
            if p < k {
                assert(rest[p] == page);
            } else {
                assert(rest[p - 1] == page);
            }
        }
        lemma_holds_all_pages(rest, (count - 1) as u32);
    }
}

proof fn lemma_key_pages(rows: Seq<RowView>, key: Seq<char>, n: nat)
    requires
        n <= rows.len(),
    ensures
        forall|i: int|
            0 <= i < n && (#[trigger] rows[i]).selected && rows[i].key == key ==> key_pages(rows, key, n).contains(
                rows[i].page,
            ),
    decreases n,
{
    if n > 0 {
        lemma_key_pages(rows, key, (n - 1) as nat);
        let before = key_pages(rows, key, (n - 1) as nat);
        let after = key_pages(rows, key, n);
        assert forall|i: int| 0 <= i < n && (#[trigger] rows[i]).selected && rows[i].key == key implies after.contains(
            rows[i].page,
        ) by {
            if i < n - 1 || before.contains(rows[i].page) {
                assert(before.contains(rows[i].page));
                let k = before.index_of(rows[i].page);
                assert(after[k] == rows[i].page);
            } else {
                assert(after[after.len() - 1] == rows[i].page);
            }
        }
    }
}

proof fn lemma_key_heights(rows: Seq<RowView>, key: Seq<char>, y: Single, n: nat)
    requires
        n <= rows.len(),
        forall|i: int| 0 <= i < n && (#[trigger] rows[i]).selected && rows[i].key == key ==> rows[i].y == y,
    ensures
        key_heights(rows, key, n).len() <= n,
        forall|k: int| 0 <= k < key_heights(rows, key, n).len() ==> #[trigger] key_heights(rows, key, n)[k] == y,
    decreases n,
{
    if n > 0 {
        lemma_key_heights(rows, key, y, (n - 1) as nat);
    }
}

proof fn lemma_sum(values: Seq<Single>, y: Single, m: int, k: nat, n: nat)
    requires
        n <= values.len(),
        forall|i: int| 0 <= i < values.len() ==> #[trigger] values[i] == y,
        fraction(y, m, k),
        fits(m * values.len()),
        k <= 149,
    ensures
        fraction(sum_of(values, n), m * n, k),
    decreases n,
{
    if n == 0 {
        law_zero_is_a_fraction(Single { bits: 0 }, k);
        assert(m * 0 == 0);
    } else {
        lemma_sum(values, y, m, k, (n - 1) as nat);
        let total = values.len() as int;
        assert(m * (n - 1) + m == m * n) by (nonlinear_arith);
        assert(fits(m * n)) by (nonlinear_arith)
            requires
                -0x100_0000 < m * total < 0x100_0000,
                0 <= n <= total,
        ;
        law_fractions_add_exactly(sum_of(values, (n - 1) as nat), values[n - 1], m * (n - 1), m, k);
    }
}

proof fn lemma_sum_of_zeros(values: Seq<Single>, n: nat)
    requires
        n <= values.len(),
        forall|i: int| 0 <= i < values.len() ==> (#[trigger] values[i]).spec_zero(),
    ensures
        whole(sum_of(values, n), 0),
    decreases n,
{
    if n == 0 {
        law_zero_is_a_fraction(Single { bits: 0 }, 0);
    } else {
        lemma_sum_of_zeros(values, (n - 1) as nat);
        law_zero_is_a_fraction(values[n - 1], 0);
        law_fractions_add_exactly(sum_of(values, (n - 1) as nat), values[n - 1], 0, 0, 0);
    }
}

/// A text that is always at one height is at a consistent height, as far as
/// the heights add up exactly.
pub proof fn law_one_height_is_consistent(values: Seq<Single>, y: Single, m: int, k: nat, span: Single)
    requires
        forall|i: int| 0 <= i < values.len() ==> #[trigger] values[i] == y,
        fraction(y, m, k),
        fits(m * values.len()),
        fits(m),
        fits(values.len() as int),
        k <= 149,
        !span.spec_nan(),
        !span.spec_zero(),
    ensures
        consistent(values, span),
{
    if values.len() >= 2 {
        let c = values.len();
        let n = Single::spec_from_natural(c);
        law_integers_are_whole(c as i64);
        lemma_sum(values, y, m, k, c);
        let mean = sum_of(values, c).spec_over(n);
        law_fractions_divide_exactly(sum_of(values, c), n, m, c as int, k, 0);
        let parts = squares(values, mean);
        law_fractions_subtract_exactly(y, mean, m, m, k);
        law_zero_fractions(y.spec_minus(mean), 0, k);
        assert forall|i: int| 0 <= i < parts.len() implies (#[trigger] parts[i]).spec_zero() by {
            let d = values[i].spec_minus(mean);
            assert(values[i] == y);
            law_zero_is_a_fraction(d, 0);
            crate::fractions::law_fractions_multiply_exactly(d, d, 0, 0, 0, 0);
            law_zero_fractions(d.spec_times(d), 0, 0);
        }
        lemma_sum_of_zeros(parts, c);
        assert(0 * (c as int) == 0);
        law_fractions_divide_exactly(sum_of(parts, c), n, 0, c as int, 0, 0);
        let variance = sum_of(parts, c).spec_over(n);
        law_zero_fractions(variance, 0, 0);
        lemma_root_of_zero(variance);
        lemma_zero_over(variance.spec_root(), span);
    }
}

proof fn lemma_root_of_zero(x: Single)
    requires
        x.spec_zero(),
    ensures
        x.spec_root().spec_zero(),
{
    reveal(Single::spec_root);
}

proof fn lemma_zero_over(x: Single, span: Single)
    requires
        x.spec_zero(),
        !span.spec_nan(),
        !span.spec_zero(),
    ensures
        x.spec_over(span).spec_zero(),
{
    reveal(Single::spec_over);
    crate::ieee::lemma_format_bounds(crate::ieee::single_format());
}

/// The lines of a sequence with this text.
pub open spec fn count_saying(lines: Seq<LineView>, key: Seq<char>) -> nat
    decreases lines.len(),
{
    if lines.len() == 0 {
        0
    } else {
        count_saying(lines.drop_last(), key) + if comparable(lines.last().text()) == key {
            1nat
        } else {
            0nat
        }
    }
}

proof fn lemma_running_text_repeats(
    lines: Seq<LineView>,
    key: Seq<char>,
    y: Single,
    m: int,
    k: nat,
    page_count: u32,
    i: int,
)
    requires
        lines.len() <= usize::MAX,
        level_lines(lines),
        runs_through(lines, key, y, page_count),
        page_count >= 3,
        fraction(y, m, k),
        fits(m),
        fits(m * lines.len()),
        fits(lines.len() as int),
        k <= 149,
        says(lines, i, key),
    ensures
        repeats_alone(lines, i, page_count),
{
    let rows = line_rows(lines);
    assert forall|j: int| #[trigger] says(lines, j, key) implies rows[j].selected && rows[j].key == key && rows[j].y == y
        && rows[j].page == lines[j].page by {
        law_outermost_lines_are_at_the_edge(lines, j);
    }
    lemma_key_pages(rows, key, rows.len());
    let pages = key_pages(rows, key, rows.len());
    assert forall|page: u32| 1 <= page <= page_count implies pages.contains(page) by {
        assert(on_page(lines, key, page));
        let j = choose|j: int| #[trigger] says(lines, j, key) && lines[j].page == page;
        assert(rows[j].selected);
        assert(pages.contains(rows[j].page));
    }
    lemma_holds_all_pages(pages, page_count);
    assert forall|j: int| 0 <= j < rows.len() && (#[trigger] rows[j]).selected && rows[j].key == key implies rows[j].y
        == y by {
        assert(says(lines, j, key));
    }
    lemma_key_heights(rows, key, y, rows.len());
    let values = key_heights(rows, key, rows.len());
    let total = lines.len() as int;
    let c = values.len() as int;
    assert(fits(m * c)) by (nonlinear_arith)
        requires
            -0x100_0000 < m * total < 0x100_0000,
            0 <= c <= total,
    ;
    let span = average_span(lines);
    assert(!span.spec_nan() && !span.spec_zero());
    law_one_height_is_consistent(values, y, m, k, span);
    law_outermost_lines_are_at_the_edge(lines, i);
    assert(page_threshold(page_count) <= page_count);
}

proof fn lemma_running_text_is_removed_later(
    lines: Seq<LineView>,
    key: Seq<char>,
    y: Single,
    m: int,
    k: nat,
    page_count: u32,
    i: int,
)
    requires
        lines.len() <= usize::MAX,
        level_lines(lines),
        runs_through(lines, key, y, page_count),
        page_count >= 3,
        fraction(y, m, k),
        fits(m),
        fits(m * lines.len()),
        fits(lines.len() as int),
        k <= 149,
        says(lines, i, key),
    ensures
        removed(lines, i, page_count) <==> said_before(lines, i, key),
{
    lemma_running_text_repeats(lines, key, y, m, k, page_count, i);
    if said_before(lines, i, key) {
        let f = lemma_first(lines, key, i);
        lemma_running_text_repeats(lines, key, y, m, k, page_count, f);
        assert(lines[f].page < lines[i].page);
        assert(comparable(lines[f].text()) == comparable(lines[i].text()));
        assert forall|q: int| 0 <= q < f && repeats_alone(lines, q, page_count) implies comparable(
            (#[trigger] lines[q]).text(),
        ) != comparable(lines[i].text()) by {
            assert(!says(lines, q, key));
        }
        assert(removed_alone(lines, i, page_count));
    } else {
        assert forall|j: int| 0 <= j < i && repeats_alone(lines, j, page_count) implies comparable(
            (#[trigger] lines[j]).text(),
        ) != key by {
            assert(!says(lines, j, key));
        }
        assert(!removed_alone(lines, i, page_count));
        assert forall|h: int| #[trigger] in_row_of(lines, i, h) implies h == i by {
            assert(same_row(lines[h], lines[i]));
        }
        lemma_row_of_one(lines, i, lines.len());
        assert forall|j: int| 0 <= j < lines.len() && same_row(lines[i], #[trigger] lines[j]) implies j == i by {
            assert(same_row(lines[j], lines[i]));
        }
    }
}

proof fn lemma_first(lines: Seq<LineView>, key: Seq<char>, n: int) -> (f: int)
    requires
        said_before(lines, n, key),
    ensures
        0 <= f < n,
        says(lines, f, key),
        forall|q: int| 0 <= q < f ==> !#[trigger] says(lines, q, key),
    decreases n,
{
    let j = choose|j: int| 0 <= j < n && #[trigger] says(lines, j, key);
    if said_before(lines, j, key) {
        lemma_first(lines, key, j)
    } else {
        j
    }
}

proof fn lemma_row_of_one(lines: Seq<LineView>, i: int, n: nat)
    requires
        n <= lines.len(),
        0 <= i < lines.len(),
        alone_in_row(lines, i),
    ensures
        row_size(lines, i, n) <= 1,
        n <= i ==> row_size(lines, i, n) == 0,
    decreases n,
{
    if n > 0 {
        lemma_row_of_one(lines, i, (n - 1) as nat);
        if n - 1 != i {
            assert(!same_row(lines[n - 1], lines[i]));
        }
    }
}

proof fn lemma_count_kept(lines: Seq<LineView>, key: Seq<char>, flags: Seq<bool>, n: nat)
    requires
        n <= lines.len(),
        flags.len() == lines.len(),
        forall|i: int| #[trigger] says(lines, i, key) ==> flags[i] == said_before(lines, i, key),
    ensures
        count_saying(kept_lines(lines, flags, n), key) == if said_before(lines, n as int, key) {
            1nat
        } else {
            0nat
        },
    decreases n,
{
    if n > 0 {
        lemma_count_kept(lines, key, flags, (n - 1) as nat);
        let before = kept_lines(lines, flags, (n - 1) as nat);
        let line = lines[n - 1];
        assert(before.push(line).drop_last() =~= before);
        if comparable(line.text()) == key {
            assert(says(lines, n - 1, key));
            assert(said_before(lines, n as int, key));
        } else {
            assert(!says(lines, n - 1, key));
            if said_before(lines, n as int, key) {
                let j = choose|j: int| 0 <= j < n && #[trigger] says(lines, j, key);
                assert(0 <= j < n - 1);
            }
            if said_before(lines, n - 1, key) {
                let j = choose|j: int| 0 <= j < n - 1 && #[trigger] says(lines, j, key);
                assert(0 <= j < n);
            }
        }
    }
}

/// A plain text that runs through a document, at the bottom or at the top of
/// every page, is left once: where it comes first.
pub proof fn law_running_text_is_left_once(
    lines: Seq<LineView>,
    key: Seq<char>,
    y: Single,
    m: int,
    k: nat,
    page_count: u32,
)
    requires
        lines.len() <= usize::MAX,
        level_lines(lines),
        runs_through(lines, key, y, page_count),
        page_count >= 3,
        fraction(y, m, k),
        fits(m),
        fits(m * lines.len()),
        fits(lines.len() as int),
        k <= 149,
    ensures
        count_saying(without_repeated(lines, page_count), key) == 1,
        forall|i: int| #[trigger]
            says(lines, i, key) ==> (removed(lines, i, page_count) <==> said_before(lines, i, key)),
{
    assert forall|i: int| #[trigger] says(lines, i, key) implies (removed(lines, i, page_count) <==> said_before(lines, i, key)) by {
        lemma_running_text_is_removed_later(lines, key, y, m, k, page_count, i);
    }
    assert(on_page(lines, key, 1));
    let i = choose|i: int| #[trigger] says(lines, i, key) && lines[i].page == 1;
    assert(says(lines, i, key));
    assert(said_before(lines, lines.len() as int, key));
    lemma_count_kept(lines, key, removed_flags(lines, page_count), lines.len());
}

/// A line in the middle of its page stays, where no line of its row is at the
/// edge.
pub proof fn law_lines_inside_the_page_stay(lines: Seq<LineView>, i: int, page_count: u32)
    requires
        0 <= i < lines.len(),
        forall|j: int| 0 <= j < lines.len() && same_row(#[trigger] lines[j], lines[i]) ==> !at_edge(lines, j),
    ensures
        !removed(lines, i, page_count),
{
    assert(same_row(lines[i], lines[i]));
    assert forall|h: int| #[trigger] in_row_of(lines, i, h) implies !at_edge(lines, h) by {
        assert(same_row(lines[h], lines[i]));
    }
}

/// A line in a row of its own whose text is on too few pages stays.
pub proof fn law_rare_lines_stay(lines: Seq<LineView>, i: int, page_count: u32)
    requires
        0 <= i < lines.len(),
        alone_in_row(lines, i),
        forall|j: int|
            says(lines, j, comparable(lines[i].text())) ==> (#[trigger] lines[j]).page == lines[i].page,
    ensures
        !removed(lines, i, page_count),
{
    let key = comparable(lines[i].text());
    let rows = line_rows(lines);
    lemma_few_pages(rows, key, lines[i].page, rows.len(), lines);
    assert(!repeats_alone(lines, i, page_count));
    assert forall|h: int| #[trigger] in_row_of(lines, i, h) implies h == i by {
        assert(same_row(lines[h], lines[i]));
    }
    lemma_row_of_one(lines, i, lines.len());
    assert forall|j: int| 0 <= j < lines.len() && same_row(lines[i], #[trigger] lines[j]) implies j == i by {
        assert(same_row(lines[j], lines[i]));
    }
}

proof fn lemma_few_pages(rows: Seq<RowView>, key: Seq<char>, page: u32, n: nat, lines: Seq<LineView>)
    requires
        rows == line_rows(lines),
        n <= rows.len(),
        forall|j: int| says(lines, j, key) ==> (#[trigger] lines[j]).page == page,
    ensures
        key_pages(rows, key, n).len() <= 1,
        forall|k: int| 0 <= k < key_pages(rows, key, n).len() ==> #[trigger] key_pages(rows, key, n)[k] == page,
    decreases n,
{
    if n > 0 {
        lemma_few_pages(rows, key, page, (n - 1) as nat, lines);
        let before = key_pages(rows, key, (n - 1) as nat);
        if rows[n - 1].key == key {
            assert(says(lines, n - 1, key));
            assert(lines[n - 1].page == page);
            if before.len() == 1 {
                assert(before[0] == page);
                assert(before.contains(page));
            }
        }
    }
}

} // verus!
