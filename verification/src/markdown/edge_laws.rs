//! What the blocks at the edges of a page owe to its lines.

use crate::fractions::{
    fits, fraction, law_bits_hold_a_fraction, law_fractions_are_ordered, law_fractions_extend,
    law_fractions_multiply_exactly, law_fractions_subtract_exactly, law_products_are_ordered, law_zero_is_a_fraction,
};
use crate::markdown::edges::{
    any_from, block_text, body_size, chars_of, clusters, descending_keys, edge_block, has_letter, is_edge_furniture,
    is_furniture, isolation, line_size, median_leading, median_size, near, page_lines, page_order, steps_of,
    CONTENT_SIZE_BITS, ISOLATION_BITS,
};
use crate::markdown::furniture::sorted_values;
use crate::markdown::margins::law_sorted_values_are_in_order;
use crate::single::{total_key, Single};
use crate::sorting::law_sorted_is_an_ordered_permutation;
use crate::text::trimmed;
use crate::types::{ItemView, LineView};
use vstd::arithmetic::power2::lemma2_to64;
use vstd::prelude::*;

verus! {

proof fn lemma_page_lines(lines: Seq<LineView>, page: u32, n: nat)
    requires
        n <= lines.len() <= usize::MAX,
    ensures
        forall|k: int|
            0 <= k < page_lines(lines, page, n).len() ==> (#[trigger] page_lines(lines, page, n)[k]) < n
                && lines[page_lines(lines, page, n)[k] as int].page == page,
        forall|i: int|
            0 <= i < n && (#[trigger] lines[i]).page == page ==> page_lines(lines, page, n).contains(i as usize),
    decreases n,
{
    if n > 0 {
        lemma_page_lines(lines, page, (n - 1) as nat);
        let before = page_lines(lines, page, (n - 1) as nat);
        let list = page_lines(lines, page, n);
        assert forall|i: int| 0 <= i < n && (#[trigger] lines[i]).page == page implies list.contains(i as usize) by {
            if i == n - 1 {
                assert(list[list.len() - 1] == i as usize);
            } else {
                let k = before.index_of(i as usize);
                assert(before.contains(i as usize));
                assert(list[k] == i as usize);
            }
        }
    }
}

/// The lines of a page are taken from its top to its bottom: each of them, no
/// other, and none above one that came before it.
pub proof fn law_pages_are_read_from_the_top(lines: Seq<LineView>, page: u32)
    requires
        lines.len() <= usize::MAX,
    ensures
        forall|r: int|
            0 <= r < page_order(lines, page).len() ==> (#[trigger] page_order(lines, page)[r]) < lines.len()
                && lines[page_order(lines, page)[r] as int].page == page,
        forall|i: int|
            0 <= i < lines.len() && (#[trigger] lines[i]).page == page ==> page_order(lines, page).contains(i as usize),
        forall|r: int, s: int|
            0 <= r < s < page_order(lines, page).len() ==> total_key(
                lines[(#[trigger] page_order(lines, page)[s]) as int].y.bits,
            ) <= total_key(lines[(#[trigger] page_order(lines, page)[r]) as int].y.bits),
{
    broadcast use vstd::seq_lib::group_to_multiset_ensures;

    let list = page_lines(lines, page, lines.len());
    let keys = descending_keys(lines);
    let order = page_order(lines, page);
    lemma_page_lines(lines, page, lines.len());
    law_sorted_is_an_ordered_permutation(list, keys);
    assert forall|r: int| 0 <= r < order.len() implies (#[trigger] order[r]) < lines.len() && lines[order[r] as int].page
        == page by {
        assert(order.to_multiset().count(order[r]) > 0);
        assert(list.contains(order[r]));
        let k = list.index_of(order[r]);
        assert(list[k] == order[r]);
    }
    assert forall|i: int| 0 <= i < lines.len() && (#[trigger] lines[i]).page == page implies order.contains(
        i as usize,
    ) by {
        assert(list.contains(i as usize));
        assert(list.to_multiset().count(i as usize) > 0);
    }
    assert forall|r: int, s: int| 0 <= r < s < order.len() implies total_key(
        lines[(#[trigger] order[s]) as int].y.bits,
    ) <= total_key(lines[(#[trigger] order[r]) as int].y.bits) by {
        let a = order[r] as int;
        let b = order[s] as int;
        assert(a < lines.len() && b < lines.len());
        assert(keys[a].0 == -total_key(lines[a].y.bits));
        assert(keys[b].0 == -total_key(lines[b].y.bits));
    }
}

/// What goes from the edge of a page is one of its two highest or of its two
/// lowest lines.
pub proof fn law_only_the_outermost_lines_go(lines: Seq<LineView>, i: int) -> (r: int)
    requires
        0 <= i < lines.len() <= usize::MAX,
        is_edge_furniture(lines, i),
    ensures
        0 <= r < page_order(lines, lines[i].page).len(),
        page_order(lines, lines[i].page)[r] == i,
        r < 2 || r + 2 >= page_order(lines, lines[i].page).len(),
{
    let order = page_order(lines, lines[i].page);
    let up = order.reverse();
    let gap = isolation(lines, order);
    let body = body_size(lines, order);
    let n = edge_block(lines, order, gap, body) as int;
    let m = edge_block(lines, up, gap, body) as int;
    if order.take(n).contains(i as usize) {
        let r = order.take(n).index_of(i as usize);
        assert(order[r] == order.take(n)[r]);
        r
    } else {
        let j = up.take(m).index_of(i as usize);
        assert(up.take(m)[j] == i as usize);
        assert(up[j] == order[order.len() - 1 - j]);
        order.len() - 1 - j
    }
}

/// Two lines are near each other where the distance of their heights, either
/// way, is less than the gap.
pub proof fn law_near_lines_are_less_than_a_gap_apart(
    lines: Seq<LineView>,
    ordered: Seq<usize>,
    k: int,
    gap: Single,
    a: int,
    b: int,
    g: int,
    e: nat,
)
    requires
        fraction(lines[ordered[k - 1] as int].y, a, e),
        fraction(lines[ordered[k] as int].y, b, e),
        fraction(gap, g, e),
        fits(a - b),
        e <= 149,
    ensures
        near(lines, ordered, k, gap) <==> -g < a - b < g,
{
    let x = lines[ordered[k - 1] as int].y;
    let y = lines[ordered[k] as int].y;
    let d = x.spec_minus(y);
    law_fractions_subtract_exactly(x, y, a, b, e);
    crate::fractions::law_fractions_negate_exactly(d, a - b, e);
    law_fractions_are_ordered(d, gap, a - b, g, e);
    law_fractions_are_ordered(d.spec_negated(), gap, b - a, g, e);
    law_zero_is_a_fraction(Single { bits: 0 }, e);
    law_fractions_are_ordered(Single { bits: 0 }, d, 0, a - b, e);
    law_fractions_are_ordered(d, Single { bits: 0 }, a - b, 0, e);
    crate::fractions::law_zero_fractions(d, a - b, e);
    assert(d.spec_absolute() == if d.bits < crate::single::SIGN_BIT {
        d
    } else {
        d.spec_negated()
    });
}

/// A block at the edge has one or two lines that stand together, and a gap to
/// the next line of the page.
pub proof fn law_edge_blocks_stand_alone(lines: Seq<LineView>, ordered: Seq<usize>, gap: Single, body: Single)
    requires
        edge_block(lines, ordered, gap, body) > 0,
    ensures
        ({
            let n = edge_block(lines, ordered, gap, body);
            &&& n <= 2
            &&& n < ordered.len()
            &&& !near(lines, ordered, n as int, gap)
            &&& n == 2 ==> near(lines, ordered, 1, gap)
        }),
{
}

/// The gap that sets a block apart is between seven quarters of the usual
/// distance of two lines and twice that distance.
pub proof fn law_gaps_go_by_the_leading(lines: Seq<LineView>, order: Seq<usize>, s: int, k: nat, d: Single, n: int)
    requires
        fraction(median_leading(lines, order), s, k),
        s > 0,
        fits(7 * s),
        fits(2 * s),
        k + 2 <= 149,
        fraction(d, n, k),
    ensures
        4 * n < 7 * s ==> d.spec_less(isolation(lines, order)),
        n >= 2 * s ==> isolation(lines, order).spec_at_most(d),
{
    lemma2_to64();
    let leading = median_leading(lines, order);
    let factor = Single { bits: ISOLATION_BITS };
    let low = Single { bits: 0x3fe0_0000 };
    let high = Single { bits: 0x4000_0000 };
    law_bits_hold_a_fraction(factor, 127, 0xe6_6666, 0, 23);
    law_bits_hold_a_fraction(low, 127, 7, 21, 2);
    law_bits_hold_a_fraction(high, 128, 2, 22, 0);
    law_zero_is_a_fraction(Single { bits: 0 }, k);
    law_fractions_are_ordered(Single { bits: 0 }, leading, 0, s, k);
    law_products_are_ordered(low, factor, leading);
    law_products_are_ordered(factor, high, leading);
    crate::single::law_sum_and_product_commute(low, leading);
    crate::single::law_sum_and_product_commute(factor, leading);
    crate::single::law_sum_and_product_commute(high, leading);
    law_fractions_multiply_exactly(leading, low, s, 7, k, 2);
    law_fractions_multiply_exactly(leading, high, s, 2, k, 0);
    law_fractions_extend(d, n, k, 2);
    law_fractions_are_ordered(d, leading.spec_times(low), n * 4, s * 7, k + 2);
    law_fractions_are_ordered(leading.spec_times(high), d, s * 2, n, k);
}

/// Where all lines of a page are equally far apart, that distance is the usual
/// one.
pub proof fn law_even_lines_give_their_distance(lines: Seq<LineView>, order: Seq<usize>, step: Single)
    requires
        0 < steps_of(lines, order, order.len()).len() <= usize::MAX,
        forall|i: int|
            0 <= i < steps_of(lines, order, order.len()).len() ==> #[trigger] steps_of(lines, order, order.len())[i]
                == step,
    ensures
        median_leading(lines, order) == step,
{
    let steps = steps_of(lines, order, order.len());
    law_sorted_values_are_in_order(steps);
    let middle = (steps.len() / 2) as int;
    let found = sorted_values(steps)[middle];
    assert(steps.contains(found));
    let k = steps.index_of(found);
    assert(steps[k] == found);
}

/// The size of the text of a page is the one that half of its characters reach,
/// counted from the smallest size on, and that the smaller ones do not.
pub proof fn law_body_size_is_reached_by_half(sizes: Seq<(Single, nat)>, order: Seq<usize>, from: int) -> (k: int)
    requires
        0 <= from < order.len(),
        from > 0 ==> 2 * chars_of(sizes, order, from as nat) < chars_of(sizes, order, order.len()),
    ensures
        from <= k < order.len(),
        median_size(sizes, order, from) == sizes[order[k] as int].0,
        2 * chars_of(sizes, order, (k + 1) as nat) >= chars_of(sizes, order, order.len()),
        k > 0 ==> 2 * chars_of(sizes, order, k as nat) < chars_of(sizes, order, order.len()),
    decreases order.len() - from,
{
    if 2 * chars_of(sizes, order, (from + 1) as nat) >= chars_of(sizes, order, order.len()) {
        from
    } else {
        assert(from + 1 < order.len());
        law_body_size_is_reached_by_half(sizes, order, from + 1)
    }
}

/// The size of a line is that of its largest item.
pub proof fn law_lines_are_as_large_as_their_largest_item(items: Seq<ItemView>, n: nat)
    requires
        n <= items.len(),
        forall|i: int|
            0 <= i < n ==> (#[trigger] items[i]).font_size.spec_finite() && (Single { bits: 0 }).spec_less(
                items[i].font_size,
            ),
    ensures
        forall|i: int| 0 <= i < n ==> (#[trigger] items[i]).font_size.spec_at_most(line_size(items, n)),
        n > 0 ==> exists|i: int| 0 <= i < n && (#[trigger] items[i]).font_size == line_size(items, n),
    decreases n,
{
    if n > 0 {
        law_lines_are_as_large_as_their_largest_item(items, (n - 1) as nat);
        let before = line_size(items, (n - 1) as nat);
        if before.spec_less(items[n - 1].font_size) {
            assert(items[n - 1].font_size == line_size(items, n));
        } else {
            assert(line_size(items, n) == before);
            if n > 1 {
                let i = choose|i: int| 0 <= i < n - 1 && (#[trigger] items[i]).font_size == before;
                assert(items[i].font_size == line_size(items, n));
            } else {
                assert(before == (Single { bits: 0 }));
                assert(!(Single { bits: 0 }).spec_less(items[0].font_size));
            }
        }
    }
}

/// Words in the size of the text, or in a larger one, never go as furniture.
pub proof fn law_text_in_body_size_stays(
    lines: Seq<LineView>,
    ordered: Seq<usize>,
    n: nat,
    body: Single,
    b: int,
    k: nat,
    at: int,
)
    requires
        fraction(body, b, k),
        b > 0,
        fits(b),
        k <= 149,
        has_letter(trimmed(block_text(lines, ordered, n))),
        0 <= at < n,
        body.spec_at_most(line_size(lines[ordered[at] as int].items, lines[ordered[at] as int].items.len())),
    ensures
        !is_furniture(lines, ordered, n, body),
{
    lemma2_to64();
    let factor = Single { bits: CONTENT_SIZE_BITS };
    let one = Single { bits: crate::single::ONE_BITS };
    law_bits_hold_a_fraction(factor, 126, 0xfa_e148, 0, 24);
    law_bits_hold_a_fraction(one, 127, 1, 23, 0);
    law_zero_is_a_fraction(Single { bits: 0 }, k);
    law_fractions_are_ordered(Single { bits: 0 }, body, 0, b, k);
    law_products_are_ordered(factor, one, body);
    crate::single::law_sum_and_product_commute(factor, body);
    crate::single::law_sum_and_product_commute(one, body);
    law_fractions_multiply_exactly(body, one, b, 1, k, 0);
    law_fractions_are_ordered(body.spec_times(one), body, b, b, k);
    assert(any_from(lines, ordered, n, body.spec_times(factor))) by {
        assert(body.spec_times(factor).spec_at_most(
            line_size(lines[ordered[at] as int].items, lines[ordered[at] as int].items.len()),
        ));
    }
}

/// Two runs of a line are two columns where the space between them is wider
/// than the gap.
pub proof fn law_wide_spaces_part_columns(
    items: Seq<ItemView>,
    order: Seq<usize>,
    gap: Single,
    x: int,
    w: int,
    next: int,
    g: int,
    k: nat,
)
    requires
        order.len() == 2,
        order[0] < items.len(),
        order[1] < items.len(),
        fraction(items[order[0] as int].x, x, k),
        fraction(items[order[0] as int].width, w, k),
        fraction(items[order[1] as int].x, next, k),
        fraction(gap, g, k),
        fits(x + w),
        fits(next - (x + w)),
        k <= 149,
    ensures
        clusters(items, order, gap, 2).0 == if next - (x + w) > g {
            2nat
        } else {
            1nat
        },
{
    reveal_with_fuel(clusters, 3);
    let a = items[order[0] as int];
    let b = items[order[1] as int];
    let end = a.x.spec_plus(a.width);
    crate::fractions::law_fractions_add_exactly(a.x, a.width, x, w, k);
    law_fractions_subtract_exactly(b.x, end, next, x + w, k);
    law_fractions_are_ordered(gap, b.x.spec_minus(end), g, next - (x + w), k);
}

} // verus!
