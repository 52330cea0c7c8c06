//! What merging headings and drop caps owes to the lines of a page.

use crate::fractions::{
    fits, fraction, law_bits_hold_a_fraction, law_fractions_are_ordered, law_fractions_extend,
    law_fractions_multiply_exactly, law_fractions_subtract_exactly, law_products_are_ordered, law_zero_is_a_fraction,
};
use crate::markdown::cleaning::{lemma_front_trimmed_visible, visible};
use crate::markdown::preprocess::{
    continued, drop_cap, follows, merged_caps, paragraph_start, role_of, starts_small, tagged_level, RoleEntry,
    BOLD_GAP_BITS, DROP_CAP_SIZE_BITS, HEADING_GAP_BITS,
};
use crate::single::Single;
use crate::text::trimmed;
use crate::types::{ItemView, LineView};
use crate::unicode::uppercase;
use vstd::arithmetic::power2::lemma2_to64;
use vstd::prelude::*;

verus! {

/// A drop cap is a single capital at two and a half times the size of the text,
/// or larger.
pub proof fn law_drop_caps_are_large_capitals(line: LineView, base_size: Single, size: int, base: int, k: nat)
    requires
        line.items.len() > 0,
        fraction(line.items[0].font_size, size, k),
        fraction(base_size, base, k),
        fits(base * 5),
        k + 1 <= 149,
    ensures
        drop_cap(line, base_size) <==> trimmed(line.text()).len() == 1 && uppercase(trimmed(line.text())[0]) && 2 * size
            >= 5 * base,
{
    lemma2_to64();
    let factor = Single { bits: DROP_CAP_SIZE_BITS };
    law_bits_hold_a_fraction(factor, 128, 5, 21, 1);
    law_fractions_multiply_exactly(base_size, factor, base, 5, k, 1);
    law_fractions_extend(line.items[0].font_size, size, k, 1);
    assert(vstd::arithmetic::power2::pow2(1) == 2);
    law_fractions_are_ordered(base_size.spec_times(factor), line.items[0].font_size, base * 5, size * 2, k + 1);
}

/// Lines of which none is a drop cap stay as they are.
pub proof fn law_lines_without_caps_stay(lines: Seq<LineView>, base_size: Single, n: nat)
    requires
        n <= lines.len(),
        forall|i: int| 0 <= i < n ==> !drop_cap(#[trigger] lines[i], base_size),
    ensures
        merged_caps(lines, base_size, n) == lines.take(n as int),
    decreases n,
{
    if n > 0 {
        law_lines_without_caps_stay(lines, base_size, (n - 1) as nat);
        assert(lines.take((n - 1) as int).push(lines[n - 1]) =~= lines.take(n as int));
    } else {
        assert(lines.take(0) =~= Seq::<LineView>::empty());
    }
}

/// A line that could be the start of the paragraph of a drop cap.
pub open spec fn headless(lines: Seq<LineView>, page: u32, k: int) -> bool {
    &&& 0 <= k < lines.len()
    &&& lines[k].page == page
    &&& starts_small(lines[k])
    &&& k == 0 || (trimmed(lines[k - 1].text()).len() > 0 && !starts_small(lines[k - 1]))
}

proof fn lemma_paragraph_start(lines: Seq<LineView>, page: u32, from: int)
    requires
        0 <= from,
    ensures
        match paragraph_start(lines, page, from) {
            Some(k) => from <= k && headless(lines, page, k as int) && forall|j: int|
                from <= j < k ==> !headless(lines, page, j),
            None => forall|j: int| from <= j ==> !headless(lines, page, j),
        },
    decreases lines.len() - from,
{
    if from < lines.len() && !headless(lines, page, from) {
        lemma_paragraph_start(lines, page, from + 1);
    }
}

/// A drop cap leaves the lines and goes, as their first letter, in front of the
/// first paragraph on its page that starts in small letters. Nothing else
/// changes.
pub proof fn law_drop_caps_lead_their_paragraph(
    lines: Seq<LineView>,
    base_size: Single,
    n: nat,
    before: Seq<LineView>,
    at: int,
)
    requires
        0 < n <= lines.len(),
        drop_cap(lines[n - 1], base_size),
        before == merged_caps(lines, base_size, (n - 1) as nat),
        headless(before, lines[n - 1].page, at),
        forall|j: int| 0 <= j < at ==> !headless(before, #[trigger] before[j].page, j) || before[j].page != lines[n - 1].page,
        before[at].items.len() > 0,
    ensures
        ({
            let after = merged_caps(lines, base_size, n);
            let cap = trimmed(lines[n - 1].text())[0];
            &&& after.len() == before.len()
            &&& forall|j: int| 0 <= j < after.len() && j != at ==> after[j] == before[j]
            &&& after[at].items.len() == before[at].items.len()
            &&& after[at].items[0].text.len() == trimmed(before[at].items[0].text).len() + 1
            &&& after[at].items[0].text[0] == cap
            &&& after[at].items[0].text.skip(1) == trimmed(before[at].items[0].text)
            &&& after[at].items[0].x == before[at].items[0].x
            &&& after[at].items[0].y == before[at].items[0].y
            &&& after[at].items[0].font_size == before[at].items[0].font_size
            &&& forall|i: int| 1 <= i < after[at].items.len() ==> after[at].items[i] == before[at].items[i]
            &&& after[at].y == before[at].y
            &&& after[at].page == before[at].page
        }),
{
    let page = lines[n - 1].page;
    lemma_paragraph_start(before, page, 0);
    let start = paragraph_start(before, page, 0);
    assert(start is Some);
    let k = start->Some_0 as int;
    if k < at {
        assert(headless(before, before[k].page, k));
    }
    if at < k {
        assert(headless(before, page, at));
    }
    let after = merged_caps(lines, base_size, n);
    let first = before[at].items[0];
    assert(after[at].items[0].text.skip(1) =~= trimmed(first.text));
}

proof fn lemma_heading_gaps()
    ensures
        fraction(Single { bits: HEADING_GAP_BITS }, 2, 0),
        fraction(Single { bits: BOLD_GAP_BITS }, 0xcc_cccd, 23),
{
    lemma2_to64();
    law_bits_hold_a_fraction(Single { bits: HEADING_GAP_BITS }, 128, 2, 22, 0);
    law_bits_hold_a_fraction(Single { bits: BOLD_GAP_BITS }, 127, 0xcc_cccd, 0, 23);
}

/// The next line of a heading stands below the last one, by less than twice its
/// size.
pub proof fn law_headings_go_on_right_below(
    prev: LineView,
    line: LineView,
    size: Single,
    above: int,
    below: int,
    s: int,
    k: nat,
)
    requires
        fraction(prev.y, above, k),
        fraction(line.y, below, k),
        fraction(size, s, k),
        k <= 149,
        fits(above - below),
        fits(s * 2),
    ensures
        follows(prev, line, size, Single { bits: HEADING_GAP_BITS }) <==> 0 < above - below < 2 * s,
{
    lemma_heading_gaps();
    let gap = prev.y.spec_minus(line.y);
    let factor = Single { bits: HEADING_GAP_BITS };
    law_fractions_subtract_exactly(prev.y, line.y, above, below, k);
    law_zero_is_a_fraction(Single { bits: 0 }, k);
    law_fractions_are_ordered(Single { bits: 0 }, gap, 0, above - below, k);
    law_fractions_multiply_exactly(size, factor, s, 2, k, 0);
    law_fractions_are_ordered(gap, size.spec_times(factor), above - below, s * 2, k);
}

/// The next line of a bold text stands below the last one, by up to one and a
/// half times its size, and never by twice its size.
pub proof fn law_bold_text_goes_on_close_below(
    prev: LineView,
    line: LineView,
    size: Single,
    above: int,
    below: int,
    s: int,
    k: nat,
)
    requires
        fraction(prev.y, above, k),
        fraction(line.y, below, k),
        fraction(size, s, k),
        k + 1 <= 149,
        s > 0,
        fits(above - below),
        fits(s * 3),
    ensures
        0 < above - below && 2 * (above - below) < 3 * s ==> follows(prev, line, size, Single { bits: BOLD_GAP_BITS }),
        above - below <= 0 || above - below >= 2 * s ==> !follows(prev, line, size, Single { bits: BOLD_GAP_BITS }),
{
    lemma_heading_gaps();
    lemma2_to64();
    let gap = prev.y.spec_minus(line.y);
    let factor = Single { bits: BOLD_GAP_BITS };
    let low = Single { bits: 0x3fc0_0000 };
    let high = Single { bits: HEADING_GAP_BITS };
    law_bits_hold_a_fraction(low, 127, 3, 22, 1);
    law_fractions_extend(low, 3, 1, 22);
    law_fractions_extend(high, 2, 0, 23);
    law_fractions_are_ordered(low, factor, 0xc0_0000, 0xcc_cccd, 23);
    law_fractions_are_ordered(factor, high, 0xcc_cccd, 0x100_0000, 23);
    law_fractions_subtract_exactly(prev.y, line.y, above, below, k);
    law_zero_is_a_fraction(Single { bits: 0 }, k);
    law_fractions_are_ordered(Single { bits: 0 }, gap, 0, above - below, k);
    law_fractions_are_ordered(Single { bits: 0 }, size, 0, s, k);
    law_products_are_ordered(low, factor, size);
    law_products_are_ordered(factor, high, size);
    crate::single::law_sum_and_product_commute(low, size);
    crate::single::law_sum_and_product_commute(factor, size);
    crate::single::law_sum_and_product_commute(high, size);
    law_fractions_multiply_exactly(size, low, s, 3, k, 1);
    law_fractions_multiply_exactly(size, high, s, 2, k, 0);
    law_fractions_extend(gap, above - below, k, 1);
    law_fractions_are_ordered(gap, size.spec_times(low), (above - below) * 2, s * 3, k + 1);
    law_fractions_are_ordered(size.spec_times(high), gap, s * 2, above - below, k);
}

/// The items agree in all but white space.
pub open spec fn reads_as(a: ItemView, b: ItemView) -> bool {
    visible(a.text) == visible(b.text) && a == (ItemView { text: a.text, ..b })
}

/// A heading that goes on keeps every item of both lines, in their order; only
/// white space changes, and the place is that of its first line.
pub proof fn law_continued_lines_keep_their_items(prev: LineView, next: LineView)
    ensures
        ({
            let line = continued(prev, next);
            &&& line.items.len() == prev.items.len() + next.items.len()
            &&& line.y == prev.y && line.page == prev.page
            &&& forall|i: int| 0 <= i < prev.items.len() ==> line.items[i] == prev.items[i]
            &&& forall|i: int|
                prev.items.len() <= i < line.items.len() ==> reads_as(
                    #[trigger] line.items[i],
                    next.items[i - prev.items.len()],
                )
            &&& next.items.len() > 0 ==> crate::text::starts_with(line.items[prev.items.len() as int].text, ' ')
        }),
{
    let line = continued(prev, next);
    if next.items.len() > 0 {
        lemma_spaced_keeps_the_visible(next.items[0].text);
    }
    if next.items.len() > 0 {
        reveal_strlit(" ");
    }
}

proof fn lemma_spaced_keeps_the_visible(s: Seq<char>)
    ensures
        visible(" "@ + crate::text::trim_front(s)) == visible(s),
{
    reveal_strlit(" ");
    lemma_front_trimmed_visible(s);
    let rest = crate::text::trim_front(s);
    assert(" "@ =~= seq![' ']);
    crate::markdown::cleaning::lemma_visible_sum(" "@, rest);
    assert(visible(" "@) =~= Seq::<char>::empty()) by {
        reveal_with_fuel(visible, 2);
        assert(crate::unicode::white_space(' '));
        assert(" "@.drop_last() =~= Seq::<char>::empty());
    }
    assert(Seq::<char>::empty() + visible(rest) =~= visible(rest));
}

/// The level of a heading is the number in the name of its role.
pub proof fn law_roles_name_their_level(line: LineView, roles: Seq<RoleEntry>, mcid: i64, at: int)
    requires
        line.items.len() > 0,
        line.items[0].mcid == Some(mcid),
        0 <= at < roles.len(),
        roles[at].page == line.page,
        roles[at].mcid == mcid,
        forall|j: int| 0 <= j < at ==> !((#[trigger] roles[j]).page == line.page && roles[j].mcid == mcid),
    ensures
        ({
            let level = tagged_level(line.items, roles, line.page, 0);
            &&& roles[at].role is H || roles[at].role is H1 ==> level == Some(1usize)
            &&& roles[at].role is H2 ==> level == Some(2usize)
            &&& roles[at].role is H3 ==> level == Some(3usize)
            &&& roles[at].role is H4 ==> level == Some(4usize)
            &&& roles[at].role is H5 ==> level == Some(5usize)
            &&& roles[at].role is H6 ==> level == Some(6usize)
        }),
{
    lemma_first_role(roles, line.page, mcid, 0, at);
}

proof fn lemma_first_role(roles: Seq<RoleEntry>, page: u32, mcid: i64, from: int, at: int)
    requires
        0 <= from <= at < roles.len(),
        roles[at].page == page,
        roles[at].mcid == mcid,
        forall|j: int| from <= j < at ==> !((#[trigger] roles[j]).page == page && roles[j].mcid == mcid),
    ensures
        role_of(roles, page, mcid, from) == Some(roles[at].role),
    decreases at - from,
{
    if from < at {
        assert(!(roles[from].page == page && roles[from].mcid == mcid));
        lemma_first_role(roles, page, mcid, from + 1, at);
    }
}

} // verus!
