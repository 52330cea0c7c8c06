//! Page furniture of short documents, judged page by page.
//!
//! Only strong evidence strips a block of lines at the edge of a page: it is
//! short, stands apart from the text by a clear gap, and is set smaller than
//! the text or is a bare page indicator. Anything ambiguous stays.

use crate::markdown::furniture::{
    keep_lines, kept_lines, sort_values, sorted_values, strip_repeated_lines, without_repeated, LEAST_REPEATED_PAGES,
};
use crate::markdown::words::{is_structural_line, paren_marker, starts_with_paren_marker, structural};
use crate::single::{total_key, Single};
use crate::sorting::{has_keys, sort_indices, stably_sorted};
use crate::text::{characters, push_chars, push_text, text_of, trim_chars, trimmed};
use crate::types::{line_views, ItemView, LineView, TextLine};
use crate::unicode::{alphabetic, is_white_space, lowercase, numeric, white_space};
use vstd::prelude::*;

verus! {

/// A page with no more lines than this has too little text to judge by.
pub const MIN_PAGE_LINES: usize = 8;

/// The most lines of a block at the edge.
pub const MAX_EDGE_BLOCK_LINES: usize = 2;

/// `1.8`: the gap around a block at the edge, as a multiple of the leading.
pub const ISOLATION_BITS: u32 = 0x3fe6_6666;

/// The longest text of a block at the edge.
pub const MAX_FURNITURE_CHARS: usize = 90;

/// The longest bare page indicator.
pub const MAX_INDICATOR_CHARS: usize = 20;

/// The runs of text from which on a line is a row of labels or cells.
pub const ROW_CLUSTERS: usize = 3;

/// `12.0`: the leading and the text size where a page shows none.
pub const DEFAULT_SIZE_BITS: u32 = 0x4140_0000;

/// `1.0`: the least step between lines, in points.
pub const LEAST_STEP_BITS: u32 = 0x3f80_0000;

/// `6.0`: the least font size for the gap between runs.
pub const LEAST_CLUSTER_SIZE_BITS: u32 = 0x40c0_0000;

/// `2.0`: the gap between runs, as a multiple of the font size.
pub const CLUSTER_GAP_BITS: u32 = 0x4000_0000;

/// `0.98`: a text set no smaller than this multiple of the text is content.
pub const CONTENT_SIZE_BITS: u32 = 0x3f7a_e148;

/// The lines of a page among the first `n`.
pub open spec fn page_lines(lines: Seq<LineView>, page: u32, n: nat) -> Seq<usize>
    decreases n,
{
    if n == 0 {
        Seq::empty()
    } else {
        let before = page_lines(lines, page, (n - 1) as nat);
        if lines[n - 1].page == page {
            before.push((n - 1) as usize)
        } else {
            before
        }
    }
}

/// Sort keys by which higher lines come first.
pub open spec fn descending_keys(lines: Seq<LineView>) -> Seq<(i64, i64)> {
    Seq::new(lines.len(), |i: int| ((-total_key(lines[i].y.bits)) as i64, 0i64))
}

/// The lines of a page from the top down.
pub open spec fn page_order(lines: Seq<LineView>, page: u32) -> Seq<usize> {
    stably_sorted(page_lines(lines, page, lines.len()), descending_keys(lines))
}

/// The font sizes of the items on lines, with the lengths of their texts.
pub open spec fn item_sizes(items: Seq<ItemView>, n: nat) -> Seq<(Single, nat)>
    decreases n,
{
    if n == 0 {
        Seq::empty()
    } else {
        item_sizes(items, (n - 1) as nat).push((items[n - 1].font_size, items[n - 1].text.len()))
    }
}

pub open spec fn sizes_of(lines: Seq<LineView>, order: Seq<usize>, n: nat) -> Seq<(Single, nat)>
    decreases n,
{
    if n == 0 {
        Seq::empty()
    } else {
        let items = lines[order[n - 1] as int].items;
        sizes_of(lines, order, (n - 1) as nat) + item_sizes(items, items.len())
    }
}

/// The number of characters in the first `n` texts of a list of sizes.
pub open spec fn chars_of(sizes: Seq<(Single, nat)>, order: Seq<usize>, n: nat) -> nat
    decreases n,
{
    if n == 0 {
        0
    } else {
        chars_of(sizes, order, (n - 1) as nat) + sizes[order[n - 1] as int].1
    }
}

pub open spec fn size_keys(sizes: Seq<(Single, nat)>) -> Seq<(i64, i64)> {
    Seq::new(sizes.len(), |i: int| (total_key(sizes[i].0.bits) as i64, 0i64))
}

/// The first size from `k` on up to which at least half of the characters
/// come.
pub open spec fn median_size(sizes: Seq<(Single, nat)>, order: Seq<usize>, k: int) -> Single
    decreases order.len() - k,
{
    if k < 0 || k >= order.len() {
        Single { bits: DEFAULT_SIZE_BITS }
    } else if 2 * chars_of(sizes, order, (k + 1) as nat) >= chars_of(sizes, order, order.len()) {
        sizes[order[k] as int].0
    } else {
        median_size(sizes, order, k + 1)
    }
}

/// The size of the text on a page: the median over its characters.
pub open spec fn body_size(lines: Seq<LineView>, order: Seq<usize>) -> Single {
    let sizes = sizes_of(lines, order, order.len());
    median_size(
        sizes,
        stably_sorted(crate::markdown::furniture::indices(sizes.len()), size_keys(sizes)),
        0,
    )
}

/// The steps of more than a point between the first `n` lines, from the top
/// down.
pub open spec fn steps_of(lines: Seq<LineView>, order: Seq<usize>, n: nat) -> Seq<Single>
    decreases n,
{
    if n < 2 {
        Seq::empty()
    } else {
        let before = steps_of(lines, order, (n - 1) as nat);
        let step = lines[order[n - 2] as int].y.spec_minus(lines[order[n - 1] as int].y);
        if (Single { bits: LEAST_STEP_BITS }).spec_less(step) {
            before.push(step)
        } else {
            before
        }
    }
}

/// The leading of a page: the median step between its lines.
pub open spec fn median_leading(lines: Seq<LineView>, order: Seq<usize>) -> Single {
    let steps = sorted_values(steps_of(lines, order, order.len()));
    if steps.len() == 0 {
        Single { bits: DEFAULT_SIZE_BITS }
    } else {
        steps[(steps.len() / 2) as int]
    }
}

/// The gap that sets a block apart.
pub open spec fn isolation(lines: Seq<LineView>, order: Seq<usize>) -> Single {
    median_leading(lines, order).spec_times(Single { bits: ISOLATION_BITS })
}

/// The largest font size of the first `n` items, at least 0.
pub open spec fn line_size(items: Seq<ItemView>, n: nat) -> Single
    decreases n,
{
    if n == 0 {
        Single { bits: 0 }
    } else {
        line_size(items, (n - 1) as nat).spec_max(items[n - 1].font_size)
    }
}

/// The two lines next to one another are nearer than the gap.
pub open spec fn near(lines: Seq<LineView>, ordered: Seq<usize>, k: int, gap: Single) -> bool {
    lines[ordered[k - 1] as int].y.spec_minus(lines[ordered[k] as int].y).spec_absolute().spec_less(gap)
}

/// The lines of the block at the edge, or 0 where it is too large or nothing
/// lies beyond it.
pub open spec fn block_length(lines: Seq<LineView>, ordered: Seq<usize>, gap: Single) -> nat {
    if ordered.len() < 2 {
        0
    } else if !near(lines, ordered, 1, gap) {
        1
    } else if ordered.len() < 3 || near(lines, ordered, 2, gap) {
        0
    } else {
        2
    }
}

/// The texts of the first `n` lines with spaces between them.
pub open spec fn block_text(lines: Seq<LineView>, ordered: Seq<usize>, n: nat) -> Seq<char>
    decreases n,
{
    if n == 0 {
        Seq::empty()
    } else if n == 1 {
        lines[ordered[0] as int].text()
    } else {
        block_text(lines, ordered, (n - 1) as nat) + " "@ + lines[ordered[n - 1] as int].text()
    }
}

pub open spec fn left_keys(items: Seq<ItemView>) -> Seq<(i64, i64)> {
    Seq::new(items.len(), |i: int| (total_key(items[i].x.bits) as i64, 0i64))
}

/// The runs of text among the first `n` items from left to right, and where
/// they end.
pub open spec fn clusters(items: Seq<ItemView>, order: Seq<usize>, gap: Single, n: nat) -> (nat, Single)
    decreases n,
{
    if n == 0 {
        (1, Single { bits: 0 })
    } else {
        let item = items[order[n - 1] as int];
        let end = item.x.spec_plus(item.width);
        if n == 1 {
            (1, end)
        } else {
            let (count, right) = clusters(items, order, gap, (n - 1) as nat);
            (
                if gap.spec_less(item.x.spec_minus(right)) {
                    count + 1
                } else {
                    count
                },
                right.spec_max(end),
            )
        }
    }
}

/// The number of runs of text on a line that box-sized gaps separate.
pub open spec fn cluster_count(line: LineView) -> nat {
    let order = stably_sorted(crate::markdown::furniture::indices(line.items.len()), left_keys(line.items));
    let gap = line_size(line.items, line.items.len()).spec_max(Single { bits: LEAST_CLUSTER_SIZE_BITS }).spec_times(
        Single { bits: CLUSTER_GAP_BITS },
    );
    clusters(line.items, order, gap, order.len()).0
}

/// The text has a letter.
pub open spec fn has_letter(s: Seq<char>) -> bool {
    exists|i: int| 0 <= i < s.len() && alphabetic(#[trigger] s[i])
}

/// A text led by a marker is an annotation: a number, a number in parentheses,
/// a footnote symbol, or a single small letter.
pub open spec fn marker_led(s: Seq<char>) -> bool {
    ||| s.len() > 0 && numeric(s[0])
    ||| paren_marker(s)
    ||| s.len() > 0 && (s[0] == '\u{2020}' || s[0] == '\u{2021}' || s[0] == '\u{a7}' || s[0] == '\u{b6}' || s[0] == '*')
    ||| s.len() > 0 && lowercase(s[0]) && (s.len() == 1 || white_space(s[1]))
}

/// Some line of a block is set larger than a size.
pub open spec fn any_above(lines: Seq<LineView>, ordered: Seq<usize>, n: nat, size: Single) -> bool {
    exists|i: int|
        0 <= i < n && size.spec_less(
            line_size(lines[(#[trigger] ordered[i]) as int].items, lines[ordered[i] as int].items.len()),
        )
}

/// Some line of a block is set in a size or larger.
pub open spec fn any_from(lines: Seq<LineView>, ordered: Seq<usize>, n: nat, size: Single) -> bool {
    exists|i: int|
        0 <= i < n && size.spec_at_most(
            line_size(lines[(#[trigger] ordered[i]) as int].items, lines[ordered[i] as int].items.len()),
        )
}

/// Every line of a block has at most so many runs of text.
pub open spec fn runs_within(lines: Seq<LineView>, ordered: Seq<usize>, n: nat, most: nat) -> bool {
    forall|i: int| 0 <= i < n ==> cluster_count(lines[(#[trigger] ordered[i]) as int]) <= most
}

/// A block of `n` lines at the edge is furniture. `ordered` lists the page's
/// lines from that edge inward. A block without letters is one short run set
/// no larger than the text; any other is set smaller than it.
pub open spec fn is_furniture(lines: Seq<LineView>, ordered: Seq<usize>, n: nat, body: Single) -> bool {
    let text = trimmed(block_text(lines, ordered, n));
    &&& 0 < text.len() <= MAX_FURNITURE_CHARS
    &&& runs_within(lines, ordered, n, (ROW_CLUSTERS - 1) as nat)
    &&& if !has_letter(text) {
        &&& runs_within(lines, ordered, n, 1)
        &&& text.len() <= MAX_INDICATOR_CHARS
        &&& !any_above(lines, ordered, n, body)
    } else {
        &&& !any_from(lines, ordered, n, body.spec_times(Single { bits: CONTENT_SIZE_BITS }))
        &&& !structural(text)
        &&& !marker_led(text)
    }
}

/// The lines at the edge that are furniture.
pub open spec fn edge_block(lines: Seq<LineView>, ordered: Seq<usize>, gap: Single, body: Single) -> nat {
    let n = block_length(lines, ordered, gap);
    if n > 0 && is_furniture(lines, ordered, n, body) {
        n
    } else {
        0
    }
}

/// The line is furniture at the top or at the bottom of its page.
pub open spec fn is_edge_furniture(lines: Seq<LineView>, i: int) -> bool {
    let order = page_order(lines, lines[i].page);
    let up = order.reverse();
    let gap = isolation(lines, order);
    let body = body_size(lines, order);
    &&& order.len() > MIN_PAGE_LINES
    &&& order.take(edge_block(lines, order, gap, body) as int).contains(i as usize) || up.take(
        edge_block(lines, up, gap, body) as int,
    ).contains(i as usize)
}

pub open spec fn furniture_flags(lines: Seq<LineView>) -> Seq<bool> {
    Seq::new(lines.len(), |i: int| is_edge_furniture(lines, i))
}

/// The lines without the furniture at the edges of their pages.
pub open spec fn without_edge_furniture(lines: Seq<LineView>) -> Seq<LineView> {
    kept_lines(lines, furniture_flags(lines), lines.len())
}

pub open spec fn below(list: Seq<usize>, n: nat) -> bool {
    forall|i: int| 0 <= i < list.len() ==> (#[trigger] list[i]) < n
}

fn sort_key(x: Single) -> (r: i64)
    ensures
        r == total_key(x.bits),
        -0x8000_0000 <= r < 0x8000_0000,
{
    if x.bits < 0x8000_0000 {
        x.bits as i64
    } else {
        0x8000_0000i64 - x.bits as i64 - 1
    }
}

fn find_page_order(lines: &Vec<TextLine>, page: u32) -> (r: Vec<usize>)
    ensures
        r@ == page_order(line_views(lines@), page),
        below(r@, lines@.len()),
{
    let ghost model = line_views(lines@);
    let mut list: Vec<usize> = Vec::new();
    let mut keys: Vec<(i64, i64)> = Vec::new();
    let mut i: usize = 0;
    assert(list@ =~= page_lines(model, page, 0));
    while i < lines.len()
        invariant
            i <= lines@.len(),
            model == line_views(lines@),
            list@ == page_lines(model, page, i as nat),
            below(list@, i as nat),
            keys@.len() == i,
            forall|j: int| 0 <= j < i ==> #[trigger] keys@[j] == descending_keys(model)[j],
        decreases lines@.len() - i,
    {
        assert(model[i as int] == lines@[i as int]@);
        if lines[i].page == page {
            list.push(i);
        }
        keys.push((-sort_key(lines[i].y), 0i64));
        i += 1;
    }
    assert(keys@ =~= descending_keys(model));
    assert(has_keys(list@, keys@));
    sort_indices(&list, &keys)
}

/// A size and the number of characters set in it.
struct SizeCount {
    size: Single,
    count: usize,
}

spec fn size_views(sizes: Seq<SizeCount>) -> Seq<(Single, nat)> {
    Seq::new(sizes.len(), |i: int| (sizes[i].size, sizes[i].count as nat))
}

fn collect_sizes(lines: &Vec<TextLine>, order: &Vec<usize>) -> (r: Vec<SizeCount>)
    requires
        below(order@, lines@.len()),
    ensures
        size_views(r@) == sizes_of(line_views(lines@), order@, order@.len()),
{
    let ghost model = line_views(lines@);
    let mut sizes: Vec<SizeCount> = Vec::new();
    let mut i: usize = 0;
    assert(size_views(sizes@) =~= sizes_of(model, order@, 0));
    while i < order.len()
        invariant
            i <= order@.len(),
            below(order@, lines@.len()),
            model == line_views(lines@),
            size_views(sizes@) == sizes_of(model, order@, i as nat),
        decreases order@.len() - i,
    {
        let line = &lines[order[i]];
        assert(model[order@[i as int] as int] == line@);
        let ghost before = size_views(sizes@);
        let mut j: usize = 0;
        assert(size_views(sizes@) =~= before + item_sizes(line@.items, 0));
        while j < line.items.len()
            invariant
                j <= line.items@.len(),
                size_views(sizes@) == before + item_sizes(line@.items, j as nat),
            decreases line.items@.len() - j,
        {
            assert(line@.items[j as int] == line.items@[j as int]@);
            let ghost start = size_views(sizes@);
            let count = characters(&line.items[j].text).len();
            sizes.push(SizeCount { size: line.items[j].font_size, count });
            assert(size_views(sizes@) =~= start.push((line@.items[j as int].font_size, count as nat)));
            assert(size_views(sizes@) =~= before + item_sizes(line@.items, (j + 1) as nat));
            j += 1;
        }
        i += 1;
    }
    sizes
}

fn find_body_size(lines: &Vec<TextLine>, order: &Vec<usize>) -> (r: Single)
    requires
        below(order@, lines@.len()),
    ensures
        r == body_size(line_views(lines@), order@),
{
    let sizes = collect_sizes(lines, order);
    let ghost model = size_views(sizes@);
    let mut keys: Vec<(i64, i64)> = Vec::new();
    let mut list: Vec<usize> = Vec::new();
    let mut i: usize = 0;
    while i < sizes.len()
        invariant
            i <= sizes@.len(),
            model == size_views(sizes@),
            keys@.len() == i,
            list@.len() == i,
            forall|j: int| 0 <= j < i ==> #[trigger] keys@[j] == size_keys(model)[j],
            forall|j: int| 0 <= j < i ==> #[trigger] list@[j] == j,
        decreases sizes@.len() - i,
    {
        keys.push((sort_key(sizes[i].size), 0i64));
        list.push(i);
        i += 1;
    }
    assert(keys@ =~= size_keys(model));
    assert(list@ =~= crate::markdown::furniture::indices(model.len()));
    assert(has_keys(list@, keys@));
    let sorted = sort_indices(&list, &keys);
    let mut total: u128 = 0;
    let mut i: usize = 0;
    while i < sorted.len()
        invariant
            i <= sorted@.len() <= usize::MAX,
            has_keys(sorted@, keys@),
            keys@.len() == sizes@.len(),
            model == size_views(sizes@),
            total == chars_of(model, sorted@, i as nat),
            total <= i * usize::MAX,
        decreases sorted@.len() - i,
    {
        proof {
            assert(i * usize::MAX + usize::MAX == (i + 1) * usize::MAX) by (nonlinear_arith);
            assert((i + 1) * usize::MAX <= u64::MAX * u64::MAX) by (nonlinear_arith)
                requires
                    i + 1 <= u64::MAX,
                    usize::MAX <= u64::MAX,
            ;
        }
        assert(model[sorted@[i as int] as int].1 == sizes@[sorted@[i as int] as int].count);
        total = total + sizes[sorted[i]].count as u128;
        i += 1;
    }
    let ghost target = body_size(line_views(lines@), order@);
    let mut running: u128 = 0;
    let mut k: usize = 0;
    while k < sorted.len()
        invariant
            k <= sorted@.len() <= usize::MAX,
            has_keys(sorted@, keys@),
            keys@.len() == sizes@.len(),
            model == size_views(sizes@),
            total == chars_of(model, sorted@, sorted@.len()),
            running == chars_of(model, sorted@, k as nat),
            running <= k * usize::MAX,
            target == body_size(line_views(lines@), order@),
            target == median_size(model, sorted@, k as int),
        decreases sorted@.len() - k,
    {
        proof {
            assert(k * usize::MAX + usize::MAX == (k + 1) * usize::MAX) by (nonlinear_arith);
            assert((k + 1) * usize::MAX <= u64::MAX * u64::MAX) by (nonlinear_arith)
                requires
                    k + 1 <= u64::MAX,
                    usize::MAX <= u64::MAX,
            ;
        }
        assert(model[sorted@[k as int] as int].1 == sizes@[sorted@[k as int] as int].count);
        running = running + sizes[sorted[k]].count as u128;
        if running >= total || running >= total - running {
            return sizes[sorted[k]].size;
        }
        k += 1;
    }
    Single { bits: DEFAULT_SIZE_BITS }
}

fn find_median_leading(lines: &Vec<TextLine>, order: &Vec<usize>) -> (r: Single)
    requires
        below(order@, lines@.len()),
    ensures
        r == median_leading(line_views(lines@), order@),
{
    let ghost model = line_views(lines@);
    let mut steps: Vec<Single> = Vec::new();
    let mut i: usize = 1;
    assert(steps@ =~= steps_of(model, order@, 1));
    while i < order.len()
        invariant
            1 <= i,
            i <= order@.len() || i == 1,
            below(order@, lines@.len()),
            model == line_views(lines@),
            steps@ == steps_of(model, order@, i as nat),
        decreases order@.len() - i,
    {
        assert(model[order@[i as int] as int] == lines@[order@[i as int] as int]@);
        assert(model[order@[i - 1] as int] == lines@[order@[i - 1] as int]@);
        let step = lines[order[i - 1]].y.minus(lines[order[i]].y);
        if (Single { bits: LEAST_STEP_BITS }).less(step) {
            steps.push(step);
        }
        i += 1;
    }
    proof {
        if order@.len() == 0 {
            assert(steps_of(model, order@, 0) =~= steps_of(model, order@, 1));
        }
    }
    let sorted = sort_values(&steps);
    if sorted.len() == 0 {
        Single { bits: DEFAULT_SIZE_BITS }
    } else {
        sorted[sorted.len() / 2]
    }
}

fn find_line_size(line: &TextLine) -> (r: Single)
    ensures
        r == line_size(line@.items, line@.items.len()),
{
    let mut size = Single::zero();
    let mut i: usize = 0;
    while i < line.items.len()
        invariant
            i <= line.items@.len(),
            size == line_size(line@.items, i as nat),
        decreases line.items@.len() - i,
    {
        assert(line@.items[i as int] == line.items@[i as int]@);
        size = size.max(line.items[i].font_size);
        i += 1;
    }
    size
}

fn is_near(lines: &Vec<TextLine>, ordered: &Vec<usize>, k: usize, gap: Single) -> (r: bool)
    requires
        below(ordered@, lines@.len()),
        1 <= k < ordered@.len(),
    ensures
        r == near(line_views(lines@), ordered@, k as int, gap),
{
    let ghost model = line_views(lines@);
    assert(model[ordered@[k as int] as int] == lines@[ordered@[k as int] as int]@);
    assert(model[ordered@[k - 1] as int] == lines@[ordered@[k - 1] as int]@);
    lines[ordered[k - 1]].y.minus(lines[ordered[k]].y).absolute().less(gap)
}

fn find_block_length(lines: &Vec<TextLine>, ordered: &Vec<usize>, gap: Single) -> (r: usize)
    requires
        below(ordered@, lines@.len()),
    ensures
        r == block_length(line_views(lines@), ordered@, gap),
        r < ordered@.len() || r == 0,
{
    if ordered.len() < 2 {
        0
    } else if !is_near(lines, ordered, 1, gap) {
        1
    } else if ordered.len() < 3 || is_near(lines, ordered, 2, gap) {
        0
    } else {
        2
    }
}

fn collect_block_text(lines: &Vec<TextLine>, ordered: &Vec<usize>, n: usize) -> (r: Vec<char>)
    requires
        below(ordered@, lines@.len()),
        n <= ordered@.len(),
    ensures
        r@ == block_text(line_views(lines@), ordered@, n as nat),
{
    let ghost model = line_views(lines@);
    let mut out: Vec<char> = Vec::new();
    let mut i: usize = 0;
    assert(out@ =~= block_text(model, ordered@, 0));
    while i < n
        invariant
            i <= n <= ordered@.len(),
            below(ordered@, lines@.len()),
            model == line_views(lines@),
            out@ == block_text(model, ordered@, i as nat),
        decreases n - i,
    {
        assert(model[ordered@[i as int] as int] == lines@[ordered@[i as int] as int]@);
        let text = characters(&lines[ordered[i]].text());
        if i > 0 {
            push_text(&mut out, " ");
        }
        push_chars(&mut out, &text);
        assert(i == 0 ==> out@ =~= text@);
        i += 1;
    }
    out
}

fn count_clusters(line: &TextLine) -> (r: usize)
    ensures
        r == cluster_count(line@),
{
    let ghost model = line@.items;
    let mut keys: Vec<(i64, i64)> = Vec::new();
    let mut list: Vec<usize> = Vec::new();
    let mut i: usize = 0;
    while i < line.items.len()
        invariant
            i <= line.items@.len(),
            model == line@.items,
            keys@.len() == i,
            list@.len() == i,
            forall|j: int| 0 <= j < i ==> #[trigger] keys@[j] == left_keys(model)[j],
            forall|j: int| 0 <= j < i ==> #[trigger] list@[j] == j,
        decreases line.items@.len() - i,
    {
        assert(model[i as int] == line.items@[i as int]@);
        keys.push((sort_key(line.items[i].x), 0i64));
        list.push(i);
        i += 1;
    }
    assert(keys@ =~= left_keys(model));
    assert(list@ =~= crate::markdown::furniture::indices(model.len()));
    assert(has_keys(list@, keys@));
    let order = sort_indices(&list, &keys);
    let gap = find_line_size(line).max(Single { bits: LEAST_CLUSTER_SIZE_BITS }).times(
        Single { bits: CLUSTER_GAP_BITS },
    );
    let mut count: usize = 1;
    let mut right = Single::zero();
    let mut i: usize = 0;
    while i < order.len()
        invariant
            i <= order@.len(),
            has_keys(order@, keys@),
            keys@.len() == line.items@.len(),
            model == line@.items,
            (count as nat, right) == clusters(model, order@, gap, i as nat),
            count <= i + 1,
            i == 0 ==> count == 1,
            i >= 1 ==> count <= i,
        decreases order@.len() - i,
    {
        let item = &line.items[order[i]];
        assert(model[order@[i as int] as int] == item@);
        let end = item.x.plus(item.width);
        if i == 0 {
            right = end;
        } else {
            if gap.less(item.x.minus(right)) {
                count += 1;
            }
            right = right.max(end);
        }
        i += 1;
    }
    count
}

fn is_any_above(lines: &Vec<TextLine>, ordered: &Vec<usize>, n: usize, size: Single) -> (r: bool)
    requires
        below(ordered@, lines@.len()),
        n <= ordered@.len(),
    ensures
        r == any_above(line_views(lines@), ordered@, n as nat, size),
{
    let ghost model = line_views(lines@);
    let mut i: usize = 0;
    while i < n
        invariant
            i <= n <= ordered@.len(),
            below(ordered@, lines@.len()),
            model == line_views(lines@),
            forall|j: int|
                0 <= j < i ==> !size.spec_less(
                    line_size(model[(#[trigger] ordered@[j]) as int].items, model[ordered@[j] as int].items.len()),
                ),
        decreases n - i,
    {
        assert(model[ordered@[i as int] as int] == lines@[ordered@[i as int] as int]@);
        if size.less(find_line_size(&lines[ordered[i]])) {
            return true;
        }
        i += 1;
    }
    false
}

fn is_any_from(lines: &Vec<TextLine>, ordered: &Vec<usize>, n: usize, size: Single) -> (r: bool)
    requires
        below(ordered@, lines@.len()),
        n <= ordered@.len(),
    ensures
        r == any_from(line_views(lines@), ordered@, n as nat, size),
{
    let ghost model = line_views(lines@);
    let mut i: usize = 0;
    while i < n
        invariant
            i <= n <= ordered@.len(),
            below(ordered@, lines@.len()),
            model == line_views(lines@),
            forall|j: int|
                0 <= j < i ==> !size.spec_at_most(
                    line_size(model[(#[trigger] ordered@[j]) as int].items, model[ordered@[j] as int].items.len()),
                ),
        decreases n - i,
    {
        assert(model[ordered@[i as int] as int] == lines@[ordered@[i as int] as int]@);
        if size.at_most(find_line_size(&lines[ordered[i]])) {
            return true;
        }
        i += 1;
    }
    false
}

fn are_runs_within(lines: &Vec<TextLine>, ordered: &Vec<usize>, n: usize, most: usize) -> (r: bool)
    requires
        below(ordered@, lines@.len()),
        n <= ordered@.len(),
    ensures
        r == runs_within(line_views(lines@), ordered@, n as nat, most as nat),
{
    let ghost model = line_views(lines@);
    let mut i: usize = 0;
    while i < n
        invariant
            i <= n <= ordered@.len(),
            below(ordered@, lines@.len()),
            model == line_views(lines@),
            forall|j: int| 0 <= j < i ==> cluster_count(model[(#[trigger] ordered@[j]) as int]) <= most,
        decreases n - i,
    {
        assert(model[ordered@[i as int] as int] == lines@[ordered@[i as int] as int]@);
        if count_clusters(&lines[ordered[i]]) > most {
            return false;
        }
        i += 1;
    }
    true
}

fn is_any_letter(s: &Vec<char>) -> (r: bool)
    ensures
        r == has_letter(s@),
{
    let mut i: usize = 0;
    while i < s.len()
        invariant
            i <= s@.len(),
            forall|j: int| 0 <= j < i ==> !alphabetic(#[trigger] s@[j]),
        decreases s@.len() - i,
    {
        let c: char = s[i];
        if c.is_alphabetic() {
            return true;
        }
        i += 1;
    }
    false
}

fn is_marker_led(s: &Vec<char>) -> (r: bool)
    ensures
        r == marker_led(s@),
{
    if starts_with_paren_marker(&text_of(s)) {
        return true;
    }
    if s.len() == 0 {
        return false;
    }
    let c: char = s[0];
    c.is_numeric() || c == '\u{2020}' || c == '\u{2021}' || c == '\u{a7}' || c == '\u{b6}' || c == '*' || (
    c.is_lowercase() && (s.len() == 1 || is_white_space(s[1])))
}

fn judge_edge(lines: &Vec<TextLine>, ordered: &Vec<usize>, gap: Single, body: Single) -> (r: usize)
    requires
        below(ordered@, lines@.len()),
    ensures
        r == edge_block(line_views(lines@), ordered@, gap, body),
        r <= ordered@.len(),
{
    let n = find_block_length(lines, ordered, gap);
    if n == 0 {
        return 0;
    }
    let text = trim_chars(&collect_block_text(lines, ordered, n));
    if text.len() == 0 || text.len() > MAX_FURNITURE_CHARS || !are_runs_within(lines, ordered, n, ROW_CLUSTERS - 1) {
        return 0;
    }
    if !is_any_letter(&text) {
        if !are_runs_within(lines, ordered, n, 1) || text.len() > MAX_INDICATOR_CHARS || is_any_above(
            lines,
            ordered,
            n,
            body,
        ) {
            return 0;
        }
        return n;
    }
    if is_any_from(lines, ordered, n, body.times(Single { bits: CONTENT_SIZE_BITS })) || is_structural_line(
        &text_of(&text),
    ) || is_marker_led(&text) {
        0
    } else {
        n
    }
}

fn reverse_list(list: &Vec<usize>) -> (r: Vec<usize>)
    ensures
        r@ == list@.reverse(),
{
    let mut out: Vec<usize> = Vec::new();
    let mut n: usize = list.len();
    while n > 0
        invariant
            n <= list@.len(),
            out@.len() == list@.len() - n,
            forall|j: int| 0 <= j < out@.len() ==> #[trigger] out@[j] == list@[list@.len() - 1 - j],
        decreases n,
    {
        out.push(list[n - 1]);
        n -= 1;
    }
    assert(out@ =~= list@.reverse());
    out
}

fn is_among_first(list: &Vec<usize>, n: usize, x: usize) -> (r: bool)
    requires
        n <= list@.len(),
    ensures
        r == list@.take(n as int).contains(x),
{
    let mut i: usize = 0;
    while i < n
        invariant
            i <= n <= list@.len(),
            forall|j: int| 0 <= j < i ==> list@[j] != x,
        decreases n - i,
    {
        if list[i] == x {
            assert(list@.take(n as int)[i as int] == x);
            return true;
        }
        i += 1;
    }
    false
}

/// Strips furniture at the edges of pages by position and typography.
pub fn strip_edge_furniture(lines: Vec<TextLine>) -> (r: Vec<TextLine>)
    ensures
        line_views(r@) == without_edge_furniture(line_views(lines@)),
{
    let ghost model = line_views(lines@);
    let mut flags: Vec<bool> = Vec::new();
    let mut i: usize = 0;
    while i < lines.len()
        invariant
            i <= lines@.len(),
            model == line_views(lines@),
            flags@.len() == i,
            forall|j: int| 0 <= j < i ==> #[trigger] flags@[j] == is_edge_furniture(model, j),
        decreases lines@.len() - i,
    {
        assert(model[i as int] == lines@[i as int]@);
        let order = find_page_order(&lines, lines[i].page);
        let mut flag = false;
        if order.len() > MIN_PAGE_LINES {
            let up = reverse_list(&order);
            let gap = find_median_leading(&lines, &order).times(Single { bits: ISOLATION_BITS });
            let body = find_body_size(&lines, &order);
            let top = judge_edge(&lines, &order, gap, body);
            assert(below(up@, lines@.len()));
            let bottom = judge_edge(&lines, &up, gap, body);
            flag = is_among_first(&order, top, i) || is_among_first(&up, bottom, i);
        }
        flags.push(flag);
        i += 1;
    }
    assert(flags@ =~= furniture_flags(model));
    keep_lines(&lines, &flags)
}

/// Strips running headers and footers. Three and more pages prove furniture by
/// repetition; shorter documents are judged page by page.
pub fn strip_header_footer_lines(lines: Vec<TextLine>, page_count: u32) -> (r: Vec<TextLine>)
    ensures
        line_views(r@) == if page_count < LEAST_REPEATED_PAGES {
            without_edge_furniture(line_views(lines@))
        } else {
            without_repeated(line_views(lines@), page_count)
        },
{
    if page_count < LEAST_REPEATED_PAGES {
        strip_edge_furniture(lines)
    } else {
        strip_repeated_lines(lines, page_count)
    }
}

/// A page with few lines loses none.
pub proof fn law_short_pages_stay(lines: Seq<LineView>, i: int)
    requires
        0 <= i < lines.len(),
        page_order(lines, lines[i].page).len() <= MIN_PAGE_LINES,
    ensures
        !is_edge_furniture(lines, i),
{
}

/// A block that is stripped has at most two lines, and a structural or
/// marker-led text is never stripped for its size.
pub proof fn law_only_small_plain_blocks_go(lines: Seq<LineView>, ordered: Seq<usize>, gap: Single, body: Single)
    ensures
        edge_block(lines, ordered, gap, body) <= MAX_EDGE_BLOCK_LINES,
        ({
            let n = edge_block(lines, ordered, gap, body);
            let text = trimmed(block_text(lines, ordered, n));
            n > 0 && has_letter(text) ==> !structural(text) && !marker_led(text)
        }),
{
}

} // verus!
