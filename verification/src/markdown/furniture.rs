//! Page furniture: running headers and footers.
//!
//! On three and more pages furniture is proved by repetition across pages.
//! Shorter documents carry no such signal, and are judged page by page by
//! position and typography.

use crate::markdown::words::{
    comparable, decorative, is_decorative_separator, is_structural_line, normalize_for_comparison, structural,
};
use crate::single::{total_key, Single, ONE_BITS};
use crate::sorting::{has_keys, sort_indices, stably_sorted};
use crate::text::{characters, copy_text, push_chars, push_text, text_of, trim_chars, trimmed};
use crate::types::{copy_line, line_views, LineView, TextLine};
use vstd::prelude::*;

verus! {

/// `0.1`: how near two heights are the same position, in points.
pub const SAME_HEIGHT_BITS: u32 = 0x3dcc_cccd;

/// `10.0`: the heights per point that are told apart.
pub const BANDS_PER_POINT_BITS: u32 = 0x4120_0000;

/// `0.05`: how far the positions of a running header may vary, as a fraction
/// of the page.
pub const POSITION_VARIANCE_BITS: u32 = 0x3d4c_cccd;

/// The heights at either end of a page that count as its margin.
pub const EDGE_LINE_COUNT: usize = 5;

/// The shortest text that is furniture by repetition.
pub const LEAST_REPEATED_CHARS: usize = 10;

/// The pages of a document from which on repetition is evidence.
pub const LEAST_REPEATED_PAGES: u32 = 3;

/// The height of a line as a band of a tenth of a point.
pub open spec fn band(line: LineView) -> int {
    line.y.spec_times(Single { bits: BANDS_PER_POINT_BITS }).spec_rounded()
}

fn band_of(y: Single) -> (r: i32)
    ensures
        r == y.spec_times(Single { bits: BANDS_PER_POINT_BITS }).spec_rounded(),
{
    y.times(Single { bits: BANDS_PER_POINT_BITS }).rounded()
}

/// The heights of the lines on a page, among the first `n`.
pub open spec fn page_heights(lines: Seq<LineView>, page: u32, n: nat) -> Seq<Single>
    decreases n,
{
    if n == 0 {
        Seq::empty()
    } else {
        let before = page_heights(lines, page, (n - 1) as nat);
        if lines[n - 1].page == page {
            before.push(lines[n - 1].y)
        } else {
            before
        }
    }
}

/// The indices from 0 up to `n`.
pub open spec fn indices(n: nat) -> Seq<usize> {
    Seq::new(n, |i: int| i as usize)
}

pub open spec fn height_keys(values: Seq<Single>) -> Seq<(i64, i64)> {
    Seq::new(values.len(), |i: int| (total_key(values[i].bits) as i64, 0i64))
}

/// Numbers in their total order.
pub open spec fn sorted_values(values: Seq<Single>) -> Seq<Single> {
    let order = stably_sorted(indices(values.len()), height_keys(values));
    Seq::new(order.len(), |i: int| values[order[i] as int])
}

/// A list without the numbers that equal the one before them.
pub open spec fn without_repeats(values: Seq<Single>) -> Seq<Single>
    decreases values.len(),
{
    if values.len() == 0 {
        Seq::empty()
    } else {
        let before = without_repeats(values.drop_last());
        if before.len() > 0 && before.last().spec_same(values.last()) {
            before
        } else {
            before.push(values.last())
        }
    }
}

/// The distinct heights of a page, from the lowest on.
pub open spec fn distinct_heights(lines: Seq<LineView>, page: u32) -> Seq<Single> {
    without_repeats(sorted_values(page_heights(lines, page, lines.len())))
}

/// The first position from `k` on whose height is about `y`.
pub open spec fn height_position(heights: Seq<Single>, y: Single, k: int) -> Option<int>
    decreases heights.len() - k,
{
    if k < 0 || k >= heights.len() {
        None
    } else if heights[k].spec_minus(y).spec_absolute().spec_less(Single { bits: SAME_HEIGHT_BITS }) {
        Some(k)
    } else {
        height_position(heights, y, k + 1)
    }
}

/// A height is among the first or last few of its page. On a page with few
/// heights all of them are.
pub open spec fn near_edge(heights: Seq<Single>, y: Single) -> bool {
    if heights.len() <= 2 * EDGE_LINE_COUNT {
        true
    } else {
        match height_position(heights, y, 0) {
            Some(k) => k < EDGE_LINE_COUNT || k >= heights.len() - EDGE_LINE_COUNT,
            None => false,
        }
    }
}

/// The line is at the edge of its page.
pub open spec fn at_edge(lines: Seq<LineView>, i: int) -> bool {
    near_edge(distinct_heights(lines, lines[i].page), lines[i].y)
}

/// A row that may repeat on other pages.
pub struct Row {
    /// The row counts as evidence.
    pub selected: bool,
    /// The text by which rows are compared.
    pub key: String,
    pub page: u32,
    pub y: Single,
}

/// What a [`Row`] is.
#[verifier::ext_equal]
pub struct RowView {
    pub selected: bool,
    pub key: Seq<char>,
    pub page: u32,
    pub y: Single,
}

impl View for Row {
    type V = RowView;

    open spec fn view(&self) -> RowView {
        RowView { selected: self.selected, key: self.key@, page: self.page, y: self.y }
    }
}

pub open spec fn row_views(rows: Seq<Row>) -> Seq<RowView> {
    Seq::new(rows.len(), |i: int| rows[i]@)
}

/// The distinct pages on which a text is selected, in order.
pub open spec fn key_pages(rows: Seq<RowView>, key: Seq<char>, n: nat) -> Seq<u32>
    decreases n,
{
    if n == 0 {
        Seq::empty()
    } else {
        let before = key_pages(rows, key, (n - 1) as nat);
        let row = rows[n - 1];
        if row.selected && row.key == key && !before.contains(row.page) {
            before.push(row.page)
        } else {
            before
        }
    }
}

/// The heights at which a text is selected, in order.
pub open spec fn key_heights(rows: Seq<RowView>, key: Seq<char>, n: nat) -> Seq<Single>
    decreases n,
{
    if n == 0 {
        Seq::empty()
    } else {
        let before = key_heights(rows, key, (n - 1) as nat);
        let row = rows[n - 1];
        if row.selected && row.key == key {
            before.push(row.y)
        } else {
            before
        }
    }
}

/// The sum of the first `n` numbers, in order.
pub open spec fn sum_of(values: Seq<Single>, n: nat) -> Single
    decreases n,
{
    if n == 0 {
        Single { bits: 0 }
    } else {
        sum_of(values, (n - 1) as nat).spec_plus(values[n - 1])
    }
}

/// The squared distances from a mean.
pub open spec fn squares(values: Seq<Single>, mean: Single) -> Seq<Single> {
    Seq::new(
        values.len(),
        |i: int| values[i].spec_minus(mean).spec_times(values[i].spec_minus(mean)),
    )
}

/// The positions of a text vary by less than a small part of the page. One
/// position is consistent with itself.
pub open spec fn consistent(values: Seq<Single>, span: Single) -> bool {
    if values.len() < 2 {
        true
    } else {
        let n = Single::spec_from_natural(values.len());
        let mean = sum_of(values, values.len()).spec_over(n);
        let variance = sum_of(squares(values, mean), values.len()).spec_over(n);
        variance.spec_root().spec_over(span).spec_less(Single { bits: POSITION_VARIANCE_BITS })
    }
}

/// The pages on which a text has to appear.
pub open spec fn page_threshold(page_count: u32) -> int {
    let part = page_count * 30 / 100;
    if part > LEAST_REPEATED_PAGES {
        part
    } else {
        LEAST_REPEATED_PAGES as int
    }
}

/// The text repeats on enough pages at a consistent height, and is no
/// structural line.
pub open spec fn repeats(rows: Seq<RowView>, key: Seq<char>, threshold: int, span: Single) -> bool {
    &&& key_pages(rows, key, rows.len()).len() >= threshold
    &&& !structural(key)
    &&& consistent(key_heights(rows, key, rows.len()), span)
}

/// The line is the first of its page.
pub open spec fn first_of_page(lines: Seq<LineView>, i: int) -> bool {
    forall|j: int| 0 <= j < i ==> (#[trigger] lines[j]).page != lines[i].page
}

/// The lowest height of a page among the first `n` lines, from that of the
/// line `start` on.
pub open spec fn lowest(lines: Seq<LineView>, start: int, n: int) -> Single
    decreases n - start,
{
    if n <= start + 1 {
        lines[start].y
    } else {
        let before = lowest(lines, start, n - 1);
        let line = lines[n - 1];
        if line.page == lines[start].page && line.y.spec_less(before) {
            line.y
        } else {
            before
        }
    }
}

/// The highest height of a page among the first `n` lines, from that of the
/// line `start` on.
pub open spec fn highest(lines: Seq<LineView>, start: int, n: int) -> Single
    decreases n - start,
{
    if n <= start + 1 {
        lines[start].y
    } else {
        let before = highest(lines, start, n - 1);
        let line = lines[n - 1];
        if line.page == lines[start].page && before.spec_less(line.y) {
            line.y
        } else {
            before
        }
    }
}

/// The heights that the pages of the first `n` lines span, page by page.
pub open spec fn spans(lines: Seq<LineView>, n: nat) -> Seq<Single>
    decreases n,
{
    if n == 0 {
        Seq::empty()
    } else {
        let before = spans(lines, (n - 1) as nat);
        let i = n - 1;
        if first_of_page(lines, i) {
            let count = lines.len() as int;
            before.push(highest(lines, i, count).spec_minus(lowest(lines, i, count)))
        } else {
            before
        }
    }
}

/// The average height that a page spans, at least one point.
pub open spec fn average_span(lines: Seq<LineView>) -> Single {
    let all = spans(lines, lines.len());
    if all.len() == 0 {
        Single { bits: ONE_BITS }
    } else {
        sum_of(all, all.len()).spec_over(Single::spec_from_natural(all.len())).spec_max(Single { bits: ONE_BITS })
    }
}

/// Two lines stand in one row: on one page, in one band.
pub open spec fn same_row(a: LineView, b: LineView) -> bool {
    a.page == b.page && band(a) == band(b)
}

/// The line is the first of its row.
pub open spec fn heads_row(lines: Seq<LineView>, i: int) -> bool {
    forall|j: int| 0 <= j < i ==> !same_row(#[trigger] lines[j], lines[i])
}

/// The number of lines in a row, among the first `n`.
pub open spec fn row_size(lines: Seq<LineView>, i: int, n: nat) -> nat
    decreases n,
{
    if n == 0 {
        0
    } else {
        row_size(lines, i, (n - 1) as nat) + if same_row(lines[n - 1], lines[i]) {
            1nat
        } else {
            0nat
        }
    }
}

/// The texts of a row among the first `n` lines, with spaces between them.
pub open spec fn row_text(lines: Seq<LineView>, i: int, n: nat) -> Seq<char>
    decreases n,
{
    if n == 0 {
        Seq::empty()
    } else {
        let before = row_text(lines, i, (n - 1) as nat);
        if !same_row(lines[n - 1], lines[i]) {
            before
        } else if row_size(lines, i, (n - 1) as nat) == 0 {
            lines[n - 1].text()
        } else {
            before + " "@ + lines[n - 1].text()
        }
    }
}

/// The line is a list item, a heading or an annotation by its whole text.
pub open spec fn is_structural(line: LineView) -> bool {
    structural(trimmed(line.text()))
}

/// The text is long enough to be furniture, and no separator.
pub open spec fn substantial(key: Seq<char>) -> bool {
    key.len() >= LEAST_REPEATED_CHARS && !decorative(key)
}

/// A structural line protects its whole row, and the rows in the neighbouring
/// bands: fragments of one row can straddle a boundary between bands.
pub open spec fn protected(lines: Seq<LineView>, i: int) -> bool {
    exists|j: int|
        0 <= j < lines.len() && (#[trigger] lines[j]).page == lines[i].page && -1 <= band(lines[j]) - band(lines[i])
            <= 1 && is_structural(lines[j])
}

/// The lines as rows of their own.
pub open spec fn line_rows(lines: Seq<LineView>) -> Seq<RowView> {
    Seq::new(
        lines.len(),
        |i: int|
            {
                let key = comparable(lines[i].text());
                RowView {
                    selected: at_edge(lines, i) && !is_structural(lines[i]) && substantial(key),
                    key,
                    page: lines[i].page,
                    y: lines[i].y,
                }
            },
    )
}

/// The line heads a row of several lines at the edge of its page.
pub open spec fn heads_edge_row(lines: Seq<LineView>, i: int) -> bool {
    heads_row(lines, i) && row_size(lines, i, lines.len()) >= 2 && at_edge(lines, i)
}

/// The rows of several lines, each at the place of its first line.
pub open spec fn band_rows(lines: Seq<LineView>) -> Seq<RowView> {
    Seq::new(
        lines.len(),
        |i: int|
            {
                let text = row_text(lines, i, lines.len());
                let key = comparable(text);
                RowView {
                    selected: heads_edge_row(lines, i) && !structural(trimmed(text)) && substantial(key),
                    key,
                    page: lines[i].page,
                    y: lines[i].y,
                }
            },
    )
}

/// The line repeats on its own and may be removed.
pub open spec fn repeats_alone(lines: Seq<LineView>, i: int, page_count: u32) -> bool {
    &&& at_edge(lines, i) && !protected(lines, i)
    &&& repeats(
        line_rows(lines),
        comparable(lines[i].text()),
        page_threshold(page_count),
        average_span(lines),
    )
}

/// The line repeats one that came before it on an earlier page: the first one
/// with its text is kept.
pub open spec fn removed_alone(lines: Seq<LineView>, i: int, page_count: u32) -> bool {
    &&& repeats_alone(lines, i, page_count)
    &&& exists|j: int|
        0 <= j < i && repeats_alone(lines, j, page_count) && comparable((#[trigger] lines[j]).text()) == comparable(
            lines[i].text(),
        ) && (forall|k: int|
            0 <= k < j && repeats_alone(lines, k, page_count) ==> comparable((#[trigger] lines[k]).text())
                != comparable(lines[i].text())) && lines[j].page < lines[i].page
}

/// The row that this line heads repeats one on an earlier page.
pub open spec fn removed_row(lines: Seq<LineView>, i: int, page_count: u32) -> bool {
    let text = row_text(lines, i, lines.len());
    let key = comparable(text);
    &&& heads_edge_row(lines, i) && !protected(lines, i) && !structural(trimmed(text))
    &&& repeats(band_rows(lines), key, page_threshold(page_count), average_span(lines))
    &&& exists|j: int|
        0 <= j < lines.len() && heads_edge_row(lines, j) && comparable(row_text(lines, j, lines.len())) == key
            && (#[trigger] lines[j]).page < lines[i].page
}

/// The line is in the row that the line `h` heads.
pub open spec fn in_row_of(lines: Seq<LineView>, i: int, h: int) -> bool {
    0 <= h < lines.len() && heads_row(lines, h) && same_row(lines[h], lines[i])
}

/// A line is removed on its own or with its row. Where one line of a row at
/// the edge is removed, the whole row is.
pub open spec fn removed(lines: Seq<LineView>, i: int, page_count: u32) -> bool {
    ||| removed_alone(lines, i, page_count)
    ||| exists|h: int| #[trigger] in_row_of(lines, i, h) && removed_row(lines, h, page_count)
    ||| exists|h: int| #[trigger] in_row_of(lines, i, h) && !protected(lines, h) && at_edge(lines, h) && exists|j: int|
        0 <= j < lines.len() && same_row(lines[h], #[trigger] lines[j]) && removed_alone(lines, j, page_count)
}

/// The first `n` lines without the removed ones.
pub open spec fn kept_lines(lines: Seq<LineView>, flags: Seq<bool>, n: nat) -> Seq<LineView>
    decreases n,
{
    if n == 0 {
        Seq::empty()
    } else {
        let before = kept_lines(lines, flags, (n - 1) as nat);
        if flags[n - 1] {
            before
        } else {
            before.push(lines[n - 1])
        }
    }
}

/// Which lines are removed by repetition.
pub open spec fn removed_flags(lines: Seq<LineView>, page_count: u32) -> Seq<bool> {
    Seq::new(lines.len(), |i: int| removed(lines, i, page_count))
}

/// The lines without those that repeat.
pub open spec fn without_repeated(lines: Seq<LineView>, page_count: u32) -> Seq<LineView> {
    if page_count < LEAST_REPEATED_PAGES {
        lines
    } else {
        kept_lines(lines, removed_flags(lines, page_count), lines.len())
    }
}

fn sort_key(x: Single) -> (r: i64)
    ensures
        r == total_key(x.bits),
{
    if x.bits < 0x8000_0000 {
        x.bits as i64
    } else {
        0x8000_0000i64 - x.bits as i64 - 1
    }
}

fn all_indices(n: usize) -> (r: Vec<usize>)
    ensures
        r@ == indices(n as nat),
{
    let mut out: Vec<usize> = Vec::new();
    let mut i: usize = 0;
    while i < n
        invariant
            i <= n,
            out@.len() == i,
            forall|j: int| 0 <= j < i ==> #[trigger] out@[j] == j,
        decreases n - i,
    {
        out.push(i);
        i += 1;
    }
    assert(out@ =~= indices(n as nat));
    out
}

/// Sorts numbers by their total order.
pub fn sort_values(values: &Vec<Single>) -> (r: Vec<Single>)
    ensures
        r@ == sorted_values(values@),
        r@.len() == values@.len(),
{
    let mut keys: Vec<(i64, i64)> = Vec::new();
    let mut i: usize = 0;
    while i < values.len()
        invariant
            i <= values@.len(),
            keys@.len() == i,
            forall|j: int| 0 <= j < i ==> #[trigger] keys@[j] == height_keys(values@)[j],
        decreases values@.len() - i,
    {
        keys.push((sort_key(values[i]), 0i64));
        i += 1;
    }
    assert(keys@ =~= height_keys(values@));
    let list = all_indices(values.len());
    assert(has_keys(list@, keys@));
    let order = sort_indices(&list, &keys);
    let mut out: Vec<Single> = Vec::new();
    let mut i: usize = 0;
    while i < order.len()
        invariant
            i <= order@.len(),
            has_keys(order@, keys@),
            keys@.len() == values@.len(),
            out@.len() == i,
            forall|j: int| 0 <= j < i ==> #[trigger] out@[j] == values@[order@[j] as int],
        decreases order@.len() - i,
    {
        out.push(values[order[i]]);
        i += 1;
    }
    assert(out@ =~= sorted_values(values@));
    out
}

fn drop_repeats(values: &Vec<Single>) -> (r: Vec<Single>)
    ensures
        r@ == without_repeats(values@),
{
    let mut out: Vec<Single> = Vec::new();
    let mut i: usize = 0;
    assert(out@ =~= without_repeats(values@.take(0)));
    while i < values.len()
        invariant
            i <= values@.len(),
            out@ == without_repeats(values@.take(i as int)),
        decreases values@.len() - i,
    {
        assert(values@.take(i + 1).drop_last() =~= values@.take(i as int));
        if !(out.len() > 0 && out[out.len() - 1].same(values[i])) {
            out.push(values[i]);
        }
        i += 1;
    }
    assert(values@.take(values@.len() as int) =~= values@);
    out
}

fn find_distinct_heights(lines: &Vec<TextLine>, page: u32) -> (r: Vec<Single>)
    ensures
        r@ == distinct_heights(line_views(lines@), page),
{
    let ghost model = line_views(lines@);
    let mut heights: Vec<Single> = Vec::new();
    let mut i: usize = 0;
    assert(heights@ =~= page_heights(model, page, 0));
    while i < lines.len()
        invariant
            i <= lines@.len(),
            model == line_views(lines@),
            heights@ == page_heights(model, page, i as nat),
        decreases lines@.len() - i,
    {
        assert(model[i as int] == lines@[i as int]@);
        if lines[i].page == page {
            heights.push(lines[i].y);
        }
        i += 1;
    }
    drop_repeats(&sort_values(&heights))
}

fn is_near_edge(heights: &Vec<Single>, y: Single) -> (r: bool)
    ensures
        r == near_edge(heights@, y),
{
    if heights.len() <= 2 * EDGE_LINE_COUNT {
        return true;
    }
    let mut k: usize = 0;
    while k < heights.len()
        invariant
            k <= heights@.len(),
            heights@.len() > 2 * EDGE_LINE_COUNT,
            height_position(heights@, y, 0) == height_position(heights@, y, k as int),
        decreases heights@.len() - k,
    {
        if heights[k].minus(y).absolute().less(Single { bits: SAME_HEIGHT_BITS }) {
            return k < EDGE_LINE_COUNT || k >= heights.len() - EDGE_LINE_COUNT;
        }
        k += 1;
    }
    false
}

/// Finds which lines are at the edge of their page.
fn find_edges(lines: &Vec<TextLine>) -> (r: Vec<bool>)
    ensures
        r@.len() == lines@.len(),
        forall|i: int| 0 <= i < lines@.len() ==> #[trigger] r@[i] == at_edge(line_views(lines@), i),
{
    let ghost model = line_views(lines@);
    let mut flags: Vec<bool> = Vec::new();
    let mut page: u32 = 0;
    let mut heights: Vec<Single> = find_distinct_heights(lines, 0);
    let mut i: usize = 0;
    while i < lines.len()
        invariant
            i <= lines@.len(),
            model == line_views(lines@),
            heights@ == distinct_heights(model, page),
            flags@.len() == i,
            forall|j: int| 0 <= j < i ==> #[trigger] flags@[j] == at_edge(model, j),
        decreases lines@.len() - i,
    {
        assert(model[i as int] == lines@[i as int]@);
        if lines[i].page != page {
            page = lines[i].page;
            heights = find_distinct_heights(lines, page);
        }
        flags.push(is_near_edge(&heights, lines[i].y));
        i += 1;
    }
    flags
}

fn is_listed_page(pages: &Vec<u32>, page: u32) -> (r: bool)
    ensures
        r == pages@.contains(page),
{
    let mut i: usize = 0;
    while i < pages.len()
        invariant
            i <= pages@.len(),
            forall|j: int| 0 <= j < i ==> pages@[j] != page,
        decreases pages@.len() - i,
    {
        if pages[i] == page {
            return true;
        }
        i += 1;
    }
    false
}

fn find_sum(values: &Vec<Single>) -> (r: Single)
    ensures
        r == sum_of(values@, values@.len()),
{
    let mut total = Single::zero();
    let mut i: usize = 0;
    while i < values.len()
        invariant
            i <= values@.len(),
            total == sum_of(values@, i as nat),
        decreases values@.len() - i,
    {
        total = total.plus(values[i]);
        i += 1;
    }
    total
}

fn is_consistent(values: &Vec<Single>, span: Single) -> (r: bool)
    ensures
        r == consistent(values@, span),
{
    if values.len() < 2 {
        return true;
    }
    let count: usize = values.len();
    let n = Single::from_natural(count as u64);
    let mean = find_sum(values).over(n);
    let mut distances: Vec<Single> = Vec::new();
    let mut i: usize = 0;
    while i < values.len()
        invariant
            i <= values@.len(),
            distances@.len() == i,
            forall|j: int| 0 <= j < i ==> #[trigger] distances@[j] == squares(values@, mean)[j],
        decreases values@.len() - i,
    {
        let d = values[i].minus(mean);
        distances.push(d.times(d));
        i += 1;
    }
    assert(distances@ =~= squares(values@, mean));
    let variance = find_sum(&distances).over(n);
    variance.root().over(span).less(Single { bits: POSITION_VARIANCE_BITS })
}

fn do_repeat(rows: &Vec<Row>, key: &String, threshold: u32, span: Single) -> (r: bool)
    ensures
        r == repeats(row_views(rows@), key@, threshold as int, span),
{
    let ghost model = row_views(rows@);
    let mut pages: Vec<u32> = Vec::new();
    let mut heights: Vec<Single> = Vec::new();
    let mut i: usize = 0;
    assert(pages@ =~= key_pages(model, key@, 0));
    assert(heights@ =~= key_heights(model, key@, 0));
    while i < rows.len()
        invariant
            i <= rows@.len(),
            model == row_views(rows@),
            pages@ == key_pages(model, key@, i as nat),
            heights@ == key_heights(model, key@, i as nat),
        decreases rows@.len() - i,
    {
        let row = &rows[i];
        assert(model[i as int] == row@);
        if row.selected && row.key == *key {
            if !is_listed_page(&pages, row.page) {
                pages.push(row.page);
            }
            heights.push(row.y);
        }
        i += 1;
    }
    pages.len() as u64 >= threshold as u64 && !is_structural_line(key) && is_consistent(&heights, span)
}

fn is_first_of_page(lines: &Vec<TextLine>, i: usize) -> (r: bool)
    requires
        i < lines@.len(),
    ensures
        r == first_of_page(line_views(lines@), i as int),
{
    let ghost model = line_views(lines@);
    assert(model[i as int] == lines@[i as int]@);
    let mut j: usize = 0;
    while j < i
        invariant
            j <= i < lines@.len(),
            model == line_views(lines@),
            model[i as int] == lines@[i as int]@,
            forall|k: int| 0 <= k < j ==> (#[trigger] model[k]).page != model[i as int].page,
        decreases i - j,
    {
        assert(model[j as int] == lines@[j as int]@);
        if lines[j].page == lines[i].page {
            return false;
        }
        j += 1;
    }
    true
}

fn find_span(lines: &Vec<TextLine>, start: usize) -> (r: Single)
    requires
        start < lines@.len(),
    ensures
        ({
            let model = line_views(lines@);
            let count = lines@.len() as int;
            r == highest(model, start as int, count).spec_minus(lowest(model, start as int, count))
        }),
{
    let ghost model = line_views(lines@);
    assert(model[start as int] == lines@[start as int]@);
    let mut low = lines[start].y;
    let mut high = lines[start].y;
    let page = lines[start].page;
    let count: usize = lines.len();
    let mut i: usize = start + 1;
    while i < count
        invariant
            start < i <= count == lines@.len(),
            model == line_views(lines@),
            page == model[start as int].page,
            low == lowest(model, start as int, i as int),
            high == highest(model, start as int, i as int),
        decreases lines@.len() - i,
    {
        assert(model[i as int] == lines@[i as int]@);
        let y = lines[i].y;
        if lines[i].page == page {
            if y.less(low) {
                low = y;
            }
            if high.less(y) {
                high = y;
            }
        }
        i += 1;
    }
    high.minus(low)
}

fn find_average_span(lines: &Vec<TextLine>) -> (r: Single)
    ensures
        r == average_span(line_views(lines@)),
{
    let ghost model = line_views(lines@);
    let mut all: Vec<Single> = Vec::new();
    let mut i: usize = 0;
    assert(all@ =~= spans(model, 0));
    while i < lines.len()
        invariant
            i <= lines@.len(),
            model == line_views(lines@),
            all@ == spans(model, i as nat),
        decreases lines@.len() - i,
    {
        if is_first_of_page(lines, i) {
            all.push(find_span(lines, i));
        }
        i += 1;
    }
    if all.len() == 0 {
        Single::one()
    } else {
        let count: usize = all.len();
        find_sum(&all).over(Single::from_natural(count as u64)).max(Single::one())
    }
}

/// What is known of each line.
struct Facts {
    texts: Vec<String>,
    keys: Vec<String>,
    structural: Vec<bool>,
    bands: Vec<i32>,
    edges: Vec<bool>,
}

impl Facts {
    spec fn describes(self, lines: Seq<LineView>) -> bool {
        &&& self.texts@.len() == lines.len() && self.keys@.len() == lines.len()
        &&& self.structural@.len() == lines.len() && self.bands@.len() == lines.len()
        &&& self.edges@.len() == lines.len()
        &&& forall|i: int| 0 <= i < lines.len() ==> (#[trigger] self.texts@[i])@ == lines[i].text()
        &&& forall|i: int| 0 <= i < lines.len() ==> (#[trigger] self.keys@[i])@ == comparable(lines[i].text())
        &&& forall|i: int| 0 <= i < lines.len() ==> #[trigger] self.structural@[i] == is_structural(lines[i])
        &&& forall|i: int| 0 <= i < lines.len() ==> #[trigger] self.bands@[i] == band(lines[i])
        &&& forall|i: int| 0 <= i < lines.len() ==> #[trigger] self.edges@[i] == at_edge(lines, i)
    }
}

fn find_facts(lines: &Vec<TextLine>) -> (r: Facts)
    ensures
        r.describes(line_views(lines@)),
{
    let ghost model = line_views(lines@);
    let edges = find_edges(lines);
    let mut texts: Vec<String> = Vec::new();
    let mut keys: Vec<String> = Vec::new();
    let mut structural_flags: Vec<bool> = Vec::new();
    let mut bands: Vec<i32> = Vec::new();
    let mut i: usize = 0;
    while i < lines.len()
        invariant
            i <= lines@.len(),
            model == line_views(lines@),
            texts@.len() == i,
            keys@.len() == i,
            structural_flags@.len() == i,
            bands@.len() == i,
            forall|j: int| 0 <= j < i ==> (#[trigger] texts@[j])@ == model[j].text(),
            forall|j: int| 0 <= j < i ==> (#[trigger] keys@[j])@ == comparable(model[j].text()),
            forall|j: int| 0 <= j < i ==> #[trigger] structural_flags@[j] == is_structural(model[j]),
            forall|j: int| 0 <= j < i ==> #[trigger] bands@[j] == band(model[j]),
        decreases lines@.len() - i,
    {
        assert(model[i as int] == lines@[i as int]@);
        let text = lines[i].text();
        keys.push(normalize_for_comparison(&text));
        structural_flags.push(is_structural_line(&text_of(&trim_chars(&characters(&text)))));
        texts.push(text);
        bands.push(band_of(lines[i].y));
        i += 1;
    }
    Facts { texts, keys, structural: structural_flags, bands, edges }
}

fn is_same_row(lines: &Vec<TextLine>, facts: &Facts, i: usize, j: usize) -> (r: bool)
    requires
        facts.describes(line_views(lines@)),
        i < lines@.len(),
        j < lines@.len(),
    ensures
        r == same_row(line_views(lines@)[i as int], line_views(lines@)[j as int]),
{
    let ghost model = line_views(lines@);
    assert(model[i as int] == lines@[i as int]@ && model[j as int] == lines@[j as int]@);
    lines[i].page == lines[j].page && facts.bands[i] == facts.bands[j]
}

fn is_protected(lines: &Vec<TextLine>, facts: &Facts, i: usize) -> (r: bool)
    requires
        facts.describes(line_views(lines@)),
        i < lines@.len(),
    ensures
        r == protected(line_views(lines@), i as int),
{
    let ghost model = line_views(lines@);
    assert(model[i as int] == lines@[i as int]@);
    let mut j: usize = 0;
    while j < lines.len()
        invariant
            j <= lines@.len(),
            i < lines@.len(),
            model == line_views(lines@),
            facts.describes(model),
            model[i as int] == lines@[i as int]@,
            forall|k: int|
                0 <= k < j ==> !((#[trigger] model[k]).page == model[i as int].page && -1 <= band(model[k]) - band(
                    model[i as int],
                ) <= 1 && is_structural(model[k])),
        decreases lines@.len() - j,
    {
        assert(model[j as int] == lines@[j as int]@);
        let difference: i64 = facts.bands[j] as i64 - facts.bands[i] as i64;
        if lines[j].page == lines[i].page && -1 <= difference && difference <= 1 && facts.structural[j] {
            return true;
        }
        j += 1;
    }
    false
}

fn is_substantial(key: &String) -> (r: bool)
    ensures
        r == substantial(key@),
{
    characters(key).len() >= LEAST_REPEATED_CHARS && !is_decorative_separator(key)
}

fn make_line_rows(lines: &Vec<TextLine>, facts: &Facts) -> (r: Vec<Row>)
    requires
        facts.describes(line_views(lines@)),
    ensures
        row_views(r@) == line_rows(line_views(lines@)),
{
    let ghost model = line_views(lines@);
    let mut rows: Vec<Row> = Vec::new();
    let mut i: usize = 0;
    while i < lines.len()
        invariant
            i <= lines@.len(),
            model == line_views(lines@),
            facts.describes(model),
            rows@.len() == i,
            forall|j: int| 0 <= j < i ==> (#[trigger] rows@[j])@ == line_rows(model)[j],
        decreases lines@.len() - i,
    {
        assert(model[i as int] == lines@[i as int]@);
        let selected = facts.edges[i] && !facts.structural[i] && is_substantial(&facts.keys[i]);
        rows.push(
            Row { selected, key: copy_text(&facts.keys[i]), page: lines[i].page, y: lines[i].y },
        );
        i += 1;
    }
    assert(row_views(rows@) =~= line_rows(model));
    rows
}

/// The size, the text and the place of the row of a line.
struct RowFacts {
    heads: bool,
    size: usize,
    text: String,
}

fn find_row(lines: &Vec<TextLine>, facts: &Facts, i: usize) -> (r: RowFacts)
    requires
        facts.describes(line_views(lines@)),
        i < lines@.len(),
    ensures
        r.heads == heads_row(line_views(lines@), i as int),
        r.size == row_size(line_views(lines@), i as int, lines@.len()),
        r.text@ == row_text(line_views(lines@), i as int, lines@.len()),
{
    let ghost model = line_views(lines@);
    let mut heads = true;
    let mut size: usize = 0;
    let mut text: Vec<char> = Vec::new();
    let mut j: usize = 0;
    assert(text@ =~= row_text(model, i as int, 0));
    while j < lines.len()
        invariant
            j <= lines@.len(),
            i < lines@.len(),
            model == line_views(lines@),
            facts.describes(model),
            heads == (forall|k: int| 0 <= k < j && k < i ==> !same_row(#[trigger] model[k], model[i as int])),
            size <= j,
            size == row_size(model, i as int, j as nat),
            text@ == row_text(model, i as int, j as nat),
        decreases lines@.len() - j,
    {
        let ghost was = heads;
        if is_same_row(lines, facts, j, i) {
            if j < i {
                heads = false;
                assert(same_row(model[j as int], model[i as int]));
            }
            if size > 0 {
                push_text(&mut text, " ");
                push_chars(&mut text, &characters(&facts.texts[j]));
            } else {
                text = characters(&facts.texts[j]);
            }
            size += 1;
        }
        j += 1;
    }
    RowFacts { heads, size, text: text_of(&text) }
}

fn make_band_rows(lines: &Vec<TextLine>, facts: &Facts, found: &Vec<RowFacts>) -> (r: Vec<Row>)
    requires
        facts.describes(line_views(lines@)),
        rows_found(found@, line_views(lines@)),
    ensures
        row_views(r@) == band_rows(line_views(lines@)),
{
    let ghost model = line_views(lines@);
    let mut rows: Vec<Row> = Vec::new();
    let mut i: usize = 0;
    while i < lines.len()
        invariant
            i <= lines@.len(),
            model == line_views(lines@),
            facts.describes(model),
            rows_found(found@, model),
            rows@.len() == i,
            forall|j: int| 0 <= j < i ==> (#[trigger] rows@[j])@ == band_rows(model)[j],
        decreases lines@.len() - i,
    {
        assert(model[i as int] == lines@[i as int]@);
        let row = &found[i];
        assert(row_found(*row, model, i as int));
        let key = normalize_for_comparison(&row.text);
        let selected = row.heads && row.size >= 2 && facts.edges[i] && !is_structural_line(
            &text_of(&trim_chars(&characters(&row.text))),
        ) && is_substantial(&key);
        rows.push(Row { selected, key, page: lines[i].page, y: lines[i].y });
        i += 1;
    }
    assert(row_views(rows@) =~= band_rows(model));
    rows
}

spec fn row_found(row: RowFacts, lines: Seq<LineView>, i: int) -> bool {
    &&& row.heads == heads_row(lines, i)
    &&& row.size == row_size(lines, i, lines.len())
    &&& row.text@ == row_text(lines, i, lines.len())
}

spec fn rows_found(found: Seq<RowFacts>, lines: Seq<LineView>) -> bool {
    found.len() == lines.len() && forall|i: int| 0 <= i < lines.len() ==> row_found(#[trigger] found[i], lines, i)
}

fn find_rows(lines: &Vec<TextLine>, facts: &Facts) -> (r: Vec<RowFacts>)
    requires
        facts.describes(line_views(lines@)),
    ensures
        rows_found(r@, line_views(lines@)),
{
    let mut found: Vec<RowFacts> = Vec::new();
    let mut i: usize = 0;
    while i < lines.len()
        invariant
            i <= lines@.len(),
            facts.describes(line_views(lines@)),
            found@.len() == i,
            forall|j: int| 0 <= j < i ==> row_found(#[trigger] found@[j], line_views(lines@), j),
        decreases lines@.len() - i,
    {
        found.push(find_row(lines, facts, i));
        i += 1;
    }
    found
}

/// Finds which lines repeat on their own.
fn find_repeating(lines: &Vec<TextLine>, facts: &Facts, page_count: u32, threshold: u32, span: Single) -> (r: Vec<
    bool,
>)
    requires
        facts.describes(line_views(lines@)),
        threshold == page_threshold(page_count),
        span == average_span(line_views(lines@)),
    ensures
        r@.len() == lines@.len(),
        forall|i: int| 0 <= i < lines@.len() ==> #[trigger] r@[i] == repeats_alone(line_views(lines@), i, page_count),
{
    let ghost model = line_views(lines@);
    let rows = make_line_rows(lines, facts);
    let mut flags: Vec<bool> = Vec::new();
    let mut i: usize = 0;
    while i < lines.len()
        invariant
            i <= lines@.len(),
            model == line_views(lines@),
            facts.describes(model),
            row_views(rows@) == line_rows(model),
            threshold == page_threshold(page_count),
            span == average_span(model),
            flags@.len() == i,
            forall|j: int| 0 <= j < i ==> #[trigger] flags@[j] == repeats_alone(model, j, page_count),
        decreases lines@.len() - i,
    {
        assert(facts.keys@[i as int]@ == comparable(model[i as int].text()));
        let flag = facts.edges[i] && do_repeat(&rows, &facts.keys[i], threshold, span) && !is_protected(lines, facts, i);
        flags.push(flag);
        i += 1;
    }
    flags
}

/// Finds which lines repeat an earlier one on their own.
fn find_removed_alone(lines: &Vec<TextLine>, facts: &Facts, repeating: &Vec<bool>, page_count: u32) -> (r: Vec<bool>)
    requires
        facts.describes(line_views(lines@)),
        repeating@.len() == lines@.len(),
        forall|i: int|
            0 <= i < lines@.len() ==> #[trigger] repeating@[i] == repeats_alone(line_views(lines@), i, page_count),
    ensures
        r@.len() == lines@.len(),
        forall|i: int| 0 <= i < lines@.len() ==> #[trigger] r@[i] == removed_alone(line_views(lines@), i, page_count),
{
    let ghost model = line_views(lines@);
    let mut flags: Vec<bool> = Vec::new();
    let mut i: usize = 0;
    while i < lines.len()
        invariant
            i <= lines@.len(),
            model == line_views(lines@),
            facts.describes(model),
            repeating@.len() == lines@.len(),
            forall|k: int| 0 <= k < lines@.len() ==> #[trigger] repeating@[k] == repeats_alone(model, k, page_count),
            flags@.len() == i,
            forall|j: int| 0 <= j < i ==> #[trigger] flags@[j] == removed_alone(model, j, page_count),
        decreases lines@.len() - i,
    {
        let mut flag = false;
        if repeating[i] {
            flag = is_behind_first(lines, facts, repeating, i, page_count);
        }
        flags.push(flag);
        i += 1;
    }
    flags
}

fn is_behind_first(lines: &Vec<TextLine>, facts: &Facts, repeating: &Vec<bool>, i: usize, page_count: u32) -> (r: bool)
    requires
        facts.describes(line_views(lines@)),
        i < lines@.len(),
        repeating@.len() == lines@.len(),
        forall|k: int|
            0 <= k < lines@.len() ==> #[trigger] repeating@[k] == repeats_alone(line_views(lines@), k, page_count),
        repeats_alone(line_views(lines@), i as int, page_count),
    ensures
        r == removed_alone(line_views(lines@), i as int, page_count),
{
    let ghost model = line_views(lines@);
    let ghost key = comparable(model[i as int].text());
    assert(model[i as int] == lines@[i as int]@);
    assert(facts.keys@[i as int]@ == key);
    let mut j: usize = 0;
    while j < i
        invariant
            j <= i < lines@.len(),
            model == line_views(lines@),
            facts.describes(model),
            model[i as int] == lines@[i as int]@,
            key == comparable(model[i as int].text()),
            facts.keys@[i as int]@ == key,
            repeating@.len() == lines@.len(),
            forall|k: int| 0 <= k < lines@.len() ==> #[trigger] repeating@[k] == repeats_alone(model, k, page_count),
            repeats_alone(model, i as int, page_count),
            forall|k: int|
                0 <= k < j && repeats_alone(model, k, page_count) ==> comparable((#[trigger] model[k]).text()) != key,
        decreases i - j,
    {
        assert(model[j as int] == lines@[j as int]@);
        assert(facts.keys@[j as int]@ == comparable(model[j as int].text()));
        assert(repeating@[j as int] == repeats_alone(model, j as int, page_count));
        if repeating[j] && facts.keys[j] == facts.keys[i] {
            let earlier = lines[j].page < lines[i].page;
            proof {
                if !earlier {
                    assert forall|m: int|
                        !(0 <= m < i && repeats_alone(model, m, page_count) && comparable((#[trigger] model[m]).text())
                            == key && (forall|k: int|
                            0 <= k < m && repeats_alone(model, k, page_count) ==> comparable((#[trigger] model[k]).text())
                                != key) && model[m].page < model[i as int].page) by {
                        if m < j {
                        } else if m > j {
                            assert(comparable(model[j as int].text()) == key);
                        }
                    }
                }
            }
            return earlier;
        }
        j += 1;
    }
    false
}

/// Finds which lines head a row that repeats an earlier one.
fn find_removed_rows(
    lines: &Vec<TextLine>,
    facts: &Facts,
    found: &Vec<RowFacts>,
    page_count: u32,
    threshold: u32,
    span: Single,
) -> (r: Vec<bool>)
    requires
        facts.describes(line_views(lines@)),
        rows_found(found@, line_views(lines@)),
        threshold == page_threshold(page_count),
        span == average_span(line_views(lines@)),
    ensures
        r@.len() == lines@.len(),
        forall|i: int| 0 <= i < lines@.len() ==> #[trigger] r@[i] == removed_row(line_views(lines@), i, page_count),
{
    let ghost model = line_views(lines@);
    let rows = make_band_rows(lines, facts, found);
    assert(row_views(rows@).len() == rows@.len());
    let mut flags: Vec<bool> = Vec::new();
    let mut i: usize = 0;
    while i < lines.len()
        invariant
            i <= lines@.len(),
            model == line_views(lines@),
            facts.describes(model),
            rows_found(found@, model),
            row_views(rows@) == band_rows(model),
            rows@.len() == lines@.len(),
            threshold == page_threshold(page_count),
            span == average_span(model),
            flags@.len() == i,
            forall|j: int| 0 <= j < i ==> #[trigger] flags@[j] == removed_row(model, j, page_count),
        decreases lines@.len() - i,
    {
        let row = &found[i];
        assert(row_found(*row, model, i as int));
        assert(row_views(rows@)[i as int] == rows@[i as int]@);
        assert(rows@[i as int].key@ == comparable(row_text(model, i as int, model.len())));
        let flag = row.heads && row.size >= 2 && facts.edges[i] && !is_structural_line(
            &text_of(&trim_chars(&characters(&row.text))),
        ) && do_repeat(&rows, &rows[i].key, threshold, span) && is_row_seen_before(lines, facts, found, &rows, i)
            && !is_protected(lines, facts, i);
        flags.push(flag);
        i += 1;
    }
    flags
}

fn is_row_seen_before(
    lines: &Vec<TextLine>,
    facts: &Facts,
    found: &Vec<RowFacts>,
    rows: &Vec<Row>,
    i: usize,
) -> (r: bool)
    requires
        facts.describes(line_views(lines@)),
        rows_found(found@, line_views(lines@)),
        row_views(rows@) == band_rows(line_views(lines@)),
        rows@.len() == lines@.len(),
        i < lines@.len(),
    ensures
        ({
            let model = line_views(lines@);
            r == exists|j: int|
                0 <= j < model.len() && heads_edge_row(model, j) && comparable(row_text(model, j, model.len()))
                    == comparable(row_text(model, i as int, model.len())) && (#[trigger] model[j]).page
                    < model[i as int].page
        }),
{
    let ghost model = line_views(lines@);
    let ghost key = comparable(row_text(model, i as int, model.len()));
    assert(model[i as int] == lines@[i as int]@);
    assert(row_views(rows@)[i as int] == rows@[i as int]@);
    let mut j: usize = 0;
    while j < lines.len()
        invariant
            j <= lines@.len(),
            i < lines@.len(),
            model == line_views(lines@),
            facts.describes(model),
            rows_found(found@, model),
            row_views(rows@) == band_rows(model),
            rows@.len() == lines@.len(),
            model[i as int] == lines@[i as int]@,
            key == comparable(row_text(model, i as int, model.len())),
            rows@[i as int].key@ == key,
            forall|k: int|
                0 <= k < j ==> !(heads_edge_row(model, k) && comparable(row_text(model, k, model.len())) == key && (
                #[trigger] model[k]).page < model[i as int].page),
        decreases lines@.len() - j,
    {
        assert(model[j as int] == lines@[j as int]@);
        assert(row_found(found@[j as int], model, j as int));
        assert(row_views(rows@)[j as int] == rows@[j as int]@);
        if found[j].heads && found[j].size >= 2 && facts.edges[j] && rows[j].key == rows[i].key && lines[j].page
            < lines[i].page {
            return true;
        }
        j += 1;
    }
    false
}

/// Finds the first line of the row of a line.
fn find_head(lines: &Vec<TextLine>, facts: &Facts, i: usize) -> (r: usize)
    requires
        facts.describes(line_views(lines@)),
        i < lines@.len(),
    ensures
        r <= i,
        in_row_of(line_views(lines@), i as int, r as int),
        forall|h: int| in_row_of(line_views(lines@), i as int, h) ==> h == r,
{
    let ghost model = line_views(lines@);
    let mut h: usize = 0;
    while !is_same_row(lines, facts, h, i)
        invariant
            h <= i < lines@.len(),
            model == line_views(lines@),
            facts.describes(model),
            forall|k: int| 0 <= k < h ==> !same_row(#[trigger] model[k], model[i as int]),
        decreases i - h,
    {
        h += 1;
    }
    assert forall|k: int| 0 <= k < h implies !same_row(#[trigger] model[k], model[h as int]) by {
        assert(!same_row(model[k], model[i as int]));
    }
    assert forall|other: int| in_row_of(model, i as int, other) implies other == h by {
        if other < h {
            assert(!same_row(model[other], model[i as int]));
        } else if other > h {
            assert(same_row(model[h as int], model[other]));
        }
    }
    h
}

fn is_any_removed(lines: &Vec<TextLine>, facts: &Facts, h: usize, alone: &Vec<bool>, page_count: u32) -> (r: bool)
    requires
        facts.describes(line_views(lines@)),
        h < lines@.len(),
        alone@.len() == lines@.len(),
        forall|i: int|
            0 <= i < lines@.len() ==> #[trigger] alone@[i] == removed_alone(line_views(lines@), i, page_count),
    ensures
        ({
            let model = line_views(lines@);
            r == exists|j: int|
                0 <= j < model.len() && same_row(model[h as int], #[trigger] model[j]) && removed_alone(
                    model,
                    j,
                    page_count,
                )
        }),
{
    let ghost model = line_views(lines@);
    let mut j: usize = 0;
    while j < lines.len()
        invariant
            j <= lines@.len(),
            h < lines@.len(),
            model == line_views(lines@),
            facts.describes(model),
            alone@.len() == lines@.len(),
            forall|i: int| 0 <= i < lines@.len() ==> #[trigger] alone@[i] == removed_alone(model, i, page_count),
            forall|k: int|
                0 <= k < j ==> !(same_row(model[h as int], #[trigger] model[k]) && removed_alone(model, k, page_count)),
        decreases lines@.len() - j,
    {
        assert(alone@[j as int] == removed_alone(model, j as int, page_count));
        if alone[j] && is_same_row(lines, facts, h, j) {
            assert(same_row(model[h as int], model[j as int]));
            return true;
        }
        j += 1;
    }
    false
}

/// Keeps the lines whose flag is not set.
pub fn keep_lines(lines: &Vec<TextLine>, flags: &Vec<bool>) -> (r: Vec<TextLine>)
    requires
        flags@.len() == lines@.len(),
    ensures
        line_views(r@) == kept_lines(line_views(lines@), flags@, lines@.len()),
{
    let ghost model = line_views(lines@);
    let mut out: Vec<TextLine> = Vec::new();
    let mut i: usize = 0;
    assert(line_views(out@) =~= kept_lines(model, flags@, 0));
    while i < lines.len()
        invariant
            i <= lines@.len(),
            flags@.len() == lines@.len(),
            model == line_views(lines@),
            line_views(out@) == kept_lines(model, flags@, i as nat),
        decreases lines@.len() - i,
    {
        assert(model[i as int] == lines@[i as int]@);
        if !flags[i] {
            let ghost before = line_views(out@);
            out.push(copy_line(&lines[i]));
            assert(line_views(out@) =~= before.push(model[i as int]));
        }
        i += 1;
    }
    out
}

/// Strips lines that repeat on many pages: running headers and footers.
///
/// A line is one where its text, without page numbers, appears on enough pages
/// in the margin at a consistent height. Its first appearance stays. A row of
/// several lines is compared as a whole too, and goes as a whole, and a row
/// with a structural line stays.
pub fn strip_repeated_lines(lines: Vec<TextLine>, page_count: u32) -> (r: Vec<TextLine>)
    ensures
        line_views(r@) == without_repeated(line_views(lines@), page_count),
{
    if page_count < LEAST_REPEATED_PAGES {
        return lines;
    }
    let ghost model = line_views(lines@);
    let facts = find_facts(&lines);
    let part: u64 = page_count as u64 * 30 / 100;
    let threshold: u32 = if part > LEAST_REPEATED_PAGES as u64 {
        part as u32
    } else {
        LEAST_REPEATED_PAGES
    };
    let span = find_average_span(&lines);
    let repeating = find_repeating(&lines, &facts, page_count, threshold, span);
    let alone = find_removed_alone(&lines, &facts, &repeating, page_count);
    let found = find_rows(&lines, &facts);
    let rows = find_removed_rows(&lines, &facts, &found, page_count, threshold, span);
    let mut flags: Vec<bool> = Vec::new();
    let mut i: usize = 0;
    while i < lines.len()
        invariant
            i <= lines@.len(),
            model == line_views(lines@),
            facts.describes(model),
            alone@.len() == lines@.len(),
            rows@.len() == lines@.len(),
            forall|j: int| 0 <= j < lines@.len() ==> #[trigger] alone@[j] == removed_alone(model, j, page_count),
            forall|j: int| 0 <= j < lines@.len() ==> #[trigger] rows@[j] == removed_row(model, j, page_count),
            flags@.len() == i,
            forall|j: int| 0 <= j < i ==> #[trigger] flags@[j] == removed(model, j, page_count),
        decreases lines@.len() - i,
    {
        let h = find_head(&lines, &facts, i);
        assert(alone@[i as int] == removed_alone(model, i as int, page_count));
        assert(rows@[h as int] == removed_row(model, h as int, page_count));
        assert(facts.edges@[h as int] == at_edge(model, h as int));
        let flag = alone[i] || rows[h] || (facts.edges[h] && is_any_removed(&lines, &facts, h, &alone, page_count)
            && !is_protected(&lines, &facts, h));
        assert(flag == removed(model, i as int, page_count));
        flags.push(flag);
        i += 1;
    }
    assert(flags@ =~= removed_flags(model, page_count));
    keep_lines(&lines, &flags)
}

/// A line in a row with a structural line, or in a neighbouring band of one,
/// is never removed.
pub proof fn law_structural_rows_stay(lines: Seq<LineView>, i: int, page_count: u32)
    requires
        0 <= i < lines.len(),
        protected(lines, i),
    ensures
        !removed(lines, i, page_count),
{
    assert forall|h: int| #[trigger] in_row_of(lines, i, h) implies protected(lines, h) by {
        let j = choose|j: int|
            0 <= j < lines.len() && (#[trigger] lines[j]).page == lines[i].page && -1 <= band(lines[j]) - band(
                lines[i],
            ) <= 1 && is_structural(lines[j]);
        assert(lines[j].page == lines[h].page && -1 <= band(lines[j]) - band(lines[h]) <= 1);
    }
}

/// A structural line protects itself.
pub proof fn law_structural_lines_are_protected(lines: Seq<LineView>, i: int)
    requires
        0 <= i < lines.len(),
        is_structural(lines[i]),
    ensures
        protected(lines, i),
{
    assert(lines[i].page == lines[i].page && -1 <= band(lines[i]) - band(lines[i]) <= 1);
}

/// Of the lines that repeat on their own with one text, the first is not
/// removed on its own.
pub proof fn law_first_appearance_stays(lines: Seq<LineView>, i: int, page_count: u32)
    requires
        0 <= i < lines.len(),
        forall|j: int|
            0 <= j < i && repeats_alone(lines, j, page_count) ==> comparable((#[trigger] lines[j]).text())
                != comparable(lines[i].text()),
    ensures
        !removed_alone(lines, i, page_count),
{
}

proof fn lemma_kept_lines(lines: Seq<LineView>, flags: Seq<bool>, n: nat)
    requires
        n <= lines.len(),
        flags.len() == lines.len(),
    ensures
        kept_lines(lines, flags, n).len() <= n,
        forall|k: int| 0 <= k < kept_lines(lines, flags, n).len() ==> lines.contains(#[trigger] kept_lines(lines, flags, n)[k]),
        forall|i: int| 0 <= i < n && !flags[i] ==> kept_lines(lines, flags, n).contains(#[trigger] lines[i]),
    decreases n,
{
    if n > 0 {
        lemma_kept_lines(lines, flags, (n - 1) as nat);
        let before = kept_lines(lines, flags, (n - 1) as nat);
        let after = kept_lines(lines, flags, n);
        assert(lines[n - 1] == lines[(n - 1) as int]);
        assert forall|i: int| 0 <= i < n && !flags[i] implies after.contains(#[trigger] lines[i]) by {
            if i < n - 1 {
                assert(before.contains(lines[i]));
                let k = choose|k: int| 0 <= k < before.len() && before[k] == lines[i];
                assert(after[k] == lines[i]);
            } else {
                assert(after[after.len() - 1] == lines[i]);
            }
        }
    }
}

/// Stripping only drops lines: what is left was there, and a line that is not
/// removed is left.
pub proof fn law_stripping_only_drops(lines: Seq<LineView>, page_count: u32)
    ensures
        forall|k: int|
            0 <= k < without_repeated(lines, page_count).len() ==> lines.contains(
                #[trigger] without_repeated(lines, page_count)[k],
            ),
        forall|i: int|
            0 <= i < lines.len() && !removed(lines, i, page_count) ==> without_repeated(lines, page_count).contains(
                #[trigger] lines[i],
            ),
{
    if page_count >= LEAST_REPEATED_PAGES {
        let flags = removed_flags(lines, page_count);
        lemma_kept_lines(lines, flags, lines.len());
        assert forall|i: int| 0 <= i < lines.len() && !removed(lines, i, page_count) implies without_repeated(
            lines,
            page_count,
        ).contains(#[trigger] lines[i]) by {
            assert(!flags[i]);
        }
    }
}

} // verus!
