//! Superscript and subscript detection.
//!
//! Footnote and affiliation markers, exponents and chemistry indices are
//! rendered as separate text items with a much smaller font size and a
//! baseline offset from the word they annotate. This module finds those glyph
//! runs, fuses runs of digits into their word as Unicode super- or subscript
//! characters, and turns every other run into a single item with a baseline
//! shift.

use crate::single::{total_key, Single};
use crate::sorting::{has_keys, sort_indices, stably_sorted};
use crate::text::{characters, push_chars, text_of, trim_chars, trimmed};
use crate::text_utils::{effective_width, width_or_estimate};
use crate::types::{copy_item, views, ItemType, ItemView, TextItem};
use crate::unicode::{alphabetic, ascii_digit, is_ascii_digit, is_white_space, numeric, white_space};
use vstd::prelude::*;

verus! {

/// `0.75`: the largest ratio of script size to anchor size.
pub const SCRIPT_MAX_RATIO_BITS: u32 = 0x3f40_0000;

/// `0.4`: the smallest ratio of script size to anchor size.
pub const SCRIPT_MIN_RATIO_BITS: u32 = 0x3ecc_cccd;

/// `0.1`: the least baseline offset, as a fraction of the anchor size.
pub const SCRIPT_MIN_SHIFT_BITS: u32 = 0x3dcc_cccd;

/// `0.6`: the largest raise, as a fraction of the anchor size.
pub const SCRIPT_MAX_RAISE_BITS: u32 = 0x3f19_999a;

/// `0.45`: the largest drop, as a fraction of the anchor size.
pub const SCRIPT_MAX_DROP_BITS: u32 = 0x3ee6_6666;

/// `0.5`: how far a run may overlap its anchor, as a fraction of its size.
pub const SCRIPT_ATTACH_OVERLAP_BITS: u32 = 0x3f00_0000;

/// `0.25`: how far a run may stand from its anchor, as a fraction of its size.
pub const SCRIPT_ATTACH_GAP_BITS: u32 = 0x3e80_0000;

/// `0.35`: the largest gap between the glyphs of a run, as a fraction of their
/// size.
pub const SCRIPT_CHAIN_GAP_BITS: u32 = 0x3eb3_3333;

/// `0.2`: the largest difference in size of two glyphs of a run, as a fraction.
pub const SCRIPT_SIZE_TOLERANCE_BITS: u32 = 0x3e4c_cccd;

/// `0.75`: how far the baselines of a run's glyphs may differ, in points.
pub const SCRIPT_RUN_BASELINE_TOL_BITS: u32 = 0x3f40_0000;

/// `0.01`: the difference between two gaps that counts, in points.
pub const SCRIPT_GAP_TIE_BITS: u32 = 0x3c23_d70a;

/// `2.0`
pub const TWO_BITS: u32 = 0x4000_0000;

/// `5.0`: the height of a rough line, in points.
pub const ROUGH_LINE_BITS: u32 = 0x40a0_0000;

/// The longest run, in characters.
pub const SCRIPT_MAX_RUN_CHARS: usize = 12;

/// The longest glyph, in characters.
pub const SCRIPT_MAX_GLYPH_CHARS: usize = 8;

/// The most letters of a glyph.
pub const SCRIPT_MAX_GLYPH_LETTERS: usize = 4;

/// The most digits that are fused into a word.
pub const SCRIPT_MAX_FUSED_DIGITS: usize = 4;

/// How often a script of a script is followed to its body text.
pub const SCRIPT_MAX_NESTING: usize = 8;

/// A glyph run detected as the super- or subscript of an anchor.
pub struct ScriptRun {
    /// Indices of the run's glyphs, from left to right.
    pub glyphs: Vec<usize>,
    /// Index of the text that the run is attached to.
    pub anchor: usize,
    /// The anchor precedes the run rather than following it.
    pub anchor_on_left: bool,
}

/// What a [`ScriptRun`] is.
#[verifier::ext_equal]
pub struct RunView {
    pub glyphs: Seq<usize>,
    pub anchor: usize,
    pub anchor_on_left: bool,
}

impl View for ScriptRun {
    type V = RunView;

    open spec fn view(&self) -> RunView {
        RunView { glyphs: self.glyphs@, anchor: self.anchor, anchor_on_left: self.anchor_on_left }
    }
}

pub open spec fn run_views(runs: Seq<ScriptRun>) -> Seq<RunView> {
    Seq::new(runs.len(), |i: int| runs[i]@)
}

/// Lists of indices.
pub open spec fn lists(v: Seq<Vec<usize>>) -> Seq<Seq<usize>> {
    Seq::new(v.len(), |i: int| v[i]@)
}

/// All indices are below `n`.
pub open spec fn below(list: Seq<usize>, n: nat) -> bool {
    forall|i: int| 0 <= i < list.len() ==> (#[trigger] list[i]) < n
}

/// An item that can take part in script detection, as a glyph or an anchor.
pub open spec fn participant(item: ItemView) -> bool {
    &&& item.item_type is Text || item.item_type is Link
    &&& Single { bits: 0 }.spec_less(item.font_size)
    &&& trimmed(item.text).len() > 0
}

pub fn is_script_participant(item: &TextItem) -> (r: bool)
    ensures
        r == participant(item@),
{
    let is_text = match &item.item_type {
        ItemType::Text => true,
        ItemType::Link(_) => true,
        _ => false,
    };
    is_text && Single::zero().less(item.font_size) && trim_chars(&characters(&item.text)).len() > 0
}

/// Punctuation and symbols that appear inside markers and indices, besides
/// letters and digits.
pub open spec fn marker_symbol(c: char) -> bool {
    ||| c == '*' || c == '\u{2020}' || c == '\u{2021}' || c == '\u{a7}' || c == '\u{b6}' || c == '\u{2016}'
    ||| c == '#' || c == '\u{2217}' || c == '\u{204e}' || c == '\u{22c6}' || c == '\u{ae}' || c == '\u{2122}'
    ||| c == '\u{a9}' || c == ',' || c == ';' || c == ':' || c == '.' || c == '(' || c == ')' || c == '['
    ||| c == ']' || c == '{' || c == '}' || c == '+' || c == '-' || c == '\u{2212}' || c == '\u{2013}'
    ||| c == '/' || c == '\'' || c == '\u{2032}' || c == '\u{2033}'
}

pub fn is_script_marker_symbol(c: char) -> (r: bool)
    ensures
        r == marker_symbol(c),
{
    c == '*' || c == '\u{2020}' || c == '\u{2021}' || c == '\u{a7}' || c == '\u{b6}' || c == '\u{2016}' || c == '#'
        || c == '\u{2217}' || c == '\u{204e}' || c == '\u{22c6}' || c == '\u{ae}' || c == '\u{2122}' || c
        == '\u{a9}' || c == ',' || c == ';' || c == ':' || c == '.' || c == '(' || c == ')' || c == '[' || c == ']'
        || c == '{' || c == '}' || c == '+' || c == '-' || c == '\u{2212}' || c == '\u{2013}' || c == '/' || c
        == '\'' || c == '\u{2032}' || c == '\u{2033}'
}

/// The number of letters in a text.
pub open spec fn letter_count(s: Seq<char>) -> nat
    decreases s.len(),
{
    if s.len() == 0 {
        0
    } else {
        letter_count(s.drop_last()) + if alphabetic(s.last()) {
            1nat
        } else {
            0nat
        }
    }
}

/// A character that a script glyph can have.
pub open spec fn glyph_character(c: char) -> bool {
    !white_space(c) && (alphabetic(c) || numeric(c) || marker_symbol(c))
}

/// A text with the shape of a script glyph: short, of letters, digits and
/// marker symbols only.
pub open spec fn glyph_text(s: Seq<char>) -> bool {
    &&& 0 < s.len() <= SCRIPT_MAX_GLYPH_CHARS
    &&& letter_count(s) <= SCRIPT_MAX_GLYPH_LETTERS
    &&& forall|i: int| 0 <= i < s.len() ==> glyph_character(#[trigger] s[i])
}

pub fn is_script_glyph_text(text: &str) -> (r: bool)
    ensures
        r == glyph_text(text@),
{
    let chars = characters(text);
    if chars.len() == 0 || chars.len() > SCRIPT_MAX_GLYPH_CHARS {
        return false;
    }
    let mut letters: usize = 0;
    let mut i: usize = 0;
    while i < chars.len()
        invariant
            i <= chars@.len() <= SCRIPT_MAX_GLYPH_CHARS,
            chars@ == text@,
            letters == letter_count(text@.take(i as int)),
            letters <= i,
            forall|j: int| 0 <= j < i ==> glyph_character(#[trigger] text@[j]),
        decreases chars@.len() - i,
    {
        let c: char = chars[i];
        assert(c == text@[i as int]);
        assert(text@.take(i + 1).drop_last() =~= text@.take(i as int));
        if is_white_space(c) {
            return false;
        }
        if c.is_alphabetic() {
            letters += 1;
        } else if !(c.is_numeric() || is_script_marker_symbol(c)) {
            return false;
        }
        i += 1;
    }
    assert(text@.take(text@.len() as int) =~= text@);
    letters <= SCRIPT_MAX_GLYPH_LETTERS
}

/// The right edge of an item.
pub open spec fn right_edge(item: ItemView) -> Single {
    item.x.spec_plus(width_or_estimate(item))
}

fn item_right(item: &TextItem) -> (r: Single)
    ensures
        r == right_edge(item@),
{
    item.x.plus(effective_width(item))
}

/// The sizes and heights of a run and a body let the one be a script of the
/// other.
pub open spec fn script_shape(first: ItemView, run_size: Single, body: ItemView) -> bool {
    let ratio = run_size.spec_over(body.font_size);
    let dy = first.y.spec_minus(body.y);
    &&& Single { bits: SCRIPT_MIN_RATIO_BITS }.spec_at_most(ratio)
    &&& ratio.spec_at_most(Single { bits: SCRIPT_MAX_RATIO_BITS })
    &&& !dy.spec_absolute().spec_less(body.font_size.spec_times(Single { bits: SCRIPT_MIN_SHIFT_BITS }))
    &&& !body.font_size.spec_times(Single { bits: SCRIPT_MAX_RAISE_BITS }).spec_less(dy)
    &&& !dy.spec_less(body.font_size.spec_negated().spec_times(Single { bits: SCRIPT_MAX_DROP_BITS }))
}

/// A gap at which a run is attached to a body.
pub open spec fn attached(body: ItemView, gap: Single) -> bool {
    &&& body.font_size.spec_negated().spec_times(Single { bits: SCRIPT_ATTACH_OVERLAP_BITS }).spec_at_most(gap)
    &&& gap.spec_at_most(body.font_size.spec_times(Single { bits: SCRIPT_ATTACH_GAP_BITS }))
}

/// The middle between a left and a right edge.
pub open spec fn middle(left: Single, right: Single) -> Single {
    left.spec_plus(right).spec_over(Single { bits: TWO_BITS })
}

/// The attachment gap between a run and a body that anchors it, and whether
/// the body stands on its left. The body's character that faces the run is no
/// white space.
pub open spec fn anchor_gap(first: ItemView, last: ItemView, run_size: Single, body: ItemView) -> Option<
    (Single, bool),
> {
    if !script_shape(first, run_size, body) {
        None
    } else if middle(body.x, right_edge(body)).spec_at_most(middle(first.x, right_edge(last))) {
        let gap = first.x.spec_minus(right_edge(body));
        if attached(body, gap) && body.text.len() > 0 && !white_space(body.text.last()) {
            Some((gap.spec_max(Single { bits: 0 }), true))
        } else {
            None
        }
    } else {
        let gap = body.x.spec_minus(right_edge(last));
        if attached(body, gap) && body.text.len() > 0 && !white_space(body.text[0]) {
            Some((gap.spec_max(Single { bits: 0 }), false))
        } else {
            None
        }
    }
}

pub fn script_anchor_gap(first: &TextItem, last: &TextItem, run_size: Single, body: &TextItem) -> (r: Option<
    (Single, bool),
>)
    ensures
        r == anchor_gap(first@, last@, run_size, body@),
{
    let size = body.font_size;
    let ratio = run_size.over(size);
    if !((Single { bits: SCRIPT_MIN_RATIO_BITS }).at_most(ratio) && ratio.at_most(
        Single { bits: SCRIPT_MAX_RATIO_BITS },
    )) {
        return None;
    }
    let dy = first.y.minus(body.y);
    if dy.absolute().less(size.times(Single { bits: SCRIPT_MIN_SHIFT_BITS })) || size.times(
        Single { bits: SCRIPT_MAX_RAISE_BITS },
    ).less(dy) || dy.less(size.negated().times(Single { bits: SCRIPT_MAX_DROP_BITS })) {
        return None;
    }
    let low = size.negated().times(Single { bits: SCRIPT_ATTACH_OVERLAP_BITS });
    let high = size.times(Single { bits: SCRIPT_ATTACH_GAP_BITS });
    let two = Single { bits: TWO_BITS };
    let body_center = body.x.plus(item_right(body)).over(two);
    let run_center = first.x.plus(item_right(last)).over(two);
    let chars = characters(&body.text);
    let on_left = body_center.at_most(run_center);
    let gap = if on_left {
        first.x.minus(item_right(body))
    } else {
        body.x.minus(item_right(last))
    };
    if !(low.at_most(gap) && gap.at_most(high)) || chars.len() == 0 {
        return None;
    }
    let facing: char = if on_left {
        chars[chars.len() - 1]
    } else {
        chars[0]
    };
    if is_white_space(facing) {
        None
    } else {
        Some((gap.max(Single::zero()), on_left))
    }
}

/// The position of a number in the total order, as a sort key.
fn sort_key(x: Single) -> (r: i64)
    ensures
        r == total_key(x.bits),
{
    if x.bits < 0x8000_0000 {
        x.bits as i64
    } else {
        0x8000_0000i64 - x.bits as i64 - 1
    }
}

/// The sort keys of items: first by one coordinate, then by the other.
pub open spec fn page_keys(items: Seq<ItemView>) -> Seq<(i64, i64)> {
    Seq::new(items.len(), |i: int| (items[i].page as i64, 0i64))
}

pub open spec fn y_keys(items: Seq<ItemView>) -> Seq<(i64, i64)> {
    Seq::new(items.len(), |i: int| (total_key(items[i].y.bits) as i64, 0i64))
}

pub open spec fn x_keys(items: Seq<ItemView>) -> Seq<(i64, i64)> {
    Seq::new(items.len(), |i: int| (total_key(items[i].x.bits) as i64, 0i64))
}

pub open spec fn xy_keys(items: Seq<ItemView>) -> Seq<(i64, i64)> {
    Seq::new(
        items.len(),
        |i: int| (total_key(items[i].x.bits) as i64, total_key(items[i].y.bits) as i64),
    )
}

/// Which keys are made.
#[derive(Clone, Copy, Debug, PartialEq, Eq, Structural)]
enum KeyKind {
    Page,
    Y,
    X,
    XThenY,
}

spec fn keys_of(items: Seq<ItemView>, kind: KeyKind) -> Seq<(i64, i64)> {
    match kind {
        KeyKind::Page => page_keys(items),
        KeyKind::Y => y_keys(items),
        KeyKind::X => x_keys(items),
        KeyKind::XThenY => xy_keys(items),
    }
}

fn make_keys(items: &Vec<TextItem>, kind: KeyKind) -> (r: Vec<(i64, i64)>)
    ensures
        r@ == keys_of(views(items@), kind),
        r@.len() == items@.len(),
{
    let mut keys: Vec<(i64, i64)> = Vec::new();
    let mut i: usize = 0;
    while i < items.len()
        invariant
            i <= items@.len(),
            keys@.len() == i,
            forall|j: int| 0 <= j < i ==> #[trigger] keys@[j] == keys_of(views(items@), kind)[j],
        decreases items@.len() - i,
    {
        let item = &items[i];
        assert(views(items@)[i as int] == items@[i as int]@);
        let key: (i64, i64) = match kind {
            KeyKind::Page => (item.page as i64, 0i64),
            KeyKind::Y => (sort_key(item.y), 0i64),
            KeyKind::X => (sort_key(item.x), 0i64),
            KeyKind::XThenY => (sort_key(item.x), sort_key(item.y)),
        };
        keys.push(key);
        i += 1;
    }
    assert(keys@ =~= keys_of(views(items@), kind));
    keys
}

/// The indices of the participants, in order.
pub open spec fn participants(items: Seq<ItemView>, n: nat) -> Seq<usize>
    decreases n,
{
    if n == 0 {
        Seq::empty()
    } else {
        let before = participants(items, (n - 1) as nat);
        if participant(items[n - 1]) {
            before.push((n - 1) as usize)
        } else {
            before
        }
    }
}

/// A list parted wherever the page changes.
pub open spec fn page_groups(items: Seq<ItemView>, list: Seq<usize>) -> Seq<Seq<usize>>
    decreases list.len(),
{
    if list.len() == 0 {
        Seq::empty()
    } else {
        let before = page_groups(items, list.drop_last());
        let x = list.last();
        if before.len() > 0 && items[before.last().last() as int].page == items[x as int].page {
            before.drop_last().push(before.last().push(x))
        } else {
            before.push(seq![x])
        }
    }
}

/// The largest font size in a list, at least 0.
pub open spec fn largest_size(items: Seq<ItemView>, list: Seq<usize>) -> Single
    decreases list.len(),
{
    if list.len() == 0 {
        Single { bits: 0 }
    } else {
        largest_size(items, list.drop_last()).spec_max(items[list.last() as int].font_size)
    }
}

/// The indices of a list whose texts have the shape of a glyph, in order.
pub open spec fn glyph_shaped(items: Seq<ItemView>, list: Seq<usize>) -> Seq<usize>
    decreases list.len(),
{
    if list.len() == 0 {
        Seq::empty()
    } else {
        let before = glyph_shaped(items, list.drop_last());
        if glyph_text(items[list.last() as int].text) {
            before.push(list.last())
        } else {
            before
        }
    }
}

/// A glyph continues a run: on the same baseline, of similar size, touching.
pub open spec fn continues(last: ItemView, glyph: ItemView) -> bool {
    let size = last.font_size.spec_max(glyph.font_size);
    let gap = glyph.x.spec_minus(right_edge(last));
    &&& last.y.spec_minus(glyph.y).spec_absolute().spec_at_most(Single { bits: SCRIPT_RUN_BASELINE_TOL_BITS })
    &&& last.font_size.spec_minus(glyph.font_size).spec_absolute().spec_at_most(
        size.spec_times(Single { bits: SCRIPT_SIZE_TOLERANCE_BITS }),
    )
    &&& gap.spec_at_most(size.spec_times(Single { bits: SCRIPT_CHAIN_GAP_BITS }))
    &&& size.spec_negated().spec_at_most(gap)
}

fn continues_run(last: &TextItem, glyph: &TextItem) -> (r: bool)
    ensures
        r == continues(last@, glyph@),
{
    let size = last.font_size.max(glyph.font_size);
    let gap = glyph.x.minus(item_right(last));
    last.y.minus(glyph.y).absolute().at_most(Single { bits: SCRIPT_RUN_BASELINE_TOL_BITS }) && last.font_size.minus(
        glyph.font_size,
    ).absolute().at_most(size.times(Single { bits: SCRIPT_SIZE_TOLERANCE_BITS })) && gap.at_most(
        size.times(Single { bits: SCRIPT_CHAIN_GAP_BITS }),
    ) && size.negated().at_most(gap)
}

/// The last of the first `n` chains that a glyph continues.
pub open spec fn continued_chain(items: Seq<ItemView>, chains: Seq<Seq<usize>>, g: usize, n: nat) -> Option<nat>
    decreases n,
{
    if n == 0 {
        None
    } else if continues(items[chains[n - 1].last() as int], items[g as int]) {
        Some((n - 1) as nat)
    } else {
        continued_chain(items, chains, g, (n - 1) as nat)
    }
}

/// The chains that glyphs form, taken in turn.
pub open spec fn chains_of(items: Seq<ItemView>, glyphs: Seq<usize>) -> Seq<Seq<usize>>
    decreases glyphs.len(),
{
    if glyphs.len() == 0 {
        Seq::empty()
    } else {
        let before = chains_of(items, glyphs.drop_last());
        let g = glyphs.last();
        match continued_chain(items, before, g, before.len()) {
            Some(k) => before.update(k as int, before[k as int].push(g)),
            None => before.push(seq![g]),
        }
    }
}

/// The number of characters in the texts of a list.
pub open spec fn text_length(items: Seq<ItemView>, list: Seq<usize>) -> nat
    decreases list.len(),
{
    if list.len() == 0 {
        0
    } else {
        text_length(items, list.drop_last()) + items[list.last() as int].text.len()
    }
}

/// The best anchor found so far: its gap, its index and its side.
pub type Anchor = Option<(Single, usize, bool)>;

/// A nearer anchor is better; among equally near ones, one on the left.
pub open spec fn better(best: Anchor, gap: Single, on_left: bool) -> bool {
    match best {
        None => true,
        Some((best_gap, _, best_left)) => {
            ||| gap.spec_less(best_gap.spec_minus(Single { bits: SCRIPT_GAP_TIE_BITS }))
            ||| gap.spec_minus(best_gap).spec_absolute().spec_at_most(Single { bits: SCRIPT_GAP_TIE_BITS })
                && on_left && !best_left
        },
    }
}

/// The best anchor among the bodies from `i` on, which rise in height, up to
/// the end of the window above the run.
pub open spec fn best_anchor(
    items: Seq<ItemView>,
    chain: Seq<usize>,
    run_size: Single,
    window: Single,
    by_y: Seq<usize>,
    i: int,
    best: Anchor,
) -> Anchor
    decreases by_y.len() - i,
{
    if i < 0 || i >= by_y.len() {
        best
    } else {
        let n = by_y[i];
        let body = items[n as int];
        let first = items[chain[0] as int];
        let last = items[chain.last() as int];
        if first.y.spec_plus(window).spec_less(body.y) {
            best
        } else {
            let next = if chain.contains(n) {
                best
            } else {
                match anchor_gap(first, last, run_size, body) {
                    None => best,
                    Some((gap, on_left)) => if better(best, gap, on_left) {
                        Some((gap, n, on_left))
                    } else {
                        best
                    },
                }
            };
            best_anchor(items, chain, run_size, window, by_y, i + 1, next)
        }
    }
}

/// The number of bodies, from the lowest on, that lie below the window.
pub open spec fn below_window(items: Seq<ItemView>, by_y: Seq<usize>, bottom: Single, i: int) -> int
    decreases by_y.len() - i,
{
    if i < 0 || i >= by_y.len() || !items[by_y[i] as int].y.spec_less(bottom) {
        i
    } else {
        below_window(items, by_y, bottom, i + 1)
    }
}

/// The anchor of a chain on its page.
pub open spec fn chain_anchor(items: Seq<ItemView>, by_y: Seq<usize>, window: Single, chain: Seq<usize>) -> Anchor {
    let bottom = items[chain[0] as int].y.spec_minus(window);
    best_anchor(
        items,
        chain,
        largest_size(items, chain),
        window,
        by_y,
        below_window(items, by_y, bottom, 0),
        None,
    )
}

/// The runs among the first `n` chains: short ones that have an anchor.
pub open spec fn anchored_runs(
    items: Seq<ItemView>,
    by_y: Seq<usize>,
    window: Single,
    chains: Seq<Seq<usize>>,
    n: nat,
) -> Seq<RunView>
    decreases n,
{
    if n == 0 {
        Seq::empty()
    } else {
        let before = anchored_runs(items, by_y, window, chains, (n - 1) as nat);
        let chain = chains[n - 1];
        if text_length(items, chain) > SCRIPT_MAX_RUN_CHARS {
            before
        } else {
            match chain_anchor(items, by_y, window, chain) {
                Some((_, anchor, anchor_on_left)) => before.push(RunView { glyphs: chain, anchor, anchor_on_left }),
                None => before,
            }
        }
    }
}

/// The participants of a page by height.
pub open spec fn heights(items: Seq<ItemView>, page: Seq<usize>) -> Seq<usize> {
    stably_sorted(page, y_keys(items))
}

/// How far from a run its anchor can be in height on this page.
pub open spec fn page_window(items: Seq<ItemView>, page: Seq<usize>) -> Single {
    largest_size(items, heights(items, page)).spec_times(Single { bits: SCRIPT_MAX_RAISE_BITS })
}

/// The chains of a page.
pub open spec fn page_chains(items: Seq<ItemView>, page: Seq<usize>) -> Seq<Seq<usize>> {
    chains_of(items, stably_sorted(glyph_shaped(items, heights(items, page)), xy_keys(items)))
}

/// The runs of a page.
pub open spec fn page_runs(items: Seq<ItemView>, page: Seq<usize>) -> Seq<RunView> {
    let chains = page_chains(items, page);
    anchored_runs(items, heights(items, page), page_window(items, page), chains, chains.len())
}

/// The runs of the first `n` pages.
pub open spec fn runs_of_pages(items: Seq<ItemView>, pages: Seq<Seq<usize>>, n: nat) -> Seq<RunView>
    decreases n,
{
    if n == 0 {
        Seq::empty()
    } else {
        runs_of_pages(items, pages, (n - 1) as nat) + page_runs(items, pages[n - 1])
    }
}

/// The participants of each page, by page number.
pub open spec fn pages_of(items: Seq<ItemView>) -> Seq<Seq<usize>> {
    page_groups(items, stably_sorted(participants(items, items.len()), page_keys(items)))
}

/// All script runs, page by page.
pub open spec fn script_runs(items: Seq<ItemView>) -> Seq<RunView> {
    let pages = pages_of(items);
    runs_of_pages(items, pages, pages.len())
}

/// A run whose glyphs and anchor are items.
pub open spec fn valid_run(run: RunView, n: nat) -> bool {
    run.glyphs.len() > 0 && below(run.glyphs, n) && run.anchor < n
}

pub open spec fn valid_runs(runs: Seq<RunView>, n: nat) -> bool {
    forall|i: int| 0 <= i < runs.len() ==> valid_run(#[trigger] runs[i], n)
}

/// Chains of items, none of them empty.
pub open spec fn valid_chains(chains: Seq<Seq<usize>>, n: nat) -> bool {
    forall|i: int| 0 <= i < chains.len() ==> (#[trigger] chains[i]).len() > 0 && below(chains[i], n)
}

fn collect_participants(items: &Vec<TextItem>) -> (r: Vec<usize>)
    ensures
        r@ == participants(views(items@), items@.len()),
        below(r@, items@.len()),
{
    let mut list: Vec<usize> = Vec::new();
    let mut i: usize = 0;
    while i < items.len()
        invariant
            i <= items@.len(),
            list@ == participants(views(items@), i as nat),
            below(list@, items@.len()),
        decreases items@.len() - i,
    {
        assert(views(items@)[i as int] == items@[i as int]@);
        if is_script_participant(&items[i]) {
            list.push(i);
        }
        i += 1;
    }
    list
}

fn collect_pages(items: &Vec<TextItem>, list: &Vec<usize>) -> (r: Vec<Vec<usize>>)
    requires
        below(list@, items@.len()),
    ensures
        lists(r@) == page_groups(views(items@), list@),
        valid_chains(lists(r@), items@.len()),
{
    let ghost model = views(items@);
    let mut pages: Vec<Vec<usize>> = Vec::new();
    let mut i: usize = 0;
    assert(lists(pages@) =~= page_groups(model, list@.take(0)));
    while i < list.len()
        invariant
            i <= list@.len(),
            below(list@, items@.len()),
            model == views(items@),
            lists(pages@) == page_groups(model, list@.take(i as int)),
            valid_chains(lists(pages@), items@.len()),
        decreases list@.len() - i,
    {
        let x = list[i];
        let ghost before = lists(pages@);
        assert(list@.take(i + 1).drop_last() =~= list@.take(i as int));
        let n = pages.len();
        let mut joins = false;
        if n > 0 {
            assert(before[n - 1] == pages@[n - 1]@);
            let page = &pages[n - 1];
            let y = page[page.len() - 1];
            assert(y == before.last().last());
            joins = items[y].page == items[x].page;
        }
        if joins {
            pages[n - 1].push(x);
            assert(lists(pages@) =~= before.drop_last().push(before.last().push(x)));
        } else {
            let mut page: Vec<usize> = Vec::new();
            page.push(x);
            assert(page@ =~= seq![x]);
            pages.push(page);
            assert(lists(pages@) =~= before.push(seq![x]));
        }
        i += 1;
    }
    assert(list@.take(list@.len() as int) =~= list@);
    pages
}

fn find_largest_size(items: &Vec<TextItem>, list: &Vec<usize>) -> (r: Single)
    requires
        below(list@, items@.len()),
    ensures
        r == largest_size(views(items@), list@),
{
    let mut size = Single::zero();
    let mut i: usize = 0;
    while i < list.len()
        invariant
            i <= list@.len(),
            below(list@, items@.len()),
            size == largest_size(views(items@), list@.take(i as int)),
        decreases list@.len() - i,
    {
        assert(list@.take(i + 1).drop_last() =~= list@.take(i as int));
        assert(views(items@)[list@[i as int] as int] == items@[list@[i as int] as int]@);
        size = size.max(items[list[i]].font_size);
        i += 1;
    }
    assert(list@.take(list@.len() as int) =~= list@);
    size
}

fn collect_glyphs(items: &Vec<TextItem>, list: &Vec<usize>) -> (r: Vec<usize>)
    requires
        below(list@, items@.len()),
    ensures
        r@ == glyph_shaped(views(items@), list@),
        below(r@, items@.len()),
{
    let mut out: Vec<usize> = Vec::new();
    let mut i: usize = 0;
    while i < list.len()
        invariant
            i <= list@.len(),
            below(list@, items@.len()),
            out@ == glyph_shaped(views(items@), list@.take(i as int)),
            below(out@, items@.len()),
        decreases list@.len() - i,
    {
        assert(list@.take(i + 1).drop_last() =~= list@.take(i as int));
        assert(views(items@)[list@[i as int] as int] == items@[list@[i as int] as int]@);
        if is_script_glyph_text(&items[list[i]].text) {
            out.push(list[i]);
        }
        i += 1;
    }
    assert(list@.take(list@.len() as int) =~= list@);
    out
}

fn find_chain(items: &Vec<TextItem>, chains: &Vec<Vec<usize>>, g: usize) -> (r: Option<usize>)
    requires
        g < items@.len(),
        valid_chains(lists(chains@), items@.len()),
    ensures
        match r {
            Some(k) => k < chains@.len() && continued_chain(views(items@), lists(chains@), g, chains@.len()) == Some(
                k as nat,
            ),
            None => continued_chain(views(items@), lists(chains@), g, chains@.len()) is None,
        },
{
    let mut n: usize = chains.len();
    while n > 0
        invariant
            n <= chains@.len(),
            g < items@.len(),
            valid_chains(lists(chains@), items@.len()),
            continued_chain(views(items@), lists(chains@), g, chains@.len()) == continued_chain(
                views(items@),
                lists(chains@),
                g,
                n as nat,
            ),
        decreases n,
    {
        assert(lists(chains@)[n - 1] == chains@[n - 1]@);
        let chain = &chains[n - 1];
        let last = chain[chain.len() - 1];
        assert(views(items@)[last as int] == items@[last as int]@);
        if continues_run(&items[last], &items[g]) {
            return Some(n - 1);
        }
        n -= 1;
    }
    None
}

fn collect_chains(items: &Vec<TextItem>, glyphs: &Vec<usize>) -> (r: Vec<Vec<usize>>)
    requires
        below(glyphs@, items@.len()),
    ensures
        lists(r@) == chains_of(views(items@), glyphs@),
        valid_chains(lists(r@), items@.len()),
{
    let ghost model = views(items@);
    let mut chains: Vec<Vec<usize>> = Vec::new();
    let mut i: usize = 0;
    assert(lists(chains@) =~= chains_of(model, glyphs@.take(0)));
    while i < glyphs.len()
        invariant
            i <= glyphs@.len(),
            below(glyphs@, items@.len()),
            model == views(items@),
            lists(chains@) == chains_of(model, glyphs@.take(i as int)),
            valid_chains(lists(chains@), items@.len()),
        decreases glyphs@.len() - i,
    {
        let g = glyphs[i];
        let ghost before = lists(chains@);
        assert(glyphs@.take(i + 1).drop_last() =~= glyphs@.take(i as int));
        match find_chain(items, &chains, g) {
            Some(k) => {
                assert(before[k as int] == chains@[k as int]@);
                chains[k].push(g);
                assert(lists(chains@) =~= before.update(k as int, before[k as int].push(g)));
            },
            None => {
                let mut chain: Vec<usize> = Vec::new();
                chain.push(g);
                assert(chain@ =~= seq![g]);
                chains.push(chain);
                assert(lists(chains@) =~= before.push(seq![g]));
            },
        }
        i += 1;
    }
    assert(glyphs@.take(glyphs@.len() as int) =~= glyphs@);
    chains
}

/// Whether the texts of a list have at most `limit` characters together.
fn is_text_within(items: &Vec<TextItem>, list: &Vec<usize>, limit: usize) -> (r: bool)
    requires
        below(list@, items@.len()),
        limit <= 1000,
    ensures
        r == (text_length(views(items@), list@) <= limit),
{
    let ghost model = views(items@);
    let mut total: usize = 0;
    let mut i: usize = 0;
    while i < list.len()
        invariant
            i <= list@.len(),
            below(list@, items@.len()),
            model == views(items@),
            total == text_length(model, list@.take(i as int)),
            total <= limit <= 1000,
        decreases list@.len() - i,
    {
        assert(list@.take(i + 1).drop_last() =~= list@.take(i as int));
        assert(model[list@[i as int] as int] == items@[list@[i as int] as int]@);
        let count = characters(&items[list[i]].text).len();
        if count > limit - total {
            proof {
                lemma_text_length_grows(model, list@, i + 1);
            }
            return false;
        }
        total += count;
        i += 1;
    }
    assert(list@.take(list@.len() as int) =~= list@);
    true
}

proof fn lemma_text_length_grows(items: Seq<ItemView>, list: Seq<usize>, n: int)
    requires
        0 <= n <= list.len(),
    ensures
        text_length(items, list.take(n)) <= text_length(items, list),
    decreases list.len() - n,
{
    if n < list.len() {
        assert(list.take(n + 1).drop_last() =~= list.take(n));
        lemma_text_length_grows(items, list, n + 1);
    } else {
        assert(list.take(n) =~= list);
    }
}

fn is_listed(list: &Vec<usize>, x: usize) -> (r: bool)
    ensures
        r == list@.contains(x),
{
    let mut i: usize = 0;
    while i < list.len()
        invariant
            i <= list@.len(),
            forall|j: int| 0 <= j < i ==> list@[j] != x,
        decreases list@.len() - i,
    {
        if list[i] == x {
            return true;
        }
        i += 1;
    }
    false
}

fn is_better(best: Anchor, gap: Single, on_left: bool) -> (r: bool)
    ensures
        r == better(best, gap, on_left),
{
    let tie = Single { bits: SCRIPT_GAP_TIE_BITS };
    match best {
        None => true,
        Some((best_gap, _, best_left)) => gap.less(best_gap.minus(tie)) || (gap.minus(best_gap).absolute().at_most(
            tie,
        ) && on_left && !best_left),
    }
}

fn find_anchor(items: &Vec<TextItem>, by_y: &Vec<usize>, window: Single, chain: &Vec<usize>) -> (r: Anchor)
    requires
        below(by_y@, items@.len()),
        chain@.len() > 0,
        below(chain@, items@.len()),
    ensures
        r == chain_anchor(views(items@), by_y@, window, chain@),
        r matches Some(found) ==> found.1 < items@.len(),
{
    let ghost model = views(items@);
    let first = &items[chain[0]];
    let last = &items[chain[chain.len() - 1]];
    assert(model[chain@[0] as int] == first@);
    assert(model[chain@.last() as int] == last@);
    let run_size = find_largest_size(items, chain);
    let bottom = first.y.minus(window);
    let mut low: usize = 0;
    while low < by_y.len() && items[by_y[low]].y.less(bottom)
        invariant
            low <= by_y@.len(),
            below(by_y@, items@.len()),
            model == views(items@),
            below_window(model, by_y@, bottom, 0) == below_window(model, by_y@, bottom, low as int),
        decreases by_y@.len() - low,
    {
        assert(model[by_y@[low as int] as int] == items@[by_y@[low as int] as int]@);
        low += 1;
    }
    assert(low < by_y@.len() ==> model[by_y@[low as int] as int] == items@[by_y@[low as int] as int]@);
    assert(below_window(model, by_y@, bottom, low as int) == low);
    let top = first.y.plus(window);
    let mut best: Anchor = None;
    let mut i: usize = low;
    let ghost result = chain_anchor(model, by_y@, window, chain@);
    while i < by_y.len()
        invariant
            i <= by_y@.len(),
            below(by_y@, items@.len()),
            model == views(items@),
            chain@.len() > 0,
            first@ == model[chain@[0] as int],
            last@ == model[chain@.last() as int],
            top == first@.y.spec_plus(window),
            best matches Some(found) ==> found.1 < items@.len(),
            result == chain_anchor(model, by_y@, window, chain@),
            result == best_anchor(model, chain@, run_size, window, by_y@, i as int, best),
        decreases by_y@.len() - i,
    {
        let n = by_y[i];
        let body = &items[n];
        assert(model[n as int] == body@);
        if top.less(body.y) {
            return best;
        }
        if !is_listed(chain, n) {
            if let Some((gap, on_left)) = script_anchor_gap(first, last, run_size, body) {
                if is_better(best, gap, on_left) {
                    best = Some((gap, n, on_left));
                }
            }
        }
        i += 1;
    }
    best
}

fn copy_list(list: &Vec<usize>) -> (r: Vec<usize>)
    ensures
        r@ == list@,
{
    let mut out: Vec<usize> = Vec::new();
    let mut i: usize = 0;
    while i < list.len()
        invariant
            i <= list@.len(),
            out@ == list@.take(i as int),
        decreases list@.len() - i,
    {
        out.push(list[i]);
        i += 1;
    }
    assert(list@.take(list@.len() as int) =~= list@);
    out
}

/// Adds the runs of a page.
fn add_page_runs(items: &Vec<TextItem>, page: &Vec<usize>, runs: &mut Vec<ScriptRun>)
    requires
        below(page@, items@.len()),
        valid_runs(run_views(old(runs)@), items@.len()),
    ensures
        run_views(final(runs)@) == run_views(old(runs)@) + page_runs(views(items@), page@),
        valid_runs(run_views(final(runs)@), items@.len()),
{
    let ghost model = views(items@);
    let by_height = make_keys(items, KeyKind::Y);
    assert(has_keys(page@, by_height@));
    let by_y = sort_indices(page, &by_height);
    assert(below(by_y@, items@.len())) by {
        assert forall|i: int| 0 <= i < by_y@.len() implies (#[trigger] by_y@[i]) < items@.len() by {}
    }
    let window = find_largest_size(items, &by_y).times(Single { bits: SCRIPT_MAX_RAISE_BITS });
    let shaped = collect_glyphs(items, &by_y);
    let across = make_keys(items, KeyKind::XThenY);
    assert(has_keys(shaped@, across@));
    let glyphs = sort_indices(&shaped, &across);
    let chains = collect_chains(items, &glyphs);
    let ghost model_chains = lists(chains@);
    assert(model_chains == page_chains(model, page@));
    let mut i: usize = 0;
    assert(run_views(runs@) =~= run_views(old(runs)@) + anchored_runs(model, by_y@, window, model_chains, 0));
    while i < chains.len()
        invariant
            i <= chains@.len(),
            model == views(items@),
            model_chains == lists(chains@),
            valid_chains(model_chains, items@.len()),
            below(by_y@, items@.len()),
            valid_runs(run_views(runs@), items@.len()),
            run_views(runs@) == run_views(old(runs)@) + anchored_runs(model, by_y@, window, model_chains, i as nat),
        decreases chains@.len() - i,
    {
        let chain = &chains[i];
        assert(model_chains[i as int] == chain@);
        if is_text_within(items, chain, SCRIPT_MAX_RUN_CHARS) {
            if let Some((_, anchor, anchor_on_left)) = find_anchor(items, &by_y, window, chain) {
                let ghost before = run_views(runs@);
                let run = ScriptRun { glyphs: copy_list(chain), anchor, anchor_on_left };
                runs.push(run);
                assert(run_views(runs@) =~= before.push(RunView { glyphs: chain@, anchor, anchor_on_left }));
                assert(run_views(runs@) =~= run_views(old(runs)@) + anchored_runs(
                    model,
                    by_y@,
                    window,
                    model_chains,
                    (i + 1) as nat,
                ));
            }
        }
        i += 1;
    }
}

/// Finds every super- and subscript run and its anchor.
pub fn detect_script_runs(items: &Vec<TextItem>) -> (r: Vec<ScriptRun>)
    ensures
        run_views(r@) == script_runs(views(items@)),
        valid_runs(run_views(r@), items@.len()),
{
    let ghost model = views(items@);
    let list = collect_participants(items);
    let by_page = make_keys(items, KeyKind::Page);
    assert(has_keys(list@, by_page@));
    let ordered = sort_indices(&list, &by_page);
    let pages = collect_pages(items, &ordered);
    let ghost model_pages = lists(pages@);
    let mut runs: Vec<ScriptRun> = Vec::new();
    let mut i: usize = 0;
    assert(run_views(runs@) =~= runs_of_pages(model, model_pages, 0));
    while i < pages.len()
        invariant
            i <= pages@.len(),
            model == views(items@),
            model_pages == lists(pages@),
            valid_chains(model_pages, items@.len()),
            valid_runs(run_views(runs@), items@.len()),
            run_views(runs@) == runs_of_pages(model, model_pages, i as nat),
        decreases pages@.len() - i,
    {
        assert(model_pages[i as int] == pages@[i as int]@);
        add_page_runs(items, &pages[i], &mut runs);
        i += 1;
    }
    runs
}

/// The super- or subscript form of an ASCII digit; any other character as it
/// is.
pub open spec fn script_digit(c: char, raised: bool) -> char {
    if !ascii_digit(c) {
        c
    } else if !raised {
        (c as u32 - '0' as u32 + 0x2080) as char
    } else if c == '1' {
        '\u{b9}'
    } else if c == '2' {
        '\u{b2}'
    } else if c == '3' {
        '\u{b3}'
    } else {
        (c as u32 - '0' as u32 + 0x2070) as char
    }
}

/// A text with its digits in their super- or subscript forms.
pub open spec fn script_digits(s: Seq<char>, raised: bool) -> Seq<char> {
    Seq::new(s.len(), |i: int| script_digit(s[i], raised))
}

fn map_script_digit(c: char, raised: bool) -> (r: char)
    ensures
        r == script_digit(c, raised),
{
    let superscripts: [char; 10] = [
        '\u{2070}',
        '\u{b9}',
        '\u{b2}',
        '\u{b3}',
        '\u{2074}',
        '\u{2075}',
        '\u{2076}',
        '\u{2077}',
        '\u{2078}',
        '\u{2079}',
    ];
    let subscripts: [char; 10] = [
        '\u{2080}',
        '\u{2081}',
        '\u{2082}',
        '\u{2083}',
        '\u{2084}',
        '\u{2085}',
        '\u{2086}',
        '\u{2087}',
        '\u{2088}',
        '\u{2089}',
    ];
    if !is_ascii_digit(c) {
        return c;
    }
    let digit: usize = c as usize - '0' as usize;
    if raised {
        superscripts[digit]
    } else {
        subscripts[digit]
    }
}

/// Maps ASCII digits to their superscript (`raised`) or subscript forms.
/// Anything else passes through unchanged.
pub fn map_script_digits(text: &str, raised: bool) -> (r: String)
    ensures
        r@ == script_digits(text@, raised),
{
    let chars = characters(text);
    let mut out: Vec<char> = Vec::new();
    let mut i: usize = 0;
    while i < chars.len()
        invariant
            i <= chars@.len(),
            out@ == script_digits(chars@, raised).take(i as int),
        decreases chars@.len() - i,
    {
        out.push(map_script_digit(chars[i], raised));
        i += 1;
    }
    assert(script_digits(chars@, raised).take(chars@.len() as int) =~= script_digits(chars@, raised));
    text_of(&out)
}

/// Punctuation that a footnote reference can follow.
pub open spec fn closing_punctuation(c: char) -> bool {
    ||| c == '.' || c == ',' || c == ';' || c == ':' || c == '!' || c == '?' || c == ')' || c == ']' || c == '}'
    ||| c == '"' || c == '\'' || c == '\u{201d}' || c == '\u{2019}'
}

/// The anchor's edge is one that a run of digits may fuse onto: a word or its
/// closing punctuation before the run, a word after it, never another digit.
pub open spec fn fusable_edge(text: Seq<char>, anchor_on_left: bool) -> bool {
    &&& text.len() > 0
    &&& if anchor_on_left {
        alphabetic(text.last()) || closing_punctuation(text.last())
    } else {
        alphabetic(text[0])
    }
}

pub fn fusable_anchor_edge(anchor: &TextItem, anchor_on_left: bool) -> (r: bool)
    ensures
        r == fusable_edge(anchor@.text, anchor_on_left),
{
    let chars = characters(&anchor.text);
    if chars.len() == 0 {
        return false;
    }
    if anchor_on_left {
        let c: char = chars[chars.len() - 1];
        c.is_alphabetic() || c == '.' || c == ',' || c == ';' || c == ':' || c == '!' || c == '?' || c == ')' || c
            == ']' || c == '}' || c == '"' || c == '\'' || c == '\u{201d}' || c == '\u{2019}'
    } else {
        let c: char = chars[0];
        c.is_alphabetic()
    }
}

/// The last run among the first `n` that has the item as a glyph.
pub open spec fn run_of_glyph(runs: Seq<RunView>, g: usize, n: nat) -> Option<nat>
    decreases n,
{
    if n == 0 {
        None
    } else if runs[n - 1].glyphs.contains(g) {
        Some((n - 1) as nat)
    } else {
        run_of_glyph(runs, g, (n - 1) as nat)
    }
}

/// The item that is reached from an anchor through runs whose glyph it is.
pub open spec fn body_anchor(runs: Seq<RunView>, index: usize, steps: nat) -> usize
    decreases steps,
{
    if steps == 0 {
        index
    } else {
        match run_of_glyph(runs, index, runs.len()) {
            Some(r) => body_anchor(runs, runs[r as int].anchor, (steps - 1) as nat),
            None => index,
        }
    }
}

/// The texts of a list, one behind the other.
pub open spec fn joined_texts(items: Seq<ItemView>, list: Seq<usize>) -> Seq<char>
    decreases list.len(),
{
    if list.len() == 0 {
        Seq::empty()
    } else {
        joined_texts(items, list.drop_last()) + items[list.last() as int].text
    }
}

/// All texts of a list are made of ASCII digits.
pub open spec fn digits_only(items: Seq<ItemView>, list: Seq<usize>) -> bool {
    forall|i: int, j: int|
        0 <= i < list.len() && 0 <= j < items[list[i] as int].text.len() ==> ascii_digit(
            #[trigger] items[#[trigger] list[i] as int].text[j],
        )
}

/// Fusing extends no strike over a live glyph, drops no glyph's strike and
/// drops no glyph's underline.
pub open spec fn marks_agree(anchor: ItemView, items: Seq<ItemView>, list: Seq<usize>) -> bool {
    forall|i: int|
        0 <= i < list.len() ==> ({
            let glyph = items[(#[trigger] list[i]) as int];
            anchor.is_strikeout == glyph.is_strikeout && (anchor.is_underline || !glyph.is_underline)
        })
}

/// Some glyph's text was rewritten.
pub open spec fn any_rewrite(items: Seq<ItemView>, list: Seq<usize>) -> bool {
    exists|i: int| 0 <= i < list.len() && items[(#[trigger] list[i]) as int].legacy_symbol_rewrite
}

/// The run is fused into its anchor: up to four digits beside body text.
pub open spec fn fuses(items: Seq<ItemView>, runs: Seq<RunView>, run: RunView) -> bool {
    let anchor = items[run.anchor as int];
    &&& digits_only(items, run.glyphs)
    &&& text_length(items, run.glyphs) <= SCRIPT_MAX_FUSED_DIGITS
    &&& marks_agree(anchor, items, run.glyphs)
    &&& fusable_edge(anchor.text, run.anchor_on_left)
    &&& run_of_glyph(runs, run.anchor, runs.len()) is None
}

/// The run stands above its anchor's baseline.
pub open spec fn raised_run(items: Seq<ItemView>, run: RunView) -> bool {
    let anchor = items[run.anchor as int];
    anchor.y.spec_plus(anchor.font_size.spec_times(Single { bits: SCRIPT_MIN_SHIFT_BITS })).spec_less(
        items[run.glyphs[0] as int].y,
    )
}

/// The anchor with a run of digits fused into it: it spans the union of word
/// and marker.
pub open spec fn fused_anchor(items: Seq<ItemView>, run: RunView) -> ItemView {
    let anchor = items[run.anchor as int];
    let mapped = script_digits(joined_texts(items, run.glyphs), raised_run(items, run));
    let run_left = items[run.glyphs[0] as int].x;
    let run_right = right_edge(items[run.glyphs.last() as int]);
    let right = right_edge(
        ItemView {
            legacy_symbol_rewrite: anchor.legacy_symbol_rewrite || any_rewrite(items, run.glyphs),
            ..anchor
        },
    ).spec_max(run_right);
    let left = if run.anchor_on_left {
        anchor.x
    } else {
        anchor.x.spec_min(run_left)
    };
    ItemView {
        text: if run.anchor_on_left {
            anchor.text + mapped
        } else {
            mapped + anchor.text
        },
        x: left,
        width: right.spec_minus(left),
        legacy_symbol_rewrite: anchor.legacy_symbol_rewrite || any_rewrite(items, run.glyphs),
        ..anchor
    }
}

/// The head glyph of a run as one item for the whole run.
pub open spec fn flagged_head(items: Seq<ItemView>, run: RunView, anchor_y: Single) -> ItemView {
    let head = items[run.glyphs[0] as int];
    ItemView {
        text: joined_texts(items, run.glyphs),
        legacy_symbol_rewrite: any_rewrite(items, run.glyphs),
        width: right_edge(items[run.glyphs.last() as int]).spec_minus(head.x),
        baseline_shift: head.y.spec_minus(anchor_y),
        ..head
    }
}

/// Flags with those of a list set.
pub open spec fn marked(flags: Seq<bool>, list: Seq<usize>) -> Seq<bool> {
    Seq::new(flags.len(), |i: int| flags[i] || list.contains(i as usize))
}

/// Items, and which of them are removed.
#[verifier::ext_equal]
pub struct Applied {
    pub items: Seq<ItemView>,
    pub removed: Seq<bool>,
}

/// The items after the first `n` runs are applied.
pub open spec fn applied(original: Seq<ItemView>, runs: Seq<RunView>, n: nat) -> Applied
    decreases n,
{
    if n == 0 {
        Applied { items: original, removed: Seq::new(original.len(), |i: int| false) }
    } else {
        let before = applied(original, runs, (n - 1) as nat);
        let run = runs[n - 1];
        if fuses(before.items, runs, run) {
            Applied {
                items: before.items.update(run.anchor as int, fused_anchor(before.items, run)),
                removed: marked(before.removed, run.glyphs),
            }
        } else {
            let anchor_y = original[body_anchor(runs, run.anchor, SCRIPT_MAX_NESTING as nat) as int].y;
            Applied {
                items: before.items.update(run.glyphs[0] as int, flagged_head(before.items, run, anchor_y)),
                removed: marked(before.removed, run.glyphs.drop_first()),
            }
        }
    }
}

/// The first `n` items without the removed ones.
pub open spec fn kept(items: Seq<ItemView>, removed: Seq<bool>, n: nat) -> Seq<ItemView>
    decreases n,
{
    if n == 0 {
        Seq::empty()
    } else {
        let before = kept(items, removed, (n - 1) as nat);
        if removed[n - 1] {
            before
        } else {
            before.push(items[n - 1])
        }
    }
}

/// The items after all runs are applied.
pub open spec fn after_runs(items: Seq<ItemView>, runs: Seq<RunView>) -> Seq<ItemView> {
    let done = applied(items, runs, runs.len());
    kept(done.items, done.removed, items.len())
}

fn find_run(runs: &Vec<ScriptRun>, g: usize) -> (r: Option<usize>)
    ensures
        match r {
            Some(k) => k < runs@.len() && run_of_glyph(run_views(runs@), g, runs@.len()) == Some(k as nat),
            None => run_of_glyph(run_views(runs@), g, runs@.len()) is None,
        },
{
    let mut n: usize = runs.len();
    while n > 0
        invariant
            n <= runs@.len(),
            run_of_glyph(run_views(runs@), g, runs@.len()) == run_of_glyph(run_views(runs@), g, n as nat),
        decreases n,
    {
        assert(run_views(runs@)[n - 1] == runs@[n - 1]@);
        if is_listed(&runs[n - 1].glyphs, g) {
            return Some(n - 1);
        }
        n -= 1;
    }
    None
}

fn find_body_anchor(runs: &Vec<ScriptRun>, anchor: usize, count: usize) -> (r: usize)
    requires
        valid_runs(run_views(runs@), count as nat),
        anchor < count,
    ensures
        r == body_anchor(run_views(runs@), anchor, SCRIPT_MAX_NESTING as nat),
        r < count,
{
    let mut index: usize = anchor;
    let mut left: usize = SCRIPT_MAX_NESTING;
    while left > 0
        invariant
            valid_runs(run_views(runs@), count as nat),
            index < count,
            body_anchor(run_views(runs@), anchor, SCRIPT_MAX_NESTING as nat) == body_anchor(
                run_views(runs@),
                index,
                left as nat,
            ),
        decreases left,
    {
        match find_run(runs, index) {
            Some(k) => {
                assert(run_views(runs@)[k as int] == runs@[k as int]@);
                index = runs[k].anchor;
            },
            None => {
                return index;
            },
        }
        left -= 1;
    }
    index
}

fn join_texts(items: &Vec<TextItem>, list: &Vec<usize>) -> (r: Vec<char>)
    requires
        below(list@, items@.len()),
    ensures
        r@ == joined_texts(views(items@), list@),
{
    let mut out: Vec<char> = Vec::new();
    let mut i: usize = 0;
    while i < list.len()
        invariant
            i <= list@.len(),
            below(list@, items@.len()),
            out@ == joined_texts(views(items@), list@.take(i as int)),
        decreases list@.len() - i,
    {
        assert(list@.take(i + 1).drop_last() =~= list@.take(i as int));
        assert(views(items@)[list@[i as int] as int] == items@[list@[i as int] as int]@);
        push_chars(&mut out, &characters(&items[list[i]].text));
        i += 1;
    }
    assert(list@.take(list@.len() as int) =~= list@);
    out
}

fn are_digits(text: &str) -> (r: bool)
    ensures
        r == (forall|j: int| 0 <= j < text@.len() ==> ascii_digit(#[trigger] text@[j])),
{
    let chars = characters(text);
    let mut i: usize = 0;
    while i < chars.len()
        invariant
            i <= chars@.len(),
            chars@ == text@,
            forall|j: int| 0 <= j < i ==> ascii_digit(#[trigger] text@[j]),
        decreases chars@.len() - i,
    {
        if !is_ascii_digit(chars[i]) {
            assert(!ascii_digit(text@[i as int]));
            return false;
        }
        i += 1;
    }
    true
}

fn are_digits_only(items: &Vec<TextItem>, list: &Vec<usize>) -> (r: bool)
    requires
        below(list@, items@.len()),
    ensures
        r == digits_only(views(items@), list@),
{
    let ghost model = views(items@);
    let mut i: usize = 0;
    while i < list.len()
        invariant
            i <= list@.len(),
            below(list@, items@.len()),
            model == views(items@),
            forall|k: int, j: int|
                0 <= k < i && 0 <= j < model[list@[k] as int].text.len() ==> ascii_digit(
                    #[trigger] model[#[trigger] list@[k] as int].text[j],
                ),
        decreases list@.len() - i,
    {
        assert(model[list@[i as int] as int] == items@[list@[i as int] as int]@);
        if !are_digits(&items[list[i]].text) {
            proof {
                let text = items@[list@[i as int] as int].text@;
                let j = choose|j: int| 0 <= j < text.len() && !ascii_digit(#[trigger] text[j]);
                assert(!ascii_digit(model[list@[i as int] as int].text[j]));
            }
            return false;
        }
        i += 1;
    }
    true
}

fn do_marks_agree(anchor: &TextItem, items: &Vec<TextItem>, list: &Vec<usize>) -> (r: bool)
    requires
        below(list@, items@.len()),
    ensures
        r == marks_agree(anchor@, views(items@), list@),
{
    let ghost model = views(items@);
    let mut i: usize = 0;
    while i < list.len()
        invariant
            i <= list@.len(),
            below(list@, items@.len()),
            model == views(items@),
            forall|k: int|
                0 <= k < i ==> ({
                    let glyph = model[(#[trigger] list@[k]) as int];
                    anchor@.is_strikeout == glyph.is_strikeout && (anchor@.is_underline || !glyph.is_underline)
                }),
        decreases list@.len() - i,
    {
        let glyph = &items[list[i]];
        assert(model[list@[i as int] as int] == glyph@);
        if anchor.is_strikeout != glyph.is_strikeout || !(anchor.is_underline || !glyph.is_underline) {
            return false;
        }
        i += 1;
    }
    true
}

fn is_any_rewritten(items: &Vec<TextItem>, list: &Vec<usize>) -> (r: bool)
    requires
        below(list@, items@.len()),
    ensures
        r == any_rewrite(views(items@), list@),
{
    let ghost model = views(items@);
    let mut i: usize = 0;
    while i < list.len()
        invariant
            i <= list@.len(),
            below(list@, items@.len()),
            model == views(items@),
            forall|k: int| 0 <= k < i ==> !model[(#[trigger] list@[k]) as int].legacy_symbol_rewrite,
        decreases list@.len() - i,
    {
        assert(model[list@[i as int] as int] == items@[list@[i as int] as int]@);
        if items[list[i]].legacy_symbol_rewrite {
            return true;
        }
        i += 1;
    }
    false
}

fn mark_from(flags: &mut Vec<bool>, list: &Vec<usize>, from: usize)
    requires
        below(list@, old(flags)@.len()),
        from <= list@.len(),
    ensures
        final(flags)@ == marked(old(flags)@, list@.skip(from as int)),
{
    let ghost tail = list@.skip(from as int);
    let count: usize = flags.len();
    let mut i: usize = from;
    assert(flags@ =~= marked(old(flags)@, tail.take(0)));
    while i < list.len()
        invariant
            from <= i <= list@.len(),
            count == flags@.len() == old(flags)@.len(),
            tail == list@.skip(from as int),
            below(list@, old(flags)@.len()),
            flags@ == marked(old(flags)@, tail.take(i - from)),
        decreases list@.len() - i,
    {
        let x = list[i];
        let ghost before = flags@;
        flags[x] = true;
        proof {
            let shorter = tail.take(i - from);
            let longer = tail.take(i - from + 1);
            assert(longer =~= shorter.push(x));
            assert forall|k: int| 0 <= k < flags@.len() implies #[trigger] flags@[k] == marked(
                old(flags)@,
                longer,
            )[k] by {
                assert(longer.contains(k as usize) <==> shorter.contains(k as usize) || k as usize == x) by {
                    if shorter.contains(k as usize) {
                        let m = choose|m: int| 0 <= m < shorter.len() && shorter[m] == k as usize;
                        assert(longer[m] == k as usize);
                    }
                    assert(longer[longer.len() - 1] == x);
                    if longer.contains(k as usize) {
                        let m = choose|m: int| 0 <= m < longer.len() && longer[m] == k as usize;
                        if m < shorter.len() {
                            assert(shorter[m] == k as usize);
                        }
                    }
                }
                assert(k as usize == x <==> k == x);
            }
            assert(flags@ =~= marked(old(flags)@, longer));
        }
        i += 1;
    }
    assert(tail.take(list@.len() - from) =~= tail);
}

/// Applies one run to the items.
fn apply_run(items: &mut Vec<TextItem>, removed: &mut Vec<bool>, runs: &Vec<ScriptRun>, k: usize, anchor_y: Single)
    requires
        k < runs@.len(),
        valid_runs(run_views(runs@), old(items)@.len()),
        old(removed)@.len() == old(items)@.len(),
    ensures
        final(items)@.len() == old(items)@.len(),
        final(removed)@.len() == old(removed)@.len(),
        ({
            let before = views(old(items)@);
            let run = run_views(runs@)[k as int];
            if fuses(before, run_views(runs@), run) {
                &&& views(final(items)@) == before.update(run.anchor as int, fused_anchor(before, run))
                &&& final(removed)@ == marked(old(removed)@, run.glyphs)
            } else {
                &&& views(final(items)@) == before.update(
                    run.glyphs[0] as int,
                    flagged_head(before, run, anchor_y),
                )
                &&& final(removed)@ == marked(old(removed)@, run.glyphs.drop_first())
            }
        }),
{
    let ghost before = views(items@);
    let ghost model = run_views(runs@)[k as int];
    let run = &runs[k];
    assert(model == run@);
    assert(valid_run(model, items@.len()));
    let glyphs = &run.glyphs;
    let last = glyphs[glyphs.len() - 1];
    assert(before[run.anchor as int] == items@[run.anchor as int]@);
    assert(before[glyphs@[0] as int] == items@[glyphs@[0] as int]@);
    assert(before[last as int] == items@[last as int]@);
    let fuse = are_digits_only(items, glyphs) && is_text_within(items, glyphs, SCRIPT_MAX_FUSED_DIGITS)
        && do_marks_agree(&items[run.anchor], items, glyphs) && fusable_anchor_edge(
        &items[run.anchor],
        run.anchor_on_left,
    ) && find_run(runs, run.anchor).is_none();
    let rewrite = is_any_rewritten(items, glyphs);
    let texts = join_texts(items, glyphs);
    let run_right = item_right(&items[last]);
    if fuse {
        let anchor = &items[run.anchor];
        let raised = anchor.y.plus(anchor.font_size.times(Single { bits: SCRIPT_MIN_SHIFT_BITS })).less(
            items[glyphs[0]].y,
        );
        let run_left = items[glyphs[0]].x;
        let mapped = characters(&map_script_digits(&text_of(&texts), raised));
        let right = item_right(anchor).max(run_right);
        let own = characters(&anchor.text);
        let anchor_rewrite = anchor.legacy_symbol_rewrite || rewrite;
        let mut text: Vec<char> = Vec::new();
        let left = if run.anchor_on_left {
            push_chars(&mut text, &own);
            push_chars(&mut text, &mapped);
            assert(text@ =~= own@ + mapped@);
            anchor.x
        } else {
            push_chars(&mut text, &mapped);
            push_chars(&mut text, &own);
            assert(text@ =~= mapped@ + own@);
            anchor.x.min(run_left)
        };
        let text = text_of(&text);
        let a = run.anchor;
        items[a].legacy_symbol_rewrite = anchor_rewrite;
        items[a].text = text;
        items[a].x = left;
        items[a].width = right.minus(left);
        assert(views(items@) =~= before.update(a as int, fused_anchor(before, model)));
        assert(glyphs@.skip(0) =~= glyphs@);
        mark_from(removed, glyphs, 0);
    } else {
        let head = glyphs[0];
        let text = text_of(&texts);
        let width = run_right.minus(items[head].x);
        let shift = items[head].y.minus(anchor_y);
        items[head].text = text;
        items[head].legacy_symbol_rewrite = rewrite;
        items[head].width = width;
        items[head].baseline_shift = shift;
        assert(views(items@) =~= before.update(head as int, flagged_head(before, model, anchor_y)));
        assert(glyphs@.skip(1) =~= glyphs@.drop_first());
        mark_from(removed, glyphs, 1);
    }
}

/// Fuses runs of digits into their anchors and turns every other run into one
/// item with a baseline shift. A script of a script is measured from its body
/// text.
pub fn apply_script_runs(items: Vec<TextItem>, runs: &Vec<ScriptRun>) -> (r: Vec<TextItem>)
    requires
        valid_runs(run_views(runs@), items@.len()),
    ensures
        views(r@) == after_runs(views(items@), run_views(runs@)),
{
    let ghost original = views(items@);
    let ghost model = run_views(runs@);
    let count = items.len();
    let mut anchor_heights: Vec<Single> = Vec::new();
    let mut i: usize = 0;
    while i < runs.len()
        invariant
            i <= runs@.len(),
            count == items@.len(),
            original == views(items@),
            model == run_views(runs@),
            valid_runs(model, count as nat),
            anchor_heights@.len() == i,
            forall|j: int|
                0 <= j < i ==> #[trigger] anchor_heights@[j] == original[body_anchor(
                    model,
                    model[j].anchor,
                    SCRIPT_MAX_NESTING as nat,
                ) as int].y,
        decreases runs@.len() - i,
    {
        assert(model[i as int] == runs@[i as int]@);
        assert(valid_run(model[i as int], count as nat));
        let body = find_body_anchor(runs, runs[i].anchor, count);
        assert(original[body as int] == items@[body as int]@);
        anchor_heights.push(items[body].y);
        i += 1;
    }
    let mut items = items;
    let mut removed: Vec<bool> = Vec::new();
    let mut i: usize = 0;
    while i < count
        invariant
            i <= count,
            removed@.len() == i,
            forall|j: int| 0 <= j < i ==> !(#[trigger] removed@[j]),
        decreases count - i,
    {
        removed.push(false);
        i += 1;
    }
    assert(removed@ =~= applied(original, model, 0).removed);
    let mut i: usize = 0;
    while i < runs.len()
        invariant
            i <= runs@.len(),
            count == items@.len() == original.len() == removed@.len(),
            model == run_views(runs@),
            valid_runs(model, count as nat),
            anchor_heights@.len() == runs@.len(),
            forall|j: int|
                0 <= j < runs@.len() ==> #[trigger] anchor_heights@[j] == original[body_anchor(
                    model,
                    model[j].anchor,
                    SCRIPT_MAX_NESTING as nat,
                ) as int].y,
            views(items@) == applied(original, model, i as nat).items,
            removed@ == applied(original, model, i as nat).removed,
        decreases runs@.len() - i,
    {
        apply_run(&mut items, &mut removed, runs, i, anchor_heights[i]);
        i += 1;
    }
    let ghost done = views(items@);
    let mut out: Vec<TextItem> = Vec::new();
    let mut i: usize = 0;
    assert(views(out@) =~= kept(done, removed@, 0));
    while i < count
        invariant
            i <= count == items@.len() == removed@.len(),
            done == views(items@),
            views(out@) == kept(done, removed@, i as nat),
        decreases count - i,
    {
        if !removed[i] {
            let ghost before = views(out@);
            out.push(copy_item(&items[i]));
            assert(views(out@) =~= before.push(done[i as int]));
        }
        i += 1;
    }
    out
}

/// The first group on the same page whose first item is within the height of a
/// rough line.
pub open spec fn rough_group(items: Seq<ItemView>, groups: Seq<Seq<usize>>, x: usize, k: int) -> Option<nat>
    decreases groups.len() - k,
{
    if k < 0 || k >= groups.len() {
        None
    } else {
        let head = items[groups[k][0] as int];
        let item = items[x as int];
        if head.page == item.page && item.y.spec_minus(head.y).spec_absolute().spec_less(
            Single { bits: ROUGH_LINE_BITS },
        ) {
            Some(k as nat)
        } else {
            rough_group(items, groups, x, k + 1)
        }
    }
}

/// The rough lines that the first `n` items form.
pub open spec fn rough_lines(items: Seq<ItemView>, n: nat) -> Seq<Seq<usize>>
    decreases n,
{
    if n == 0 {
        Seq::empty()
    } else {
        let before = rough_lines(items, (n - 1) as nat);
        let x = (n - 1) as usize;
        match rough_group(items, before, x, 0) {
            Some(k) => before.update(k as int, before[k as int].push(x)),
            None => before.push(seq![x]),
        }
    }
}

/// The first `n` lines one behind the other, each from left to right.
pub open spec fn reading_order(items: Seq<ItemView>, groups: Seq<Seq<usize>>, n: nat) -> Seq<usize>
    decreases n,
{
    if n == 0 {
        Seq::empty()
    } else {
        reading_order(items, groups, (n - 1) as nat) + stably_sorted(groups[n - 1], x_keys(items))
    }
}

/// The items in rough lines, each from left to right.
pub open spec fn ordered_items(items: Seq<ItemView>) -> Seq<ItemView> {
    let groups = rough_lines(items, items.len());
    let order = reading_order(items, groups, groups.len());
    Seq::new(order.len(), |i: int| items[order[i] as int])
}

/// The items after superscripts and subscripts are merged.
pub open spec fn merged_scripts(items: Seq<ItemView>) -> Seq<ItemView> {
    if items.len() < 2 {
        items
    } else {
        let ordered = ordered_items(items);
        after_runs(ordered, script_runs(ordered))
    }
}

fn find_rough_group(items: &Vec<TextItem>, groups: &Vec<Vec<usize>>, x: usize) -> (r: Option<usize>)
    requires
        x < items@.len(),
        valid_chains(lists(groups@), items@.len()),
    ensures
        match r {
            Some(k) => k < groups@.len() && rough_group(views(items@), lists(groups@), x, 0) == Some(k as nat),
            None => rough_group(views(items@), lists(groups@), x, 0) is None,
        },
{
    let mut k: usize = 0;
    while k < groups.len()
        invariant
            k <= groups@.len(),
            x < items@.len(),
            valid_chains(lists(groups@), items@.len()),
            rough_group(views(items@), lists(groups@), x, 0) == rough_group(
                views(items@),
                lists(groups@),
                x,
                k as int,
            ),
        decreases groups@.len() - k,
    {
        assert(lists(groups@)[k as int] == groups@[k as int]@);
        let head = &items[groups[k][0]];
        let item = &items[x];
        assert(views(items@)[x as int] == item@);
        assert(views(items@)[groups@[k as int]@[0] as int] == head@);
        if head.page == item.page && item.y.minus(head.y).absolute().less(Single { bits: ROUGH_LINE_BITS }) {
            return Some(k);
        }
        k += 1;
    }
    None
}

fn collect_rough_lines(items: &Vec<TextItem>) -> (r: Vec<Vec<usize>>)
    ensures
        lists(r@) == rough_lines(views(items@), items@.len()),
        valid_chains(lists(r@), items@.len()),
{
    let ghost model = views(items@);
    let mut groups: Vec<Vec<usize>> = Vec::new();
    let mut x: usize = 0;
    assert(lists(groups@) =~= rough_lines(model, 0));
    while x < items.len()
        invariant
            x <= items@.len(),
            model == views(items@),
            lists(groups@) == rough_lines(model, x as nat),
            valid_chains(lists(groups@), items@.len()),
        decreases items@.len() - x,
    {
        let ghost before = lists(groups@);
        match find_rough_group(items, &groups, x) {
            Some(k) => {
                assert(before[k as int] == groups@[k as int]@);
                groups[k].push(x);
                assert(lists(groups@) =~= before.update(k as int, before[k as int].push(x)));
            },
            None => {
                let mut group: Vec<usize> = Vec::new();
                group.push(x);
                assert(group@ =~= seq![x]);
                groups.push(group);
                assert(lists(groups@) =~= before.push(seq![x]));
            },
        }
        x += 1;
    }
    groups
}

/// Merges superscripts and subscripts into their words, or gives them a
/// baseline shift where they cannot be fused.
///
/// The items come out in rough lines, each from left to right, without the
/// fused glyphs.
pub fn merge_subscript_items(items: Vec<TextItem>) -> (r: Vec<TextItem>)
    ensures
        views(r@) == merged_scripts(views(items@)),
{
    if items.len() < 2 {
        return items;
    }
    let ghost model = views(items@);
    let groups = collect_rough_lines(&items);
    let ghost model_groups = lists(groups@);
    let across = make_keys(&items, KeyKind::X);
    let mut order: Vec<usize> = Vec::new();
    let mut ordered: Vec<TextItem> = Vec::new();
    let mut i: usize = 0;
    assert(order@ =~= reading_order(model, model_groups, 0));
    while i < groups.len()
        invariant
            i <= groups@.len(),
            model == views(items@),
            model_groups == lists(groups@),
            valid_chains(model_groups, items@.len()),
            across@ == x_keys(model),
            across@.len() == items@.len(),
            order@ == reading_order(model, model_groups, i as nat),
            below(order@, items@.len()),
            ordered@.len() == order@.len(),
            forall|k: int| 0 <= k < order@.len() ==> (#[trigger] ordered@[k])@ == model[order@[k] as int],
        decreases groups@.len() - i,
    {
        assert(model_groups[i as int] == groups@[i as int]@);
        assert(has_keys(groups@[i as int]@, across@));
        let line = sort_indices(&groups[i], &across);
        let ghost start = order@;
        let mut j: usize = 0;
        assert(order@ =~= start + line@.take(0));
        while j < line.len()
            invariant
                j <= line@.len(),
                model == views(items@),
                across@.len() == items@.len(),
                has_keys(line@, across@),
                order@ == start + line@.take(j as int),
                below(order@, items@.len()),
                ordered@.len() == order@.len(),
                forall|k: int| 0 <= k < order@.len() ==> (#[trigger] ordered@[k])@ == model[order@[k] as int],
            decreases line@.len() - j,
        {
            let x = line[j];
            order.push(x);
            ordered.push(copy_item(&items[x]));
            assert(order@ =~= start + line@.take(j + 1));
            j += 1;
        }
        assert(line@.take(line@.len() as int) =~= line@);
        i += 1;
    }
    assert(views(ordered@) =~= ordered_items(model));
    let runs = detect_script_runs(&ordered);
    apply_script_runs(ordered, &runs)
}

/// Mapping digits keeps the length of a text, changes digits only, and leaves
/// no ASCII digit.
pub proof fn law_digits_map_one_for_one(s: Seq<char>, raised: bool)
    ensures
        script_digits(s, raised).len() == s.len(),
        forall|i: int| 0 <= i < s.len() && !ascii_digit(s[i]) ==> #[trigger] script_digits(s, raised)[i] == s[i],
        forall|i: int| 0 <= i < s.len() ==> !ascii_digit(#[trigger] script_digits(s, raised)[i]),
{
}

/// Distinct digits have distinct forms, and the superscript forms are none of
/// the subscript ones.
pub proof fn law_script_digits_are_distinct(a: char, b: char)
    requires
        ascii_digit(a),
        ascii_digit(b),
    ensures
        a != b ==> script_digit(a, true) != script_digit(b, true),
        a != b ==> script_digit(a, false) != script_digit(b, false),
        script_digit(a, true) != script_digit(b, false),
{
}

proof fn lemma_kept_length(items: Seq<ItemView>, removed: Seq<bool>, n: nat)
    ensures
        kept(items, removed, n).len() <= n,
    decreases n,
{
    if n > 0 {
        lemma_kept_length(items, removed, (n - 1) as nat);
    }
}

proof fn lemma_applied_keeps_pages(items: Seq<ItemView>, runs: Seq<RunView>, n: nat)
    requires
        n <= runs.len(),
        valid_runs(runs, items.len()),
    ensures
        applied(items, runs, n).items.len() == items.len(),
        applied(items, runs, n).removed.len() == items.len(),
        forall|i: int|
            0 <= i < items.len() ==> (#[trigger] applied(items, runs, n).items[i]).page == items[i].page
                && applied(items, runs, n).items[i].y == items[i].y
                && applied(items, runs, n).items[i].font_size == items[i].font_size,
    decreases n,
{
    if n > 0 {
        lemma_applied_keeps_pages(items, runs, (n - 1) as nat);
        assert(valid_run(runs[n - 1], items.len()));
    }
}

/// Applying runs adds no items, and no item changes its page, its baseline or
/// its font size.
pub proof fn law_runs_only_merge(items: Seq<ItemView>, runs: Seq<RunView>)
    requires
        valid_runs(runs, items.len()),
    ensures
        after_runs(items, runs).len() <= items.len(),
        forall|i: int|
            0 <= i < items.len() ==> (#[trigger] applied(items, runs, runs.len()).items[i]).page == items[i].page
                && applied(items, runs, runs.len()).items[i].y == items[i].y
                && applied(items, runs, runs.len()).items[i].font_size == items[i].font_size,
{
    lemma_applied_keeps_pages(items, runs, runs.len());
    let done = applied(items, runs, runs.len());
    lemma_kept_length(done.items, done.removed, items.len());
}

} // verus!
