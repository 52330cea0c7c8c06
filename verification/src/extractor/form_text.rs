//! The texts that a form's show operators give.

use crate::extractor::form_walk::{
    FormWalk, WalkView, COLUMN_SPACES_BITS, DEFAULT_SPACE_BITS, LEAST_SPACE_BITS, SPACE_PART_BITS, THOUSAND_BITS,
};
use crate::extractor::text_paint::Matrix;
use crate::single::Single;
use crate::text::{
    characters, chars_end_with, copy_text, ends_with, push_chars, push_text, text_of, trim_chars, trimmed,
};
use crate::types::{views, ItemKind, ItemType, ItemView, TextItem};
use vstd::prelude::*;

verus! {

/// Text items of a content stream together with the evidence for text that is
/// stored in visual right-to-left order.
#[derive(Debug)]
pub struct ExtractedText {
    pub items: Vec<TextItem>,
    /// Indices of the items that may be stored in visual order.
    pub rtl_visual_candidates: Vec<usize>,
    /// Show operators that are stored in logical order.
    pub rtl_logical_ops: u32,
    /// Baseline angle of every show operator that produced text.
    pub run_rotations: Vec<Single>,
    /// Invisible text was present but suppressed.
    pub skipped_invisible: bool,
}

/// What an [`ExtractedText`] is.
#[verifier::ext_equal]
pub struct ExtractedView {
    pub items: Seq<ItemView>,
    pub rtl_visual_candidates: Seq<usize>,
    pub rtl_logical_ops: u32,
    pub run_rotations: Seq<Single>,
    pub skipped_invisible: bool,
}

impl View for ExtractedText {
    type V = ExtractedView;

    open spec fn view(&self) -> ExtractedView {
        ExtractedView {
            items: views(self.items@),
            rtl_visual_candidates: self.rtl_visual_candidates@,
            rtl_logical_ops: self.rtl_logical_ops,
            run_rotations: self.run_rotations@,
            skipped_invisible: self.skipped_invisible,
        }
    }
}

/// A count that stops at the end of its range.
pub open spec fn saturated(n: int) -> u32 {
    if n <= u32::MAX {
        n as u32
    } else {
        u32::MAX
    }
}

fn count_one(n: u32) -> (r: u32)
    ensures
        r == saturated(n + 1),
{
    if n < u32::MAX {
        n + 1
    } else {
        n
    }
}

impl ExtractedView {
    /// Every candidate is one of the items.
    pub open spec fn wf(self) -> bool {
        forall|i: int|
            0 <= i < self.rtl_visual_candidates.len() ==> (#[trigger] self.rtl_visual_candidates[i])
                < self.items.len()
    }

    /// The extraction of nothing.
    pub open spec fn nothing() -> ExtractedView {
        ExtractedView {
            items: Seq::empty(),
            rtl_visual_candidates: Seq::empty(),
            rtl_logical_ops: 0,
            run_rotations: Seq::empty(),
            skipped_invisible: false,
        }
    }

    /// Two extractions one behind the other; the candidates of the second are
    /// counted from the first item of the whole.
    pub open spec fn joined(self, more: ExtractedView) -> ExtractedView {
        ExtractedView {
            items: self.items + more.items,
            rtl_visual_candidates: self.rtl_visual_candidates + Seq::new(
                more.rtl_visual_candidates.len(),
                |i: int| (more.rtl_visual_candidates[i] + self.items.len()) as usize,
            ),
            rtl_logical_ops: saturated(self.rtl_logical_ops + more.rtl_logical_ops),
            run_rotations: self.run_rotations + more.run_rotations,
            skipped_invisible: self.skipped_invisible || more.skipped_invisible,
        }
    }
}

impl ExtractedText {
    pub fn new() -> (r: ExtractedText)
        ensures
            r@ == ExtractedView::nothing(),
            r@.wf(),
    {
        let r = ExtractedText {
            items: Vec::new(),
            rtl_visual_candidates: Vec::new(),
            rtl_logical_ops: 0,
            run_rotations: Vec::new(),
            skipped_invisible: false,
        };
        assert(r@ =~= ExtractedView::nothing());
        r
    }

    /// Appends this extraction to another, rebasing the candidates.
    pub fn append_into(self, target: &mut ExtractedText)
        requires
            self@.wf(),
            old(target)@.wf(),
        ensures
            final(target)@ == old(target)@.joined(self@),
            final(target)@.wf(),
    {
        let ghost more = self@;
        let base: usize = target.items.len();
        let mut items = self.items;
        let count: usize = items.len();
        target.items.append(&mut items);
        let total: usize = target.items.len();
        let candidates = self.rtl_visual_candidates;
        let mut i: usize = 0;
        while i < candidates.len()
            invariant
                i <= candidates@.len(),
                more.wf(),
                more.rtl_visual_candidates == candidates@,
                more.items.len() == count,
                base + count == total,
                base == old(target).items@.len(),
                target.items@ == old(target).items@ + self.items@,
                target.rtl_logical_ops == old(target).rtl_logical_ops,
                target.run_rotations == old(target).run_rotations,
                target.skipped_invisible == old(target).skipped_invisible,
                target.rtl_visual_candidates@ == old(target).rtl_visual_candidates@ + Seq::new(
                    i as nat,
                    |k: int| (candidates@[k] + base) as usize,
                ),
            decreases candidates@.len() - i,
        {
            assert(more.rtl_visual_candidates[i as int] < more.items.len());
            target.rtl_visual_candidates.push(candidates[i] + base);
            assert(target.rtl_visual_candidates@ =~= old(target).rtl_visual_candidates@ + Seq::new(
                (i + 1) as nat,
                |k: int| (candidates@[k] + base) as usize,
            ));
            i += 1;
        }
        let room: u32 = u32::MAX - target.rtl_logical_ops;
        target.rtl_logical_ops = if self.rtl_logical_ops <= room {
            target.rtl_logical_ops + self.rtl_logical_ops
        } else {
            u32::MAX
        };
        let mut rotations = self.run_rotations;
        target.run_rotations.append(&mut rotations);
        target.skipped_invisible = target.skipped_invisible || self.skipped_invisible;
        proof {
            let joined = old(target)@.joined(more);
            assert(target@.items =~= joined.items);
            assert(target@.rtl_visual_candidates =~= joined.rtl_visual_candidates);
            assert(target@.run_rotations =~= joined.run_rotations);
            assert forall|k: int| 0 <= k < target@.rtl_visual_candidates.len() implies (
            #[trigger] target@.rtl_visual_candidates[k]) < target@.items.len() by {
                let first = old(target)@.rtl_visual_candidates;
                if k < first.len() {
                    assert(first[k] < old(target)@.items.len());
                } else {
                    assert(more.rtl_visual_candidates[k - first.len()] < more.items.len());
                }
            }
        }
    }
}

/// What the metrics of a font say about its space.
#[derive(Clone, Copy, Debug)]
pub struct SpaceMetrics {
    pub space_width: u16,
    pub units_scale: Single,
}

/// The adjustment, in thousandths of the font size, that separates words.
pub open spec fn space_threshold(metrics: Option<SpaceMetrics>) -> Single {
    match metrics {
        Some(metrics) => Single::spec_from_natural(metrics.space_width as nat).spec_times(
            metrics.units_scale,
        ).spec_times(Single { bits: THOUSAND_BITS }).spec_times(Single { bits: SPACE_PART_BITS }).spec_max(
            Single { bits: LEAST_SPACE_BITS },
        ),
        None => Single { bits: DEFAULT_SPACE_BITS },
    }
}

fn find_space_threshold(metrics: Option<SpaceMetrics>) -> (r: Single)
    ensures
        r == space_threshold(metrics),
{
    match metrics {
        Some(metrics) => Single::from_natural(metrics.space_width as u64).times(metrics.units_scale).times(
            Single { bits: THOUSAND_BITS },
        ).times(Single { bits: SPACE_PART_BITS }).max(Single { bits: LEAST_SPACE_BITS }),
        None => Single { bits: DEFAULT_SPACE_BITS },
    }
}

/// An element of a show array.
pub enum ArrayElement {
    /// An adjustment, in thousandths of the font size, against the direction
    /// of the line.
    Adjust(Single),
    /// Anything else.
    Shown(ShownElement),
}

/// A text of a show array, decoded and measured.
pub struct ShownElement {
    /// It has bytes.
    pub painted: bool,
    /// Its width by the metrics of the font, where the font has some and the
    /// element is a text.
    pub width: Option<Single>,
    /// Its estimated width, for a font without metrics.
    pub estimate: Single,
    /// Its text, and whether symbols were rewritten in it.
    pub decoded: Option<(String, bool)>,
}

/// What an [`ArrayElement`] is.
pub enum ElementView {
    Adjust(Single),
    Shown { painted: bool, width: Option<Single>, estimate: Single, decoded: Option<(Seq<char>, bool)> },
}

impl View for ArrayElement {
    type V = ElementView;

    open spec fn view(&self) -> ElementView {
        match *self {
            ArrayElement::Adjust(n) => ElementView::Adjust(n),
            ArrayElement::Shown(shown) => ElementView::Shown {
                painted: shown.painted,
                width: shown.width,
                estimate: shown.estimate,
                decoded: match shown.decoded {
                    Some((text, rewritten)) => Some((text@, rewritten)),
                    None => None,
                },
            },
        }
    }
}

pub open spec fn element_views(elements: Seq<ArrayElement>) -> Seq<ElementView> {
    Seq::new(elements.len(), |i: int| elements[i]@)
}

/// A part of a show array between column-sized gaps.
pub struct SubRun {
    pub text: String,
    /// Where its first glyph is painted, from the start of the array.
    pub start: Single,
    /// Where its last glyph ends.
    pub end: Single,
    /// The estimated width of its texts.
    pub estimate: Single,
    pub legacy_symbol_rewrite: bool,
}

/// What a [`SubRun`] is.
#[verifier::ext_equal]
pub struct SubRunView {
    pub text: Seq<char>,
    pub start: Single,
    pub end: Single,
    pub estimate: Single,
    pub legacy_symbol_rewrite: bool,
}

impl View for SubRun {
    type V = SubRunView;

    open spec fn view(&self) -> SubRunView {
        SubRunView {
            text: self.text@,
            start: self.start,
            end: self.end,
            estimate: self.estimate,
            legacy_symbol_rewrite: self.legacy_symbol_rewrite,
        }
    }
}

pub open spec fn sub_run_views(runs: Seq<SubRun>) -> Seq<SubRunView> {
    Seq::new(runs.len(), |i: int| runs[i]@)
}

/// A show array as far as it was read.
#[verifier::ext_equal]
pub struct ArrayState {
    pub runs: Seq<SubRunView>,
    /// The text of the part that is open.
    pub text: Seq<char>,
    pub rewritten: bool,
    pub estimate: Single,
    pub start: Single,
    pub total: Single,
    /// The open part has painted a glyph.
    pub painted: bool,
    /// An adjustment moved the pen behind the start of its part.
    pub backward_jump: bool,
}

/// How a show array is read: in this font size, with these thresholds, hidden
/// or not.
#[derive(Clone, Copy, Debug)]
pub struct ArraySetting {
    pub font_size: Single,
    pub metrics: Option<SpaceMetrics>,
    pub hidden: bool,
}

pub open spec fn empty_array() -> ArrayState {
    let zero = Single { bits: 0 };
    ArrayState {
        runs: Seq::empty(),
        text: Seq::empty(),
        rewritten: false,
        estimate: zero,
        start: zero,
        total: zero,
        painted: false,
        backward_jump: false,
    }
}

/// The part that is open, as it would be closed now.
pub open spec fn open_part(state: ArrayState) -> SubRunView {
    SubRunView {
        text: state.text,
        start: state.start,
        end: state.total,
        estimate: state.estimate,
        legacy_symbol_rewrite: state.rewritten,
    }
}

/// The displacement of an adjustment.
pub open spec fn displacement(n: Single, font_size: Single) -> Single {
    n.spec_negated().spec_over(Single { bits: THOUSAND_BITS }).spec_times(font_size)
}

/// An adjustment: a column-sized gap closes the open part, a word-sized one
/// sets a space, and one that goes back behind the start of the part is
/// remembered. Plain positive kerning never goes that far.
pub open spec fn adjusted(state: ArrayState, n: Single, setting: ArraySetting) -> ArrayState {
    let space = space_threshold(setting.metrics);
    let column = space.spec_times(Single { bits: COLUMN_SPACES_BITS });
    let total = state.total.spec_plus(displacement(n, setting.font_size));
    let open = state.text.len() > 0;
    let backward_jump = state.backward_jump || (space.spec_less(n) && open && total.spec_less(state.start));
    if !setting.hidden && n.spec_less(column.spec_negated()) && open {
        ArrayState {
            runs: state.runs.push(open_part(state)),
            text: Seq::empty(),
            rewritten: false,
            estimate: Single { bits: 0 },
            start: total,
            total,
            painted: false,
            backward_jump,
        }
    } else {
        ArrayState {
            text: if !setting.hidden && n.spec_less(space.spec_negated()) && open && !ends_with(state.text, ' ') {
                state.text.push(' ')
            } else {
                state.text
            },
            total,
            backward_jump,
            ..state
        }
    }
}

/// A text: the first painted glyph of a part fixes its start, the pen moves by
/// the measured width or else by the estimate, and the text joins the part.
pub open spec fn shown(
    state: ArrayState,
    painted: bool,
    width: Option<Single>,
    estimate: Single,
    decoded: Option<(Seq<char>, bool)>,
    setting: ArraySetting,
) -> ArrayState {
    let starts = !state.painted && painted;
    let measured = setting.metrics is Some;
    ArrayState {
        start: if starts {
            state.total
        } else {
            state.start
        },
        painted: state.painted || painted,
        total: if !measured {
            state.total.spec_plus(estimate)
        } else {
            match width {
                Some(width) => state.total.spec_plus(width),
                None => state.total,
            }
        },
        estimate: if measured {
            state.estimate
        } else {
            state.estimate.spec_plus(estimate)
        },
        text: match decoded {
            Some((text, _)) => if setting.hidden {
                state.text
            } else {
                state.text + text
            },
            None => state.text,
        },
        rewritten: match decoded {
            Some((_, rewritten)) => state.rewritten || (!setting.hidden && rewritten),
            None => state.rewritten,
        },
        ..state
    }
}

/// The state after the first `n` elements.
pub open spec fn array_state(elements: Seq<ElementView>, setting: ArraySetting, n: nat) -> ArrayState
    decreases n,
{
    if n == 0 {
        empty_array()
    } else {
        let before = array_state(elements, setting, (n - 1) as nat);
        match elements[n - 1] {
            ElementView::Adjust(x) => adjusted(before, x, setting),
            ElementView::Shown { painted, width, estimate, decoded } => shown(
                before,
                painted,
                width,
                estimate,
                decoded,
                setting,
            ),
        }
    }
}

/// The parts of an array after its last element: the open one counts where it
/// holds more than white space.
pub open spec fn final_parts(state: ArrayState, hidden: bool) -> Seq<SubRunView> {
    if !hidden && trimmed(state.text).len() > 0 {
        state.runs.push(open_part(state))
    } else {
        state.runs
    }
}

/// The array is a run of white space alone.
pub open spec fn is_space_run(state: ArrayState, hidden: bool) -> bool {
    !hidden && trimmed(state.text).len() == 0 && state.runs.len() == 0 && state.text.len() > 0
}

/// What a show array gives.
pub struct ArrayParts {
    pub runs: Vec<SubRun>,
    /// The width of the whole array, by which the cursor moves.
    pub total: Single,
    pub backward_jump: bool,
    /// The array is a run of white space alone, from this start and with this
    /// estimate.
    pub space_run: Option<(Single, Single)>,
}

/// Reads a show array.
pub fn read_array(elements: &Vec<ArrayElement>, setting: &ArraySetting) -> (r: ArrayParts)
    ensures
        ({
            let state = array_state(element_views(elements@), *setting, elements@.len());
            &&& sub_run_views(r.runs@) == final_parts(state, setting.hidden)
            &&& r.total == state.total
            &&& r.backward_jump == state.backward_jump
            &&& r.space_run == if is_space_run(state, setting.hidden) {
                Some((state.start, state.estimate))
            } else {
                None
            }
        }),
{
    let ghost model = element_views(elements@);
    let hidden = setting.hidden;
    let measured = setting.metrics.is_some();
    let space = find_space_threshold(setting.metrics);
    let column = space.times(Single { bits: COLUMN_SPACES_BITS });
    let mut runs: Vec<SubRun> = Vec::new();
    let mut text: Vec<char> = Vec::new();
    let mut rewritten = false;
    let mut estimate = Single::zero();
    let mut start = Single::zero();
    let mut total = Single::zero();
    let mut painted = false;
    let mut backward_jump = false;
    let mut i: usize = 0;
    assert(sub_run_views(runs@) =~= empty_array().runs);
    assert(text@ =~= empty_array().text);
    while i < elements.len()
        invariant
            i <= elements@.len(),
            model == element_views(elements@),
            hidden == setting.hidden,
            measured == (setting.metrics is Some),
            space == space_threshold(setting.metrics),
            column == space.spec_times(Single { bits: COLUMN_SPACES_BITS }),
            array_state(model, *setting, i as nat) == (ArrayState {
                runs: sub_run_views(runs@),
                text: text@,
                rewritten,
                estimate,
                start,
                total,
                painted,
                backward_jump,
            }),
        decreases elements@.len() - i,
    {
        let ghost before = array_state(model, *setting, i as nat);
        let ghost runs_before = sub_run_views(runs@);
        assert(model[i as int] == elements@[i as int]@);
        match &elements[i] {
            ArrayElement::Adjust(n) => {
                let moved = total.plus(
                    n.negated().over(Single { bits: THOUSAND_BITS }).times(setting.font_size),
                );
                let open = text.len() > 0;
                if space.less(*n) && open && moved.less(start) {
                    backward_jump = true;
                }
                if !hidden && n.less(column.negated()) && open {
                    let run = SubRun {
                        text: text_of(&text),
                        start,
                        end: total,
                        estimate,
                        legacy_symbol_rewrite: rewritten,
                    };
                    runs.push(run);
                    assert(sub_run_views(runs@) =~= runs_before.push(open_part(before)));
                    text = Vec::new();
                    assert(text@ =~= Seq::empty());
                    rewritten = false;
                    estimate = Single::zero();
                    start = moved;
                    total = moved;
                    painted = false;
                } else {
                    total = moved;
                    if !hidden && n.less(space.negated()) && open && !chars_end_with(&text, ' ') {
                        text.push(' ');
                    }
                }
            },
            ArrayElement::Shown(shown) => {
                if !painted && shown.painted {
                    start = total;
                    painted = true;
                }
                if measured {
                    if let Some(width) = shown.width {
                        total = total.plus(width);
                    }
                } else {
                    total = total.plus(shown.estimate);
                    estimate = estimate.plus(shown.estimate);
                }
                if !hidden {
                    if let Some((decoded, symbols)) = &shown.decoded {
                        push_chars(&mut text, &characters(decoded));
                        rewritten = rewritten || *symbols;
                    }
                }
            },
        }
        assert(array_state(model, *setting, (i + 1) as nat) =~= (ArrayState {
            runs: sub_run_views(runs@),
            text: text@,
            rewritten,
            estimate,
            start,
            total,
            painted,
            backward_jump,
        }));
        i += 1;
    }
    let ghost state = array_state(model, *setting, elements@.len());
    let mut space_run: Option<(Single, Single)> = None;
    if !hidden && trim_chars(&text).len() > 0 {
        let ghost runs_before = sub_run_views(runs@);
        let run = SubRun { text: text_of(&text), start, end: total, estimate, legacy_symbol_rewrite: rewritten };
        runs.push(run);
        assert(sub_run_views(runs@) =~= runs_before.push(open_part(state)));
    } else if !hidden && runs.len() == 0 && text.len() > 0 {
        space_run = Some((start, estimate));
    }
    ArrayParts { runs, total, backward_jump, space_run }
}

/// The advance of a part whose font has no metrics: the accumulated width with
/// its kerning, unless that went past zero against the direction of the
/// estimate; then the estimate. `None` where the text itself has to be
/// estimated.
pub open spec fn fallback_advance(start: Single, end: Single, estimate: Single, measured: bool) -> Option<Single> {
    let zero = Single { bits: 0 };
    let width = end.spec_minus(start);
    if measured || (!width.spec_zero() && zero.spec_less(width) == zero.spec_less(estimate)) {
        Some(width)
    } else if !estimate.spec_zero() {
        Some(estimate)
    } else {
        None
    }
}

pub fn sub_run_fallback(run: &SubRun, measured: bool) -> (r: Option<Single>)
    ensures
        r == fallback_advance(run.start, run.end, run.estimate, measured),
{
    let zero = Single::zero();
    let width = run.end.minus(run.start);
    if measured || (!width.is_zero() && zero.less(width) == zero.less(run.estimate)) {
        Some(width)
    } else if !run.estimate.is_zero() {
        Some(run.estimate)
    } else {
        None
    }
}

/// How the texts of a show array advance across the page.
pub open spec fn advance_scale(walk: WalkView) -> (Single, Single) {
    let t = walk.text_matrix;
    let c = walk.graphics.ctm;
    let h = walk.graphics.horizontal_scale;
    (
        t.a.spec_times(c.a).spec_plus(t.b.spec_times(c.c)).spec_times(h),
        t.a.spec_times(c.b).spec_plus(t.b.spec_times(c.d)).spec_times(h),
    )
}

fn find_advance_scale(walk: &FormWalk) -> (r: (Single, Single))
    ensures
        r == advance_scale(walk@),
{
    let t = walk.text_matrix;
    let c = walk.graphics.ctm;
    let h = walk.graphics.horizontal_scale;
    (t.a.times(c.a).plus(t.b.times(c.c)).times(h), t.a.times(c.b).plus(t.b.times(c.d)).times(h))
}

/// The face of the current font.
pub struct FontFace {
    /// The base font name.
    pub base_font: String,
    /// The name that items carry.
    pub item_font: String,
    /// The name or the descriptor says bold.
    pub bold: bool,
    /// The name or the descriptor says italic.
    pub italic: bool,
    /// An ordinary text font, whose stroke weight can be inferred.
    pub paintable: bool,
}

/// A text that was decoded and placed on the page.
pub struct PlacedRun {
    /// The decoded text.
    pub text: String,
    /// The text with its ligatures expanded.
    pub expanded: String,
    /// The text may be stored in visual right-to-left order.
    pub rtl_candidate: bool,
    pub legacy_symbol_rewrite: bool,
    pub x: Single,
    pub y: Single,
    pub width: Single,
    pub height: Single,
    pub rotation: Single,
    pub advance_known: bool,
}

/// Where and how the runs of one show operator are shown.
pub struct ShowSetting {
    pub rendered_size: Single,
    pub page: u32,
    /// The length of the shorter axis of the transformation.
    pub scale: Single,
}

/// The item of a placed run.
pub open spec fn run_item(run: PlacedRun, face: FontFace, walk: WalkView, setting: ShowSetting) -> ItemView {
    ItemView {
        text: run.expanded@,
        x: run.x,
        y: run.y,
        width: run.width,
        height: run.height,
        rotation: run.rotation,
        advance_known: run.advance_known,
        font: face.item_font@,
        font_tag: walk.graphics.font,
        legacy_symbol_rewrite: run.legacy_symbol_rewrite,
        font_size: setting.rendered_size,
        page: setting.page,
        is_bold: face.bold || (face.paintable && walk.graphics.paint.bolder(
            run.text@,
            setting.rendered_size,
            face.base_font@,
            walk.graphics.ctm,
            setting.scale,
        )),
        is_italic: face.italic,
        is_underline: false,
        is_strikeout: false,
        item_type: ItemKind::Text,
        mcid: None,
        baseline_shift: Single { bits: 0 },
    }
}

fn make_item(run: &PlacedRun, face: &FontFace, walk: &FormWalk, setting: &ShowSetting) -> (r: TextItem)
    ensures
        r@ == run_item(*run, *face, walk@, *setting),
{
    TextItem {
        text: copy_text(&run.expanded),
        x: run.x,
        y: run.y,
        width: run.width,
        height: run.height,
        rotation: run.rotation,
        advance_known: run.advance_known,
        font: copy_text(&face.item_font),
        font_tag: copy_text(&walk.graphics.font),
        legacy_symbol_rewrite: run.legacy_symbol_rewrite,
        font_size: setting.rendered_size,
        page: setting.page,
        is_bold: face.bold || (face.paintable && walk.graphics.paint.adds_bold(
            &run.text,
            setting.rendered_size,
            &face.base_font,
            &walk.graphics.ctm,
            setting.scale,
        )),
        is_italic: face.italic,
        is_underline: false,
        is_strikeout: false,
        item_type: ItemType::Text,
        mcid: None,
        baseline_shift: Single::zero(),
    }
}

/// The extraction with one more text. Forward paint order may be visual
/// storage; a mirrored matrix already paints right to left; a rotated one
/// carries no horizontal evidence.
pub open spec fn with_text(
    before: ExtractedView,
    run: PlacedRun,
    face: FontFace,
    walk: WalkView,
    setting: ShowSetting,
    combined: Matrix,
    angle: Single,
) -> ExtractedView {
    let evidence = run.rtl_candidate && combined.b.spec_absolute().spec_less(combined.a.spec_absolute());
    let forward = Single { bits: 0 }.spec_less(combined.a.spec_times(walk.graphics.horizontal_scale));
    ExtractedView {
        items: before.items.push(run_item(run, face, walk, setting)),
        rtl_visual_candidates: if evidence && forward {
            before.rtl_visual_candidates.push(before.items.len() as usize)
        } else {
            before.rtl_visual_candidates
        },
        rtl_logical_ops: if evidence && !forward {
            saturated(before.rtl_logical_ops + 1)
        } else {
            before.rtl_logical_ops
        },
        run_rotations: before.run_rotations.push(angle),
        ..before
    }
}

/// Adds the text of a show operator, placed by the combined matrix and read at
/// this angle. White space shows nothing and is reported by `false`.
pub fn add_text(
    extracted: &mut ExtractedText,
    run: &PlacedRun,
    face: &FontFace,
    walk: &FormWalk,
    setting: &ShowSetting,
    combined: &Matrix,
    angle: Single,
) -> (r: bool)
    requires
        old(extracted)@.wf(),
    ensures
        r == (trimmed(run.text@).len() > 0),
        final(extracted)@ == if r {
            with_text(old(extracted)@, *run, *face, walk@, *setting, *combined, angle)
        } else {
            old(extracted)@
        },
        final(extracted)@.wf(),
{
    let chars = characters(&run.text);
    if trim_chars(&chars).len() == 0 {
        return false;
    }
    extracted.run_rotations.push(angle);
    let count: usize = extracted.items.len();
    if run.rtl_candidate && combined.b.absolute().less(combined.a.absolute()) {
        if Single::zero().less(combined.a.times(walk.graphics.horizontal_scale)) {
            extracted.rtl_visual_candidates.push(count);
        } else {
            extracted.rtl_logical_ops = count_one(extracted.rtl_logical_ops);
        }
    }
    let item = make_item(run, face, walk, setting);
    extracted.items.push(item);
    proof {
        let after = with_text(old(extracted)@, *run, *face, walk@, *setting, *combined, angle);
        assert(extracted@.items =~= after.items);
        assert(extracted@ =~= after);
        assert forall|k: int| 0 <= k < extracted@.rtl_visual_candidates.len() implies (
        #[trigger] extracted@.rtl_visual_candidates[k]) < extracted@.items.len() by {
            let first = old(extracted)@.rtl_visual_candidates;
            if k < first.len() {
                assert(first[k] < old(extracted)@.items.len());
            }
        }
    }
    true
}

/// The evidence of a show array so far, and whether its backward jump has
/// counted.
#[verifier::ext_equal]
pub struct ArrayEvidence {
    pub extracted: ExtractedView,
    pub voted: bool,
}

/// The extraction with the first `n` parts of a show array. Parts of a
/// mirrored matrix each count as logical order, a backward jump counts once
/// for the whole operator.
pub open spec fn with_parts(
    before: ExtractedView,
    runs: Seq<PlacedRun>,
    face: FontFace,
    walk: WalkView,
    setting: ShowSetting,
    backward_jump: bool,
    n: nat,
) -> ArrayEvidence
    decreases n,
{
    if n == 0 {
        ArrayEvidence { extracted: before, voted: false }
    } else {
        let state = with_parts(before, runs, face, walk, setting, backward_jump, (n - 1) as nat);
        let run = runs[n - 1];
        let (across, up) = advance_scale(walk);
        let evidence = run.rtl_candidate && up.spec_absolute().spec_less(across.spec_absolute());
        let mirrored = across.spec_less(Single { bits: 0 });
        let logical = evidence && (mirrored || (backward_jump && !state.voted));
        ArrayEvidence {
            extracted: ExtractedView {
                items: state.extracted.items.push(run_item(run, face, walk, setting)),
                rtl_visual_candidates: if evidence && !mirrored && !backward_jump {
                    state.extracted.rtl_visual_candidates.push(state.extracted.items.len() as usize)
                } else {
                    state.extracted.rtl_visual_candidates
                },
                rtl_logical_ops: if logical {
                    saturated(state.extracted.rtl_logical_ops + 1)
                } else {
                    state.extracted.rtl_logical_ops
                },
                ..state.extracted
            },
            voted: state.voted || (evidence && !mirrored && backward_jump),
        }
    }
}

/// Adds the parts of a show array, read at this angle. An array without parts
/// adds nothing.
pub fn add_parts(
    extracted: &mut ExtractedText,
    runs: &Vec<PlacedRun>,
    face: &FontFace,
    walk: &FormWalk,
    setting: &ShowSetting,
    backward_jump: bool,
    angle: Single,
)
    requires
        old(extracted)@.wf(),
    ensures
        final(extracted)@ == if runs@.len() == 0 {
            old(extracted)@
        } else {
            with_parts(
                ExtractedView { run_rotations: old(extracted)@.run_rotations.push(angle), ..old(extracted)@ },
                runs@,
                *face,
                walk@,
                *setting,
                backward_jump,
                runs@.len(),
            ).extracted
        },
        final(extracted)@.wf(),
{
    if runs.len() == 0 {
        return;
    }
    extracted.run_rotations.push(angle);
    let ghost base = extracted@;
    assert(base =~= (ExtractedView { run_rotations: old(extracted)@.run_rotations.push(angle), ..old(extracted)@ }));
    let (across, up) = find_advance_scale(walk);
    let horizontal = up.absolute().less(across.absolute());
    let mirrored = across.less(Single::zero());
    let mut voted = false;
    let mut i: usize = 0;
    while i < runs.len()
        invariant
            i <= runs@.len(),
            (across, up) == advance_scale(walk@),
            horizontal == up.spec_absolute().spec_less(across.spec_absolute()),
            mirrored == across.spec_less(Single { bits: 0 }),
            extracted@.wf(),
            extracted@ == with_parts(base, runs@, *face, walk@, *setting, backward_jump, i as nat).extracted,
            voted == with_parts(base, runs@, *face, walk@, *setting, backward_jump, i as nat).voted,
        decreases runs@.len() - i,
    {
        let ghost before = extracted@;
        let run = &runs[i];
        let count: usize = extracted.items.len();
        if horizontal && run.rtl_candidate {
            if mirrored {
                extracted.rtl_logical_ops = count_one(extracted.rtl_logical_ops);
            } else if backward_jump {
                if !voted {
                    extracted.rtl_logical_ops = count_one(extracted.rtl_logical_ops);
                    voted = true;
                }
            } else {
                extracted.rtl_visual_candidates.push(count);
            }
        }
        let item = make_item(run, face, walk, setting);
        extracted.items.push(item);
        proof {
            let after = with_parts(base, runs@, *face, walk@, *setting, backward_jump, (i + 1) as nat);
            assert(extracted@.items =~= after.extracted.items);
            assert(extracted@ =~= after.extracted);
            assert forall|k: int| 0 <= k < extracted@.rtl_visual_candidates.len() implies (
            #[trigger] extracted@.rtl_visual_candidates[k]) < extracted@.items.len() by {
                let first = before.rtl_visual_candidates;
                if k < first.len() {
                    assert(first[k] < before.items.len());
                }
            }
        }
        i += 1;
    }
}

/// The text that stands for an image.
pub open spec fn image_text(name: Seq<char>) -> Seq<char> {
    "[Image: "@ + name + "]"@
}

/// The box of an image on the page.
#[derive(Clone, Copy, Debug)]
pub struct ImageBox {
    pub x: Single,
    pub y: Single,
    pub width: Single,
    pub height: Single,
}

/// The item of an image.
pub open spec fn image_item(name: Seq<char>, place: ImageBox, page: u32) -> ItemView {
    let zero = Single { bits: 0 };
    ItemView {
        text: image_text(name),
        x: place.x,
        y: place.y,
        width: place.width,
        height: place.height,
        rotation: zero,
        advance_known: true,
        font: Seq::empty(),
        font_tag: Seq::empty(),
        legacy_symbol_rewrite: false,
        font_size: zero,
        page,
        is_bold: false,
        is_italic: false,
        is_underline: false,
        is_strikeout: false,
        item_type: ItemKind::Image,
        mcid: None,
        baseline_shift: zero,
    }
}

/// Adds the placeholder of an image.
pub fn add_image(extracted: &mut ExtractedText, name: &str, place: &ImageBox, page: u32)
    requires
        old(extracted)@.wf(),
    ensures
        final(extracted)@ == (ExtractedView {
            items: old(extracted)@.items.push(image_item(name@, *place, page)),
            ..old(extracted)@
        }),
        final(extracted)@.wf(),
{
    let mut text: Vec<char> = Vec::new();
    push_text(&mut text, "[Image: ");
    push_text(&mut text, name);
    push_text(&mut text, "]");
    assert(text@ =~= image_text(name@));
    let zero = Single::zero();
    let font = String::new();
    let font_tag = String::new();
    assert(font@ =~= Seq::empty() && font_tag@ =~= Seq::empty());
    let item = TextItem {
        text: text_of(&text),
        x: place.x,
        y: place.y,
        width: place.width,
        height: place.height,
        rotation: zero,
        advance_known: true,
        font,
        font_tag,
        legacy_symbol_rewrite: false,
        font_size: zero,
        page,
        is_bold: false,
        is_italic: false,
        is_underline: false,
        is_strikeout: false,
        item_type: ItemType::Image,
        mcid: None,
        baseline_shift: zero,
    };
    extracted.items.push(item);
    proof {
        let after = ExtractedView {
            items: old(extracted)@.items.push(image_item(name@, *place, page)),
            ..old(extracted)@
        };
        assert(extracted@.items =~= after.items);
        assert(extracted@ =~= after);
        assert forall|k: int| 0 <= k < extracted@.rtl_visual_candidates.len() implies (
        #[trigger] extracted@.rtl_visual_candidates[k]) < extracted@.items.len() by {
            assert(old(extracted)@.rtl_visual_candidates[k] < old(extracted)@.items.len());
        }
    }
}

/// When an extraction is appended to another, its candidates keep naming the
/// same items.
pub proof fn law_candidates_follow_their_items(first: ExtractedView, second: ExtractedView, i: int)
    requires
        first.wf(),
        second.wf(),
        0 <= i < second.rtl_visual_candidates.len(),
        first.items.len() + second.items.len() <= usize::MAX,
    ensures
        ({
            let whole = first.joined(second);
            let at = whole.rtl_visual_candidates[first.rtl_visual_candidates.len() + i];
            whole.items[at as int] == second.items[second.rtl_visual_candidates[i] as int]
        }),
{
    assert(second.rtl_visual_candidates[i] < second.items.len());
}

/// A hidden array shows nothing, and its cursor moves as far as that of a
/// visible one.
pub proof fn law_hidden_arrays_only_move(elements: Seq<ElementView>, setting: ArraySetting, n: nat)
    requires
        setting.hidden,
        n <= elements.len(),
    ensures
        array_state(elements, setting, n).runs.len() == 0,
        array_state(elements, setting, n).text.len() == 0,
        array_state(elements, setting, n).total == array_state(
            elements,
            ArraySetting { hidden: false, ..setting },
            n,
        ).total,
    decreases n,
{
    if n > 0 {
        law_hidden_arrays_only_move(elements, setting, (n - 1) as nat);
    }
}

} // verus!
