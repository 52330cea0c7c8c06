//! Shared types of the extraction and Markdown pipelines.

use crate::single::Single;
use crate::text::{
    characters, chars_end_with, chars_start_with, copy_text, ends_with, push_chars, push_text, same_chars,
    starts_with, text_of, trim_back, trim_chars, trim_front, trimmed, without_back_space, without_front_space,
};
use crate::unicode::numeric;
use vstd::prelude::*;

verus! {

/// `0.5`
pub const HALF_BITS: u32 = 0x3f00_0000;

/// `1.0`
pub const UNIT_BITS: u32 = 0x3f80_0000;

/// `45.0`
pub const EIGHTH_TURN_BITS: u32 = 0x4234_0000;

/// `135.0`
pub const THREE_EIGHTHS_TURN_BITS: u32 = 0x4307_0000;

/// `225.0`
pub const FIVE_EIGHTHS_TURN_BITS: u32 = 0x4361_0000;

/// `315.0`
pub const SEVEN_EIGHTHS_TURN_BITS: u32 = 0x439d_8000;

/// `360.0`
pub const FULL_TURN_BITS: u32 = 0x43b4_0000;

/// `0.12`: the gap, as a fraction of the larger font size, from which a script
/// run and its neighbour are separate words. Attached markers sit at about no
/// gap, a word space is at least `0.2` em.
pub const SCRIPT_WORD_GAP_BITS: u32 = 0x3df5_c28f;

/// `0.85`: a font size below this fraction of its neighbour's is a size change.
pub const SIZE_CHANGE_BITS: u32 = 0x3f59_999a;

/// Type of an extracted item.
#[derive(Debug)]
pub enum ItemType {
    /// Regular text content
    Text,
    /// Image placeholder
    Image,
    /// Hyperlink, with its address
    Link(String),
    /// Form field
    FormField,
}

/// What an [`ItemType`] is.
pub enum ItemKind {
    Text,
    Image,
    Link(Seq<char>),
    FormField,
}

impl View for ItemType {
    type V = ItemKind;

    open spec fn view(&self) -> ItemKind {
        match *self {
            ItemType::Text => ItemKind::Text,
            ItemType::Image => ItemKind::Image,
            ItemType::Link(url) => ItemKind::Link(url@),
            ItemType::FormField => ItemKind::FormField,
        }
    }
}

impl Default for ItemType {
    fn default() -> (r: ItemType)
        ensures
            r@ == ItemKind::Text,
    {
        ItemType::Text
    }
}

/// Layout complexity of a document: whether extracted Markdown is reliable or
/// the document should be routed to an OCR pipeline instead.
#[derive(Debug)]
pub struct LayoutComplexity {
    /// Some page has tables or several text columns.
    pub is_complex: bool,
    /// Pages, from 1 on, on which table borders were detected.
    pub pages_with_tables: Vec<u32>,
    /// Pages, from 1 on, on which two or more text columns were detected.
    pub pages_with_columns: Vec<u32>,
}

impl Default for LayoutComplexity {
    fn default() -> (r: LayoutComplexity)
        ensures
            !r.is_complex,
            r.pages_with_tables@.len() == 0,
            r.pages_with_columns@.len() == 0,
    {
        LayoutComplexity { is_complex: false, pages_with_tables: Vec::new(), pages_with_columns: Vec::new() }
    }
}

/// A line segment from path operators.
#[derive(Clone, Copy, Debug)]
pub struct PdfLine {
    pub x1: Single,
    pub y1: Single,
    pub x2: Single,
    pub y2: Single,
    pub page: u32,
}

/// A rectangle from a rectangle operator (cell boundary, border).
#[derive(Clone, Copy, Debug)]
pub struct PdfRect {
    pub x: Single,
    pub y: Single,
    pub width: Single,
    pub height: Single,
    pub page: u32,
}

/// A text item with its position: the axis-aligned box of its glyph run in
/// points, `y` growing upward. For horizontal text the box runs from the
/// baseline one em upward and spans the run's advance.
#[derive(Debug)]
pub struct TextItem {
    pub text: String,
    /// Left edge of the box.
    pub x: Single,
    /// Bottom edge of the box; the baseline for horizontal text.
    pub y: Single,
    /// Horizontal extent: the advance for horizontal text.
    pub width: Single,
    /// Vertical extent: the rendered em size for horizontal text.
    pub height: Single,
    /// Rotation of the baseline in degrees, counter-clockwise.
    pub rotation: Single,
    /// Whether the advance came from font metrics. Where it did not, the
    /// extent along the baseline is an estimate.
    pub advance_known: bool,
    /// Font family name.
    pub font: String,
    /// The font resource tag that the show operator selected.
    pub font_tag: String,
    /// At least one character was changed by the private-use symbol cleanup.
    pub legacy_symbol_rewrite: bool,
    pub font_size: Single,
    /// Page number, from 1 on.
    pub page: u32,
    pub is_bold: bool,
    pub is_italic: bool,
    pub is_underline: bool,
    pub is_strikeout: bool,
    pub item_type: ItemType,
    /// Marked content identifier, which links the item to the structure tree.
    pub mcid: Option<i64>,
    /// Offset of a superscript or subscript run from the baseline of the text
    /// it is attached to: positive where it is raised, zero for normal text.
    pub baseline_shift: Single,
}

/// What a [`TextItem`] is.
#[verifier::ext_equal]
pub struct ItemView {
    pub text: Seq<char>,
    pub x: Single,
    pub y: Single,
    pub width: Single,
    pub height: Single,
    pub rotation: Single,
    pub advance_known: bool,
    pub font: Seq<char>,
    pub font_tag: Seq<char>,
    pub legacy_symbol_rewrite: bool,
    pub font_size: Single,
    pub page: u32,
    pub is_bold: bool,
    pub is_italic: bool,
    pub is_underline: bool,
    pub is_strikeout: bool,
    pub item_type: ItemKind,
    pub mcid: Option<i64>,
    pub baseline_shift: Single,
}

impl View for TextItem {
    type V = ItemView;

    open spec fn view(&self) -> ItemView {
        ItemView {
            text: self.text@,
            x: self.x,
            y: self.y,
            width: self.width,
            height: self.height,
            rotation: self.rotation,
            advance_known: self.advance_known,
            font: self.font@,
            font_tag: self.font_tag@,
            legacy_symbol_rewrite: self.legacy_symbol_rewrite,
            font_size: self.font_size,
            page: self.page,
            is_bold: self.is_bold,
            is_italic: self.is_italic,
            is_underline: self.is_underline,
            is_strikeout: self.is_strikeout,
            item_type: self.item_type@,
            mcid: self.mcid,
            baseline_shift: self.baseline_shift,
        }
    }
}

/// What a list of items is.
pub open spec fn views(items: Seq<TextItem>) -> Seq<ItemView> {
    Seq::new(items.len(), |i: int| items[i]@)
}

impl ItemView {
    /// The angle of the baseline, from 0 up to a full turn.
    pub open spec fn angle(self) -> Single {
        self.rotation.spec_rem_euclid(Single { bits: FULL_TURN_BITS })
    }

    pub open spec fn is_horizontal(self) -> bool {
        let r = self.angle();
        !((Single { bits: EIGHTH_TURN_BITS }.spec_less(r) && r.spec_less(
            Single { bits: THREE_EIGHTHS_TURN_BITS },
        )) || (Single { bits: FIVE_EIGHTHS_TURN_BITS }.spec_less(r) && r.spec_less(
            Single { bits: SEVEN_EIGHTHS_TURN_BITS },
        )))
    }

    pub open spec fn is_upright(self) -> bool {
        let r = self.angle();
        r.spec_at_most(Single { bits: EIGHTH_TURN_BITS }) || Single { bits: SEVEN_EIGHTHS_TURN_BITS }.spec_at_most(r)
    }

    pub open spec fn is_upside_down(self) -> bool {
        self.is_horizontal() && !self.is_upright()
    }

    pub open spec fn baseline_y(self) -> Single {
        if self.is_upside_down() {
            self.y.spec_plus(self.height)
        } else {
            self.y
        }
    }

    pub open spec fn line_y(self) -> Single {
        self.baseline_y().spec_minus(self.baseline_shift)
    }

    pub open spec fn is_script(self) -> bool {
        !self.baseline_shift.spec_zero()
    }

    pub open spec fn cross_extent(self) -> Single {
        if self.rotation.spec_zero() {
            self.height
        } else {
            self.font_size
        }
    }

    pub open spec fn is_raised(self) -> bool {
        Single { bits: 0 }.spec_less(self.baseline_shift)
    }

    pub open spec fn is_lowered(self) -> bool {
        self.baseline_shift.spec_less(Single { bits: 0 })
    }
}

impl TextItem {
    /// Baseline of the visual line this item belongs to: that of the text it
    /// is attached to where it is a superscript or subscript.
    pub fn line_y(&self) -> (r: Single)
        ensures
            r == self@.line_y(),
    {
        self.baseline_y().minus(self.baseline_shift)
    }

    /// The edge on which the glyphs stand or from which they hang: the top
    /// edge of the box for a run within an eighth of a turn of upside-down.
    pub fn baseline_y(&self) -> (r: Single)
        ensures
            r == self@.baseline_y(),
    {
        if self.is_upside_down() {
            self.y.plus(self.height)
        } else {
            self.y
        }
    }

    /// Whether the run is a superscript or subscript of a larger neighbour.
    pub fn is_script(&self) -> (r: bool)
        ensures
            r == self@.is_script(),
    {
        !self.baseline_shift.is_zero()
    }

    /// Whether the run reads along the x axis rather than the y axis.
    pub fn is_horizontal(&self) -> (r: bool)
        ensures
            r == self@.is_horizontal(),
    {
        let r = self.rotation.rem_euclid(Single { bits: FULL_TURN_BITS });
        let vertical = ((Single { bits: EIGHTH_TURN_BITS }).less(r) && r.less(
            Single { bits: THREE_EIGHTHS_TURN_BITS },
        )) || ((Single { bits: FIVE_EIGHTHS_TURN_BITS }).less(r) && r.less(
            Single { bits: SEVEN_EIGHTHS_TURN_BITS },
        ));
        !vertical
    }

    /// Whether the run reads towards the right.
    pub fn is_upright(&self) -> (r: bool)
        ensures
            r == self@.is_upright(),
    {
        let r = self.rotation.rem_euclid(Single { bits: FULL_TURN_BITS });
        r.at_most(Single { bits: EIGHTH_TURN_BITS }) || (Single { bits: SEVEN_EIGHTHS_TURN_BITS }).at_most(r)
    }

    /// Whether the run reads towards the left.
    pub fn is_upside_down(&self) -> (r: bool)
        ensures
            r == self@.is_upside_down(),
    {
        self.is_horizontal() && !self.is_upright()
    }

    /// The extent perpendicular to the reading direction: the height of an
    /// unrotated item, the rendered em of a rotated run.
    pub fn cross_extent(&self) -> (r: Single)
        ensures
            r == self@.cross_extent(),
    {
        if self.rotation.is_zero() {
            self.height
        } else {
            self.font_size
        }
    }
}

/// A copy of an item's type.
pub fn copy_type(item_type: &ItemType) -> (r: ItemType)
    ensures
        r@ == item_type@,
{
    match item_type {
        ItemType::Text => ItemType::Text,
        ItemType::Image => ItemType::Image,
        ItemType::Link(url) => ItemType::Link(copy_text(url)),
        ItemType::FormField => ItemType::FormField,
    }
}

/// A copy of an item.
pub fn copy_item(item: &TextItem) -> (r: TextItem)
    ensures
        r@ == item@,
{
    TextItem {
        text: copy_text(&item.text),
        x: item.x,
        y: item.y,
        width: item.width,
        height: item.height,
        rotation: item.rotation,
        advance_known: item.advance_known,
        font: copy_text(&item.font),
        font_tag: copy_text(&item.font_tag),
        legacy_symbol_rewrite: item.legacy_symbol_rewrite,
        font_size: item.font_size,
        page: item.page,
        is_bold: item.is_bold,
        is_italic: item.is_italic,
        is_underline: item.is_underline,
        is_strikeout: item.is_strikeout,
        item_type: copy_type(&item.item_type),
        mcid: item.mcid,
        baseline_shift: item.baseline_shift,
    }
}

/// A line of text items.
pub struct TextLine {
    pub items: Vec<TextItem>,
    pub y: Single,
    pub page: u32,
    /// Join threshold from page-level letter-spacing detection.
    pub adaptive_threshold: Single,
    /// Where the positions of an item and the one before it make them one
    /// word. Items past the end of the list are separate.
    pub joined: Vec<bool>,
}

/// What a [`TextLine`] is.
#[verifier::ext_equal]
pub struct LineView {
    pub items: Seq<ItemView>,
    pub y: Single,
    pub page: u32,
    pub adaptive_threshold: Single,
    pub joined: Seq<bool>,
}

impl View for TextLine {
    type V = LineView;

    open spec fn view(&self) -> LineView {
        LineView {
            items: views(self.items@),
            y: self.y,
            page: self.page,
            adaptive_threshold: self.adaptive_threshold,
            joined: self.joined@,
        }
    }
}

/// What a list of lines is.
pub open spec fn line_views(lines: Seq<TextLine>) -> Seq<LineView> {
    Seq::new(lines.len(), |i: int| lines[i]@)
}

/// The positions of the items `i - 1` and `i` make them one word.
pub open spec fn joins(joined: Seq<bool>, i: int) -> bool {
    0 <= i < joined.len() && joined[i]
}

impl LineView {
    /// The line's plain text.
    pub open spec fn text(self) -> Seq<char> {
        plain_text(self.items, self.joined, self.items.len())
    }
}

/// A copy of a line.
pub fn copy_line(line: &TextLine) -> (r: TextLine)
    ensures
        r@ == line@,
{
    let mut items: Vec<TextItem> = Vec::new();
    let mut i: usize = 0;
    while i < line.items.len()
        invariant
            i <= line.items@.len(),
            items@.len() == i,
            forall|j: int| 0 <= j < i ==> (#[trigger] items@[j])@ == line.items@[j]@,
        decreases line.items@.len() - i,
    {
        items.push(copy_item(&line.items[i]));
        i += 1;
    }
    assert(views(items@) =~= views(line.items@));
    let mut joined: Vec<bool> = Vec::new();
    let mut i: usize = 0;
    while i < line.joined.len()
        invariant
            i <= line.joined@.len(),
            joined@ == line.joined@.take(i as int),
        decreases line.joined@.len() - i,
    {
        joined.push(line.joined[i]);
        i += 1;
    }
    assert(line.joined@.take(line.joined@.len() as int) =~= line.joined@);
    TextLine { items, y: line.y, page: line.page, adaptive_threshold: line.adaptive_threshold, joined }
}

/// The larger of two items' font sizes.
pub open spec fn larger_size(a: ItemView, b: ItemView) -> Single {
    a.font_size.spec_max(b.font_size)
}

/// The baselines of two items are within half the larger font size.
pub open spec fn same_visual_line(a: ItemView, b: ItemView) -> bool {
    a.line_y().spec_minus(b.line_y()).spec_absolute().spec_at_most(
        larger_size(a, b).spec_times(Single { bits: HALF_BITS }),
    )
}

/// The baselines of two items differ by more than half the larger font size.
pub open spec fn other_visual_line(a: ItemView, b: ItemView) -> bool {
    larger_size(a, b).spec_times(Single { bits: HALF_BITS }).spec_less(
        a.line_y().spec_minus(b.line_y()).spec_absolute(),
    )
}

/// The text is made of numeric characters and is not empty.
pub open spec fn all_numeric(s: Seq<char>) -> bool {
    s.len() > 0 && forall|i: int| 0 <= i < s.len() ==> numeric(#[trigger] s[i])
}

fn is_all_numeric(s: &Vec<char>) -> (r: bool)
    ensures
        r == all_numeric(s@),
{
    if s.len() == 0 {
        return false;
    }
    let mut i: usize = 0;
    while i < s.len()
        invariant
            i <= s@.len(),
            forall|j: int| 0 <= j < i ==> numeric(#[trigger] s@[j]),
        decreases s@.len() - i,
    {
        let c: char = s[i];
        if !c.is_numeric() {
            return false;
        }
        i += 1;
    }
    true
}

/// A stacked fraction: a superscript of digits directly followed by a
/// subscript of digits that overlaps it horizontally.
pub open spec fn stacked_fraction(prev: ItemView, item: ItemView) -> bool {
    &&& prev.is_raised() && item.is_lowered()
    &&& same_visual_line(prev, item)
    &&& all_numeric(trimmed(prev.text)) && all_numeric(trimmed(item.text))
    &&& item.x.spec_less(prev.x.spec_plus(prev.width))
    &&& prev.x.spec_less(item.x.spec_plus(item.width))
}

fn visual_distance(a: &TextItem, b: &TextItem) -> (r: Single)
    ensures
        r == a@.line_y().spec_minus(b@.line_y()).spec_absolute(),
{
    a.line_y().minus(b.line_y()).absolute()
}

fn half_larger_size(a: &TextItem, b: &TextItem) -> (r: Single)
    ensures
        r == larger_size(a@, b@).spec_times(Single { bits: HALF_BITS }),
{
    a.font_size.max(b.font_size).times(Single { bits: HALF_BITS })
}

pub fn stacked_fraction_slash(prev: &TextItem, item: &TextItem) -> (r: bool)
    ensures
        r == stacked_fraction(prev@, item@),
{
    Single::zero().less(prev.baseline_shift) && item.baseline_shift.less(Single::zero()) && visual_distance(
        prev,
        item,
    ).at_most(half_larger_size(prev, item)) && is_all_numeric(&trim_chars(&characters(&prev.text)))
        && is_all_numeric(&trim_chars(&characters(&item.text))) && item.x.less(prev.x.plus(prev.width))
        && prev.x.less(item.x.plus(item.width))
}

/// The characters after which no space is set before a script run.
pub open spec fn opens(c: char) -> bool {
    c == '-' || c == '(' || c == '[' || c == '{'
}

/// The characters before which no space is set.
pub open spec fn closes(c: char) -> bool {
    c == '.' || c == ',' || c == ';' || c == ':' || c == '!' || c == '?' || c == ')' || c == ']' || c == '}'
}

/// A space, a hyphen or a bracket keeps a space from being set at the edge of
/// a script run.
pub open spec fn edge_is_tight(prev: ItemView, result: Seq<char>, text: Seq<char>) -> bool {
    let before = trim_back(prev.text);
    let after = trim_front(text);
    ||| result.len() > 0 && (result.last() == ' ' || opens(result.last()))
    ||| ends_with(prev.text, ' ')
    ||| before.len() > 0 && opens(before.last())
    ||| starts_with(text, ' ')
    ||| after.len() > 0 && (after[0] == '-' || closes(after[0]))
}

/// The horizontal gap between two items, whichever stands first.
pub open spec fn item_gap(prev: ItemView, item: ItemView) -> Single {
    if prev.x.spec_at_most(item.x) {
        item.x.spec_minus(prev.x.spec_plus(prev.width))
    } else {
        prev.x.spec_minus(item.x.spec_plus(item.width))
    }
}

/// The spacing at the edge of a script run; `None` where neither item is one.
pub open spec fn script_edge(prev: ItemView, item: ItemView, result: Seq<char>, text: Seq<char>) -> Option<bool> {
    if !prev.is_script() && !item.is_script() {
        None
    } else if stacked_fraction(prev, item) {
        Some(false)
    } else if other_visual_line(prev, item) {
        Some(true)
    } else if edge_is_tight(prev, result, text) {
        Some(false)
    } else {
        Some(
            larger_size(prev, item).spec_times(Single { bits: SCRIPT_WORD_GAP_BITS }).spec_at_most(
                item_gap(prev, item),
            ),
        )
    }
}

fn is_opening(c: char) -> (r: bool)
    ensures
        r == opens(c),
{
    c == '-' || c == '(' || c == '[' || c == '{'
}

fn is_closing(c: char) -> (r: bool)
    ensures
        r == closes(c),
{
    c == '.' || c == ',' || c == ';' || c == ':' || c == '!' || c == '?' || c == ')' || c == ']' || c == '}'
}

fn is_tight_edge(prev: &TextItem, result: &Vec<char>, text: &Vec<char>) -> (r: bool)
    ensures
        r == edge_is_tight(prev@, result@, text@),
{
    let prev_text = characters(&prev.text);
    let before = without_back_space(&prev_text);
    let after = without_front_space(text);
    (result.len() > 0 && (result[result.len() - 1] == ' ' || is_opening(result[result.len() - 1])))
        || chars_end_with(&prev_text, ' ') || (before.len() > 0 && is_opening(before[before.len() - 1]))
        || chars_start_with(text, ' ') || (after.len() > 0 && (after[0] == '-' || is_closing(after[0])))
}

/// Spacing at the edge of a superscript or subscript run. `None` when neither
/// item is a script run, so that the ordinary rules apply.
///
/// A run's glyphs arrive joined, so only the boundary between a run and its
/// neighbour is decided here, by the measured gap. A run at the end of one
/// visual line never attaches to the start of the next.
pub fn script_edge_needs_space(prev: &TextItem, item: &TextItem, result: &Vec<char>, text: &Vec<char>) -> (r: Option<
    bool,
>)
    ensures
        r == script_edge(prev@, item@, result@, text@),
{
    if !prev.is_script() && !item.is_script() {
        return None;
    }
    if stacked_fraction_slash(prev, item) {
        return Some(false);
    }
    if half_larger_size(prev, item).less(visual_distance(prev, item)) {
        return Some(true);
    }
    if is_tight_edge(prev, result, text) {
        return Some(false);
    }
    let gap = if prev.x.at_most(item.x) {
        item.x.minus(prev.x.plus(prev.width))
    } else {
        prev.x.minus(item.x.plus(item.width))
    };
    let least = prev.font_size.max(item.font_size).times(Single { bits: SCRIPT_WORD_GAP_BITS });
    Some(least.at_most(gap))
}

/// The tag of a script run.
pub open spec fn script_tag(item: ItemView) -> Option<Seq<char>> {
    if item.is_raised() {
        Some("sup"@)
    } else if item.is_lowered() {
        Some("sub"@)
    } else {
        None
    }
}

/// A text between a pair of tags.
pub open spec fn tagged(tag: Seq<char>, text: Seq<char>) -> Seq<char> {
    "<"@ + tag + ">"@ + text + "</"@ + tag + ">"@
}

/// An item's text, in its tag where it is a script run.
pub open spec fn item_markup(item: ItemView, text: Seq<char>) -> Seq<char> {
    match script_tag(item) {
        Some(tag) => tagged(tag, text),
        None => text,
    }
}

fn push_tagged(result: &mut Vec<char>, tag: &str, text: &Vec<char>)
    ensures
        final(result)@ == old(result)@ + tagged(tag@, text@),
{
    push_text(result, "<");
    push_text(result, tag);
    push_text(result, ">");
    push_chars(result, text);
    push_text(result, "</");
    push_text(result, tag);
    push_text(result, ">");
    assert(result@ =~= old(result)@ + tagged(tag@, text@));
}

/// Appends an item's text, wrapping a script run in its tag.
pub fn push_item_text(result: &mut Vec<char>, item: &TextItem, text: &Vec<char>)
    ensures
        final(result)@ == old(result)@ + item_markup(item@, text@),
{
    if Single::zero().less(item.baseline_shift) {
        push_tagged(result, "sup", text);
    } else if item.baseline_shift.less(Single::zero()) {
        push_tagged(result, "sub", text);
    } else {
        push_chars(result, text);
    }
}

/// How far apart the boxes of two items rest.
pub open spec fn height_difference(a: ItemView, b: ItemView) -> Single {
    a.y.spec_minus(b.y).spec_absolute()
}

/// A space is set between two items: they are separate words by position,
/// no hyphen or space stands between them, and neither is a script of the
/// other by size. `joined` says that their positions make them one word.
pub open spec fn space_between(prev: ItemView, item: ItemView, result: Seq<char>, joined: bool) -> bool {
    match script_edge(prev, item, result, item.text) {
        Some(needs_space) => needs_space,
        None => {
            &&& !ends_with(result, '-') && !ends_with(result, ' ')
            &&& trimmed(item.text) != "-"@
            &&& !starts_with(item.text, '-') && !starts_with(item.text, ' ')
            &&& !(item.font_size.spec_over(prev.font_size).spec_less(Single { bits: SIZE_CHANGE_BITS })
                && Single { bits: UNIT_BITS }.spec_less(height_difference(item, prev)))
            &&& !(prev.font_size.spec_over(item.font_size).spec_less(Single { bits: SIZE_CHANGE_BITS })
                && Single { bits: UNIT_BITS }.spec_less(height_difference(item, prev)))
            &&& !joined
        },
    }
}

fn needs_space_between(prev: &TextItem, item: &TextItem, result: &Vec<char>, joined: bool) -> (r: bool)
    ensures
        r == space_between(prev@, item@, result@, joined),
{
    let text = characters(&item.text);
    if let Some(needs_space) = script_edge_needs_space(prev, item, result, &text) {
        return needs_space;
    }
    let dash = characters("-");
    let lone_hyphen = same_chars(&trim_chars(&text), &dash);
    let y_diff = item.y.minus(prev.y).absolute();
    let apart = Single::one().less(y_diff);
    let is_sub_super = item.font_size.over(prev.font_size).less(Single { bits: SIZE_CHANGE_BITS }) && apart;
    let was_sub_super = prev.font_size.over(item.font_size).less(Single { bits: SIZE_CHANGE_BITS }) && apart;
    !(chars_end_with(result, '-') || lone_hyphen || chars_start_with(&text, '-') || is_sub_super || was_sub_super
        || joined || chars_end_with(result, ' ') || chars_start_with(&text, ' '))
}

/// The plain text of the first `n` items.
pub open spec fn plain_text(items: Seq<ItemView>, joined: Seq<bool>, n: nat) -> Seq<char>
    decreases n,
{
    if n == 0 || n > items.len() {
        Seq::empty()
    } else {
        let i = n - 1;
        let before = plain_text(items, joined, i as nat);
        let space = if i > 0 && space_between(items[i - 1], items[i], before, joins(joined, i)) {
            " "@
        } else {
            Seq::empty()
        };
        let slash = if i > 0 && stacked_fraction(items[i - 1], items[i]) {
            "/"@
        } else {
            Seq::empty()
        };
        before + space + slash + item_markup(items[i], items[i].text)
    }
}

/// Which styles are open.
#[derive(Clone, Copy, Debug, PartialEq, Eq, Structural)]
pub struct Style {
    pub bold: bool,
    pub italic: bool,
    pub underline: bool,
    pub strikeout: bool,
}

/// Which styles are written.
#[derive(Clone, Copy, Debug, PartialEq, Eq, Structural)]
pub struct Formatting {
    pub bold: bool,
    pub italic: bool,
    /// Underline and strikeout.
    pub decorations: bool,
}

pub open spec fn no_style() -> Style {
    Style { bold: false, italic: false, underline: false, strikeout: false }
}

/// An item's own style. Decorations exclude the font styles, and strikeout
/// excludes underline: deletion is the stronger distinction.
pub open spec fn own_style(item: ItemView, formatting: Formatting) -> Style {
    let strikeout = formatting.decorations && item.is_strikeout;
    let underline = formatting.decorations && item.is_underline && !strikeout;
    Style {
        bold: formatting.bold && item.is_bold && !underline && !strikeout,
        italic: formatting.italic && item.is_italic && !underline && !strikeout,
        underline,
        strikeout,
    }
}

/// The marks that close what is open and not wanted.
pub open spec fn closing_marks(open: Style, wanted: Style) -> Seq<char> {
    (if open.italic && !wanted.italic {
        "*"@
    } else {
        Seq::empty()
    }) + (if open.bold && !wanted.bold {
        "**"@
    } else {
        Seq::empty()
    }) + (if open.underline && !wanted.underline {
        "</u>"@
    } else {
        Seq::empty()
    }) + (if open.strikeout && !wanted.strikeout {
        "</s>"@
    } else {
        Seq::empty()
    })
}

/// The marks that open what is wanted and not open.
pub open spec fn opening_marks(open: Style, wanted: Style) -> Seq<char> {
    (if wanted.underline && !open.underline {
        "<u>"@
    } else {
        Seq::empty()
    }) + (if wanted.strikeout && !open.strikeout {
        "<s>"@
    } else {
        Seq::empty()
    }) + (if wanted.bold && !open.bold {
        "**"@
    } else {
        Seq::empty()
    }) + (if wanted.italic && !open.italic {
        "*"@
    } else {
        Seq::empty()
    })
}

/// The tag for a script run's own decoration, where it is not open already.
pub open spec fn own_script_tag(item: ItemView, open: Style, own: Style) -> Option<Seq<char>> {
    if !item.is_script() {
        None
    } else if own.strikeout && !open.strikeout {
        Some("s"@)
    } else if own.underline && !open.underline && !open.strikeout {
        Some("u"@)
    } else {
        None
    }
}

/// A text with the styles that are open at its end.
pub struct Styled {
    pub text: Seq<char>,
    pub style: Style,
}

/// One more item behind a formatted text. A script run opens and closes no
/// style of the line: it inherits what is open around it, and its own
/// decoration is closed right behind it.
pub open spec fn with_item(
    before: Styled,
    prev: Option<ItemView>,
    item: ItemView,
    joined: bool,
    formatting: Formatting,
) -> Styled {
    let content = trimmed(item.text);
    if content.len() == 0 {
        before
    } else {
        let spaced = before.text.len() > 0 && (match prev {
            Some(prev) => space_between(prev, item, before.text, joined),
            None => false,
        } || (starts_with(item.text, ' ') && !ends_with(before.text, ' ')));
        let own = own_style(item, formatting);
        let wanted = if item.is_script() {
            before.style
        } else {
            own
        };
        let markup = match own_script_tag(item, before.style, own) {
            Some(tag) => tagged(tag, item_markup(item, content)),
            None => item_markup(item, content),
        };
        let slash = match prev {
            Some(prev) => stacked_fraction(prev, item),
            None => false,
        };
        Styled {
            text: before.text + closing_marks(before.style, wanted) + (if spaced {
                " "@
            } else {
                Seq::empty()
            }) + opening_marks(before.style, wanted) + (if slash {
                "/"@
            } else {
                Seq::empty()
            }) + markup,
            style: wanted,
        }
    }
}

/// The first `n` items, formatted.
pub open spec fn styled_text(
    items: Seq<ItemView>,
    joined: Seq<bool>,
    formatting: Formatting,
    n: nat,
) -> Styled
    decreases n,
{
    if n == 0 || n > items.len() {
        Styled { text: Seq::empty(), style: no_style() }
    } else {
        let i = n - 1;
        let prev = if i > 0 {
            Some(items[i - 1])
        } else {
            None
        };
        with_item(styled_text(items, joined, formatting, i as nat), prev, items[i], joins(joined, i), formatting)
    }
}

/// A line's text with the styles that are written.
pub open spec fn line_text(items: Seq<ItemView>, joined: Seq<bool>, formatting: Formatting) -> Seq<char> {
    if !formatting.bold && !formatting.italic && !formatting.decorations {
        plain_text(items, joined, items.len())
    } else {
        let styled = styled_text(items, joined, formatting, items.len());
        styled.text + closing_marks(styled.style, no_style())
    }
}

fn push_closing_marks(result: &mut Vec<char>, open: Style, wanted: Style)
    ensures
        final(result)@ == old(result)@ + closing_marks(open, wanted),
{
    if open.italic && !wanted.italic {
        push_text(result, "*");
    }
    if open.bold && !wanted.bold {
        push_text(result, "**");
    }
    if open.underline && !wanted.underline {
        push_text(result, "</u>");
    }
    if open.strikeout && !wanted.strikeout {
        push_text(result, "</s>");
    }
    assert(result@ =~= old(result)@ + closing_marks(open, wanted));
}

fn push_opening_marks(result: &mut Vec<char>, open: Style, wanted: Style)
    ensures
        final(result)@ == old(result)@ + opening_marks(open, wanted),
{
    if wanted.underline && !open.underline {
        push_text(result, "<u>");
    }
    if wanted.strikeout && !open.strikeout {
        push_text(result, "<s>");
    }
    if wanted.bold && !open.bold {
        push_text(result, "**");
    }
    if wanted.italic && !open.italic {
        push_text(result, "*");
    }
    assert(result@ =~= old(result)@ + opening_marks(open, wanted));
}

fn style_of(item: &TextItem, formatting: Formatting) -> (r: Style)
    ensures
        r == own_style(item@, formatting),
{
    let strikeout = formatting.decorations && item.is_strikeout;
    let underline = formatting.decorations && item.is_underline && !strikeout;
    Style {
        bold: formatting.bold && item.is_bold && !underline && !strikeout,
        italic: formatting.italic && item.is_italic && !underline && !strikeout,
        underline,
        strikeout,
    }
}

/// Appends one item to a formatted text and returns the styles then open.
fn push_styled_item(
    result: &mut Vec<char>,
    open: Style,
    prev: Option<&TextItem>,
    item: &TextItem,
    joined: bool,
    formatting: Formatting,
) -> (r: Style)
    ensures
        ({
            let after = with_item(
                Styled { text: old(result)@, style: open },
                match prev {
                    Some(prev) => Some(prev@),
                    None => None,
                },
                item@,
                joined,
                formatting,
            );
            final(result)@ == after.text && r == after.style
        }),
{
    let text = characters(&item.text);
    let content = trim_chars(&text);
    if content.len() == 0 {
        return open;
    }
    let needs_space = match prev {
        Some(prev) => result.len() > 0 && needs_space_between(prev, item, result, joined),
        None => false,
    };
    // The item's own leading space marks a word boundary, and trimming below
    // would lose it.
    let spaced = needs_space || (chars_start_with(&text, ' ') && result.len() > 0 && !chars_end_with(result, ' '));
    let own = style_of(item, formatting);
    let is_script = item.is_script();
    let wanted = if is_script {
        open
    } else {
        own
    };
    push_closing_marks(result, open, wanted);
    if spaced {
        push_text(result, " ");
    }
    push_opening_marks(result, open, wanted);
    let slash = match prev {
        Some(prev) => stacked_fraction_slash(prev, item),
        None => false,
    };
    if slash {
        push_text(result, "/");
    }
    let mut markup: Vec<char> = Vec::new();
    push_item_text(&mut markup, item, &content);
    assert(markup@ =~= item_markup(item@, content@));
    if is_script && own.strikeout && !open.strikeout {
        push_tagged(result, "s", &markup);
    } else if is_script && own.underline && !open.underline && !open.strikeout {
        push_tagged(result, "u", &markup);
    } else {
        push_chars(result, &markup);
    }
    proof {
        let after = with_item(
            Styled { text: old(result)@, style: open },
            match prev {
                Some(prev) => Some(prev@),
                None => None,
            },
            item@,
            joined,
            formatting,
        );
        assert(result@ =~= after.text);
    }
    wanted
}

impl TextLine {
    fn joins_at(&self, i: usize) -> (r: bool)
        ensures
            r == joins(self.joined@, i as int),
    {
        i < self.joined.len() && self.joined[i]
    }

    /// The line's plain text.
    pub fn text(&self) -> (r: String)
        ensures
            r@ == self@.text(),
    {
        self.text_with_formatting(false, false, false)
    }

    /// The line's text with optional styles. `format_decorations` enables
    /// underline and strikeout.
    pub fn text_with_formatting(
        &self,
        format_bold: bool,
        format_italic: bool,
        format_decorations: bool,
    ) -> (r: String)
        ensures
            r@ == line_text(
                self@.items,
                self@.joined,
                Formatting { bold: format_bold, italic: format_italic, decorations: format_decorations },
            ),
    {
        if !format_bold && !format_italic && !format_decorations {
            return self.text_plain();
        }
        let formatting = Formatting {
            bold: format_bold,
            italic: format_italic,
            decorations: format_decorations,
        };
        let none = Style { bold: false, italic: false, underline: false, strikeout: false };
        let mut result: Vec<char> = Vec::new();
        let mut style: Style = none;
        let mut i: usize = 0;
        while i < self.items.len()
            invariant
                i <= self.items@.len(),
                result@ == styled_text(self@.items, self@.joined, formatting, i as nat).text,
                style == styled_text(self@.items, self@.joined, formatting, i as nat).style,
            decreases self.items@.len() - i,
        {
            assert(self@.items[i as int] == self.items@[i as int]@);
            let prev = if i > 0 {
                assert(self@.items[i - 1] == self.items@[i - 1]@);
                Some(&self.items[i - 1])
            } else {
                None
            };
            style = push_styled_item(&mut result, style, prev, &self.items[i], self.joins_at(i), formatting);
            i += 1;
        }
        push_closing_marks(&mut result, style, none);
        text_of(&result)
    }

    fn text_plain(&self) -> (r: String)
        ensures
            r@ == self@.text(),
    {
        let mut result: Vec<char> = Vec::new();
        let mut i: usize = 0;
        while i < self.items.len()
            invariant
                i <= self.items@.len(),
                result@ == plain_text(self@.items, self@.joined, i as nat),
            decreases self.items@.len() - i,
        {
            let ghost before = result@;
            assert(self@.items[i as int] == self.items@[i as int]@);
            let text = characters(&self.items[i].text);
            if i > 0 {
                assert(self@.items[i - 1] == self.items@[i - 1]@);
                if needs_space_between(&self.items[i - 1], &self.items[i], &result, self.joins_at(i)) {
                    push_text(&mut result, " ");
                }
                if stacked_fraction_slash(&self.items[i - 1], &self.items[i]) {
                    push_text(&mut result, "/");
                }
            }
            push_item_text(&mut result, &self.items[i], &text);
            i += 1;
            assert(result@ =~= plain_text(self@.items, self@.joined, i as nat));
        }
        text_of(&result)
    }
}

/// Text that is underlined or struck is free of bold and italic marks, and is
/// never both underlined and struck.
pub open spec fn exclusive(style: Style) -> bool {
    &&& style.underline || style.strikeout ==> !style.bold && !style.italic
    &&& !(style.underline && style.strikeout)
}

/// At every item of a formatted line the open styles are exclusive.
pub proof fn law_decorations_are_exclusive(
    items: Seq<ItemView>,
    joined: Seq<bool>,
    formatting: Formatting,
    n: nat,
)
    ensures
        exclusive(styled_text(items, joined, formatting, n).style),
    decreases n,
{
    if n > 0 && n <= items.len() {
        law_decorations_are_exclusive(items, joined, formatting, (n - 1) as nat);
    }
}

/// A style that is not asked for is never open.
pub proof fn law_only_requested_styles_open(
    items: Seq<ItemView>,
    joined: Seq<bool>,
    formatting: Formatting,
    n: nat,
)
    ensures
        ({
            let style = styled_text(items, joined, formatting, n).style;
            &&& style.bold ==> formatting.bold
            &&& style.italic ==> formatting.italic
            &&& style.underline || style.strikeout ==> formatting.decorations
        }),
    decreases n,
{
    if n > 0 && n <= items.len() {
        law_only_requested_styles_open(items, joined, formatting, (n - 1) as nat);
    }
}

/// A script run changes none of the line's styles.
pub proof fn law_script_runs_keep_the_style(
    before: Styled,
    prev: Option<ItemView>,
    item: ItemView,
    joined: bool,
    formatting: Formatting,
)
    requires
        item.is_script(),
    ensures
        with_item(before, prev, item, joined, formatting).style == before.style,
        closing_marks(before.style, before.style) == Seq::<char>::empty(),
        opening_marks(before.style, before.style) == Seq::<char>::empty(),
{
    assert(closing_marks(before.style, before.style) =~= Seq::<char>::empty());
    assert(opening_marks(before.style, before.style) =~= Seq::<char>::empty());
}

} // verus!
