//! Line preprocessing: heading merging and drop caps.

use crate::markdown::words::{count_words, word_count};
use crate::single::Single;
use crate::text::{
    characters, push_chars, push_text, text_of, trim_back, trim_chars, trim_front, trimmed, without_back_space,
    without_front_space,
};
use crate::types::{copy_item, copy_line, joins, line_views, views, ItemView, LineView, TextItem, TextLine};
use crate::unicode::{lowercase, uppercase, white_space};
use vstd::prelude::*;

verus! {

/// `2.0`: the largest gap between the lines of a heading, as a multiple of its
/// font size.
pub const HEADING_GAP_BITS: u32 = 0x4000_0000;

/// `1.6`: the largest gap between the lines of a bold heading at text size.
pub const BOLD_GAP_BITS: u32 = 0x3fcc_cccd;

/// `2.5`: the least size of a drop cap, as a multiple of the text size.
pub const DROP_CAP_SIZE_BITS: u32 = 0x4020_0000;

/// The most words of a merged heading: real headings are short.
pub const MAX_HEADING_WORDS: usize = 20;

/// The role of marked content in the structure tree.
#[derive(Clone, Copy, Debug, PartialEq, Eq, Structural)]
pub enum StructRole {
    H,
    H1,
    H2,
    H3,
    H4,
    H5,
    H6,
    Other,
}

impl StructRole {
    /// The level of a heading role.
    pub open spec fn spec_heading_level(self) -> Option<usize> {
        match self {
            StructRole::H => Some(1),
            StructRole::H1 => Some(1),
            StructRole::H2 => Some(2),
            StructRole::H3 => Some(3),
            StructRole::H4 => Some(4),
            StructRole::H5 => Some(5),
            StructRole::H6 => Some(6),
            StructRole::Other => None,
        }
    }

    pub fn heading_level(self) -> (r: Option<usize>)
        ensures
            r == self.spec_heading_level(),
    {
        match self {
            StructRole::H => Some(1),
            StructRole::H1 => Some(1),
            StructRole::H2 => Some(2),
            StructRole::H3 => Some(3),
            StructRole::H4 => Some(4),
            StructRole::H5 => Some(5),
            StructRole::H6 => Some(6),
            StructRole::Other => None,
        }
    }
}

/// The role of one marked content on a page.
#[derive(Clone, Copy, Debug)]
pub struct RoleEntry {
    pub page: u32,
    pub mcid: i64,
    pub role: StructRole,
}

/// The role of marked content: the first entry for it.
pub open spec fn role_of(roles: Seq<RoleEntry>, page: u32, mcid: i64, k: int) -> Option<StructRole>
    decreases roles.len() - k,
{
    if k < 0 || k >= roles.len() {
        None
    } else if roles[k].page == page && roles[k].mcid == mcid {
        Some(roles[k].role)
    } else {
        role_of(roles, page, mcid, k + 1)
    }
}

/// The level that an item's role gives.
pub open spec fn item_level(item: ItemView, roles: Seq<RoleEntry>, page: u32) -> Option<usize> {
    match item.mcid {
        Some(mcid) => match role_of(roles, page, mcid, 0) {
            Some(role) => role.spec_heading_level(),
            None => None,
        },
        None => None,
    }
}

/// The first level that the roles of the items from `k` on give.
pub open spec fn tagged_level(items: Seq<ItemView>, roles: Seq<RoleEntry>, page: u32, k: int) -> Option<usize>
    decreases items.len() - k,
{
    if k < 0 || k >= items.len() {
        None
    } else {
        match item_level(items[k], roles, page) {
            Some(level) => Some(level),
            None => tagged_level(items, roles, page, k + 1),
        }
    }
}

/// What the fonts of lines say about headings.
pub trait LineAnalysis {
    /// Whether most of a line is bold.
    fn line_is_mostly_bold(&self, line: &TextLine) -> bool;

    /// The heading level that a font size gives, by the sizes of the headings.
    fn detect_header_level(
        &self,
        font_size: Single,
        base_size: Single,
        heading_tiers: &Vec<Single>,
        is_bold: bool,
    ) -> Option<usize>;
}

/// The reply about how bold a line is.
pub open spec fn bold_as<A: LineAnalysis>(analysis: &A, line: LineView, reply: bool) -> bool {
    exists|text: TextLine| text@ == line && #[trigger] call_ensures(A::line_is_mostly_bold, (analysis, &text), reply)
}

/// The heading level of a line: that of the structure tree, or else the one
/// that the size of its first item and its boldness give.
pub open spec fn level_as<A: LineAnalysis>(
    analysis: &A,
    line: LineView,
    base_size: Single,
    tiers: &Vec<Single>,
    roles: Seq<RoleEntry>,
    level: Option<usize>,
) -> bool {
    match tagged_level(line.items, roles, line.page, 0) {
        Some(tagged) => level == Some(tagged),
        None => exists|bold: bool| #[trigger]
            bold_as(analysis, line, bold) && call_ensures(
                A::detect_header_level,
                (analysis, first_size(line, base_size), base_size, tiers, bold),
                level,
            ),
    }
}

fn find_role(roles: &Vec<RoleEntry>, page: u32, mcid: i64) -> (r: Option<StructRole>)
    ensures
        r == role_of(roles@, page, mcid, 0),
{
    let mut k: usize = 0;
    while k < roles.len()
        invariant
            k <= roles@.len(),
            role_of(roles@, page, mcid, 0) == role_of(roles@, page, mcid, k as int),
        decreases roles@.len() - k,
    {
        if roles[k].page == page && roles[k].mcid == mcid {
            return Some(roles[k].role);
        }
        k += 1;
    }
    None
}

/// Resolves the heading level of a line. Roles of the structure tree take
/// priority over the level that its font gives.
pub fn effective_heading_level<A: LineAnalysis>(
    analysis: &A,
    line: &TextLine,
    base_size: Single,
    heading_tiers: &Vec<Single>,
    roles: &Vec<RoleEntry>,
) -> (r: Option<usize>)
    ensures
        level_as(analysis, line@, base_size, heading_tiers, roles@, r),
{
    let mut k: usize = 0;
    while k < line.items.len()
        invariant
            k <= line.items@.len(),
            tagged_level(line@.items, roles@, line@.page, 0) == tagged_level(
                line@.items,
                roles@,
                line@.page,
                k as int,
            ),
        decreases line.items@.len() - k,
    {
        assert(line@.items[k as int] == line.items@[k as int]@);
        if let Some(mcid) = line.items[k].mcid {
            if let Some(role) = find_role(roles, line.page, mcid) {
                let level = role.heading_level();
                if level.is_some() {
                    return level;
                }
            }
        }
        k += 1;
    }
    let bold = analysis.line_is_mostly_bold(line);
    assert(call_ensures(A::line_is_mostly_bold, (analysis, line), bold));
    assert(bold_as(analysis, line@, bold));
    analysis.detect_header_level(find_first_size(line, base_size), base_size, heading_tiers, bold)
}

/// A line with its heading level.
pub struct LeveledLine {
    pub line: TextLine,
    pub level: Option<usize>,
}

/// What a [`LeveledLine`] is.
#[verifier::ext_equal]
pub struct LeveledView {
    pub line: LineView,
    pub level: Option<usize>,
}

impl View for LeveledLine {
    type V = LeveledView;

    open spec fn view(&self) -> LeveledView {
        LeveledView { line: self.line@, level: self.level }
    }
}

pub open spec fn leveled_views(lines: Seq<LeveledLine>) -> Seq<LeveledView> {
    Seq::new(lines.len(), |i: int| lines[i]@)
}

/// The font size of a line's first item.
pub open spec fn first_size(line: LineView, base_size: Single) -> Single {
    if line.items.len() > 0 {
        line.items[0].font_size
    } else {
        base_size
    }
}

/// A line follows another at a gap of at most a multiple of a size.
pub open spec fn follows(prev: LineView, line: LineView, size: Single, multiple: Single) -> bool {
    let gap = prev.y.spec_minus(line.y);
    Single { bits: 0 }.spec_less(gap) && gap.spec_less(size.spec_times(multiple))
}

/// All items of a line are bold.
pub open spec fn all_bold(line: LineView) -> bool {
    line.items.len() > 0 && forall|i: int| 0 <= i < line.items.len() ==> (#[trigger] line.items[i]).is_bold
}

/// Two lines of one heading level on one page, close to one another and short.
pub open spec fn wraps_heading(prev: LeveledView, next: LeveledView, base_size: Single) -> bool {
    &&& next.level is Some && prev.level == next.level
    &&& prev.line.page == next.line.page
    &&& follows(prev.line, next.line, first_size(next.line, base_size), Single { bits: HEADING_GAP_BITS })
    &&& word_count(prev.line.text()) + word_count(next.line.text()) <= MAX_HEADING_WORDS
}

/// A sentence ends here.
pub open spec fn ends_sentence(c: char) -> bool {
    c == '.' || c == ':' || c == ';' || c == '!' || c == '?'
}

/// Two bold lines without a level where the second continues the first: it
/// starts with a small letter, and the first ends no sentence.
pub open spec fn wraps_bold(prev: LeveledView, next: LeveledView, base_size: Single) -> bool {
    let before = trim_back(prev.line.text());
    let after = trimmed(next.line.text());
    &&& prev.level is None && next.level is None
    &&& prev.line.page == next.line.page
    &&& all_bold(prev.line) && all_bold(next.line)
    &&& follows(prev.line, next.line, first_size(next.line, base_size), Single { bits: BOLD_GAP_BITS })
    &&& after.len() > 0 && lowercase(after[0])
    &&& !(before.len() > 0 && ends_sentence(before.last()))
    &&& word_count(before) + word_count(after) <= MAX_HEADING_WORDS
}

/// The first item of a continued line, set off by a space.
pub open spec fn spaced_item(item: ItemView) -> ItemView {
    ItemView { text: " "@ + trim_front(item.text), ..item }
}

/// The items of a line behind those of another.
pub open spec fn continued_items(prev: Seq<ItemView>, next: Seq<ItemView>) -> Seq<ItemView> {
    Seq::new(
        prev.len() + next.len(),
        |i: int|
            if i < prev.len() {
                prev[i]
            } else if i == prev.len() {
                spaced_item(next[0])
            } else {
                next[i - prev.len()]
            },
    )
}

/// Where the items of a line behind those of another are one word.
pub open spec fn continued_joins(prev: LineView, next: LineView) -> Seq<bool> {
    Seq::new(
        prev.items.len() + next.items.len(),
        |i: int|
            if i < prev.items.len() {
                joins(prev.joined, i)
            } else if i == prev.items.len() {
                false
            } else {
                joins(next.joined, i - prev.items.len())
            },
    )
}

/// A line with another as its continuation. It keeps its place.
pub open spec fn continued(prev: LineView, next: LineView) -> LineView {
    LineView {
        items: continued_items(prev.items, next.items),
        joined: continued_joins(prev, next),
        ..prev
    }
}

/// A line continues the heading before it.
pub open spec fn wraps(prev: LeveledView, next: LeveledView, base_size: Single) -> bool {
    wraps_heading(prev, next, base_size) || wraps_bold(prev, next, base_size)
}

/// What becomes of the lines so far when a line with its level comes: it is
/// merged into the last of them, which gets its level anew, or stands for
/// itself.
pub open spec fn takes_line<A: LineAnalysis>(
    analysis: &A,
    base_size: Single,
    tiers: &Vec<Single>,
    roles: Seq<RoleEntry>,
    next: LeveledView,
    before: Seq<LeveledView>,
    after: Seq<LeveledView>,
) -> bool {
    if before.len() > 0 && wraps(before.last(), next, base_size) {
        let line = continued(before.last().line, next.line);
        exists|level: Option<usize>| #[trigger]
            level_as(analysis, line, base_size, tiers, roles, level) && after == before.drop_last().push(
                LeveledView { line, level },
            )
    } else {
        after == before.push(next)
    }
}

/// What becomes of the lines so far when a line comes.
pub open spec fn heading_step<A: LineAnalysis>(
    analysis: &A,
    base_size: Single,
    tiers: &Vec<Single>,
    roles: Seq<RoleEntry>,
    line: LineView,
    before: Seq<LeveledView>,
    after: Seq<LeveledView>,
) -> bool {
    exists|level: Option<usize>| #[trigger]
        level_as(analysis, line, base_size, tiers, roles, level) && takes_line(
            analysis,
            base_size,
            tiers,
            roles,
            LeveledView { line, level },
            before,
            after,
        )
}

/// The lines with wrapped headings merged, before the first line and after
/// each.
pub open spec fn merges_headings<A: LineAnalysis>(
    analysis: &A,
    base_size: Single,
    tiers: &Vec<Single>,
    roles: Seq<RoleEntry>,
    lines: Seq<LineView>,
    trace: Seq<Seq<LeveledView>>,
) -> bool {
    &&& trace.len() == lines.len() + 1
    &&& trace[0] == Seq::<LeveledView>::empty()
    &&& forall|k: int|
        0 <= k < lines.len() ==> heading_step(
            analysis,
            base_size,
            tiers,
            roles,
            #[trigger] lines[k],
            trace[k],
            trace[k + 1],
        )
}

/// The lines of leveled lines.
pub open spec fn plain_lines(lines: Seq<LeveledView>) -> Seq<LineView> {
    Seq::new(lines.len(), |i: int| lines[i].line)
}

fn find_first_size(line: &TextLine, base_size: Single) -> (r: Single)
    ensures
        r == first_size(line@, base_size),
{
    if line.items.len() > 0 {
        assert(line@.items[0] == line.items@[0]@);
        line.items[0].font_size
    } else {
        base_size
    }
}

fn does_follow(prev: &TextLine, line: &TextLine, size: Single, multiple: Single) -> (r: bool)
    ensures
        r == follows(prev@, line@, size, multiple),
{
    let gap = prev.y.minus(line.y);
    Single::zero().less(gap) && gap.less(size.times(multiple))
}

fn is_all_bold(line: &TextLine) -> (r: bool)
    ensures
        r == all_bold(line@),
{
    if line.items.len() == 0 {
        return false;
    }
    let mut i: usize = 0;
    while i < line.items.len()
        invariant
            i <= line.items@.len(),
            forall|j: int| 0 <= j < i ==> (#[trigger] line@.items[j]).is_bold,
        decreases line.items@.len() - i,
    {
        assert(line@.items[i as int] == line.items@[i as int]@);
        if !line.items[i].is_bold {
            return false;
        }
        i += 1;
    }
    true
}

fn are_words_few(a: &Vec<char>, b: &Vec<char>) -> (r: bool)
    ensures
        r == (word_count(a@) + word_count(b@) <= MAX_HEADING_WORDS),
{
    let first = count_words(a);
    let second = count_words(b);
    first <= MAX_HEADING_WORDS && second <= MAX_HEADING_WORDS - first
}

fn does_wrap_heading(prev: &LeveledLine, next: &LeveledLine, base_size: Single) -> (r: bool)
    ensures
        r == wraps_heading(prev@, next@, base_size),
{
    match (prev.level, next.level) {
        (Some(before), Some(after)) => before == after && prev.line.page == next.line.page && does_follow(
            &prev.line,
            &next.line,
            find_first_size(&next.line, base_size),
            Single { bits: HEADING_GAP_BITS },
        ) && are_words_few(&characters(&prev.line.text()), &characters(&next.line.text())),
        _ => false,
    }
}

fn does_end_sentence(c: char) -> (r: bool)
    ensures
        r == ends_sentence(c),
{
    c == '.' || c == ':' || c == ';' || c == '!' || c == '?'
}

fn does_wrap_bold(prev: &LeveledLine, next: &LeveledLine, base_size: Single) -> (r: bool)
    ensures
        r == wraps_bold(prev@, next@, base_size),
{
    if prev.level.is_some() || next.level.is_some() || prev.line.page != next.line.page || !is_all_bold(&prev.line)
        || !is_all_bold(&next.line) {
        return false;
    }
    if !does_follow(
        &prev.line,
        &next.line,
        find_first_size(&next.line, base_size),
        Single { bits: BOLD_GAP_BITS },
    ) {
        return false;
    }
    let before = without_back_space(&characters(&prev.line.text()));
    let after = trim_chars(&characters(&next.line.text()));
    if after.len() == 0 {
        return false;
    }
    let first: char = after[0];
    first.is_lowercase() && !(before.len() > 0 && does_end_sentence(before[before.len() - 1])) && are_words_few(
        &before,
        &after,
    )
}

/// Puts a line behind another.
fn continue_line(prev: TextLine, next: &TextLine) -> (r: TextLine)
    ensures
        r@ == continued(prev@, next@),
{
    let ghost first = prev@;
    let ghost second = next@;
    let count: usize = prev.items.len();
    let mut items = prev.items;
    let mut flags: Vec<bool> = Vec::new();
    let mut i: usize = 0;
    while i < count
        invariant
            i <= count,
            count == first.items.len(),
            prev.joined@ == first.joined,
            flags@.len() == i,
            forall|j: int| 0 <= j < i ==> #[trigger] flags@[j] == joins(first.joined, j),
        decreases count - i,
    {
        flags.push(i < prev.joined.len() && prev.joined[i]);
        i += 1;
    }
    let mut i: usize = 0;
    while i < next.items.len()
        invariant
            i <= next.items@.len(),
            second == next@,
            first.items.len() == count,
            items@.len() == count + i,
            flags@.len() == count + i,
            forall|j: int| 0 <= j < count ==> (#[trigger] items@[j])@ == first.items[j],
            forall|j: int|
                count <= j < count + i ==> (#[trigger] items@[j])@ == continued_items(
                    first.items,
                    second.items,
                )[j],
            forall|j: int|
                0 <= j < count + i ==> #[trigger] flags@[j] == continued_joins(first, second)[j],
        decreases next.items@.len() - i,
    {
        let item = &next.items[i];
        assert(second.items[i as int] == item@);
        let mut copy = copy_item(item);
        if i == 0 {
            let mut text: Vec<char> = Vec::new();
            push_text(&mut text, " ");
            push_chars(&mut text, &without_front_space(&characters(&item.text)));
            copy.text = text_of(&text);
            assert(copy@ =~= spaced_item(item@));
        }
        items.push(copy);
        flags.push(i > 0 && i < next.joined.len() && next.joined[i]);
        i += 1;
    }
    let r = TextLine {
        items,
        y: prev.y,
        page: prev.page,
        adaptive_threshold: prev.adaptive_threshold,
        joined: flags,
    };
    assert(r@.items =~= continued_items(first.items, second.items));
    assert(r@.joined =~= continued_joins(first, second));
    assert(r@ =~= continued(first, second));
    r
}

/// Merges the lines of wrapped headings.
///
/// Consecutive lines of one heading level on one page with a small gap are
/// one heading, and so are bold lines at text size of which the second
/// continues the first. A merged line gets its level anew.
pub fn merge_heading_lines<A: LineAnalysis>(
    analysis: &A,
    lines: Vec<TextLine>,
    base_size: Single,
    heading_tiers: &Vec<Single>,
    roles: &Vec<RoleEntry>,
) -> (r: Vec<TextLine>)
    ensures
        exists|trace: Seq<Seq<LeveledView>>| #[trigger]
            merges_headings(analysis, base_size, heading_tiers, roles@, line_views(lines@), trace) && line_views(r@)
                == plain_lines(trace.last()),
{
    let ghost model = line_views(lines@);
    let mut result: Vec<LeveledLine> = Vec::new();
    let ghost mut trace: Seq<Seq<LeveledView>> = seq![leveled_views(result@)];
    let mut i: usize = 0;
    assert(leveled_views(result@) =~= Seq::empty());
    while i < lines.len()
        invariant
            i <= lines@.len(),
            model == line_views(lines@),
            trace.len() == i + 1,
            trace[0] == Seq::<LeveledView>::empty(),
            trace.last() == leveled_views(result@),
            forall|k: int|
                0 <= k < i ==> heading_step(
                    analysis,
                    base_size,
                    heading_tiers,
                    roles@,
                    #[trigger] model[k],
                    trace[k],
                    trace[k + 1],
                ),
        decreases lines@.len() - i,
    {
        let ghost before = leveled_views(result@);
        let ghost earlier = trace;
        assert(model[i as int] == lines@[i as int]@);
        let next = LeveledLine {
            line: copy_line(&lines[i]),
            level: effective_heading_level(analysis, &lines[i], base_size, heading_tiers, roles),
        };
        let ghost coming = next@;
        assert(level_as(analysis, model[i as int], base_size, heading_tiers, roles@, coming.level));
        let merges = if result.len() > 0 {
            let prev = &result[result.len() - 1];
            assert(before.last() == prev@);
            does_wrap_heading(prev, &next, base_size) || does_wrap_bold(prev, &next, base_size)
        } else {
            false
        };
        if merges {
            let ghost last = before.last();
            if let Some(prev) = result.pop() {
                assert(leveled_views(result@) =~= before.drop_last());
                let line = continue_line(prev.line, &next.line);
                let level = effective_heading_level(analysis, &line, base_size, heading_tiers, roles);
                assert(level_as(analysis, continued(last.line, coming.line), base_size, heading_tiers, roles@, level));
                let merged = LeveledLine { line, level };
                let ghost grown = merged@;
                result.push(merged);
                assert(leveled_views(result@) =~= before.drop_last().push(grown));
            }
        } else {
            result.push(next);
            assert(leveled_views(result@) =~= before.push(coming));
        }
        proof {
            let after = leveled_views(result@);
            assert(takes_line(analysis, base_size, heading_tiers, roles@, coming, before, after));
            assert(coming == (LeveledView { line: model[i as int], level: coming.level }));
            assert(heading_step(analysis, base_size, heading_tiers, roles@, model[i as int], before, after));
            trace = trace.push(after);
            assert forall|k: int| 0 <= k < i + 1 implies heading_step(
                analysis,
                base_size,
                heading_tiers,
                roles@,
                #[trigger] model[k],
                trace[k],
                trace[k + 1],
            ) by {
                assert(trace[k] == earlier[k]);
                if k < i {
                    assert(trace[k + 1] == earlier[k + 1]);
                }
            }
        }
        i += 1;
    }
    assert(merges_headings(analysis, base_size, heading_tiers, roles@, model, trace));
    let ghost merged = leveled_views(result@);
    let mut out: Vec<TextLine> = Vec::new();
    let mut i: usize = 0;
    while i < result.len()
        invariant
            i <= result@.len(),
            merged == leveled_views(result@),
            out@.len() == i,
            forall|j: int| 0 <= j < i ==> (#[trigger] out@[j])@ == merged[j].line,
        decreases result@.len() - i,
    {
        assert(merged[i as int] == result@[i as int]@);
        out.push(copy_line(&result[i].line));
        i += 1;
    }
    assert(line_views(out@) =~= plain_lines(merged));
    out
}

/// A drop cap: one capital letter, much larger than the text.
pub open spec fn drop_cap(line: LineView, base_size: Single) -> bool {
    let text = trimmed(line.text());
    &&& text.len() == 1
    &&& base_size.spec_times(Single { bits: DROP_CAP_SIZE_BITS }).spec_at_most(
        first_size(line, Single { bits: 0 }),
    )
    &&& uppercase(text[0])
}

/// The line starts with a small letter.
pub open spec fn starts_small(line: LineView) -> bool {
    trimmed(line.text()).len() > 0 && lowercase(trimmed(line.text())[0])
}

/// The line at `k` starts a paragraph with a small letter: the line before it
/// starts with another character.
pub open spec fn starts_paragraph(lines: Seq<LineView>, k: int) -> bool {
    &&& starts_small(lines[k])
    &&& k == 0 || (trimmed(lines[k - 1].text()).len() > 0 && !starts_small(lines[k - 1]))
}

/// The first line of a page from `k` on that starts a paragraph.
pub open spec fn paragraph_start(lines: Seq<LineView>, page: u32, k: int) -> Option<nat>
    decreases lines.len() - k,
{
    if k < 0 || k >= lines.len() {
        None
    } else if lines[k].page == page && starts_paragraph(lines, k) {
        Some(k as nat)
    } else {
        paragraph_start(lines, page, k + 1)
    }
}

/// Some item was rewritten.
pub open spec fn any_rewrite(items: Seq<ItemView>) -> bool {
    exists|i: int| 0 <= i < items.len() && (#[trigger] items[i]).legacy_symbol_rewrite
}

/// A line with a drop cap put before its first item.
pub open spec fn with_drop_cap(line: LineView, cap: LineView) -> LineView {
    if line.items.len() == 0 {
        line
    } else {
        let first = line.items[0];
        LineView {
            items: line.items.update(
                0,
                ItemView {
                    text: seq![trimmed(cap.text())[0]] + trimmed(first.text),
                    legacy_symbol_rewrite: first.legacy_symbol_rewrite || any_rewrite(cap.items),
                    ..first
                },
            ),
            ..line
        }
    }
}

/// The first `n` lines with drop caps merged into their paragraphs.
pub open spec fn merged_caps(lines: Seq<LineView>, base_size: Single, n: nat) -> Seq<LineView>
    decreases n,
{
    if n == 0 {
        Seq::empty()
    } else {
        let before = merged_caps(lines, base_size, (n - 1) as nat);
        let line = lines[n - 1];
        if drop_cap(line, base_size) {
            match paragraph_start(before, line.page, 0) {
                Some(k) => before.update(k as int, with_drop_cap(before[k as int], line)),
                None => before,
            }
        } else {
            before.push(line)
        }
    }
}

fn is_drop_cap(line: &TextLine, text: &Vec<char>, base_size: Single) -> (r: bool)
    requires
        text@ == trimmed(line@.text()),
    ensures
        r == drop_cap(line@, base_size),
{
    if text.len() != 1 {
        return false;
    }
    let first: char = text[0];
    base_size.times(Single { bits: DROP_CAP_SIZE_BITS }).at_most(find_first_size(line, Single::zero()))
        && first.is_uppercase()
}

fn find_paragraph_start(lines: &Vec<TextLine>, page: u32) -> (r: Option<usize>)
    ensures
        match r {
            Some(k) => k < lines@.len() && paragraph_start(line_views(lines@), page, 0) == Some(k as nat),
            None => paragraph_start(line_views(lines@), page, 0) is None,
        },
{
    let ghost model = line_views(lines@);
    let mut k: usize = 0;
    while k < lines.len()
        invariant
            k <= lines@.len(),
            model == line_views(lines@),
            paragraph_start(model, page, 0) == paragraph_start(model, page, k as int),
        decreases lines@.len() - k,
    {
        assert(model[k as int] == lines@[k as int]@);
        if lines[k].page == page {
            let text = trim_chars(&characters(&lines[k].text()));
            let small = if text.len() > 0 {
                let c: char = text[0];
                c.is_lowercase()
            } else {
                false
            };
            if small {
                let free = if k == 0 {
                    true
                } else {
                    assert(model[k - 1] == lines@[k - 1]@);
                    let before = trim_chars(&characters(&lines[k - 1].text()));
                    if before.len() > 0 {
                        let c: char = before[0];
                        !c.is_lowercase()
                    } else {
                        false
                    }
                };
                if free {
                    return Some(k);
                }
            }
        }
        k += 1;
    }
    None
}

fn is_any_rewritten(items: &Vec<TextItem>) -> (r: bool)
    ensures
        r == any_rewrite(views(items@)),
{
    let mut i: usize = 0;
    while i < items.len()
        invariant
            i <= items@.len(),
            forall|j: int| 0 <= j < i ==> !(#[trigger] views(items@)[j]).legacy_symbol_rewrite,
        decreases items@.len() - i,
    {
        assert(views(items@)[i as int] == items@[i as int]@);
        if items[i].legacy_symbol_rewrite {
            return true;
        }
        i += 1;
    }
    false
}

fn add_drop_cap(line: &TextLine, cap: &TextLine, letter: char) -> (r: TextLine)
    requires
        trimmed(cap@.text()).len() > 0,
        letter == trimmed(cap@.text())[0],
    ensures
        r@ == with_drop_cap(line@, cap@),
{
    let mut r = copy_line(line);
    if r.items.len() > 0 {
        let ghost before = r@;
        assert(before.items[0] == r.items@[0]@);
        let own = trim_chars(&characters(&r.items[0].text));
        let mut text: Vec<char> = Vec::new();
        text.push(letter);
        push_chars(&mut text, &own);
        assert(text@ =~= seq![letter] + own@);
        let rewritten = r.items[0].legacy_symbol_rewrite || is_any_rewritten(&cap.items);
        let mut first = copy_item(&r.items[0]);
        first.text = text_of(&text);
        first.legacy_symbol_rewrite = rewritten;
        let ghost changed = first@;
        r.items[0] = first;
        assert(r@.items =~= before.items.update(0, changed));
        assert(r@ =~= with_drop_cap(line@, cap@));
    }
    r
}

/// Merges drop caps with the paragraphs they belong to. A drop cap can come
/// behind the line that it starts.
pub fn merge_drop_caps(lines: Vec<TextLine>, base_size: Single) -> (r: Vec<TextLine>)
    ensures
        line_views(r@) == merged_caps(line_views(lines@), base_size, lines@.len()),
{
    let ghost model = line_views(lines@);
    let mut result: Vec<TextLine> = Vec::new();
    let mut i: usize = 0;
    assert(line_views(result@) =~= merged_caps(model, base_size, 0));
    while i < lines.len()
        invariant
            i <= lines@.len(),
            model == line_views(lines@),
            line_views(result@) == merged_caps(model, base_size, i as nat),
        decreases lines@.len() - i,
    {
        let line = &lines[i];
        assert(model[i as int] == line@);
        let ghost before = line_views(result@);
        let text = trim_chars(&characters(&line.text()));
        if is_drop_cap(line, &text, base_size) {
            if let Some(k) = find_paragraph_start(&result, line.page) {
                assert(before[k as int] == result@[k as int]@);
                let merged = add_drop_cap(&result[k], line, text[0]);
                let ghost changed = merged@;
                result[k] = merged;
                assert(line_views(result@) =~= before.update(k as int, changed));
            }
        } else {
            result.push(copy_line(line));
            assert(line_views(result@) =~= before.push(line@));
        }
        i += 1;
    }
    result
}

/// Items whose texts have no white space in front.
pub open spec fn bare_items(items: Seq<ItemView>) -> Seq<ItemView> {
    Seq::new(items.len(), |i: int| ItemView { text: trim_front(items[i].text), ..items[i] })
}

/// The items of lines, one line after the other, without white space in front
/// of their texts.
pub open spec fn items_of_lines(lines: Seq<LineView>) -> Seq<ItemView>
    decreases lines.len(),
{
    if lines.len() == 0 {
        Seq::empty()
    } else {
        items_of_lines(lines.drop_last()) + bare_items(lines.last().items)
    }
}

proof fn lemma_space_in_front(s: Seq<char>)
    ensures
        trim_front(" "@ + trim_front(s)) == trim_front(s),
{
    reveal_strlit(" ");
    let spaced = " "@ + trim_front(s);
    lemma_trimmed_front(s);
    assert(spaced.skip(1) =~= trim_front(s));
    assert(spaced.drop_first() =~= trim_front(s));
    reveal_with_fuel(trim_front, 2);
}

proof fn lemma_trimmed_front(s: Seq<char>)
    ensures
        trim_front(s).len() > 0 ==> !white_space(trim_front(s)[0]),
    decreases s.len(),
{
    if s.len() > 0 && white_space(s[0]) {
        lemma_trimmed_front(s.drop_first());
    }
}

proof fn lemma_continued_items(prev: Seq<ItemView>, next: Seq<ItemView>)
    ensures
        bare_items(continued_items(prev, next)) == bare_items(prev) + bare_items(next),
{
    let both = bare_items(continued_items(prev, next));
    let parts = bare_items(prev) + bare_items(next);
    assert forall|i: int| 0 <= i < both.len() implies #[trigger] both[i] == parts[i] by {
        if i == prev.len() {
            lemma_space_in_front(next[0].text);
        }
    }
    assert(both =~= parts);
}

proof fn lemma_merged_headings_keep_items<A: LineAnalysis>(
    analysis: &A,
    base_size: Single,
    tiers: &Vec<Single>,
    roles: Seq<RoleEntry>,
    lines: Seq<LineView>,
    trace: Seq<Seq<LeveledView>>,
    n: nat,
)
    requires
        merges_headings(analysis, base_size, tiers, roles, lines, trace),
        n <= lines.len(),
    ensures
        trace[n as int].len() <= n,
        items_of_lines(plain_lines(trace[n as int])) == items_of_lines(lines.take(n as int)),
    decreases n,
{
    if n == 0 {
        assert(lines.take(0) =~= Seq::empty());
        assert(plain_lines(trace[0]) =~= Seq::empty());
    } else {
        lemma_merged_headings_keep_items(analysis, base_size, tiers, roles, lines, trace, (n - 1) as nat);
        let before = trace[n - 1];
        let after = trace[n as int];
        let line = lines[n - 1];
        assert(heading_step(analysis, base_size, tiers, roles, line, trace[n - 1], trace[n - 1 + 1]));
        let level = choose|level: Option<usize>| #[trigger]
            level_as(analysis, line, base_size, tiers, roles, level) && takes_line(
                analysis,
                base_size,
                tiers,
                roles,
                LeveledView { line, level },
                before,
                after,
            );
        let next = LeveledView { line, level };
        assert(lines.take(n as int).drop_last() =~= lines.take(n - 1));
        assert(lines.take(n as int).last() == line);
        if before.len() > 0 && wraps(before.last(), next, base_size) {
            let last = before.last().line;
            assert(after.len() == before.len());
            assert(plain_lines(after).drop_last() =~= plain_lines(before).drop_last());
            assert(plain_lines(after).last() == continued(last, line));
            lemma_continued_items(last.items, line.items);
            let front = items_of_lines(plain_lines(before).drop_last());
            let middle = bare_items(last.items);
            let end = bare_items(line.items);
            assert(plain_lines(before).last() == last);
            assert(front + (middle + end) =~= (front + middle) + end);
        } else {
            assert(plain_lines(after).drop_last() =~= plain_lines(before));
            assert(plain_lines(after).last() == line);
        }
    }
}

/// Merging headings only joins lines: there are no more lines than before, and
/// the items stand in the same order, none lost, added or changed but for the
/// white space in front of a continuation.
pub proof fn law_merging_headings_only_joins<A: LineAnalysis>(
    analysis: &A,
    base_size: Single,
    tiers: &Vec<Single>,
    roles: Seq<RoleEntry>,
    lines: Seq<LineView>,
    trace: Seq<Seq<LeveledView>>,
)
    requires
        merges_headings(analysis, base_size, tiers, roles, lines, trace),
    ensures
        trace.last().len() <= lines.len(),
        items_of_lines(plain_lines(trace.last())) == items_of_lines(lines),
{
    lemma_merged_headings_keep_items(analysis, base_size, tiers, roles, lines, trace, lines.len());
    assert(lines.take(lines.len() as int) =~= lines);
}

/// Lines on different pages are never merged.
pub proof fn law_headings_end_with_their_page(prev: LeveledView, next: LeveledView, base_size: Single)
    requires
        prev.line.page != next.line.page,
    ensures
        !wraps_heading(prev, next, base_size),
        !wraps_bold(prev, next, base_size),
{
}

/// A role of the structure tree decides the level, whatever the font says.
pub proof fn law_structure_tree_takes_priority<A: LineAnalysis>(
    analysis: &A,
    line: LineView,
    base_size: Single,
    tiers: &Vec<Single>,
    roles: Seq<RoleEntry>,
    level: Option<usize>,
)
    requires
        tagged_level(line.items, roles, line.page, 0) is Some,
        level_as(analysis, line, base_size, tiers, roles, level),
    ensures
        level == tagged_level(line.items, roles, line.page, 0),
{
}

} // verus!
