//! Conservative clipping evidence for preserving independent text runs.
//!
//! Nothing is clipped and no cells are inferred. Only a single finite,
//! axis-aligned rectangle can establish a boundary; unknown paths establish
//! none, even if a later rectangle narrows their clip.

use crate::extractor::text_paint::{first_number, read_first_number, Matrix};
use crate::pdf::{get_number, nodes, number_of, Node, PdfObject};
use crate::single::Single;
use crate::text::same_text;
use crate::types::{ItemView, TextItem};
use vstd::prelude::*;

verus! {

/// The pattern of `4.0`, the first rendering mode that adds to the clip.
pub const FIRST_CLIPPING_MODE_BITS: u32 = 0x4080_0000;

/// `0.01`: how far a run may reach beyond its clip, in points.
pub const TOLERANCE_BITS: u32 = 0x3c23_d70a;

#[derive(Clone, Copy, Debug, PartialEq, Eq, Structural)]
pub struct ClipRect {
    pub left: Single,
    pub bottom: Single,
    pub right: Single,
    pub top: Single,
}

/// All operands are finite numbers.
pub open spec fn finite_numbers(operands: Seq<Node>) -> bool {
    forall|i: int|
        0 <= i < operands.len() ==> (number_of(#[trigger] operands[i]) matches Some(x) && x.spec_finite())
}

/// All operands are numbers.
pub open spec fn all_numbers(operands: Seq<Node>) -> bool {
    forall|i: int| 0 <= i < operands.len() ==> number_of(#[trigger] operands[i]) is Some
}

fn are_numbers(operands: &Vec<PdfObject>, finite: bool) -> (r: bool)
    ensures
        r == if finite {
            finite_numbers(nodes(operands@))
        } else {
            all_numbers(nodes(operands@))
        },
{
    let mut i: usize = 0;
    while i < operands.len()
        invariant
            i <= operands@.len(),
            forall|j: int|
                0 <= j < i ==> (number_of(#[trigger] nodes(operands@)[j]) matches Some(x) && (finite
                    ==> x.spec_finite())),
        decreases operands@.len() - i,
    {
        assert(nodes(operands@)[i as int] == operands@[i as int]@);
        match get_number(&operands[i]) {
            Some(x) => {
                if finite && !x.is_finite() {
                    return false;
                }
            },
            None => {
                return false;
            },
        }
        i += 1;
    }
    true
}

impl ClipRect {
    pub open spec fn has_area(self) -> bool {
        self.left.spec_less(self.right) && self.bottom.spec_less(self.top)
    }

    /// Every point of this rectangle is a point of the other.
    pub open spec fn within(self, other: ClipRect) -> bool {
        &&& other.left.spec_at_most(self.left) && self.right.spec_at_most(other.right)
        &&& other.bottom.spec_at_most(self.bottom) && self.top.spec_at_most(other.top)
    }

    pub open spec fn finite(self) -> bool {
        &&& self.left.spec_finite() && self.right.spec_finite()
        &&& self.bottom.spec_finite() && self.top.spec_finite()
    }

    pub open spec fn common(self, other: ClipRect) -> ClipRect {
        ClipRect {
            left: self.left.spec_max(other.left),
            bottom: self.bottom.spec_max(other.bottom),
            right: self.right.spec_min(other.right),
            top: self.top.spec_min(other.top),
        }
    }

    pub open spec fn spec_intersection(self, other: ClipRect) -> Option<ClipRect> {
        if self.common(other).has_area() {
            Some(self.common(other))
        } else {
            None
        }
    }

    /// The part that two rectangles share, if it has an area.
    pub fn intersection(self, other: ClipRect) -> (r: Option<ClipRect>)
        ensures
            r == self.spec_intersection(other),
    {
        let rect = ClipRect {
            left: self.left.max(other.left),
            bottom: self.bottom.max(other.bottom),
            right: self.right.min(other.right),
            top: self.top.min(other.top),
        };
        if rect.left.less(rect.right) && rect.bottom.less(rect.top) {
            Some(rect)
        } else {
            None
        }
    }

    /// The rectangle with two opposite corners.
    pub open spec fn between(xa: Single, ya: Single, xb: Single, yb: Single) -> ClipRect {
        ClipRect { left: xa.spec_min(xb), right: xa.spec_max(xb), bottom: ya.spec_min(yb), top: ya.spec_max(yb) }
    }

    pub open spec fn spec_from_path(operands: Seq<Node>, ctm: Matrix) -> Option<ClipRect> {
        if operands.len() == 4 && ctm.spec_finite() && ctm.b.spec_zero() && ctm.c.spec_zero() && all_numbers(operands) {
            let x = number_of(operands[0])->0;
            let y = number_of(operands[1])->0;
            let w = number_of(operands[2])->0;
            let h = number_of(operands[3])->0;
            let xa = ctm.a.spec_times(x).spec_plus(ctm.e);
            let xb = ctm.a.spec_times(x.spec_plus(w)).spec_plus(ctm.e);
            let ya = ctm.d.spec_times(y).spec_plus(ctm.f);
            let yb = ctm.d.spec_times(y.spec_plus(h)).spec_plus(ctm.f);
            let rect = ClipRect::between(xa, ya, xb, yb);
            if xa.spec_finite() && xb.spec_finite() && ya.spec_finite() && yb.spec_finite() && rect.has_area() {
                Some(rect)
            } else {
                None
            }
        } else {
            None
        }
    }

    /// The rectangle of a `re` operator on the page, where it is finite, has an
    /// area and the transformation keeps its sides parallel to the axes.
    pub fn from_path(operands: &Vec<PdfObject>, ctm: &Matrix) -> (r: Option<ClipRect>)
        ensures
            r == ClipRect::spec_from_path(nodes(operands@), *ctm),
    {
        if operands.len() != 4 || !ctm.is_finite() || !ctm.b.is_zero() || !ctm.c.is_zero() || !are_numbers(
            operands,
            false,
        ) {
            return None;
        }
        assert(nodes(operands@)[0] == operands@[0]@ && nodes(operands@)[1] == operands@[1]@);
        assert(nodes(operands@)[2] == operands@[2]@ && nodes(operands@)[3] == operands@[3]@);
        match (
            get_number(&operands[0]),
            get_number(&operands[1]),
            get_number(&operands[2]),
            get_number(&operands[3]),
        ) {
            (Some(x), Some(y), Some(w), Some(h)) => {
                let xa = ctm.a.times(x).plus(ctm.e);
                let xb = ctm.a.times(x.plus(w)).plus(ctm.e);
                let ya = ctm.d.times(y).plus(ctm.f);
                let yb = ctm.d.times(y.plus(h)).plus(ctm.f);
                if !(xa.is_finite() && xb.is_finite() && ya.is_finite() && yb.is_finite()) {
                    return None;
                }
                let rect = ClipRect { left: xa.min(xb), bottom: ya.min(yb), right: xa.max(xb), top: ya.max(yb) };
                if rect.left.less(rect.right) && rect.bottom.less(rect.top) {
                    Some(rect)
                } else {
                    None
                }
            },
            _ => None,
        }
    }

    /// An upright run of known width starts, ends and rests within the
    /// rectangle, up to the tolerance.
    pub open spec fn holds(self, item: ItemView) -> bool {
        let slack = Single { bits: TOLERANCE_BITS };
        &&& item.is_upright() && item.advance_known
        &&& item.x.spec_finite() && item.y.spec_finite() && item.width.spec_finite()
        &&& Single { bits: 0 }.spec_less(item.width)
        &&& self.left.spec_minus(slack).spec_at_most(item.x)
        &&& item.x.spec_plus(item.width).spec_at_most(self.right.spec_plus(slack))
        &&& self.bottom.spec_minus(slack).spec_at_most(item.y)
        &&& item.y.spec_at_most(self.top.spec_plus(slack))
    }

    pub fn contains_advance(&self, item: &TextItem) -> (r: bool)
        ensures
            r == self.holds(item@),
    {
        let slack = Single { bits: TOLERANCE_BITS };
        item.is_upright() && item.advance_known && item.x.is_finite() && item.y.is_finite() && item.width.is_finite()
            && Single::zero().less(item.width) && self.left.minus(slack).at_most(item.x) && item.x.plus(
            item.width,
        ).at_most(self.right.plus(slack)) && self.bottom.minus(slack).at_most(item.y) && item.y.at_most(
            self.top.plus(slack),
        )
    }
}

#[derive(Clone, Copy, Debug, PartialEq, Eq, Structural)]
pub enum Clip {
    Unbounded,
    Rect(ClipRect),
    Unknown,
}

/// Follows the clip through a content stream.
pub struct ClipTracker {
    pub active: Clip,
    pub saved: Vec<Clip>,
    /// Paths are not part of the saved graphics state. At most one rectangle
    /// is kept.
    pub path: Option<Clip>,
    pub pending: bool,
    pub text_clip_pending: bool,
}

/// What a [`ClipTracker`] knows.
pub struct ClipState {
    pub active: Clip,
    pub saved: Seq<Clip>,
    pub path: Option<Clip>,
    pub pending: bool,
    pub text_clip_pending: bool,
}

/// The operators that extend a path by anything but a rectangle.
pub open spec fn extends_path(operator: Seq<char>) -> bool {
    ||| operator == "m"@
    ||| operator == "l"@
    ||| operator == "c"@
    ||| operator == "v"@
    ||| operator == "y"@
    ||| operator == "h"@
}

/// The operators that end a path.
pub open spec fn ends_path(operator: Seq<char>) -> bool {
    ||| operator == "n"@
    ||| operator == "S"@
    ||| operator == "s"@
    ||| operator == "f"@
    ||| operator == "F"@
    ||| operator == "f*"@
    ||| operator == "B"@
    ||| operator == "B*"@
    ||| operator == "b"@
    ||| operator == "b*"@
}

fn is_path_extension(operator: &str) -> (r: bool)
    ensures
        r == extends_path(operator@),
{
    same_text(operator, "m") || same_text(operator, "l") || same_text(operator, "c") || same_text(operator, "v")
        || same_text(operator, "y") || same_text(operator, "h")
}

fn is_path_end(operator: &str) -> (r: bool)
    ensures
        r == ends_path(operator@),
{
    same_text(operator, "n") || same_text(operator, "S") || same_text(operator, "s") || same_text(operator, "f")
        || same_text(operator, "F") || same_text(operator, "f*") || same_text(operator, "B") || same_text(
        operator,
        "B*",
    ) || same_text(operator, "b") || same_text(operator, "b*")
}

/// The clip after a path joins it.
pub open spec fn joined(active: Clip, path: Option<Clip>) -> Clip {
    match (active, path) {
        (Clip::Unbounded, Some(Clip::Rect(rect))) => Clip::Rect(rect),
        (Clip::Rect(active), Some(Clip::Rect(rect))) => match active.spec_intersection(rect) {
            Some(common) => Clip::Rect(common),
            None => Clip::Unknown,
        },
        _ => Clip::Unknown,
    }
}

impl ClipState {
    /// The rectangle that clips text, where one is known.
    pub open spec fn rect(self) -> Option<ClipRect> {
        match self.active {
            Clip::Rect(rect) => if self.text_clip_pending {
                None
            } else {
                Some(rect)
            },
            _ => None,
        }
    }

    /// What an operator does to the state.
    pub open spec fn after(
        self,
        operator: Seq<char>,
        operands: Seq<Node>,
        ctm: Matrix,
    ) -> ClipState {
        if operator == "q"@ {
            ClipState { saved: self.saved.push(self.active), ..self }
        } else if operator == "Q"@ {
            if self.saved.len() == 0 {
                ClipState { active: Clip::Unknown, ..self }
            } else {
                ClipState { active: self.saved.last(), saved: self.saved.drop_last(), ..self }
            }
        } else if operator == "cm"@ {
            if operands.len() != 6 || !finite_numbers(operands) {
                ClipState { active: Clip::Unknown, ..self }
            } else {
                self
            }
        } else if operator == "re"@ {
            let path = match ClipRect::spec_from_path(operands, ctm) {
                Some(rect) => if self.path is None {
                    Clip::Rect(rect)
                } else {
                    Clip::Unknown
                },
                None => Clip::Unknown,
            };
            ClipState { path: Some(path), ..self }
        } else if extends_path(operator) {
            ClipState { path: Some(Clip::Unknown), ..self }
        } else if operator == "W"@ || operator == "W*"@ {
            ClipState { pending: true, ..self }
        } else if ends_path(operator) {
            ClipState {
                active: if self.pending {
                    joined(self.active, self.path)
                } else {
                    self.active
                },
                path: None,
                pending: false,
                ..self
            }
        } else if operator == "Tr"@ {
            match first_number(operands) {
                Some(mode) => if (Single { bits: FIRST_CLIPPING_MODE_BITS }).spec_at_most(mode) {
                    ClipState { active: Clip::Unknown, text_clip_pending: true, ..self }
                } else {
                    self
                },
                None => self,
            }
        } else if operator == "ET"@ && self.text_clip_pending {
            ClipState { active: Clip::Unknown, text_clip_pending: false, ..self }
        } else {
            self
        }
    }
}

impl View for ClipTracker {
    type V = ClipState;

    open spec fn view(&self) -> ClipState {
        ClipState {
            active: self.active,
            saved: self.saved@,
            path: self.path,
            pending: self.pending,
            text_clip_pending: self.text_clip_pending,
        }
    }
}

impl ClipTracker {
    /// A tracker at the start of a content stream.
    pub fn new() -> (r: ClipTracker)
        ensures
            r@ == (ClipState {
                active: Clip::Unbounded,
                saved: Seq::empty(),
                path: None,
                pending: false,
                text_clip_pending: false,
            }),
    {
        ClipTracker {
            active: Clip::Unbounded,
            saved: Vec::new(),
            path: None,
            pending: false,
            text_clip_pending: false,
        }
    }

    pub fn rect(&self) -> (r: Option<ClipRect>)
        ensures
            r == self@.rect(),
    {
        match self.active {
            Clip::Rect(rect) => if self.text_clip_pending {
                None
            } else {
                Some(rect)
            },
            _ => None,
        }
    }

    /// Follows one operator under the current transformation.
    pub fn observe(
        &mut self,
        operator: &str,
        operands: &Vec<PdfObject>,
        ctm: &Matrix,
    )
        ensures
            final(self)@ == old(self)@.after(operator@, nodes(operands@), *ctm),
    {
        if same_text(operator, "q") {
            self.saved.push(self.active);
        } else if same_text(operator, "Q") {
            self.active = match self.saved.pop() {
                Some(clip) => clip,
                None => Clip::Unknown,
            };
        } else if same_text(operator, "cm") {
            if operands.len() != 6 || !are_numbers(operands, true) {
                self.active = Clip::Unknown;
            }
        } else if same_text(operator, "re") {
            let rect = ClipRect::from_path(operands, ctm);
            let path = match (rect, self.path) {
                (Some(rect), None) => Clip::Rect(rect),
                _ => Clip::Unknown,
            };
            self.path = Some(path);
        } else if is_path_extension(operator) {
            self.path = Some(Clip::Unknown);
        } else if same_text(operator, "W") || same_text(operator, "W*") {
            self.pending = true;
        } else if is_path_end(operator) {
            if self.pending {
                self.active = match (self.active, self.path) {
                    (Clip::Unbounded, Some(Clip::Rect(rect))) => Clip::Rect(rect),
                    (Clip::Rect(active), Some(Clip::Rect(rect))) => match active.intersection(rect) {
                        Some(common) => Clip::Rect(common),
                        None => Clip::Unknown,
                    },
                    _ => Clip::Unknown,
                };
            }
            self.path = None;
            self.pending = false;
        } else if same_text(operator, "Tr") {
            // Glyph outlines make the clip nonrectangular at the end of the
            // text object. Abstain at once, including a save and restore
            // inside the text object.
            if let Some(mode) = read_first_number(operands) {
                if (Single { bits: FIRST_CLIPPING_MODE_BITS }).at_most(mode) {
                    self.active = Clip::Unknown;
                    self.text_clip_pending = true;
                }
            }
        } else if same_text(operator, "ET") {
            if self.text_clip_pending {
                self.active = Clip::Unknown;
                self.text_clip_pending = false;
            }
        }
    }
}

/// Two runs lie in clip rectangles that are apart from one another by more
/// than the tolerance, each run within its own.
pub open spec fn separated(previous: ItemView, previous_clip: ClipRect, next: ItemView, next_clip: ClipRect) -> bool {
    let slack = Single { bits: TOLERANCE_BITS };
    &&& previous_clip.right.spec_plus(slack).spec_less(next_clip.left) || next_clip.right.spec_plus(
        slack,
    ).spec_less(previous_clip.left)
    &&& previous_clip.holds(previous)
    &&& next_clip.holds(next)
}

pub fn separated_runs(
    previous: &TextItem,
    previous_clip: Option<&ClipRect>,
    next: &TextItem,
    next_clip: Option<&ClipRect>,
) -> (r: bool)
    ensures
        r == (previous_clip is Some && next_clip is Some && separated(
            previous@,
            *previous_clip->0,
            next@,
            *next_clip->0,
        )),
{
    let slack = Single { bits: TOLERANCE_BITS };
    match (previous_clip, next_clip) {
        (Some(previous_rect), Some(next_rect)) => (previous_rect.right.plus(slack).less(next_rect.left)
            || next_rect.right.plus(slack).less(previous_rect.left)) && previous_rect.contains_advance(previous)
            && next_rect.contains_advance(next),
        _ => false,
    }
}

/// A clip that became unknown stays unknown until the state is restored.
pub proof fn law_unknown_clip_lasts_until_restore(
    state: ClipState,
    operator: Seq<char>,
    operands: Seq<Node>,
    ctm: Matrix,
)
    requires
        state.active is Unknown,
        operator != "Q"@,
    ensures
        state.after(operator, operands, ctm).active is Unknown,
{
    reveal_strlit("Q");
    reveal_strlit("q");
}

/// Between a save and its restore a known rectangle can only shrink.
pub proof fn law_clip_only_narrows(
    state: ClipState,
    operator: Seq<char>,
    operands: Seq<Node>,
    ctm: Matrix,
)
    requires
        state.active matches Clip::Rect(rect) && rect.finite(),
        state.path matches Some(Clip::Rect(path)) ==> path.finite(),
        operator != "Q"@,
    ensures
        state.after(operator, operands, ctm).active matches Clip::Rect(after) ==> after.finite()
            && after.within(state.active->Rect_0),
{
}

/// A save and a restore right behind it leave the state as it was, and the
/// path under construction is not part of what is saved.
pub proof fn law_restore_undoes_save(state: ClipState, operands: Seq<Node>, ctm: Matrix)
    ensures
        state.after("q"@, operands, ctm).after("Q"@, operands, ctm) == state,
        state.after("Q"@, operands, ctm).path == state.path,
{
    reveal_strlit("Q");
    reveal_strlit("q");
    assert("Q"@[0] != "q"@[0]);
    assert(state.saved.push(state.active).drop_last() =~= state.saved);
}

} // verus!
