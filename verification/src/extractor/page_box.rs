//! Visible page box resolution.
//!
//! Renderers draw the crop box within the media box, so positions on a page
//! image are relative to that box and not to raw user space. The media box
//! itself need not start at the origin.

use crate::pdf::{
    document_objects, entry, find, get_number, get_object, lemma_compound_node, looked_up, nodes, number_of,
    pairs, Entry, Node, PdfObject,
};
use crate::single::{law_opposites_add_up, lemma_natural_magnitude, lemma_sum_is_a_number, Single};
use crate::types::{views, ItemView, PdfLine, PdfRect, TextItem};
use vstd::prelude::*;

verus! {

broadcast use lemma_compound_node;

/// The visible page box in raw user space, normalized so that `x0 < x1` and
/// `y0 < y1`. Page rotation is not applied.
#[derive(Clone, Copy, Debug, PartialEq, Eq, Structural)]
pub struct PageBox {
    pub x0: Single,
    pub y0: Single,
    pub x1: Single,
    pub y1: Single,
}

/// How a page's frame was turned: counter-clockwise maps `(x, y)` to
/// `(y, -x)`, clockwise maps it to `(-y, x)`.
#[derive(Clone, Copy, Debug, PartialEq, Eq, Structural)]
pub enum PageRotation {
    Upright,
    Ccw,
    Cw,
}

impl PageRotation {
    pub open spec fn spec_rotate_point(self, x: Single, y: Single) -> (Single, Single) {
        match self {
            PageRotation::Upright => (x, y),
            PageRotation::Ccw => (y, x.spec_negated()),
            PageRotation::Cw => (y.spec_negated(), x),
        }
    }

    pub fn rotate_point(self, x: Single, y: Single) -> (r: (Single, Single))
        ensures
            r == self.spec_rotate_point(x, y),
    {
        match self {
            PageRotation::Upright => (x, y),
            PageRotation::Ccw => (y, x.negated()),
            PageRotation::Cw => (y.negated(), x),
        }
    }
}

impl PageBox {
    /// All sides are finite and the box has an area.
    pub open spec fn valid(self) -> bool {
        &&& self.x0.spec_finite() && self.y0.spec_finite()
        &&& self.x1.spec_finite() && self.y1.spec_finite()
        &&& self.has_area()
    }

    pub open spec fn has_area(self) -> bool {
        self.x0.spec_less(self.x1) && self.y0.spec_less(self.y1)
    }

    /// Every point of this box is a point of the other.
    pub open spec fn within(self, other: PageBox) -> bool {
        &&& other.x0.spec_at_most(self.x0) && self.x1.spec_at_most(other.x1)
        &&& other.y0.spec_at_most(self.y0) && self.y1.spec_at_most(other.y1)
    }

    pub open spec fn spec_letter() -> PageBox {
        PageBox {
            x0: Single { bits: 0 },
            y0: Single { bits: 0 },
            x1: Single::spec_from_integer(612),
            y1: Single::spec_from_integer(792),
        }
    }

    /// US Letter, 612 by 792 units: what renderers assume when a page carries
    /// no usable box.
    pub fn letter() -> (r: PageBox)
        ensures
            r == PageBox::spec_letter(),
            r.valid(),
    {
        PageBox {
            x0: Single::zero(),
            y0: Single::zero(),
            x1: Single::from_integer(612),
            y1: Single::from_integer(792),
        }
    }

    pub open spec fn corners_box(ax: Single, ay: Single, bx: Single, by: Single) -> PageBox {
        PageBox { x0: ax.spec_min(bx), y0: ay.spec_min(by), x1: ax.spec_max(bx), y1: ay.spec_max(by) }
    }

    pub open spec fn spec_from_corners(ax: Single, ay: Single, bx: Single, by: Single) -> Option<PageBox> {
        let page_box = PageBox::corners_box(ax, ay, bx, by);
        if ax.spec_finite() && ay.spec_finite() && bx.spec_finite() && by.spec_finite()
            && page_box.has_area() {
            Some(page_box)
        } else {
            None
        }
    }

    /// The box between two corners. `None` when a coordinate is not finite or
    /// the box has no area.
    pub fn from_corners(ax: Single, ay: Single, bx: Single, by: Single) -> (r: Option<PageBox>)
        ensures
            r == PageBox::spec_from_corners(ax, ay, bx, by),
            r is Some ==> r->0.valid(),
    {
        if !(ax.is_finite() && ay.is_finite() && bx.is_finite() && by.is_finite()) {
            return None;
        }
        let page_box = PageBox {
            x0: ax.min(bx),
            y0: ay.min(by),
            x1: ax.max(bx),
            y1: ay.max(by),
        };
        if page_box.x0.less(page_box.x1) && page_box.y0.less(page_box.y1) {
            Some(page_box)
        } else {
            None
        }
    }

    pub open spec fn common_box(self, other: PageBox) -> PageBox {
        PageBox {
            x0: self.x0.spec_max(other.x0),
            y0: self.y0.spec_max(other.y0),
            x1: self.x1.spec_min(other.x1),
            y1: self.y1.spec_min(other.y1),
        }
    }

    pub open spec fn spec_intersect(self, other: PageBox) -> Option<PageBox> {
        if self.common_box(other).has_area() {
            Some(self.common_box(other))
        } else {
            None
        }
    }

    /// The part that two boxes share. `None` when they do not overlap: the
    /// corners are not normalized, so a disjoint pair gives no phantom box.
    pub fn intersect(&self, other: &PageBox) -> (r: Option<PageBox>)
        ensures
            r == self.spec_intersect(*other),
    {
        let page_box = PageBox {
            x0: self.x0.max(other.x0),
            y0: self.y0.max(other.y0),
            x1: self.x1.min(other.x1),
            y1: self.y1.min(other.y1),
        };
        if page_box.x0.less(page_box.x1) && page_box.y0.less(page_box.y1) {
            Some(page_box)
        } else {
            None
        }
    }

    /// The height of the box.
    pub fn height(&self) -> (r: Single)
        ensures
            r == self.y1.spec_minus(self.y0),
    {
        self.y1.minus(self.y0)
    }

    /// The offset that moves raw geometry into the frame whose origin is the
    /// lower left corner of the box. Translating before the page's turn is the
    /// same as applying the turned offset afterwards.
    pub fn shift(&self, rotation: PageRotation) -> (r: (Single, Single))
        ensures
            r == rotation.spec_rotate_point(self.x0.spec_negated(), self.y0.spec_negated()),
    {
        rotation.rotate_point(self.x0.negated(), self.y0.negated())
    }
}

/// An item moved by an offset.
pub open spec fn moved_item(item: ItemView, dx: Single, dy: Single) -> ItemView {
    ItemView { x: item.x.spec_plus(dx), y: item.y.spec_plus(dy), ..item }
}

pub open spec fn moved_rect(rect: PdfRect, dx: Single, dy: Single) -> PdfRect {
    PdfRect { x: rect.x.spec_plus(dx), y: rect.y.spec_plus(dy), ..rect }
}

pub open spec fn moved_line(line: PdfLine, dx: Single, dy: Single) -> PdfLine {
    PdfLine {
        x1: line.x1.spec_plus(dx),
        y1: line.y1.spec_plus(dy),
        x2: line.x2.spec_plus(dx),
        y2: line.y2.spec_plus(dy),
        ..line
    }
}

impl PageBox {
    /// The offset moves nothing.
    pub open spec fn rests(self, rotation: PageRotation) -> bool {
        let (dx, dy) = rotation.spec_rotate_point(self.x0.spec_negated(), self.y0.spec_negated());
        dx.spec_zero() && dy.spec_zero()
    }

    /// Shifts one page's items, rectangles and lines into the frame of the
    /// visible box.
    pub fn translate_page(
        &self,
        items: &mut Vec<TextItem>,
        rects: &mut Vec<PdfRect>,
        lines: &mut Vec<PdfLine>,
        rotation: PageRotation,
    )
        ensures
            ({
                let (dx, dy) = rotation.spec_rotate_point(self.x0.spec_negated(), self.y0.spec_negated());
                if self.rests(rotation) {
                    *final(items) == *old(items) && *final(rects) == *old(rects) && *final(lines) == *old(lines)
                } else {
                    &&& views(final(items)@) == views(old(items)@).map_values(|i: ItemView| moved_item(i, dx, dy))
                    &&& final(rects)@ == old(rects)@.map_values(|r: PdfRect| moved_rect(r, dx, dy))
                    &&& final(lines)@ == old(lines)@.map_values(|l: PdfLine| moved_line(l, dx, dy))
                }
            }),
    {
        let (dx, dy) = self.shift(rotation);
        if dx.is_zero() && dy.is_zero() {
            return;
        }
        let mut i: usize = 0;
        while i < items.len()
            invariant
                i <= items@.len(),
                items@.len() == old(items)@.len(),
                forall|j: int| 0 <= j < i ==> (#[trigger] items@[j])@ == moved_item(old(items)@[j]@, dx, dy),
                forall|j: int| i <= j < items@.len() ==> #[trigger] items@[j] == old(items)@[j],
            decreases items@.len() - i,
        {
            let x = items[i].x.plus(dx);
            let y = items[i].y.plus(dy);
            items[i].x = x;
            items[i].y = y;
            i += 1;
        }
        assert(views(items@) =~= views(old(items)@).map_values(|i: ItemView| moved_item(i, dx, dy)));
        let mut i: usize = 0;
        while i < rects.len()
            invariant
                i <= rects@.len(),
                rects@.len() == old(rects)@.len(),
                forall|j: int| 0 <= j < i ==> #[trigger] rects@[j] == moved_rect(old(rects)@[j], dx, dy),
                forall|j: int| i <= j < rects@.len() ==> #[trigger] rects@[j] == old(rects)@[j],
            decreases rects@.len() - i,
        {
            let rect = rects[i];
            rects[i] = PdfRect { x: rect.x.plus(dx), y: rect.y.plus(dy), ..rect };
            i += 1;
        }
        assert(rects@ =~= old(rects)@.map_values(|r: PdfRect| moved_rect(r, dx, dy)));
        let mut i: usize = 0;
        while i < lines.len()
            invariant
                i <= lines@.len(),
                lines@.len() == old(lines)@.len(),
                forall|j: int| 0 <= j < i ==> #[trigger] lines@[j] == moved_line(old(lines)@[j], dx, dy),
                forall|j: int| i <= j < lines@.len() ==> #[trigger] lines@[j] == old(lines)@[j],
            decreases lines@.len() - i,
        {
            let line = lines[i];
            lines[i] = PdfLine {
                x1: line.x1.plus(dx),
                y1: line.y1.plus(dy),
                x2: line.x2.plus(dx),
                y2: line.y2.plus(dy),
                ..line
            };
            i += 1;
        }
        assert(lines@ =~= old(lines)@.map_values(|l: PdfLine| moved_line(l, dx, dy)));
    }

    /// Shifts items alone into the frame of the visible box.
    pub fn translate_items(&self, items: &mut Vec<TextItem>, rotation: PageRotation)
        ensures
            ({
                let (dx, dy) = rotation.spec_rotate_point(self.x0.spec_negated(), self.y0.spec_negated());
                if self.rests(rotation) {
                    *final(items) == *old(items)
                } else {
                    views(final(items)@) == views(old(items)@).map_values(|i: ItemView| moved_item(i, dx, dy))
                }
            }),
    {
        let mut rects: Vec<PdfRect> = Vec::new();
        let mut lines: Vec<PdfLine> = Vec::new();
        self.translate_page(items, &mut rects, &mut lines, rotation);
    }
}

/// The items of an array that is given directly or by a reference.
pub open spec fn array_behind(objects: Map<(u32, u16), Node>, node: Node) -> Option<Seq<Node>> {
    match node {
        Node::Array(items) => Some(items),
        Node::Reference(number, generation) => match looked_up(objects, (number, generation)) {
            Some(Node::Array(items)) => Some(items),
            _ => None,
        },
        _ => None,
    }
}

/// The number that an array item gives directly or by a reference.
pub open spec fn item_number(objects: Map<(u32, u16), Node>, node: Node) -> Option<Single> {
    match node {
        Node::Reference(number, generation) => match looked_up(objects, (number, generation)) {
            Some(target) => number_of(target),
            None => None,
        },
        _ => number_of(node),
    }
}

/// The numbers among the items, in order.
pub open spec fn item_numbers(objects: Map<(u32, u16), Node>, items: Seq<Node>) -> Seq<Single>
    decreases items.len(),
{
    if items.len() == 0 {
        Seq::empty()
    } else {
        let before = item_numbers(objects, items.drop_last());
        match item_number(objects, items.last()) {
            Some(x) => before.push(x),
            None => before,
        }
    }
}

/// The box that a dictionary itself declares under `key`.
pub open spec fn declared_box(
    objects: Map<(u32, u16), Node>,
    entries: Seq<(Seq<u8>, Node)>,
    key: Seq<char>,
) -> Option<PageBox> {
    match find(entries, key) {
        Some(node) => match array_behind(objects, node) {
            Some(items) => {
                let values = item_numbers(objects, items);
                if values.len() >= 4 {
                    PageBox::spec_from_corners(values[0], values[1], values[2], values[3])
                } else {
                    None
                }
            },
            None => None,
        },
        None => None,
    }
}

/// The box that a page has under `key`: its own, or that of the nearest
/// ancestor which declares one, over `steps` dictionaries at most.
pub open spec fn inherited_box(
    objects: Map<(u32, u16), Node>,
    id: (u32, u16),
    key: Seq<char>,
    steps: nat,
) -> Option<PageBox>
    decreases steps,
{
    if steps == 0 {
        None
    } else {
        match looked_up(objects, id) {
            Some(Node::Dictionary(entries)) => match declared_box(objects, entries, key) {
                Some(page_box) => Some(page_box),
                None => match find(entries, "Parent"@) {
                    Some(Node::Reference(number, generation)) => inherited_box(
                        objects,
                        (number, generation),
                        key,
                        (steps - 1) as nat,
                    ),
                    _ => None,
                },
            },
            _ => None,
        }
    }
}

/// The dictionaries that are consulted for an inherited attribute.
pub const MAX_ANCESTORS: u32 = 32;

fn numbers_in(doc: &lopdf::Document, items: &Vec<PdfObject>) -> (r: Vec<Single>)
    ensures
        r@ == item_numbers(document_objects(*doc), nodes(items@)),
{
    let mut values: Vec<Single> = Vec::new();
    let mut i: usize = 0;
    while i < items.len()
        invariant
            i <= items@.len(),
            values@ == item_numbers(document_objects(*doc), nodes(items@).take(i as int)),
        decreases items@.len() - i,
    {
        assert(nodes(items@).take(i + 1).drop_last() =~= nodes(items@).take(i as int));
        let value = match &items[i] {
            PdfObject::Reference(number, generation) => match get_object(doc, (*number, *generation)) {
                Some(object) => get_number(&object),
                None => None,
            },
            other => get_number(other),
        };
        if let Some(x) = value {
            values.push(x);
        }
        i += 1;
    }
    assert(nodes(items@).take(items@.len() as int) =~= nodes(items@));
    values
}

fn box_in(doc: &lopdf::Document, items: &Vec<PdfObject>) -> (r: Option<PageBox>)
    ensures
        ({
            let values = item_numbers(document_objects(*doc), nodes(items@));
            r == if values.len() >= 4 {
                PageBox::spec_from_corners(values[0], values[1], values[2], values[3])
            } else {
                None
            }
        }),
{
    let values = numbers_in(doc, items);
    if values.len() >= 4 {
        PageBox::from_corners(values[0], values[1], values[2], values[3])
    } else {
        None
    }
}

fn box_of_dictionary(doc: &lopdf::Document, entries: &Vec<Entry>, key: &str) -> (r: Option<PageBox>)
    ensures
        r == declared_box(document_objects(*doc), pairs(entries@), key@),
{
    match entry(entries, key) {
        Some(PdfObject::Array(items)) => box_in(doc, items),
        Some(PdfObject::Reference(number, generation)) => match get_object(doc, (*number, *generation)) {
            Some(PdfObject::Array(items)) => box_in(doc, &items),
            _ => None,
        },
        _ => None,
    }
}

/// Reads an inheritable rectangle attribute along the parent links. The first
/// dictionary with a well-formed array wins.
pub fn find_inherited_box(doc: &lopdf::Document, page_id: (u32, u16), key: &str) -> (r: Option<PageBox>)
    ensures
        r == inherited_box(document_objects(*doc), page_id, key@, MAX_ANCESTORS as nat),
{
    let mut id: (u32, u16) = page_id;
    let mut left: u32 = MAX_ANCESTORS;
    while left > 0
        invariant
            inherited_box(document_objects(*doc), page_id, key@, MAX_ANCESTORS as nat) == inherited_box(
                document_objects(*doc),
                id,
                key@,
                left as nat,
            ),
        decreases left,
    {
        match get_object(doc, id) {
            Some(PdfObject::Dictionary(entries)) => {
                let own = box_of_dictionary(doc, &entries, key);
                if own.is_some() {
                    return own;
                }
                match entry(&entries, "Parent") {
                    Some(PdfObject::Reference(number, generation)) => {
                        id = (*number, *generation);
                        left = left - 1;
                    },
                    _ => {
                        return None;
                    },
                }
            },
            _ => {
                return None;
            },
        }
    }
    None
}

/// The crop box within the media box when the two overlap, else the media
/// box. A crop box alone is measured against US Letter.
pub open spec fn visible_of(media: Option<PageBox>, crop: Option<PageBox>) -> Option<PageBox> {
    match (media, crop) {
        (Some(media), Some(crop)) => match media.spec_intersect(crop) {
            Some(common) => Some(common),
            None => Some(media),
        },
        (Some(media), None) => Some(media),
        (None, Some(crop)) => match PageBox::spec_letter().spec_intersect(crop) {
            Some(common) => Some(common),
            None => Some(PageBox::spec_letter()),
        },
        (None, None) => None,
    }
}

/// Resolves the visible page box the way renderers do. Both boxes are
/// inheritable. `None` when the page declares neither anywhere in its
/// ancestry.
pub fn visible_page_box(doc: &lopdf::Document, page_id: (u32, u16)) -> (r: Option<PageBox>)
    ensures
        r == visible_of(
            inherited_box(document_objects(*doc), page_id, "MediaBox"@, MAX_ANCESTORS as nat),
            inherited_box(document_objects(*doc), page_id, "CropBox"@, MAX_ANCESTORS as nat),
        ),
{
    let media_box = find_inherited_box(doc, page_id, "MediaBox");
    let crop_box = find_inherited_box(doc, page_id, "CropBox");
    match (media_box, crop_box) {
        (Some(media), Some(crop)) => match media.intersect(&crop) {
            Some(common) => Some(common),
            None => Some(media),
        },
        (Some(media), None) => Some(media),
        (None, Some(crop)) => {
            let letter = PageBox::letter();
            match letter.intersect(&crop) {
                Some(common) => Some(common),
                None => Some(letter),
            }
        },
        (None, None) => None,
    }
}

proof fn lemma_inherited_box_is_valid(
    objects: Map<(u32, u16), Node>,
    id: (u32, u16),
    key: Seq<char>,
    steps: nat,
)
    ensures
        inherited_box(objects, id, key, steps) matches Some(b) ==> b.valid(),
    decreases steps,
{
    if steps > 0 {
        if let Some(Node::Dictionary(entries)) = looked_up(objects, id) {
            if let Some(Node::Reference(number, generation)) = find(entries, "Parent"@) {
                lemma_inherited_box_is_valid(objects, (number, generation), key, (steps - 1) as nat);
            }
        }
    }
}

/// A visible page box has finite sides and an area, lies within the media box
/// of its page (US Letter where there is none), and within the crop box where
/// the two overlap. There is one exactly when the page declares a box.
pub proof fn law_visible_box_lies_within_its_page(
    objects: Map<(u32, u16), Node>,
    page_id: (u32, u16),
)
    ensures
        ({
            let media = inherited_box(objects, page_id, "MediaBox"@, MAX_ANCESTORS as nat);
            let crop = inherited_box(objects, page_id, "CropBox"@, MAX_ANCESTORS as nat);
            let visible = visible_of(media, crop);
            let sheet = if media is Some {
                media->0
            } else {
                PageBox::spec_letter()
            };
            &&& visible is Some <==> media is Some || crop is Some
            &&& visible is Some ==> visible->0.valid() && visible->0.within(sheet)
            &&& crop is Some && sheet.spec_intersect(crop->0) is Some ==> visible->0.within(crop->0)
        }),
{
    lemma_natural_magnitude(612);
    lemma_natural_magnitude(792);
    lemma_inherited_box_is_valid(objects, page_id, "MediaBox"@, MAX_ANCESTORS as nat);
    lemma_inherited_box_is_valid(objects, page_id, "CropBox"@, MAX_ANCESTORS as nat);
}

/// Moving a finite point by the corner of the box and then turning it gives
/// the same place as turning it first and moving it by the turned offset.
pub proof fn law_shift_and_turn_commute(page_box: PageBox, rotation: PageRotation, x: Single, y: Single)
    requires
        page_box.valid(),
        x.spec_finite(),
        y.spec_finite(),
    ensures
        ({
            let (dx, dy) = rotation.spec_rotate_point(page_box.x0.spec_negated(), page_box.y0.spec_negated());
            let (px, py) = rotation.spec_rotate_point(x, y);
            let (qx, qy) = rotation.spec_rotate_point(x.spec_minus(page_box.x0), y.spec_minus(page_box.y0));
            px.spec_plus(dx).spec_same(qx) && py.spec_plus(dy).spec_same(qy)
        }),
{
    law_opposites_add_up(x, page_box.x0.spec_negated());
    law_opposites_add_up(y, page_box.y0.spec_negated());
    lemma_sum_is_a_number(x, page_box.x0.spec_negated());
    lemma_sum_is_a_number(y, page_box.y0.spec_negated());
}

/// A page whose box starts at the origin keeps its coordinates.
pub proof fn law_boxes_at_the_origin_rest(page_box: PageBox, rotation: PageRotation)
    requires
        page_box.x0.spec_zero(),
        page_box.y0.spec_zero(),
    ensures
        page_box.rests(rotation),
{
}

} // verus!
