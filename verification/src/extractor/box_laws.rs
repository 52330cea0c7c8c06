//! What holds of page boxes and of the frames they give.

use crate::extractor::page_box::{
    declared_box, inherited_box, item_numbers, moved_item, moved_line, moved_rect, visible_of, PageBox, PageRotation,
};
use crate::fractions::{fits, fraction, law_fractions_add_exactly, law_nothing_lies_between_the_same};
use crate::pdf::{find, looked_up, Node};
use crate::single::Single;
use crate::types::{ItemView, PdfLine, PdfRect};
use vstd::prelude::*;

verus! {

/// The point lies in the box, its border included.
pub open spec fn holds(page_box: PageBox, x: Single, y: Single) -> bool {
    &&& page_box.x0.spec_at_most(x) && x.spec_at_most(page_box.x1)
    &&& page_box.y0.spec_at_most(y) && y.spec_at_most(page_box.y1)
}

/// The point lies in the box, off its border.
pub open spec fn holds_inside(page_box: PageBox, x: Single, y: Single) -> bool {
    &&& page_box.x0.spec_less(x) && x.spec_less(page_box.x1)
    &&& page_box.y0.spec_less(y) && y.spec_less(page_box.y1)
}

/// What two boxes share is what lies in both. Where they share nothing inside,
/// there is no box.
pub proof fn law_shared_boxes_hold_what_both_hold(a: PageBox, b: PageBox, x: Single, y: Single)
    requires
        a.valid(),
        b.valid(),
    ensures
        a.spec_intersect(b) matches Some(common) ==> (holds(common, x, y) <==> holds(a, x, y) && holds(b, x, y)),
        a.spec_intersect(b) is None ==> !(holds_inside(a, x, y) && holds_inside(b, x, y)),
        a.spec_intersect(b) == b.spec_intersect(a) || a.spec_intersect(b) is Some && b.spec_intersect(a) is Some,
        a.spec_intersect(a) == Some(a),
{
}

/// The box between two corners holds both and reaches from one to the other,
/// whichever comes first; there is one where they differ across and up.
pub proof fn law_corners_span_their_box(ax: Single, ay: Single, bx: Single, by: Single)
    requires
        ax.spec_finite(),
        ay.spec_finite(),
        bx.spec_finite(),
        by.spec_finite(),
    ensures
        PageBox::spec_from_corners(ax, ay, bx, by) is Some <==> !ax.spec_same(bx) && !ay.spec_same(by),
        PageBox::spec_from_corners(ax, ay, bx, by) == PageBox::spec_from_corners(bx, by, ax, ay),
        PageBox::spec_from_corners(ax, ay, bx, by) == PageBox::spec_from_corners(ax, by, bx, ay),
        PageBox::spec_from_corners(ax, ay, bx, by) matches Some(page_box) ==> {
            &&& page_box.valid()
            &&& holds(page_box, ax, ay) && holds(page_box, bx, by)
            &&& page_box.x0 == ax || page_box.x0 == bx
            &&& page_box.x1 == ax || page_box.x1 == bx
            &&& page_box.y0 == ay || page_box.y0 == by
            &&& page_box.y1 == ay || page_box.y1 == by
        },
{
}

/// The visible box is what the crop box leaves of the media box; a crop box
/// that leaves nothing does not count.
pub proof fn law_crop_boxes_only_cut(media: PageBox, crop: PageBox, x: Single, y: Single)
    requires
        media.valid(),
        crop.valid(),
    ensures
        visible_of(Some(media), None) == Some(media),
        visible_of(Some(media), Some(media)) == Some(media),
        visible_of(Some(media), Some(crop)) matches Some(visible) && (holds(visible, x, y) ==> holds(media, x, y)),
        holds_inside(media, x, y) && holds_inside(crop, x, y) ==> holds(visible_of(Some(media), Some(crop))->0, x, y),
        crop.within(media) ==> (visible_of(Some(media), Some(crop)) matches Some(visible) && visible.within(crop)
            && crop.within(visible)),
{
}

/// Turning one way and then the other gives a point back, and a full turn takes
/// four.
pub proof fn law_turns_undo_each_other(x: Single, y: Single)
    ensures
        ({
            let (px, py) = PageRotation::Ccw.spec_rotate_point(x, y);
            PageRotation::Cw.spec_rotate_point(px, py) == (x, y)
        }),
        ({
            let (px, py) = PageRotation::Cw.spec_rotate_point(x, y);
            PageRotation::Ccw.spec_rotate_point(px, py) == (x, y)
        }),
        PageRotation::Upright.spec_rotate_point(x, y) == (x, y),
{
}

/// On a page that reads upwards, what lies further up lies further right once
/// it is turned; on one that reads downwards, what lies further down does.
pub proof fn law_turned_text_reads_to_the_right(x: Single, low: Single, high: Single)
    requires
        low.spec_less(high),
    ensures
        PageRotation::Ccw.spec_rotate_point(x, low).0.spec_less(PageRotation::Ccw.spec_rotate_point(x, high).0),
        PageRotation::Cw.spec_rotate_point(x, high).0.spec_less(PageRotation::Cw.spec_rotate_point(x, low).0),
        PageRotation::Ccw.spec_rotate_point(high, x).1.spec_less(PageRotation::Ccw.spec_rotate_point(low, x).1),
        PageRotation::Cw.spec_rotate_point(low, x).1.spec_less(PageRotation::Cw.spec_rotate_point(high, x).1),
{
}

/// The lower left corner of the visible box becomes the origin.
pub proof fn law_the_corner_becomes_the_origin(page_box: PageBox, item: ItemView, rect: PdfRect)
    requires
        page_box.valid(),
        item.x == page_box.x0,
        item.y == page_box.y0,
        rect.x == page_box.x0,
        rect.y == page_box.y0,
    ensures
        ({
            let dx = page_box.x0.spec_negated();
            let dy = page_box.y0.spec_negated();
            &&& moved_item(item, dx, dy).x.spec_zero() && moved_item(item, dx, dy).y.spec_zero()
            &&& moved_rect(rect, dx, dy).x.spec_zero() && moved_rect(rect, dx, dy).y.spec_zero()
        }),
{
    law_nothing_lies_between_the_same(page_box.x0, page_box.x0);
    law_nothing_lies_between_the_same(page_box.y0, page_box.y0);
}

/// A shift moves places across and up by its two numbers and keeps all sizes
/// and all else.
pub proof fn law_shifts_move_places_alone(
    item: ItemView,
    rect: PdfRect,
    line: PdfLine,
    dx: Single,
    dy: Single,
    x: int,
    y: int,
    p: int,
    q: int,
    k: nat,
)
    requires
        fraction(dx, x, k),
        fraction(dy, y, k),
        fraction(item.x, p, k),
        fraction(item.y, q, k),
        fraction(rect.x, p, k),
        fraction(rect.y, q, k),
        fraction(line.x1, p, k),
        fraction(line.y1, q, k),
        fraction(line.x2, q, k),
        fraction(line.y2, p, k),
        fits(p + x),
        fits(q + y),
        fits(q + x),
        fits(p + y),
        k <= 149,
    ensures
        fraction(moved_item(item, dx, dy).x, p + x, k),
        fraction(moved_item(item, dx, dy).y, q + y, k),
        moved_item(item, dx, dy) == (ItemView {
            x: moved_item(item, dx, dy).x,
            y: moved_item(item, dx, dy).y,
            ..item
        }),
        fraction(moved_rect(rect, dx, dy).x, p + x, k),
        fraction(moved_rect(rect, dx, dy).y, q + y, k),
        moved_rect(rect, dx, dy).width == rect.width,
        moved_rect(rect, dx, dy).height == rect.height,
        moved_rect(rect, dx, dy).page == rect.page,
        fraction(moved_line(line, dx, dy).x1, p + x, k),
        fraction(moved_line(line, dx, dy).y1, q + y, k),
        fraction(moved_line(line, dx, dy).x2, q + x, k),
        fraction(moved_line(line, dx, dy).y2, p + y, k),
        moved_line(line, dx, dy).page == line.page,
{
    law_fractions_add_exactly(item.x, dx, p, x, k);
    law_fractions_add_exactly(item.y, dy, q, y, k);
    law_fractions_add_exactly(rect.x, dx, p, x, k);
    law_fractions_add_exactly(rect.y, dy, q, y, k);
    law_fractions_add_exactly(line.x1, dx, p, x, k);
    law_fractions_add_exactly(line.y1, dy, q, y, k);
    law_fractions_add_exactly(line.x2, dx, q, x, k);
    law_fractions_add_exactly(line.y2, dy, p, y, k);
}

/// A page's own box comes before those of its ancestors, which count as if
/// they were the page's where it has none. More ancestors change nothing once a
/// box is found.
pub proof fn law_boxes_are_inherited_from_the_nearest(
    objects: Map<(u32, u16), Node>,
    id: (u32, u16),
    entries: Seq<(Seq<u8>, Node)>,
    parent: (u32, u16),
    key: Seq<char>,
    steps: nat,
)
    requires
        looked_up(objects, id) == Some(Node::Dictionary(entries)),
        steps > 0,
    ensures
        declared_box(objects, entries, key) matches Some(own) ==> inherited_box(objects, id, key, steps) == Some(own),
        declared_box(objects, entries, key) is None && find(entries, "Parent"@) == Some(
            Node::Reference(parent.0, parent.1),
        ) ==> inherited_box(objects, id, key, steps + 1) == inherited_box(objects, parent, key, steps),
        declared_box(objects, entries, key) is None && find(entries, "Parent"@) is None ==> inherited_box(
            objects,
            id,
            key,
            steps,
        ) is None,
{
}

/// A box that was found stays found over more ancestors.
pub proof fn law_found_boxes_stay_found(
    objects: Map<(u32, u16), Node>,
    id: (u32, u16),
    key: Seq<char>,
    steps: nat,
    more: nat,
)
    requires
        inherited_box(objects, id, key, steps) is Some,
        steps <= more,
    ensures
        inherited_box(objects, id, key, more) == inherited_box(objects, id, key, steps),
    decreases steps,
{
    if steps > 0 {
        if let Some(Node::Dictionary(entries)) = looked_up(objects, id) {
            if declared_box(objects, entries, key) is None {
                if let Some(Node::Reference(number, generation)) = find(entries, "Parent"@) {
                    law_found_boxes_stay_found(
                        objects,
                        (number, generation),
                        key,
                        (steps - 1) as nat,
                        (more - 1) as nat,
                    );
                }
            }
        }
    }
}

/// A dictionary declares the box between the first two corners that its array
/// gives; an array with fewer numbers declares none.
pub proof fn law_declared_boxes_span_their_corners(
    objects: Map<(u32, u16), Node>,
    entries: Seq<(Seq<u8>, Node)>,
    key: Seq<char>,
    items: Seq<Node>,
)
    requires
        find(entries, key) == Some(Node::Array(items)),
    ensures
        ({
            let n = item_numbers(objects, items);
            &&& n.len() >= 4 ==> declared_box(objects, entries, key) == PageBox::spec_from_corners(
                n[0],
                n[1],
                n[2],
                n[3],
            )
            &&& n.len() < 4 ==> declared_box(objects, entries, key) is None
        }),
{
}

/// The matrix of a form is read in the order of its six numbers; without six
/// of them the form keeps its place.
pub proof fn law_form_matrices_are_read_in_order(form: Seq<(Seq<u8>, crate::pdf::Node)>, items: Seq<crate::pdf::Node>)
    requires
        crate::pdf::find(form, "Matrix"@) == Some(crate::pdf::Node::Array(items)),
        forall|i: int| 0 <= i < items.len() ==> crate::pdf::number_of(#[trigger] items[i]) is Some,
    ensures
        items.len() >= 6 ==> {
            let m = crate::extractor::xobjects::own_matrix(form);
            &&& m.a == crate::pdf::number_of(items[0])->0
            &&& m.b == crate::pdf::number_of(items[1])->0
            &&& m.c == crate::pdf::number_of(items[2])->0
            &&& m.d == crate::pdf::number_of(items[3])->0
            &&& m.e == crate::pdf::number_of(items[4])->0
            &&& m.f == crate::pdf::number_of(items[5])->0
        },
        items.len() < 6 ==> crate::extractor::xobjects::own_matrix(form)
            == crate::extractor::text_paint::Matrix::spec_identity(),
{
}

} // verus!
