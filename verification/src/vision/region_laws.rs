//! What holds of recognized regions and the spans made of them.

use crate::fractions::{
    fits, fraction, law_fractions_add_exactly, law_fractions_are_ordered, law_fractions_divide_exactly,
    law_fractions_multiply_exactly, law_fractions_subtract_exactly, law_integers_are_whole, law_zero_and_one_are_whole,
    whole,
};
use crate::single::{Single, ONE_BITS};
use crate::text::trimmed;
use crate::vision::oar::{highest_x, highest_y, lowest_x, lowest_y, EPSILON_BITS};
use crate::vision::ocr::ImagePoint;
use crate::vision::regions::{
    clamped, confidence_sum, harvest, kept_points, mean_confidence, ordered_convex, quad_of, turn, upright_quad,
    RegionReading, SpanView,
};
use vstd::prelude::*;

verus! {

/// The region was read: it has a text and a confidence that is not below the
/// minimum, and a shape.
pub open spec fn usable(
    reading: RegionReading,
    points: Seq<ImagePoint>,
    width: u32,
    height: u32,
    minimum: Single,
) -> bool {
    reading matches RegionReading::Recognized { text: Some(text), confidence: Some(confidence) } && {
        &&& trimmed(text@).len() > 0
        &&& confidence.spec_finite()
        &&& !clamped(confidence, Single { bits: 0 }, Single { bits: ONE_BITS }).spec_less(minimum)
        &&& quad_of(points, width, height) is Some
    }
}

/// The span says what the region says, where the region is, as surely as it
/// was read.
pub open spec fn pairs(span: SpanView, reading: RegionReading, points: Seq<ImagePoint>, width: u32, height: u32) -> bool {
    reading matches RegionReading::Recognized { text: Some(text), confidence: Some(confidence) } && {
        &&& span.text == text@
        &&& Some(span.corners) == quad_of(points, width, height)
        &&& (Single { bits: 0 }).spec_at_most(confidence) && confidence.spec_at_most(Single { bits: ONE_BITS })
            ==> span.confidence == confidence
    }
}

/// The regions that the spans come from, in order: the usable ones, each once.
pub open spec fn sources(
    from: Seq<int>,
    spans: Seq<SpanView>,
    readings: Seq<RegionReading>,
    regions: Seq<Seq<ImagePoint>>,
    width: u32,
    height: u32,
    minimum: Single,
    n: nat,
) -> bool {
    &&& from.len() == spans.len()
    &&& forall|i: int, j: int| 0 <= i < j < from.len() ==> #[trigger] from[i] < #[trigger] from[j]
    &&& forall|i: int|
        0 <= i < from.len() ==> 0 <= #[trigger] from[i] < n && pairs(
            spans[i],
            readings[from[i]],
            regions[from[i]],
            width,
            height,
        )
    &&& forall|r: int|
        0 <= r < n ==> (from.contains(r) <==> usable(#[trigger] readings[r], regions[r], width, height, minimum))
}

/// Every span pairs the text of a region with the outline of that same region,
/// in the order of the regions, and every usable region has its span.
pub proof fn law_spans_stand_where_they_were_read(
    readings: Seq<RegionReading>,
    regions: Seq<Seq<ImagePoint>>,
    width: u32,
    height: u32,
    minimum: Single,
    n: nat,
) -> (from: Seq<int>)
    requires
        n <= readings.len(),
        n <= regions.len(),
    ensures
        sources(
            from,
            harvest(readings, regions, width, height, minimum, n).spans,
            readings,
            regions,
            width,
            height,
            minimum,
            n,
        ),
    decreases n,
{
    if n == 0 {
        Seq::empty()
    } else {
        let before = law_spans_stand_where_they_were_read(
            readings,
            regions,
            width,
            height,
            minimum,
            (n - 1) as nat,
        );
        let last = n - 1;
        let old_spans = harvest(readings, regions, width, height, minimum, (n - 1) as nat).spans;
        let spans = harvest(readings, regions, width, height, minimum, n).spans;
        if usable(readings[last], regions[last], width, height, minimum) {
            let from = before.push(last);
            assert(spans.len() == old_spans.len() + 1);
            assert forall|r: int| 0 <= r < n implies (from.contains(r) <==> usable(
                #[trigger] readings[r],
                regions[r],
                width,
                height,
                minimum,
            )) by {
                if r < last {
                    if from.contains(r) {
                        let i = from.index_of(r);
                        assert(before[i] == r);
                    }
                    if before.contains(r) {
                        let i = before.index_of(r);
                        assert(from[i] == r);
                    }
                } else {
                    assert(from[from.len() - 1] == r);
                }
            }
            assert forall|i: int| 0 <= i < from.len() implies 0 <= #[trigger] from[i] < n && pairs(
                spans[i],
                readings[from[i]],
                regions[from[i]],
                width,
                height,
            ) by {
                if i < before.len() {
                    assert(from[i] == before[i]);
                    assert(spans[i] == old_spans[i]);
                }
            }
            assert forall|i: int, j: int| 0 <= i < j < from.len() implies #[trigger] from[i] < #[trigger] from[j] by {
                assert(from[i] == before[i]);
                if j < before.len() {
                    assert(from[j] == before[j]);
                }
            }
            from
        } else {
            assert(spans == old_spans);
            assert(!before.contains(last)) by {
                if before.contains(last) {
                    let i = before.index_of(last);
                    assert(before[i] < n - 1);
                }
            }
            before
        }
    }
}

/// A point with whole coordinates.
pub open spec fn whole_point(p: ImagePoint, x: int, y: int) -> bool {
    whole(p.x, x) && whole(p.y, y)
}

/// A number in the range stays, and one outside goes to the nearer end.
pub proof fn law_clamping_goes_to_the_nearer_end(x: Single, low: Single, high: Single)
    requires
        !x.spec_nan(),
        low.spec_at_most(high),
    ensures
        low.spec_at_most(x) && x.spec_at_most(high) ==> clamped(x, low, high) == x,
        x.spec_less(low) ==> clamped(x, low, high) == low,
        high.spec_less(x) ==> clamped(x, low, high) == high,
{
}

/// The turn at a corner with whole coordinates is the cross product of the
/// edges that meet there.
pub proof fn law_turns_are_cross_products(
    points: Seq<ImagePoint>,
    i: int,
    x0: int,
    y0: int,
    x1: int,
    y1: int,
    x2: int,
    y2: int,
)
    requires
        points.len() == 4,
        0 <= i < 4,
        whole_point(points[i], x0, y0),
        whole_point(points[(i + 1) % 4], x1, y1),
        whole_point(points[(i + 2) % 4], x2, y2),
        fits(x1 - x0),
        fits(y2 - y1),
        fits(y1 - y0),
        fits(x2 - x1),
        fits((x1 - x0) * (y2 - y1)),
        fits((y1 - y0) * (x2 - x1)),
        fits((x1 - x0) * (y2 - y1) - (y1 - y0) * (x2 - x1)),
    ensures
        whole(turn(points, i), (x1 - x0) * (y2 - y1) - (y1 - y0) * (x2 - x1)),
{
    let a = points[i];
    let b = points[(i + 1) % 4];
    let c = points[(i + 2) % 4];
    law_fractions_subtract_exactly(b.x, a.x, x1, x0, 0);
    law_fractions_subtract_exactly(c.y, b.y, y2, y1, 0);
    law_fractions_subtract_exactly(b.y, a.y, y1, y0, 0);
    law_fractions_subtract_exactly(c.x, b.x, x2, x1, 0);
    law_fractions_multiply_exactly(b.x.spec_minus(a.x), c.y.spec_minus(b.y), x1 - x0, y2 - y1, 0, 0);
    law_fractions_multiply_exactly(b.y.spec_minus(a.y), c.x.spec_minus(b.x), y1 - y0, x2 - x1, 0, 0);
    law_fractions_subtract_exactly(
        b.x.spec_minus(a.x).spec_times(c.y.spec_minus(b.y)),
        b.y.spec_minus(a.y).spec_times(c.x.spec_minus(b.x)),
        (x1 - x0) * (y2 - y1),
        (y1 - y0) * (x2 - x1),
        0,
    );
}

proof fn lemma_turning(t: Single, n: int)
    requires
        whole(t, n),
    ensures
        !t.spec_absolute().spec_at_most(Single { bits: EPSILON_BITS }) <==> n != 0,
        n > 0 ==> crate::vision::regions::signum_of(t) == (Single { bits: ONE_BITS }),
        n < 0 ==> crate::vision::regions::signum_of(t) == (Single {
            bits: crate::vision::regions::MINUS_ONE_BITS,
        }),
{
    let zero = Single { bits: 0 };
    let one = Single { bits: ONE_BITS };
    law_zero_and_one_are_whole();
    law_fractions_are_ordered(zero, t, 0, n, 0);
    law_fractions_are_ordered(t, zero, n, 0, 0);
    crate::fractions::law_zero_fractions(t, n, 0);
    crate::fractions::law_fractions_negate_exactly(t, n, 0);
    law_fractions_are_ordered(one, t, 1, n, 0);
    law_fractions_are_ordered(one, t.spec_negated(), 1, -n, 0);
    assert(t.spec_absolute() == if t.bits < crate::single::SIGN_BIT {
        t
    } else {
        t.spec_negated()
    });
}

/// What an upright rectangle turns by at its first corner, and at each of the
/// others.
proof fn lemma_rectangle_turns(points: Seq<ImagePoint>, i: int, left: int, top: int, right: int, bottom: int)
    requires
        points.len() == 4,
        0 <= i < 4,
        whole_point(points[0], left, top),
        whole_point(points[1], right, top),
        whole_point(points[2], right, bottom),
        whole_point(points[3], left, bottom),
        left < right,
        top < bottom,
        fits(right - left),
        fits(bottom - top),
        fits((right - left) * (bottom - top)),
    ensures
        whole(turn(points, i), (right - left) * (bottom - top)),
{
    let dx = right - left;
    let dy = bottom - top;
    assert((-dx) * (-dy) == dx * dy) by (nonlinear_arith);
    assert(dy * (-dx) == -(dx * dy)) by (nonlinear_arith);
    assert((-dy) * dx == -(dx * dy)) by (nonlinear_arith);
    if i == 0 {
        law_turns_are_cross_products(points, 0, left, top, right, top, right, bottom);
    } else if i == 1 {
        law_turns_are_cross_products(points, 1, right, top, right, bottom, left, bottom);
    } else if i == 2 {
        law_turns_are_cross_products(points, 2, right, bottom, left, bottom, left, top);
    } else {
        law_turns_are_cross_products(points, 3, left, bottom, left, top, right, top);
    }
}

proof fn lemma_rectangle_is_convex(points: Seq<ImagePoint>, left: int, top: int, right: int, bottom: int)
    requires
        points.len() == 4,
        whole_point(points[0], left, top),
        whole_point(points[1], right, top),
        whole_point(points[2], right, bottom),
        whole_point(points[3], left, bottom),
        left < right,
        top < bottom,
        fits(right - left),
        fits(bottom - top),
        fits((right - left) * (bottom - top)),
    ensures
        ordered_convex(points),
{
    let area = (right - left) * (bottom - top);
    assert(area > 0) by (nonlinear_arith)
        requires
            area == (right - left) * (bottom - top),
            left < right,
            top < bottom,
    ;
    assert forall|i: int| 0 <= i < 4 implies !(#[trigger] turn(points, i)).spec_absolute().spec_at_most(
        Single { bits: EPSILON_BITS },
    ) by {
        lemma_rectangle_turns(points, i, left, top, right, bottom);
        lemma_turning(turn(points, i), area);
    }
    lemma_rectangle_turns(points, 0, left, top, right, bottom);
    lemma_turning(turn(points, 0), area);
    assert forall|i: int| 1 <= i < 4 implies crate::vision::regions::signum_of(#[trigger] turn(points, i)).spec_same(
        crate::vision::regions::signum_of(turn(points, 0)),
    ) by {
        lemma_rectangle_turns(points, i, left, top, right, bottom);
        lemma_turning(turn(points, i), area);
    }
}

/// An upright rectangle with whole corners inside the bitmap stays what it is.
pub proof fn law_rectangles_in_the_bitmap_stay(
    points: Seq<ImagePoint>,
    width: u32,
    height: u32,
    left: int,
    top: int,
    right: int,
    bottom: int,
)
    requires
        points.len() == 4,
        whole_point(points[0], left, top),
        whole_point(points[1], right, top),
        whole_point(points[2], right, bottom),
        whole_point(points[3], left, bottom),
        0 <= left < right <= width,
        0 <= top < bottom <= height,
        fits(width as int),
        fits(height as int),
        fits((right - left) * (bottom - top)),
    ensures
        quad_of(points, width, height) == Some(points),
{
    law_integers_are_whole(width as i64);
    law_integers_are_whole(height as i64);
    let zero = Single { bits: 0 };
    law_zero_and_one_are_whole();
    let w = Single::spec_from_natural(width as nat);
    let h = Single::spec_from_natural(height as nat);
    let xs = seq![left, right, right, left];
    let ys = seq![top, top, bottom, bottom];
    assert forall|i: int| 0 <= i < 4 implies clamped(#[trigger] points[i].x, zero, w) == points[i].x && clamped(
        points[i].y,
        zero,
        h,
    ) == points[i].y && points[i].x.spec_finite() && points[i].y.spec_finite() by {
        assert(whole_point(points[i], xs[i], ys[i]));
        law_fractions_are_ordered(zero, points[i].x, 0, xs[i], 0);
        law_fractions_are_ordered(points[i].x, w, xs[i], width as int, 0);
        law_fractions_are_ordered(points[i].x, zero, xs[i], 0, 0);
        law_fractions_are_ordered(w, points[i].x, width as int, xs[i], 0);
        law_fractions_are_ordered(zero, points[i].y, 0, ys[i], 0);
        law_fractions_are_ordered(points[i].y, h, ys[i], height as int, 0);
        law_fractions_are_ordered(points[i].y, zero, ys[i], 0, 0);
        law_fractions_are_ordered(h, points[i].y, height as int, ys[i], 0);
    }
    lemma_all_kept(points, width, height, 4);
    let kept = kept_points(points, width, height, 4);
    assert(points.take(4) =~= points);
    assert(kept == points);
    lemma_rectangle_is_convex(points, left, top, right, bottom);
}

proof fn lemma_all_kept(points: Seq<ImagePoint>, width: u32, height: u32, n: nat)
    requires
        n <= points.len(),
        forall|i: int|
            0 <= i < n ==> clamped(
                #[trigger] points[i].x,
                Single { bits: 0 },
                Single::spec_from_natural(width as nat),
            ) == points[i].x && clamped(
                points[i].y,
                Single { bits: 0 },
                Single::spec_from_natural(height as nat),
            ) == points[i].y && points[i].x.spec_finite() && points[i].y.spec_finite(),
    ensures
        kept_points(points, width, height, n) == points.take(n as int),
    decreases n,
{
    if n > 0 {
        lemma_all_kept(points, width, height, (n - 1) as nat);
        assert(points[n - 1].x.spec_finite());
        assert(kept_points(points, width, height, n) =~= points.take(n as int));
    } else {
        assert(points.take(0) =~= Seq::empty());
    }
}

/// The numbers are those of points.
pub open spec fn all_numbers(points: Seq<ImagePoint>) -> bool {
    forall|i: int| 0 <= i < points.len() ==> !(#[trigger] points[i]).x.spec_nan() && !points[i].y.spec_nan()
}

proof fn lemma_extremes(points: Seq<ImagePoint>, n: nat)
    requires
        n <= points.len(),
        all_numbers(points),
    ensures
        ({
            let infinity = Single { bits: crate::single::INFINITY_BITS };
            let minus = Single { bits: crate::vision::render::NEGATIVE_INFINITY_BITS };
            &&& !lowest_x(points, n, infinity).spec_nan() && !highest_x(points, n, minus).spec_nan()
            &&& !lowest_y(points, n, infinity).spec_nan() && !highest_y(points, n, minus).spec_nan()
            &&& forall|i: int|
                0 <= i < n ==> {
                    &&& lowest_x(points, n, infinity).spec_at_most((#[trigger] points[i]).x)
                    &&& points[i].x.spec_at_most(highest_x(points, n, minus))
                    &&& lowest_y(points, n, infinity).spec_at_most(points[i].y)
                    &&& points[i].y.spec_at_most(highest_y(points, n, minus))
                }
            &&& n > 0 ==> {
                &&& exists|i: int| 0 <= i < n && (#[trigger] points[i]).x.spec_same(lowest_x(points, n, infinity))
                &&& exists|i: int| 0 <= i < n && (#[trigger] points[i]).x.spec_same(highest_x(points, n, minus))
                &&& exists|i: int| 0 <= i < n && (#[trigger] points[i]).y.spec_same(lowest_y(points, n, infinity))
                &&& exists|i: int| 0 <= i < n && (#[trigger] points[i]).y.spec_same(highest_y(points, n, minus))
            }
        }),
    decreases n,
{
    if n > 0 {
        let infinity = Single { bits: crate::single::INFINITY_BITS };
        let minus = Single { bits: crate::vision::render::NEGATIVE_INFINITY_BITS };
        let m = (n - 1) as nat;
        lemma_extremes(points, m);
        let p = points[n - 1];
        assert(!p.x.spec_nan() && !p.y.spec_nan());
        if n > 1 {
            let a = choose|i: int| 0 <= i < m && (#[trigger] points[i]).x.spec_same(lowest_x(points, m, infinity));
            let b = choose|i: int| 0 <= i < m && (#[trigger] points[i]).x.spec_same(highest_x(points, m, minus));
            let c = choose|i: int| 0 <= i < m && (#[trigger] points[i]).y.spec_same(lowest_y(points, m, infinity));
            let d = choose|i: int| 0 <= i < m && (#[trigger] points[i]).y.spec_same(highest_y(points, m, minus));
            assert(points[a].x.spec_same(lowest_x(points, n, infinity)) || p.x.spec_same(lowest_x(points, n, infinity)));
            assert(points[b].x.spec_same(highest_x(points, n, minus)) || p.x.spec_same(highest_x(points, n, minus)));
            assert(points[c].y.spec_same(lowest_y(points, n, infinity)) || p.y.spec_same(lowest_y(points, n, infinity)));
            assert(points[d].y.spec_same(highest_y(points, n, minus)) || p.y.spec_same(highest_y(points, n, minus)));
        } else {
            assert(p.x.spec_same(lowest_x(points, n, infinity)));
            assert(p.x.spec_same(highest_x(points, n, minus)));
            assert(p.y.spec_same(lowest_y(points, n, infinity)));
            assert(p.y.spec_same(highest_y(points, n, minus)));
        }
    }
}

/// The rectangle around points encloses them all, with a point on each side; it
/// goes round from its upper left corner. There is none only where the points
/// lie on one line across or down.
pub proof fn law_rectangles_enclose_their_points_closely(points: Seq<ImagePoint>)
    requires
        points.len() > 0,
        all_numbers(points),
    ensures
        match upright_quad(points) {
            Some(q) => {
                &&& q.len() == 4
                &&& q[0].x == q[3].x && q[1].x == q[2].x && q[0].y == q[1].y && q[2].y == q[3].y
                &&& q[0].x.spec_less(q[1].x) && q[0].y.spec_less(q[3].y)
                &&& forall|i: int|
                    0 <= i < points.len() ==> {
                        &&& q[0].x.spec_at_most((#[trigger] points[i]).x) && points[i].x.spec_at_most(q[1].x)
                        &&& q[0].y.spec_at_most(points[i].y) && points[i].y.spec_at_most(q[3].y)
                    }
                &&& exists|i: int| 0 <= i < points.len() && (#[trigger] points[i]).x.spec_same(q[0].x)
                &&& exists|i: int| 0 <= i < points.len() && (#[trigger] points[i]).x.spec_same(q[1].x)
                &&& exists|i: int| 0 <= i < points.len() && (#[trigger] points[i]).y.spec_same(q[0].y)
                &&& exists|i: int| 0 <= i < points.len() && (#[trigger] points[i]).y.spec_same(q[3].y)
            },
            None => {
                ||| forall|i: int, j: int|
                    0 <= i < points.len() && 0 <= j < points.len() ==> (#[trigger] points[i]).x.spec_same(
                        (#[trigger] points[j]).x,
                    )
                ||| forall|i: int, j: int|
                    0 <= i < points.len() && 0 <= j < points.len() ==> (#[trigger] points[i]).y.spec_same(
                        (#[trigger] points[j]).y,
                    )
            },
        },
{
    lemma_extremes(points, points.len());
}

/// The numerators of the first `n` confidences, added up.
pub open spec fn total(numerators: Seq<int>, n: nat) -> int
    decreases n,
{
    if n == 0 {
        0
    } else {
        total(numerators, (n - 1) as nat) + numerators[n - 1]
    }
}

proof fn lemma_confidence_sum(spans: Seq<SpanView>, numerators: Seq<int>, k: nat, n: nat)
    requires
        1 <= n <= spans.len(),
        numerators.len() == spans.len(),
        forall|i: int| 0 <= i < spans.len() ==> fraction((#[trigger] spans[i]).confidence, numerators[i], k),
        forall|m: nat| 0 <= m <= spans.len() ==> fits(#[trigger] total(numerators, m)),
        k <= 149,
    ensures
        fraction(confidence_sum(spans, n), total(numerators, n), k),
    decreases n,
{
    if n > 1 {
        lemma_confidence_sum(spans, numerators, k, (n - 1) as nat);
        assert(fits(total(numerators, n)));
        law_fractions_add_exactly(
            confidence_sum(spans, (n - 1) as nat),
            spans[n - 1].confidence,
            total(numerators, (n - 1) as nat),
            numerators[n - 1],
            k,
        );
    } else {
        assert(total(numerators, 0) == 0);
        assert(total(numerators, 1) == numerators[0]);
    }
}

/// The mean confidence times the number of spans is the sum of their
/// confidences, wherever these are exact. Without spans there is none.
pub proof fn law_mean_confidence_is_the_mean(spans: Seq<SpanView>, numerators: Seq<int>, k: nat, mean: int)
    requires
        numerators.len() == spans.len(),
        forall|i: int| 0 <= i < spans.len() ==> fraction((#[trigger] spans[i]).confidence, numerators[i], k),
        forall|m: nat| 0 <= m <= spans.len() ==> fits(#[trigger] total(numerators, m)),
        total(numerators, spans.len()) == mean * spans.len(),
        fits(mean),
        fits(spans.len() as int),
        k <= 149,
    ensures
        mean_confidence(spans) is Some <==> spans.len() > 0,
        mean_confidence(spans) matches Some(x) ==> fraction(x, mean, k),
{
    if spans.len() > 0 {
        lemma_confidence_sum(spans, numerators, k, spans.len());
        law_integers_are_whole(spans.len() as i64);
        law_fractions_divide_exactly(
            confidence_sum(spans, spans.len()),
            Single::spec_from_natural(spans.len()),
            mean,
            spans.len() as int,
            k,
            0,
        );
    }
}

} // verus!
