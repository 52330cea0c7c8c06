//! Recognized regions: their geometry, and the page result made of them.

use crate::numbers::{decimal, push_decimal};
use crate::single::{lemma_natural_magnitude, Single, INFINITY_BITS, ONE_BITS, SIGN_BIT};
use crate::text::{is_blank_text, push_text, strings, text_of, trimmed};
use crate::vision::oar::{highest_x, highest_y, lowest_x, lowest_y, EPSILON_BITS};
use crate::vision::ocr::{ImagePoint, ImageQuad, ModelIdentity, OcrPage, OcrSpan};
use crate::vision::render::NEGATIVE_INFINITY_BITS;
use vstd::prelude::*;

verus! {

/// The pattern of `-1.0`.
pub const MINUS_ONE_BITS: u32 = 0xbf80_0000;

/// The number, moved into the range.
pub open spec fn clamped(x: Single, low: Single, high: Single) -> Single {
    let raised = if x.spec_less(low) {
        low
    } else {
        x
    };
    if high.spec_less(raised) {
        high
    } else {
        raised
    }
}

fn clamp(x: Single, low: Single, high: Single) -> (r: Single)
    ensures
        r == clamped(x, low, high),
{
    let raised = if x.less(low) {
        low
    } else {
        x
    };
    if high.less(raised) {
        high
    } else {
        raised
    }
}

/// 1 or -1 by the sign; NaN stays.
pub open spec fn signum_of(x: Single) -> Single {
    if x.spec_nan() {
        x
    } else if x.bits < SIGN_BIT {
        Single { bits: ONE_BITS }
    } else {
        Single { bits: MINUS_ONE_BITS }
    }
}

fn signum(x: Single) -> (r: Single)
    ensures
        r == signum_of(x),
{
    if x.is_nan() {
        x
    } else if x.bits < SIGN_BIT {
        Single { bits: ONE_BITS }
    } else {
        Single { bits: MINUS_ONE_BITS }
    }
}

/// The cross product of the two edges round the corner after `i`.
pub open spec fn turn(points: Seq<ImagePoint>, i: int) -> Single {
    let first = points[i];
    let second = points[(i + 1) % 4];
    let third = points[(i + 2) % 4];
    second.x.spec_minus(first.x).spec_times(third.y.spec_minus(second.y)).spec_minus(
        second.y.spec_minus(first.y).spec_times(third.x.spec_minus(second.x)),
    )
}

/// Four corners in order: every corner turns, and all turn the same way.
pub open spec fn ordered_convex(points: Seq<ImagePoint>) -> bool {
    &&& points.len() == 4
    &&& forall|i: int|
        0 <= i < 4 ==> !(#[trigger] turn(points, i)).spec_absolute().spec_at_most(Single { bits: EPSILON_BITS })
    &&& forall|i: int|
        1 <= i < 4 ==> signum_of(#[trigger] turn(points, i)).spec_same(signum_of(turn(points, 0)))
}

fn turn_at(points: &Vec<ImagePoint>, i: usize) -> (r: Single)
    requires
        points@.len() == 4,
        i < 4,
    ensures
        r == turn(points@, i as int),
{
    let first = points[i];
    let second = points[(i + 1) % 4];
    let third = points[(i + 2) % 4];
    second.x.minus(first.x).times(third.y.minus(second.y)).minus(
        second.y.minus(first.y).times(third.x.minus(second.x)),
    )
}

pub fn is_ordered_convex_quad(points: &Vec<ImagePoint>) -> (r: bool)
    ensures
        r == ordered_convex(points@),
{
    if points.len() != 4 {
        return false;
    }
    let mut orientation = Single::zero();
    let mut index: usize = 0;
    while index < 4
        invariant
            index <= 4,
            points@.len() == 4,
            index == 0 ==> orientation == (Single { bits: 0 }),
            index > 0 ==> orientation == signum_of(turn(points@, 0)),
            forall|i: int|
                0 <= i < index ==> !(#[trigger] turn(points@, i)).spec_absolute().spec_at_most(
                    Single { bits: EPSILON_BITS },
                ),
            forall|i: int|
                1 <= i < index ==> signum_of(#[trigger] turn(points@, i)).spec_same(signum_of(turn(points@, 0))),
        decreases 4 - index,
    {
        let cross = turn_at(points, index);
        if cross.absolute().at_most(Single { bits: EPSILON_BITS }) {
            return false;
        }
        if orientation.same(Single::zero()) {
            orientation = signum(cross);
        } else if !signum(cross).same(orientation) {
            return false;
        }
        index += 1;
    }
    true
}

/// The points with finite coordinates among the first `n`, moved into the
/// bitmap.
pub open spec fn kept_points(points: Seq<ImagePoint>, width: u32, height: u32, n: nat) -> Seq<ImagePoint>
    decreases n,
{
    if n == 0 {
        Seq::empty()
    } else {
        let before = kept_points(points, width, height, (n - 1) as nat);
        let p = points[n - 1];
        if p.x.spec_finite() && p.y.spec_finite() {
            before.push(
                ImagePoint {
                    x: clamped(p.x, Single { bits: 0 }, Single::spec_from_natural(width as nat)),
                    y: clamped(p.y, Single { bits: 0 }, Single::spec_from_natural(height as nat)),
                },
            )
        } else {
            before
        }
    }
}

fn keep_points(points: &Vec<ImagePoint>, width: u32, height: u32) -> (r: Vec<ImagePoint>)
    ensures
        r@ == kept_points(points@, width, height, points@.len()),
{
    let right = Single::from_natural(width as u64);
    let bottom = Single::from_natural(height as u64);
    let mut kept: Vec<ImagePoint> = Vec::new();
    let mut i: usize = 0;
    while i < points.len()
        invariant
            i <= points@.len(),
            right == Single::spec_from_natural(width as nat),
            bottom == Single::spec_from_natural(height as nat),
            kept@ == kept_points(points@, width, height, i as nat),
        decreases points@.len() - i,
    {
        let p = points[i];
        if p.x.is_finite() && p.y.is_finite() {
            kept.push(ImagePoint::new(clamp(p.x, Single::zero(), right), clamp(p.y, Single::zero(), bottom)));
        }
        i += 1;
    }
    kept
}

/// The upright rectangle around points, as four corners from the top-left on;
/// `None` if it has no extent.
pub open spec fn upright_quad(points: Seq<ImagePoint>) -> Option<Seq<ImagePoint>> {
    let n = points.len();
    let left = lowest_x(points, n, Single { bits: INFINITY_BITS });
    let right = highest_x(points, n, Single { bits: NEGATIVE_INFINITY_BITS });
    let top = lowest_y(points, n, Single { bits: INFINITY_BITS });
    let bottom = highest_y(points, n, Single { bits: NEGATIVE_INFINITY_BITS });
    if right.spec_at_most(left) || bottom.spec_at_most(top) {
        None
    } else {
        Some(
            seq![
                ImagePoint { x: left, y: top },
                ImagePoint { x: right, y: top },
                ImagePoint { x: right, y: bottom },
                ImagePoint { x: left, y: bottom },
            ],
        )
    }
}

/// The quadrilateral that stands for a detected polygon: the polygon itself
/// where it is an ordered convex one of four finite corners, and the upright
/// rectangle around it otherwise.
pub open spec fn quad_of(points: Seq<ImagePoint>, width: u32, height: u32) -> Option<Seq<ImagePoint>> {
    let kept = kept_points(points, width, height, points.len());
    if points.len() == 4 && kept.len() == 4 && ordered_convex(kept) {
        Some(kept)
    } else if kept.len() < 3 {
        None
    } else {
        upright_quad(kept)
    }
}

pub fn bounding_box_to_quad(bounding_box: &Vec<ImagePoint>, width: u32, height: u32) -> (r: Option<ImageQuad>)
    ensures
        match r {
            Some(quad) => quad_of(bounding_box@, width, height) == Some(quad.points@),
            None => quad_of(bounding_box@, width, height) is None,
        },
{
    let points = keep_points(bounding_box, width, height);
    if bounding_box.len() == 4 && points.len() == 4 && is_ordered_convex_quad(&points) {
        let quad = ImageQuad::new([points[0], points[1], points[2], points[3]]);
        assert(quad.points@ =~= points@);
        return Some(quad);
    }
    if points.len() < 3 {
        return None;
    }
    let mut left = Single { bits: INFINITY_BITS };
    let mut right = Single { bits: NEGATIVE_INFINITY_BITS };
    let mut top = Single { bits: INFINITY_BITS };
    let mut bottom = Single { bits: NEGATIVE_INFINITY_BITS };
    let mut i: usize = 0;
    while i < points.len()
        invariant
            i <= points@.len(),
            left == lowest_x(points@, i as nat, Single { bits: INFINITY_BITS }),
            right == highest_x(points@, i as nat, Single { bits: NEGATIVE_INFINITY_BITS }),
            top == lowest_y(points@, i as nat, Single { bits: INFINITY_BITS }),
            bottom == highest_y(points@, i as nat, Single { bits: NEGATIVE_INFINITY_BITS }),
        decreases points@.len() - i,
    {
        let p = points[i];
        left = left.min(p.x);
        right = right.max(p.x);
        top = top.min(p.y);
        bottom = bottom.max(p.y);
        i += 1;
    }
    if right.at_most(left) || bottom.at_most(top) {
        return None;
    }
    let quad = ImageQuad::new(
        [
            ImagePoint::new(left, top),
            ImagePoint::new(right, top),
            ImagePoint::new(right, bottom),
            ImagePoint::new(left, bottom),
        ],
    );
    assert(quad.points@ =~= upright_quad(points@)->0);
    Some(quad)
}

/// A point of the bitmap, its border included.
pub open spec fn in_bitmap(p: ImagePoint, width: u32, height: u32) -> bool {
    &&& (Single { bits: 0 }).spec_at_most(p.x)
    &&& p.x.spec_at_most(Single::spec_from_natural(width as nat))
    &&& (Single { bits: 0 }).spec_at_most(p.y)
    &&& p.y.spec_at_most(Single::spec_from_natural(height as nat))
}

proof fn lemma_side(n: u32)
    ensures
        (Single { bits: 0 }).spec_at_most(Single::spec_from_natural(n as nat)),
{
    reveal(Single::spec_from_natural);
    lemma_natural_magnitude(n as nat);
}

proof fn lemma_kept_in_bitmap(points: Seq<ImagePoint>, width: u32, height: u32, n: nat)
    requires
        n <= points.len(),
    ensures
        forall|i: int|
            0 <= i < kept_points(points, width, height, n).len() ==> in_bitmap(
                #[trigger] kept_points(points, width, height, n)[i],
                width,
                height,
            ),
    decreases n,
{
    if n > 0 {
        lemma_kept_in_bitmap(points, width, height, (n - 1) as nat);
        lemma_side(width);
        lemma_side(height);
        let before = kept_points(points, width, height, (n - 1) as nat);
        let all = kept_points(points, width, height, n);
        assert forall|i: int| 0 <= i < all.len() implies in_bitmap(#[trigger] all[i], width, height) by {
            if i < before.len() {
                assert(all[i] == before[i]);
            }
        }
    }
}

proof fn lemma_bounds_in_bitmap(points: Seq<ImagePoint>, width: u32, height: u32, n: nat)
    requires
        1 <= n <= points.len(),
        forall|i: int| 0 <= i < points.len() ==> in_bitmap(#[trigger] points[i], width, height),
    ensures
        in_bitmap(
            ImagePoint {
                x: lowest_x(points, n, Single { bits: INFINITY_BITS }),
                y: lowest_y(points, n, Single { bits: INFINITY_BITS }),
            },
            width,
            height,
        ),
        in_bitmap(
            ImagePoint {
                x: highest_x(points, n, Single { bits: NEGATIVE_INFINITY_BITS }),
                y: highest_y(points, n, Single { bits: NEGATIVE_INFINITY_BITS }),
            },
            width,
            height,
        ),
    decreases n,
{
    assert(in_bitmap(points[n - 1], width, height));
    if n > 1 {
        lemma_bounds_in_bitmap(points, width, height, (n - 1) as nat);
    } else {
        reveal_with_fuel(lowest_x, 2);
        reveal_with_fuel(lowest_y, 2);
        reveal_with_fuel(highest_x, 2);
        reveal_with_fuel(highest_y, 2);
    }
}

/// Whatever polygon the detector reports, its quadrilateral has four corners
/// and stays in the bitmap.
pub proof fn law_quads_stay_in_the_bitmap(points: Seq<ImagePoint>, width: u32, height: u32)
    ensures
        quad_of(points, width, height) matches Some(quad) ==> quad.len() == 4 && forall|i: int|
            0 <= i < 4 ==> in_bitmap(#[trigger] quad[i], width, height),
{
    let kept = kept_points(points, width, height, points.len());
    lemma_kept_in_bitmap(points, width, height, points.len());
    if kept.len() >= 1 {
        lemma_bounds_in_bitmap(kept, width, height, kept.len());
    }
}

/// What the recognizer made of one region.
#[derive(Debug)]
pub enum RegionReading {
    /// The region could not be cut out of the page.
    NoCrop,
    /// The recognizer ran, and returned a text and a confidence or left one out.
    Recognized { text: Option<String>, confidence: Option<Single> },
}

/// What a span says, without the storage of its text.
pub struct SpanView {
    pub text: Seq<char>,
    pub corners: Seq<ImagePoint>,
    pub confidence: Single,
    pub orientation_degrees: Option<Single>,
}

impl View for OcrSpan {
    type V = SpanView;

    open spec fn view(&self) -> SpanView {
        SpanView {
            text: self.text@,
            corners: self.polygon.points@,
            confidence: self.confidence,
            orientation_degrees: self.orientation_degrees,
        }
    }
}

/// What becomes of one region.
pub enum RegionOutcome {
    /// Counted as a region without usable recognition output.
    Unread,
    /// Counted as a region with invalid geometry.
    Misshapen,
    /// Below the confidence asked for: left out without a count.
    Doubtful,
    /// A span of the page.
    Kept { span: SpanView },
}

pub open spec fn region_outcome(
    reading: RegionReading,
    points: Seq<ImagePoint>,
    width: u32,
    height: u32,
    minimum: Single,
) -> RegionOutcome {
    match reading {
        RegionReading::NoCrop => RegionOutcome::Misshapen,
        RegionReading::Recognized { text: Some(text), confidence: Some(confidence) } => {
            let sure = clamped(confidence, Single { bits: 0 }, Single { bits: ONE_BITS });
            if trimmed(text@).len() == 0 || !confidence.spec_finite() {
                RegionOutcome::Unread
            } else if sure.spec_less(minimum) {
                RegionOutcome::Doubtful
            } else {
                match quad_of(points, width, height) {
                    Some(corners) => RegionOutcome::Kept {
                        span: SpanView { text: text@, corners, confidence: sure, orientation_degrees: None },
                    },
                    None => RegionOutcome::Misshapen,
                }
            }
        },
        RegionReading::Recognized { .. } => RegionOutcome::Unread,
    }
}

/// What was made of the regions of a page so far.
pub struct Harvest {
    pub spans: Seq<SpanView>,
    pub unread: nat,
    pub misshapen: nat,
}

/// What is made of the first `n` regions of a page.
pub open spec fn harvest(
    readings: Seq<RegionReading>,
    regions: Seq<Seq<ImagePoint>>,
    width: u32,
    height: u32,
    minimum: Single,
    n: nat,
) -> Harvest
    decreases n,
{
    if n == 0 {
        Harvest { spans: Seq::empty(), unread: 0, misshapen: 0 }
    } else {
        let before = harvest(readings, regions, width, height, minimum, (n - 1) as nat);
        match region_outcome(readings[n - 1], regions[n - 1], width, height, minimum) {
            RegionOutcome::Unread => Harvest { unread: before.unread + 1, ..before },
            RegionOutcome::Misshapen => Harvest { misshapen: before.misshapen + 1, ..before },
            RegionOutcome::Doubtful => before,
            RegionOutcome::Kept { span } => Harvest { spans: before.spans.push(span), ..before },
        }
    }
}

/// The sum of the confidences of the first `n` spans, from the first on.
pub open spec fn confidence_sum(spans: Seq<SpanView>, n: nat) -> Single
    decreases n,
{
    if n <= 1 {
        spans[0].confidence
    } else {
        confidence_sum(spans, (n - 1) as nat).spec_plus(spans[n - 1].confidence)
    }
}

/// The mean confidence of spans, if there are any.
pub open spec fn mean_confidence(spans: Seq<SpanView>) -> Option<Single> {
    if spans.len() == 0 {
        None
    } else {
        Some(confidence_sum(spans, spans.len()).spec_over(Single::spec_from_natural(spans.len())))
    }
}

/// The warnings about regions that were left out.
pub open spec fn harvest_warnings(unread: nat, misshapen: nat) -> Seq<Seq<char>> {
    let first = if unread > 0 {
        seq!["discarded "@ + decimal(unread) + " regions without usable recognition output"@]
    } else {
        Seq::empty()
    };
    if misshapen > 0 {
        first.push("discarded "@ + decimal(misshapen) + " recognized regions with invalid geometry"@)
    } else {
        first
    }
}

/// What spans say.
pub open spec fn span_views(spans: Seq<OcrSpan>) -> Seq<SpanView> {
    Seq::new(spans.len(), |i: int| spans[i]@)
}

/// The points of regions.
pub open spec fn region_points(regions: Seq<Vec<ImagePoint>>) -> Seq<Seq<ImagePoint>> {
    Seq::new(regions.len(), |i: int| regions[i]@)
}

fn mean_of(spans: &Vec<OcrSpan>) -> (r: Option<Single>)
    ensures
        r == mean_confidence(span_views(spans@)),
{
    if spans.len() == 0 {
        return None;
    }
    let mut sum = spans[0].confidence;
    let mut i: usize = 1;
    while i < spans.len()
        invariant
            1 <= i <= spans@.len(),
            sum == confidence_sum(span_views(spans@), i as nat),
        decreases spans@.len() - i,
    {
        sum = sum.plus(spans[i].confidence);
        i += 1;
    }
    Some(sum.over(Single::from_natural(spans.len() as u64)))
}

fn warnings_of(unread: usize, misshapen: usize) -> (r: Vec<String>)
    ensures
        strings(r@) == harvest_warnings(unread as nat, misshapen as nat),
{
    let mut warnings: Vec<String> = Vec::new();
    if unread > 0 {
        let mut out: Vec<char> = Vec::new();
        push_text(&mut out, "discarded ");
        push_decimal(&mut out, unread as u128);
        push_text(&mut out, " regions without usable recognition output");
        assert(out@ =~= "discarded "@ + decimal(unread as nat) + " regions without usable recognition output"@);
        warnings.push(text_of(&out));
    }
    if misshapen > 0 {
        let mut out: Vec<char> = Vec::new();
        push_text(&mut out, "discarded ");
        push_decimal(&mut out, misshapen as u128);
        push_text(&mut out, " recognized regions with invalid geometry");
        assert(out@ =~= "discarded "@ + decimal(misshapen as nat) + " recognized regions with invalid geometry"@);
        warnings.push(text_of(&out));
    }
    assert(strings(warnings@) =~= harvest_warnings(unread as nat, misshapen as nat));
    warnings
}

/// Assembles the result of one page from what the recognizer made of its
/// regions, in reading order.
pub fn assemble_page(
    page_number: u32,
    readings: Vec<RegionReading>,
    regions: &Vec<Vec<ImagePoint>>,
    width: u32,
    height: u32,
    minimum_confidence: Single,
    model: &ModelIdentity,
    processing_time_ms: u64,
) -> (r: OcrPage)
    requires
        readings@.len() == regions@.len(),
    ensures
        ({
            let all = harvest(
                readings@,
                region_points(regions@),
                width,
                height,
                minimum_confidence,
                readings@.len(),
            );
            &&& r.page_number == page_number
            &&& span_views(r.spans@) == all.spans
            &&& r.mean_confidence == mean_confidence(all.spans)
            &&& r.model.name@ == model.name@
            &&& r.model.revision@ == model.revision@
            &&& r.processing_time_ms == processing_time_ms
            &&& strings(r.warnings@) == harvest_warnings(all.unread, all.misshapen)
        }),
{
    let ghost points = region_points(regions@);
    let ghost all_readings = readings@;
    let mut spans: Vec<OcrSpan> = Vec::new();
    let mut misshapen: usize = 0;
    let mut unread: usize = 0;
    let mut readings = readings;
    let mut i: usize = 0;
    let count: usize = regions.len();
    while i < count
        invariant
            i <= count,
            count == regions@.len(),
            count == all_readings.len(),
            points == region_points(regions@),
            readings@.len() == count,
            forall|k: int| i <= k < count ==> readings@[k] == all_readings[k],
            span_views(spans@) == harvest(all_readings, points, width, height, minimum_confidence, i as nat).spans,
            unread == harvest(all_readings, points, width, height, minimum_confidence, i as nat).unread,
            misshapen == harvest(all_readings, points, width, height, minimum_confidence, i as nat).misshapen,
            unread <= i,
            misshapen <= i,
        decreases count - i,
    {
        let ghost before = spans@;
        let mut reading = RegionReading::NoCrop;
        std::mem::swap(&mut reading, &mut readings[i]);
        assert(reading == all_readings[i as int]);
        assert(points[i as int] == regions@[i as int]@);
        let ghost outcome = region_outcome(reading, points[i as int], width, height, minimum_confidence);
        match reading {
            RegionReading::Recognized { text: Some(text), confidence: Some(confidence) } => {
                if is_blank_text(text.as_str()) || !confidence.is_finite() {
                    unread += 1;
                } else {
                    let sure = clamp(confidence, Single::zero(), Single::one());
                    if !sure.less(minimum_confidence) {
                        match bounding_box_to_quad(&regions[i], width, height) {
                            Some(polygon) => {
                                spans.push(OcrSpan { text, polygon, confidence: sure, orientation_degrees: None });
                                assert(span_views(spans@) =~= span_views(before).push(spans@.last()@));
                            },
                            None => {
                                misshapen += 1;
                            },
                        }
                    }
                }
            },
            RegionReading::Recognized { .. } => {
                unread += 1;
            },
            RegionReading::NoCrop => {
                misshapen += 1;
            },
        }
        i += 1;
    }
    let warnings = warnings_of(unread, misshapen);
    let mean = mean_of(&spans);
    OcrPage { page_number, spans, mean_confidence: mean, model: model.copied(), processing_time_ms, warnings }
}

/// Every span that a page reports has a text, a confidence from 0 to 1 that
/// is not below the minimum, and four corners in the bitmap.
pub proof fn law_reported_spans_are_usable(
    readings: Seq<RegionReading>,
    regions: Seq<Seq<ImagePoint>>,
    width: u32,
    height: u32,
    minimum: Single,
    n: nat,
    i: int,
)
    requires
        n <= readings.len(),
        n <= regions.len(),
        0 <= i < harvest(readings, regions, width, height, minimum, n).spans.len(),
    ensures
        ({
            let span = harvest(readings, regions, width, height, minimum, n).spans[i];
            &&& trimmed(span.text).len() > 0
            &&& (Single { bits: 0 }).spec_at_most(span.confidence)
            &&& span.confidence.spec_at_most(Single { bits: ONE_BITS })
            &&& !span.confidence.spec_less(minimum)
            &&& span.corners.len() == 4
            &&& forall|k: int| 0 <= k < 4 ==> in_bitmap(#[trigger] span.corners[k], width, height)
        }),
    decreases n,
{
    if n > 0 {
        let before = harvest(readings, regions, width, height, minimum, (n - 1) as nat);
        law_quads_stay_in_the_bitmap(regions[n - 1], width, height);
        if i < before.spans.len() {
            law_reported_spans_are_usable(readings, regions, width, height, minimum, (n - 1) as nat, i);
        }
    }
}

/// No region is counted twice: spans and counted losses together are at most
/// the regions of the page.
pub proof fn law_every_region_counts_once(
    readings: Seq<RegionReading>,
    regions: Seq<Seq<ImagePoint>>,
    width: u32,
    height: u32,
    minimum: Single,
    n: nat,
)
    ensures
        ({
            let all = harvest(readings, regions, width, height, minimum, n);
            all.spans.len() + all.unread + all.misshapen <= n
        }),
    decreases n,
{
    if n > 0 {
        law_every_region_counts_once(readings, regions, width, height, minimum, (n - 1) as nat);
    }
}

} // verus!
