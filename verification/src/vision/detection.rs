//! Which detection passes a page goes through, and whose regions it keeps.

use crate::single::{lemma_distance_is_a_number, Single, ONE_BITS};
use crate::vision::oar::{
    boxes_points, deserves_escalation, lowest_y, highest_y, median_detection_height, points_of, polygon_height,
    should_escalate_detection, spec_median_detection_height, spec_polygon_height, OarOcrError,
    DETECTION_LIMIT_STANDARD, MAX_BITS, MIN_BITS,
};
use crate::vision::ocr::ImagePoint;
use oar_ocr::processors::BoundingBox;
use vstd::prelude::*;

verus! {

/// What to do next for a page.
pub enum DetectionStep<E> {
    /// Run the escalated pass. Without regions of an earlier pass, a page
    /// that the standard limit cannot resolve goes there directly.
    Escalated { kept: Option<Vec<BoundingBox>> },
    /// Run the standard pass. The last pass is not followed by another.
    Standard { last: bool },
    /// These are the regions of the page.
    Done { regions: Vec<BoundingBox> },
    /// Detection failed.
    Failed { error: E },
}

/// The longest side of a page, in pixels.
pub open spec fn longest_side(width: u32, height: u32) -> u32 {
    if width > height {
        width
    } else {
        height
    }
}

/// The longest side as a number.
pub open spec fn side_length(width: u32, height: u32) -> Single {
    Single::spec_from_natural(longest_side(width, height) as nat)
}

/// A page more than twice the standard limit loses over half its resolution
/// before detection even runs.
pub open spec fn dwarfs_the_limit(width: u32, height: u32) -> bool {
    Single::spec_from_natural((DETECTION_LIMIT_STANDARD * 2) as nat).spec_less(side_length(width, height))
}

/// The scale that the standard pass gives a page.
pub open spec fn standard_downscale(width: u32, height: u32) -> Single {
    Single::spec_from_natural(DETECTION_LIMIT_STANDARD as nat).spec_over(side_length(width, height)).spec_min(
        Single { bits: ONE_BITS },
    )
}

/// The heights of regions.
pub open spec fn heights_of(regions: Seq<Seq<ImagePoint>>) -> Seq<Single> {
    Seq::new(regions.len(), |i: int| spec_polygon_height(regions[i]))
}

/// The regions of a standard pass call for a second one at the escalated limit.
pub open spec fn calls_for_escalation(regions: Seq<Seq<ImagePoint>>, width: u32, height: u32) -> bool {
    let downscale = standard_downscale(width, height);
    deserves_escalation(
        spec_median_detection_height(heights_of(regions), downscale),
        regions.len(),
        downscale,
    )
}

fn longest(width: u32, height: u32) -> (r: Single)
    ensures
        r == side_length(width, height),
{
    let side: u32 = if width > height {
        width
    } else {
        height
    };
    Single::from_natural(side as u64)
}

/// The first pass of a page.
pub fn first_step<E>(width: u32, height: u32) -> (r: DetectionStep<E>)
    ensures
        r == if dwarfs_the_limit(width, height) {
            DetectionStep::<E>::Escalated { kept: None }
        } else {
            DetectionStep::<E>::Standard { last: false }
        },
{
    let limit = Single::from_natural((DETECTION_LIMIT_STANDARD * 2) as u64);
    if limit.less(longest(width, height)) {
        DetectionStep::Escalated { kept: None }
    } else {
        DetectionStep::Standard { last: false }
    }
}

/// The step after an escalated pass. `None` stands for an escalated detector
/// that could not be built.
///
/// A failing pass never fails the page: regions of an earlier standard pass
/// are kept, and without them the standard pass runs. After a detector that
/// is there but fails, that pass is the last one.
pub fn after_escalated<E>(kept: Option<Vec<BoundingBox>>, outcome: Option<Result<Vec<BoundingBox>, E>>) -> (r:
    DetectionStep<E>)
    ensures
        r == match outcome {
            Some(Ok(regions)) => DetectionStep::<E>::Done { regions },
            Some(Err(_)) => match kept {
                Some(regions) => DetectionStep::<E>::Done { regions },
                None => DetectionStep::<E>::Standard { last: true },
            },
            None => match kept {
                Some(regions) => DetectionStep::<E>::Done { regions },
                None => DetectionStep::<E>::Standard { last: false },
            },
        },
{
    match outcome {
        Some(Ok(regions)) => DetectionStep::Done { regions },
        Some(Err(_)) => match kept {
            Some(regions) => DetectionStep::Done { regions },
            None => DetectionStep::Standard { last: true },
        },
        None => match kept {
            Some(regions) => DetectionStep::Done { regions },
            None => DetectionStep::Standard { last: false },
        },
    }
}

proof fn lemma_extent_is_a_number(points: Seq<ImagePoint>, n: nat)
    requires
        n <= points.len(),
    ensures
        !lowest_y(points, n, Single { bits: MAX_BITS }).spec_nan(),
        !highest_y(points, n, Single { bits: MIN_BITS }).spec_nan(),
        lowest_y(points, n, Single { bits: MAX_BITS }).spec_at_most(Single { bits: MAX_BITS }),
        (Single { bits: MIN_BITS }).spec_at_most(highest_y(points, n, Single { bits: MIN_BITS })),
    decreases n,
{
    if n > 0 {
        lemma_extent_is_a_number(points, (n - 1) as nat);
    }
}

proof fn lemma_height_is_a_number(points: Seq<ImagePoint>)
    ensures
        !spec_polygon_height(points).spec_nan(),
{
    lemma_extent_is_a_number(points, points.len());
    let low = lowest_y(points, points.len(), Single { bits: MAX_BITS });
    let high = highest_y(points, points.len(), Single { bits: MIN_BITS });
    if low.spec_less(high) {
        lemma_distance_is_a_number(low, high);
    }
}

fn region_heights(regions: &Vec<BoundingBox>) -> (r: Vec<Single>)
    ensures
        r@ == heights_of(boxes_points(regions@)),
        forall|i: int| 0 <= i < r@.len() ==> !(#[trigger] r@[i]).spec_nan(),
{
    let ghost model = heights_of(boxes_points(regions@));
    let mut heights: Vec<Single> = Vec::new();
    let mut i: usize = 0;
    while i < regions.len()
        invariant
            i <= regions@.len(),
            model == heights_of(boxes_points(regions@)),
            heights@ == model.take(i as int),
            forall|k: int| 0 <= k < heights@.len() ==> !(#[trigger] heights@[k]).spec_nan(),
        decreases regions@.len() - i,
    {
        let points = points_of(&regions[i]);
        proof {
            lemma_height_is_a_number(points@);
        }
        heights.push(polygon_height(&points));
        i += 1;
        assert(heights@ =~= model.take(i as int));
    }
    assert(heights@ =~= model);
    heights
}

/// The step after a standard pass over a page of this size.
///
/// Dense fine-print pages lose most of their text when detection downscales
/// them. Where the pass shows many regions of tiny height, the escalated pass
/// runs next.
pub fn after_standard<E>(last: bool, width: u32, height: u32, outcome: Result<Vec<BoundingBox>, E>) -> (r:
    DetectionStep<E>)
    ensures
        r == match outcome {
            Ok(regions) => if !last && calls_for_escalation(boxes_points(regions@), width, height) {
                DetectionStep::<E>::Escalated { kept: Some(regions) }
            } else {
                DetectionStep::<E>::Done { regions }
            },
            Err(error) => DetectionStep::<E>::Failed { error },
        },
{
    let regions = match outcome {
        Ok(regions) => regions,
        Err(error) => {
            return DetectionStep::Failed { error };
        },
    };
    if last {
        return DetectionStep::Done { regions };
    }
    let downscale = Single::from_natural(DETECTION_LIMIT_STANDARD as u64).over(longest(width, height)).min(
        Single::one(),
    );
    let heights = region_heights(&regions);
    let median = median_detection_height(&heights, downscale);
    if should_escalate_detection(median, regions.len(), downscale) {
        DetectionStep::Escalated { kept: Some(regions) }
    } else {
        DetectionStep::Done { regions }
    }
}

/// The regions of the one page that a detector was given.
pub fn page_regions(detections: Vec<Vec<BoundingBox>>, page: u32) -> (r: Result<Vec<BoundingBox>, OarOcrError>)
    ensures
        match r {
            Ok(regions) => detections@.len() > 0 && regions == detections@[0],
            Err(error) => detections@.len() == 0 && error == (OarOcrError::MissingPageResult { page }),
        },
{
    let mut detections = detections;
    if detections.len() == 0 {
        return Err(OarOcrError::MissingPageResult { page });
    }
    Ok(detections.remove(0))
}

/// How much detection is left to do at most.
pub open spec fn passes_left<E>(step: DetectionStep<E>) -> nat {
    match step {
        DetectionStep::Escalated { kept: None } => 3,
        DetectionStep::Standard { last: false } => 2,
        DetectionStep::Standard { last: true } => 1,
        DetectionStep::Escalated { kept: Some(_) } => 1,
        _ => 0,
    }
}

/// Detection of a page comes to an end: each pass leaves fewer to do, and a
/// page never takes more than three.
pub proof fn law_detection_ends<E>(
    kept: Option<Vec<BoundingBox>>,
    tried: Option<Result<Vec<BoundingBox>, E>>,
    last: bool,
    width: u32,
    height: u32,
    found: Result<Vec<BoundingBox>, E>,
    after_tried: DetectionStep<E>,
    after_found: DetectionStep<E>,
)
    requires
        call_ensures(after_escalated::<E>, (kept, tried), after_tried),
        call_ensures(after_standard::<E>, (last, width, height, found), after_found),
    ensures
        passes_left(after_tried) < passes_left(DetectionStep::<E>::Escalated { kept }),
        passes_left(after_found) < passes_left(DetectionStep::<E>::Standard { last }),
{
}

/// Detection fails only where the standard pass failed.
pub proof fn law_an_escalated_pass_never_fails_a_page<E>(
    kept: Option<Vec<BoundingBox>>,
    outcome: Option<Result<Vec<BoundingBox>, E>>,
    after: DetectionStep<E>,
)
    requires
        call_ensures(after_escalated::<E>, (kept, outcome), after),
    ensures
        !(after is Failed),
        kept matches Some(regions) ==> after is Done,
{
}

} // verus!
