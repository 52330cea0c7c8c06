//! Decisions of the PP-OCRv6 Small engine: options, thread budget, detection
//! passes, region geometry and the assembly of page results.

use crate::single::{order_key, Single, ONE_BITS, SIGN_BIT};
use crate::sorting::{sort_indices, stably_sorted};
use crate::vision::ocr::{ImagePoint, OcrMode, OcrOptions};
use crate::vision::render::{law_pixels_lie_in_the_buffer, RenderPixelFormat, RenderedPage, RenderedView};
use oar_ocr::processors::BoundingBox;
use vstd::prelude::*;

verus! {

/// Environment variable selecting the ONNX Runtime shared library.
pub const ONNX_RUNTIME_LIBRARY_ENV: &'static str = "ORT_DYLIB_PATH";

/// Standard detection input cap. PP-OCR detection resizes each page so its
/// longest side fits this before inference; it is the PaddleOCR default and
/// is sufficient for ordinary body text at 150 DPI.
pub const DETECTION_LIMIT_STANDARD: u32 = 960;

/// Escalated detection input cap for dense fine-print pages. Beyond this the
/// measured recall plateaus while inference cost keeps growing.
pub const DETECTION_LIMIT_ESCALATED: u32 = 2560;

/// Hard ceiling protecting detection from out-of-memory on giant renders.
pub const DETECTION_MAXIMUM_SIDE: u32 = 4000;

/// Pages with fewer regions in the standard pass are not escalated.
pub const ESCALATION_MINIMUM_REGIONS: usize = 80;

/// `15.0`: regions of a lesser median height, at detection scale, are small.
pub const ESCALATION_MAXIMUM_MEDIAN_HEIGHT_BITS: u32 = 0x4170_0000;

/// `2.0`
pub const TWO_BITS: u32 = 0x4000_0000;

/// The largest finite number.
pub const MAX_BITS: u32 = 0x7f7f_ffff;

/// The least finite number.
pub const MIN_BITS: u32 = 0xff7f_ffff;

/// The distance from 1 to the next larger number.
pub const EPSILON_BITS: u32 = 0x3400_0000;

/// The role of a model file.
#[derive(Clone, Copy, Debug, PartialEq, Eq, Structural)]
pub enum ModelArtifactKind {
    TextDetection,
    TextRecognition,
    CharacterDictionary,
}

/// Failures while constructing or running the OCR backend that the library
/// decides on.
#[derive(Clone, Copy, Debug, PartialEq, Eq, Structural)]
pub enum OarOcrError {
    /// A required file is missing from the resolved model set.
    MissingModelArtifact {
        /// Missing artifact role.
        kind: ModelArtifactKind,
    },
    /// OCR was invoked while the caller explicitly disabled it.
    OcrDisabled,
    /// Confidence thresholds must match the normalized engine output range.
    InvalidMinimumConfidence {
        /// Invalid threshold.
        value: Single,
    },
    /// Bitmap dimension arithmetic exceeded the host address space.
    ImageSizeOverflow {
        /// 1-indexed page number.
        page: u32,
    },
    /// A validated renderer buffer could not be represented as an RGB image.
    InvalidImageBuffer {
        /// 1-indexed page number.
        page: u32,
    },
    /// The detector returned no result for a submitted page.
    MissingPageResult {
        /// 1-indexed page number.
        page: u32,
    },
}

/// Pages processed concurrently: one pipeline and its sessions per worker.
/// Workers beyond 3 stop scaling, and each is fastest with 2 threads.
pub fn pipeline_concurrency(cores: usize) -> (r: usize)
    ensures
        r == if cores / 4 < 1 {
            1int
        } else if cores / 4 > 3 {
            3
        } else {
            cores as int / 4
        },
{
    let share: usize = cores / 4;
    if share < 1 {
        1
    } else if share > 3 {
        3
    } else {
        share
    }
}

/// Threads of one pipeline.
pub fn intra_threads_per_pipeline(concurrency: usize, cores: usize) -> (r: usize)
    ensures
        r == if concurrency > 1 {
            2
        } else if cores < 4 {
            cores
        } else {
            4
        },
{
    if concurrency > 1 {
        2
    } else if cores < 4 {
        cores
    } else {
        4
    }
}

/// The thread settings of one inference session.
#[derive(Clone, Copy, Debug, PartialEq, Eq, Structural)]
pub struct SessionBudget {
    pub intra_threads: usize,
    pub inter_threads: usize,
    pub parallel_execution: bool,
}

/// A session always has a thread, and runs its nodes one after another.
pub fn ocr_session_config(intra_threads: usize) -> (r: SessionBudget)
    ensures
        r == (SessionBudget {
            intra_threads: if intra_threads > 1 {
                intra_threads
            } else {
                1
            },
            inter_threads: 1,
            parallel_execution: false,
        }),
{
    SessionBudget {
        intra_threads: if intra_threads > 1 {
            intra_threads
        } else {
            1
        },
        inter_threads: 1,
        parallel_execution: false,
    }
}

/// Why options are refused before inference.
pub open spec fn options_fault(options: OcrOptions) -> Option<OarOcrError> {
    let least = options.minimum_confidence;
    if options.mode == OcrMode::Off {
        Some(OarOcrError::OcrDisabled)
    } else if !least.spec_finite() || !(Single { bits: 0 }).spec_at_most(least) || !least.spec_at_most(
        Single { bits: ONE_BITS },
    ) {
        Some(OarOcrError::InvalidMinimumConfidence { value: least })
    } else {
        None
    }
}

pub fn validate_options(options: &OcrOptions) -> (r: Result<(), OarOcrError>)
    ensures
        match r {
            Ok(_) => options_fault(*options) is None,
            Err(error) => options_fault(*options) == Some(error),
        },
{
    if options.mode == OcrMode::Off {
        return Err(OarOcrError::OcrDisabled);
    }
    let least = options.minimum_confidence;
    if !least.is_finite() || !Single::zero().at_most(least) || !least.at_most(Single::one()) {
        return Err(OarOcrError::InvalidMinimumConfidence { value: least });
    }
    Ok(())
}

/// The files of a resolved, verified model set.
#[derive(Debug)]
pub struct ModelPaths {
    pub manifest_id: String,
    pub revision: String,
    pub files: Vec<(ModelArtifactKind, String)>,
}

/// The first file with the role.
pub open spec fn file_of(files: Seq<(ModelArtifactKind, String)>, kind: ModelArtifactKind) -> Option<Seq<char>>
    decreases files.len(),
{
    if files.len() == 0 {
        None
    } else if files[0].0 == kind {
        Some(files[0].1@)
    } else {
        file_of(files.skip(1), kind)
    }
}

impl ModelPaths {
    /// The path of the file with the role.
    pub fn get(&self, kind: ModelArtifactKind) -> (r: Option<&String>)
        ensures
            match r {
                Some(path) => file_of(self.files@, kind) == Some(path@),
                None => file_of(self.files@, kind) is None,
            },
    {
        let mut i: usize = 0;
        assert(self.files@.skip(0) =~= self.files@);
        while i < self.files.len()
            invariant
                i <= self.files@.len(),
                file_of(self.files@, kind) == file_of(self.files@.skip(i as int), kind),
            decreases self.files@.len() - i,
        {
            assert(self.files@.skip(i as int)[0] == self.files@[i as int]);
            if self.files[i].0 == kind {
                return Some(&self.files[i].1);
            }
            assert(self.files@.skip(i as int).skip(1) =~= self.files@.skip(i + 1));
            i += 1;
        }
        None
    }
}

/// The path of a file that the engine cannot do without.
pub fn required_model(models: &ModelPaths, kind: ModelArtifactKind) -> (r: Result<&String, OarOcrError>)
    ensures
        match r {
            Ok(path) => file_of(models.files@, kind) == Some(path@),
            Err(error) => file_of(models.files@, kind) is None && error == (OarOcrError::MissingModelArtifact {
                kind,
            }),
        },
{
    match models.get(kind) {
        Some(path) => Ok(path),
        None => Err(OarOcrError::MissingModelArtifact { kind }),
    }
}

/// An RGB image: three bytes per pixel, rows without padding.
#[derive(Debug)]
pub struct RgbPixels {
    pub width: u32,
    pub height: u32,
    pub bytes: Vec<u8>,
}

/// The bytes that an RGB image of this size takes.
pub open spec fn rgb_length(width: u32, height: u32) -> int {
    3 * width * height
}

/// The RGB bytes of a rendered page: row by row and without padding, alpha
/// dropped, a gray value three times.
pub open spec fn rgb_bytes(page: RenderedView) -> Seq<u8> {
    Seq::new(
        rgb_length(page.width, page.height) as nat,
        |i: int|
            {
                let at = page.offset((i / 3) % page.width as int, (i / 3) / page.width as int);
                if page.format == RenderPixelFormat::Gray8 {
                    page.pixels[at]
                } else {
                    page.pixels[at + i % 3]
                }
            },
    )
}

/// `image::RgbImage::from_raw` followed by `into_raw`: the bytes come back
/// unchanged if they are enough for an image of the size, and nothing does if
/// they are not.
#[verifier::external_body]
fn rgb_image(width: u32, height: u32, bytes: Vec<u8>) -> (r: Option<Vec<u8>>)
    ensures
        r is Some == (rgb_length(width, height) <= bytes@.len()),
        r matches Some(kept) ==> kept@ == bytes@,
{
    image::RgbImage::from_raw(width, height, bytes).map(|image| image.into_raw())
}

/// Appends the RGB bytes of one pixel.
fn push_pixel(out: &mut Vec<u8>, page: &RenderedPage, x: u32, y: u32)
    requires
        x < page@.width,
        y < page@.height,
        page@.wf(),
        rgb_length(page@.width, page@.height) <= usize::MAX,
        old(out)@ == rgb_bytes(page@).take((y * page@.width + x) * 3),
    ensures
        final(out)@ == rgb_bytes(page@).take((y * page@.width + x + 1) * 3),
{
    let format = page.format();
    let stride = page.stride();
    let channels = format.bytes_per_pixel();
    let pixels = page.pixels();
    let length: usize = pixels.len();
    let ghost width = page@.width as int;
    let ghost height = page@.height as int;
    let ghost index = y * width + x;
    let ghost before = out@;
    proof {
        law_pixels_lie_in_the_buffer(page@, x as int, y as int);
        assert(y * stride >= 0 && x * channels >= 0) by (nonlinear_arith);
        assert(index < width * height) by (nonlinear_arith)
            requires
                index == y * width + x,
                0 <= x < width,
                0 <= y < height,
        ;
        assert(index >= 0) by (nonlinear_arith)
            requires
                index == y * width + x,
                0 <= x,
                0 <= y,
                0 <= width,
        ;
        assert(rgb_length(page@.width, page@.height) == 3 * (width * height)) by (nonlinear_arith)
            requires
                rgb_length(page@.width, page@.height) == 3 * page@.width * page@.height,
                width == page@.width,
                height == page@.height,
        ;
        vstd::arithmetic::div_mod::lemma_fundamental_div_mod_converse(index, width, y as int, x as int);
    }
    let at: usize = y as usize * stride + x as usize * channels;
    match format {
        RenderPixelFormat::Gray8 => {
            out.push(pixels[at]);
            out.push(pixels[at]);
            out.push(pixels[at]);
        },
        _ => {
            out.push(pixels[at]);
            out.push(pixels[at + 1]);
            out.push(pixels[at + 2]);
        },
    }
    proof {
        let all = rgb_bytes(page@);
        assert(before.len() == index * 3);
        assert(all[index * 3] == out@[index * 3]);
        assert(all[index * 3 + 1] == out@[index * 3 + 1]);
        assert(all[index * 3 + 2] == out@[index * 3 + 2]);
        assert(out@ =~= all.take((index + 1) * 3)) by {
            assert forall|i: int| 0 <= i < before.len() implies out@[i] == #[trigger] all[i] by {
                assert(before[i] == all.take(index * 3)[i]);
            }
        }
    }
}

/// Converts a rendered page to an RGB image.
pub fn rendered_page_to_rgb(page: &RenderedPage) -> (r: Result<RgbPixels, OarOcrError>)
    ensures
        match r {
            Ok(image) => {
                &&& rgb_length(page@.width, page@.height) <= usize::MAX
                &&& image.width == page@.width
                &&& image.height == page@.height
                &&& image.bytes@ == rgb_bytes(page@)
            },
            Err(error) => rgb_length(page@.width, page@.height) > usize::MAX && error
                == (OarOcrError::ImageSizeOverflow { page: page@.page }),
        },
{
    let width = page.width();
    let height = page.height();
    let number = page.page();
    let pixels: u64 = {
        assert(width * height <= 0xffff_fffe_0000_0001) by (nonlinear_arith)
            requires
                width <= 0xffff_ffff,
                height <= 0xffff_ffff,
        ;
        width as u64 * height as u64
    };
    assert(rgb_length(width, height) == 3 * pixels) by (nonlinear_arith)
        requires
            rgb_length(width, height) == 3 * width * height,
            pixels == width * height,
    ;
    if 3 * pixels as u128 > usize::MAX as u128 {
        return Err(OarOcrError::ImageSizeOverflow { page: number });
    }
    let ghost all = rgb_bytes(page@);
    let mut bytes: Vec<u8> = Vec::new();
    let mut y: u32 = 0;
    assert(bytes@ =~= all.take(0));
    while y < height
        invariant
            y <= height,
            width == page@.width,
            height == page@.height,
            page@.wf(),
            rgb_length(page@.width, page@.height) <= usize::MAX,
            all == rgb_bytes(page@),
            bytes@ == all.take((y * width) * 3),
        decreases height - y,
    {
        let mut x: u32 = 0;
        while x < width
            invariant
                x <= width,
                y < height,
                width == page@.width,
                height == page@.height,
                page@.wf(),
                rgb_length(page@.width, page@.height) <= usize::MAX,
                all == rgb_bytes(page@),
                bytes@ == all.take((y * width + x) * 3),
            decreases width - x,
        {
            push_pixel(&mut bytes, page, x, y);
            x += 1;
        }
        assert((y + 1) * width == y * width + width) by (nonlinear_arith);
        y += 1;
    }
    proof {
        assert((height * width) * 3 == rgb_length(width, height)) by (nonlinear_arith)
            requires
                rgb_length(width, height) == 3 * width * height,
        ;
        assert(all.take(all.len() as int) =~= all);
    }
    match rgb_image(width, height, bytes) {
        Some(bytes) => Ok(RgbPixels { width, height, bytes }),
        None => Err(OarOcrError::InvalidImageBuffer { page: number }),
    }
}

/// A detected region: the polygon of a text line.
#[verifier::external_type_specification]
#[verifier::external_body]
pub struct ExBoundingBox(oar_ocr::processors::BoundingBox);

/// The points that a bounding box holds.
pub uninterp spec fn box_points(region: BoundingBox) -> Seq<ImagePoint>;

/// The points of several bounding boxes.
pub open spec fn boxes_points(regions: Seq<BoundingBox>) -> Seq<Seq<ImagePoint>> {
    Seq::new(regions.len(), |i: int| box_points(regions[i]))
}

/// The points of bounding boxes in the order that `sort_quad_boxes` gives them.
pub uninterp spec fn reading_order(regions: Seq<Seq<ImagePoint>>) -> Seq<Seq<ImagePoint>>;

/// The field `points` of `oar_ocr::processors::BoundingBox`, each coordinate
/// by its bit pattern.
#[verifier::external_body]
pub(crate) fn points_of(region: &BoundingBox) -> (r: Vec<ImagePoint>)
    ensures
        r@ == box_points(*region),
{
    region.points.iter().map(|point| ImagePoint {
        x: Single { bits: point.x.to_bits() },
        y: Single { bits: point.y.to_bits() },
    }).collect()
}

/// `oar_ocr::processors::sort_quad_boxes`: the boxes in reading order, which
/// depends on their points alone. It only moves boxes: none is lost, added or
/// changed.
#[verifier::external_body]
fn sort_boxes(regions: &Vec<BoundingBox>) -> (r: Vec<BoundingBox>)
    ensures
        boxes_points(r@) == reading_order(boxes_points(regions@)),
        boxes_points(r@).to_multiset() == boxes_points(regions@).to_multiset(),
{
    oar_ocr::processors::sort_quad_boxes(regions)
}

/// Detected regions in reading order, with the points of each.
pub fn regions_in_reading_order(regions: &Vec<BoundingBox>) -> (r: (Vec<BoundingBox>, Vec<Vec<ImagePoint>>))
    ensures
        boxes_points(r.0@) == reading_order(boxes_points(regions@)),
        boxes_points(r.0@).to_multiset() == boxes_points(regions@).to_multiset(),
        r.1@.len() == r.0@.len(),
        forall|i: int| 0 <= i < r.1@.len() ==> (#[trigger] r.1@[i])@ == reading_order(boxes_points(regions@))[i],
{
    let sorted = sort_boxes(regions);
    let mut points: Vec<Vec<ImagePoint>> = Vec::new();
    let mut i: usize = 0;
    while i < sorted.len()
        invariant
            i <= sorted@.len(),
            points@.len() == i,
            forall|k: int| 0 <= k < i ==> (#[trigger] points@[k])@ == box_points(sorted@[k]),
        decreases sorted@.len() - i,
    {
        points.push(points_of(&sorted[i]));
        i += 1;
    }
    assert forall|k: int| 0 <= k < points@.len() implies (#[trigger] points@[k])@ == reading_order(
        boxes_points(regions@),
    )[k] by {
        assert(boxes_points(sorted@)[k] == box_points(sorted@[k]));
    }
    (sorted, points)
}

/// The least `y` of the first `n` points.
pub open spec fn lowest_y(points: Seq<ImagePoint>, n: nat, start: Single) -> Single
    decreases n,
{
    if n == 0 {
        start
    } else {
        lowest_y(points, (n - 1) as nat, start).spec_min(points[n - 1].y)
    }
}

/// The greatest `y` of the first `n` points.
pub open spec fn highest_y(points: Seq<ImagePoint>, n: nat, start: Single) -> Single
    decreases n,
{
    if n == 0 {
        start
    } else {
        highest_y(points, (n - 1) as nat, start).spec_max(points[n - 1].y)
    }
}

/// The least `x` of the first `n` points.
pub open spec fn lowest_x(points: Seq<ImagePoint>, n: nat, start: Single) -> Single
    decreases n,
{
    if n == 0 {
        start
    } else {
        lowest_x(points, (n - 1) as nat, start).spec_min(points[n - 1].x)
    }
}

/// The greatest `x` of the first `n` points.
pub open spec fn highest_x(points: Seq<ImagePoint>, n: nat, start: Single) -> Single
    decreases n,
{
    if n == 0 {
        start
    } else {
        highest_x(points, (n - 1) as nat, start).spec_max(points[n - 1].x)
    }
}

/// Vertical extent of a polygon in image pixels.
pub open spec fn spec_polygon_height(points: Seq<ImagePoint>) -> Single {
    let low = lowest_y(points, points.len(), Single { bits: MAX_BITS });
    let high = highest_y(points, points.len(), Single { bits: MIN_BITS });
    if low.spec_less(high) {
        high.spec_minus(low)
    } else {
        Single { bits: 0 }
    }
}

pub fn polygon_height(points: &Vec<ImagePoint>) -> (r: Single)
    ensures
        r == spec_polygon_height(points@),
{
    let mut low = Single { bits: MAX_BITS };
    let mut high = Single { bits: MIN_BITS };
    let mut i: usize = 0;
    while i < points.len()
        invariant
            i <= points@.len(),
            low == lowest_y(points@, i as nat, Single { bits: MAX_BITS }),
            high == highest_y(points@, i as nat, Single { bits: MIN_BITS }),
        decreases points@.len() - i,
    {
        low = low.min(points[i].y);
        high = high.max(points[i].y);
        i += 1;
    }
    if low.less(high) {
        high.minus(low)
    } else {
        Single::zero()
    }
}

/// The sort keys of heights: their places in the numeric order.
pub open spec fn height_keys(heights: Seq<Single>) -> Seq<(i64, i64)> {
    Seq::new(heights.len(), |i: int| (order_key(heights[i].bits) as i64, 0i64))
}

/// The indices `0..n`.
pub open spec fn indices(n: nat) -> Seq<usize> {
    Seq::new(n, |i: int| i as usize)
}

/// Heights from the least to the greatest.
pub open spec fn height_at(heights: Seq<Single>, rank: int) -> Single {
    heights[stably_sorted(indices(heights.len()), height_keys(heights))[rank] as int]
}

/// The median of heights, at detection scale: heights multiplied by the
/// downscale that detection applied.
pub open spec fn spec_median_detection_height(heights: Seq<Single>, downscale: Single) -> Single {
    if heights.len() == 0 {
        Single { bits: MAX_BITS }
    } else {
        let middle = heights.len() as int / 2;
        let median = if heights.len() % 2 == 0 {
            height_at(heights, middle - 1).spec_plus(height_at(heights, middle)).spec_over(Single { bits: TWO_BITS })
        } else {
            height_at(heights, middle)
        };
        median.spec_times(downscale)
    }
}

/// Median detected-region height in detection-input pixels.
pub fn median_detection_height(heights: &Vec<Single>, downscale: Single) -> (r: Single)
    requires
        forall|i: int| 0 <= i < heights@.len() ==> !(#[trigger] heights@[i]).spec_nan(),
    ensures
        r == spec_median_detection_height(heights@, downscale),
{
    if heights.len() == 0 {
        return Single { bits: MAX_BITS };
    }
    let mut keys: Vec<(i64, i64)> = Vec::new();
    let mut list: Vec<usize> = Vec::new();
    let mut i: usize = 0;
    while i < heights.len()
        invariant
            i <= heights@.len(),
            keys@ == height_keys(heights@).take(i as int),
            list@ == indices(heights@.len()).take(i as int),
        decreases heights@.len() - i,
    {
        let bits: u32 = heights[i].bits;
        let key: i64 = if bits < SIGN_BIT {
            bits as i64
        } else {
            SIGN_BIT as i64 - bits as i64
        };
        keys.push((key, 0));
        list.push(i);
        i += 1;
        assert(keys@ =~= height_keys(heights@).take(i as int));
        assert(list@ =~= indices(heights@.len()).take(i as int));
    }
    assert(keys@ =~= height_keys(heights@));
    assert(list@ =~= indices(heights@.len()));
    let order = sort_indices(&list, &keys);
    proof {
        crate::sorting::law_sorted_is_an_ordered_permutation(list@, keys@);
        assert forall|k: int| 0 <= k < order@.len() implies #[trigger] order@[k] < heights@.len() by {
            assert(order@.to_multiset().contains(order@[k])) by {
                order@.to_multiset_ensures();
            }
            list@.to_multiset_ensures();
            assert(list@.contains(order@[k]));
        }
        order@.to_multiset_ensures();
        list@.to_multiset_ensures();
    }
    let count: usize = heights.len();
    let middle: usize = count / 2;
    let median = if count % 2 == 0 {
        heights[order[middle - 1]].plus(heights[order[middle]]).over(Single { bits: TWO_BITS })
    } else {
        heights[order[middle]]
    };
    median.times(downscale)
}

/// A standard-limit detection pass over a downscaled page shows dense, small
/// text: the page deserves a second pass at the escalated limit.
pub open spec fn deserves_escalation(median: Single, region_count: nat, downscale: Single) -> bool {
    &&& downscale.spec_less(Single { bits: ONE_BITS })
    &&& region_count >= ESCALATION_MINIMUM_REGIONS
    &&& median.spec_less(Single { bits: ESCALATION_MAXIMUM_MEDIAN_HEIGHT_BITS })
}

pub fn should_escalate_detection(median_detection_height: Single, region_count: usize, downscale: Single) -> (r: bool)
    ensures
        r == deserves_escalation(median_detection_height, region_count as nat, downscale),
{
    downscale.less(Single::one()) && region_count >= ESCALATION_MINIMUM_REGIONS && median_detection_height.less(
        Single { bits: ESCALATION_MAXIMUM_MEDIAN_HEIGHT_BITS },
    )
}

} // verus!
