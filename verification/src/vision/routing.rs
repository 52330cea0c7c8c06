//! Page routing and renderer/OCR orchestration without Markdown fusion.

use crate::numbers::{decimal, listed, push_decimal, push_list};
use crate::text::{push_text, text_of};
use crate::vision::ocr::{OcrEngine, OcrMode, OcrOptions, OcrPage, PageRenderer};
use crate::vision::render::{RenderOptions, RenderedPage};
use std::time::Instant;
use vstd::prelude::*;

verus! {

/// A point on the clock that measures stage times.
#[verifier::external_type_specification]
#[verifier::external_body]
pub struct ExInstant(std::time::Instant);

/// A rendered page paired with OCR output in the same bitmap coordinate space.
#[derive(Debug)]
pub struct RoutedOcrPage {
    /// Renderer-owned bitmap and pixel-to-PDF transform.
    pub rendered: RenderedPage,
    /// Positioned OCR spans for the bitmap.
    pub ocr: OcrPage,
}

/// Output of one selective OCR invocation.
#[derive(Debug)]
pub struct OcrRun {
    /// Pages processed in ascending document order.
    pub pages: Vec<RoutedOcrPage>,
    /// Total page-rendering wall time.
    pub render_time_ms: u64,
    /// Total engine wall time.
    pub ocr_time_ms: u64,
}

/// Which list a page number came from.
#[derive(Clone, Copy, Debug, PartialEq, Eq, Structural)]
pub enum PageSource {
    Recommended,
    Selected,
}

impl PageSource {
    pub open spec fn spec_name(self) -> Seq<char> {
        match self {
            PageSource::Recommended => "recommended"@,
            PageSource::Selected => "selected"@,
        }
    }

    pub fn name(self) -> (r: &'static str)
        ensures
            r@ == self.spec_name(),
    {
        match self {
            PageSource::Recommended => "recommended",
            PageSource::Selected => "selected",
        }
    }
}

/// Invalid page routing.
#[derive(Clone, Copy, Debug, PartialEq, Eq, Structural)]
pub enum OcrRoutingError {
    /// A page list contained zero or a page beyond the document.
    InvalidPage {
        /// The list that held the page.
        source_name: PageSource,
        /// Invalid 1-indexed page.
        page: u32,
        /// Document page count.
        page_count: u32,
    },
}

impl OcrRoutingError {
    /// The text of the error.
    pub open spec fn spec_message(self) -> Seq<char> {
        match self {
            OcrRoutingError::InvalidPage { source_name, page, page_count } => source_name.spec_name() + " OCR page "@
                + decimal(page as nat) + " is outside the valid range 1..="@ + decimal(page_count as nat),
        }
    }

    pub fn message(&self) -> (r: String)
        ensures
            r@ == self.spec_message(),
    {
        let mut out: Vec<char> = Vec::new();
        match self {
            OcrRoutingError::InvalidPage { source_name, page, page_count } => {
                push_text(&mut out, source_name.name());
                push_text(&mut out, " OCR page ");
                push_decimal(&mut out, *page as u128);
                push_text(&mut out, " is outside the valid range 1..=");
                push_decimal(&mut out, *page_count as u128);
            },
        }
        assert(out@ =~= self.spec_message());
        text_of(&out)
    }
}

/// The page belongs to a document of so many pages.
pub open spec fn page_exists(page: u32, page_count: u32) -> bool {
    1 <= page <= page_count
}

/// The first page of the list that the document does not have.
pub open spec fn first_invalid(pages: Seq<u32>, page_count: u32) -> Option<u32>
    decreases pages.len(),
{
    if pages.len() == 0 {
        None
    } else {
        match first_invalid(pages.drop_last(), page_count) {
            Some(page) => Some(page),
            None => if page_exists(pages.last(), page_count) {
                None
            } else {
                Some(pages.last())
            },
        }
    }
}

/// Strictly growing numbers: sorted, and none twice.
pub open spec fn ascending(pages: Seq<u32>) -> bool {
    forall|i: int, j: int| 0 <= i < j < pages.len() ==> pages[i] < pages[j]
}

/// The same pages, whatever their order and number.
pub open spec fn same_pages(a: Seq<u32>, b: Seq<u32>) -> bool {
    forall|page: u32| #[trigger] a.contains(page) <==> b.contains(page)
}

proof fn lemma_first_invalid(pages: Seq<u32>, page_count: u32)
    ensures
        first_invalid(pages, page_count) is None <==> (forall|i: int|
            0 <= i < pages.len() ==> page_exists(#[trigger] pages[i], page_count)),
        first_invalid(pages, page_count) matches Some(page) ==> pages.contains(page) && !page_exists(
            page,
            page_count,
        ),
    decreases pages.len(),
{
    if pages.len() > 0 {
        lemma_first_invalid(pages.drop_last(), page_count);
        let front = pages.drop_last();
        assert(forall|i: int| 0 <= i < front.len() ==> front[i] == pages[i]);
        if first_invalid(front, page_count) is None {
            assert forall|i: int| 0 <= i < front.len() implies page_exists(#[trigger] pages[i], page_count) by {
                assert(page_exists(front[i], page_count));
            }
        } else {
            let page = first_invalid(front, page_count)->0;
            let k = front.index_of(page);
            assert(pages[k] == page);
        }
    }
}

/// Adds a page to a sorted list, unless it is there already.
pub(crate) fn insert_page(list: &mut Vec<u32>, page: u32)
    requires
        ascending(old(list)@),
    ensures
        ascending(final(list)@),
        forall|p: u32| #[trigger] final(list)@.contains(p) <==> (old(list)@.contains(p) || p == page),
{
    let ghost before = list@;
    let mut at: usize = list.len();
    while at > 0 && list[at - 1] > page
        invariant
            at <= list@.len(),
            list@ == before,
            forall|i: int| at <= i < before.len() ==> before[i] > page,
        decreases at,
    {
        at -= 1;
    }
    if at > 0 && list[at - 1] == page {
        assert(before.contains(page)) by {
            assert(before[at - 1] == page);
        }
        return;
    }
    assert forall|i: int| 0 <= i < at implies before[i] < page by {
        if i < at - 1 {
            assert(before[i] < before[at - 1]);
        }
    }
    list.insert(at, page);
    let ghost after = list@;
    proof {
        assert(after =~= before.insert(at as int, page));
        assert forall|p: u32| #[trigger] after.contains(p) <==> (before.contains(p) || p == page) by {
            if before.contains(p) {
                let k = before.index_of(p);
                if k < at {
                    assert(after[k] == p);
                } else {
                    assert(after[k + 1] == p);
                }
            }
            if p == page {
                assert(after[at as int] == p);
            }
            if after.contains(p) {
                let k = after.index_of(p);
                if k < at {
                    assert(before[k] == p);
                } else if k > at {
                    assert(before[k - 1] == p);
                }
            }
        }
    }
}

/// The pages of a list, sorted and each once, or the first one that the
/// document does not have.
fn validated_page_set(source_name: PageSource, pages: &Vec<u32>, page_count: u32) -> (r: Result<
    Vec<u32>,
    OcrRoutingError,
>)
    ensures
        match r {
            Ok(set) => first_invalid(pages@, page_count) is None && ascending(set@) && same_pages(set@, pages@),
            Err(error) => first_invalid(pages@, page_count) matches Some(page) && error
                == (OcrRoutingError::InvalidPage { source_name, page, page_count }),
        },
{
    let mut result: Vec<u32> = Vec::new();
    let mut i: usize = 0;
    while i < pages.len()
        invariant
            i <= pages@.len(),
            first_invalid(pages@.take(i as int), page_count) is None,
            ascending(result@),
            same_pages(result@, pages@.take(i as int)),
        decreases pages@.len() - i,
    {
        let page = pages[i];
        let ghost longer = pages@.take(i + 1);
        assert(longer.drop_last() =~= pages@.take(i as int));
        if page == 0 || page > page_count {
            proof {
                lemma_invalid_stays(pages@, (i + 1) as nat, page_count);
            }
            return Err(OcrRoutingError::InvalidPage { source_name, page, page_count });
        }
        insert_page(&mut result, page);
        proof {
            assert forall|p: u32| #[trigger] result@.contains(p) <==> longer.contains(p) by {
                let shorter = pages@.take(i as int);
                assert(result@.contains(p) <==> (shorter.contains(p) || p == page));
                if shorter.contains(p) {
                    assert(longer[shorter.index_of(p)] == p);
                }
                if p == page {
                    assert(longer[i as int] == p);
                }
                if longer.contains(p) && p != page {
                    let k = longer.index_of(p);
                    assert(shorter[k] == p);
                }
            }
        }
        i += 1;
    }
    assert(pages@.take(pages@.len() as int) =~= pages@);
    Ok(result)
}

proof fn lemma_invalid_stays(pages: Seq<u32>, n: nat, page_count: u32)
    requires
        n <= pages.len(),
        first_invalid(pages.take(n as int), page_count) is Some,
    ensures
        first_invalid(pages, page_count) == first_invalid(pages.take(n as int), page_count),
    decreases pages.len(),
{
    if n < pages.len() {
        assert(pages.drop_last().take(n as int) =~= pages.take(n as int));
        lemma_invalid_stays(pages.drop_last(), n, page_count);
    } else {
        assert(pages.take(n as int) =~= pages);
    }
}

/// What makes routing fail: the first invalid page of the lists that the mode
/// looks at, the recommendations before the selection.
pub open spec fn routing_fault(
    mode: OcrMode,
    page_count: u32,
    recommended: Seq<u32>,
    selected: Option<Seq<u32>>,
) -> Option<OcrRoutingError> {
    let in_selection = match selected {
        Some(pages) => match first_invalid(pages, page_count) {
            Some(page) => Some(
                OcrRoutingError::InvalidPage { source_name: PageSource::Selected, page, page_count },
            ),
            None => None,
        },
        None => None,
    };
    match mode {
        OcrMode::Off => None,
        OcrMode::Auto => match first_invalid(recommended, page_count) {
            Some(page) => Some(
                OcrRoutingError::InvalidPage { source_name: PageSource::Recommended, page, page_count },
            ),
            None => in_selection,
        },
        OcrMode::Force => in_selection,
    }
}

/// The page goes through OCR.
pub open spec fn routed(
    mode: OcrMode,
    page_count: u32,
    recommended: Seq<u32>,
    selected: Option<Seq<u32>>,
    page: u32,
) -> bool {
    let wanted = match selected {
        Some(pages) => pages.contains(page),
        None => page_exists(page, page_count),
    };
    match mode {
        OcrMode::Off => false,
        OcrMode::Auto => recommended.contains(page) && wanted,
        OcrMode::Force => wanted,
    }
}

/// The pages of an optional selection.
pub open spec fn selection(selected: Option<&Vec<u32>>) -> Option<Seq<u32>> {
    match selected {
        Some(pages) => Some(pages@),
        None => None,
    }
}

/// The pages of the first list that are in the second, in their order.
fn retain_pages(list: &Vec<u32>, keep: &Vec<u32>) -> (r: Vec<u32>)
    requires
        ascending(list@),
    ensures
        ascending(r@),
        forall|p: u32| #[trigger] r@.contains(p) <==> (list@.contains(p) && keep@.contains(p)),
{
    let mut out: Vec<u32> = Vec::new();
    let mut i: usize = 0;
    while i < list.len()
        invariant
            i <= list@.len(),
            ascending(list@),
            ascending(out@),
            forall|k: int| 0 <= k < out@.len() && i < list@.len() ==> #[trigger] out@[k] < list@[i as int],
            forall|p: u32| #[trigger]
                out@.contains(p) <==> (list@.take(i as int).contains(p) && keep@.contains(p)),
        decreases list@.len() - i,
    {
        let page = list[i];
        let ghost shorter = list@.take(i as int);
        let ghost longer = list@.take(i + 1);
        let ghost before = out@;
        let kept = has_page(keep, page);
        if kept {
            out.push(page);
        }
        proof {
            assert forall|p: u32| #[trigger] out@.contains(p) <==> (longer.contains(p) && keep@.contains(p)) by {
                assert(before.contains(p) <==> (shorter.contains(p) && keep@.contains(p)));
                if shorter.contains(p) {
                    assert(longer[shorter.index_of(p)] == p);
                }
                if longer.contains(p) && p != page {
                    assert(shorter[longer.index_of(p)] == p);
                }
                assert(longer[i as int] == page);
                if kept {
                    assert(out@[out@.len() - 1] == page);
                    if before.contains(p) {
                        assert(out@[before.index_of(p)] == p);
                    }
                    if out@.contains(p) && p != page {
                        assert(before[out@.index_of(p)] == p);
                    }
                }
            }
            assert forall|k: int| 0 <= k < out@.len() && i + 1 < list@.len() implies #[trigger] out@[k]
                < list@[i + 1] by {
                if k < before.len() {
                    assert(before[k] < list@[i as int]);
                }
            }
        }
        i += 1;
    }
    assert(list@.take(list@.len() as int) =~= list@);
    out
}

/// Whether a page is in a list.
pub(crate) fn has_page(list: &Vec<u32>, page: u32) -> (r: bool)
    ensures
        r == list@.contains(page),
{
    let mut i: usize = 0;
    while i < list.len()
        invariant
            i <= list@.len(),
            forall|k: int| 0 <= k < i ==> list@[k] != page,
        decreases list@.len() - i,
    {
        if list[i] == page {
            assert(list@[i as int] == page);
            return true;
        }
        i += 1;
    }
    false
}

/// Every page of a document.
pub(crate) fn all_pages(page_count: u32) -> (r: Vec<u32>)
    ensures
        ascending(r@),
        forall|p: u32| #[trigger] r@.contains(p) <==> page_exists(p, page_count),
{
    let mut out: Vec<u32> = Vec::new();
    let mut next: u32 = 0;
    while next < page_count
        invariant
            next <= page_count,
            out@.len() == next,
            forall|k: int| 0 <= k < next ==> #[trigger] out@[k] == k + 1,
        decreases page_count - next,
    {
        next += 1;
        out.push(next);
    }
    assert forall|p: u32| #[trigger] out@.contains(p) <==> page_exists(p, page_count) by {
        if page_exists(p, page_count) {
            assert(out@[p - 1] == p);
        }
    }
    out
}

/// Selects 1-indexed pages for OCR.
///
/// `recommended_pages` comes from detector and text quality signals.
/// `selected_pages` is an optional user page filter. Results are validated,
/// deduplicated, and returned in document order.
pub fn route_ocr_pages(
    mode: OcrMode,
    page_count: u32,
    recommended_pages: &Vec<u32>,
    selected_pages: Option<&Vec<u32>>,
) -> (r: Result<Vec<u32>, OcrRoutingError>)
    ensures
        match r {
            Ok(pages) => {
                &&& routing_fault(mode, page_count, recommended_pages@, selection(selected_pages)) is None
                &&& ascending(pages@)
                &&& forall|p: u32| #[trigger]
                    pages@.contains(p) <==> routed(
                        mode,
                        page_count,
                        recommended_pages@,
                        selection(selected_pages),
                        p,
                    )
            },
            Err(error) => routing_fault(mode, page_count, recommended_pages@, selection(selected_pages)) == Some(
                error,
            ),
        },
{
    match mode {
        OcrMode::Off => Ok(Vec::new()),
        OcrMode::Auto => {
            let set = match validated_page_set(PageSource::Recommended, recommended_pages, page_count) {
                Ok(set) => set,
                Err(error) => {
                    return Err(error);
                },
            };
            match selected_pages {
                Some(selected) => {
                    let keep = match validated_page_set(PageSource::Selected, selected, page_count) {
                        Ok(keep) => keep,
                        Err(error) => {
                            return Err(error);
                        },
                    };
                    Ok(retain_pages(&set, &keep))
                },
                None => {
                    proof {
                        lemma_first_invalid(recommended_pages@, page_count);
                    }
                    Ok(set)
                },
            }
        },
        OcrMode::Force => match selected_pages {
            Some(selected) => validated_page_set(PageSource::Selected, selected, page_count),
            None => Ok(all_pages(page_count)),
        },
    }
}

/// The work that a page went through.
#[derive(Clone, Copy, Debug, PartialEq, Eq, Structural)]
pub enum OcrStage {
    Renderer,
    Engine,
}

impl OcrStage {
    pub open spec fn spec_name(self) -> Seq<char> {
        match self {
            OcrStage::Renderer => "renderer"@,
            OcrStage::Engine => "OCR engine"@,
        }
    }

    pub fn name(self) -> (r: &'static str)
        ensures
            r@ == self.spec_name(),
    {
        match self {
            OcrStage::Renderer => "renderer",
            OcrStage::Engine => "OCR engine",
        }
    }
}

/// Failures while rendering and recognizing a routed page set.
#[derive(Debug)]
pub enum OcrRunError {
    /// A non-empty route cannot execute with OCR disabled.
    OcrDisabled,
    /// Page rasterization failed.
    Render {
        /// Message of the renderer.
        source: String,
    },
    /// OCR inference failed.
    Ocr {
        /// Message of the engine.
        source: String,
    },
    /// A dependency returned the wrong count or order.
    PageOrderMismatch {
        /// Dependency boundary that violated the contract.
        stage: OcrStage,
        /// Requested 1-indexed pages.
        expected: Vec<u32>,
        /// Returned 1-indexed pages.
        actual: Vec<u32>,
    },
}

impl OcrRunError {
    /// The text of the error.
    pub open spec fn spec_message(self) -> Seq<char> {
        match self {
            OcrRunError::OcrDisabled => "cannot process routed pages while OCR mode is Off"@,
            OcrRunError::Render { source } => "page rendering failed: "@ + source@,
            OcrRunError::Ocr { source } => "OCR inference failed: "@ + source@,
            OcrRunError::PageOrderMismatch { stage, expected, actual } => stage.spec_name() + " returned pages ["@
                + listed(actual@, ", "@, actual@.len()) + "]; expected ["@ + listed(
                expected@,
                ", "@,
                expected@.len(),
            ) + "]"@,
        }
    }

    pub fn message(&self) -> (r: String)
        ensures
            r@ == self.spec_message(),
    {
        let mut out: Vec<char> = Vec::new();
        match self {
            OcrRunError::OcrDisabled => {
                push_text(&mut out, "cannot process routed pages while OCR mode is Off");
            },
            OcrRunError::Render { source } => {
                push_text(&mut out, "page rendering failed: ");
                push_text(&mut out, source.as_str());
            },
            OcrRunError::Ocr { source } => {
                push_text(&mut out, "OCR inference failed: ");
                push_text(&mut out, source.as_str());
            },
            OcrRunError::PageOrderMismatch { stage, expected, actual } => {
                push_text(&mut out, stage.name());
                push_text(&mut out, " returned pages [");
                push_list(&mut out, actual, ", ");
                push_text(&mut out, "]; expected [");
                push_list(&mut out, expected, ", ");
                push_text(&mut out, "]");
            },
        }
        assert(out@ =~= self.spec_message());
        text_of(&out)
    }
}

/// The page numbers of rendered pages.
pub open spec fn rendered_numbers(pages: Seq<RenderedPage>) -> Seq<u32> {
    Seq::new(pages.len(), |i: int| pages[i]@.page)
}

/// The page numbers of recognized pages.
pub open spec fn recognized_numbers(pages: Seq<OcrPage>) -> Seq<u32> {
    Seq::new(pages.len(), |i: int| pages[i].page_number)
}

fn numbers_of_rendered(pages: &Vec<RenderedPage>) -> (r: Vec<u32>)
    ensures
        r@ == rendered_numbers(pages@),
{
    let mut out: Vec<u32> = Vec::new();
    let mut i: usize = 0;
    while i < pages.len()
        invariant
            i <= pages@.len(),
            out@ == rendered_numbers(pages@).take(i as int),
        decreases pages@.len() - i,
    {
        out.push(pages[i].page());
        i += 1;
        assert(out@ =~= rendered_numbers(pages@).take(i as int));
    }
    assert(out@ =~= rendered_numbers(pages@));
    out
}

fn numbers_of_recognized(pages: &Vec<OcrPage>) -> (r: Vec<u32>)
    ensures
        r@ == recognized_numbers(pages@),
{
    let mut out: Vec<u32> = Vec::new();
    let mut i: usize = 0;
    while i < pages.len()
        invariant
            i <= pages@.len(),
            out@ == recognized_numbers(pages@).take(i as int),
        decreases pages@.len() - i,
    {
        out.push(pages[i].page_number);
        i += 1;
        assert(out@ =~= recognized_numbers(pages@).take(i as int));
    }
    assert(out@ =~= recognized_numbers(pages@));
    out
}

/// The error for pages that came back in another number or order.
pub open spec fn is_mismatch(error: OcrRunError, stage: OcrStage, expected: Seq<u32>, actual: Seq<u32>) -> bool {
    error matches OcrRunError::PageOrderMismatch { stage: s, expected: e, actual: a } && s == stage && e@ == expected
        && a@ == actual
}

/// Accepts the pages that a stage returned only if they are those asked for.
fn validate_page_order(stage: OcrStage, expected: &Vec<u32>, actual: Vec<u32>) -> (r: Result<(), OcrRunError>)
    ensures
        match r {
            Ok(_) => actual@ == expected@,
            Err(error) => actual@ != expected@ && is_mismatch(error, stage, expected@, actual@),
        },
{
    let mut same: bool = actual.len() == expected.len();
    let mut copied: Vec<u32> = Vec::new();
    let mut i: usize = 0;
    assert(actual@.take(0) =~= expected@.take(0));
    while i < expected.len()
        invariant
            i <= expected@.len(),
            copied@ == expected@.take(i as int),
            same == (actual@.len() == expected@.len() && actual@.take(i as int) == expected@.take(i as int)),
        decreases expected@.len() - i,
    {
        copied.push(expected[i]);
        let ghost was = same;
        if same && actual[i] != expected[i] {
            same = false;
        }
        proof {
            assert(copied@ =~= expected@.take(i + 1));
            if was {
                assert(actual@.take(i + 1) =~= actual@.take(i as int).push(actual@[i as int]));
                assert(expected@.take(i + 1) =~= expected@.take(i as int).push(expected@[i as int]));
                if !same {
                    assert(actual@.take(i + 1)[i as int] != expected@.take(i + 1)[i as int]);
                }
            } else if actual@.len() == expected@.len() && actual@.take(i + 1) == expected@.take(i + 1) {
                assert(actual@.take(i as int) =~= actual@.take(i + 1).take(i as int));
                assert(expected@.take(i as int) =~= expected@.take(i + 1).take(i as int));
            }
        }
        i += 1;
    }
    assert(expected@.take(expected@.len() as int) =~= expected@);
    proof {
        if actual@.len() == expected@.len() {
            assert(actual@.take(expected@.len() as int) =~= actual@);
        }
    }
    if same {
        Ok(())
    } else {
        Err(OcrRunError::PageOrderMismatch { stage, expected: copied, actual })
    }
}

/// The run pairs each rendered page with the recognized one of the same place.
pub open spec fn pairs_up(
    run: OcrRun,
    rendered: Seq<RenderedPage>,
    recognized: Seq<OcrPage>,
    render_time_ms: u64,
    ocr_time_ms: u64,
) -> bool {
    &&& run.pages@.len() == rendered.len()
    &&& rendered.len() == recognized.len()
    &&& forall|i: int|
        0 <= i < rendered.len() ==> (#[trigger] run.pages@[i]).rendered == rendered[i] && run.pages@[i].ocr
            == recognized[i]
    &&& run.render_time_ms == render_time_ms
    &&& run.ocr_time_ms == ocr_time_ms
}

/// The outcome once both stages have answered.
pub fn assemble_run(
    pages: &Vec<u32>,
    rendered: Vec<RenderedPage>,
    recognized: Vec<OcrPage>,
    render_time_ms: u64,
    ocr_time_ms: u64,
) -> (r: Result<OcrRun, OcrRunError>)
    ensures
        match r {
            Ok(run) => {
                &&& rendered_numbers(rendered@) == pages@
                &&& recognized_numbers(recognized@) == pages@
                &&& pairs_up(run, rendered@, recognized@, render_time_ms, ocr_time_ms)
            },
            Err(error) => if rendered_numbers(rendered@) != pages@ {
                is_mismatch(error, OcrStage::Renderer, pages@, rendered_numbers(rendered@))
            } else {
                recognized_numbers(recognized@) != pages@ && is_mismatch(
                    error,
                    OcrStage::Engine,
                    pages@,
                    recognized_numbers(recognized@),
                )
            },
        },
{
    if let Err(error) = validate_page_order(OcrStage::Renderer, pages, numbers_of_rendered(&rendered)) {
        return Err(error);
    }
    if let Err(error) = validate_page_order(OcrStage::Engine, pages, numbers_of_recognized(&recognized)) {
        return Err(error);
    }
    let ghost bitmaps = rendered@;
    let ghost texts = recognized@;
    proof {
        assert(rendered_numbers(bitmaps).len() == recognized_numbers(texts).len());
    }
    let mut rendered = rendered;
    let mut recognized = recognized;
    let mut backwards: Vec<RoutedOcrPage> = Vec::new();
    while rendered.len() > 0
        invariant
            rendered@.len() == recognized@.len(),
            bitmaps.len() == texts.len(),
            rendered@ == bitmaps.take(rendered@.len() as int),
            recognized@ == texts.take(rendered@.len() as int),
            rendered@.len() + backwards@.len() == bitmaps.len(),
            forall|i: int|
                0 <= i < backwards@.len() ==> (#[trigger] backwards@[i]).rendered == bitmaps[bitmaps.len() - 1 - i]
                    && backwards@[i].ocr == texts[bitmaps.len() - 1 - i],
        decreases rendered@.len(),
    {
        if let (Some(bitmap), Some(text)) = (rendered.pop(), recognized.pop()) {
            backwards.push(RoutedOcrPage { rendered: bitmap, ocr: text });
        }
        assert(rendered@ =~= bitmaps.take(rendered@.len() as int));
        assert(recognized@ =~= texts.take(rendered@.len() as int));
    }
    let mut paired: Vec<RoutedOcrPage> = Vec::new();
    while backwards.len() > 0
        invariant
            bitmaps.len() == texts.len(),
            backwards@.len() + paired@.len() == bitmaps.len(),
            forall|i: int|
                0 <= i < backwards@.len() ==> (#[trigger] backwards@[i]).rendered == bitmaps[bitmaps.len() - 1 - i]
                    && backwards@[i].ocr == texts[bitmaps.len() - 1 - i],
            forall|i: int|
                0 <= i < paired@.len() ==> (#[trigger] paired@[i]).rendered == bitmaps[i] && paired@[i].ocr
                    == texts[i],
        decreases backwards@.len(),
    {
        if let Some(page) = backwards.pop() {
            paired.push(page);
        }
    }
    Ok(OcrRun { pages: paired, render_time_ms, ocr_time_ms })
}

/// `std::time::Instant::now`. Nothing is claimed of the time it reads.
#[verifier::external_body]
fn clock() -> Instant {
    Instant::now()
}

/// `Instant::elapsed` in whole milliseconds. Nothing is claimed of the time
/// that has passed.
#[verifier::external_body]
fn milliseconds_since(started: Instant) -> u128 {
    started.elapsed().as_millis()
}

/// A duration in milliseconds that no longer counts once the counter is full.
pub fn saturated_ms(milliseconds: u128) -> (r: u64)
    ensures
        r == if milliseconds <= u64::MAX {
            milliseconds as u64
        } else {
            u64::MAX
        },
{
    if milliseconds <= u64::MAX as u128 {
        milliseconds as u64
    } else {
        u64::MAX
    }
}

pub(crate) fn elapsed_ms(started: Instant) -> u64 {
    saturated_ms(milliseconds_since(started))
}

/// Renders and recognizes already-routed pages while retaining transforms for
/// the following fusion layer.
///
/// An empty page list returns without calling either dependency, which keeps
/// model resolution and inference lazy when Auto routing finds no OCR work.
pub fn run_ocr_pages<R: PageRenderer, O: OcrEngine>(
    renderer: &R,
    engine: &O,
    pdf_bytes: &Vec<u8>,
    pages: &Vec<u32>,
    password: Option<&str>,
    render_options: &RenderOptions,
    ocr_options: &OcrOptions,
) -> (r: Result<OcrRun, OcrRunError>)
    ensures
        pages@.len() == 0 ==> (r matches Ok(run) && run.pages@.len() == 0 && run.render_time_ms == 0
            && run.ocr_time_ms == 0),
        r matches Err(OcrRunError::OcrDisabled) <==> pages@.len() > 0 && ocr_options.mode == OcrMode::Off,
        r matches Ok(run) ==> {
            &&& run.pages@.len() == pages@.len()
            &&& forall|i: int|
                0 <= i < pages@.len() ==> (#[trigger] run.pages@[i]).rendered@.page == pages@[i]
                    && run.pages@[i].ocr.page_number == pages@[i]
        },
        r matches Err(OcrRunError::PageOrderMismatch { stage, expected, actual }) ==> expected@ == pages@ && actual@
            != pages@,
        pages@.len() > 0 && ocr_options.mode != OcrMode::Off ==> {
            ||| r matches Err(OcrRunError::Render { source }) && call_ensures(
                R::render_pages,
                (renderer, pdf_bytes, pages, password, render_options),
                Err(source),
            )
            ||| exists|rendered: Vec<RenderedPage>|
                #![trigger rendered@]
                {
                    &&& call_ensures(
                        R::render_pages,
                        (renderer, pdf_bytes, pages, password, render_options),
                        Ok(rendered),
                    )
                    &&& if rendered_numbers(rendered@) != pages@ {
                        r is Err && is_mismatch(
                            r->Err_0,
                            OcrStage::Renderer,
                            pages@,
                            rendered_numbers(rendered@),
                        )
                    } else {
                        exists|answer: Result<Vec<OcrPage>, String>|
                            {
                                &&& #[trigger] call_ensures(O::recognize, (engine, &rendered, ocr_options), answer)
                                &&& match answer {
                                    Err(source) => r == Err::<OcrRun, OcrRunError>(OcrRunError::Ocr { source }),
                                    Ok(recognized) => if recognized_numbers(recognized@) != pages@ {
                                        r is Err && is_mismatch(
                                            r->Err_0,
                                            OcrStage::Engine,
                                            pages@,
                                            recognized_numbers(recognized@),
                                        )
                                    } else {
                                        r matches Ok(run) && pairs_up(
                                            run,
                                            rendered@,
                                            recognized@,
                                            run.render_time_ms,
                                            run.ocr_time_ms,
                                        )
                                    },
                                }
                            }
                    }
                }
        },
{
    if pages.len() == 0 {
        return Ok(OcrRun { pages: Vec::new(), render_time_ms: 0, ocr_time_ms: 0 });
    }
    if ocr_options.mode == OcrMode::Off {
        return Err(OcrRunError::OcrDisabled);
    }
    let render_started = clock();
    let rendered = match renderer.render_pages(pdf_bytes, pages, password, render_options) {
        Ok(rendered) => rendered,
        Err(source) => {
            return Err(OcrRunError::Render { source });
        },
    };
    let render_time_ms = elapsed_ms(render_started);
    let ghost bitmaps = rendered@;
    if let Err(error) = validate_page_order(OcrStage::Renderer, pages, numbers_of_rendered(&rendered)) {
        return Err(error);
    }
    let ocr_started = clock();
    let answer = engine.recognize(&rendered, ocr_options);
    let ghost replied = answer;
    let recognized = match answer {
        Ok(recognized) => recognized,
        Err(source) => {
            return Err(OcrRunError::Ocr { source });
        },
    };
    let ocr_time_ms = elapsed_ms(ocr_started);
    let ghost texts = recognized@;
    let run = assemble_run(pages, rendered, recognized, render_time_ms, ocr_time_ms);
    proof {
        if run is Ok {
            assert forall|i: int| 0 <= i < pages@.len() implies (#[trigger] run->Ok_0.pages@[i]).rendered@.page
                == pages@[i] && run->Ok_0.pages@[i].ocr.page_number == pages@[i] by {
                assert(rendered_numbers(bitmaps)[i] == pages@[i]);
                assert(recognized_numbers(texts)[i] == pages@[i]);
            }
            assert(rendered_numbers(bitmaps).len() == pages@.len());
        }
    }
    run
}

/// A route is sorted, holds no page twice and none beyond the document, and
/// keeps to the selection. Off routes nothing, and Auto routes nothing that
/// was not recommended.
pub proof fn law_routes_stay_in_the_document(
    mode: OcrMode,
    page_count: u32,
    recommended: Seq<u32>,
    selected: Option<Seq<u32>>,
    page: u32,
)
    requires
        routing_fault(mode, page_count, recommended, selected) is None,
        routed(mode, page_count, recommended, selected, page),
    ensures
        page_exists(page, page_count),
        selected matches Some(pages) ==> pages.contains(page),
        mode != OcrMode::Off,
        mode == OcrMode::Auto ==> recommended.contains(page),
{
    lemma_first_invalid(recommended, page_count);
    match selected {
        Some(pages) => {
            lemma_first_invalid(pages, page_count);
            if pages.contains(page) {
                assert(page_exists(pages[pages.index_of(page)], page_count));
            }
        },
        None => {},
    }
    if mode == OcrMode::Auto {
        assert(page_exists(recommended[recommended.index_of(page)], page_count));
    }
}

/// There is one sorted list of given pages: a route is determined by the pages
/// that it holds.
pub proof fn law_a_route_is_determined(a: Seq<u32>, b: Seq<u32>)
    requires
        ascending(a),
        ascending(b),
        same_pages(a, b),
    ensures
        a == b,
    decreases a.len(),
{
    if a.len() == 0 {
        if b.len() > 0 {
            assert(b.contains(b[0]));
            assert(a.contains(b[0]));
        }
        assert(a =~= b);
    } else {
        assert(a.contains(a.last()));
        assert(b.contains(a.last()));
        let k = b.index_of(a.last());
        assert(b.contains(b.last()));
        assert(a.contains(b.last()));
        let j = a.index_of(b.last());
        assert(b.last() == a.last());
        let x = a.drop_last();
        let y = b.drop_last();
        assert forall|page: u32| #[trigger] x.contains(page) <==> y.contains(page) by {
            if x.contains(page) {
                let i = x.index_of(page);
                assert(a[i] == page);
                assert(a.contains(page));
                assert(b.contains(page));
                let t = b.index_of(page);
                assert(y[t] == page);
            }
            if y.contains(page) {
                let i = y.index_of(page);
                assert(b[i] == page);
                assert(b.contains(page));
                assert(a.contains(page));
                let t = a.index_of(page);
                assert(x[t] == page);
            }
        }
        law_a_route_is_determined(x, y);
        assert(a =~= x.push(a.last()));
        assert(b =~= y.push(b.last()));
    }
}

} // verus!
