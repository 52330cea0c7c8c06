//! Preparation: what is extracted, what is suppressed, and which pages are
//! left to OCR.

use crate::hybrid_markdown::document::{
    area_of, box_of_page, collect_page_boxes, counted_pages, document_pages, page_count, Assembly, Detection,
    DetectionConfig, Extraction, MarkdownBackend, PageArea, PdfOptions, PdfType, ProcessMode, RenderContext,
    ScanStrategy, StructTable,
};
use crate::hybrid_markdown::error::{HybridMarkdownError, PdfFailure};
use crate::hybrid_markdown::reasons::{
    by_page, entry_views, merged, table, with_pages, with_reason, OcrReasons, PageOcrReasons,
};
use crate::hybrid_markdown::session::{
    concludes, filter_pages, is_selected, page_selected, render_markdown, request_views, requests_of,
    HybridMarkdownSession, PreparedMarkdown, RenderedMarkdown, SubmittedView,
};
use crate::markdown::preprocess::RoleEntry;
use crate::markdown::MarkdownOptions;
use crate::single::Single;
use crate::text::{is_blank_text, push_text, text_of, trimmed};
use crate::types::{copy_item, views, ItemView, LayoutComplexity, PdfLine, PdfRect, TextItem};
use crate::vision::routing::{all_pages, ascending, has_page, insert_page, page_exists};
use vstd::prelude::*;

verus! {

/// The reason for pages whose text layer cannot be trusted.
pub const OCR_REASON_SUSPECTED_GARBLED_TEXT: &'static str = "suspected_garbled_text";

/// How many items stand for the text of a document.
pub const SAMPLE_ITEMS: usize = 200;

/// `0.95`
pub const SCANNED_CONFIDENCE_BITS: u32 = 0x3f73_3333;

/// The text of the first items that are processed, at most `limit` of them.
pub open spec fn sample(items: Seq<ItemView>, filter: Option<Seq<u32>>, limit: nat) -> Seq<char>
    decreases items.len(),
{
    if items.len() == 0 || limit == 0 {
        Seq::empty()
    } else if is_selected(filter, items[0].page) {
        items[0].text + sample(items.skip(1), filter, (limit - 1) as nat)
    } else {
        sample(items.skip(1), filter, limit)
    }
}

/// The text by which a mixed document is judged.
pub fn sample_text(items: &Vec<TextItem>, filter: &Option<Vec<u32>>) -> (r: String)
    ensures
        r@ == sample(views(items@), filter_pages(*filter), SAMPLE_ITEMS as nat),
{
    let ghost model = views(items@);
    let ghost pages = filter_pages(*filter);
    let ghost whole = sample(model, pages, SAMPLE_ITEMS as nat);
    let mut out: Vec<char> = Vec::new();
    let mut left: usize = SAMPLE_ITEMS;
    let mut i: usize = 0;
    assert(model.skip(0) =~= model);
    assert(out@ + whole =~= whole);
    while i < items.len() && left > 0
        invariant
            i <= items@.len(),
            model == views(items@),
            pages == filter_pages(*filter),
            whole == out@ + sample(model.skip(i as int), pages, left as nat),
        decreases items@.len() - i,
    {
        let ghost rest = model.skip(i as int);
        assert(rest[0] == items@[i as int]@);
        assert(rest.skip(1) =~= model.skip(i + 1));
        if page_selected(filter, items[i].page) {
            let ghost before = out@;
            push_text(&mut out, items[i].text.as_str());
            left -= 1;
            assert(before + (items@[i as int].text@ + sample(model.skip(i + 1), pages, left as nat)) =~= out@ + sample(
                model.skip(i + 1),
                pages,
                left as nat,
            ));
        }
        i += 1;
    }
    assert(out@ =~= whole);
    text_of(&out)
}

/// What follows a first extraction.
pub enum ExtractionStep {
    /// The extraction is good enough.
    Use(Extraction),
    /// The invisible text is extracted too.
    Retry,
    /// The document cannot be read.
    Fail(PdfFailure),
}

/// The step after the first extraction. `poor` says of an extraction that its
/// text is garbage or blank.
pub fn after_first_extraction(pdf_type: PdfType, outcome: Result<Extraction, PdfFailure>, poor: bool) -> (r:
    ExtractionStep)
    ensures
        r == match outcome {
            Ok(extraction) => if pdf_type == PdfType::Mixed && poor {
                ExtractionStep::Retry
            } else {
                ExtractionStep::Use(extraction)
            },
            Err(failure) => if pdf_type == PdfType::Mixed && !failure.is_decompression_limit {
                ExtractionStep::Retry
            } else {
                ExtractionStep::Fail(failure)
            },
        },
{
    match outcome {
        Ok(extraction) => if pdf_type == PdfType::Mixed && poor {
            ExtractionStep::Retry
        } else {
            ExtractionStep::Use(extraction)
        },
        Err(failure) => if pdf_type == PdfType::Mixed && !failure.is_decompression_limit {
            ExtractionStep::Retry
        } else {
            ExtractionStep::Fail(failure)
        },
    }
}

/// The outcome of the last extraction: a mixed document goes on without text,
/// unless a stream was too large.
pub open spec fn last_outcome(pdf_type: PdfType, outcome: Result<Extraction, PdfFailure>) -> Result<
    Option<Extraction>,
    PdfFailure,
> {
    match outcome {
        Ok(extraction) => Ok(Some(extraction)),
        Err(failure) => if pdf_type == PdfType::Mixed && !failure.is_decompression_limit {
            Ok(None)
        } else {
            Err(failure)
        },
    }
}

/// The outcome of the last extraction.
pub fn after_last_extraction(pdf_type: PdfType, outcome: Result<Extraction, PdfFailure>) -> (r: Result<
    Option<Extraction>,
    PdfFailure,
>)
    ensures
        r == last_outcome(pdf_type, outcome),
{
    match outcome {
        Ok(extraction) => Ok(Some(extraction)),
        Err(failure) => if pdf_type == PdfType::Mixed && !failure.is_decompression_limit {
            Ok(None)
        } else {
            Err(failure)
        },
    }
}

/// The native text of the page is suppressed: its fonts have no usable map to
/// text, and the page is processed.
pub open spec fn is_suppressed(pdf_type: PdfType, needing: Seq<u32>, filter: Option<Seq<u32>>, page: u32) -> bool {
    pdf_type == PdfType::TextBased && needing.contains(page) && is_selected(filter, page)
}

/// The pages whose native text is suppressed.
pub fn suppressed_pages(pdf_type: PdfType, needing: &Vec<u32>, filter: &Option<Vec<u32>>) -> (r: Vec<u32>)
    ensures
        ascending(r@),
        forall|page: u32| #[trigger]
            r@.contains(page) <==> is_suppressed(pdf_type, needing@, filter_pages(*filter), page),
{
    let mut pages: Vec<u32> = Vec::new();
    if pdf_type == PdfType::TextBased {
        pages = selected_pages(needing, filter);
    }
    pages
}

/// The pages of a list that are processed, in order and each once.
pub fn selected_pages(list: &Vec<u32>, filter: &Option<Vec<u32>>) -> (r: Vec<u32>)
    ensures
        ascending(r@),
        forall|page: u32| #[trigger]
            r@.contains(page) <==> list@.contains(page) && is_selected(filter_pages(*filter), page),
{
    let ghost wanted = filter_pages(*filter);
    let mut pages: Vec<u32> = Vec::new();
    let mut i: usize = 0;
    while i < list.len()
        invariant
            i <= list@.len(),
            wanted == filter_pages(*filter),
            ascending(pages@),
            forall|page: u32| #[trigger]
                pages@.contains(page) <==> list@.take(i as int).contains(page) && is_selected(wanted, page),
        decreases list@.len() - i,
    {
        let page = list[i];
        let ghost before = pages@;
        let ghost short = list@.take(i as int);
        let ghost long = list@.take(i + 1);
        let selected = page_selected(filter, page);
        if selected {
            insert_page(&mut pages, page);
        }
        proof {
            assert forall|p: u32| #[trigger] pages@.contains(p) <==> long.contains(p) && is_selected(wanted, p) by {
                assert(before.contains(p) <==> short.contains(p) && is_selected(wanted, p));
                assert(long[i as int] == page);
                if short.contains(p) {
                    assert(long[short.index_of(p)] == p);
                }
                if long.contains(p) && p != page {
                    assert(short[long.index_of(p)] == p);
                }
            }
        }
        i += 1;
    }
    assert(list@.take(list@.len() as int) =~= list@);
    pages
}

/// The items that are not on one of the pages.
pub open spec fn items_without(items: Seq<ItemView>, gone: Seq<u32>, n: nat) -> Seq<ItemView>
    decreases n,
{
    if n == 0 {
        Seq::empty()
    } else {
        let before = items_without(items, gone, (n - 1) as nat);
        if gone.contains(items[n - 1].page) {
            before
        } else {
            before.push(items[n - 1])
        }
    }
}

/// The rectangles that are on a processed page and not on one of the pages.
pub open spec fn rects_without(rects: Seq<PdfRect>, gone: Seq<u32>, filter: Option<Seq<u32>>, n: nat) -> Seq<PdfRect>
    decreases n,
{
    if n == 0 {
        Seq::empty()
    } else {
        let before = rects_without(rects, gone, filter, (n - 1) as nat);
        if gone.contains(rects[n - 1].page) || !is_selected(filter, rects[n - 1].page) {
            before
        } else {
            before.push(rects[n - 1])
        }
    }
}

/// The lines that are on a processed page and not on one of the pages.
pub open spec fn lines_without(lines: Seq<PdfLine>, gone: Seq<u32>, filter: Option<Seq<u32>>, n: nat) -> Seq<PdfLine>
    decreases n,
{
    if n == 0 {
        Seq::empty()
    } else {
        let before = lines_without(lines, gone, filter, (n - 1) as nat);
        if gone.contains(lines[n - 1].page) || !is_selected(filter, lines[n - 1].page) {
            before
        } else {
            before.push(lines[n - 1])
        }
    }
}

fn drop_items(items: Vec<TextItem>, gone: &Vec<u32>) -> (r: Vec<TextItem>)
    ensures
        views(r@) == items_without(views(items@), gone@, items@.len()),
{
    let ghost model = views(items@);
    let mut kept: Vec<TextItem> = Vec::new();
    let mut i: usize = 0;
    assert(views(kept@) =~= Seq::empty());
    while i < items.len()
        invariant
            i <= items@.len(),
            model == views(items@),
            views(kept@) == items_without(model, gone@, i as nat),
        decreases items@.len() - i,
    {
        let ghost before = kept@;
        assert(model[i as int] == items@[i as int]@);
        if !has_page(gone, items[i].page) {
            kept.push(copy_item(&items[i]));
            assert(views(kept@) =~= views(before).push(items@[i as int]@));
        }
        i += 1;
    }
    kept
}

fn drop_rects(rects: &Vec<PdfRect>, gone: &Vec<u32>, filter: &Option<Vec<u32>>) -> (r: Vec<PdfRect>)
    ensures
        r@ == rects_without(rects@, gone@, filter_pages(*filter), rects@.len()),
{
    let mut kept: Vec<PdfRect> = Vec::new();
    let mut i: usize = 0;
    while i < rects.len()
        invariant
            i <= rects@.len(),
            kept@ == rects_without(rects@, gone@, filter_pages(*filter), i as nat),
        decreases rects@.len() - i,
    {
        let rect = rects[i];
        if !has_page(gone, rect.page) && page_selected(filter, rect.page) {
            kept.push(rect);
        }
        i += 1;
    }
    kept
}

fn drop_lines(lines: &Vec<PdfLine>, gone: &Vec<u32>, filter: &Option<Vec<u32>>) -> (r: Vec<PdfLine>)
    ensures
        r@ == lines_without(lines@, gone@, filter_pages(*filter), lines@.len()),
{
    let mut kept: Vec<PdfLine> = Vec::new();
    let mut i: usize = 0;
    while i < lines.len()
        invariant
            i <= lines@.len(),
            kept@ == lines_without(lines@, gone@, filter_pages(*filter), i as nat),
        decreases lines@.len() - i,
    {
        let line = lines[i];
        if !has_page(gone, line.page) && page_selected(filter, line.page) {
            kept.push(line);
        }
        i += 1;
    }
    kept
}

/// The reasons of suppressed pages.
pub open spec fn suppression_reasons(gone: Seq<u32>) -> Map<u32, Seq<Seq<char>>> {
    Map::new(|page: u32| gone.contains(page), |page: u32| seq![OCR_REASON_SUSPECTED_GARBLED_TEXT@])
}

/// Notes why pages are suppressed.
pub fn note_suppression(gone: &Vec<u32>) -> (r: OcrReasons)
    ensures
        r.wf(),
        r@ == suppression_reasons(gone@),
{
    let mut reasons = OcrReasons::new();
    let mut i: usize = 0;
    assert(reasons@ =~= suppression_reasons(gone@.take(0)));
    while i < gone.len()
        invariant
            i <= gone@.len(),
            reasons.wf(),
            reasons@ == suppression_reasons(gone@.take(i as int)),
        decreases gone@.len() - i,
    {
        let ghost before = reasons@;
        let page = gone[i];
        reasons.add_reason(page, OCR_REASON_SUSPECTED_GARBLED_TEXT);
        proof {
            let reason = OCR_REASON_SUSPECTED_GARBLED_TEXT@;
            let short = gone@.take(i as int);
            let long = gone@.take(i + 1);
            assert(long =~= short.push(page));
            assert(with_reason(Seq::empty(), reason) =~= seq![reason]) by {
                assert(Seq::<Seq<char>>::empty().push(reason) =~= seq![reason]);
            }
            assert(with_reason(seq![reason], reason) =~= seq![reason]) by {
                assert(seq![reason][0] == reason);
            }
            assert(reasons@ =~= suppression_reasons(long)) by {
                assert forall|p: u32| reasons@.dom().contains(p) <==> suppression_reasons(long).dom().contains(p) by {
                    if short.contains(p) {
                        assert(long[short.index_of(p)] == p);
                    }
                    assert(long[i as int] == page);
                    if long.contains(p) && p != page {
                        assert(short[long.index_of(p)] == p);
                    }
                }
            }
        }
        i += 1;
    }
    assert(gone@.take(gone@.len() as int) =~= gone@);
    reasons
}

/// Every page was extracted without a map from glyphs to text.
pub open spec fn all_unmapped(gid_pages: Seq<u32>, page_count: u32) -> bool {
    gid_pages.len() > 0 && gid_pages.len() >= page_count
}

/// The page is left to OCR.
pub open spec fn needs_ocr(
    forced: bool,
    page_count: u32,
    needing: Seq<u32>,
    gid_pages: Seq<u32>,
    quality_pages: Seq<u32>,
    page: u32,
) -> bool {
    ||| forced && page_exists(page, page_count)
    ||| !forced && needing.contains(page)
    ||| gid_pages.contains(page)
    ||| quality_pages.contains(page)
}

fn insert_all(list: &mut Vec<u32>, more: &Vec<u32>)
    requires
        ascending(old(list)@),
    ensures
        ascending(final(list)@),
        forall|page: u32| #[trigger] final(list)@.contains(page) <==> old(list)@.contains(page) || more@.contains(page),
{
    let ghost start = list@;
    let mut i: usize = 0;
    while i < more.len()
        invariant
            i <= more@.len(),
            ascending(list@),
            forall|page: u32| #[trigger]
                list@.contains(page) <==> start.contains(page) || more@.take(i as int).contains(page),
        decreases more@.len() - i,
    {
        let ghost before = list@;
        let page = more[i];
        insert_page(list, page);
        proof {
            let short = more@.take(i as int);
            let long = more@.take(i + 1);
            assert forall|p: u32| #[trigger] list@.contains(p) <==> start.contains(p) || long.contains(p) by {
                assert(before.contains(p) <==> start.contains(p) || short.contains(p));
                assert(long[i as int] == page);
                if short.contains(p) {
                    assert(long[short.index_of(p)] == p);
                }
                if long.contains(p) && p != page {
                    assert(short[long.index_of(p)] == p);
                }
            }
        }
        i += 1;
    }
    assert(more@.take(more@.len() as int) =~= more@);
}

/// What preparation makes of detection, extraction and the first Markdown
/// pass.
pub open spec fn settles(
    r: PreparedMarkdown,
    detection: Detection,
    items: Seq<ItemView>,
    context: RenderContext,
    rendered: RenderedMarkdown,
    garbage: bool,
    gid_pages: Seq<u32>,
    page_boxes: Seq<PageArea>,
) -> bool {
    let unreadable = rendered.markdown is Some && garbage;
    let scanned = detection.pdf_type == PdfType::Mixed && unreadable;
    let forced = detection.pdf_type == PdfType::TextBased && unreadable;
    &&& r.wf()
    &&& r.pdf_type == if scanned {
        PdfType::Scanned
    } else {
        detection.pdf_type
    }
    &&& r.confidence == if scanned {
        Single { bits: SCANNED_CONFIDENCE_BITS }
    } else {
        detection.confidence
    }
    &&& r.markdown == if scanned || forced || all_unmapped(gid_pages, context.page_count) {
        None
    } else {
        rendered.markdown
    }
    &&& r.has_encoding_issues == (forced || rendered.has_encoding_issues)
    &&& forall|page: u32| #[trigger]
        r.pages_needing_ocr@.contains(page) <==> needs_ocr(
            forced,
            context.page_count,
            detection.pages_needing_ocr@,
            gid_pages,
            rendered.text_quality_pages@,
            page,
        )
    &&& r.ocr_reasons_by_page@ == merged(
        with_pages(
            Map::empty(),
            entry_views(detection.ocr_reasons_by_page@),
            detection.ocr_reasons_by_page@.len(),
        ),
        rendered.ocr_reasons_by_page@,
    )
    &&& r.title == detection.title
    &&& views(r.source_items@) == items
    &&& r.context == context
    &&& r.layout == rendered.layout
    &&& r.page_boxes@ == page_boxes
}

/// Puts together what preparation found. `garbage` says of the Markdown of
/// the first pass that it is no language.
pub fn conclude(
    detection: Detection,
    source_items: Vec<TextItem>,
    context: RenderContext,
    rendered: RenderedMarkdown,
    garbage: bool,
    gid_pages: &Vec<u32>,
    page_boxes: Vec<PageArea>,
) -> (r: PreparedMarkdown)
    requires
        rendered.ocr_reasons_by_page.wf(),
    ensures
        settles(r, detection, views(source_items@), context, rendered, garbage, gid_pages@, page_boxes@),
{
    let unreadable = rendered.markdown.is_some() && garbage;
    let scanned = detection.pdf_type == PdfType::Mixed && unreadable;
    let forced = detection.pdf_type == PdfType::TextBased && unreadable;
    let unmapped = gid_pages.len() > 0 && gid_pages.len() as u64 >= context.page_count as u64;
    let mut pages: Vec<u32> = Vec::new();
    if forced {
        pages = all_pages(context.page_count);
    } else {
        insert_all(&mut pages, &detection.pages_needing_ocr);
    }
    insert_all(&mut pages, gid_pages);
    insert_all(&mut pages, &rendered.text_quality_pages);
    let mut reasons = OcrReasons::new();
    reasons.merge_pages(&detection.ocr_reasons_by_page);
    reasons.merge(&rendered.ocr_reasons_by_page);
    PreparedMarkdown {
        pdf_type: if scanned {
            PdfType::Scanned
        } else {
            detection.pdf_type
        },
        pages_needing_ocr: pages,
        ocr_reasons_by_page: reasons,
        title: detection.title,
        confidence: if scanned {
            Single { bits: SCANNED_CONFIDENCE_BITS }
        } else {
            detection.confidence
        },
        source_items,
        context,
        markdown: if scanned || forced || unmapped {
            None
        } else {
            rendered.markdown
        },
        layout: rendered.layout,
        has_encoding_issues: forced || rendered.has_encoding_issues,
        page_boxes,
    }
}

/// A pass that found nothing.
fn nothing_rendered() -> (r: RenderedMarkdown)
    ensures
        is_empty_pass(r),
{
    RenderedMarkdown {
        markdown: None,
        layout: LayoutComplexity::default(),
        has_encoding_issues: false,
        text_quality_pages: Vec::new(),
        ocr_reasons_by_page: OcrReasons::new(),
    }
}

/// The pass found no Markdown, no layout and no problem.
pub open spec fn is_empty_pass(r: RenderedMarkdown) -> bool {
    &&& r.markdown is None
    &&& !r.layout.is_complex
    &&& r.layout.pages_with_tables@.len() == 0
    &&& r.layout.pages_with_columns@.len() == 0
    &&& !r.has_encoding_issues
    &&& r.text_quality_pages@.len() == 0
    &&& r.ocr_reasons_by_page.wf()
    &&& r.ocr_reasons_by_page@ == Map::<u32, Seq<Seq<char>>>::empty()
}

/// A document without a text layer needs no extraction.
pub open spec fn has_no_text(pdf_type: PdfType) -> bool {
    pdf_type == PdfType::Scanned || pdf_type == PdfType::ImageBased
}

/// What is prepared of a document without a text layer.
pub open spec fn needs_only_ocr(r: PreparedMarkdown, detection: Detection, boxes: Seq<PageArea>) -> bool {
    &&& r.wf()
    &&& r.pdf_type == detection.pdf_type
    &&& forall|page: u32| #[trigger]
        r.pages_needing_ocr@.contains(page) <==> detection.pages_needing_ocr@.contains(page)
    &&& r.ocr_reasons_by_page@ == with_pages(
        Map::empty(),
        entry_views(detection.ocr_reasons_by_page@),
        detection.ocr_reasons_by_page@.len(),
    )
    &&& r.title == detection.title
    &&& r.confidence == detection.confidence
    &&& r.source_items@.len() == 0
    &&& r.context.rects@.len() == 0
    &&& r.context.lines@.len() == 0
    &&& r.context.page_thresholds@.len() == 0
    &&& r.context.struct_roles@.len() == 0
    &&& r.context.struct_tables@.len() == 0
    &&& r.markdown is None
    &&& !r.layout.is_complex
    &&& r.layout.pages_with_tables@.len() == 0
    &&& r.layout.pages_with_columns@.len() == 0
    &&& !r.has_encoding_issues
    &&& r.page_boxes@ == boxes
}

fn prepare_without_text(
    detection: Detection,
    page_count: u32,
    options: PdfOptions,
    page_boxes: Vec<PageArea>,
) -> (r: PreparedMarkdown)
    ensures
        needs_only_ocr(r, detection, page_boxes@),
        r.context.page_count == page_count,
        r.context.page_filter == options.page_filter,
        r.context.markdown_options == options.markdown,
{
    let mut reasons = OcrReasons::new();
    reasons.merge_pages(&detection.ocr_reasons_by_page);
    let mut pages: Vec<u32> = Vec::new();
    insert_all(&mut pages, &detection.pages_needing_ocr);
    PreparedMarkdown {
        pdf_type: detection.pdf_type,
        pages_needing_ocr: pages,
        ocr_reasons_by_page: reasons,
        title: detection.title,
        confidence: detection.confidence,
        source_items: Vec::new(),
        context: RenderContext {
            page_count,
            page_filter: options.page_filter,
            markdown_options: options.markdown,
            rects: Vec::new(),
            lines: Vec::new(),
            page_thresholds: Vec::new(),
            struct_roles: Vec::new(),
            struct_tables: Vec::new(),
        },
        markdown: None,
        layout: LayoutComplexity::default(),
        has_encoding_issues: false,
        page_boxes,
    }
}

/// The backend says of a text whether it is garbage.
pub open spec fn garbage_verdict<B: MarkdownBackend>(backend: &B, text: String, verdict: bool) -> bool {
    call_ensures(B::is_garbage_text, (backend, &text), verdict)
}

/// The items are judged by their sample: it is garbage or blank.
pub open spec fn judged_poor<B: MarkdownBackend>(
    backend: &B,
    items: Seq<ItemView>,
    filter: Option<Seq<u32>>,
    poor: bool,
) -> bool {
    exists|text: String, verdict: bool| #[trigger]
        garbage_verdict(backend, text, verdict) && text@ == sample(items, filter, SAMPLE_ITEMS as nat) && poor == (verdict
            || trimmed(text@).len() == 0)
}

/// The text of a mixed document after an extraction with the invisible text.
pub open spec fn retried<B: MarkdownBackend>(
    backend: &B,
    document: &lopdf::Document,
    filter: &Option<Vec<u32>>,
    limit: Option<usize>,
    text: Result<Option<Extraction>, PdfFailure>,
) -> bool {
    exists|second: Result<Extraction, PdfFailure>| #[trigger]
        call_ensures(B::extract, (backend, document, filter, limit, true), second) && text == last_outcome(
            PdfType::Mixed,
            second,
        )
}

/// How the text of a document comes about: from the visible text, and for a
/// mixed document whose visible text is of no use from the invisible text too.
pub open spec fn extracts<B: MarkdownBackend>(
    backend: &B,
    document: &lopdf::Document,
    pdf_type: PdfType,
    filter: &Option<Vec<u32>>,
    limit: Option<usize>,
    text: Result<Option<Extraction>, PdfFailure>,
) -> bool {
    exists|first: Result<Extraction, PdfFailure>|
        {
            &&& #[trigger] call_ensures(B::extract, (backend, document, filter, limit, false), first)
            &&& match first {
                Ok(extraction) => {
                    let used = text == Ok::<Option<Extraction>, PdfFailure>(Some(extraction));
                    if pdf_type == PdfType::Mixed {
                        ||| judged_poor(backend, views(extraction.items@), filter_pages(*filter), false) && used
                        ||| judged_poor(backend, views(extraction.items@), filter_pages(*filter), true) && retried(
                            backend,
                            document,
                            filter,
                            limit,
                            text,
                        )
                    } else {
                        used
                    }
                },
                Err(failure) => if pdf_type == PdfType::Mixed && !failure.is_decompression_limit {
                    retried(backend, document, filter, limit, text)
                } else {
                    text == Err::<Option<Extraction>, PdfFailure>(failure)
                },
            }
        }
}

/// Extracts the text of a document, with the invisible text of a mixed one
/// whose visible text is of no use.
fn extract_text<B: MarkdownBackend>(
    backend: &B,
    document: &lopdf::Document,
    pdf_type: PdfType,
    filter: &Option<Vec<u32>>,
    limit: Option<usize>,
) -> (r: Result<Option<Extraction>, PdfFailure>)
    ensures
        extracts(backend, document, pdf_type, filter, limit, r),
{
    let first = backend.extract(document, filter, limit, false);
    let ghost once = first;
    let poor = match &first {
        Ok(extraction) => if pdf_type == PdfType::Mixed {
            let text = sample_text(&extraction.items, filter);
            let verdict = backend.is_garbage_text(&text);
            let poor = verdict || is_blank_text(text.as_str());
            proof {
                assert(garbage_verdict(backend, text, verdict));
                assert(judged_poor(backend, views(extraction.items@), filter_pages(*filter), poor));
            }
            poor
        } else {
            false
        },
        Err(_) => false,
    };
    assert(call_ensures(B::extract, (backend, document, filter, limit, false), once));
    match after_first_extraction(pdf_type, first, poor) {
        ExtractionStep::Use(extraction) => Ok(Some(extraction)),
        ExtractionStep::Retry => {
            let second = backend.extract(document, filter, limit, true);
            let ghost again = second;
            let last = after_last_extraction(pdf_type, second);
            assert(call_ensures(B::extract, (backend, document, filter, limit, true), again));
            last
        },
        ExtractionStep::Fail(failure) => Err(failure),
    }
}

/// What of an extraction goes into the Markdown pass.
pub struct Selection {
    pub items: Vec<TextItem>,
    pub context: RenderContext,
    /// The pages whose native text is suppressed.
    pub suppressed: Vec<u32>,
    pub reasons: OcrReasons,
    /// The processed pages whose fonts map glyphs to no text.
    pub gid_pages: Vec<u32>,
}

/// What is selected from an extraction.
pub open spec fn selects(
    r: Selection,
    pdf_type: PdfType,
    needing: Seq<u32>,
    extraction: Extraction,
    filter: Option<Seq<u32>>,
) -> bool {
    &&& ascending(r.suppressed@)
    &&& forall|page: u32| #[trigger]
        r.suppressed@.contains(page) <==> is_suppressed(pdf_type, needing, filter, page)
    &&& views(r.items@) == items_without(views(extraction.items@), r.suppressed@, extraction.items@.len())
    &&& r.context.rects@ == rects_without(extraction.rects@, r.suppressed@, filter, extraction.rects@.len())
    &&& r.context.lines@ == lines_without(extraction.lines@, r.suppressed@, filter, extraction.lines@.len())
    &&& r.context.page_thresholds == extraction.page_thresholds
    &&& filter_pages(r.context.page_filter) == filter
    &&& r.reasons.wf()
    &&& r.reasons@ == suppression_reasons(r.suppressed@)
    &&& ascending(r.gid_pages@)
    &&& forall|page: u32| #[trigger]
        r.gid_pages@.contains(page) <==> extraction.gid_encoded_pages@.contains(page) && is_selected(filter, page)
}

/// Selects what goes into the Markdown pass: nothing from a page whose native
/// text is suppressed, and no drawing from a page that is not processed.
pub fn select_content(
    pdf_type: PdfType,
    needing: &Vec<u32>,
    extraction: Extraction,
    struct_roles: Vec<RoleEntry>,
    struct_tables: Vec<StructTable>,
    page_count: u32,
    page_filter: Option<Vec<u32>>,
    markdown_options: MarkdownOptions,
) -> (r: Selection)
    ensures
        selects(r, pdf_type, needing@, extraction, filter_pages(page_filter)),
        r.context.page_count == page_count,
        r.context.markdown_options == markdown_options,
        r.context.struct_roles == struct_roles,
        r.context.struct_tables == struct_tables,
{
    let suppressed = suppressed_pages(pdf_type, needing, &page_filter);
    let gid_pages = selected_pages(&extraction.gid_encoded_pages, &page_filter);
    let rects = drop_rects(&extraction.rects, &suppressed, &page_filter);
    let lines = drop_lines(&extraction.lines, &suppressed, &page_filter);
    Selection {
        items: drop_items(extraction.items, &suppressed),
        context: RenderContext {
            page_count,
            page_filter,
            markdown_options,
            rects,
            lines,
            page_thresholds: extraction.page_thresholds,
            struct_roles,
            struct_tables,
        },
        reasons: note_suppression(&suppressed),
        suppressed,
        gid_pages,
    }
}

/// The visible areas of the pages of a document.
pub open spec fn areas_of(areas: Seq<PageArea>, document: lopdf::Document) -> bool {
    &&& areas.len() == document_pages(document).len()
    &&& forall|i: int|
        0 <= i < areas.len() ==> #[trigger] areas[i] == area_of(box_of_page(document, document_pages(document)[i]))
}

/// The backend says of the Markdown of a pass whether it is garbage; a pass
/// without Markdown has none.
pub open spec fn markdown_verdict<B: MarkdownBackend>(backend: &B, markdown: Option<String>, garbage: bool) -> bool {
    match markdown {
        Some(text) => garbage_verdict(backend, text, garbage),
        None => !garbage,
    }
}

/// The document is prepared from one Markdown pass over what was selected.
pub open spec fn passes<B: MarkdownBackend>(
    backend: &B,
    r: PreparedMarkdown,
    detection: Detection,
    selection: Selection,
    emit_markdown: bool,
) -> bool {
    exists|sent: Vec<TextItem>, assembly: Assembly, rendered: RenderedMarkdown, garbage: bool|
        {
            &&& views(sent@) == views(selection.items@)
            &&& #[trigger] call_ensures(
                B::assemble,
                (backend, sent, &selection.context, emit_markdown),
                assembly,
            )
            &&& concludes(rendered, assembly, selection.reasons@, emit_markdown)
            &&& markdown_verdict(backend, rendered.markdown, garbage)
            &&& #[trigger] settles(
                r,
                detection,
                views(selection.items@),
                selection.context,
                rendered,
                garbage,
                selection.gid_pages@,
                r.page_boxes@,
            )
        }
}

/// What is prepared of a document with text, given what was extracted.
pub open spec fn prepared_from<B: MarkdownBackend>(
    backend: &B,
    r: PreparedMarkdown,
    document: &lopdf::Document,
    filter: Option<Seq<u32>>,
    mode: ProcessMode,
    detection: Detection,
    extraction: Option<Extraction>,
    roles: Vec<RoleEntry>,
    tables: Vec<StructTable>,
) -> bool {
    &&& call_ensures(B::struct_roles, (backend, document), roles)
    &&& call_ensures(B::struct_tables, (backend, document), tables)
    &&& r.context.struct_roles == roles
    &&& r.context.struct_tables == tables
    &&& match extraction {
        Some(extraction) => exists|selection: Selection|
            {
                &&& #[trigger] selects(
                    selection,
                    detection.pdf_type,
                    detection.pages_needing_ocr@,
                    extraction,
                    filter,
                )
                &&& passes(backend, r, detection, selection, mode != ProcessMode::Analyze)
            },
        None => {
            &&& r.source_items@.len() == 0
            &&& r.context.rects@.len() == 0
            &&& r.context.lines@.len() == 0
            &&& r.context.page_thresholds@.len() == 0
            &&& exists|rendered: RenderedMarkdown|
                {
                    &&& is_empty_pass(rendered)
                    &&& #[trigger] settles(
                        r,
                        detection,
                        Seq::empty(),
                        r.context,
                        rendered,
                        false,
                        Seq::empty(),
                        r.page_boxes@,
                    )
                }
        },
    }
}

/// The backend says what kind of document it is.
pub open spec fn detects<B: MarkdownBackend>(
    backend: &B,
    document: &lopdf::Document,
    page_count: u32,
    options: PdfOptions,
    reply: Result<Detection, PdfFailure>,
) -> bool {
    call_ensures(
        B::detect,
        (backend, document, page_count, &options.detection, options.max_decompressed_size),
        reply,
    )
}

/// What preparation makes of a document once detection has replied, given what
/// extraction, the structure tree and the Markdown pass replied.
pub open spec fn follows_detection<B: MarkdownBackend>(
    backend: &B,
    document: &lopdf::Document,
    page_count: u32,
    options: PdfOptions,
    reply: Result<Detection, PdfFailure>,
    r: Result<PreparedMarkdown, PdfFailure>,
) -> bool {
    match reply {
        Ok(detection) => {
            &&& r matches Ok(prepared) ==> {
                &&& prepared.wf()
                &&& prepared.context.page_count == page_count
                &&& prepared.context.markdown_options == options.markdown
                &&& filter_pages(prepared.context.page_filter) == filter_pages(options.page_filter)
                &&& areas_of(prepared.page_boxes@, *document)
            }
            &&& if has_no_text(detection.pdf_type) {
                r matches Ok(prepared) && needs_only_ocr(prepared, detection, prepared.page_boxes@)
            } else {
                exists|text: Result<Option<Extraction>, PdfFailure>|
                    {
                        &&& #[trigger] extracts(
                            backend,
                            document,
                            detection.pdf_type,
                            &options.page_filter,
                            options.max_decompressed_size,
                            text,
                        )
                        &&& match text {
                            Ok(extraction) => r matches Ok(prepared) && exists|
                                roles: Vec<RoleEntry>,
                                tables: Vec<StructTable>,
                            | #[trigger]
                                prepared_from(
                                    backend,
                                    prepared,
                                    document,
                                    filter_pages(options.page_filter),
                                    options.mode,
                                    detection,
                                    extraction,
                                    roles,
                                    tables,
                                ),
                            Err(failure) => r == Err::<PreparedMarkdown, PdfFailure>(failure),
                        }
                    }
            }
        },
        Err(failure) => r == Err::<PreparedMarkdown, PdfFailure>(failure),
    }
}

/// What preparation makes of a document, given what detection, extraction,
/// the structure tree and the Markdown pass replied.
pub open spec fn prepares<B: MarkdownBackend>(
    backend: &B,
    document: &lopdf::Document,
    page_count: u32,
    options: PdfOptions,
    r: Result<PreparedMarkdown, PdfFailure>,
) -> bool {
    exists|reply: Result<Detection, PdfFailure>| #[trigger]
        detects(backend, document, page_count, options, reply) && follows_detection(
            backend,
            document,
            page_count,
            options,
            reply,
            r,
        )
}

/// A copy of items.
fn copy_all(items: &Vec<TextItem>) -> (r: Vec<TextItem>)
    ensures
        views(r@) == views(items@),
{
    let mut out: Vec<TextItem> = Vec::new();
    let mut i: usize = 0;
    while i < items.len()
        invariant
            i <= items@.len(),
            views(out@) == views(items@).take(i as int),
        decreases items@.len() - i,
    {
        let ghost before = out@;
        out.push(copy_item(&items[i]));
        i += 1;
        assert(views(out@) =~= views(before).push(items@[i - 1]@));
        assert(views(items@).take(i as int) =~= views(items@).take(i - 1).push(items@[i - 1]@));
    }
    assert(views(items@).take(items@.len() as int) =~= views(items@));
    out
}

/// Runs the Markdown pass over what was selected and draws the conclusions.
fn render_selection<B: MarkdownBackend>(
    backend: &B,
    detection: Detection,
    selection: Selection,
    emit_markdown: bool,
    page_boxes: Vec<PageArea>,
) -> (r: PreparedMarkdown)
    requires
        selection.reasons.wf(),
    ensures
        passes(backend, r, detection, selection, emit_markdown),
        r.wf(),
        r.context == selection.context,
        r.page_boxes@ == page_boxes@,
{
    let sent = copy_all(&selection.items);
    let ghost given = sent;
    let ghost all = selection;
    let ghost found = detection;
    let rendered = render_markdown(backend, sent, &selection.context, selection.reasons, emit_markdown);
    let ghost pass = rendered;
    let ghost assembly = choose|assembly: Assembly| #[trigger]
        call_ensures(B::assemble, (backend, given, &all.context, emit_markdown), assembly) && concludes(
            pass,
            assembly,
            all.reasons@,
            emit_markdown,
        );
    let garbage = match &rendered.markdown {
        Some(text) => backend.is_garbage_text(text),
        None => false,
    };
    assert(markdown_verdict(backend, pass.markdown, garbage));
    let r = conclude(
        detection,
        selection.items,
        selection.context,
        rendered,
        garbage,
        &selection.gid_pages,
        page_boxes,
    );
    assert(settles(r, found, views(all.items@), all.context, pass, garbage, all.gid_pages@, r.page_boxes@));
    r
}

/// Detects, extracts and renders a document once.
pub fn prepare_markdown_state<B: MarkdownBackend>(
    backend: &B,
    document: &lopdf::Document,
    page_count: u32,
    options: PdfOptions,
) -> (r: Result<PreparedMarkdown, PdfFailure>)
    ensures
        prepares(backend, document, page_count, options, r),
{
    let reply = backend.detect(document, page_count, &options.detection, options.max_decompressed_size);
    assert(detects(backend, document, page_count, options, reply));
    let ghost replied = reply;
    let ghost asked = options;
    let detection = match reply {
        Ok(detection) => detection,
        Err(failure) => {
            return Err(failure);
        },
    };
    let page_boxes = collect_page_boxes(document);
    if detection.pdf_type == PdfType::Scanned || detection.pdf_type == PdfType::ImageBased {
        return Ok(prepare_without_text(detection, page_count, options, page_boxes));
    }
    let text = extract_text(
        backend,
        document,
        detection.pdf_type,
        &options.page_filter,
        options.max_decompressed_size,
    );
    let ghost extracted = text;
    assert(extracts(
        backend,
        document,
        detection.pdf_type,
        &asked.page_filter,
        asked.max_decompressed_size,
        extracted,
    ));
    let extraction = match text {
        Ok(extraction) => extraction,
        Err(failure) => {
            return Err(failure);
        },
    };
    let struct_roles = backend.struct_roles(document);
    let struct_tables = backend.struct_tables(document);
    let ghost roles = struct_roles;
    let ghost tables = struct_tables;
    let ghost found = detection;
    let emit_markdown = options.mode != ProcessMode::Analyze;
    let prepared = match extraction {
        Some(extraction) => {
            let selection = select_content(
                detection.pdf_type,
                &detection.pages_needing_ocr,
                extraction,
                struct_roles,
                struct_tables,
                page_count,
                options.page_filter,
                options.markdown,
            );
            render_selection(backend, detection, selection, emit_markdown, page_boxes)
        },
        None => {
            let none: Vec<TextItem> = Vec::new();
            let no_pages: Vec<u32> = Vec::new();
            let context = RenderContext {
                page_count,
                page_filter: options.page_filter,
                markdown_options: options.markdown,
                rects: Vec::new(),
                lines: Vec::new(),
                page_thresholds: Vec::new(),
                struct_roles,
                struct_tables,
            };
            let rendered = nothing_rendered();
            let ghost pass = rendered;
            let prepared = conclude(detection, none, context, rendered, false, &no_pages, page_boxes);
            assert(views(none@) =~= Seq::empty());
            assert(prepared.source_items@.len() == views(prepared.source_items@).len());
            assert(settles(prepared, found, Seq::empty(), prepared.context, pass, false, Seq::empty(), prepared.page_boxes@));
            prepared
        },
    };
    assert(prepared_from(
        backend,
        prepared,
        document,
        filter_pages(asked.page_filter),
        asked.mode,
        found,
        extracted->Ok_0,
        roles,
        tables,
    ));
    Ok(prepared)
}

/// The options of a complete session: every page is scanned, and everything
/// is processed.
pub open spec fn complete_options(options: PdfOptions) -> PdfOptions {
    PdfOptions {
        mode: ProcessMode::Full,
        detection: DetectionConfig { strategy: ScanStrategy::Full, ..options.detection },
        ..options
    }
}

/// Prepares a complete Markdown session from an already-loaded document.
///
/// The caller retains ownership of `document`; preparation copies only the
/// extracted and layout state required for the session. Every page is
/// scanned, and everything is processed.
pub fn prepare_hybrid_markdown<B: MarkdownBackend>(
    document: &lopdf::Document,
    backend: &B,
    options: PdfOptions,
) -> (r: Result<HybridMarkdownSession, HybridMarkdownError>)
    ensures
        exists|state: Result<PreparedMarkdown, PdfFailure>|
            {
                &&& #[trigger] prepares(
                    backend,
                    document,
                    counted_pages(*document),
                    complete_options(options),
                    state,
                )
                &&& match state {
                    Ok(prepared) => r matches Ok(session) && {
                        &&& session.wf()
                        &&& session.prepared == prepared
                        &&& !session.finished
                        &&& session.given() == Seq::<SubmittedView>::empty()
                        &&& request_views(session.requests@) == requests_of(
                            prepared.pages_needing_ocr@,
                            filter_pages(prepared.context.page_filter),
                            prepared.page_boxes@,
                            prepared.ocr_reasons_by_page@,
                            prepared.pages_needing_ocr@.len(),
                        )
                    },
                    Err(failure) => r == Err::<HybridMarkdownSession, HybridMarkdownError>(
                        HybridMarkdownError::Pdf(failure),
                    ),
                }
            },
{
    let options = PdfOptions {
        mode: ProcessMode::Full,
        detection: DetectionConfig { strategy: ScanStrategy::Full, ..options.detection },
        ..options
    };
    let count = page_count(document);
    let state = prepare_markdown_state(backend, document, count, options);
    assert(prepares(backend, document, count, options, state));
    match state {
        Ok(prepared) => Ok(HybridMarkdownSession::from_prepared(prepared)),
        Err(failure) => Err(HybridMarkdownError::Pdf(failure)),
    }
}

/// The result of processing a document in one go.
#[derive(Debug)]
pub struct PdfProcessResult {
    pub pdf_type: PdfType,
    pub markdown: Option<String>,
    pub page_count: u32,
    pub processing_time_ms: u64,
    pub pages_needing_ocr: Vec<u32>,
    pub ocr_reasons_by_page: Vec<PageOcrReasons>,
    pub title: Option<String>,
    pub confidence: Single,
    pub layout: LayoutComplexity,
    pub has_encoding_issues: bool,
}

/// What is shown of a document that was only detected.
pub open spec fn presents_detection(r: PdfProcessResult, detection: Detection, page_count: u32) -> bool {
    &&& r.pdf_type == detection.pdf_type
    &&& r.markdown is None
    &&& r.page_count == page_count
    &&& r.pages_needing_ocr == detection.pages_needing_ocr
    &&& by_page(entry_views(r.ocr_reasons_by_page@))
    &&& table(entry_views(r.ocr_reasons_by_page@)) == with_pages(
        Map::empty(),
        entry_views(detection.ocr_reasons_by_page@),
        detection.ocr_reasons_by_page@.len(),
    )
    &&& r.title == detection.title
    &&& r.confidence == detection.confidence
    &&& !r.layout.is_complex
    &&& r.layout.pages_with_tables@.len() == 0
    &&& r.layout.pages_with_columns@.len() == 0
    &&& !r.has_encoding_issues
}

/// The result of detection alone.
pub fn detected_result(detection: Detection, page_count: u32, processing_time_ms: u64) -> (r: PdfProcessResult)
    ensures
        presents_detection(r, detection, page_count),
        r.processing_time_ms == processing_time_ms,
{
    let mut reasons = OcrReasons::new();
    reasons.merge_pages(&detection.ocr_reasons_by_page);
    PdfProcessResult {
        pdf_type: detection.pdf_type,
        markdown: None,
        page_count,
        processing_time_ms,
        pages_needing_ocr: detection.pages_needing_ocr,
        ocr_reasons_by_page: reasons.into_pages(),
        title: detection.title,
        confidence: detection.confidence,
        layout: LayoutComplexity::default(),
        has_encoding_issues: false,
    }
}

/// What is shown of a prepared document.
pub open spec fn presents(r: PdfProcessResult, prepared: PreparedMarkdown) -> bool {
    &&& r.pdf_type == prepared.pdf_type
    &&& r.markdown == prepared.markdown
    &&& r.page_count == prepared.context.page_count
    &&& r.pages_needing_ocr == prepared.pages_needing_ocr
    &&& by_page(entry_views(r.ocr_reasons_by_page@))
    &&& table(entry_views(r.ocr_reasons_by_page@)) == prepared.ocr_reasons_by_page@
    &&& r.title == prepared.title
    &&& r.confidence == prepared.confidence
    &&& r.layout == prepared.layout
    &&& r.has_encoding_issues == prepared.has_encoding_issues
}

/// The result of a prepared document.
pub fn prepared_result(prepared: PreparedMarkdown, processing_time_ms: u64) -> (r: PdfProcessResult)
    requires
        prepared.wf(),
    ensures
        presents(r, prepared),
        r.processing_time_ms == processing_time_ms,
{
    PdfProcessResult {
        pdf_type: prepared.pdf_type,
        markdown: prepared.markdown,
        page_count: prepared.context.page_count,
        processing_time_ms,
        pages_needing_ocr: prepared.pages_needing_ocr,
        ocr_reasons_by_page: prepared.ocr_reasons_by_page.into_pages(),
        title: prepared.title,
        confidence: prepared.confidence,
        layout: prepared.layout,
        has_encoding_issues: prepared.has_encoding_issues,
    }
}

/// Processes a document in one go. Detection alone decides in the mode for
/// it; otherwise the document is prepared. Nothing is stated of the time it
/// took.
pub fn process_document<B: MarkdownBackend>(
    backend: &B,
    document: &lopdf::Document,
    page_count: u32,
    options: PdfOptions,
    started: std::time::Instant,
) -> (r: Result<PdfProcessResult, PdfFailure>)
    ensures
        options.mode == ProcessMode::DetectOnly ==> exists|reply: Result<Detection, PdfFailure>|
            {
                &&& #[trigger] detects(backend, document, page_count, options, reply)
                &&& match reply {
                    Ok(detection) => r matches Ok(result) && presents_detection(result, detection, page_count),
                    Err(failure) => r == Err::<PdfProcessResult, PdfFailure>(failure),
                }
            },
        options.mode != ProcessMode::DetectOnly ==> exists|state: Result<PreparedMarkdown, PdfFailure>|
            {
                &&& #[trigger] prepares(backend, document, page_count, options, state)
                &&& match state {
                    Ok(prepared) => r matches Ok(result) && presents(result, prepared),
                    Err(failure) => r == Err::<PdfProcessResult, PdfFailure>(failure),
                }
            },
{
    if options.mode == ProcessMode::DetectOnly {
        let reply = backend.detect(document, page_count, &options.detection, options.max_decompressed_size);
        assert(detects(backend, document, page_count, options, reply));
        return match reply {
            Ok(detection) => Ok(
                detected_result(detection, page_count, crate::vision::routing::elapsed_ms(started)),
            ),
            Err(failure) => Err(failure),
        };
    }
    let ghost asked = options;
    let state = prepare_markdown_state(backend, document, page_count, options);
    assert(prepares(backend, document, page_count, asked, state));
    match state {
        Ok(prepared) => Ok(prepared_result(prepared, crate::vision::routing::elapsed_ms(started))),
        Err(failure) => Err(failure),
    }
}

} // verus!
