//! A resumable document-level Markdown session.

use crate::hybrid_markdown::document::{letter_area, Assembly, MarkdownBackend, PageArea, PdfType, RenderContext};
use crate::hybrid_markdown::error::HybridMarkdownError;
use crate::hybrid_markdown::laws::law_requests_ascend;
use crate::hybrid_markdown::reasons::{copy_strings, entry_views, reasons_of, with_pages, OcrReasons};
use crate::hybrid_markdown::tokens::{
    first_fault, ocr_tokens_to_items, refuses, token_items, token_views, OcrPageRequest, OcrPageResult,
};
use crate::single::Single;
use crate::text::strings;
use crate::types::{copy_item, views, ItemView, LayoutComplexity, TextItem};
use crate::vision::routing::{ascending, has_page};
use vstd::prelude::*;

verus! {

/// The semantic source of a page in a completed Markdown document.
#[derive(Clone, Copy, Debug, PartialEq, Eq, Structural)]
pub enum HybridMarkdownPageSource {
    NativeText,
    Ocr,
    Blank,
}

/// Page provenance returned with a completed document.
#[derive(Debug)]
pub struct HybridMarkdownPage {
    /// 1-indexed page number.
    pub page: u32,
    pub source: HybridMarkdownPageSource,
    pub ocr_reasons: Vec<String>,
}

/// What the provenance of a page is.
#[verifier::ext_equal]
pub struct PageView {
    pub page: u32,
    pub source: HybridMarkdownPageSource,
    pub ocr_reasons: Seq<Seq<char>>,
}

impl View for HybridMarkdownPage {
    type V = PageView;

    open spec fn view(&self) -> PageView {
        PageView { page: self.page, source: self.source, ocr_reasons: strings(self.ocr_reasons@) }
    }
}

/// What the provenances of pages are.
pub open spec fn page_views(pages: Seq<HybridMarkdownPage>) -> Seq<PageView> {
    Seq::new(pages.len(), |i: int| pages[i]@)
}

/// Complete Markdown output after every required OCR page has been submitted.
#[derive(Debug)]
pub struct HybridMarkdownDocument {
    pub markdown: String,
    pub pdf_type: PdfType,
    pub page_count: u32,
    pub pages: Vec<HybridMarkdownPage>,
    pub title: Option<String>,
    pub confidence: Single,
    pub layout: LayoutComplexity,
    pub has_encoding_issues: bool,
}

/// All parser and layout state that one final Markdown pass needs.
#[derive(Debug)]
pub struct PreparedMarkdown {
    pub pdf_type: PdfType,
    pub pages_needing_ocr: Vec<u32>,
    pub ocr_reasons_by_page: OcrReasons,
    pub title: Option<String>,
    pub confidence: Single,
    pub source_items: Vec<TextItem>,
    pub context: RenderContext,
    pub markdown: Option<String>,
    pub layout: LayoutComplexity,
    pub has_encoding_issues: bool,
    /// The visible areas of the pages, from page 1 on.
    pub page_boxes: Vec<PageArea>,
}

/// What the Markdown pass gives for one set of items.
#[derive(Debug)]
pub struct RenderedMarkdown {
    pub markdown: Option<String>,
    pub layout: LayoutComplexity,
    pub has_encoding_issues: bool,
    pub text_quality_pages: Vec<u32>,
    pub ocr_reasons_by_page: OcrReasons,
}

/// The page is processed.
pub open spec fn is_selected(filter: Option<Seq<u32>>, page: u32) -> bool {
    match filter {
        Some(pages) => pages.contains(page),
        None => true,
    }
}

/// The pages of an optional filter.
pub open spec fn filter_pages(filter: Option<Vec<u32>>) -> Option<Seq<u32>> {
    match filter {
        Some(pages) => Some(pages@),
        None => None,
    }
}

/// Whether a page is processed.
pub fn page_selected(filter: &Option<Vec<u32>>, page: u32) -> (r: bool)
    ensures
        r == is_selected(filter_pages(*filter), page),
{
    match filter {
        Some(pages) => has_page(pages, page),
        None => true,
    }
}

/// The encoding of a document is suspect: a page has a reason for OCR, the
/// text is of low quality, or the Markdown shows it.
pub open spec fn encoding_suspect(
    reasons: Map<u32, Seq<Seq<char>>>,
    quality_issues: bool,
    has_markdown: bool,
    markdown_issues: bool,
) -> bool {
    reasons != Map::<u32, Seq<Seq<char>>>::empty() || quality_issues || (has_markdown && markdown_issues)
}

/// What is left of an optional text.
pub open spec fn optional_text(text: Option<String>) -> Option<Seq<char>> {
    match text {
        Some(text) => Some(text@),
        None => None,
    }
}

/// The result of a Markdown pass, given the reasons known before it.
pub open spec fn concludes(
    rendered: RenderedMarkdown,
    assembly: Assembly,
    reasons: Map<u32, Seq<Seq<char>>>,
    emit_markdown: bool,
) -> bool {
    let all = with_pages(
        reasons,
        entry_views(assembly.text_quality_reasons@),
        assembly.text_quality_reasons@.len(),
    );
    &&& rendered.ocr_reasons_by_page.wf()
    &&& rendered.ocr_reasons_by_page@ == all
    &&& rendered.layout == assembly.layout
    &&& rendered.text_quality_pages == assembly.text_quality_pages
    &&& rendered.markdown == if emit_markdown {
        assembly.markdown
    } else {
        None
    }
    &&& rendered.has_encoding_issues == encoding_suspect(
        all,
        assembly.text_quality_issues,
        rendered.markdown is Some,
        assembly.markdown_has_encoding_issues,
    )
}

/// Draws the conclusions from a Markdown pass.
pub fn conclude_render(assembly: Assembly, reasons: OcrReasons, emit_markdown: bool) -> (r: RenderedMarkdown)
    requires
        reasons.wf(),
    ensures
        concludes(r, assembly, reasons@, emit_markdown),
{
    let mut reasons = reasons;
    reasons.merge_pages(&assembly.text_quality_reasons);
    let markdown = if emit_markdown {
        assembly.markdown
    } else {
        None
    };
    let shows_issues = markdown.is_some() && assembly.markdown_has_encoding_issues;
    let has_encoding_issues = !reasons.is_empty() || assembly.text_quality_issues || shows_issues;
    RenderedMarkdown {
        markdown,
        layout: assembly.layout,
        has_encoding_issues,
        text_quality_pages: assembly.text_quality_pages,
        ocr_reasons_by_page: reasons,
    }
}

/// Runs the Markdown pass over the items.
pub fn render_markdown<B: MarkdownBackend>(
    backend: &B,
    source_items: Vec<TextItem>,
    context: &RenderContext,
    reasons: OcrReasons,
    emit_markdown: bool,
) -> (r: RenderedMarkdown)
    requires
        reasons.wf(),
    ensures
        exists|assembly: Assembly| #[trigger]
            call_ensures(B::assemble, (backend, source_items, context, emit_markdown), assembly) && concludes(
                r,
                assembly,
                reasons@,
                emit_markdown,
            ),
{
    let assembly = backend.assemble(source_items, context, emit_markdown);
    let ghost reply = assembly;
    let r = conclude_render(assembly, reasons, emit_markdown);
    assert(call_ensures(B::assemble, (backend, source_items, context, emit_markdown), reply) && concludes(
        r,
        reply,
        reasons@,
        emit_markdown,
    ));
    r
}

/// What a request is.
#[verifier::ext_equal]
pub struct RequestView {
    pub page: u32,
    pub reasons: Seq<Seq<char>>,
    pub x: Single,
    pub y: Single,
    pub width: Single,
    pub height: Single,
    pub expected_aspect_ratio: Single,
}

impl View for OcrPageRequest {
    type V = RequestView;

    open spec fn view(&self) -> RequestView {
        RequestView {
            page: self.page,
            reasons: strings(self.reasons@),
            x: self.x,
            y: self.y,
            width: self.width,
            height: self.height,
            expected_aspect_ratio: self.expected_aspect_ratio,
        }
    }
}

/// What requests are.
pub open spec fn request_views(requests: Seq<OcrPageRequest>) -> Seq<RequestView> {
    Seq::new(requests.len(), |i: int| requests[i]@)
}

/// The visible area of a page.
pub open spec fn area_of_page(areas: Seq<PageArea>, page: u32) -> PageArea {
    if 1 <= page <= areas.len() {
        areas[page - 1]
    } else {
        letter_area()
    }
}

/// The area has a positive width and height.
pub open spec fn has_extent(area: PageArea) -> bool {
    (Single { bits: 0 }).spec_less(area.width) && (Single { bits: 0 }).spec_less(area.height)
}

/// The request for a page.
pub open spec fn request_of(
    page: u32,
    areas: Seq<PageArea>,
    reasons: Map<u32, Seq<Seq<char>>>,
) -> RequestView {
    let area = area_of_page(areas, page);
    RequestView {
        page,
        reasons: reasons_of(reasons, page),
        x: area.x,
        y: area.y,
        width: area.width,
        height: area.height,
        expected_aspect_ratio: area.width.spec_over(area.height),
    }
}

/// The requests for the first `n` pages: those that are processed and have an
/// area.
pub open spec fn requests_of(
    pages: Seq<u32>,
    filter: Option<Seq<u32>>,
    areas: Seq<PageArea>,
    reasons: Map<u32, Seq<Seq<char>>>,
    n: nat,
) -> Seq<RequestView>
    decreases n,
{
    if n == 0 {
        Seq::empty()
    } else {
        let before = requests_of(pages, filter, areas, reasons, (n - 1) as nat);
        let page = pages[n - 1];
        if is_selected(filter, page) && has_extent(area_of_page(areas, page)) {
            before.push(request_of(page, areas, reasons))
        } else {
            before
        }
    }
}

/// Every request is for an area with a positive width and height, and expects
/// its ratio of width to height.
pub open spec fn well_shaped(requests: Seq<RequestView>) -> bool {
    forall|i: int|
        0 <= i < requests.len() ==> {
            let request = #[trigger] requests[i];
            &&& (Single { bits: 0 }).spec_less(request.width)
            &&& (Single { bits: 0 }).spec_less(request.height)
            &&& request.expected_aspect_ratio == request.width.spec_over(request.height)
        }
}

/// The requests are for pages in ascending order, each once.
pub open spec fn ascending_requests(requests: Seq<RequestView>) -> bool {
    forall|i: int, j: int|
        0 <= i < j < requests.len() ==> (#[trigger] requests[i]).page < (#[trigger] requests[j]).page
}

proof fn lemma_requests_well_shaped(
    pages: Seq<u32>,
    filter: Option<Seq<u32>>,
    areas: Seq<PageArea>,
    reasons: Map<u32, Seq<Seq<char>>>,
    n: nat,
)
    requires
        n <= pages.len(),
    ensures
        well_shaped(requests_of(pages, filter, areas, reasons, n)),
    decreases n,
{
    if n > 0 {
        lemma_requests_well_shaped(pages, filter, areas, reasons, (n - 1) as nat);
        let before = requests_of(pages, filter, areas, reasons, (n - 1) as nat);
        let requests = requests_of(pages, filter, areas, reasons, n);
        assert forall|i: int| 0 <= i < before.len() implies requests[i] == before[i] by {
        }
    }
}

/// OCR text of one page.
#[derive(Debug)]
pub struct SubmittedPage {
    pub page: u32,
    pub items: Vec<TextItem>,
}

/// What the OCR text of a page is.
#[verifier::ext_equal]
pub struct SubmittedView {
    pub page: u32,
    pub items: Seq<ItemView>,
}

impl View for SubmittedPage {
    type V = SubmittedView;

    open spec fn view(&self) -> SubmittedView {
        SubmittedView { page: self.page, items: views(self.items@) }
    }
}

/// What the submitted pages are.
pub open spec fn submitted_views(pages: Seq<SubmittedPage>) -> Seq<SubmittedView> {
    Seq::new(pages.len(), |i: int| pages[i]@)
}

/// The submitted text of a page.
pub open spec fn submission(pages: Seq<SubmittedView>, page: u32) -> Option<Seq<ItemView>>
    decreases pages.len(),
{
    if pages.len() == 0 {
        None
    } else if pages.last().page == page {
        Some(pages.last().items)
    } else {
        submission(pages.drop_last(), page)
    }
}

/// The submitted pages are in ascending order, and each holds only items of
/// its own page.
pub open spec fn orderly(pages: Seq<SubmittedView>) -> bool {
    &&& forall|i: int, j: int|
        0 <= i < j < pages.len() ==> (#[trigger] pages[i]).page < (#[trigger] pages[j]).page
    &&& forall|i: int, k: int|
        0 <= i < pages.len() && 0 <= k < pages[i].items.len() ==> (#[trigger] pages[i].items[k]).page
            == pages[i].page
}

/// The submitted pages with one more, at its place in the order.
pub open spec fn with_page(pages: Seq<SubmittedView>, x: SubmittedView) -> Seq<SubmittedView>
    decreases pages.len(),
{
    if pages.len() == 0 || pages.last().page < x.page {
        pages.push(x)
    } else {
        with_page(pages.drop_last(), x).push(pages.last())
    }
}

/// The items that are not on the page.
pub open spec fn without_page(items: Seq<ItemView>, page: u32) -> Seq<ItemView>
    decreases items.len(),
{
    if items.len() == 0 {
        Seq::empty()
    } else if items.last().page == page {
        without_page(items.drop_last(), page)
    } else {
        without_page(items.drop_last(), page).push(items.last())
    }
}

/// The items of the final pass: each submitted page takes the place of the
/// native text of that page.
pub open spec fn replaced(native: Seq<ItemView>, pages: Seq<SubmittedView>, n: nat) -> Seq<ItemView>
    decreases n,
{
    if n == 0 {
        native
    } else {
        without_page(replaced(native, pages, (n - 1) as nat), pages[n - 1].page) + pages[n - 1].items
    }
}

/// Some item is on the page.
pub open spec fn mentions(items: Seq<ItemView>, page: u32) -> bool {
    exists|i: int| 0 <= i < items.len() && (#[trigger] items[i]).page == page
}

/// Where the text of a page came from.
pub open spec fn source_of(native: Seq<ItemView>, pages: Seq<SubmittedView>, page: u32) -> HybridMarkdownPageSource {
    match submission(pages, page) {
        Some(items) => if items.len() == 0 {
            HybridMarkdownPageSource::Blank
        } else {
            HybridMarkdownPageSource::Ocr
        },
        None => if mentions(native, page) {
            HybridMarkdownPageSource::NativeText
        } else {
            HybridMarkdownPageSource::Blank
        },
    }
}

/// The provenance of the pages `1..=n` that are processed.
pub open spec fn provenance(
    filter: Option<Seq<u32>>,
    native: Seq<ItemView>,
    pages: Seq<SubmittedView>,
    reasons: Map<u32, Seq<Seq<char>>>,
    n: nat,
) -> Seq<PageView>
    decreases n,
{
    if n == 0 {
        Seq::empty()
    } else {
        let before = provenance(filter, native, pages, reasons, (n - 1) as nat);
        let page = n as u32;
        if is_selected(filter, page) {
            before.push(
                PageView { page, source: source_of(native, pages, page), ocr_reasons: reasons_of(reasons, page) },
            )
        } else {
            before
        }
    }
}

/// The first page that was requested and not submitted.
pub open spec fn first_missing(requests: Seq<RequestView>, pages: Seq<SubmittedView>, n: nat) -> Option<u32>
    decreases n,
{
    if n == 0 {
        None
    } else {
        match first_missing(requests, pages, (n - 1) as nat) {
            Some(page) => Some(page),
            None => if submission(pages, requests[n - 1].page) is None {
                Some(requests[n - 1].page)
            } else {
                None
            },
        }
    }
}

proof fn lemma_submission(pages: Seq<SubmittedView>, page: u32)
    ensures
        submission(pages, page) is Some <==> exists|i: int| 0 <= i < pages.len() && (#[trigger] pages[i]).page == page,
        submission(pages, page) matches Some(items) ==> exists|i: int|
            0 <= i < pages.len() && (#[trigger] pages[i]).page == page && pages[i].items == items,
    decreases pages.len(),
{
    if pages.len() > 0 {
        let front = pages.drop_last();
        lemma_submission(front, page);
        if pages.last().page == page {
            assert(pages[pages.len() - 1].page == page);
        } else {
            if submission(front, page) is Some {
                let i = choose|i: int|
                    0 <= i < front.len() && (#[trigger] front[i]).page == page && front[i].items == submission(
                        front,
                        page,
                    )->0;
                assert(pages[i] == front[i]);
            }
            if exists|i: int| 0 <= i < pages.len() && (#[trigger] pages[i]).page == page {
                let i = choose|i: int| 0 <= i < pages.len() && (#[trigger] pages[i]).page == page;
                assert(front[i] == pages[i]);
            }
        }
    }
}

proof fn lemma_with_page_at(pages: Seq<SubmittedView>, x: SubmittedView, at: int)
    requires
        0 <= at <= pages.len(),
        forall|i: int| 0 <= i < at ==> (#[trigger] pages[i]).page < x.page,
        forall|i: int| at <= i < pages.len() ==> (#[trigger] pages[i]).page > x.page,
    ensures
        with_page(pages, x) == pages.insert(at, x),
    decreases pages.len(),
{
    if at == pages.len() {
        if pages.len() > 0 {
            assert(pages[pages.len() - 1].page < x.page);
        }
        assert(pages.insert(at, x) =~= pages.push(x));
    } else {
        assert(pages[pages.len() - 1].page > x.page);
        let front = pages.drop_last();
        assert forall|i: int| 0 <= i < at implies (#[trigger] front[i]).page < x.page by {
            assert(front[i] == pages[i]);
        }
        assert forall|i: int| at <= i < front.len() implies (#[trigger] front[i]).page > x.page by {
            assert(front[i] == pages[i]);
        }
        lemma_with_page_at(front, x, at);
        assert(pages.insert(at, x) =~= front.insert(at, x).push(pages.last()));
    }
}

/// A resumable document-level Markdown preparation session.
///
/// Preparation owns all parser and layout state needed for one final global
/// Markdown pass. The caller submits OCR observations only for the requested
/// pages; no partial Markdown is returned.
#[derive(Debug)]
pub struct HybridMarkdownSession {
    pub requests: Vec<OcrPageRequest>,
    pub prepared: PreparedMarkdown,
    /// In ascending order of the pages.
    pub submitted: Vec<SubmittedPage>,
    pub finished: bool,
}

impl PreparedMarkdown {
    /// The pages that need OCR ascend, and the reasons are in page order.
    pub open spec fn wf(self) -> bool {
        self.ocr_reasons_by_page.wf() && ascending(self.pages_needing_ocr@)
    }

    /// The pages that need OCR, as requests.
    pub fn ocr_requests(&self) -> (r: Vec<OcrPageRequest>)
        requires
            self.wf(),
        ensures
            request_views(r@) == requests_of(
                self.pages_needing_ocr@,
                filter_pages(self.context.page_filter),
                self.page_boxes@,
                self.ocr_reasons_by_page@,
                self.pages_needing_ocr@.len(),
            ),
    {
        let ghost filter = filter_pages(self.context.page_filter);
        let mut requests: Vec<OcrPageRequest> = Vec::new();
        let mut i: usize = 0;
        assert(request_views(requests@) =~= Seq::empty());
        while i < self.pages_needing_ocr.len()
            invariant
                self.wf(),
                i <= self.pages_needing_ocr@.len(),
                filter == filter_pages(self.context.page_filter),
                request_views(requests@) == requests_of(
                    self.pages_needing_ocr@,
                    filter,
                    self.page_boxes@,
                    self.ocr_reasons_by_page@,
                    i as nat,
                ),
            decreases self.pages_needing_ocr@.len() - i,
        {
            let page = self.pages_needing_ocr[i];
            if page_selected(&self.context.page_filter, page) {
                let area = if page >= 1 && (page - 1) as u64 <= usize::MAX as u64 && ((page - 1) as usize)
                    < self.page_boxes.len() {
                    self.page_boxes[(page - 1) as usize]
                } else {
                    PageArea::fallback()
                };
                assert(area == area_of_page(self.page_boxes@, page));
                if Single::zero().less(area.width) && Single::zero().less(area.height) {
                    let ghost before = requests@;
                    requests.push(
                        OcrPageRequest {
                            page,
                            reasons: self.ocr_reasons_by_page.get(page),
                            x: area.x,
                            y: area.y,
                            width: area.width,
                            height: area.height,
                            expected_aspect_ratio: area.width.over(area.height),
                        },
                    );
                    assert(request_views(requests@) =~= request_views(before).push(requests@.last()@));
                }
            }
            i += 1;
        }
        requests
    }

    /// Where the text of the pages came from.
    pub fn page_results(&self, submitted: &Vec<SubmittedPage>) -> (r: Vec<HybridMarkdownPage>)
        requires
            self.wf(),
        ensures
            page_views(r@) == provenance(
                filter_pages(self.context.page_filter),
                views(self.source_items@),
                submitted_views(submitted@),
                self.ocr_reasons_by_page@,
                self.context.page_count as nat,
            ),
    {
        let ghost filter = filter_pages(self.context.page_filter);
        let ghost native = views(self.source_items@);
        let ghost given = submitted_views(submitted@);
        let mut pages: Vec<HybridMarkdownPage> = Vec::new();
        let mut page: u32 = 0;
        assert(page_views(pages@) =~= Seq::empty());
        while page < self.context.page_count
            invariant
                self.wf(),
                page <= self.context.page_count,
                filter == filter_pages(self.context.page_filter),
                native == views(self.source_items@),
                given == submitted_views(submitted@),
                page_views(pages@) == provenance(filter, native, given, self.ocr_reasons_by_page@, page as nat),
            decreases self.context.page_count - page,
        {
            page += 1;
            if page_selected(&self.context.page_filter, page) {
                let source = match find_submission(submitted, page) {
                    Some(k) => if submitted[k].items.len() == 0 {
                        HybridMarkdownPageSource::Blank
                    } else {
                        HybridMarkdownPageSource::Ocr
                    },
                    None => if has_items(&self.source_items, page) {
                        HybridMarkdownPageSource::NativeText
                    } else {
                        HybridMarkdownPageSource::Blank
                    },
                };
                let ghost before = pages@;
                pages.push(HybridMarkdownPage { page, source, ocr_reasons: self.ocr_reasons_by_page.get(page) });
                assert(page_views(pages@) =~= page_views(before).push(pages@.last()@));
            }
        }
        pages
    }

    /// Runs the Markdown pass over the items, with no reasons known before.
    pub fn render<B: MarkdownBackend>(&self, backend: &B, source_items: Vec<TextItem>, emit_markdown: bool) -> (r:
        RenderedMarkdown)
        ensures
            exists|assembly: Assembly| #[trigger]
                call_ensures(B::assemble, (backend, source_items, &self.context, emit_markdown), assembly)
                    && concludes(r, assembly, Map::<u32, Seq<Seq<char>>>::empty(), emit_markdown),
    {
        render_markdown(backend, source_items, &self.context, OcrReasons::new(), emit_markdown)
    }
}

/// The place of a submitted page in the list.
fn find_submission(submitted: &Vec<SubmittedPage>, page: u32) -> (r: Option<usize>)
    ensures
        match r {
            Some(k) => k < submitted@.len() && submitted@[k as int].page == page && submission(
                submitted_views(submitted@),
                page,
            ) == Some(views(submitted@[k as int].items@)),
            None => submission(submitted_views(submitted@), page) is None,
        },
{
    let ghost model = submitted_views(submitted@);
    let mut i: usize = submitted.len();
    assert(model.take(model.len() as int) =~= model);
    while i > 0
        invariant
            i <= submitted@.len(),
            model == submitted_views(submitted@),
            submission(model, page) == submission(model.take(i as int), page),
        decreases i,
    {
        i -= 1;
        assert(model.take(i + 1).drop_last() =~= model.take(i as int));
        assert(model.take(i + 1).last() == submitted@[i as int]@);
        if submitted[i].page == page {
            return Some(i);
        }
    }
    None
}

fn has_items(items: &Vec<TextItem>, page: u32) -> (r: bool)
    ensures
        r == mentions(views(items@), page),
{
    let ghost model = views(items@);
    let mut i: usize = 0;
    while i < items.len()
        invariant
            i <= items@.len(),
            model == views(items@),
            forall|k: int| 0 <= k < i ==> (#[trigger] model[k]).page != page,
        decreases items@.len() - i,
    {
        assert(model[i as int] == items@[i as int]@);
        if items[i].page == page {
            return true;
        }
        i += 1;
    }
    false
}

/// The items that are not on the page.
fn drop_page(items: Vec<TextItem>, page: u32) -> (r: Vec<TextItem>)
    ensures
        views(r@) == without_page(views(items@), page),
{
    let ghost model = views(items@);
    let mut kept: Vec<TextItem> = Vec::new();
    let mut i: usize = 0;
    assert(views(kept@) =~= Seq::empty());
    while i < items.len()
        invariant
            i <= items@.len(),
            model == views(items@),
            views(kept@) == without_page(model.take(i as int), page),
        decreases items@.len() - i,
    {
        let ghost before = kept@;
        assert(model.take(i + 1).drop_last() =~= model.take(i as int));
        assert(model.take(i + 1).last() == items@[i as int]@);
        if items[i].page != page {
            kept.push(copy_item(&items[i]));
            assert(views(kept@) =~= views(before).push(items@[i as int]@));
        }
        i += 1;
    }
    assert(model.take(model.len() as int) =~= model);
    kept
}

/// Appends copies of items.
fn push_items(out: &mut Vec<TextItem>, items: &Vec<TextItem>)
    ensures
        views(final(out)@) == views(old(out)@) + views(items@),
{
    let ghost start = views(out@);
    let ghost model = views(items@);
    let mut i: usize = 0;
    assert(start + model.take(0) =~= start);
    while i < items.len()
        invariant
            i <= items@.len(),
            model == views(items@),
            views(out@) == start + model.take(i as int),
        decreases items@.len() - i,
    {
        let ghost before = out@;
        out.push(copy_item(&items[i]));
        assert(views(out@) =~= views(before).push(items@[i as int]@));
        assert(model.take(i + 1) =~= model.take(i as int).push(model[i as int]));
        assert(start + model.take(i + 1) =~= (start + model.take(i as int)).push(model[i as int]));
        i += 1;
    }
    assert(model.take(model.len() as int) =~= model);
}

impl HybridMarkdownSession {
    /// What the submitted pages are.
    pub open spec fn given(self) -> Seq<SubmittedView> {
        submitted_views(self.submitted@)
    }

    /// What holds of every session: the requests ascend, and each is for an area
    /// with an extent and expects its ratio of width to height.
    pub open spec fn wf(self) -> bool {
        &&& self.prepared.wf()
        &&& orderly(self.given())
        &&& well_shaped(request_views(self.requests@))
        &&& ascending_requests(request_views(self.requests@))
    }

    /// A session that has just been prepared.
    pub fn from_prepared(prepared: PreparedMarkdown) -> (r: Self)
        requires
            prepared.wf(),
        ensures
            r.wf(),
            r.prepared == prepared,
            r.given() == Seq::<SubmittedView>::empty(),
            !r.finished,
            request_views(r.requests@) == requests_of(
                prepared.pages_needing_ocr@,
                filter_pages(prepared.context.page_filter),
                prepared.page_boxes@,
                prepared.ocr_reasons_by_page@,
                prepared.pages_needing_ocr@.len(),
            ),
    {
        let requests = prepared.ocr_requests();
        proof {
            let pages = prepared.pages_needing_ocr@;
            let filter = filter_pages(prepared.context.page_filter);
            let reasons = prepared.ocr_reasons_by_page@;
            lemma_requests_well_shaped(pages, filter, prepared.page_boxes@, reasons, pages.len());
            law_requests_ascend(pages, filter, prepared.page_boxes@, reasons, pages.len());
        }
        let r = HybridMarkdownSession { requests, prepared, submitted: Vec::new(), finished: false };
        assert(r.given() =~= Seq::empty());
        r
    }

    /// The OCR requests, by page number.
    pub fn ocr_requests(&self) -> (r: Vec<OcrPageRequest>)
        requires
            self.wf(),
        ensures
            request_views(r@) == request_views(self.requests@),
            ascending_requests(request_views(r@)),
            well_shaped(request_views(r@)),
    {
        let mut out: Vec<OcrPageRequest> = Vec::new();
        let mut i: usize = 0;
        while i < self.requests.len()
            invariant
                i <= self.requests@.len(),
                request_views(out@) == request_views(self.requests@).take(i as int),
            decreases self.requests@.len() - i,
        {
            let ghost before = out@;
            let request = &self.requests[i];
            out.push(
                OcrPageRequest {
                    page: request.page,
                    reasons: copy_strings(&request.reasons),
                    x: request.x,
                    y: request.y,
                    width: request.width,
                    height: request.height,
                    expected_aspect_ratio: request.expected_aspect_ratio,
                },
            );
            i += 1;
            assert(request_views(out@) =~= request_views(before).push(self.requests@[i - 1]@));
            assert(request_views(self.requests@).take(i as int) =~= request_views(self.requests@).take(i - 1).push(
                self.requests@[i - 1]@,
            ));
        }
        assert(request_views(self.requests@).take(self.requests@.len() as int) =~= request_views(self.requests@));
        out
    }

    /// The number of OCR pages already submitted.
    pub fn submitted_page_count(&self) -> (r: Result<usize, HybridMarkdownError>)
        ensures
            r == Ok::<usize, HybridMarkdownError>(self.submitted@.len() as usize),
    {
        Ok(self.submitted.len())
    }

    /// The first request for a page.
    pub open spec fn request_at(self, page: u32, k: int) -> bool {
        &&& 0 <= k < self.requests@.len()
        &&& self.requests@[k].page == page
        &&& forall|i: int| 0 <= i < k ==> (#[trigger] self.requests@[i]).page != page
    }

    /// The page was requested.
    pub open spec fn requested(self, page: u32) -> bool {
        exists|k: int| self.request_at(page, k)
    }

    fn find_request(&self, page: u32) -> (r: Option<usize>)
        ensures
            match r {
                Some(k) => self.request_at(page, k as int),
                None => !self.requested(page),
            },
    {
        let mut i: usize = 0;
        while i < self.requests.len()
            invariant
                i <= self.requests@.len(),
                forall|k: int| 0 <= k < i ==> (#[trigger] self.requests@[k]).page != page,
            decreases self.requests@.len() - i,
        {
            if self.requests[i].page == page {
                return Some(i);
            }
            i += 1;
        }
        None
    }

    /// Submits positioned OCR tokens for one requested page.
    pub fn submit_ocr_page(&mut self, result: OcrPageResult) -> (r: Result<(), HybridMarkdownError>)
        requires
            old(self).wf(),
        ensures
            final(self).wf(),
            final(self).requests == old(self).requests,
            final(self).prepared == old(self).prepared,
            final(self).finished == old(self).finished,
            match r {
                Ok(_) => {
                    &&& !old(self).finished
                    &&& submission(old(self).given(), result.page) is None
                    &&& first_fault(token_views(result.tokens@), result.tokens@.len()) is None
                    &&& exists|k: int|
                        {
                            &&& #[trigger] old(self).request_at(result.page, k)
                            &&& final(self).given() == with_page(
                                old(self).given(),
                                SubmittedView {
                                    page: result.page,
                                    items: token_items(
                                        old(self).requests@[k],
                                        token_views(result.tokens@),
                                        result.tokens@.len(),
                                    ),
                                },
                            )
                        }
                },
                Err(error) => {
                    &&& final(self).given() == old(self).given()
                    &&& if !old(self).requested(result.page) {
                        error == (HybridMarkdownError::UnrequestedPage { page: result.page })
                    } else if old(self).finished {
                        error == HybridMarkdownError::SessionFinished
                    } else if submission(old(self).given(), result.page) is Some {
                        error == (HybridMarkdownError::DuplicatePage { page: result.page })
                    } else {
                        first_fault(token_views(result.tokens@), result.tokens@.len()) matches Some(fault) && refuses(
                            error,
                            result.page,
                            fault,
                        )
                    }
                },
            },
    {
        let page = result.page;
        let k = match self.find_request(page) {
            Some(k) => k,
            None => {
                return Err(HybridMarkdownError::UnrequestedPage { page });
            },
        };
        assert(self.request_at(page, k as int));
        if self.finished {
            return Err(HybridMarkdownError::SessionFinished);
        }
        if find_submission(&self.submitted, page).is_some() {
            return Err(HybridMarkdownError::DuplicatePage { page });
        }
        let items = match ocr_tokens_to_items(&self.requests[k], result.tokens) {
            Ok(items) => items,
            Err(error) => {
                return Err(error);
            },
        };
        let ghost before = self.given();
        let ghost entry = SubmittedView { page, items: views(items@) };
        let mut at: usize = 0;
        while at < self.submitted.len() && self.submitted[at].page < page
            invariant
                at <= self.submitted@.len(),
                self.given() == before,
                forall|i: int| 0 <= i < at ==> (#[trigger] before[i]).page < page,
            decreases self.submitted@.len() - at,
        {
            assert(before[at as int].page == self.submitted@[at as int].page);
            at += 1;
        }
        let ghost old_pages = self.submitted@;
        proof {
            lemma_submission(before, page);
            assert forall|i: int| at <= i < before.len() implies (#[trigger] before[i]).page > page by {
                assert(before[at as int].page == self.submitted@[at as int].page);
                assert(before[i].page != page);
                assert(before[at as int].page != page);
                if at < i {
                    assert(before[at as int].page < before[i].page);
                }
            }
            lemma_with_page_at(before, entry, at as int);
            assert forall|j: int| 0 <= j < entry.items.len() implies (#[trigger] entry.items[j]).page == page by {
                crate::hybrid_markdown::tokens::law_items_belong_to_their_page(
                    self.requests@[k as int],
                    token_views(result.tokens@),
                    result.tokens@.len(),
                    j,
                );
            }
        }
        let added = SubmittedPage { page, items };
        self.submitted.insert(at, added);
        proof {
            let after = self.given();
            assert(self.submitted@ =~= old_pages.insert(at as int, added));
            assert forall|i: int| 0 <= i < after.len() implies after[i] == before.insert(at as int, entry)[i] by {
                if i < at {
                    assert(after[i] == before[i]);
                } else if i > at {
                    assert(after[i] == before[i - 1]);
                }
            }
            assert(after =~= before.insert(at as int, entry));
            lemma_stays_orderly(before, at as int, entry);
        }
        Ok(())
    }

    /// The native text with the submitted pages in place.
    fn combined_items(&self) -> (r: Vec<TextItem>)
        ensures
            views(r@) == replaced(views(self.prepared.source_items@), self.given(), self.given().len()),
    {
        let ghost native = views(self.prepared.source_items@);
        let ghost given = self.given();
        let mut items: Vec<TextItem> = Vec::new();
        push_items(&mut items, &self.prepared.source_items);
        let mut i: usize = 0;
        assert(views(items@) =~= native);
        while i < self.submitted.len()
            invariant
                i <= self.submitted@.len(),
                native == views(self.prepared.source_items@),
                given == self.given(),
                views(items@) == replaced(native, given, i as nat),
            decreases self.submitted@.len() - i,
        {
            assert(given[i as int] == self.submitted@[i as int]@);
            items = drop_page(items, self.submitted[i].page);
            push_items(&mut items, &self.submitted[i].items);
            i += 1;
        }
        items
    }

    fn missing_page(&self) -> (r: Option<u32>)
        ensures
            r == first_missing(request_views(self.requests@), self.given(), self.requests@.len()),
    {
        let ghost model = request_views(self.requests@);
        let mut i: usize = 0;
        while i < self.requests.len()
            invariant
                i <= self.requests@.len(),
                model == request_views(self.requests@),
                first_missing(model, self.given(), i as nat) is None,
            decreases self.requests@.len() - i,
        {
            assert(model[i as int].page == self.requests@[i as int].page);
            let page = self.requests[i].page;
            if find_submission(&self.submitted, page).is_none() {
                proof {
                    lemma_missing_stays(model, self.given(), (i + 1) as nat, model.len());
                }
                return Some(page);
            }
            i += 1;
        }
        None
    }

    /// Finishes the global Markdown assembly after all OCR requests are
    /// complete. A session finishes once.
    pub fn finish<B: MarkdownBackend>(&mut self, backend: &B) -> (r: Result<
        HybridMarkdownDocument,
        HybridMarkdownError,
    >)
        requires
            old(self).wf(),
        ensures
            final(self).wf(),
            final(self).requests == old(self).requests,
            final(self).prepared == old(self).prepared,
            final(self).submitted == old(self).submitted,
            ({
                let missing = first_missing(
                    request_views(old(self).requests@),
                    old(self).given(),
                    old(self).requests@.len(),
                );
                match r {
                    Ok(document) => {
                        &&& !old(self).finished
                        &&& missing is None
                        &&& final(self).finished
                        &&& completes(*old(self), document)
                        &&& exists|items: Vec<TextItem>, assembly: Assembly, rendered: RenderedMarkdown|
                            {
                                &&& views(items@) == replaced(
                                    views(old(self).prepared.source_items@),
                                    old(self).given(),
                                    old(self).given().len(),
                                )
                                &&& #[trigger] call_ensures(
                                    B::assemble,
                                    (backend, items, &old(self).prepared.context, true),
                                    assembly,
                                )
                                &&& #[trigger] concludes(
                                    rendered,
                                    assembly,
                                    Map::<u32, Seq<Seq<char>>>::empty(),
                                    true,
                                )
                                &&& shows(document, rendered)
                            }
                    },
                    Err(error) => {
                        &&& final(self).finished == old(self).finished
                        &&& if old(self).finished {
                            error == HybridMarkdownError::SessionFinished
                        } else {
                            missing matches Some(page) && error == (HybridMarkdownError::MissingPage { page })
                        }
                    },
                }
            }),
    {
        if self.finished {
            return Err(HybridMarkdownError::SessionFinished);
        }
        if let Some(page) = self.missing_page() {
            return Err(HybridMarkdownError::MissingPage { page });
        }
        let items = self.combined_items();
        let ghost given_items = items;
        let rendered = self.prepared.render(backend, items, true);
        let ghost found = choose|assembly: Assembly| #[trigger]
            call_ensures(B::assemble, (backend, given_items, &self.prepared.context, true), assembly) && concludes(
                rendered,
                assembly,
                Map::<u32, Seq<Seq<char>>>::empty(),
                true,
            );
        let ghost kept = rendered;
        let pages = self.prepared.page_results(&self.submitted);
        self.finished = true;
        let markdown = match rendered.markdown {
            Some(text) => text,
            None => String::new(),
        };
        let title = match &self.prepared.title {
            Some(title) => Some(title.clone()),
            None => None,
        };
        let document = HybridMarkdownDocument {
            markdown,
            pdf_type: self.prepared.pdf_type,
            page_count: self.prepared.context.page_count,
            pages,
            title,
            confidence: self.prepared.confidence,
            layout: rendered.layout,
            has_encoding_issues: rendered.has_encoding_issues,
        };
        assert(completes(*old(self), document));
        assert(concludes(kept, found, Map::<u32, Seq<Seq<char>>>::empty(), true));
        assert(shows(document, kept)) by {
            assert(kept.markdown is None ==> document.markdown@ =~= Seq::<char>::empty());
        }
        Ok(document)
    }
}

/// The document carries over what the session knows of its pages.
pub open spec fn completes(session: HybridMarkdownSession, document: HybridMarkdownDocument) -> bool {
    &&& document.pdf_type == session.prepared.pdf_type
    &&& document.page_count == session.prepared.context.page_count
    &&& optional_text(document.title) == optional_text(session.prepared.title)
    &&& document.confidence == session.prepared.confidence
    &&& page_views(document.pages@) == provenance(
        filter_pages(session.prepared.context.page_filter),
        views(session.prepared.source_items@),
        session.given(),
        session.prepared.ocr_reasons_by_page@,
        session.prepared.context.page_count as nat,
    )
}

/// The document shows the result of the Markdown pass.
pub open spec fn shows(document: HybridMarkdownDocument, rendered: RenderedMarkdown) -> bool {
    &&& document.markdown@ == match rendered.markdown {
        Some(text) => text@,
        None => Seq::<char>::empty(),
    }
    &&& document.layout == rendered.layout
    &&& document.has_encoding_issues == rendered.has_encoding_issues
}

proof fn lemma_missing_stays(requests: Seq<RequestView>, pages: Seq<SubmittedView>, n: nat, m: nat)
    requires
        n <= m,
        first_missing(requests, pages, n) is Some,
    ensures
        first_missing(requests, pages, m) == first_missing(requests, pages, n),
    decreases m,
{
    if n < m {
        lemma_missing_stays(requests, pages, n, (m - 1) as nat);
    }
}

proof fn lemma_stays_orderly(pages: Seq<SubmittedView>, at: int, x: SubmittedView)
    requires
        orderly(pages),
        0 <= at <= pages.len(),
        forall|i: int| 0 <= i < at ==> (#[trigger] pages[i]).page < x.page,
        forall|i: int| at <= i < pages.len() ==> (#[trigger] pages[i]).page > x.page,
        forall|k: int| 0 <= k < x.items.len() ==> (#[trigger] x.items[k]).page == x.page,
    ensures
        orderly(pages.insert(at, x)),
{
    let after = pages.insert(at, x);
    assert forall|a: int, b: int| 0 <= a < b < after.len() implies (#[trigger] after[a]).page < (
    #[trigger] after[b]).page by {
        let i = if a < at {
            a
        } else {
            a - 1
        };
        let j = if b < at {
            b
        } else {
            b - 1
        };
        if a != at && b != at {
            assert(after[a] == pages[i] && after[b] == pages[j]);
            assert(pages[i].page < pages[j].page);
        } else if a == at {
            assert(after[b] == pages[b - 1]);
        } else {
            assert(after[a] == pages[a]);
        }
    }
    assert forall|a: int, k: int| 0 <= a < after.len() && 0 <= k < after[a].items.len() implies (
    #[trigger] after[a].items[k]).page == after[a].page by {
        if a < at {
            assert(after[a] == pages[a]);
            assert(pages[a].items[k].page == pages[a].page);
        } else if a > at {
            assert(after[a] == pages[a - 1]);
            assert(pages[a - 1].items[k].page == pages[a - 1].page);
        }
    }
}

} // verus!
