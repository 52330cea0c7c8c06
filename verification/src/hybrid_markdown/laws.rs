//! What holds of every session.

use crate::hybrid_markdown::document::{
    Detection, Extraction, MarkdownBackend, PageArea, PdfOptions, PdfType, ProcessMode, RenderContext,
};
use crate::hybrid_markdown::error::PdfFailure;
use crate::hybrid_markdown::prepare::{
    areas_of, complete_options, detects, follows_detection, is_suppressed, items_without, lines_without, needs_ocr,
    prepares, rects_without, selects, settles, Selection,
};
use crate::hybrid_markdown::session::{
    ascending_requests, filter_pages, first_missing, is_selected, orderly, provenance, replaced, requests_of,
    source_of, submission, with_page, without_page, HybridMarkdownPageSource, PreparedMarkdown, RenderedMarkdown,
    RequestView, SubmittedView,
};
use crate::hybrid_markdown::tokens::{first_fault, token_items, OcrPageRequest};
use crate::types::{views, ItemView, PdfLine, PdfRect};
use crate::vision::routing::page_exists;
use vstd::prelude::*;

verus! {

/// The items that are on the page, in their order.
pub open spec fn on_page(items: Seq<ItemView>, page: u32) -> Seq<ItemView>
    decreases items.len(),
{
    if items.len() == 0 {
        Seq::empty()
    } else if items.last().page == page {
        on_page(items.drop_last(), page).push(items.last())
    } else {
        on_page(items.drop_last(), page)
    }
}

proof fn lemma_on_page_of_both(a: Seq<ItemView>, b: Seq<ItemView>, page: u32)
    ensures
        on_page(a + b, page) == on_page(a, page) + on_page(b, page),
    decreases b.len(),
{
    if b.len() == 0 {
        assert(a + b =~= a);
        assert(on_page(a, page) + on_page(b, page) =~= on_page(a, page));
    } else {
        assert((a + b).drop_last() =~= a + b.drop_last());
        lemma_on_page_of_both(a, b.drop_last(), page);
        assert(on_page(a + b, page) =~= on_page(a, page) + on_page(b, page));
    }
}

proof fn lemma_on_page_of_rest(items: Seq<ItemView>, gone: u32, page: u32)
    ensures
        on_page(without_page(items, gone), page) == if page == gone {
            Seq::<ItemView>::empty()
        } else {
            on_page(items, page)
        },
    decreases items.len(),
{
    if items.len() > 0 {
        lemma_on_page_of_rest(items.drop_last(), gone, page);
        if items.last().page != gone {
            let front = without_page(items.drop_last(), gone);
            assert(front.push(items.last()).drop_last() =~= front);
        }
    }
}

proof fn lemma_on_own_page(items: Seq<ItemView>, own: u32, page: u32)
    requires
        forall|k: int| 0 <= k < items.len() ==> (#[trigger] items[k]).page == own,
    ensures
        on_page(items, page) == if page == own {
            items
        } else {
            Seq::<ItemView>::empty()
        },
    decreases items.len(),
{
    if items.len() > 0 {
        let front = items.drop_last();
        assert forall|k: int| 0 <= k < front.len() implies (#[trigger] front[k]).page == own by {
            assert(front[k] == items[k]);
        }
        assert(items[items.len() - 1].page == own);
        lemma_on_own_page(front, own, page);
        assert(front.push(items.last()) =~= items);
    } else {
        assert(items =~= Seq::empty());
    }
}

/// In the final pass a submitted page shows exactly what was submitted for
/// it, and every other page shows exactly its native text.
pub proof fn law_submitted_text_replaces_native_text(
    native: Seq<ItemView>,
    pages: Seq<SubmittedView>,
    n: nat,
    page: u32,
)
    requires
        orderly(pages),
        n <= pages.len(),
    ensures
        on_page(replaced(native, pages, n), page) == match submission(pages.take(n as int), page) {
            Some(items) => items,
            None => on_page(native, page),
        },
    decreases n,
{
    if n == 0 {
        assert(pages.take(0) =~= Seq::empty());
    } else {
        law_submitted_text_replaces_native_text(native, pages, (n - 1) as nat, page);
        let before = replaced(native, pages, (n - 1) as nat);
        let own = pages[n - 1].page;
        assert(pages.take(n as int).drop_last() =~= pages.take(n - 1));
        assert(pages.take(n as int).last() == pages[n - 1]);
        lemma_on_page_of_both(without_page(before, own), pages[n - 1].items, page);
        lemma_on_page_of_rest(before, own, page);
        assert forall|k: int| 0 <= k < pages[n - 1].items.len() implies (#[trigger] pages[n - 1].items[k]).page
            == own by {
            assert(pages[n - 1].items[k].page == pages[n - 1].page);
        }
        lemma_on_own_page(pages[n - 1].items, own, page);
        assert(on_page(replaced(native, pages, n), page) =~= match submission(pages.take(n as int), page) {
            Some(items) => items,
            None => on_page(native, page),
        });
    }
}

/// A session that can finish has an answer to every request.
pub proof fn law_nothing_is_missing_at_the_end(requests: Seq<RequestView>, pages: Seq<SubmittedView>, n: nat, i: int)
    requires
        n <= requests.len(),
        first_missing(requests, pages, n) is None,
        0 <= i < n,
    ensures
        submission(pages, requests[i].page) is Some,
    decreases n,
{
    if i < n - 1 {
        law_nothing_is_missing_at_the_end(requests, pages, (n - 1) as nat, i);
    }
}

/// A page that was submitted stays submitted, with the same text, whatever is
/// submitted after it; and what is submitted is there.
pub proof fn law_submissions_stay(pages: Seq<SubmittedView>, x: SubmittedView, page: u32)
    requires
        submission(pages, x.page) is None,
    ensures
        submission(with_page(pages, x), page) == if page == x.page {
            Some(x.items)
        } else {
            submission(pages, page)
        },
        with_page(pages, x).len() == pages.len() + 1,
    decreases pages.len(),
{
    if pages.len() == 0 || pages.last().page < x.page {
        assert(pages.push(x).drop_last() =~= pages);
    } else {
        law_submissions_stay(pages.drop_last(), x, page);
        let front = with_page(pages.drop_last(), x);
        assert(front.push(pages.last()).drop_last() =~= front);
    }
}

/// Requests keep the order of the pages that need OCR: from ascending pages
/// come ascending requests, each page at most once, and only pages that are
/// processed.
pub proof fn law_requests_ascend(
    pages: Seq<u32>,
    filter: Option<Seq<u32>>,
    areas: Seq<PageArea>,
    reasons: Map<u32, Seq<Seq<char>>>,
    n: nat,
)
    requires
        n <= pages.len(),
        forall|i: int, j: int| 0 <= i < j < pages.len() ==> pages[i] < pages[j],
    ensures
        ({
            let requests = requests_of(pages, filter, areas, reasons, n);
            &&& ascending_requests(requests)
            &&& forall|i: int|
                0 <= i < requests.len() ==> is_selected(filter, (#[trigger] requests[i]).page) && pages.take(
                    n as int,
                ).contains(requests[i].page)
        }),
    decreases n,
{
    if n > 0 {
        law_requests_ascend(pages, filter, areas, reasons, (n - 1) as nat);
        let before = requests_of(pages, filter, areas, reasons, (n - 1) as nat);
        let requests = requests_of(pages, filter, areas, reasons, n);
        let short = pages.take(n - 1);
        let long = pages.take(n as int);
        assert forall|i: int| 0 <= i < requests.len() implies is_selected(filter, (#[trigger] requests[i]).page)
            && long.contains(requests[i].page) by {
            if i < before.len() {
                assert(requests[i] == before[i]);
                assert(short.contains(before[i].page));
                let k = short.index_of(before[i].page);
                assert(long[k] == before[i].page);
            } else {
                assert(long[n - 1] == pages[n - 1]);
            }
        }
        assert forall|i: int, j: int| 0 <= i < j < requests.len() implies (#[trigger] requests[i]).page < (
        #[trigger] requests[j]).page by {
            assert(requests[i] == before[i]);
            if j < before.len() {
                assert(requests[j] == before[j]);
            } else {
                assert(short.contains(before[i].page));
                let k = short.index_of(before[i].page);
                assert(pages[k] == before[i].page);
            }
        }
    }
}

/// The provenance of a document lists the processed pages in order, each once.
pub proof fn law_provenance_follows_the_pages(
    filter: Option<Seq<u32>>,
    native: Seq<ItemView>,
    pages: Seq<SubmittedView>,
    reasons: Map<u32, Seq<Seq<char>>>,
    n: nat,
)
    requires
        n <= u32::MAX,
    ensures
        ({
            let list = provenance(filter, native, pages, reasons, n);
            &&& forall|i: int, j: int|
                0 <= i < j < list.len() ==> (#[trigger] list[i]).page < (#[trigger] list[j]).page
            &&& forall|i: int| 0 <= i < list.len() ==> 1 <= (#[trigger] list[i]).page <= n
            &&& forall|page: u32|
                1 <= page <= n && #[trigger] is_selected(filter, page) ==> exists|i: int|
                    0 <= i < list.len() && (#[trigger] list[i]).page == page
        }),
    decreases n,
{
    if n > 0 {
        law_provenance_follows_the_pages(filter, native, pages, reasons, (n - 1) as nat);
        let before = provenance(filter, native, pages, reasons, (n - 1) as nat);
        let list = provenance(filter, native, pages, reasons, n);
        assert forall|i: int| 0 <= i < list.len() implies 1 <= (#[trigger] list[i]).page <= n by {
            if i < before.len() {
                assert(list[i] == before[i]);
            }
        }
        assert forall|i: int, j: int| 0 <= i < j < list.len() implies (#[trigger] list[i]).page < (
        #[trigger] list[j]).page by {
            assert(list[i] == before[i]);
            if j < before.len() {
                assert(list[j] == before[j]);
            }
        }
        assert forall|page: u32| 1 <= page <= n && #[trigger] is_selected(filter, page) implies exists|i: int|
            0 <= i < list.len() && (#[trigger] list[i]).page == page by {
            if page == n {
                assert(list[list.len() - 1].page == page);
            } else {
                let i = choose|i: int| 0 <= i < before.len() && (#[trigger] before[i]).page == page;
                assert(list[i] == before[i]);
            }
        }
    }
}

proof fn lemma_suppressed_items(items: Seq<ItemView>, gone: Seq<u32>, n: nat)
    requires
        n <= items.len(),
    ensures
        forall|i: int|
            0 <= i < items_without(items, gone, n).len() ==> !gone.contains(
                (#[trigger] items_without(items, gone, n)[i]).page,
            ),
    decreases n,
{
    if n > 0 {
        lemma_suppressed_items(items, gone, (n - 1) as nat);
        let before = items_without(items, gone, (n - 1) as nat);
        let all = items_without(items, gone, n);
        assert forall|i: int| 0 <= i < all.len() implies !gone.contains((#[trigger] all[i]).page) by {
            if i < before.len() {
                assert(all[i] == before[i]);
            }
        }
    }
}

proof fn lemma_suppressed_rects(rects: Seq<PdfRect>, gone: Seq<u32>, filter: Option<Seq<u32>>, n: nat)
    requires
        n <= rects.len(),
    ensures
        forall|i: int|
            0 <= i < rects_without(rects, gone, filter, n).len() ==> !gone.contains(
                (#[trigger] rects_without(rects, gone, filter, n)[i]).page,
            ) && is_selected(filter, rects_without(rects, gone, filter, n)[i].page),
    decreases n,
{
    if n > 0 {
        lemma_suppressed_rects(rects, gone, filter, (n - 1) as nat);
        let before = rects_without(rects, gone, filter, (n - 1) as nat);
        let all = rects_without(rects, gone, filter, n);
        assert forall|i: int| 0 <= i < all.len() implies !gone.contains((#[trigger] all[i]).page) && is_selected(
            filter,
            all[i].page,
        ) by {
            if i < before.len() {
                assert(all[i] == before[i]);
            }
        }
    }
}

proof fn lemma_suppressed_lines(lines: Seq<PdfLine>, gone: Seq<u32>, filter: Option<Seq<u32>>, n: nat)
    requires
        n <= lines.len(),
    ensures
        forall|i: int|
            0 <= i < lines_without(lines, gone, filter, n).len() ==> !gone.contains(
                (#[trigger] lines_without(lines, gone, filter, n)[i]).page,
            ) && is_selected(filter, lines_without(lines, gone, filter, n)[i].page),
    decreases n,
{
    if n > 0 {
        lemma_suppressed_lines(lines, gone, filter, (n - 1) as nat);
        let before = lines_without(lines, gone, filter, (n - 1) as nat);
        let all = lines_without(lines, gone, filter, n);
        assert forall|i: int| 0 <= i < all.len() implies !gone.contains((#[trigger] all[i]).page) && is_selected(
            filter,
            all[i].page,
        ) by {
            if i < before.len() {
                assert(all[i] == before[i]);
            }
        }
    }
}

/// Nothing of a page whose native text is suppressed goes into the Markdown
/// pass: no text, no rectangle and no line.
pub proof fn law_suppressed_pages_are_not_rendered(
    selection: Selection,
    pdf_type: PdfType,
    needing: Seq<u32>,
    extraction: Extraction,
    filter: Option<Seq<u32>>,
    page: u32,
)
    requires
        selects(selection, pdf_type, needing, extraction, filter),
        is_suppressed(pdf_type, needing, filter, page),
    ensures
        forall|i: int| 0 <= i < selection.items@.len() ==> (#[trigger] selection.items@[i]).page != page,
        forall|i: int| 0 <= i < selection.context.rects@.len() ==> (#[trigger] selection.context.rects@[i]).page != page,
        forall|i: int| 0 <= i < selection.context.lines@.len() ==> (#[trigger] selection.context.lines@[i]).page != page,
{
    let gone = selection.suppressed@;
    assert(gone.contains(page));
    lemma_suppressed_items(views(extraction.items@), gone, extraction.items@.len());
    lemma_suppressed_rects(extraction.rects@, gone, filter, extraction.rects@.len());
    lemma_suppressed_lines(extraction.lines@, gone, filter, extraction.lines@.len());
    assert forall|i: int| 0 <= i < selection.items@.len() implies (#[trigger] selection.items@[i]).page != page by {
        assert(views(selection.items@)[i] == selection.items@[i]@);
    }
}

/// A page that detection leaves to OCR is still left to OCR after
/// preparation.
pub proof fn law_detected_pages_stay(
    prepared: PreparedMarkdown,
    detection: Detection,
    items: Seq<ItemView>,
    context: RenderContext,
    rendered: RenderedMarkdown,
    garbage: bool,
    gid_pages: Seq<u32>,
    page_boxes: Seq<PageArea>,
    page: u32,
)
    requires
        settles(prepared, detection, items, context, rendered, garbage, gid_pages, page_boxes),
        detection.pages_needing_ocr@.contains(page),
        page_exists(page, context.page_count),
    ensures
        prepared.pages_needing_ocr@.contains(page),
{
    let unreadable = rendered.markdown is Some && garbage;
    assert(needs_ocr(
        detection.pdf_type == PdfType::TextBased && unreadable,
        context.page_count,
        detection.pages_needing_ocr@,
        gid_pages,
        rendered.text_quality_pages@,
        page,
    ));
}

/// An empty token list is a valid result for a page: it is accepted, and the
/// page is blank.
pub proof fn law_empty_pages_are_blank(
    request: OcrPageRequest,
    native: Seq<ItemView>,
    pages: Seq<SubmittedView>,
    page: u32,
)
    requires
        orderly(pages),
        submission(pages, page) is None,
    ensures
        first_fault(Seq::empty(), 0) is None,
        source_of(
            native,
            with_page(pages, SubmittedView { page, items: token_items(request, Seq::empty(), 0) }),
            page,
        ) == HybridMarkdownPageSource::Blank,
{
    law_submissions_stay(pages, SubmittedView { page, items: token_items(request, Seq::empty(), 0) }, page);
}

/// Analysis gives no Markdown, whatever the backend replies.
pub proof fn law_analysis_gives_no_markdown<B: MarkdownBackend>(
    backend: &B,
    document: &lopdf::Document,
    page_count: u32,
    options: PdfOptions,
    prepared: PreparedMarkdown,
)
    requires
        prepares(backend, document, page_count, options, Ok(prepared)),
        options.mode == ProcessMode::Analyze,
    ensures
        prepared.markdown is None,
{
}

/// The options of two requests say the same but for the mode, the pages that
/// detection looks at, and the password.
pub open spec fn alike(a: PdfOptions, b: PdfOptions) -> bool {
    &&& a.detection.min_text_ops_per_page == b.detection.min_text_ops_per_page
    &&& a.detection.text_page_ratio_threshold == b.detection.text_page_ratio_threshold
    &&& a.page_filter == b.page_filter
    &&& a.markdown == b.markdown
    &&& a.max_decompressed_size == b.max_decompressed_size
}

/// A complete session depends neither on the mode nor on the pages that
/// detection was to look at, nor on the password: what can come of it with the
/// one is what can come of it with the other.
pub proof fn law_complete_sessions_ignore_mode_scan_and_password<B: MarkdownBackend>(
    backend: &B,
    document: &lopdf::Document,
    page_count: u32,
    a: PdfOptions,
    b: PdfOptions,
    state: Result<PreparedMarkdown, PdfFailure>,
)
    requires
        alike(a, b),
        prepares(backend, document, page_count, complete_options(a), state),
    ensures
        prepares(backend, document, page_count, complete_options(b), state),
{
    let one = complete_options(a);
    let other = complete_options(b);
    assert(one.detection == other.detection);
    let reply = choose|reply: Result<Detection, PdfFailure>| #[trigger]
        detects(backend, document, page_count, one, reply) && follows_detection(
            backend,
            document,
            page_count,
            one,
            reply,
            state,
        );
    assert(detects(backend, document, page_count, other, reply));
}

/// Every prepared document keeps the page filter of the request and knows the
/// visible box of each page.
pub proof fn law_preparation_keeps_the_selection<B: MarkdownBackend>(
    backend: &B,
    document: &lopdf::Document,
    page_count: u32,
    options: PdfOptions,
    prepared: PreparedMarkdown,
)
    requires
        prepares(backend, document, page_count, options, Ok(prepared)),
    ensures
        filter_pages(prepared.context.page_filter) == filter_pages(options.page_filter),
        prepared.context.page_count == page_count,
        areas_of(prepared.page_boxes@, *document),
{
}

} // verus!
