//! What a prepared document owes to what was detected in it.

use crate::hybrid_markdown::document::{Detection, PageArea, PdfType, RenderContext};
use crate::hybrid_markdown::prepare::{is_suppressed, items_without, sample, settles, suppression_reasons};
use crate::hybrid_markdown::session::{is_selected, PreparedMarkdown, RenderedMarkdown};
use crate::types::ItemView;
use vstd::prelude::*;

verus! {

/// A text document that cannot be read needs OCR on each of its pages and gives
/// no markdown; a mixed one counts as scanned from then on.
pub proof fn law_unreadable_documents_need_ocr(
    r: PreparedMarkdown,
    detection: Detection,
    items: Seq<ItemView>,
    context: RenderContext,
    rendered: RenderedMarkdown,
    gid_pages: Seq<u32>,
    boxes: Seq<PageArea>,
    page: u32,
)
    requires
        settles(r, detection, items, context, rendered, true, gid_pages, boxes),
        rendered.markdown is Some,
        1 <= page <= context.page_count,
    ensures
        detection.pdf_type == PdfType::TextBased ==> r.pages_needing_ocr@.contains(page) && r.has_encoding_issues
            && r.markdown is None && r.pdf_type == PdfType::TextBased,
        detection.pdf_type == PdfType::Mixed ==> r.pdf_type == PdfType::Scanned && r.markdown is None,
{
}

/// A readable document keeps its type, its confidence and its markdown, unless
/// no page of it could be mapped to characters; a page needs OCR where that was
/// detected, where its characters could not be mapped or where its text is poor,
/// and nowhere else.
pub proof fn law_readable_documents_keep_their_text(
    r: PreparedMarkdown,
    detection: Detection,
    items: Seq<ItemView>,
    context: RenderContext,
    rendered: RenderedMarkdown,
    gid_pages: Seq<u32>,
    boxes: Seq<PageArea>,
    page: u32,
)
    requires
        settles(r, detection, items, context, rendered, false, gid_pages, boxes),
    ensures
        r.pdf_type == detection.pdf_type,
        r.confidence == detection.confidence,
        gid_pages.len() < context.page_count || gid_pages.len() == 0 ==> r.markdown == rendered.markdown,
        gid_pages.len() > 0 && gid_pages.len() >= context.page_count ==> r.markdown is None,
        detection.pages_needing_ocr@.contains(page) || gid_pages.contains(page) || rendered.text_quality_pages@.contains(
            page,
        ) <==> r.pages_needing_ocr@.contains(page),
        r.has_encoding_issues == rendered.has_encoding_issues,
{
}

/// The text of the selected items, one after the other.
pub open spec fn selected_text(items: Seq<ItemView>, filter: Option<Seq<u32>>) -> Seq<char>
    decreases items.len(),
{
    if items.len() == 0 {
        Seq::empty()
    } else if is_selected(filter, items.last().page) {
        selected_text(items.drop_last(), filter) + items.last().text
    } else {
        selected_text(items.drop_last(), filter)
    }
}

/// Up to the limit, the sample of a document is all of its selected text; items
/// of other pages count for nothing.
pub proof fn law_short_documents_are_sampled_whole(items: Seq<ItemView>, filter: Option<Seq<u32>>, limit: nat)
    requires
        items.len() <= limit,
    ensures
        sample(items, filter, limit) == selected_text(items, filter),
    decreases items.len(),
{
    if items.len() > 0 {
        lemma_first_text(items, filter);
        let rest = items.skip(1);
        if is_selected(filter, items[0].page) {
            law_short_documents_are_sampled_whole(rest, filter, (limit - 1) as nat);
        } else {
            law_short_documents_are_sampled_whole(rest, filter, limit);
            assert(Seq::<char>::empty() + selected_text(rest, filter) =~= selected_text(rest, filter));
        }
    }
}

proof fn lemma_first_text(items: Seq<ItemView>, filter: Option<Seq<u32>>)
    requires
        items.len() > 0,
    ensures
        selected_text(items, filter) == (if is_selected(filter, items[0].page) {
            items[0].text
        } else {
            Seq::empty()
        }) + selected_text(items.skip(1), filter),
    decreases items.len(),
{
    let none = Seq::<char>::empty();
    if items.len() == 1 {
        assert(items.drop_last() =~= Seq::<ItemView>::empty());
        assert(items.skip(1) =~= Seq::<ItemView>::empty());
        assert(selected_text(items.drop_last(), filter) =~= none);
        assert(selected_text(items.skip(1), filter) =~= none);
        assert(selected_text(items, filter) =~= (if is_selected(filter, items[0].page) {
            items[0].text
        } else {
            none
        }) + none);
    } else {
        lemma_first_text(items.drop_last(), filter);
        assert(items.drop_last()[0] == items[0]);
        assert(items.drop_last().skip(1) =~= items.skip(1).drop_last());
        assert(items.skip(1).last() == items.last());
        let first = if is_selected(filter, items[0].page) {
            items[0].text
        } else {
            none
        };
        let middle = selected_text(items.skip(1).drop_last(), filter);
        assert((first + middle) + items.last().text =~= first + (middle + items.last().text));
    }
}

/// The items of the pages that are taken out go, and all others stay in their
/// order.
pub proof fn law_items_of_other_pages_stay(items: Seq<ItemView>, gone: Seq<u32>, n: nat)
    requires
        n <= items.len(),
    ensures
        forall|k: int|
            0 <= k < items_without(items, gone, n).len() ==> !gone.contains(
                (#[trigger] items_without(items, gone, n)[k]).page,
            ),
        forall|i: int|
            0 <= i < n && !gone.contains((#[trigger] items[i]).page) ==> items_without(items, gone, n).contains(items[i]),
        (forall|i: int| 0 <= i < n ==> !gone.contains((#[trigger] items[i]).page)) ==> items_without(items, gone, n)
            == items.take(n as int),
    decreases n,
{
    if n > 0 {
        let m = (n - 1) as nat;
        law_items_of_other_pages_stay(items, gone, m);
        let before = items_without(items, gone, m);
        let all = items_without(items, gone, n);
        assert forall|i: int| 0 <= i < n && !gone.contains((#[trigger] items[i]).page) implies all.contains(items[i]) by {
            if i == m {
                assert(all[all.len() - 1] == items[i]);
            } else {
                let k = before.index_of(items[i]);
                assert(all[k] == items[i]);
            }
        }
        if forall|i: int| 0 <= i < n ==> !gone.contains((#[trigger] items[i]).page) {
            assert(!gone.contains(items[m as int].page));
            assert(items.take(m as int).push(items[m as int]) =~= items.take(n as int));
        }
    } else {
        assert(items.take(0) =~= Seq::<ItemView>::empty());
    }
}

/// Only text documents lose pages to garbled text, and only selected ones that
/// need OCR; each of them is given that one reason.
pub proof fn law_garbled_pages_are_told(
    pdf_type: PdfType,
    needing: Seq<u32>,
    filter: Option<Seq<u32>>,
    gone: Seq<u32>,
    page: u32,
)
    requires
        gone.contains(page) <==> is_suppressed(pdf_type, needing, filter, page),
    ensures
        suppression_reasons(gone).dom().contains(page) <==> pdf_type == PdfType::TextBased && needing.contains(page)
            && is_selected(filter, page),
        gone.contains(page) ==> suppression_reasons(gone)[page].len() == 1,
{
}

} // verus!
