//! Preparations with a backend that always replies the same.

use crate::hybrid_markdown::document::{
    Assembly, Detection, DetectionConfig, Extraction, MarkdownBackend, PdfOptions, PdfType, ProcessMode,
    RenderContext, StructTable,
};
use crate::hybrid_markdown::error::PdfFailure;
use crate::hybrid_markdown::laws::alike;
use crate::hybrid_markdown::prepare::{
    complete_options, detects, extracts, follows_detection, garbage_verdict, has_no_text, is_empty_pass,
    markdown_verdict, passes, prepared_from, prepares, selects, settles, Selection,
};
use crate::hybrid_markdown::session::{
    concludes, filter_pages, requests_of, PreparedMarkdown, RenderedMarkdown, RequestView,
};
use crate::markdown::preprocess::RoleEntry;
use crate::types::{views, TextItem};
use crate::vision::routing::ascending;
use vstd::prelude::*;

verus! {

/// Two Markdown passes work with the same.
pub open spec fn same_context(a: RenderContext, b: RenderContext) -> bool {
    &&& a.page_count == b.page_count
    &&& filter_pages(a.page_filter) == filter_pages(b.page_filter)
    &&& a.markdown_options == b.markdown_options
    &&& a.rects@ == b.rects@
    &&& a.lines@ == b.lines@
    &&& a.page_thresholds@ == b.page_thresholds@
    &&& a.struct_roles@ == b.struct_roles@
    &&& a.struct_tables@ == b.struct_tables@
}

/// The replies of a backend depend on what it is asked alone.
pub open spec fn replies_alike<B: MarkdownBackend>(backend: &B) -> bool {
    &&& forall|
        document: &lopdf::Document,
        page_count: u32,
        config: &DetectionConfig,
        limit: Option<usize>,
        a: Result<Detection, PdfFailure>,
        b: Result<Detection, PdfFailure>,
    | #[trigger]
        call_ensures(B::detect, (backend, document, page_count, config, limit), a) && #[trigger] call_ensures(
            B::detect,
            (backend, document, page_count, config, limit),
            b,
        ) ==> a == b
    &&& forall|
        document: &lopdf::Document,
        filter: &Option<Vec<u32>>,
        limit: Option<usize>,
        invisible: bool,
        a: Result<Extraction, PdfFailure>,
        b: Result<Extraction, PdfFailure>,
    | #[trigger]
        call_ensures(B::extract, (backend, document, filter, limit, invisible), a) && #[trigger] call_ensures(
            B::extract,
            (backend, document, filter, limit, invisible),
            b,
        ) ==> a == b
    &&& forall|document: &lopdf::Document, a: Vec<RoleEntry>, b: Vec<RoleEntry>| #[trigger]
        call_ensures(B::struct_roles, (backend, document), a) && #[trigger] call_ensures(
            B::struct_roles,
            (backend, document),
            b,
        ) ==> a == b
    &&& forall|document: &lopdf::Document, a: Vec<StructTable>, b: Vec<StructTable>| #[trigger]
        call_ensures(B::struct_tables, (backend, document), a) && #[trigger] call_ensures(
            B::struct_tables,
            (backend, document),
            b,
        ) ==> a == b
    &&& forall|s: String, t: String, a: bool, b: bool|
        s@ == t@ && #[trigger] garbage_verdict(backend, s, a) && #[trigger] garbage_verdict(backend, t, b) ==> a == b
    &&& forall|
        s: Vec<TextItem>,
        t: Vec<TextItem>,
        c: RenderContext,
        d: RenderContext,
        emit: bool,
        a: Assembly,
        b: Assembly,
    |
        views(s@) == views(t@) && same_context(c, d) && #[trigger] call_ensures(
            B::assemble,
            (backend, s, &c, emit),
            a,
        ) && #[trigger] call_ensures(B::assemble, (backend, t, &d, emit), b) ==> a == b
}

/// Ascending lists of the same pages are equal.
proof fn lemma_same_pages(a: Seq<u32>, b: Seq<u32>)
    requires
        ascending(a),
        ascending(b),
        forall|page: u32| a.contains(page) <==> b.contains(page),
    ensures
        a == b,
    decreases a.len(),
{
    if a.len() == 0 {
        if b.len() > 0 {
            assert(b.contains(b[0]));
        }
        assert(a =~= b);
    } else {
        assert(a.contains(a.last()));
        let k = b.index_of(a.last());
        assert(b[k] == a.last());
        assert(b.contains(b.last()));
        let m = a.index_of(b.last());
        assert(a[m] == b.last());
        assert(a.last() == b.last());
        let front = a.drop_last();
        let other = b.drop_last();
        assert forall|page: u32| front.contains(page) <==> other.contains(page) by {
            if front.contains(page) {
                let i = front.index_of(page);
                assert(a[i] == page);
                assert(a.contains(page));
                let j = b.index_of(page);
                assert(b[j] == page);
                assert(page < a.last());
                assert(j < b.len() - 1);
                assert(other[j] == page);
            }
            if other.contains(page) {
                let i = other.index_of(page);
                assert(b[i] == page);
                assert(b.contains(page));
                let j = a.index_of(page);
                assert(a[j] == page);
                assert(page < b.last());
                assert(j < a.len() - 1);
                assert(front[j] == page);
            }
        }
        lemma_same_pages(front, other);
        assert(front.push(a.last()) =~= a);
        assert(other.push(b.last()) =~= b);
    }
}

/// What the requests of a prepared document rest on is the same.
pub open spec fn asks_alike(a: PreparedMarkdown, b: PreparedMarkdown) -> bool {
    &&& a.pages_needing_ocr@ == b.pages_needing_ocr@
    &&& filter_pages(a.context.page_filter) == filter_pages(b.context.page_filter)
    &&& a.page_boxes@ == b.page_boxes@
    &&& a.ocr_reasons_by_page@ == b.ocr_reasons_by_page@
}

/// The requests for a prepared document.
pub open spec fn prepared_requests(prepared: PreparedMarkdown) -> Seq<RequestView> {
    requests_of(
        prepared.pages_needing_ocr@,
        filter_pages(prepared.context.page_filter),
        prepared.page_boxes@,
        prepared.ocr_reasons_by_page@,
        prepared.pages_needing_ocr@.len(),
    )
}

proof fn lemma_same_text<B: MarkdownBackend>(
    backend: &B,
    document: &lopdf::Document,
    pdf_type: PdfType,
    filter: &Option<Vec<u32>>,
    limit: Option<usize>,
    a: Result<Option<Extraction>, PdfFailure>,
    b: Result<Option<Extraction>, PdfFailure>,
)
    requires
        replies_alike(backend),
        extracts(backend, document, pdf_type, filter, limit, a),
        extracts(backend, document, pdf_type, filter, limit, b),
    ensures
        a == b,
{
}

proof fn lemma_same_settling(
    detection: Detection,
    a: PreparedMarkdown,
    b: PreparedMarkdown,
    first: RenderContext,
    second: RenderContext,
    one: RenderedMarkdown,
    other: RenderedMarkdown,
    garbage: bool,
    gid_pages: Seq<u32>,
)
    requires
        settles(a, detection, views(a.source_items@), first, one, garbage, gid_pages, a.page_boxes@),
        settles(b, detection, views(b.source_items@), second, other, garbage, gid_pages, b.page_boxes@),
        first.page_count == second.page_count,
        one.markdown is Some == other.markdown is Some,
        one.text_quality_pages@ == other.text_quality_pages@,
        one.ocr_reasons_by_page@ == other.ocr_reasons_by_page@,
    ensures
        a.pages_needing_ocr@ == b.pages_needing_ocr@,
        a.ocr_reasons_by_page@ == b.ocr_reasons_by_page@,
{
    assert forall|page: u32| a.pages_needing_ocr@.contains(page) <==> b.pages_needing_ocr@.contains(page) by {
    }
    lemma_same_pages(a.pages_needing_ocr@, b.pages_needing_ocr@);
}

proof fn lemma_same_selection(
    pdf_type: PdfType,
    needing: Seq<u32>,
    extraction: Extraction,
    filter: Option<Seq<u32>>,
    a: Selection,
    b: Selection,
)
    requires
        selects(a, pdf_type, needing, extraction, filter),
        selects(b, pdf_type, needing, extraction, filter),
    ensures
        views(a.items@) == views(b.items@),
        a.context.rects@ == b.context.rects@,
        a.context.lines@ == b.context.lines@,
        a.context.page_thresholds == b.context.page_thresholds,
        filter_pages(a.context.page_filter) == filter_pages(b.context.page_filter),
        a.reasons@ == b.reasons@,
        a.gid_pages@ == b.gid_pages@,
{
    lemma_same_pages(a.suppressed@, b.suppressed@);
    lemma_same_pages(a.gid_pages@, b.gid_pages@);
}

proof fn lemma_same_preparation<B: MarkdownBackend>(
    backend: &B,
    document: &lopdf::Document,
    filter: Option<Seq<u32>>,
    mode: ProcessMode,
    detection: Detection,
    extraction: Option<Extraction>,
    roles: Vec<RoleEntry>,
    more_roles: Vec<RoleEntry>,
    tables: Vec<StructTable>,
    more_tables: Vec<StructTable>,
    a: PreparedMarkdown,
    b: PreparedMarkdown,
)
    requires
        replies_alike(backend),
        prepared_from(backend, a, document, filter, mode, detection, extraction, roles, tables),
        prepared_from(backend, b, document, filter, mode, detection, extraction, more_roles, more_tables),
        a.context.page_count == b.context.page_count,
        a.context.markdown_options == b.context.markdown_options,
    ensures
        a.pages_needing_ocr@ == b.pages_needing_ocr@,
        a.ocr_reasons_by_page@ == b.ocr_reasons_by_page@,
{
    let emit = mode != ProcessMode::Analyze;
    match extraction {
        Some(found) => {
            let first = choose|selection: Selection|
                {
                    &&& #[trigger] selects(
                        selection,
                        detection.pdf_type,
                        detection.pages_needing_ocr@,
                        found,
                        filter,
                    )
                    &&& passes(backend, a, detection, selection, emit)
                };
            let second = choose|selection: Selection|
                {
                    &&& #[trigger] selects(
                        selection,
                        detection.pdf_type,
                        detection.pages_needing_ocr@,
                        found,
                        filter,
                    )
                    &&& passes(backend, b, detection, selection, emit)
                };
            lemma_same_selection(
                detection.pdf_type,
                detection.pages_needing_ocr@,
                found,
                filter,
                first,
                second,
            );
            lemma_same_pass(backend, detection, emit, first, second, a, b);
        },
        None => {
            let one = choose|rendered: RenderedMarkdown|
                {
                    &&& is_empty_pass(rendered)
                    &&& #[trigger] settles(
                        a,
                        detection,
                        Seq::empty(),
                        a.context,
                        rendered,
                        false,
                        Seq::empty(),
                        a.page_boxes@,
                    )
                };
            let other = choose|rendered: RenderedMarkdown|
                {
                    &&& is_empty_pass(rendered)
                    &&& #[trigger] settles(
                        b,
                        detection,
                        Seq::empty(),
                        b.context,
                        rendered,
                        false,
                        Seq::empty(),
                        b.page_boxes@,
                    )
                };
            assert(one.text_quality_pages@ =~= other.text_quality_pages@);
            lemma_same_settling(detection, a, b, a.context, b.context, one, other, false, Seq::empty());
        },
    }
}

proof fn lemma_same_pass<B: MarkdownBackend>(
    backend: &B,
    detection: Detection,
    emit: bool,
    first: Selection,
    second: Selection,
    a: PreparedMarkdown,
    b: PreparedMarkdown,
)
    requires
        replies_alike(backend),
        passes(backend, a, detection, first, emit),
        passes(backend, b, detection, second, emit),
        views(first.items@) == views(second.items@),
        a.context.page_count == b.context.page_count,
        a.context.markdown_options == b.context.markdown_options,
        a.context.struct_roles@ == b.context.struct_roles@,
        a.context.struct_tables@ == b.context.struct_tables@,
        first.context.rects@ == second.context.rects@,
        first.context.lines@ == second.context.lines@,
        first.context.page_thresholds == second.context.page_thresholds,
        filter_pages(first.context.page_filter) == filter_pages(second.context.page_filter),
        first.reasons@ == second.reasons@,
        first.gid_pages@ == second.gid_pages@,
    ensures
        a.pages_needing_ocr@ == b.pages_needing_ocr@,
        a.ocr_reasons_by_page@ == b.ocr_reasons_by_page@,
{
    let (sent, assembly, rendered, garbage) = choose|
        sent: Vec<TextItem>,
        assembly: Assembly,
        rendered: RenderedMarkdown,
        garbage: bool,
    |
        {
            &&& views(sent@) == views(first.items@)
            &&& #[trigger] call_ensures(B::assemble, (backend, sent, &first.context, emit), assembly)
            &&& concludes(rendered, assembly, first.reasons@, emit)
            &&& markdown_verdict(backend, rendered.markdown, garbage)
            &&& #[trigger] settles(
                a,
                detection,
                views(first.items@),
                first.context,
                rendered,
                garbage,
                first.gid_pages@,
                a.page_boxes@,
            )
        };
    let (resent, reassembly, rerendered, regarbage) = choose|
        sent: Vec<TextItem>,
        assembly: Assembly,
        rendered: RenderedMarkdown,
        garbage: bool,
    |
        {
            &&& views(sent@) == views(second.items@)
            &&& #[trigger] call_ensures(B::assemble, (backend, sent, &second.context, emit), assembly)
            &&& concludes(rendered, assembly, second.reasons@, emit)
            &&& markdown_verdict(backend, rendered.markdown, garbage)
            &&& #[trigger] settles(
                b,
                detection,
                views(second.items@),
                second.context,
                rendered,
                garbage,
                second.gid_pages@,
                b.page_boxes@,
            )
        };
    assert(same_context(first.context, second.context));
    assert(assembly == reassembly);
    assert(rendered.markdown == rerendered.markdown);
    assert(garbage == regarbage);
    lemma_same_settling(
        detection,
        a,
        b,
        first.context,
        second.context,
        rendered,
        rerendered,
        garbage,
        first.gid_pages@,
    );
}

/// With a backend that always replies the same, two preparations of a complete
/// session under options that say the same but for the mode, the pages that
/// detection looks at and the password come to the same end: both fail alike,
/// or both give the same requests.
pub proof fn law_complete_sessions_agree<B: MarkdownBackend>(
    backend: &B,
    document: &lopdf::Document,
    page_count: u32,
    first: PdfOptions,
    second: PdfOptions,
    a: Result<PreparedMarkdown, PdfFailure>,
    b: Result<PreparedMarkdown, PdfFailure>,
)
    requires
        replies_alike(backend),
        alike(first, second),
        prepares(backend, document, page_count, complete_options(first), a),
        prepares(backend, document, page_count, complete_options(second), b),
    ensures
        match a {
            Ok(one) => b matches Ok(other) && asks_alike(one, other) && prepared_requests(one) == prepared_requests(
                other,
            ),
            Err(failure) => b == Err::<PreparedMarkdown, PdfFailure>(failure),
        },
{
    let options = complete_options(first);
    let others = complete_options(second);
    assert(options.detection == others.detection);
    let reply = choose|reply: Result<Detection, PdfFailure>| #[trigger]
        detects(backend, document, page_count, options, reply) && follows_detection(
            backend,
            document,
            page_count,
            options,
            reply,
            a,
        );
    let again = choose|reply: Result<Detection, PdfFailure>| #[trigger]
        detects(backend, document, page_count, others, reply) && follows_detection(
            backend,
            document,
            page_count,
            others,
            reply,
            b,
        );
    assert(reply == again);
    if let Ok(detection) = reply {
        if has_no_text(detection.pdf_type) {
            let (one, other) = (a->Ok_0, b->Ok_0);
            lemma_same_pages(one.pages_needing_ocr@, other.pages_needing_ocr@);
            assert(one.page_boxes@ =~= other.page_boxes@);
        } else {
            let text = choose|text: Result<Option<Extraction>, PdfFailure>|
                {
                    &&& #[trigger] extracts(
                        backend,
                        document,
                        detection.pdf_type,
                        &options.page_filter,
                        options.max_decompressed_size,
                        text,
                    )
                    &&& match text {
                        Ok(extraction) => a matches Ok(prepared) && exists|
                            roles: Vec<RoleEntry>,
                            tables: Vec<StructTable>,
                        | #[trigger]
                            prepared_from(
                                backend,
                                prepared,
                                document,
                                filter_pages(options.page_filter),
                                options.mode,
                                detection,
                                extraction,
                                roles,
                                tables,
                            ),
                        Err(failure) => a == Err::<PreparedMarkdown, PdfFailure>(failure),
                    }
                };
            let retext = choose|text: Result<Option<Extraction>, PdfFailure>|
                {
                    &&& #[trigger] extracts(
                        backend,
                        document,
                        detection.pdf_type,
                        &others.page_filter,
                        others.max_decompressed_size,
                        text,
                    )
                    &&& match text {
                        Ok(extraction) => b matches Ok(prepared) && exists|
                            roles: Vec<RoleEntry>,
                            tables: Vec<StructTable>,
                        | #[trigger]
                            prepared_from(
                                backend,
                                prepared,
                                document,
                                filter_pages(others.page_filter),
                                others.mode,
                                detection,
                                extraction,
                                roles,
                                tables,
                            ),
                        Err(failure) => b == Err::<PreparedMarkdown, PdfFailure>(failure),
                    }
                };
            lemma_same_text(
                backend,
                document,
                detection.pdf_type,
                &options.page_filter,
                options.max_decompressed_size,
                text,
                retext,
            );
            if let Ok(extraction) = text {
                let (one, other) = (a->Ok_0, b->Ok_0);
                let filter = filter_pages(options.page_filter);
                let (roles, tables) = choose|roles: Vec<RoleEntry>, tables: Vec<StructTable>| #[trigger]
                    prepared_from(
                        backend,
                        one,
                        document,
                        filter,
                        options.mode,
                        detection,
                        extraction,
                        roles,
                        tables,
                    );
                let (more_roles, more_tables) = choose|roles: Vec<RoleEntry>, tables: Vec<StructTable>| #[trigger]
                    prepared_from(
                        backend,
                        other,
                        document,
                        filter,
                        options.mode,
                        detection,
                        extraction,
                        roles,
                        tables,
                    );
                lemma_same_preparation(
                    backend,
                    document,
                    filter,
                    options.mode,
                    detection,
                    extraction,
                    roles,
                    more_roles,
                    tables,
                    more_tables,
                    one,
                    other,
                );
                assert(one.page_boxes@ =~= other.page_boxes@);
            }
        }
    }
}

} // verus!
