//! What the command line tool prints.

use crate::cli::arguments::{Command, CommandError, RefusalView};
use crate::cli::json::{
    bool_text, escaped, format_ocr_error_json, optional_json_number, optional_number, push_bool, push_escaped,
    push_quoted_list, push_reasons, quoted_list, reasons_json,
};
use crate::hybrid_markdown::document::PdfType;
use crate::hybrid_markdown::prepare::PdfProcessResult;
use crate::hybrid_markdown::reasons::entry_views;
use crate::numbers::{decimal, listed, push_decimal, push_list};
use crate::text::{characters, copy_text, find_utf8_length, push_chars, push_text, strings, text_bytes, text_of};
use crate::types::LayoutComplexity;
use crate::vision::ocr::ModelIdentity;
use crate::vision::result::{OcrPdfPage, OcrPdfResult, PageContentSource};
use vstd::prelude::*;

verus! {

/// What the tool prints and writes, and the code that it exits with.
#[derive(Debug)]
pub struct Report {
    /// Text for the standard output.
    pub out: String,
    /// Text for the standard error.
    pub err: String,
    /// A file to write, by its path, and its contents.
    pub file: Option<(String, String)>,
    pub exit_code: i32,
}

/// Numbers with commas between them.
pub open spec fn pages_json(pages: Seq<u32>) -> Seq<char> {
    listed(pages, ","@, pages.len())
}

/// Numbers in brackets, as the debug format writes them.
pub open spec fn pages_text(pages: Seq<u32>) -> Seq<char> {
    "["@ + listed(pages, ", "@, pages.len()) + "]"@
}

fn write_pages(pages: &Vec<u32>) -> (r: Vec<char>)
    ensures
        r@ == pages_text(pages@),
{
    let mut out = characters("[");
    let mut list: Vec<char> = Vec::new();
    push_list(&mut list, pages, ", ");
    assert(list@ =~= listed(pages@, ", "@, pages@.len()));
    push_chars(&mut out, &list);
    push_text(&mut out, "]");
    out
}

fn push_pages(out: &mut Vec<char>, pages: &Vec<u32>)
    ensures
        final(out)@ == old(out)@ + pages_json(pages@),
{
    push_list(out, pages, ",");
}

/// Where a page came from, in words.
pub open spec fn source_word(source: PageContentSource) -> Seq<char> {
    match source {
        PageContentSource::Native => "native"@,
        PageContentSource::Ocr => "ocr"@,
        PageContentSource::Fused => "fused"@,
    }
}

/// A model as a JSON object, or `null`.
pub open spec fn model_json(model: Option<ModelIdentity>) -> Seq<char> {
    match model {
        Some(m) => "{\"name\":\""@ + escaped(m.name@) + "\",\"revision\":\""@ + escaped(m.revision@) + "\"}"@,
        None => "null"@,
    }
}

fn write_model(model: &Option<ModelIdentity>) -> (r: Vec<char>)
    ensures
        r@ == model_json(*model),
{
    match model {
        Some(m) => {
            let mut out = characters("{\"name\":\"");
            push_escaped(&mut out, m.name.as_str());
            push_text(&mut out, "\",\"revision\":\"");
            push_escaped(&mut out, m.revision.as_str());
            push_text(&mut out, "\"}");
            out
        },
        None => characters("null"),
    }
}

/// A page as a JSON object.
pub open spec fn page_json(page: OcrPdfPage) -> Seq<char> {
    let p = page.provenance;
    "{\"page\":"@ + decimal(p.page_number as nat) + ",\"source\":\""@ + source_word(p.source) + "\",\"markdown\":\""@
        + escaped(page.markdown@) + "\",\"ocr_model\":"@ + model_json(p.ocr_model) + ",\"render_dpi\":"@
        + optional_number(p.render_dpi) + ",\"ocr_confidence\":"@ + optional_number(p.ocr_confidence)
        + ",\"hosted_recommended\":"@ + bool_text(p.hosted_recommended) + ",\"timings\":{\"render_ms\":"@ + decimal(
        p.timings.render_ms as nat,
    ) + ",\"ocr_ms\":"@ + decimal(p.timings.ocr_ms as nat) + ",\"assembly_ms\":"@ + decimal(
        p.timings.assembly_ms as nat,
    ) + "},\"warnings\":["@ + quoted_list(strings(p.warnings@), p.warnings@.len()) + "]}"@
}

fn write_page(page: &OcrPdfPage) -> (r: Vec<char>)
    ensures
        r@ == page_json(*page),
{
    let p = &page.provenance;
    let mut out = characters("{\"page\":");
    push_decimal(&mut out, p.page_number as u128);
    push_text(&mut out, ",\"source\":\"");
    match p.source {
        PageContentSource::Native => {
            push_text(&mut out, "native");
        },
        PageContentSource::Ocr => {
            push_text(&mut out, "ocr");
        },
        PageContentSource::Fused => {
            push_text(&mut out, "fused");
        },
    }
    push_text(&mut out, "\",\"markdown\":\"");
    push_escaped(&mut out, page.markdown.as_str());
    push_text(&mut out, "\",\"ocr_model\":");
    let model = write_model(&p.ocr_model);
    push_chars(&mut out, &model);
    push_text(&mut out, ",\"render_dpi\":");
    optional_json_number(&mut out, p.render_dpi);
    push_text(&mut out, ",\"ocr_confidence\":");
    optional_json_number(&mut out, p.ocr_confidence);
    push_text(&mut out, ",\"hosted_recommended\":");
    push_bool(&mut out, p.hosted_recommended);
    push_text(&mut out, ",\"timings\":{\"render_ms\":");
    push_decimal(&mut out, p.timings.render_ms as u128);
    push_text(&mut out, ",\"ocr_ms\":");
    push_decimal(&mut out, p.timings.ocr_ms as u128);
    push_text(&mut out, ",\"assembly_ms\":");
    push_decimal(&mut out, p.timings.assembly_ms as u128);
    push_text(&mut out, "},\"warnings\":[");
    push_quoted_list(&mut out, &p.warnings);
    push_text(&mut out, "]}");
    out
}

/// Pages as JSON objects with commas between them, the first `n` of them.
pub open spec fn page_objects(pages: Seq<OcrPdfPage>, n: nat) -> Seq<char>
    decreases n,
{
    if n == 0 {
        Seq::empty()
    } else if n == 1 {
        page_json(pages[0])
    } else {
        page_objects(pages, (n - 1) as nat) + ","@ + page_json(pages[n - 1])
    }
}

fn write_page_objects(pages: &Vec<OcrPdfPage>) -> (r: Vec<char>)
    ensures
        r@ == page_objects(pages@, pages@.len()),
{
    let mut out: Vec<char> = Vec::new();
    let mut i: usize = 0;
    while i < pages.len()
        invariant
            i <= pages@.len(),
            out@ == page_objects(pages@, i as nat),
        decreases pages@.len() - i,
    {
        let object = write_page(&pages[i]);
        if i == 0 {
            out = object;
        } else {
            push_text(&mut out, ",");
            push_chars(&mut out, &object);
        }
        i += 1;
    }
    out
}

/// The JSON report on a document processed with OCR.
pub open spec fn ocr_json(r: OcrPdfResult) -> Seq<char> {
    "{\"schema_version\":1,\"page_count\":"@ + decimal(r.page_count as nat) + ",\"processing_time_ms\":"@ + decimal(
        r.processing_time_ms as nat,
    ) + ",\"render_time_ms\":"@ + decimal(r.render_time_ms as nat) + ",\"ocr_time_ms\":"@ + decimal(
        r.ocr_time_ms as nat,
    ) + ",\"pages_recommended_for_ocr\":["@ + pages_json(r.pages_recommended_for_ocr@)
        + "],\"pages_routed_to_ocr\":["@ + pages_json(r.pages_routed_to_ocr@) + "],\"pages_recommending_hosted\":["@
        + pages_json(r.pages_recommending_hosted@) + "],\"ocr_reasons_by_page\":["@ + reasons_json(
        entry_views(r.ocr_reasons_by_page@),
        r.ocr_reasons_by_page@.len(),
    ) + "],\"is_complex\":"@ + bool_text(r.is_complex) + ",\"pages_with_tables\":["@ + pages_json(
        r.pages_with_tables@,
    ) + "],\"pages_with_columns\":["@ + pages_json(r.pages_with_columns@) + "],\"pages\":["@ + page_objects(
        r.pages@,
        r.pages@.len(),
    ) + "],\"markdown\":\""@ + escaped(r.markdown@) + "\"}"@
}

fn write_ocr_json(r: &OcrPdfResult) -> (out: Vec<char>)
    ensures
        out@ == ocr_json(*r),
{
    let mut out = characters("{\"schema_version\":1,\"page_count\":");
    push_decimal(&mut out, r.page_count as u128);
    push_text(&mut out, ",\"processing_time_ms\":");
    push_decimal(&mut out, r.processing_time_ms as u128);
    push_text(&mut out, ",\"render_time_ms\":");
    push_decimal(&mut out, r.render_time_ms as u128);
    push_text(&mut out, ",\"ocr_time_ms\":");
    push_decimal(&mut out, r.ocr_time_ms as u128);
    push_text(&mut out, ",\"pages_recommended_for_ocr\":[");
    push_pages(&mut out, &r.pages_recommended_for_ocr);
    push_text(&mut out, "],\"pages_routed_to_ocr\":[");
    push_pages(&mut out, &r.pages_routed_to_ocr);
    push_text(&mut out, "],\"pages_recommending_hosted\":[");
    push_pages(&mut out, &r.pages_recommending_hosted);
    push_text(&mut out, "],\"ocr_reasons_by_page\":[");
    push_reasons(&mut out, &r.ocr_reasons_by_page);
    push_text(&mut out, "],\"is_complex\":");
    push_bool(&mut out, r.is_complex);
    push_text(&mut out, ",\"pages_with_tables\":[");
    push_pages(&mut out, &r.pages_with_tables);
    push_text(&mut out, "],\"pages_with_columns\":[");
    push_pages(&mut out, &r.pages_with_columns);
    push_text(&mut out, "],\"pages\":[");
    let pages = write_page_objects(&r.pages);
    push_chars(&mut out, &pages);
    push_text(&mut out, "],\"markdown\":\"");
    push_escaped(&mut out, r.markdown.as_str());
    push_text(&mut out, "\"}");
    out
}

/// The JSON report on a document processed with OCR.
pub fn format_ocr_json(result: &OcrPdfResult) -> (r: String)
    ensures
        r@ == ocr_json(*result),
{
    let out = write_ocr_json(result);
    text_of(&out)
}

/// The layout of a document, in words.
pub open spec fn layout_text(layout: LayoutComplexity) -> Seq<char> {
    if layout.is_complex {
        "Layout: COMPLEX\n"@ + (if layout.pages_with_tables@.len() > 0 {
            "  Pages with tables: "@ + pages_text(layout.pages_with_tables@) + "\n"@
        } else {
            Seq::empty()
        }) + (if layout.pages_with_columns@.len() > 0 {
            "  Pages with columns: "@ + pages_text(layout.pages_with_columns@) + "\n"@
        } else {
            Seq::empty()
        })
    } else {
        "Layout: simple\n"@
    }
}

/// The layout of a document, in words.
pub fn print_layout_info(layout: &LayoutComplexity) -> (r: Vec<char>)
    ensures
        r@ == layout_text(*layout),
{
    if layout.is_complex {
        let mut out = characters("Layout: COMPLEX\n");
        let mut tables: Vec<char> = Vec::new();
        if layout.pages_with_tables.len() > 0 {
            tables = characters("  Pages with tables: ");
            let pages = write_pages(&layout.pages_with_tables);
            push_chars(&mut tables, &pages);
            push_text(&mut tables, "\n");
        } else {
            assert(tables@ =~= Seq::empty());
        }
        let mut columns: Vec<char> = Vec::new();
        if layout.pages_with_columns.len() > 0 {
            columns = characters("  Pages with columns: ");
            let pages = write_pages(&layout.pages_with_columns);
            push_chars(&mut columns, &pages);
            push_text(&mut columns, "\n");
        } else {
            assert(columns@ =~= Seq::empty());
        }
        push_chars(&mut out, &tables);
        push_chars(&mut out, &columns);
        out
    } else {
        characters("Layout: simple\n")
    }
}

/// The type of a document as one word.
pub open spec fn type_word(pdf_type: PdfType) -> Seq<char> {
    match pdf_type {
        PdfType::TextBased => "text_based"@,
        PdfType::Scanned => "scanned"@,
        PdfType::ImageBased => "image_based"@,
        PdfType::Mixed => "mixed"@,
    }
}

fn name_type(pdf_type: PdfType) -> (r: &'static str)
    ensures
        r@ == type_word(pdf_type),
{
    match pdf_type {
        PdfType::TextBased => "text_based",
        PdfType::Scanned => "scanned",
        PdfType::ImageBased => "image_based",
        PdfType::Mixed => "mixed",
    }
}

/// The pages that need OCR, in words, if there are any.
pub open spec fn needing_text(pages: Seq<u32>) -> Seq<char> {
    if pages.len() > 0 {
        "Pages needing OCR: "@ + pages_text(pages) + "\n"@
    } else {
        Seq::empty()
    }
}

fn write_needing(pages: &Vec<u32>) -> (r: Vec<char>)
    ensures
        r@ == needing_text(pages@),
{
    if pages.len() > 0 {
        let mut out = characters("Pages needing OCR: ");
        let list = write_pages(pages);
        push_chars(&mut out, &list);
        push_text(&mut out, "\n");
        out
    } else {
        let none: Vec<char> = Vec::new();
        assert(none@ =~= Seq::empty());
        none
    }
}

/// The number of pages and the time that it took, in words.
pub open spec fn effort_text(page_count: u32, time_ms: u64) -> Seq<char> {
    "Pages: "@ + decimal(page_count as nat) + "\nProcessing time: "@ + decimal(time_ms as nat) + "ms\n"@
}

fn write_effort(page_count: u32, time_ms: u64) -> (r: Vec<char>)
    ensures
        r@ == effort_text(page_count, time_ms),
{
    let mut out = characters("Pages: ");
    push_decimal(&mut out, page_count as u128);
    push_text(&mut out, "\nProcessing time: ");
    push_decimal(&mut out, time_ms as u128);
    push_text(&mut out, "ms\n");
    out
}

/// The JSON report of detection and analysis.
pub open spec fn detection_json(r: PdfProcessResult) -> Seq<char> {
    "{\"pdf_type\":\""@ + type_word(r.pdf_type) + "\",\"page_count\":"@ + decimal(r.page_count as nat)
        + ",\"processing_time_ms\":"@ + decimal(r.processing_time_ms as nat) + ",\"pages_needing_ocr\":["@ + pages_json(
        r.pages_needing_ocr@,
    ) + "],\"ocr_reasons_by_page\":["@ + reasons_json(
        entry_views(r.ocr_reasons_by_page@),
        r.ocr_reasons_by_page@.len(),
    ) + "],\"is_complex\":"@ + bool_text(r.layout.is_complex) + ",\"pages_with_tables\":["@ + pages_json(
        r.layout.pages_with_tables@,
    ) + "],\"pages_with_columns\":["@ + pages_json(r.layout.pages_with_columns@) + "],\"has_encoding_issues\":"@
        + bool_text(r.has_encoding_issues) + "}"@
}

fn write_detection_json(r: &PdfProcessResult) -> (out: Vec<char>)
    ensures
        out@ == detection_json(*r),
{
    let mut out = characters("{\"pdf_type\":\"");
    push_text(&mut out, name_type(r.pdf_type));
    push_text(&mut out, "\",\"page_count\":");
    push_decimal(&mut out, r.page_count as u128);
    push_text(&mut out, ",\"processing_time_ms\":");
    push_decimal(&mut out, r.processing_time_ms as u128);
    push_text(&mut out, ",\"pages_needing_ocr\":[");
    push_pages(&mut out, &r.pages_needing_ocr);
    push_text(&mut out, "],\"ocr_reasons_by_page\":[");
    push_reasons(&mut out, &r.ocr_reasons_by_page);
    push_text(&mut out, "],\"is_complex\":");
    push_bool(&mut out, r.layout.is_complex);
    push_text(&mut out, ",\"pages_with_tables\":[");
    push_pages(&mut out, &r.layout.pages_with_tables);
    push_text(&mut out, "],\"pages_with_columns\":[");
    push_pages(&mut out, &r.layout.pages_with_columns);
    push_text(&mut out, "],\"has_encoding_issues\":");
    push_bool(&mut out, r.has_encoding_issues);
    push_text(&mut out, "}");
    out
}

/// The Markdown of a result; the empty text where there is none.
pub open spec fn markdown_of(markdown: Option<String>) -> Seq<char> {
    match markdown {
        Some(text) => text@,
        None => Seq::empty(),
    }
}

/// The JSON report of a full conversion.
pub open spec fn conversion_json(r: PdfProcessResult) -> Seq<char> {
    let markdown = markdown_of(r.markdown);
    "{\"pdf_type\":\""@ + type_word(r.pdf_type) + "\",\"page_count\":"@ + decimal(r.page_count as nat)
        + ",\"has_text\":"@ + bool_text(r.markdown is Some) + ",\"processing_time_ms\":"@ + decimal(
        r.processing_time_ms as nat,
    ) + ",\"markdown_length\":"@ + decimal(text_bytes(markdown)) + ",\"pages_needing_ocr\":["@ + pages_json(
        r.pages_needing_ocr@,
    ) + "],\"ocr_reasons_by_page\":["@ + reasons_json(
        entry_views(r.ocr_reasons_by_page@),
        r.ocr_reasons_by_page@.len(),
    ) + "],\"is_complex\":"@ + bool_text(r.layout.is_complex) + ",\"pages_with_tables\":["@ + pages_json(
        r.layout.pages_with_tables@,
    ) + "],\"pages_with_columns\":["@ + pages_json(r.layout.pages_with_columns@) + "],\"has_encoding_issues\":"@
        + bool_text(r.has_encoding_issues) + ",\"markdown\":\""@ + escaped(markdown) + "\"}"@
}

fn markdown_text(markdown: &Option<String>) -> (r: String)
    ensures
        r@ == markdown_of(*markdown),
{
    match markdown {
        Some(text) => copy_text(text),
        None => {
            let none = String::new();
            assert(none@ =~= Seq::empty());
            none
        },
    }
}

/// The length of a text in bytes.
fn byte_length(text: &str) -> (r: u128)
    ensures
        r == text_bytes(text@),
{
    let chars = characters(text);
    let count: usize = chars.len();
    let mut total: u128 = 0;
    let mut i: usize = 0;
    while i < count
        invariant
            i <= count,
            count == chars@.len(),
            total == text_bytes(chars@.take(i as int)),
            total <= 4 * i,
        decreases chars@.len() - i,
    {
        let c: char = chars[i];
        assert(chars@.take(i + 1).drop_last() =~= chars@.take(i as int));
        total = total + find_utf8_length(c) as u128;
        i += 1;
    }
    assert(chars@.take(chars@.len() as int) =~= text@);
    total
}

fn write_conversion_json(r: &PdfProcessResult) -> (out: Vec<char>)
    ensures
        out@ == conversion_json(*r),
{
    let markdown = markdown_text(&r.markdown);
    let mut out = characters("{\"pdf_type\":\"");
    push_text(&mut out, name_type(r.pdf_type));
    push_text(&mut out, "\",\"page_count\":");
    push_decimal(&mut out, r.page_count as u128);
    push_text(&mut out, ",\"has_text\":");
    push_bool(&mut out, r.markdown.is_some());
    push_text(&mut out, ",\"processing_time_ms\":");
    push_decimal(&mut out, r.processing_time_ms as u128);
    push_text(&mut out, ",\"markdown_length\":");
    push_decimal(&mut out, byte_length(markdown.as_str()));
    push_text(&mut out, ",\"pages_needing_ocr\":[");
    push_pages(&mut out, &r.pages_needing_ocr);
    push_text(&mut out, "],\"ocr_reasons_by_page\":[");
    push_reasons(&mut out, &r.ocr_reasons_by_page);
    push_text(&mut out, "],\"is_complex\":");
    push_bool(&mut out, r.layout.is_complex);
    push_text(&mut out, ",\"pages_with_tables\":[");
    push_pages(&mut out, &r.layout.pages_with_tables);
    push_text(&mut out, "],\"pages_with_columns\":[");
    push_pages(&mut out, &r.layout.pages_with_columns);
    push_text(&mut out, "],\"has_encoding_issues\":");
    push_bool(&mut out, r.has_encoding_issues);
    push_text(&mut out, ",\"markdown\":\"");
    push_escaped(&mut out, markdown.as_str());
    push_text(&mut out, "\"}");
    out
}

/// What a report says.
#[verifier::ext_equal]
pub struct ReportView {
    pub out: Seq<char>,
    pub err: Seq<char>,
    pub file: Option<(Seq<char>, Seq<char>)>,
    pub exit_code: i32,
}

impl View for Report {
    type V = ReportView;

    open spec fn view(&self) -> ReportView {
        ReportView {
            out: self.out@,
            err: self.err@,
            file: match self.file {
                Some(file) => Some((file.0@, file.1@)),
                None => None,
            },
            exit_code: self.exit_code,
        }
    }
}

/// A report that only prints to the standard output.
pub open spec fn printed(out: Seq<char>) -> ReportView {
    ReportView { out, err: Seq::empty(), file: None, exit_code: 0 }
}

/// A report that only prints to the standard error.
pub open spec fn remarked(err: Seq<char>, exit_code: i32) -> ReportView {
    ReportView { out: Seq::empty(), err, file: None, exit_code }
}

/// A report that only prints to the standard output, on a failure.
pub open spec fn printed_failure(out: Seq<char>) -> ReportView {
    ReportView { out, err: Seq::empty(), file: None, exit_code: 1 }
}

fn print(out: &Vec<char>) -> (r: Report)
    ensures
        r@ == printed(out@),
{
    let r = Report { out: text_of(out), err: String::new(), file: None, exit_code: 0 };
    assert(r@ =~= printed(out@));
    r
}

fn remark(err: &Vec<char>, exit_code: i32) -> (r: Report)
    ensures
        r@ == remarked(err@, exit_code),
{
    let r = Report { out: String::new(), err: text_of(err), file: None, exit_code };
    assert(r@ =~= remarked(err@, exit_code));
    r
}

/// The report of detection or analysis.
pub open spec fn detection_report(command: Command, r: PdfProcessResult) -> ReportView {
    if command.json {
        printed(detection_json(r) + "\n"@)
    } else {
        remarked(
            "Type: "@ + type_word(r.pdf_type) + "\n"@ + effort_text(r.page_count, r.processing_time_ms) + needing_text(
                r.pages_needing_ocr@,
            ) + (if command.analyze {
                layout_text(r.layout)
            } else {
                Seq::empty()
            }),
            0,
        )
    }
}

fn report_detection(command: &Command, r: &PdfProcessResult) -> (report: Report)
    ensures
        report@ == detection_report(*command, *r),
{
    if command.json {
        let mut out = write_detection_json(r);
        push_text(&mut out, "\n");
        return print(&out);
    }
    let mut err = characters("Type: ");
    push_text(&mut err, name_type(r.pdf_type));
    push_text(&mut err, "\n");
    let effort = write_effort(r.page_count, r.processing_time_ms);
    push_chars(&mut err, &effort);
    let needing = write_needing(&r.pages_needing_ocr);
    push_chars(&mut err, &needing);
    if command.analyze {
        let layout = print_layout_info(&r.layout);
        push_chars(&mut err, &layout);
    } else {
        assert(err@ + Seq::<char>::empty() =~= err@);
    }
    remark(&err, 0)
}

/// The document cannot be converted without OCR.
pub open spec fn unreadable(pdf_type: PdfType) -> bool {
    pdf_type == PdfType::Scanned || pdf_type == PdfType::ImageBased
}

/// The report that is the Markdown alone.
pub open spec fn raw_report(r: PdfProcessResult) -> ReportView {
    if r.pdf_type == PdfType::Scanned {
        remarked("Error: PDF requires OCR (type: Scanned)\n"@, 2)
    } else if r.pdf_type == PdfType::ImageBased {
        remarked("Error: PDF requires OCR (type: ImageBased)\n"@, 2)
    } else {
        printed(markdown_of(r.markdown))
    }
}

fn report_raw(r: &PdfProcessResult) -> (report: Report)
    ensures
        report@ == raw_report(*r),
{
    if r.pdf_type == PdfType::Scanned {
        remark(&characters("Error: PDF requires OCR (type: Scanned)\n"), 2)
    } else if r.pdf_type == PdfType::ImageBased {
        remark(&characters("Error: PDF requires OCR (type: ImageBased)\n"), 2)
    } else {
        print(&characters(markdown_text(&r.markdown).as_str()))
    }
}

/// The head of a report in words.
pub open spec fn heading_text(path: Seq<char>) -> Seq<char> {
    "PDF to Markdown Conversion\n==========================\nFile: "@ + path + "\n\n"@
}

/// The words about a document that cannot be converted without OCR.
pub open spec fn unreadable_text(r: PdfProcessResult) -> Seq<char> {
    (if r.pdf_type == PdfType::Scanned {
        "Type: SCANNED (OCR required)\n"@
    } else {
        "Type: IMAGE-BASED (OCR required)\n"@
    }) + effort_text(r.page_count, r.processing_time_ms)
        + "\nThis PDF requires OCR for text extraction.\nConsider using MinerU or similar OCR tool.\n"@
}

/// The words about a document that was converted.
pub open spec fn converted_text(r: PdfProcessResult) -> Seq<char> {
    if r.pdf_type == PdfType::Mixed {
        "Type: MIXED (partial text extraction)\n"@ + effort_text(r.page_count, r.processing_time_ms) + layout_text(
            r.layout,
        ) + (if r.markdown is Some {
            "\n"@ + (if r.pages_needing_ocr@.len() == 0 {
                "Note: Some pages may contain images that require OCR.\n"@
            } else {
                needing_text(r.pages_needing_ocr@)
            })
        } else {
            Seq::empty()
        })
    } else {
        "Type: TEXT-BASED (direct extraction)\n"@ + effort_text(r.page_count, r.processing_time_ms) + layout_text(
            r.layout,
        ) + needing_text(r.pages_needing_ocr@)
    }
}

/// The words about where the Markdown goes.
pub open spec fn delivery_text(output: Option<String>, markdown: Seq<char>) -> Seq<char> {
    match output {
        Some(path) => "\nMarkdown written to: "@ + path@ + "\nLength: "@ + decimal(text_bytes(markdown))
            + " characters\n"@,
        None => "\n--- Markdown Output ---\n\n"@,
    }
}

/// The report in words.
pub open spec fn verbose_report(command: Command, r: PdfProcessResult) -> ReportView {
    let head = heading_text(command.pdf_path@);
    if unreadable(r.pdf_type) {
        remarked(head + unreadable_text(r), 2)
    } else {
        match r.markdown {
            Some(markdown) => ReportView {
                out: match command.output_file {
                    Some(_) => Seq::empty(),
                    None => markdown@ + "\n"@,
                },
                err: head + converted_text(r) + delivery_text(command.output_file, markdown@),
                file: match command.output_file {
                    Some(path) => Some((path@, markdown@)),
                    None => None,
                },
                exit_code: 0,
            },
            None => remarked(head + converted_text(r), 0),
        }
    }
}

fn write_heading(path: &str) -> (r: Vec<char>)
    ensures
        r@ == heading_text(path@),
{
    let mut out = characters("PDF to Markdown Conversion\n==========================\nFile: ");
    push_text(&mut out, path);
    push_text(&mut out, "\n\n");
    out
}

fn write_unreadable(r: &PdfProcessResult) -> (out: Vec<char>)
    ensures
        out@ == unreadable_text(*r),
{
    let mut out = if r.pdf_type == PdfType::Scanned {
        characters("Type: SCANNED (OCR required)\n")
    } else {
        characters("Type: IMAGE-BASED (OCR required)\n")
    };
    let effort = write_effort(r.page_count, r.processing_time_ms);
    push_chars(&mut out, &effort);
    push_text(
        &mut out,
        "\nThis PDF requires OCR for text extraction.\nConsider using MinerU or similar OCR tool.\n",
    );
    out
}

fn write_converted(r: &PdfProcessResult) -> (out: Vec<char>)
    ensures
        out@ == converted_text(*r),
{
    let effort = write_effort(r.page_count, r.processing_time_ms);
    let layout = print_layout_info(&r.layout);
    let needing = write_needing(&r.pages_needing_ocr);
    if r.pdf_type == PdfType::Mixed {
        let mut out = characters("Type: MIXED (partial text extraction)\n");
        push_chars(&mut out, &effort);
        push_chars(&mut out, &layout);
        if r.markdown.is_some() {
            let mut note = characters("\n");
            if r.pages_needing_ocr.len() == 0 {
                push_text(&mut note, "Note: Some pages may contain images that require OCR.\n");
            } else {
                push_chars(&mut note, &needing);
            }
            push_chars(&mut out, &note);
        } else {
            assert(out@ + Seq::<char>::empty() =~= out@);
        }
        out
    } else {
        let mut out = characters("Type: TEXT-BASED (direct extraction)\n");
        push_chars(&mut out, &effort);
        push_chars(&mut out, &layout);
        push_chars(&mut out, &needing);
        out
    }
}

fn write_delivery(output: &Option<String>, markdown: &str) -> (r: Vec<char>)
    ensures
        r@ == delivery_text(*output, markdown@),
{
    match output {
        Some(path) => {
            let mut out = characters("\nMarkdown written to: ");
            push_text(&mut out, path.as_str());
            push_text(&mut out, "\nLength: ");
            push_decimal(&mut out, byte_length(markdown));
            push_text(&mut out, " characters\n");
            out
        },
        None => characters("\n--- Markdown Output ---\n\n"),
    }
}

fn report_verbose(command: &Command, r: &PdfProcessResult) -> (report: Report)
    ensures
        report@ == verbose_report(*command, *r),
{
    let mut err = write_heading(command.pdf_path.as_str());
    if r.pdf_type == PdfType::Scanned || r.pdf_type == PdfType::ImageBased {
        let rest = write_unreadable(r);
        push_chars(&mut err, &rest);
        return remark(&err, 2);
    }
    let rest = write_converted(r);
    push_chars(&mut err, &rest);
    match &r.markdown {
        Some(markdown) => {
            let delivery = write_delivery(&command.output_file, markdown.as_str());
            push_chars(&mut err, &delivery);
            let report = match &command.output_file {
                Some(path) => {
                    let none = String::new();
                    assert(none@ =~= Seq::empty());
                    Report {
                        out: none,
                        err: text_of(&err),
                        file: Some((copy_text(path), copy_text(markdown))),
                        exit_code: 0,
                    }
                },
                None => {
                    let mut out = characters(markdown.as_str());
                    push_text(&mut out, "\n");
                    Report { out: text_of(&out), err: text_of(&err), file: None, exit_code: 0 }
                },
            };
            assert(report@ =~= verbose_report(*command, *r));
            report
        },
        None => remark(&err, 0),
    }
}

/// The report on a processed document.
pub open spec fn process_report(command: Command, r: PdfProcessResult) -> ReportView {
    if command.detect_only || command.analyze {
        detection_report(command, r)
    } else if command.json {
        printed(conversion_json(r) + "\n"@)
    } else if command.raw {
        raw_report(r)
    } else {
        verbose_report(command, r)
    }
}

/// Reports on a processed document.
pub fn report_result(command: &Command, result: &PdfProcessResult) -> (r: Report)
    ensures
        r@ == process_report(*command, *result),
{
    if command.detect_only || command.analyze {
        report_detection(command, result)
    } else if command.json {
        let mut out = write_conversion_json(result);
        push_text(&mut out, "\n");
        print(&out)
    } else if command.raw {
        report_raw(result)
    } else {
        report_verbose(command, result)
    }
}

/// What the tool does and which options it takes.
pub const OPTIONS_TEXT: &'static str = "\n\
Converts PDF to Markdown with smart type detection.\n\
Returns early if PDF is scanned (OCR needed).\n\
\n\
Options:\n\
\x20 --json              Output result as JSON\n\
\x20 --items-json        Output positioned TextItem JSON\n\
\x20 --raw               Output only markdown (no headers)\n\
\x20 --compact           Collapse token-heavy source formatting such as dot leaders\n\
\x20 --pages             Insert page break markers (<!-- Page N -->)\n\
\x20 --select-pages N    Only process specified pages (e.g. 1,3,5-10)\n\
\x20 --password PW       Password for an encrypted PDF\n\
\x20 --detect-only       Only detect PDF type (no extraction)\n\
\x20 --analyze           Detect + extract + layout analysis (no markdown)\n\
\x20 --ocr MODE          OCR mode: off, auto, or force (requires feature `ocr`)\n\
\x20 --ocr-dpi N         OCR render resolution (default: 150)\n\
\x20 --ocr-min-confidence N  Drop OCR spans below N (default: 0)\n\
\x20 --ocr-hosted-threshold N  Recommend hosted parsing below N (default: 0.5)\n\
\x20 --ocr-model-dir DIR Use a package-managed local model directory\n\
\x20 --ocr-offline       Never download missing OCR models\n";

/// How the tool is called.
pub open spec fn usage_text(program: Seq<char>) -> Seq<char> {
    "Usage: "@ + program + " <pdf_file> [output_file]\n       "@ + program + " <pdf_file> --json\n       "@ + program
        + " <pdf_file> --items-json\n       "@ + program + " <pdf_file> --raw\n"@ + OPTIONS_TEXT@
}

/// The report on a call without a file.
pub fn report_usage(program: &str) -> (r: Report)
    ensures
        r@ == remarked(usage_text(program@), 1),
{
    let mut err = characters("Usage: ");
    push_text(&mut err, program);
    push_text(&mut err, " <pdf_file> [output_file]\n       ");
    push_text(&mut err, program);
    push_text(&mut err, " <pdf_file> --json\n       ");
    push_text(&mut err, program);
    push_text(&mut err, " <pdf_file> --items-json\n       ");
    push_text(&mut err, program);
    push_text(&mut err, " <pdf_file> --raw\n");
    push_text(&mut err, OPTIONS_TEXT);
    remark(&err, 1)
}

/// The report on refused arguments.
pub open spec fn refusal_report(program: Seq<char>, json_output: bool, error: RefusalView) -> ReportView {
    match error {
        RefusalView::Usage => remarked(usage_text(program), 1),
        RefusalView::Argument { message } => remarked("Error: "@ + message + "\n"@, 1),
        RefusalView::Ocr { message } => ocr_error_report(message, json_output),
    }
}

/// Reports why arguments are refused.
pub fn report_refusal(program: &str, json_output: bool, error: &CommandError) -> (r: Report)
    ensures
        r@ == refusal_report(program@, json_output, error@),
{
    match error {
        CommandError::Usage => report_usage(program),
        CommandError::Argument { message } => {
            let mut err = characters("Error: ");
            push_text(&mut err, message.as_str());
            push_text(&mut err, "\n");
            remark(&err, 1)
        },
        CommandError::Ocr { message } => exit_ocr_error(message.as_str(), json_output),
    }
}

/// Reports that a document could not be processed.
pub fn report_failure(command: &Command, message: &str) -> (r: Report)
    ensures
        r@ == if command.json {
            printed_failure("{\"error\":\""@ + escaped(message@) + "\"}\n"@)
        } else {
            remarked("Error: "@ + message@ + "\n"@, 1)
        },
{
    if command.json {
        report_items_failure(message)
    } else {
        let mut err = characters("Error: ");
        push_text(&mut err, message);
        push_text(&mut err, "\n");
        remark(&err, 1)
    }
}

/// Reports that the items of a document could not be extracted.
pub fn report_items_failure(message: &str) -> (r: Report)
    ensures
        r@ == printed_failure("{\"error\":\""@ + escaped(message@) + "\"}\n"@),
{
    let mut out = characters("{\"error\":\"");
    push_escaped(&mut out, message);
    push_text(&mut out, "\"}\n");
    let r = Report { out: text_of(&out), err: String::new(), file: None, exit_code: 1 };
    assert(r@.err =~= Seq::empty());
    r
}

/// The report on a failure of a conversion with OCR.
pub open spec fn ocr_error_report(error: Seq<char>, json_output: bool) -> ReportView {
    if json_output {
        printed_failure("{\"schema_version\":1,\"error\":\""@ + escaped(error) + "\"}"@ + "\n"@)
    } else {
        remarked("Error: "@ + error + "\n"@, 1)
    }
}

/// Reports that OCR failed or was asked for in vain.
pub fn exit_ocr_error(error: &str, json_output: bool) -> (r: Report)
    ensures
        r@ == ocr_error_report(error@, json_output),
{
    if json_output {
        let mut out = characters(format_ocr_error_json(error).as_str());
        push_text(&mut out, "\n");
        let r = Report { out: text_of(&out), err: String::new(), file: None, exit_code: 1 };
        assert(r@.err =~= Seq::empty());
        r
    } else {
        let mut err = characters("Error: ");
        push_text(&mut err, error);
        push_text(&mut err, "\n");
        remark(&err, 1)
    }
}

/// The words about a document processed with OCR.
pub open spec fn ocr_text(command: Command, r: OcrPdfResult) -> Seq<char> {
    "PDF to Markdown Conversion (OCR)\n======================================\nFile: "@ + command.pdf_path@ + "\nPages: "@
        + decimal(r.page_count as nat) + "\nPages routed to OCR: "@ + pages_text(r.pages_routed_to_ocr@) + "\n"@ + (
    if r.pages_recommending_hosted@.len() > 0 {
        "Hosted parsing recommended for pages: "@ + pages_text(r.pages_recommending_hosted@) + "\n"@
    } else {
        Seq::empty()
    }) + "Processing time: "@ + decimal(r.processing_time_ms as nat) + "ms\n"@ + match command.output_file {
        Some(path) => "Markdown written to: "@ + path@ + "\n"@,
        None => "\n--- Markdown Output ---\n\n"@,
    }
}

/// The report on a document processed with OCR.
pub open spec fn ocr_report(command: Command, r: OcrPdfResult) -> ReportView {
    if command.json {
        printed(ocr_json(r) + "\n"@)
    } else if command.raw {
        printed(r.markdown@)
    } else {
        ReportView {
            out: match command.output_file {
                Some(_) => Seq::empty(),
                None => r.markdown@,
            },
            err: ocr_text(command, r),
            file: match command.output_file {
                Some(path) => Some((path@, r.markdown@)),
                None => None,
            },
            exit_code: 0,
        }
    }
}

fn write_ocr_text(command: &Command, r: &OcrPdfResult) -> (out: Vec<char>)
    ensures
        out@ == ocr_text(*command, *r),
{
    let mut out = characters("PDF to Markdown Conversion (OCR)\n======================================\nFile: ");
    push_text(&mut out, command.pdf_path.as_str());
    push_text(&mut out, "\nPages: ");
    push_decimal(&mut out, r.page_count as u128);
    push_text(&mut out, "\nPages routed to OCR: ");
    let routed = write_pages(&r.pages_routed_to_ocr);
    push_chars(&mut out, &routed);
    push_text(&mut out, "\n");
    let mut hosted: Vec<char> = Vec::new();
    if r.pages_recommending_hosted.len() > 0 {
        hosted = characters("Hosted parsing recommended for pages: ");
        let pages = write_pages(&r.pages_recommending_hosted);
        push_chars(&mut hosted, &pages);
        push_text(&mut hosted, "\n");
    } else {
        assert(hosted@ =~= Seq::empty());
    }
    push_chars(&mut out, &hosted);
    push_text(&mut out, "Processing time: ");
    push_decimal(&mut out, r.processing_time_ms as u128);
    push_text(&mut out, "ms\n");
    let delivery = match &command.output_file {
        Some(path) => {
            let mut words = characters("Markdown written to: ");
            push_text(&mut words, path.as_str());
            push_text(&mut words, "\n");
            words
        },
        None => characters("\n--- Markdown Output ---\n\n"),
    };
    push_chars(&mut out, &delivery);
    out
}

/// Reports on a document processed with OCR.
pub fn report_ocr(command: &Command, result: &OcrPdfResult) -> (r: Report)
    ensures
        r@ == ocr_report(*command, *result),
{
    if command.json {
        let mut out = write_ocr_json(result);
        push_text(&mut out, "\n");
        return print(&out);
    }
    if command.raw {
        return print(&characters(result.markdown.as_str()));
    }
    let err = write_ocr_text(command, result);
    let report = match &command.output_file {
        Some(path) => {
            let none = String::new();
            assert(none@ =~= Seq::empty());
            Report {
                out: none,
                err: text_of(&err),
                file: Some((copy_text(path), copy_text(&result.markdown))),
                exit_code: 0,
            }
        },
        None => Report { out: copy_text(&result.markdown), err: text_of(&err), file: None, exit_code: 0 },
    };
    assert(report@ =~= ocr_report(*command, *result));
    report
}

/// The tool exits with 0 exactly where it delivers something: a document that
/// cannot be converted without OCR is the code 2.
pub proof fn law_unreadable_documents_exit_with_two(command: Command, r: PdfProcessResult)
    requires
        !command.detect_only,
        !command.analyze,
        !command.json,
    ensures
        unreadable(r.pdf_type) ==> process_report(command, r).exit_code == 2,
        !unreadable(r.pdf_type) ==> process_report(command, r).exit_code == 0,
{
}

/// A file is written only where one was named, and then the Markdown does not
/// go to the standard output too.
pub proof fn law_markdown_is_delivered_once(command: Command, r: PdfProcessResult)
    ensures
        process_report(command, r).file matches Some(file) ==> (command.output_file matches Some(path) && path@ == file.0)
            && (r.markdown matches Some(text) && text@ == file.1) && process_report(command, r).out == Seq::<
            char,
        >::empty(),
{
}

} // verus!
