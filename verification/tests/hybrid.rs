use lopdf::content::Content;
use lopdf::{Dictionary, Document, Object, Stream};
use pdf_inspector::hybrid_markdown::document::{
    collect_page_boxes, page_count, Assembly, Detection, DetectionConfig, Extraction, MarkdownBackend, PageArea,
    PdfOptions, PdfType, ProcessMode, RenderContext, ScanStrategy, StructCell, StructTable,
};
use pdf_inspector::hybrid_markdown::error::{HybridMarkdownError, PdfFailure};
use pdf_inspector::hybrid_markdown::prepare::{
    after_first_extraction, after_last_extraction, prepare_hybrid_markdown, prepare_markdown_state, process_document,
    sample_text, select_content, ExtractionStep, OCR_REASON_SUSPECTED_GARBLED_TEXT,
};
use pdf_inspector::hybrid_markdown::reasons::{OcrReasons, PageOcrReasons};
use pdf_inspector::hybrid_markdown::session::{HybridMarkdownPageSource, HybridMarkdownSession};
use pdf_inspector::hybrid_markdown::tokens::{
    ocr_tokens_to_items, validate_ocr_token, NormalizedRect, OcrPageRequest, OcrPageResult, OcrToken, TokenFault,
};
use pdf_inspector::markdown::preprocess::RoleEntry;
use pdf_inspector::markdown::MarkdownOptions;
use pdf_inspector::pdf::{object_of, PdfObject};
use pdf_inspector::single::Single;
use pdf_inspector::types::{ItemType, LayoutComplexity, PdfLine, PdfRect, TextItem};
use std::cell::RefCell;
use std::time::Instant;

fn f(x: f32) -> Single {
    Single { bits: x.to_bits() }
}

fn v(x: Single) -> f32 {
    f32::from_bits(x.bits)
}

fn dict(entries: Vec<(&str, Object)>) -> Dictionary {
    entries.into_iter().collect()
}

fn options() -> PdfOptions {
    PdfOptions {
        mode: ProcessMode::Full,
        detection: DetectionConfig {
            strategy: ScanStrategy::EarlyExit,
            min_text_ops_per_page: 3,
            text_page_ratio_threshold: f(0.6),
        },
        page_filter: None,
        markdown: MarkdownOptions::default(),
        max_decompressed_size: None,
        password: None,
    }
}

fn item(text: &str, page: u32, y: f32) -> TextItem {
    TextItem {
        text: text.to_string(),
        x: f(72.0),
        y: f(y),
        width: f(10.0),
        height: f(12.0),
        rotation: f(0.0),
        advance_known: true,
        font: "Helvetica".to_string(),
        font_tag: "F1".to_string(),
        font_size: f(12.0),
        page,
        is_bold: false,
        is_italic: false,
        is_underline: false,
        is_strikeout: false,
        baseline_shift: f(0.0),
        item_type: ItemType::Text,
        mcid: None,
        legacy_symbol_rewrite: false,
    }
}

/// Reads pages of plain `Td` and `Tj` operators. Pages that only paint an
/// image are left to OCR.
struct PlainBackend;

fn operands(op: &lopdf::content::Operation) -> Vec<PdfObject> {
    op.operands.iter().map(object_of).collect()
}

fn page_texts(document: &Document, id: lopdf::ObjectId) -> Vec<(f32, String)> {
    let mut y = 0.0;
    let mut texts = Vec::new();
    for op in Content::decode(&document.get_page_content(id)).unwrap().operations {
        let values = operands(&op);
        match (op.operator.as_str(), values.as_slice()) {
            ("Td", [_, PdfObject::Integer(dy)]) => y += *dy as f32,
            ("Tj", [PdfObject::Text(bytes)]) => texts.push((y, String::from_utf8(bytes.clone()).unwrap())),
            _ => {}
        }
    }
    texts
}

impl MarkdownBackend for PlainBackend {
    fn detect(
        &self,
        document: &Document,
        page_count: u32,
        config: &DetectionConfig,
        _limit: Option<usize>,
    ) -> Result<Detection, PdfFailure> {
        let full_scan = matches!(config.strategy, ScanStrategy::Full);
        let pages = document.get_pages();
        let scanned: Vec<u32> = pages
            .iter()
            .filter(|(number, _)| full_scan || **number <= 10)
            .filter(|(_, id)| page_texts(document, **id).is_empty())
            .map(|(number, _)| *number)
            .collect();
        let pdf_type = if scanned.is_empty() {
            PdfType::TextBased
        } else if scanned.len() as u32 == page_count {
            PdfType::Scanned
        } else {
            PdfType::Mixed
        };
        Ok(Detection {
            pdf_type,
            ocr_reasons_by_page: scanned
                .iter()
                .map(|page| PageOcrReasons { page: *page, reasons: vec!["scanned_page".to_string()] })
                .collect(),
            pages_needing_ocr: scanned,
            title: None,
            confidence: f(1.0),
        })
    }

    fn extract(
        &self,
        document: &Document,
        page_filter: &Option<Vec<u32>>,
        _limit: Option<usize>,
        _include_invisible: bool,
    ) -> Result<Extraction, PdfFailure> {
        let mut items = Vec::new();
        for (number, id) in document.get_pages() {
            if page_filter.as_ref().map_or(true, |pages| pages.contains(&number)) {
                for (y, text) in page_texts(document, id) {
                    items.push(item(&text, number, y));
                }
            }
        }
        Ok(Extraction {
            items,
            rects: Vec::new(),
            lines: Vec::new(),
            page_thresholds: Vec::new(),
            gid_encoded_pages: Vec::new(),
        })
    }

    fn struct_roles(&self, _document: &Document) -> Vec<RoleEntry> {
        Vec::new()
    }

    fn struct_tables(&self, _document: &Document) -> Vec<StructTable> {
        Vec::new()
    }

    fn is_garbage_text(&self, text: &String) -> bool {
        text.starts_with('#')
    }

    fn assemble(&self, items: Vec<TextItem>, _context: &RenderContext, emit_markdown: bool) -> Assembly {
        let texts: Vec<String> = items.into_iter().map(|item| item.text).collect();
        Assembly {
            markdown: if emit_markdown { Some(texts.join("\n")) } else { None },
            markdown_has_encoding_issues: false,
            layout: LayoutComplexity::default(),
            text_quality_pages: Vec::new(),
            text_quality_reasons: Vec::new(),
            text_quality_issues: false,
        }
    }
}

fn finish_document(mut document: Document, pages_id: lopdf::ObjectId, kids: Vec<Object>) -> Document {
    let count = kids.len() as i64;
    document.set_object(
        pages_id,
        dict(vec![
            ("Type", Object::from("Pages")),
            ("Kids", Object::Array(kids)),
            ("Count", Object::from(count)),
        ]),
    );
    let catalog_id = document.add_object(dict(vec![
        ("Type", Object::from("Catalog")),
        ("Pages", Object::Reference(pages_id)),
    ]));
    document.trailer.set("Root", Object::Reference(catalog_id));
    document
}

fn add_page(document: &mut Document, pages_id: lopdf::ObjectId, resources: Dictionary, content: &str) -> Object {
    let content_id = document.add_object(Stream::new(Dictionary::new(), content.as_bytes().to_vec()));
    let media: Vec<Object> = vec![0.into(), 0.into(), 612.into(), 792.into()];
    Object::Reference(document.add_object(dict(vec![
        ("Type", Object::from("Page")),
        ("Parent", Object::Reference(pages_id)),
        ("MediaBox", Object::Array(media)),
        ("Resources", Object::from(resources)),
        ("Contents", Object::Reference(content_id)),
    ])))
}

fn add_font(document: &mut Document) -> lopdf::ObjectId {
    document.add_object(dict(vec![
        ("Type", Object::from("Font")),
        ("Subtype", Object::from("Type1")),
        ("BaseFont", Object::from("Helvetica")),
    ]))
}

fn font_resources(font_id: lopdf::ObjectId) -> Dictionary {
    dict(vec![("Font", Object::from(dict(vec![("F1", Object::Reference(font_id))])))])
}

fn text_document() -> Document {
    let mut document = Document::with_version("1.5");
    let pages_id = document.new_object_id();
    let font_id = add_font(&mut document);
    let page = add_page(
        &mut document,
        pages_id,
        font_resources(font_id),
        "BT /F1 12 Tf 72 700 Td (Native text) Tj ET",
    );
    finish_document(document, pages_id, vec![page])
}

fn mixed_twenty_page_document() -> Document {
    let mut document = Document::with_version("1.5");
    let pages_id = document.new_object_id();
    let font_id = add_font(&mut document);
    let image_id = document.add_object(Stream::new(
        dict(vec![
            ("Type", Object::from("XObject")),
            ("Subtype", Object::from("Image")),
            ("Width", Object::from(1)),
            ("Height", Object::from(1)),
            ("ColorSpace", Object::from("DeviceGray")),
            ("BitsPerComponent", Object::from(8)),
        ]),
        vec![0],
    ));
    let mut kids = Vec::new();
    for page_number in 1..=20u32 {
        let (resources, content) = if page_number % 2 == 1 || page_number == 20 {
            (
                font_resources(font_id),
                format!(
                    "BT /F1 12 Tf 72 700 Td (Native page {page_number}) Tj 0 -18 Td (native body text) Tj \
                     0 -18 Td (native footer text) Tj ET"
                ),
            )
        } else {
            let images = dict(vec![("Im1", Object::Reference(image_id))]);
            (
                dict(vec![("XObject", Object::from(images))]),
                "q 612 0 0 792 0 0 cm /Im1 Do Q".to_string(),
            )
        };
        kids.push(add_page(&mut document, pages_id, resources, &content));
    }
    finish_document(document, pages_id, kids)
}

fn scanned_document() -> Document {
    let mut document = Document::with_version("1.5");
    let pages_id = document.new_object_id();
    let page = add_page(&mut document, pages_id, Dictionary::new(), "q Q");
    finish_document(document, pages_id, vec![page])
}

fn token(text: &str, x: f32, y: f32, width: f32, height: f32, line_index: u32, confidence: f32) -> OcrToken {
    OcrToken {
        text: text.to_string(),
        bounds: NormalizedRect { x: f(x), y: f(y), width: f(width), height: f(height) },
        line_index,
        confidence: f(confidence),
    }
}

fn scanned_content() -> OcrPageResult {
    OcrPageResult {
        page: 1,
        tokens: vec![
            token("Scanned", 0.1, 0.1, 0.2, 0.05, 0, 0.99),
            token("content", 0.1, 0.2, 0.2, 0.05, 1, 0.98),
        ],
    }
}

fn letter_request() -> OcrPageRequest {
    OcrPageRequest {
        page: 1,
        reasons: vec!["scanned".to_string()],
        x: f(0.0),
        y: f(0.0),
        width: f(612.0),
        height: f(792.0),
        expected_aspect_ratio: f(612.0 / 792.0),
    }
}

#[test]
fn complete_preparation_scans_every_page_for_ocr_routes() {
    let document = mixed_twenty_page_document();
    let session = prepare_hybrid_markdown(&document, &PlainBackend, options()).unwrap();
    let requested: Vec<_> = session.ocr_requests().into_iter().map(|request| request.page).collect();
    assert_eq!(requested, vec![2, 4, 6, 8, 10, 12, 14, 16, 18]);
}

#[test]
fn session_replaces_requested_page_and_finishes_once() {
    let document = text_document();
    let mut session = prepare_hybrid_markdown(&document, &PlainBackend, options()).unwrap();
    let requests = session.ocr_requests();
    assert!(requests.is_empty());
    let result = session.finish(&PlainBackend).unwrap();
    assert!(result.markdown.contains("Native text"));
    assert_eq!(result.pages[0].source, HybridMarkdownPageSource::NativeText);
    assert!(matches!(session.finish(&PlainBackend), Err(HybridMarkdownError::SessionFinished)));
}

#[test]
fn submitted_ocr_goes_into_the_global_markdown() {
    let document = scanned_document();
    let mut session = prepare_hybrid_markdown(&document, &PlainBackend, options()).unwrap();
    let request = session.ocr_requests().into_iter().next().unwrap();
    assert_eq!(request.page, 1);
    assert_eq!(request.reasons, ["scanned_page"]);
    assert_eq!(v(request.expected_aspect_ratio), 612.0 / 792.0);

    let error = session.finish(&PlainBackend).unwrap_err();
    assert!(matches!(error, HybridMarkdownError::MissingPage { page: 1 }));
    assert_eq!(error.message(), "OCR page 1 is missing");
    assert_eq!(session.submitted_page_count().unwrap(), 0);
    session.submit_ocr_page(scanned_content()).unwrap();
    assert_eq!(session.submitted_page_count().unwrap(), 1);
    let error = session.submit_ocr_page(scanned_content()).unwrap_err();
    assert!(matches!(error, HybridMarkdownError::DuplicatePage { page: 1 }));
    assert_eq!(error.message(), "OCR page 1 was submitted more than once");

    let result = session.finish(&PlainBackend).unwrap();
    assert_eq!(result.markdown, "Scanned\ncontent");
    assert_eq!(result.page_count, 1);
    assert_eq!(result.pdf_type, PdfType::Scanned);
    assert_eq!(result.pages[0].source, HybridMarkdownPageSource::Ocr);
    assert_eq!(result.pages[0].ocr_reasons, ["scanned_page"]);
    let error = session.submit_ocr_page(scanned_content()).unwrap_err();
    assert_eq!(error.message(), "hybrid Markdown session is already finished");
}

#[test]
fn native_and_submitted_pages_stand_together() {
    let document = mixed_twenty_page_document();
    let backend = PlainBackend;
    let filtered = PdfOptions { page_filter: Some(vec![4, 1, 2]), ..options() };
    let mut session = prepare_hybrid_markdown(&document, &backend, filtered).unwrap();
    let pages: Vec<u32> = session.ocr_requests().iter().map(|request| request.page).collect();
    assert_eq!(pages, [2, 4]);
    let error = session.submit_ocr_page(OcrPageResult { page: 6, tokens: Vec::new() }).unwrap_err();
    assert!(matches!(error, HybridMarkdownError::UnrequestedPage { page: 6 }));
    assert_eq!(error.message(), "OCR page 6 was not requested");
    session.submit_ocr_page(OcrPageResult { page: 4, tokens: Vec::new() }).unwrap();
    assert!(matches!(session.finish(&backend), Err(HybridMarkdownError::MissingPage { page: 2 })));
    session
        .submit_ocr_page(OcrPageResult { page: 2, tokens: vec![token("Seen", 0.0, 0.0, 0.5, 0.5, 0, 1.0)] })
        .unwrap();
    let result = session.finish(&backend).unwrap();
    assert_eq!(
        result.pages.iter().map(|page| (page.page, page.source)).collect::<Vec<_>>(),
        [
            (1, HybridMarkdownPageSource::NativeText),
            (2, HybridMarkdownPageSource::Ocr),
            (4, HybridMarkdownPageSource::Blank),
        ]
    );
    assert!(result.markdown.ends_with("Seen"));
}

#[test]
fn invalid_ocr_geometry_is_rejected_deterministically() {
    let error = ocr_tokens_to_items(&letter_request(), vec![token("bad", 0.9, 0.0, 0.2, 0.1, 0, 1.0)]).unwrap_err();
    assert!(matches!(error, HybridMarkdownError::InvalidToken { .. }));
    assert_eq!(
        error.message(),
        "OCR token on page 1 is invalid: bounds must stay inside normalized 0..1 page coordinates"
    );
}

#[test]
fn token_faults_come_in_order() {
    let fault = |token: OcrToken| validate_ocr_token(&token).unwrap_err();
    assert!(matches!(fault(token("a", f32::NAN, -1.0, 0.0, 0.0, 0, 2.0)), TokenFault::NotFinite));
    assert!(matches!(fault(token("a", 0.0, 0.0, 0.0, 0.0, 0, f32::INFINITY)), TokenFault::NotFinite));
    assert!(matches!(fault(token("a", -0.1, 0.0, 0.0, 0.0, 0, 2.0)), TokenFault::OutOfBounds));
    assert!(matches!(fault(token("a", 0.0, 0.0, 0.0, 0.0, 0, 1.5)), TokenFault::BadConfidence));
    assert!(matches!(fault(token("a", 0.0, 0.0, 0.0, 0.0, 0, -0.5)), TokenFault::BadConfidence));
    assert!(validate_ocr_token(&token("a", 0.0, 0.0, 1.0, 1.0, 0, 1.0)).is_ok());
    assert_eq!(TokenFault::NotFinite.reason(), "geometry and confidence must be finite");
    assert_eq!(TokenFault::BadConfidence.reason(), "confidence must be between 0 and 1");
}

#[test]
fn tokens_of_a_line_share_baseline_and_size() {
    let items = ocr_tokens_to_items(
        &letter_request(),
        vec![
            token("left", 0.0, 0.25, 0.25, 0.25, 3, 1.0),
            token("  ", 0.0, 0.0, 1.0, 1.0, 3, 1.0),
            token("right", 0.5, 0.5, 0.0, 0.25, 3, 1.0),
            token("thin", 0.0, 0.0, 0.0, 0.0, 4, 1.0),
        ],
    )
    .unwrap();
    assert_eq!(items.iter().map(|item| item.text.as_str()).collect::<Vec<_>>(), ["left", "right", "thin"]);
    assert_eq!(v(items[0].font_size), 396.0);
    assert_eq!(v(items[0].y), 0.25 * 792.0 + 396.0 * 0.8);
    assert_eq!(items[0].y, items[1].y);
    assert_eq!((v(items[0].width), v(items[1].width)), (153.0, 0.5));
    assert_eq!(v(items[1].x), 306.0);
    assert_eq!(v(items[2].font_size), 1.0);
    assert_eq!(items[0].font, "__pdf_inspector_ocr");
}

#[test]
fn state_poisoning_has_a_message() {
    assert_eq!(HybridMarkdownError::StatePoisoned.message(), "hybrid Markdown session state is poisoned");
    let failure = PdfFailure { message: "broken".to_string(), is_decompression_limit: false };
    assert_eq!(HybridMarkdownError::Pdf(failure).message(), "broken");
}

#[test]
fn reasons_are_kept_once_and_in_page_order() {
    let mut reasons = OcrReasons::new();
    assert!(reasons.is_empty());
    reasons.add_reason(3, "b");
    reasons.add_reason(1, "a");
    reasons.add_reason(3, "c");
    reasons.add_reason(3, "b");
    assert_eq!(reasons.get(3), ["b", "c"]);
    assert!(reasons.get(2).is_empty());
    let mut other = OcrReasons::new();
    other.add_reason(2, "d");
    other.add_reason(3, "e");
    reasons.merge(&other);
    reasons.merge_pages(&vec![PageOcrReasons { page: 1, reasons: vec!["a".to_string(), "f".to_string()] }]);
    let copy = reasons.copied();
    let pages: Vec<(u32, Vec<String>)> =
        reasons.into_pages().into_iter().map(|entry| (entry.page, entry.reasons)).collect();
    assert_eq!(
        pages,
        [
            (1, vec!["a".to_string(), "f".to_string()]),
            (2, vec!["d".to_string()]),
            (3, vec!["b".to_string(), "c".to_string(), "e".to_string()]),
        ]
    );
    assert_eq!(copy.get(2), ["d"]);
}

#[test]
fn page_boxes_follow_the_pages() {
    let mut document = mixed_twenty_page_document();
    let second = document.get_pages()[&2];
    let crop: Vec<Object> = vec![12.into(), 20.into(), 112.into(), 220.into()];
    document.get_dictionary_mut(second).unwrap().set("CropBox", Object::Array(crop));
    let third = document.get_pages()[&3];
    document.get_dictionary_mut(third).unwrap().remove(b"MediaBox");
    assert_eq!(page_count(&document), 20);
    let boxes = collect_page_boxes(&document);
    assert_eq!(boxes.len(), 20);
    let area = |x: f32, y: f32, width: f32, height: f32| PageArea { x: f(x), y: f(y), width: f(width), height: f(height) };
    assert_eq!(boxes[0], area(0.0, 0.0, 612.0, 792.0));
    assert_eq!(boxes[1], area(12.0, 20.0, 100.0, 200.0));
    assert_eq!(boxes[2], PageArea::fallback());
}

#[test]
fn extraction_steps_depend_on_the_kind_of_document() {
    let failure = |limit: bool| PdfFailure { message: "x".to_string(), is_decompression_limit: limit };
    let extraction = || PlainBackend.extract(&text_document(), &None, None, false).unwrap();
    assert!(matches!(after_first_extraction(PdfType::Mixed, Ok(extraction()), true), ExtractionStep::Retry));
    assert!(matches!(after_first_extraction(PdfType::Mixed, Ok(extraction()), false), ExtractionStep::Use(_)));
    assert!(matches!(after_first_extraction(PdfType::TextBased, Ok(extraction()), true), ExtractionStep::Use(_)));
    assert!(matches!(after_first_extraction(PdfType::Mixed, Err(failure(false)), false), ExtractionStep::Retry));
    assert!(matches!(after_first_extraction(PdfType::Mixed, Err(failure(true)), false), ExtractionStep::Fail(_)));
    assert!(matches!(after_first_extraction(PdfType::TextBased, Err(failure(false)), false), ExtractionStep::Fail(_)));
    assert!(matches!(after_last_extraction(PdfType::Mixed, Err(failure(false))), Ok(None)));
    assert!(after_last_extraction(PdfType::Mixed, Err(failure(true))).is_err());
    assert!(after_last_extraction(PdfType::TextBased, Err(failure(false))).is_err());
    assert!(matches!(after_last_extraction(PdfType::Mixed, Ok(extraction())), Ok(Some(_))));
}

#[test]
fn samples_take_the_first_processed_items() {
    let items: Vec<TextItem> = (0..450).map(|i| item(if i % 2 == 0 { "a" } else { "b" }, 1 + i % 2, 0.0)).collect();
    assert_eq!(sample_text(&items, &None), "ab".repeat(100));
    assert_eq!(sample_text(&items, &Some(vec![2])), "b".repeat(200));
    assert_eq!(sample_text(&items, &Some(vec![3])), "");
}

#[test]
fn suppressed_pages_give_nothing_to_the_pass() {
    let extraction = || Extraction {
        items: vec![item("one", 1, 0.0), item("two", 2, 0.0), item("three", 3, 0.0)],
        rects: (1..=3)
            .map(|page| PdfRect { x: f(0.0), y: f(0.0), width: f(1.0), height: f(1.0), page })
            .collect(),
        lines: (1..=3).map(|page| PdfLine { x1: f(0.0), y1: f(0.0), x2: f(1.0), y2: f(1.0), page }).collect(),
        page_thresholds: Vec::new(),
        gid_encoded_pages: vec![3, 1, 3],
    };
    let select = |pdf_type: PdfType, filter: Option<Vec<u32>>| {
        select_content(pdf_type, &vec![2, 3], extraction(), Vec::new(), Vec::new(), 3, filter, MarkdownOptions::default())
    };
    let chosen = select(PdfType::TextBased, Some(vec![1, 2]));
    assert_eq!(chosen.suppressed, [2]);
    assert_eq!(chosen.items.iter().map(|item| item.page).collect::<Vec<_>>(), [1, 3]);
    assert_eq!(chosen.context.rects.iter().map(|rect| rect.page).collect::<Vec<_>>(), [1]);
    assert_eq!(chosen.context.lines.iter().map(|line| line.page).collect::<Vec<_>>(), [1]);
    assert_eq!(chosen.gid_pages, [1]);
    assert_eq!(chosen.reasons.get(2), [OCR_REASON_SUSPECTED_GARBLED_TEXT]);
    assert!(chosen.reasons.get(3).is_empty());
    let mixed = select(PdfType::Mixed, None);
    assert!(mixed.suppressed.is_empty());
    assert_eq!(mixed.items.len(), 3);
    assert_eq!(mixed.gid_pages, [1, 3]);
}

/// Replies as it is told and notes what it was asked.
struct Scripted {
    pdf_type: PdfType,
    needing: Vec<u32>,
    texts: Vec<Result<&'static str, bool>>,
    markdown: &'static str,
    gid_pages: Vec<u32>,
    asked: RefCell<Vec<bool>>,
    configured: RefCell<Vec<(String, Option<usize>)>>,
    tables_seen: RefCell<Vec<usize>>,
}

fn scripted(pdf_type: PdfType, texts: Vec<Result<&'static str, bool>>, markdown: &'static str) -> Scripted {
    Scripted {
        pdf_type,
        needing: vec![1],
        texts,
        markdown,
        gid_pages: Vec::new(),
        asked: RefCell::new(Vec::new()),
        configured: RefCell::new(Vec::new()),
        tables_seen: RefCell::new(Vec::new()),
    }
}

impl MarkdownBackend for Scripted {
    fn detect(
        &self,
        _document: &Document,
        _page_count: u32,
        config: &DetectionConfig,
        limit: Option<usize>,
    ) -> Result<Detection, PdfFailure> {
        self.configured.borrow_mut().push((format!("{config:?}"), limit));
        Ok(Detection {
            pdf_type: self.pdf_type,
            pages_needing_ocr: self.needing.clone(),
            ocr_reasons_by_page: Vec::new(),
            title: Some("Title".to_string()),
            confidence: f(0.5),
        })
    }

    fn extract(
        &self,
        _document: &Document,
        _page_filter: &Option<Vec<u32>>,
        limit: Option<usize>,
        include_invisible: bool,
    ) -> Result<Extraction, PdfFailure> {
        self.configured.borrow_mut().push(("extract".to_string(), limit));
        let turn = self.asked.borrow().len();
        self.asked.borrow_mut().push(include_invisible);
        match self.texts[turn] {
            Ok(text) => Ok(Extraction {
                items: vec![item(text, 1, 0.0), item(text, 2, 0.0)],
                rects: Vec::new(),
                lines: Vec::new(),
                page_thresholds: Vec::new(),
                gid_encoded_pages: self.gid_pages.clone(),
            }),
            Err(limit) => Err(PdfFailure { message: "unreadable".to_string(), is_decompression_limit: limit }),
        }
    }

    fn struct_roles(&self, _document: &Document) -> Vec<RoleEntry> {
        Vec::new()
    }

    fn struct_tables(&self, _document: &Document) -> Vec<StructTable> {
        vec![StructTable { rows: vec![vec![StructCell { is_header: true, content: vec![(1, 4)] }]] }]
    }

    fn is_garbage_text(&self, text: &String) -> bool {
        text.starts_with('#')
    }

    fn assemble(&self, _items: Vec<TextItem>, context: &RenderContext, _emit_markdown: bool) -> Assembly {
        self.tables_seen.borrow_mut().push(context.struct_tables.len());
        Assembly {
            markdown: Some(self.markdown.to_string()),
            markdown_has_encoding_issues: false,
            layout: LayoutComplexity::default(),
            text_quality_pages: Vec::new(),
            text_quality_reasons: Vec::new(),
            text_quality_issues: false,
        }
    }
}

#[test]
fn mixed_documents_fall_back_to_invisible_text() {
    let document = text_document();
    let prepare = |backend: &Scripted| prepare_markdown_state(backend, &document, 2, options());

    let good = scripted(PdfType::Mixed, vec![Ok("text")], "md");
    let prepared = prepare(&good).unwrap();
    assert_eq!(*good.asked.borrow(), [false]);
    assert_eq!(prepared.source_items.len(), 2);
    assert_eq!(prepared.markdown.as_deref(), Some("md"));
    assert_eq!(prepared.title.as_deref(), Some("Title"));

    for first in [Ok("#"), Ok("  "), Err(false)] {
        let poor = scripted(PdfType::Mixed, vec![first, Ok("hidden")], "md");
        let prepared = prepare(&poor).unwrap();
        assert_eq!(*poor.asked.borrow(), [false, true]);
        assert_eq!(prepared.source_items[0].text, "hidden");
    }

    let lost = scripted(PdfType::Mixed, vec![Err(false), Err(false)], "md");
    let prepared = prepare(&lost).unwrap();
    assert!(prepared.source_items.is_empty());
    assert!(prepared.markdown.is_none());
    assert_eq!(prepared.pages_needing_ocr, [1]);

    let huge = scripted(PdfType::Mixed, vec![Err(true)], "md");
    assert!(prepare(&huge).is_err());
    let text_based = scripted(PdfType::TextBased, vec![Err(false)], "md");
    assert!(prepare(&text_based).is_err());
}

#[test]
fn garbage_markdown_changes_the_outcome() {
    let document = text_document();
    let mixed = scripted(PdfType::Mixed, vec![Ok("text")], "# broken");
    let prepared = prepare_markdown_state(&mixed, &document, 2, options()).unwrap();
    assert_eq!(prepared.pdf_type, PdfType::Scanned);
    assert!(prepared.markdown.is_none());
    assert_eq!(v(prepared.confidence), 0.95);
    assert_eq!(prepared.pages_needing_ocr, [1]);

    let text_based = scripted(PdfType::TextBased, vec![Ok("text")], "# broken");
    let prepared = prepare_markdown_state(&text_based, &document, 2, options()).unwrap();
    assert_eq!(prepared.pdf_type, PdfType::TextBased);
    assert!(prepared.markdown.is_none());
    assert!(prepared.has_encoding_issues);
    assert_eq!(prepared.pages_needing_ocr, [1, 2]);
    assert_eq!(v(prepared.confidence), 0.5);
    // The native text of a page whose fonts cannot be read is left out.
    assert_eq!(prepared.source_items.iter().map(|item| item.page).collect::<Vec<_>>(), [2]);
    assert_eq!(prepared.ocr_reasons_by_page.get(1), [OCR_REASON_SUSPECTED_GARBLED_TEXT]);
}

#[test]
fn unmapped_pages_leave_no_markdown() {
    let document = text_document();
    let mut backend = scripted(PdfType::Mixed, vec![Ok("text")], "md");
    backend.gid_pages = vec![2];
    let some = prepare_markdown_state(&backend, &document, 2, options()).unwrap();
    assert_eq!(some.markdown.as_deref(), Some("md"));
    assert_eq!(some.pages_needing_ocr, [1, 2]);
    let mut backend = scripted(PdfType::Mixed, vec![Ok("text")], "md");
    backend.gid_pages = vec![2, 1];
    let all = prepare_markdown_state(&backend, &document, 2, options()).unwrap();
    assert!(all.markdown.is_none());
}

#[test]
fn processing_modes_differ_in_depth() {
    let document = text_document();
    let with_mode = |mode: ProcessMode| PdfOptions { mode, ..options() };
    let backend = scripted(PdfType::Mixed, vec![Ok("text"), Ok("text")], "md");
    let detected =
        process_document(&backend, &document, 2, with_mode(ProcessMode::DetectOnly), Instant::now()).unwrap();
    assert!(backend.asked.borrow().is_empty());
    assert!(detected.markdown.is_none());
    assert_eq!((detected.page_count, detected.pdf_type), (2, PdfType::Mixed));
    let analyzed = process_document(&backend, &document, 2, with_mode(ProcessMode::Analyze), Instant::now()).unwrap();
    assert!(analyzed.markdown.is_none());
    assert_eq!(*backend.asked.borrow(), [false]);
    let full = process_document(&backend, &document, 2, with_mode(ProcessMode::Full), Instant::now()).unwrap();
    assert_eq!(full.markdown.as_deref(), Some("md"));
    assert_eq!(full.pages_needing_ocr, [1]);
    assert_eq!(full.title.as_deref(), Some("Title"));
}

#[test]
fn sessions_start_from_a_prepared_document() {
    let document = scanned_document();
    let prepared = prepare_markdown_state(&PlainBackend, &document, 1, options()).unwrap();
    let session = HybridMarkdownSession::from_prepared(prepared);
    assert_eq!(session.ocr_requests().len(), 1);
    assert_eq!(session.submitted_page_count().unwrap(), 0);
}

#[test]
fn tables_of_the_structure_tree_reach_the_markdown_pass() {
    let document = text_document();
    let backend = scripted(PdfType::Mixed, vec![Ok("text")], "md");
    let prepared = prepare_markdown_state(&backend, &document, 2, options()).unwrap();
    assert_eq!(*backend.tables_seen.borrow(), [1]);
    assert_eq!(prepared.context.struct_tables.len(), 1);
    assert!(prepared.context.struct_tables[0].rows[0][0].is_header);
    assert_eq!(prepared.context.struct_tables[0].rows[0][0].content, [(1, 4)]);
    let scanned = scripted(PdfType::Scanned, Vec::new(), "md");
    let prepared = prepare_markdown_state(&scanned, &document, 2, options()).unwrap();
    assert!(prepared.context.struct_tables.is_empty());
}

#[test]
fn detection_and_extraction_get_their_limits() {
    let document = text_document();
    let limited = PdfOptions { max_decompressed_size: Some(4096), ..options() };
    let backend = scripted(PdfType::Mixed, vec![Ok("#"), Ok("text")], "md");
    prepare_markdown_state(&backend, &document, 2, limited).unwrap();
    let configured = backend.configured.borrow();
    assert!(configured[0].0.contains("EarlyExit"));
    assert!(configured[0].0.contains("min_text_ops_per_page: 3"));
    assert!(configured.iter().all(|(_, limit)| *limit == Some(4096)));
    assert_eq!(configured.len(), 3);
}

#[test]
fn complete_sessions_run_alike_whatever_the_mode_scan_and_password() {
    let document = text_document();
    let given = PdfOptions {
        mode: ProcessMode::DetectOnly,
        detection: DetectionConfig { strategy: ScanStrategy::Sample(5), ..options().detection },
        password: Some("secret".to_string()),
        ..options()
    };
    let runs: Vec<_> = [options(), given]
        .into_iter()
        .map(|options| {
            let backend = scripted(PdfType::Mixed, vec![Ok("text")], "md");
            let session = prepare_hybrid_markdown(&document, &backend, options).unwrap();
            let pages: Vec<u32> = session.ocr_requests().iter().map(|request| request.page).collect();
            (pages, session.prepared.markdown, backend.configured.into_inner())
        })
        .collect();
    assert_eq!(runs[0], runs[1]);
    assert!(runs[0].2[0].0.contains("Full"));
    assert_eq!(runs[0].1.as_deref(), Some("md"));
}

#[test]
fn requests_ascend_and_expect_their_ratio() {
    let document = text_document();
    let mut backend = scripted(PdfType::Mixed, vec![Ok("text")], "md");
    backend.needing = vec![2, 1];
    let session = prepare_hybrid_markdown(&document, &backend, options()).unwrap();
    let requests = session.ocr_requests();
    assert_eq!(requests.iter().map(|request| request.page).collect::<Vec<_>>(), [1, 2]);
    // A document without text is asked for in the same order.
    let mut scanned = scripted(PdfType::Scanned, Vec::new(), "md");
    scanned.needing = vec![2, 1, 2];
    let pages = prepare_hybrid_markdown(&document, &scanned, options()).unwrap().ocr_requests();
    assert_eq!(pages.iter().map(|request| request.page).collect::<Vec<_>>(), [1, 2]);
    for request in requests {
        assert!(v(request.width) > 0.0 && v(request.height) > 0.0);
        assert_eq!(v(request.expected_aspect_ratio), v(request.width) / v(request.height));
    }
}
