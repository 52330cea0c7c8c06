use pdf_inspector::cli::arguments::{
    argument_value, has_flag, number_error, parse_command, parse_page_spec, process_mode, CommandError,
};
use pdf_inspector::cli::json::{
    format_items_json, format_ocr_error_json, format_ocr_reasons_by_page, item_type_label, json_escape,
};
use pdf_inspector::cli::report::{
    exit_ocr_error, format_ocr_json, report_failure, report_items_failure, report_ocr, report_refusal, report_result,
};
use pdf_inspector::hybrid_markdown::document::{PdfType, ProcessMode};
use pdf_inspector::hybrid_markdown::prepare::PdfProcessResult;
use pdf_inspector::hybrid_markdown::reasons::PageOcrReasons;
use pdf_inspector::single::Single;
use pdf_inspector::types::{ItemType, LayoutComplexity, TextItem};
use pdf_inspector::vision::ocr::{ModelIdentity, OcrMode};
use pdf_inspector::vision::result::{OcrPdfPage, OcrPdfResult, PageContentSource, PageProvenance, PageTimings};

fn f(x: f32) -> Single {
    Single { bits: x.to_bits() }
}

fn args(list: &[&str]) -> Vec<String> {
    list.iter().map(|text| text.to_string()).collect()
}

fn item() -> TextItem {
    TextItem {
        text: "A \"quoted\" item".to_string(),
        x: f(12.345),
        y: f(67.891),
        width: f(23.456),
        height: f(9.876),
        font: "F1".to_string(),
        font_tag: String::new(),
        legacy_symbol_rewrite: false,
        font_size: f(10.0),
        page: 2,
        is_bold: false,
        is_italic: true,
        is_underline: true,
        is_strikeout: true,
        rotation: f(90.0),
        advance_known: true,
        item_type: ItemType::Text,
        mcid: Some(7),
        baseline_shift: f(3.5),
    }
}

#[test]
fn items_json_includes_position_and_underline_metadata() {
    let json = format_items_json(&vec![item()]);

    assert!(json.contains(r#""text":"A \"quoted\" item""#));
    assert!(json.contains(r#""page":2"#));
    assert!(json.contains(r#""x":12.35"#));
    assert!(json.contains(r#""rotation":90.00"#));
    assert!(json.contains(r#""advance_known":true"#));
    assert!(json.contains(r#""is_underline":true"#));
    assert!(json.contains(r#""baseline_shift":3.50"#));
    assert!(json.contains(r#""item_type":"text""#));
    assert!(json.contains(r#""mcid":7"#));
}

#[test]
fn ocr_json_errors_use_the_same_versioned_envelope() {
    assert_eq!(
        format_ocr_error_json("bad \"value\""),
        r#"{"schema_version":1,"error":"bad \"value\""}"#
    );
}

#[test]
fn items_json_counts_and_lists_items() {
    let mut link = item();
    link.item_type = ItemType::Link("https://example.com/?a=\"b\"".to_string());
    link.is_underline = false;
    link.mcid = None;
    assert_eq!(
        format_items_json(&vec![item(), link]),
        concat_items()
    );
    assert_eq!(format_items_json(&Vec::new()), r#"{"total_items":0,"underlined_count":0,"items":[]}"#);
    assert_eq!(item_type_label(&ItemType::Image), "image");
    assert_eq!(item_type_label(&ItemType::FormField), "form_field");
}

fn concat_items() -> String {
    let place = r#"{"text":"A \"quoted\" item","page":2,"x":12.35,"y":67.89,"width":23.46,"height":9.88,"rotation":90.00,"advance_known":true,"font":"F1","font_tag":"","font_size":10.00,"is_bold":false,"is_italic":true,"#;
    let first = r#""is_underline":true,"is_strikeout":true,"baseline_shift":3.50,"item_type":"text","mcid":7}"#;
    let second = r#""is_underline":false,"is_strikeout":true,"baseline_shift":3.50,"item_type":"link","mcid":null,"url":"https://example.com/?a=\"b\""}"#;
    format!(r#"{{"total_items":2,"underlined_count":1,"items":[{place}{first},{place}{second}]}}"#)
}

#[test]
fn json_strings_escape_what_they_must() {
    assert_eq!(json_escape("a\\b\"c\nd\re\tf"), "a\\\\b\\\"c\\nd\\re\\tf");
    assert_eq!(json_escape("\u{8}\u{c}\u{0}\u{1f}é"), "\\b\\f\\u0000\\u001fé");
    let reasons = vec![
        PageOcrReasons { page: 1, reasons: vec!["a".to_string(), "\"b\"".to_string()] },
        PageOcrReasons { page: 4, reasons: Vec::new() },
    ];
    assert_eq!(
        format_ocr_reasons_by_page(&reasons),
        r#"{"page":1,"reasons":["a","\"b\""]},{"page":4,"reasons":[]}"#
    );
}

#[test]
fn page_specifications_name_pages_and_ranges() {
    assert_eq!(parse_page_spec("1,3,5-10,20").unwrap(), vec![1, 3, 5, 6, 7, 8, 9, 10, 20]);
    assert_eq!(parse_page_spec(" 4 , 2 - 3 ,2").unwrap(), vec![2, 3, 4]);
    assert_eq!(parse_page_spec("x").unwrap_err(), "invalid page number: x");
    assert_eq!(parse_page_spec("1,").unwrap_err(), "invalid page number: ");
    assert_eq!(parse_page_spec("0").unwrap_err(), "page numbers are 1-indexed");
    assert_eq!(parse_page_spec("0-3").unwrap_err(), "page numbers are 1-indexed");
    assert_eq!(parse_page_spec("5-3").unwrap_err(), "invalid range: 5-3");
    assert_eq!(parse_page_spec("3-x").unwrap_err(), "invalid page number: x");
    assert_eq!(parse_page_spec("a-b").unwrap_err(), "invalid page number: a");
}

#[test]
fn options_take_the_argument_after_them() {
    let list = args(&["pdf2md", "in.pdf", "--ocr", "auto", "--raw"]);
    assert_eq!(argument_value(&list, "--ocr").unwrap().unwrap(), "auto");
    assert!(argument_value(&list, "--password").unwrap().is_none());
    assert_eq!(argument_value(&list, "--raw").unwrap_err(), "--raw requires a value");
    assert!(has_flag(&list, "--raw") && !has_flag(&list, "--json"));
    assert_eq!(
        number_error("--ocr-dpi", "a\"b"),
        "--ocr-dpi requires a number, got \"a\\\"b\""
    );
}

#[test]
fn commands_are_read_from_arguments() {
    let command = parse_command(&args(&[
        "pdf2md",
        "in.pdf",
        "out.md",
        "--raw",
        "--compact",
        "--pages",
        "--password",
        "secret",
        "--select-pages",
        "3,1",
    ]))
    .unwrap();
    assert_eq!(command.pdf_path, "in.pdf");
    assert_eq!(command.output_file.as_deref(), Some("out.md"));
    assert!(command.raw && command.compact && command.page_numbers && !command.json);
    assert_eq!(command.password.as_deref(), Some("secret"));
    assert_eq!(command.page_filter, Some(vec![1, 3]));
    assert_eq!(command.ocr, None);
    assert_eq!(process_mode(&command), ProcessMode::Full);
    let detect = parse_command(&args(&["pdf2md", "in.pdf", "--detect-only", "--analyze"])).unwrap();
    assert_eq!(detect.output_file, None);
    assert_eq!(process_mode(&detect), ProcessMode::DetectOnly);
    let analyze = parse_command(&args(&["pdf2md", "in.pdf", "--analyze"])).unwrap();
    assert_eq!(process_mode(&analyze), ProcessMode::Analyze);
    let ocr = parse_command(&args(&["pdf2md", "in.pdf", "--ocr", "force"])).unwrap();
    assert_eq!(ocr.ocr, Some(OcrMode::Force));
}

#[test]
fn refused_arguments_say_why() {
    let refused = |list: &[&str]| parse_command(&args(list)).unwrap_err();
    assert!(matches!(refused(&["pdf2md"]), CommandError::Usage));
    let argument = |list: &[&str]| match refused(list) {
        CommandError::Argument { message } => message,
        _ => panic!("not refused for an argument"),
    };
    assert_eq!(argument(&["p", "in.pdf", "--ocr"]), "--ocr requires a value");
    assert_eq!(argument(&["p", "in.pdf", "--password"]), "--password requires a value");
    assert_eq!(
        argument(&["p", "in.pdf", "--select-pages"]),
        "--select-pages requires a value (e.g. 1,3,5-10)"
    );
    assert_eq!(
        argument(&["p", "in.pdf", "--select-pages", "7-2"]),
        "invalid --select-pages value: invalid range: 7-2"
    );
    let ocr = |list: &[&str]| match refused(list) {
        CommandError::Ocr { message } => message,
        _ => panic!("not refused for OCR"),
    };
    assert_eq!(
        ocr(&["p", "in.pdf", "--ocr-dpi", "300"]),
        "OCR options require --ocr off, --ocr auto, or --ocr force"
    );
    assert_eq!(
        ocr(&["p", "in.pdf", "--ocr", "auto", "--analyze"]),
        "--ocr cannot be combined with --items-json, --detect-only, or --analyze"
    );
    assert_eq!(
        ocr(&["p", "in.pdf", "--ocr", "maybe"]),
        "invalid --ocr mode \"maybe\"; expected off, auto, or force"
    );
}

fn result(pdf_type: PdfType, markdown: Option<&str>) -> PdfProcessResult {
    PdfProcessResult {
        pdf_type,
        markdown: markdown.map(|text| text.to_string()),
        page_count: 3,
        processing_time_ms: 12,
        pages_needing_ocr: vec![2, 3],
        ocr_reasons_by_page: vec![PageOcrReasons { page: 2, reasons: vec!["scanned".to_string()] }],
        title: None,
        confidence: f(0.9),
        layout: LayoutComplexity {
            is_complex: true,
            pages_with_tables: vec![1],
            pages_with_columns: vec![2, 3],
        },
        has_encoding_issues: false,
    }
}

#[test]
fn conversions_are_reported_as_asked() {
    let json = parse_command(&args(&["p", "in.pdf", "--json"])).unwrap();
    let report = report_result(&json, &result(PdfType::TextBased, Some("é\n")));
    assert_eq!(
        report.out,
        concat_json(r#""has_text":true,"processing_time_ms":12,"markdown_length":3,"#, r#","markdown":"é\n"}"#)
    );
    assert_eq!((report.err.as_str(), report.exit_code), ("", 0));

    let raw = parse_command(&args(&["p", "in.pdf", "--raw"])).unwrap();
    assert_eq!(report_result(&raw, &result(PdfType::Mixed, Some("text"))).out, "text");
    let scanned = report_result(&raw, &result(PdfType::Scanned, None));
    assert_eq!(scanned.err, "Error: PDF requires OCR (type: Scanned)\n");
    assert_eq!(scanned.exit_code, 2);

    let plain = parse_command(&args(&["p", "in.pdf"])).unwrap();
    let text = report_result(&plain, &result(PdfType::TextBased, Some("body")));
    assert_eq!(text.out, "body\n");
    assert_eq!(
        text.err,
        "PDF to Markdown Conversion\n==========================\nFile: in.pdf\n\nType: TEXT-BASED (direct extraction)\nPages: 3\nProcessing time: 12ms\nLayout: COMPLEX\n  Pages with tables: [1]\n  Pages with columns: [2, 3]\nPages needing OCR: [2, 3]\n\n--- Markdown Output ---\n\n"
    );
    let written = parse_command(&args(&["p", "in.pdf", "out.md"])).unwrap();
    let mixed = report_result(&written, &result(PdfType::Mixed, Some("é")));
    assert_eq!(mixed.out, "");
    assert_eq!(mixed.file, Some(("out.md".to_string(), "é".to_string())));
    assert!(mixed.err.ends_with("\n\nPages needing OCR: [2, 3]\n\nMarkdown written to: out.md\nLength: 2 characters\n"));
    let image = report_result(&plain, &result(PdfType::ImageBased, None));
    assert!(image.err.contains("Type: IMAGE-BASED (OCR required)\nPages: 3\n"));
    assert_eq!(image.exit_code, 2);
}

fn concat_json(middle: &str, end: &str) -> String {
    format!(
        "{}{middle}{}{end}\n",
        r#"{"pdf_type":"text_based","page_count":3,"#,
        r#""pages_needing_ocr":[2,3],"ocr_reasons_by_page":[{"page":2,"reasons":["scanned"]}],"is_complex":true,"pages_with_tables":[1],"pages_with_columns":[2,3],"has_encoding_issues":false"#
    )
}

#[test]
fn detection_is_reported_as_asked() {
    let json = parse_command(&args(&["p", "in.pdf", "--json", "--detect-only"])).unwrap();
    let report = report_result(&json, &result(PdfType::TextBased, None));
    assert_eq!(report.out, concat_json(r#""processing_time_ms":12,"#, "}"));
    let analyze = parse_command(&args(&["p", "in.pdf", "--analyze"])).unwrap();
    let report = report_result(&analyze, &result(PdfType::Mixed, None));
    assert_eq!(
        report.err,
        "Type: mixed\nPages: 3\nProcessing time: 12ms\nPages needing OCR: [2, 3]\nLayout: COMPLEX\n  Pages with tables: [1]\n  Pages with columns: [2, 3]\n"
    );
    let mut simple = result(PdfType::Mixed, None);
    simple.layout = LayoutComplexity::default();
    simple.pages_needing_ocr = Vec::new();
    let report = report_result(&analyze, &simple);
    assert_eq!(report.err, "Type: mixed\nPages: 3\nProcessing time: 12ms\nLayout: simple\n");
}

#[test]
fn failures_are_reported_as_asked() {
    let json = parse_command(&args(&["p", "in.pdf", "--json"])).unwrap();
    let plain = parse_command(&args(&["p", "in.pdf"])).unwrap();
    assert_eq!(report_failure(&json, "broken").out, "{\"error\":\"broken\"}\n");
    assert_eq!(report_failure(&json, "a \"b\"").out, "{\"error\":\"a \\\"b\\\"\"}\n");
    let report = report_failure(&plain, "broken");
    assert_eq!((report.err.as_str(), report.exit_code), ("Error: broken\n", 1));
    assert_eq!(report_items_failure("a \"b\"").out, "{\"error\":\"a \\\"b\\\"\"}\n");
    assert_eq!(
        exit_ocr_error("a \"b\"", true).out,
        "{\"schema_version\":1,\"error\":\"a \\\"b\\\"\"}\n"
    );
    assert_eq!(exit_ocr_error("no models", false).err, "Error: no models\n");
    assert_eq!(exit_ocr_error("no models", false).exit_code, 1);
}

fn ocr_result() -> OcrPdfResult {
    let timings = PageTimings { render_ms: 1, ocr_ms: 2, assembly_ms: 3 };
    OcrPdfResult {
        markdown: "one\n\ntwo".to_string(),
        page_count: 2,
        pages: vec![
            OcrPdfPage {
                markdown: "one".to_string(),
                provenance: PageProvenance {
                    page_number: 1,
                    source: PageContentSource::Native,
                    ocr_model: None,
                    render_dpi: None,
                    ocr_confidence: Some(f(f32::NAN)),
                    hosted_recommended: false,
                    timings,
                    warnings: Vec::new(),
                },
            },
            OcrPdfPage {
                markdown: "two".to_string(),
                provenance: PageProvenance {
                    page_number: 2,
                    source: PageContentSource::Fused,
                    ocr_model: Some(ModelIdentity::new("pp", "r1")),
                    render_dpi: Some(f(150.0)),
                    ocr_confidence: Some(f(0.5)),
                    hosted_recommended: true,
                    timings,
                    warnings: vec!["w1".to_string(), "w2".to_string()],
                },
            },
        ],
        pages_recommended_for_ocr: vec![2],
        pages_routed_to_ocr: vec![1, 2],
        pages_recommending_hosted: vec![2],
        ocr_reasons_by_page: Vec::new(),
        is_complex: false,
        pages_with_tables: Vec::new(),
        pages_with_columns: Vec::new(),
        processing_time_ms: 6,
        render_time_ms: 4,
        ocr_time_ms: 5,
    }
}

#[test]
fn ocr_results_have_a_versioned_envelope() {
    let json = format_ocr_json(&ocr_result());
    assert!(json.starts_with(r#"{"schema_version":1,"page_count":2,"processing_time_ms":6,"render_time_ms":4,"ocr_time_ms":5,"pages_recommended_for_ocr":[2],"pages_routed_to_ocr":[1,2],"pages_recommending_hosted":[2],"ocr_reasons_by_page":[],"is_complex":false,"pages_with_tables":[],"pages_with_columns":[],"pages":[{"page":1,"source":"native","markdown":"one","ocr_model":null,"render_dpi":null,"ocr_confidence":null,"hosted_recommended":false,"timings":{"render_ms":1,"ocr_ms":2,"assembly_ms":3},"warnings":[]},"#));
    assert!(json.ends_with(r#"{"page":2,"source":"fused","markdown":"two","ocr_model":{"name":"pp","revision":"r1"},"render_dpi":150.0000,"ocr_confidence":0.5000,"hosted_recommended":true,"timings":{"render_ms":1,"ocr_ms":2,"assembly_ms":3},"warnings":["w1","w2"]}],"markdown":"one\n\ntwo"}"#));
    assert!(!json.contains("layout_ms"));
}

#[test]
fn ocr_results_are_reported_as_asked() {
    let plain = parse_command(&args(&["p", "in.pdf", "--ocr", "auto"])).unwrap();
    let report = report_ocr(&plain, &ocr_result());
    assert_eq!(report.out, "one\n\ntwo");
    assert_eq!(
        report.err,
        "PDF to Markdown Conversion (OCR)\n======================================\nFile: in.pdf\nPages: 2\nPages routed to OCR: [1, 2]\nHosted parsing recommended for pages: [2]\nProcessing time: 6ms\n\n--- Markdown Output ---\n\n"
    );
    let raw = parse_command(&args(&["p", "in.pdf", "--ocr", "auto", "--raw"])).unwrap();
    assert_eq!(report_ocr(&raw, &ocr_result()).out, "one\n\ntwo");
    let file = parse_command(&args(&["p", "in.pdf", "out.md", "--ocr", "auto"])).unwrap();
    let report = report_ocr(&file, &ocr_result());
    assert_eq!(report.file, Some(("out.md".to_string(), "one\n\ntwo".to_string())));
    assert!(report.err.ends_with("Processing time: 6ms\nMarkdown written to: out.md\n"));
    let json = parse_command(&args(&["p", "in.pdf", "--ocr", "auto", "--json"])).unwrap();
    assert!(report_ocr(&json, &ocr_result()).out.ends_with("\"}\n"));
}

#[test]
fn refused_arguments_are_reported() {
    let usage = report_refusal("pdf2md", false, &CommandError::Usage);
    assert!(usage.err.starts_with("Usage: pdf2md <pdf_file> [output_file]\n       pdf2md <pdf_file> --json\n"));
    assert!(usage.err.contains("\n\nOptions:\n  --json              Output result as JSON\n"));
    assert!(usage.err.ends_with("  --ocr-offline       Never download missing OCR models\n"));
    assert_eq!((usage.out.as_str(), usage.exit_code), ("", 1));
    let argument = CommandError::Argument { message: "--ocr requires a value".to_string() };
    let report = report_refusal("pdf2md", true, &argument);
    assert_eq!((report.err.as_str(), report.exit_code), ("Error: --ocr requires a value\n", 1));
    let ocr = CommandError::Ocr { message: "no".to_string() };
    assert_eq!(report_refusal("pdf2md", true, &ocr).out, "{\"schema_version\":1,\"error\":\"no\"}\n");
    assert_eq!(report_refusal("pdf2md", false, &ocr).err, "Error: no\n");
}

#[test]
fn ocr_json_has_a_versioned_stable_envelope() {
    let native = |page_number: u32| OcrPdfPage {
        markdown: format!("page {page_number}"),
        provenance: PageProvenance {
            page_number,
            source: PageContentSource::Native,
            ocr_model: None,
            render_dpi: None,
            ocr_confidence: None,
            hosted_recommended: false,
            timings: PageTimings { render_ms: 0, ocr_ms: 0, assembly_ms: 0 },
            warnings: Vec::new(),
        },
    };
    let result = OcrPdfResult { page_count: 3, pages: vec![native(1), native(2), native(3)], ..ocr_result() };
    let json = format_ocr_json(&result);

    assert!(json.starts_with(r#"{"schema_version":1,"page_count":3,"#));
    assert!(json.contains(r#""page":1,"source":"native""#));
    assert!(!json.contains("layout_ms"));
}

#[test]
fn joined_page_specifications_name_the_pages_of_both() {
    assert_eq!(parse_page_spec("2-4,1,3").unwrap(), vec![1, 2, 3, 4]);
    assert_eq!(parse_page_spec("5-3,x").unwrap_err(), "invalid range: 5-3");
    assert_eq!(parse_page_spec("7,x").unwrap_err(), "invalid page number: x");
    for (first, last) in [(1, 1), (2, 5), (10, 12), (0, 3), (4, 2)] {
        let parsed = parse_page_spec(&format!("{first}-{last}"));
        assert_eq!(parsed.ok(), (1 <= first && first <= last).then(|| (first..=last).collect::<Vec<u32>>()));
    }
}
