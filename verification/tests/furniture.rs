use pdf_inspector::markdown::edges::{strip_edge_furniture, strip_header_footer_lines};
use pdf_inspector::markdown::furniture::{keep_lines, sort_values, strip_repeated_lines};
use pdf_inspector::markdown::words::{
    count_words, is_decorative_separator, is_structural_line, normalize_for_comparison, normalize_whitespace,
    starts_with_paren_marker,
};
use pdf_inspector::single::Single;
use pdf_inspector::types::{ItemType, TextItem, TextLine};

fn f(x: f32) -> Single {
    Single { bits: x.to_bits() }
}

fn make_item(text: &str, font_size: f32, mcid: Option<i64>) -> TextItem {
    TextItem {
        text: text.to_string(),
        x: f(0.0),
        y: f(0.0),
        width: f(100.0),
        height: f(font_size),
        font: "TestFont".to_string(),
        font_tag: String::new(),
        legacy_symbol_rewrite: false,
        font_size: f(font_size),
        page: 1,
        is_bold: false,
        is_italic: false,
        is_underline: false,
        is_strikeout: false,
        rotation: f(0.0),
        advance_known: true,
        item_type: ItemType::Text,
        mcid,
        baseline_shift: f(0.0),
    }
}

fn line_of(items: Vec<TextItem>, page: u32, y: f32) -> TextLine {
    TextLine { items, y: f(y), page, adaptive_threshold: f(0.10), joined: Vec::new() }
}

fn make_line(text: &str, font_size: f32, page: u32, y: f32, mcid: Option<i64>) -> TextLine {
    line_of(vec![make_item(text, font_size, mcid)], page, y)
}


/// A dense single page: 14 unique body lines at 15pt leading starting
/// from y=650, all 10pt font.
fn body_page(lines: &mut Vec<TextLine>) {
    for j in 0..14u32 {
        lines.push(make_line(
            &format!("body paragraph line number {j} with ordinary words"),
            10.0,
            1,
            650.0 - j as f32 * 15.0,
            None,
        ));
    }
}

#[test]
fn edge_furniture_strips_isolated_running_header() {
    let mut lines = vec![make_line(
        "martinez et al respiratory research vol nine",
        8.0,
        1,
        760.0, // 110pt above the body: isolated
        None,
    )];
    body_page(&mut lines);
    let result = strip_header_footer_lines(lines, 1);
    assert!(
        !result.iter().any(|l| l.text().contains("martinez")),
        "isolated small running header must be stripped"
    );
    assert_eq!(result.len(), 14);
}

#[test]
fn edge_furniture_keeps_display_title() {
    let mut lines = vec![make_line("Annual Report", 22.0, 1, 760.0, None)];
    body_page(&mut lines);
    let result = strip_header_footer_lines(lines, 1);
    assert!(
        result.iter().any(|l| l.text().contains("Annual Report")),
        "display title set larger than body must survive"
    );
}

#[test]
fn edge_furniture_strips_numeric_page_indicator() {
    let mut lines = Vec::new();
    body_page(&mut lines);
    lines.push(make_line("1 / 1", 10.0, 1, 380.0, None)); // 65pt below body
    let result = strip_header_footer_lines(lines, 1);
    assert!(
        !result.iter().any(|l| l.text().contains("1 / 1")),
        "isolated non-alphabetic page indicator must be stripped"
    );
}

#[test]
fn edge_furniture_keeps_single_line_footnote() {
    let mut lines = Vec::new();
    body_page(&mut lines);
    lines.push(make_line(
        "1 See the appendix for the full derivation",
        8.0,
        1,
        380.0,
        None,
    ));
    let result = strip_header_footer_lines(lines, 1);
    assert!(
        result.iter().any(|l| l.text().contains("appendix")),
        "digit-led footnote text at the bottom must survive"
    );
}

#[test]
fn edge_furniture_keeps_footnote_block() {
    let mut lines = Vec::new();
    body_page(&mut lines);
    // Three-line footnote block at normal internal leading, isolated
    // from the body: the run is body-sized, so it stays whole.
    for j in 0..3u32 {
        lines.push(make_line(
            &format!("footnote continuation words line {j}"),
            8.0,
            1,
            390.0 - j as f32 * 12.0,
            None,
        ));
    }
    let result = strip_header_footer_lines(lines, 1);
    assert_eq!(
        result
            .iter()
            .filter(|l| l.text().contains("footnote continuation"))
            .count(),
        3,
        "multi-line footnote block must survive whole"
    );
}

#[test]
fn edge_furniture_keeps_two_cell_numeric_row() {
    // Two numeric cells at the bottom edge: form or table data, not a
    // page indicator, which is a single short run.
    let mut lines = Vec::new();
    body_page(&mut lines);
    let mut items = Vec::new();
    for (k, cell) in ["42.50", "38.20"].iter().enumerate() {
        let mut item = make_item(cell, 10.0, None);
        item.x = f(50.0 + k as f32 * 200.0);
        item.width = f(40.0);
        items.push(item);
    }
    lines.push(line_of(items, 1, 380.0));
    let result = strip_header_footer_lines(lines, 1);
    assert!(
        result.iter().any(|l| l.text().contains("42.50")),
        "two-cell numeric row must survive as data"
    );
}

#[test]
fn edge_furniture_keeps_symbol_and_letter_marked_footnotes() {
    let mut lines = Vec::new();
    body_page(&mut lines);
    lines.push(make_line(
        "† Estimates assume constant returns",
        8.0,
        1,
        380.0,
        None,
    ));
    let result = strip_header_footer_lines(lines, 1);
    assert!(
        result.iter().any(|l| l.text().contains("constant returns")),
        "symbol-marked footnote must survive"
    );

    let mut lines = Vec::new();
    body_page(&mut lines);
    lines.push(make_line(
        "a See the appendix for derivations",
        8.0,
        1,
        380.0,
        None,
    ));
    let result = strip_header_footer_lines(lines, 1);
    assert!(
        result.iter().any(|l| l.text().contains("appendix")),
        "lowercase-letter-marked footnote must survive"
    );
}

#[test]
fn edge_furniture_keeps_paren_letter_marker() {
    let mut lines = Vec::new();
    body_page(&mut lines);
    lines.push(make_line(
        "(a) See the statutory definitions above",
        8.0,
        1,
        380.0,
        None,
    ));
    let result = strip_header_footer_lines(lines, 1);
    assert!(
        result.iter().any(|l| l.text().contains("statutory")),
        "(letter)-marked enumeration must survive"
    );
}

#[test]
fn structural_line_survives_normalized_key_collision() {
    // A running head on pages 1-4 normalizes to the same key as a
    // numbered heading on page 5 (normalization strips the heading's
    // leading digit). The heading's structural protection must hold in
    // the removal pass, not just candidate collection.
    let mut lines = Vec::new();
    for page in 1..=4u32 {
        lines.push(make_line(
            ". Introduction extra words here",
            10.0,
            page,
            750.0,
            None,
        ));
        for j in 0..20u32 {
            lines.push(make_line(
                &format!("unique body content words {page} {j} lorem ipsum"),
                10.0,
                page,
                600.0 - j as f32 * 15.0,
                None,
            ));
        }
    }
    lines.push(make_line(
        "1. Introduction extra words here",
        10.0,
        5,
        750.0,
        None,
    ));
    for j in 0..20u32 {
        lines.push(make_line(
            &format!("unique body content words five {j} lorem ipsum"),
            10.0,
            5,
            600.0 - j as f32 * 15.0,
            None,
        ));
    }
    let result = strip_repeated_lines(lines, 5);
    assert!(
        result
            .iter()
            .any(|l| l.text().contains("1. Introduction extra")),
        "structural line must survive a normalized-key collision"
    );
}

#[test]
fn edge_furniture_keeps_unicode_paren_marker() {
    // Greek-letter footnote markers are lowercase too: "(α)" earns the
    // same protection as "(a)".
    let mut lines = Vec::new();
    body_page(&mut lines);
    lines.push(make_line(
        "(α) See the appendix for the derivation",
        8.0,
        1,
        380.0,
        None,
    ));
    let result = strip_header_footer_lines(lines, 1);
    assert!(
        result.iter().any(|l| l.text().contains("appendix")),
        "Unicode lowercase paren marker must survive"
    );
}

#[test]
fn edge_furniture_keeps_unicode_digit_marker() {
    // Arabic-Indic digits are digits: "(١)" earns the same protection
    // as "(1)".
    let mut lines = Vec::new();
    body_page(&mut lines);
    lines.push(make_line(
        "(١) See the appendix for the derivation",
        8.0,
        1,
        380.0,
        None,
    ));
    let result = strip_header_footer_lines(lines, 1);
    assert!(
        result.iter().any(|l| l.text().contains("appendix")),
        "Unicode digit paren marker must survive"
    );
}

#[test]
fn edge_furniture_strips_parenthetical_prose_footer() {
    // Parenthetical lowercase PROSE is not a footnote marker: only a
    // short "(a)"/"(12)"-style token closed by ')' earns protection.
    let mut lines = Vec::new();
    body_page(&mut lines);
    lines.push(make_line(
        "(all amounts in thousands of dollars)",
        8.0,
        1,
        380.0,
        None,
    ));
    let result = strip_header_footer_lines(lines, 1);
    assert!(
        !result.iter().any(|l| l.text().contains("thousands")),
        "parenthetical prose footer must still strip"
    );
}

#[test]
fn band_removal_spares_structural_sibling() {
    // A repeated edge Y-band pairs a plain fragment with a structural
    // sibling; the coalesced text reads non-structural, but the sibling
    // itself must survive removal.
    let mut lines = Vec::new();
    for page in 1..=10u32 {
        lines.push(make_line(
            "Journal of Applied Testing",
            10.0,
            page,
            750.0,
            None,
        ));
        lines.push(make_line(
            "1. Introduction overview",
            10.0,
            page,
            750.0,
            None,
        ));
        for j in 0..20u32 {
            lines.push(make_line(
                &format!("unique body content words {page} {j} lorem ipsum"),
                10.0,
                page,
                600.0 - j as f32 * 15.0,
                None,
            ));
        }
    }
    let result = strip_repeated_lines(lines, 10);
    assert_eq!(
        result
            .iter()
            .filter(|l| l.text().contains("1. Introduction overview"))
            .count(),
        10,
        "structural band sibling must survive on every page"
    );
    assert_eq!(
        result
            .iter()
            .filter(|l| l.text().contains("Journal of Applied Testing"))
            .count(),
        10,
        "the structural member protects its whole physical row"
    );
}

#[test]
fn repetition_length_floor_counts_chars_not_bytes() {
    // A six-character CJK line is 18 UTF-8 bytes: byte counting would
    // let it past the ten-character minimum and classify the repeated
    // short heading as furniture.
    let mut lines = Vec::new();
    for page in 1..=10u32 {
        lines.push(make_line("第一章序論", 10.0, page, 750.0, None));
        for j in 0..20u32 {
            lines.push(make_line(
                &format!("unique body content words {page} {j} lorem ipsum"),
                10.0,
                page,
                600.0 - j as f32 * 15.0,
                None,
            ));
        }
    }
    let result = strip_repeated_lines(lines, 10);
    assert_eq!(
        result
            .iter()
            .filter(|l| l.text().contains("第一章"))
            .count(),
        10,
        "short CJK line must stay under the character-count floor"
    );
}

#[test]
fn repeated_paren_numbered_line_is_not_stripped() {
    let mut lines = Vec::new();
    for page in 1..=10u32 {
        lines.push(make_line(
            "(1) Sign and date the enclosed form",
            10.0,
            page,
            750.0,
            None,
        ));
        for j in 0..20u32 {
            lines.push(make_line(
                &format!("unique body content words {page} {j} lorem ipsum"),
                10.0,
                page,
                600.0 - j as f32 * 15.0,
                None,
            ));
        }
    }
    let result = strip_repeated_lines(lines, 10);
    assert_eq!(
        result
            .iter()
            .filter(|l| l.text().contains("Sign and date"))
            .count(),
        10,
        "(digit) enumerations are structural and must never be stripped"
    );
}

#[test]
fn repetition_normalizes_unicode_page_numbers() {
    // A running header whose page number uses Arabic-Indic digits must
    // normalize to the same key on every page, or repetition never
    // reaches threshold and the furniture survives.
    let digits = ["١", "٢", "٣", "٤", "٥", "٦", "٧", "٨", "٩", "١٠"];
    let mut lines = Vec::new();
    for page in 1..=10u32 {
        lines.push(make_line(
            &format!("Annual Review Overview {}", digits[(page - 1) as usize]),
            10.0,
            page,
            750.0,
            None,
        ));
        for j in 0..20u32 {
            lines.push(make_line(
                &format!("unique body content words {page} {j} lorem ipsum"),
                10.0,
                page,
                600.0 - j as f32 * 15.0,
                None,
            ));
        }
    }
    let result = strip_repeated_lines(lines, 10);
    assert_eq!(
        result
            .iter()
            .filter(|l| l.text().contains("Annual Review Overview"))
            .count(),
        1,
        "Unicode-numbered running header must strip to its first occurrence"
    );
}

#[test]
fn repeated_paren_letter_annotation_is_not_stripped() {
    let mut lines = Vec::new();
    for page in 1..=10u32 {
        lines.push(make_line(
            "(a) See the appendix for details",
            10.0,
            page,
            750.0,
            None,
        ));
        for j in 0..20u32 {
            lines.push(make_line(
                &format!("unique body content words {page} {j} lorem ipsum"),
                10.0,
                page,
                600.0 - j as f32 * 15.0,
                None,
            ));
        }
    }
    let result = strip_repeated_lines(lines, 10);
    assert_eq!(
        result
            .iter()
            .filter(|l| l.text().contains("See the appendix"))
            .count(),
        10,
        "(letter) annotations are structural in the repetition path too"
    );
}

#[test]
fn row_protection_survives_bucket_rounding_boundary() {
    // The structural fragment and its row-mate sit 0.02pt apart across
    // a rounding boundary (buckets 7501 and 7500); neighbor-bucket
    // protection must still shield the plain fragment.
    let mut lines = Vec::new();
    for page in 1..=10u32 {
        lines.push(make_line(
            "1. Methods overview line",
            10.0,
            page,
            750.06,
            None,
        ));
        lines.push(make_line(
            "plain sibling fragment text",
            10.0,
            page,
            750.04,
            None,
        ));
        for j in 0..20u32 {
            lines.push(make_line(
                &format!("unique body content words {page} {j} lorem ipsum"),
                10.0,
                page,
                600.0 - j as f32 * 15.0,
                None,
            ));
        }
    }
    let result = strip_repeated_lines(lines, 10);
    assert_eq!(
        result
            .iter()
            .filter(|l| l.text().contains("plain sibling fragment"))
            .count(),
        10,
        "row-mates across a rounding boundary keep structural protection"
    );
}

#[test]
fn repeated_numbered_heading_is_not_stripped() {
    // The same numbered heading recurring on many pages must keep its
    // structural protection: normalization strips the leading digit, so
    // the check must run against the original text.
    let mut lines = Vec::new();
    for page in 1..=10u32 {
        lines.push(make_line(
            "1. Introduction to the method",
            10.0,
            page,
            750.0,
            None,
        ));
        for j in 0..20u32 {
            lines.push(make_line(
                &format!("unique body content words {page} {j} lorem ipsum dolor"),
                10.0,
                page,
                600.0 - j as f32 * 15.0,
                None,
            ));
        }
    }
    let result = strip_repeated_lines(lines, 10);
    let count = result
        .iter()
        .filter(|l| l.text().contains("Introduction to the method"))
        .count();
    assert_eq!(count, 10, "numbered headings must never be stripped");
}

#[test]
fn edge_furniture_keeps_numeric_table_row() {
    // A bottom row of an undetected borderless table: four numeric
    // cells sharing a baseline. No alphabetic content, but three-plus
    // clusters mark it as content, not a page indicator.
    let mut lines = Vec::new();
    body_page(&mut lines);
    let mut items = Vec::new();
    for (k, cell) in ["1,234", "5,678", "9,012", "3,456"].iter().enumerate() {
        let mut item = make_item(cell, 10.0, None);
        item.x = f(50.0 + k as f32 * 120.0);
        item.width = f(40.0);
        items.push(item);
    }
    lines.push(line_of(items, 1, 380.0));
    let result = strip_header_footer_lines(lines, 1);
    assert!(
        result.iter().any(|l| l.text().contains("5,678")),
        "numeric table row must survive on cluster evidence"
    );
}

#[test]
fn edge_furniture_keeps_diagram_label_row() {
    // Four small-font labels sharing one baseline with box-sized gaps —
    // a figure's caption row at the page edge, not a running header.
    let mut lines = Vec::new();
    let mut items = Vec::new();
    for (k, label) in ["SOURCE", "TRANSMITTER", "RECEIVER", "DESTINATION"]
        .iter()
        .enumerate()
    {
        let mut item = make_item(label, 7.0, None);
        item.x = f(k as f32 * 120.0);
        item.width = f(60.0);
        items.push(item);
    }
    lines.push(line_of(items, 1, 760.0));
    body_page(&mut lines);
    let result = strip_header_footer_lines(lines, 1);
    assert!(
        result.iter().any(|l| l.text().contains("TRANSMITTER")),
        "scattered diagram label row must survive"
    );
}

#[test]
fn edge_furniture_skips_sparse_pages() {
    // Six lines total: too sparse to judge, nothing may be stripped.
    let lines: Vec<TextLine> = (0..6u32)
        .map(|j| {
            make_line(
                &format!("sparse content line {j}"),
                10.0,
                1,
                700.0 - j as f32 * 80.0,
                None,
            )
        })
        .collect();
    let result = strip_header_footer_lines(lines, 1);
    assert_eq!(result.len(), 6, "sparse pages must be untouched");
}

#[test]
fn test_strip_repeated_keeps_first_occurrence() {
    // Simulate a repeated page header on 10 pages.
    // Each page has a running header at y=750 and many unique body lines.
    let mut lines = Vec::new();
    for page in 1..=10u32 {
        // Header at top
        lines.push(make_line(
            "VOICE OF SOUTH MARION May fifteen twenty twenty five",
            10.0,
            page,
            750.0,
            None,
        ));
        // Body content — unique text per line per page (no digits to strip)
        for j in 0..20u32 {
            lines.push(make_line(
                &format!(
                    "parcel r-{:04}-{:03} owner smith address oak street",
                    page * 100 + j,
                    page
                ),
                10.0,
                page,
                600.0 - j as f32 * 15.0,
                None,
            ));
        }
    }

    let result = strip_repeated_lines(lines, 10);

    // The header should appear exactly once (page 1)
    let header_count = result
        .iter()
        .filter(|l| l.text().contains("VOICE OF SOUTH MARION"))
        .count();
    assert_eq!(header_count, 1, "repeated header should be kept once");

    // First occurrence should be on page 1
    let first_header = result
        .iter()
        .find(|l| l.text().contains("VOICE OF SOUTH MARION"))
        .unwrap();
    assert_eq!(first_header.page, 1, "first occurrence should be on page 1");
}

#[test]
fn repeated_lines_need_several_pages() {
    let lines = vec![
        make_line("A running header of a report", 10.0, 1, 750.0, None),
        make_line("A running header of a report", 10.0, 2, 750.0, None),
    ];
    assert_eq!(strip_repeated_lines(lines, 2).len(), 2);
}

#[test]
fn edge_furniture_alone_strips_an_isolated_header() {
    let mut lines = vec![make_line("martinez et al respiratory research", 8.0, 1, 760.0, None)];
    body_page(&mut lines);
    assert_eq!(strip_edge_furniture(lines).len(), 14);
}

#[test]
fn words_are_compared_without_page_numbers_or_spacing() {
    assert_eq!(normalize_whitespace("  a \t b\n c "), "a b c");
    assert_eq!(count_words(&"one  two three".chars().collect()), 3);
    assert_eq!(
        normalize_for_comparison("Annual Review Overview 12"),
        normalize_for_comparison("Annual  Review Overview 7")
    );
    assert!(normalize_for_comparison("Annual Review") != normalize_for_comparison("Annual Report"));
}

#[test]
fn structural_lines_are_told_by_their_start() {
    assert!(is_structural_line("1. Introduction"));
    assert!(is_structural_line("(a) See the appendix"));
    assert!(!is_structural_line("Plain prose follows"));
    assert!(starts_with_paren_marker("(12) note"));
    assert!(!starts_with_paren_marker("(all amounts)"));
    assert!(is_decorative_separator("-----"));
    assert!(!is_decorative_separator("abc"));
}

#[test]
fn values_are_sorted_and_lines_dropped_by_flag() {
    let sorted = sort_values(&vec![f(3.0), f(-1.0), f(2.0)]);
    assert_eq!(sorted, vec![f(-1.0), f(2.0), f(3.0)]);
    let lines = vec![
        make_line("one", 10.0, 1, 3.0, None),
        make_line("two", 10.0, 1, 2.0, None),
    ];
    let kept = keep_lines(&lines, &vec![true, false]);
    assert_eq!(kept.len(), 1);
    assert_eq!(kept[0].text(), "two");
}

#[test]
fn number_only_blocks_above_body_size_stay() {
    let mut lines = Vec::new();
    body_page(&mut lines);
    lines.push(make_line("1 / 1", 11.0, 1, 380.0, None));
    assert_eq!(strip_edge_furniture(lines).len(), 15);
}
