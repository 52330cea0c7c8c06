use lopdf::{Dictionary, Document, Object, Stream};
use pdf_inspector::extractor::page_box::PageRotation;
use pdf_inspector::extractor::text_paint::Matrix;
use pdf_inspector::extractor::xobjects::{get_page_xobjects, FormWalkBudget, XObjectType};
use pdf_inspector::hybrid_markdown::document::Assembly;
use pdf_inspector::hybrid_markdown::reasons::{OcrReasons, PageOcrReasons};
use pdf_inspector::hybrid_markdown::session::conclude_render;
use pdf_inspector::lines::{join_lines, split_lines};
use pdf_inspector::numbers::push_list;
use pdf_inspector::patterns::{find_matches, replace_all};
use pdf_inspector::pdf::{entries_of, entry, get_dictionary_under, get_number, PdfObject};
use pdf_inspector::single::Single;
use pdf_inspector::sorting::sort_indices;
use pdf_inspector::table::ByteTable;
use pdf_inspector::text::{characters, contains_chars, text_of, trim_chars};
use pdf_inspector::types::LayoutComplexity;
use pdf_inspector::unicode::is_white_space;

fn f(x: f32) -> Single {
    Single { bits: x.to_bits() }
}

fn v(x: Single) -> f32 {
    f32::from_bits(x.bits)
}

fn dict(entries: Vec<(&str, Object)>) -> Dictionary {
    entries.into_iter().collect()
}

#[test]
fn joining_lines_undoes_splitting_them() {
    for text in ["", "one", "one\ntwo", "\n\nlast\n"] {
        let lines = split_lines(&characters(text));
        assert_eq!(lines.len(), text.matches('\n').count() + 1);
        assert_eq!(text_of(&join_lines(&lines)), text);
    }
    assert_eq!(split_lines(&characters("a\nb")), [vec!['a'], vec!['b']]);
}

#[test]
fn sorting_is_stable() {
    let keys = vec![(2, 0), (1, 5), (2, -1), (1, 5)];
    assert_eq!(sort_indices(&vec![0, 1, 2, 3], &keys), [1, 3, 2, 0]);
    assert_eq!(sort_indices(&vec![3, 1], &keys), [3, 1]);
}

#[test]
fn matches_and_gaps_make_up_the_text() {
    let (matches, tail) = find_matches(r"(\d)(x)?", "a1b2xc");
    assert_eq!(matches.len(), 2);
    assert_eq!((matches[0].before.as_str(), matches[0].whole.as_str()), ("a", "1"));
    assert_eq!(matches[0].groups, ["1", ""]);
    assert_eq!((matches[1].before.as_str(), matches[1].whole.as_str()), ("b", "2x"));
    assert_eq!(matches[1].groups, ["2", "x"]);
    assert_eq!(tail, "c");
    assert_eq!(text_of(&replace_all(" +", "a  b   c", " ")), "a b c");
}

#[test]
fn the_first_value_of_a_key_stands() {
    let mut table: ByteTable<u8> = ByteTable::new();
    table.insert_first(b"a".to_vec(), 1);
    table.insert_first(b"a".to_vec(), 2);
    table.insert_first(b"b".to_vec(), 3);
    assert_eq!(table.get(&b"a".to_vec()), Some(1));
    assert_eq!(table.get(&b"b".to_vec()), Some(3));
    assert_eq!(table.get(&b"c".to_vec()), None);
}

#[test]
fn trimming_removes_white_space_at_the_ends() {
    let trimmed = trim_chars(&characters("\u{a0} a b\t\u{3000}"));
    assert_eq!(text_of(&trimmed), "a b");
    assert_eq!(trim_chars(&trimmed), trimmed);
    assert!(contains_chars(&trimmed, &characters(" b")));
    assert!(!contains_chars(&trimmed, &characters("ba")));
    for c in (0..0x4000u32).filter_map(char::from_u32) {
        assert_eq!(is_white_space(c), c.is_whitespace(), "{c:?}");
    }
}

#[test]
fn numbers_are_listed() {
    let mut out = characters("pages ");
    push_list(&mut out, &vec![1, 20, 3], ", ");
    assert_eq!(text_of(&out), "pages 1, 20, 3");
}

#[test]
fn objects_are_read_from_the_document() {
    let mut doc = Document::new();
    let inner = doc.add_object(dict(vec![("N", Object::from(7)), ("R", Object::from(1.5))]));
    let outer = entries_of(&dict(vec![
        ("Ref", Object::Reference(inner)),
        ("Own", Object::from(dict(vec![("N", Object::from(8))]))),
        ("Not", Object::from(1)),
    ]));
    let found = get_dictionary_under(&doc, &outer, "Ref").unwrap();
    assert_eq!(entry(&found, "N").and_then(get_number).map(v), Some(7.0));
    assert_eq!(entry(&found, "R").and_then(get_number).map(v), Some(1.5));
    assert!(get_dictionary_under(&doc, &outer, "Own").is_some());
    assert!(get_dictionary_under(&doc, &outer, "Not").is_none());
    assert!(get_dictionary_under(&doc, &outer, "Gone").is_none());
    assert!(get_number(&PdfObject::Name(b"7".to_vec())).is_none());
}

#[test]
fn page_xobjects_are_told_apart() {
    let mut doc = Document::new();
    let stream = |kind: &str| Stream::new(dict(vec![("Subtype", Object::from(kind))]), Vec::new());
    let form = doc.add_object(stream("Form"));
    let image = doc.add_object(stream("Image"));
    let other = doc.add_object(stream("PS"));
    let xobjects = dict(vec![
        ("Fm", Object::Reference(form)),
        ("Im", Object::Reference(image)),
        ("Ps", Object::Reference(other)),
    ]);
    let resources = doc.add_object(dict(vec![("XObject", Object::from(xobjects))]));
    let page = doc.add_object(dict(vec![("Resources", Object::Reference(resources))]));
    let table = get_page_xobjects(&doc, page);
    assert!(matches!(table.get("Fm"), Some(XObjectType::Form(number, generation)) if (number, generation) == form));
    assert!(matches!(table.get("Im"), Some(XObjectType::Image)));
    assert!(table.get("Ps").is_none());
    assert!(get_page_xobjects(&doc, (99, 0)).get("Fm").is_none());
}

#[test]
fn budgets_run_out() {
    let mut budget = FormWalkBudget::with_limits(1, 2);
    assert!(!budget.exhausted());
    assert!(budget.charge_invocation());
    assert!(budget.exhausted());
    assert!(budget.was_truncated());
    let mut budget = FormWalkBudget::with_limits(5, 1);
    assert!(budget.charge_operation());
    assert!(!budget.was_truncated());
    assert!(!budget.charge_operation());
    assert!(budget.was_truncated());
}

#[test]
fn turns_and_determinants() {
    let (x, y) = (f(3.0), f(4.0));
    let at = |rotation: PageRotation| {
        let (x, y) = rotation.rotate_point(x, y);
        (v(x), v(y))
    };
    assert_eq!(at(PageRotation::Upright), (3.0, 4.0));
    assert_eq!(at(PageRotation::Ccw), (4.0, -3.0));
    assert_eq!(at(PageRotation::Cw), (-4.0, 3.0));
    let matrix = Matrix { a: f(2.0), b: f(1.0), c: f(3.0), d: f(5.0), e: f(9.0), f: f(9.0) };
    assert_eq!(v(matrix.determinant()), 7.0);
}

#[test]
fn a_pass_is_suspect_for_a_reason() {
    let assembly = |quality: bool, shows: bool| Assembly {
        markdown: Some("text".to_string()),
        markdown_has_encoding_issues: shows,
        layout: LayoutComplexity::default(),
        text_quality_pages: vec![2],
        text_quality_reasons: Vec::new(),
        text_quality_issues: quality,
    };
    assert!(!conclude_render(assembly(false, false), OcrReasons::new(), true).has_encoding_issues);
    assert!(conclude_render(assembly(true, false), OcrReasons::new(), false).has_encoding_issues);
    assert!(conclude_render(assembly(false, true), OcrReasons::new(), true).has_encoding_issues);
    let silent = conclude_render(assembly(false, true), OcrReasons::new(), false);
    assert!(!silent.has_encoding_issues && silent.markdown.is_none());
    let mut known = OcrReasons::new();
    known.add_reason(1, "why");
    let mut with_reasons = assembly(false, false);
    with_reasons.text_quality_reasons = vec![PageOcrReasons { page: 2, reasons: vec!["low".to_string()] }];
    let pass = conclude_render(with_reasons, known, true);
    assert!(pass.has_encoding_issues);
    assert_eq!(pass.ocr_reasons_by_page.get(1), ["why"]);
    assert_eq!(pass.ocr_reasons_by_page.get(2), ["low"]);
    assert_eq!(pass.text_quality_pages, [2]);
}
