use lopdf::{Dictionary, Document, Object, ObjectId, Stream};
use pdf_inspector::extractor::form_extract::{FormExtraction, FormSource, PendingSpace, ShownText};
use pdf_inspector::extractor::form_fonts::{show_items, show_text, FormFonts, RunSetting};
use pdf_inspector::extractor::form_run::{
    extract_form_xobject_text_with_limit, image_bbox_from_ctm, read_operations, FormLimits,
};
use pdf_inspector::extractor::form_text::{
    sub_run_fallback, ExtractedText, FontFace, ImageBox, PlacedRun, ShownElement, SpaceMetrics, SubRun,
};
use pdf_inspector::extractor::form_walk::{FormAction, FormWalk, Inherited};
use pdf_inspector::extractor::text_paint::{Matrix, PaintResources, TextPaint};
use pdf_inspector::extractor::xobjects::{
    cmap_source, get_form_fonts, get_form_xobjects, get_page_xobjects, is_ordinary_font, CMapSource,
    FormWalkBudget, XObjectType, MAX_FORM_XOBJECT_INVOCATIONS, MAX_FORM_XOBJECT_OPERATIONS,
};
use pdf_inspector::hybrid_markdown::error::PdfFailure;
use pdf_inspector::pdf::{entries_of, entry, Entry, PdfObject};
use pdf_inspector::single::Single;
use pdf_inspector::types::{ItemType, TextItem};

fn f(x: f32) -> Single {
    Single { bits: x.to_bits() }
}

fn v(x: Single) -> f32 {
    f32::from_bits(x.bits)
}

fn dict(entries: Vec<(&str, Object)>) -> Dictionary {
    entries.into_iter().collect()
}

fn array(values: &Matrix) -> [f32; 6] {
    [v(values.a), v(values.b), v(values.c), v(values.d), v(values.e), v(values.f)]
}

fn matrix(m: [f32; 6]) -> Matrix {
    Matrix { a: f(m[0]), b: f(m[1]), c: f(m[2]), d: f(m[3]), e: f(m[4]), f: f(m[5]) }
}

const LIMITS: FormLimits = FormLimits { max_decompressed_size: None, max_operations: 1_000_000 };

const IDENTITY: [f32; 6] = [1.0, 0.0, 0.0, 1.0, 0.0, 0.0];

/// One-byte fonts.
struct PlainFonts;

fn fresh() -> Inherited {
    Inherited { rendering_mode: 0, text_rise: f(0.0), horizontal_scale: f(1.0), paint: TextPaint::default() }
}

/// The dictionary of the current font of a stream.
fn font_of(doc: &Document, stream: ObjectId, name: &str) -> Option<Vec<Entry>> {
    let entries = match doc.get_object(stream).ok()? {
        Object::Stream(form) => entries_of(&form.dict),
        Object::Dictionary(page) => entries_of(page),
        _ => return None,
    };
    get_form_fonts(doc, &entries).into_iter().find(|font| font.name == name.as_bytes()).map(|font| font.dictionary)
}

/// The advance of bytes in text space, measured or estimated.
fn advance(walk: &FormWalk, font: Option<&Vec<Entry>>, bytes: &[u8]) -> (Option<f32>, f32) {
    let size = v(walk.graphics.font_size);
    let spacing = |byte: u8| {
        v(walk.graphics.char_spacing) + if byte == b' ' { v(walk.graphics.word_spacing) } else { 0.0 }
    };
    let estimate = bytes.iter().map(|&byte| size * 0.5 + spacing(byte)).sum();
    let widths = font.and_then(|font| match entry(font, "Widths") {
        Some(PdfObject::Array(widths)) => Some(widths),
        _ => None,
    });
    let measured = widths.map(|widths| {
        bytes
            .iter()
            .map(|&byte| {
                let width = match &widths[byte as usize] {
                    PdfObject::Integer(n) => *n as f32,
                    _ => 0.0,
                };
                width / 1000.0 * size + spacing(byte)
            })
            .sum()
    });
    (measured, estimate)
}

fn face(walk: &FormWalk, font: Option<&Vec<Entry>>) -> FontFace {
    let base = match font.and_then(|font| entry(font, "BaseFont")) {
        Some(PdfObject::Name(name)) => String::from_utf8_lossy(name).into_owned(),
        _ => walk.graphics.font.clone(),
    };
    FontFace {
        bold: base.contains("Bold"),
        italic: base.contains("Oblique") || base.contains("Italic"),
        paintable: font.map_or(false, is_ordinary_font),
        item_font: base.clone(),
        base_font: base,
    }
}

/// The decoded bytes, and whether the map of the font took one of them from a
/// private symbol area.
fn decode(font: Option<&Vec<Entry>>, bytes: &[u8]) -> (String, bool) {
    let mapped = font.map_or(false, |font| entry(font, "ToUnicode").is_some());
    (String::from_utf8_lossy(bytes).into_owned(), mapped && bytes.contains(&b'W'))
}

fn placed(text: &str, combined: [f32; 6], advance: f32, em: f32, known: bool) -> PlacedRun {
    let xs = [0.0, advance * combined[0], em * combined[2], advance * combined[0] + em * combined[2]];
    let ys = [0.0, advance * combined[1], em * combined[3], advance * combined[1] + em * combined[3]];
    let low = |values: [f32; 4]| values.into_iter().fold(f32::INFINITY, f32::min);
    let high = |values: [f32; 4]| values.into_iter().fold(f32::NEG_INFINITY, f32::max);
    PlacedRun {
        text: text.to_string(),
        expanded: text.to_string(),
        rtl_candidate: false,
        legacy_symbol_rewrite: false,
        x: f(combined[4] + low(xs)),
        y: f(combined[5] + low(ys)),
        width: f(high(xs) - low(xs)),
        height: f(high(ys) - low(ys)),
        rotation: f(direction(combined, em)),
        advance_known: known,
    }
}

/// The angle in which a text reads. A negative size turns it round.
fn direction(combined: [f32; 6], size: f32) -> f32 {
    let sign = if size < 0.0 { -1.0 } else { 1.0 };
    (sign * combined[1]).atan2(sign * combined[0]).to_degrees()
}

impl FormFonts for PlainFonts {
    fn check_limit(&self, document: &Document, stream: ObjectId, limit: usize) -> Result<(), PdfFailure> {
        match font_of(document, stream, "F1").map_or(false, |font| entry(&font, "TooLarge").is_some()) {
            true => Err(PdfFailure { message: format!("font beyond {limit}"), is_decompression_limit: true }),
            false => Ok(()),
        }
    }

    fn space_metrics(&self, document: &Document, stream: ObjectId, font: &String) -> Option<SpaceMetrics> {
        font_of(document, stream, font)
            .filter(|font| entry(font, "Widths").is_some())
            .map(|_| SpaceMetrics { space_width: 600, units_scale: f(0.001) })
    }

    fn read(&self, document: &Document, stream: ObjectId, walk: &FormWalk, operand: &PdfObject) -> ShownElement {
        let bytes = match operand {
            PdfObject::Text(bytes) => bytes,
            _ => return ShownElement { painted: false, width: None, estimate: f(0.0), decoded: None },
        };
        let font = font_of(document, stream, &walk.graphics.font);
        let (measured, estimate) = advance(walk, font.as_ref(), bytes);
        ShownElement {
            painted: !bytes.is_empty(),
            width: measured.map(f),
            estimate: f(estimate),
            decoded: Some(decode(font.as_ref(), bytes)),
        }
    }

    fn estimate(&self, _document: &Document, _stream: ObjectId, walk: &FormWalk, text: &String) -> Single {
        f(advance(walk, None, text.as_bytes()).1)
    }

    fn place(
        &self,
        _document: &Document,
        _stream: ObjectId,
        walk: &FormWalk,
        text: &String,
        combined: &Matrix,
        advance: Option<Single>,
        estimate: Single,
    ) -> PlacedRun {
        let width = v(advance.unwrap_or(estimate)) * v(walk.graphics.horizontal_scale);
        placed(text, array(combined), width, v(walk.graphics.font_size), advance.is_some())
    }

    fn setting(&self, document: &Document, stream: ObjectId, walk: &FormWalk, combined: &Matrix) -> RunSetting {
        let (combined, ctm) = (array(combined), array(&walk.graphics.ctm));
        let font = font_of(document, stream, &walk.graphics.font);
        RunSetting {
            face: face(walk, font.as_ref()),
            rendered_size: f(v(walk.graphics.font_size) * combined[2].hypot(combined[3])),
            scale: f(ctm[0].hypot(ctm[1]).min(ctm[2].hypot(ctm[3]))),
            angle: f(direction(combined, v(walk.graphics.font_size))),
        }
    }

    fn note_space(
        &self,
        pending: Option<PendingSpace>,
        items: &Vec<TextItem>,
        run: &PlacedRun,
        page: u32,
    ) -> Option<PendingSpace> {
        let item = items.len().checked_sub(1)?;
        if pending.is_some() || items[item].page != page {
            return pending;
        }
        Some(PendingSpace { item, x: run.x, y: run.y, width: run.width, height: run.height })
    }

    fn is_word_space(&self, pending: PendingSpace, items: &Vec<TextItem>, run: &PlacedRun, size: Single) -> bool {
        let before = &items[pending.item];
        let gap = v(run.x) - v(before.x) - v(before.width);
        before.y == run.y && pending.y == run.y && gap > 0.0 && gap < v(size)
    }
}

/// Follows the content of a page with one-byte fonts. Its own operators cost
/// nothing.
fn walk_page(doc: &Document, page_id: ObjectId, include_invisible: bool, budget: &mut FormWalkBudget) -> ExtractedText {
    walk_page_within(doc, page_id, include_invisible, LIMITS, budget).unwrap()
}

fn walk_page_within(
    doc: &Document,
    page_id: ObjectId,
    include_invisible: bool,
    limits: FormLimits,
    budget: &mut FormWalkBudget,
) -> Result<ExtractedText, PdfFailure> {
    let fonts = &PlainFonts;
    let page = doc.get_dictionary(page_id).unwrap();
    let source = FormSource {
        fonts: get_form_fonts(doc, &entries_of(page)),
        resources: PaintResources::page(doc, page_id),
        forms: get_page_xobjects(doc, page_id),
        matrix: matrix(IDENTITY),
    };
    let content_id = page.get(b"Contents").unwrap().as_reference().unwrap();
    let mut own = FormWalkBudget::new();
    let mut form = FormExtraction::new(matrix(IDENTITY), fresh(), include_invisible, 0, 1);
    for op in read_operations(doc, content_id, LIMITS)?.unwrap() {
        match form.observe(&op.operator, &op.operands, &source, &mut own) {
            FormAction::Stop => break,
            FormAction::Nothing => {}
            FormAction::Concat(m) => {
                let product = m.times(&form.walk.graphics.ctm);
                form.concatenated(product);
            }
            FormAction::Invoke(number, generation) => {
                let (id, ctm, inherited) = ((number, generation), form.walk.graphics.ctm, form.inherited());
                let inner = extract_form_xobject_text_with_limit(
                    doc,
                    fonts,
                    id,
                    ctm,
                    inherited,
                    include_invisible,
                    1,
                    limits,
                    budget,
                );
                form.nested(inner?);
            }
            FormAction::Image(name) => {
                let place = image_bbox_from_ctm(&form.walk.graphics.ctm);
                form.image(&name, &place);
            }
            FormAction::Show { hidden } => {
                show_text(doc, fonts, page_id, &mut form, op.operands.last().unwrap(), hidden);
            }
            FormAction::ShowArray { hidden } => {
                if let Some(PdfObject::Array(elements)) = op.operands.first() {
                    show_items(doc, fonts, page_id, &mut form, elements, hidden);
                }
            }
        }
    }
    Ok(form.finish())
}

/// Build an acyclic Form XObject DAG: `levels` form objects, each non-leaf
/// invoking the next form `branches` times. The leaf draws a single `(X)`.
/// Returns `(doc, root_form_id)`.
fn form_dag(branches: usize, levels: usize) -> (Document, ObjectId) {
    assert!(levels >= 2);
    let mut doc = Document::new();
    let font_id = doc.add_object(dict(vec![
        ("Type", Object::from("Font")),
        ("Subtype", Object::from("Type1")),
        ("BaseFont", Object::from("Helvetica")),
    ]));
    let ids: Vec<ObjectId> = (0..levels).map(|_| doc.new_object_id()).collect();
    for level in 0..levels {
        let (resources, content) = if level + 1 == levels {
            let fonts = dict(vec![("F1", Object::Reference(font_id))]);
            (
                dict(vec![("Font", Object::from(fonts))]),
                b"BT /F1 10 Tf 10 10 Td (X) Tj ET\n".to_vec(),
            )
        } else {
            let name = format!("Fm{}", level + 1);
            let mut xobjects = Dictionary::new();
            xobjects.set(name.clone(), Object::Reference(ids[level + 1]));
            (
                dict(vec![("XObject", Object::from(xobjects))]),
                format!("/{name} Do\n").repeat(branches).into_bytes(),
            )
        };
        let form = dict(vec![
            ("Type", Object::from("XObject")),
            ("Subtype", Object::from("Form")),
            ("Resources", Object::from(resources)),
        ]);
        doc.set_object(ids[level], Object::Stream(Stream::new(form, content)));
    }
    (doc, ids[0])
}

fn page_invoking_form(mut doc: Document, form_id: ObjectId) -> (Document, ObjectId) {
    let content_id = doc.add_object(Object::Stream(Stream::new(Dictionary::new(), b"/Fm0 Do\n".to_vec())));
    let xobjects = dict(vec![("Fm0", Object::Reference(form_id))]);
    let page_id = doc.add_object(dict(vec![
        ("Type", Object::from("Page")),
        ("Contents", Object::Reference(content_id)),
        ("Resources", Object::from(dict(vec![("XObject", Object::from(xobjects))]))),
    ]));
    (doc, page_id)
}

fn extract_form(doc: &Document, form_id: ObjectId, budget: &mut FormWalkBudget) -> Vec<TextItem> {
    extract_form_xobject_text_with_limit(doc, &PlainFonts, form_id, matrix(IDENTITY), fresh(), false, 1, LIMITS, budget)
        .unwrap()
        .items
}

#[test]
fn nested_form_still_extracts_leaf_text() {
    let (doc, root) = form_dag(1, 3);
    let items = extract_form(&doc, root, &mut FormWalkBudget::new());
    assert_eq!(items.len(), 1);
    assert_eq!(items[0].text, "X");
}

#[test]
fn form_items_carry_family_name_and_resource_tag() {
    let (doc, root) = form_dag(1, 2);
    let items = extract_form(&doc, root, &mut FormWalkBudget::new());
    assert_eq!(items.len(), 1);
    assert_eq!(items[0].font, "Helvetica");
    assert_eq!(items[0].font_tag, "F1");
}

#[test]
fn acyclic_form_dag_within_budget_keeps_all_leaves() {
    // 4 sibling invocations across 4 nested levels → 4^4 leaf drawings.
    let (doc, root) = form_dag(4, 5);
    let items = extract_form(&doc, root, &mut FormWalkBudget::new());
    assert_eq!(items.len(), 4usize.pow(4));
    assert!(items.iter().all(|item| item.text == "X"));
}

#[test]
fn acyclic_form_dag_stops_at_invocation_budget() {
    // Same DAG as above would draw 256 leaves; a tiny invocation cap must
    // stop expansion rather than walking the full tree.
    let (doc, root) = form_dag(4, 5);
    let mut budget = FormWalkBudget::with_limits(20, MAX_FORM_XOBJECT_OPERATIONS);
    let items = extract_form(&doc, root, &mut budget);
    assert!(
        items.len() < 4usize.pow(4),
        "invocation budget must truncate DAG expansion; got {} items",
        items.len()
    );
    assert!(budget.was_truncated());
}

#[test]
fn form_operations_stop_at_budget() {
    let mut doc = Document::new();
    let font_id = doc.add_object(dict(vec![
        ("Type", Object::from("Font")),
        ("Subtype", Object::from("Type1")),
        ("BaseFont", Object::from("Helvetica")),
    ]));
    let mut content = b"q Q\n".repeat(50);
    content.extend_from_slice(b"BT /F1 10 Tf 10 10 Td (X) Tj ET\n");
    let fonts = dict(vec![("F1", Object::Reference(font_id))]);
    let form_id = doc.add_object(Object::Stream(Stream::new(
        dict(vec![
            ("Type", Object::from("XObject")),
            ("Subtype", Object::from("Form")),
            ("Resources", Object::from(dict(vec![("Font", Object::from(fonts))]))),
        ]),
        content,
    )));

    let mut budget = FormWalkBudget::with_limits(MAX_FORM_XOBJECT_INVOCATIONS, 10);
    let items = extract_form(&doc, form_id, &mut budget);
    assert!(items.is_empty(), "operation budget must stop before the trailing text show");
    assert!(budget.was_truncated());
}

#[test]
fn page_level_form_dag_stays_within_production_budget() {
    // A page-level `/Do` of an 8-wide, 6-level Form DAG would expand to
    // 8^5 = 32_768 leaf drawings without a budget.
    let (doc, root) = form_dag(8, 6);
    let (doc, page_id) = page_invoking_form(doc, root);
    let mut budget = FormWalkBudget::new();
    let items = walk_page(&doc, page_id, false, &mut budget).items;
    assert!(
        items.len() <= MAX_FORM_XOBJECT_INVOCATIONS,
        "page-level Form expansion must stay within the invocation cap; got {}",
        items.len()
    );
    assert!(!items.is_empty(), "budget must still allow some nested form text through");
}

#[test]
fn shared_form_budget_spans_two_extraction_passes() {
    let (doc, root) = form_dag(1, 2);
    let (doc, page_id) = page_invoking_form(doc, root);
    // Root + leaf = 2 invocations on the first pass.
    let mut budget = FormWalkBudget::with_limits(2, MAX_FORM_XOBJECT_OPERATIONS);
    let first = walk_page(&doc, page_id, false, &mut budget).items;
    assert_eq!(first.iter().filter(|item| item.text == "X").count(), 1);
    assert!(!budget.was_truncated());

    let second = walk_page(&doc, page_id, true, &mut budget).items;
    assert!(
        second.iter().all(|item| item.text != "X"),
        "second pass must not get a fresh invocation budget"
    );
    assert!(budget.was_truncated());
}

/// A page drawing `page_content` with forms `X1`, `X2`, … available to
/// the page and to each other (so a form can invoke a nested form).
fn doc_with_page_and_forms(page_content: &[u8], forms: &[&[u8]]) -> (Document, ObjectId) {
    let mut doc = Document::new();
    let widths: Vec<Object> = (0..=255).map(|_| 600.into()).collect();
    let font_id = doc.add_object(dict(vec![
        ("Type", Object::from("Font")),
        ("Subtype", Object::from("Type1")),
        ("BaseFont", Object::from("Helvetica")),
        ("FirstChar", Object::from(0)),
        ("LastChar", Object::from(255)),
        ("Widths", Object::Array(widths)),
    ]));
    let form_ids: Vec<ObjectId> = forms.iter().map(|_| doc.new_object_id()).collect();
    let resources = || {
        let mut xobjects = Dictionary::new();
        for (index, id) in form_ids.iter().enumerate() {
            xobjects.set(format!("X{}", index + 1), Object::Reference(*id));
        }
        let fonts = dict(vec![("F1", Object::Reference(font_id))]);
        Object::from(dict(vec![("Font", Object::from(fonts)), ("XObject", Object::from(xobjects))]))
    };
    for (id, content) in form_ids.iter().zip(forms) {
        let form = dict(vec![
            ("Type", Object::from("XObject")),
            ("Subtype", Object::from("Form")),
            ("Resources", resources()),
        ]);
        doc.set_object(*id, Object::Stream(Stream::new(form, content.to_vec())));
    }
    let content_id = doc.add_object(Object::Stream(Stream::new(Dictionary::new(), page_content.to_vec())));
    let page_id = doc.add_object(dict(vec![
        ("Type", Object::from("Page")),
        ("Contents", Object::Reference(content_id)),
        ("Resources", resources()),
    ]));
    (doc, page_id)
}

fn extract_page(doc: &Document, page_id: ObjectId, include_invisible: bool) -> (Vec<TextItem>, bool) {
    let extracted = walk_page(doc, page_id, include_invisible, &mut FormWalkBudget::new());
    (extracted.items, extracted.skipped_invisible)
}

fn form_items(form_content: &[u8]) -> Vec<TextItem> {
    let (doc, page_id) = doc_with_page_and_forms(b"q /X1 Do Q", &[form_content]);
    extract_page(&doc, page_id, false).0
}

fn find<'a>(items: &'a [TextItem], text: &str) -> &'a TextItem {
    items.iter().find(|item| item.text == text).unwrap_or_else(|| {
        let found: Vec<&String> = items.iter().map(|i| &i.text).collect();
        panic!("no item {text:?} in {found:?}")
    })
}

fn near(x: Single, expected: f32) -> bool {
    (v(x) - expected).abs() < 0.1
}

#[test]
fn t_star_inside_form_moves_to_next_line() {
    let items = form_items(b"BT /F1 12 Tf 12 TL 1 0 0 1 100 700 Tm (first) Tj T* (second) Tj ET");

    let first = find(&items, "first");
    let second = find(&items, "second");
    assert!(near(first.y, 700.0), "first y = {}", v(first.y));
    assert!(near(second.y, 688.0), "second y = {}", v(second.y));
    assert!(near(second.x, 100.0), "second x = {}", v(second.x));
}

#[test]
fn td_inside_form_is_relative_to_line_start_not_shown_text() {
    // Td moves relative to the text *line* matrix. Applying it to the
    // matrix already advanced by Tj would march each line off the right edge.
    let items = form_items(b"BT /F1 12 Tf 1 0 0 1 100 700 Tm (AAAAA) Tj 0 -12 Td (B) Tj ET");

    let b = find(&items, "B");
    assert!(near(b.x, 100.0), "B x = {} (expected 100)", v(b.x));
    assert!(near(b.y, 688.0), "B y = {}", v(b.y));
}

#[test]
fn td_inside_form_sets_leading_for_later_t_star() {
    // `TD` sets the leading to -ty as a side effect; a following T* must
    // reuse it.
    let items = form_items(b"BT /F1 12 Tf 1 0 0 1 100 700 Tm (one) Tj 0 -15 TD (two) Tj T* (three) Tj ET");

    assert!(near(find(&items, "two").y, 685.0));
    let three = find(&items, "three");
    assert!(near(three.y, 670.0), "three y = {}", v(three.y));
    assert!(near(three.x, 100.0), "three x = {}", v(three.x));
}

#[test]
fn quote_operator_inside_form_moves_to_next_line() {
    let items = form_items(b"BT /F1 12 Tf 12 TL 1 0 0 1 100 700 Tm (first) Tj (second) ' ET");

    let second = find(&items, "second");
    assert!(near(second.y, 688.0), "second y = {}", v(second.y));
    assert!(near(second.x, 100.0), "second x = {}", v(second.x));
}

#[test]
fn double_quote_operator_inside_form_sets_spacing_and_moves() {
    // `aw ac (string) "` — set word spacing and char spacing, then T* and show.
    let items = form_items(b"BT /F1 12 Tf 12 TL 1 0 0 1 100 700 Tm (first) Tj 0 0 (second) \" ET");

    let second = find(&items, "second");
    assert!(near(second.y, 688.0), "second y = {}", v(second.y));
    assert!(near(second.x, 100.0), "second x = {}", v(second.x));
}

#[test]
fn char_spacing_inside_form_widens_advance() {
    // 2 glyphs x 600/1000 x 12pt = 14.4, plus 2 x Tc(2.0) = 18.4.
    let items = form_items(b"BT /F1 12 Tf 1 0 0 1 100 700 Tm 2 Tc (AB) Tj ET");

    let ab = find(&items, "AB");
    assert!(near(ab.width, 18.4), "AB width = {}", v(ab.width));
}

#[test]
fn q_restores_fill_colour_inside_form() {
    // A white fill set inside q/Q must not leak past the Q — otherwise the
    // following black text is treated as invisible and dropped entirely.
    let items = form_items(b"BT /F1 12 Tf 12 TL 1 0 0 1 100 700 Tm q 1 g (hidden) Tj Q T* (visible) Tj ET");

    assert!(
        items.iter().any(|item| item.text == "visible"),
        "text after Q was dropped: {:?}",
        items.iter().map(|i| &i.text).collect::<Vec<_>>()
    );
    assert!(
        !items.iter().any(|item| item.text == "hidden"),
        "white-filled text should still be suppressed"
    );
}

#[test]
fn q_restores_text_state_inside_form() {
    // Tc/TL live in the graphics state; `Q` must roll them back.
    let items = form_items(b"BT /F1 12 Tf 12 TL 1 0 0 1 100 700 Tm q 30 TL (a) Tj Q T* (b) Tj ET");

    let b = find(&items, "b");
    assert!(near(b.y, 688.0), "b y = {} (leading should restore to 12)", v(b.y));
}

#[test]
fn form_inherits_the_pages_text_rendering_mode() {
    // `3 Tr` set by the page stream before `Do`: the form's text is an
    // OCR-style hidden layer and must stay hidden on the visible pass.
    let (doc, page_id) = doc_with_page_and_forms(
        b"BT 3 Tr ET q /X1 Do Q",
        &[b"BT /F1 12 Tf 72 700 Td (Hidden) Tj ET"],
    );
    let (items, skipped_invisible) = extract_page(&doc, page_id, false);
    assert!(items.is_empty(), "{items:?}");
    assert!(skipped_invisible);
    let (items, _) = extract_page(&doc, page_id, true);
    assert_eq!(items.len(), 1);
    assert_eq!(items[0].text, "Hidden");
}

#[test]
fn form_inherits_fill_stroke_weight_and_restores_it() {
    let (doc, page_id) = doc_with_page_and_forms(
        b"0.3 w 2 Tr BT ET /X1 Do 0 Tr /X2 Do",
        &[
            b"BT /F1 12 Tf 72 700 Td (Lead) Tj ET q 0 Tr BT /F1 12 Tf 72 680 Td (Plain) Tj ET Q BT /F1 12 Tf 72 660 Td (Restored) Tj ET",
            b"BT /F1 12 Tf 72 640 Td (Body) Tj ET",
        ],
    );
    let (items, _) = extract_page(&doc, page_id, false);
    let styles: Vec<_> = items.iter().map(|i| (i.text.as_str(), i.is_bold)).collect();
    assert_eq!(
        styles,
        [("Lead", true), ("Plain", false), ("Restored", true), ("Body", false)]
    );
}

#[test]
fn form_graphics_states_are_scoped_and_restored() {
    let (mut doc, page_id) = doc_with_page_and_forms(
        b"/State gs 0.3 w 2 Tr /X1 Do /X2 Do",
        &[
            b"/State gs BT /F1 12 Tf 72 700 Td (Plain) Tj ET",
            b"/State gs BT /F1 12 Tf 72 680 Td (Lead) Tj ET
              q /Missing gs BT /F1 12 Tf 72 660 Td (Unknown) Tj ET Q
              BT /F1 12 Tf 72 640 Td (Restored) Tj ET",
        ],
    );
    let states = |state: Dictionary| dict(vec![("State", Object::from(state))]);
    doc.get_dictionary_mut(page_id)
        .unwrap()
        .get_mut(b"Resources")
        .unwrap()
        .as_dict_mut()
        .unwrap()
        .set("ExtGState", states(dict(vec![("SM", Object::from(0.02))])));
    for (id, state) in [
        ((2, 0), dict(vec![("ca", Object::from(0.5))])),
        ((3, 0), dict(vec![("OPM", Object::from(1))])),
    ] {
        doc.get_object_mut(id)
            .unwrap()
            .as_stream_mut()
            .unwrap()
            .dict
            .get_mut(b"Resources")
            .unwrap()
            .as_dict_mut()
            .unwrap()
            .set("ExtGState", states(state));
    }
    let (items, _) = extract_page(&doc, page_id, false);
    let styles: Vec<_> = items.iter().map(|i| (i.text.as_str(), i.is_bold)).collect();
    assert_eq!(
        styles,
        [("Plain", false), ("Lead", true), ("Unknown", false), ("Restored", true)]
    );
}

#[test]
fn nested_form_resolves_indirect_paint_resources_without_leaking_state() {
    let (mut doc, page_id) = doc_with_page_and_forms(
        b"0.3 w 2 Tr /X1 Do",
        &[
            b"/Tone cs 0.2 0.3 0.4 sc /Tone CS 0.2 0.3 0.4 SC /State gs
              BT /F1 12 Tf 72 700 Td (Outer) Tj ET /X2 Do
              0.2 0.3 0.4 rg BT /F1 12 Tf 72 660 Td (Restored) Tj ET",
            b"/Tone cs 0 sc /Tone CS 0 SC /State gs
              BT /F1 12 Tf 72 680 Td (Inner) Tj ET",
        ],
    );
    for (id, color_space, state) in [
        ((2, 0), "DeviceRGB", dict(vec![("SM", Object::from(0.02))])),
        ((3, 0), "DeviceGray", dict(vec![("OPM", Object::from(1))])),
    ] {
        let mut resources = doc
            .get_object(id)
            .unwrap()
            .as_stream()
            .unwrap()
            .dict
            .get(b"Resources")
            .unwrap()
            .as_dict()
            .unwrap()
            .clone();
        let space_id = doc.add_object(Object::Name(color_space.as_bytes().to_vec()));
        let state_id = doc.add_object(state);
        let spaces_id = doc.add_object(dict(vec![("Tone", Object::Reference(space_id))]));
        let states_id = doc.add_object(dict(vec![("State", Object::Reference(state_id))]));
        resources.set("ColorSpace", Object::Reference(spaces_id));
        resources.set("ExtGState", Object::Reference(states_id));
        let resources_id = doc.add_object(resources);
        doc.get_object_mut(id)
            .unwrap()
            .as_stream_mut()
            .unwrap()
            .dict
            .set("Resources", Object::Reference(resources_id));
    }
    let (items, _) = extract_page(&doc, page_id, false);
    assert_eq!(
        items.iter().map(|i| i.text.as_str()).collect::<Vec<_>>(),
        ["Outer", "Inner", "Restored"]
    );
    assert!(items.iter().all(|i| i.is_bold));
}

#[test]
fn form_fill_stroke_covers_all_show_operators() {
    for show in ["(Styled) Tj", "[(Sty) (led)] TJ", "(Styled) '", "0 0 (Styled) \""] {
        let content = format!("BT /F1 12 Tf 72 700 Td {show} ET");
        let (doc, page_id) = doc_with_page_and_forms(b"0.3 w 2 Tr /X1 Do", &[content.as_bytes()]);
        let (items, _) = extract_page(&doc, page_id, false);
        assert_eq!(items.len(), 1, "{show}: {items:?}");
        assert_eq!(items[0].text, "Styled");
        assert!(items[0].is_bold, "{show}: {items:?}");
    }
}

#[test]
fn unresolved_form_font_does_not_gain_painted_bold() {
    let items = form_items(b"0.3 w 2 Tr BT /Missing 12 Tf 72 700 Td (Alpha) Tj ET");
    assert_eq!(items.len(), 1);
    assert_eq!(items[0].text, "Alpha");
    assert!(!items[0].is_bold);
}

#[test]
fn inline_form_fonts_match_referenced_style_and_geometry() {
    for (subtype, name, mode, text, bold, italic) in [
        ("Type1", "Helvetica", 2, "Alpha", true, false),
        ("Type1", "Helvetica-BoldOblique", 0, "Alpha", true, true),
        ("Type1", "Wingdings", 2, "A", false, false),
        ("Type3", "Shape", 2, "A", false, false),
    ] {
        let content = format!("0.3 w {mode} Tr BT /F1 12 Tf 72 700 Td ({text}) Tj ET");
        let (mut referenced_doc, page_id) = doc_with_page_and_forms(b"/X1 Do", &[content.as_bytes()]);
        let font = referenced_doc.get_dictionary_mut((1, 0)).unwrap();
        font.set("Subtype", Object::Name(subtype.as_bytes().to_vec()));
        font.set("BaseFont", Object::Name(name.as_bytes().to_vec()));
        let direct_font = font.clone();
        let mut inline_doc = referenced_doc.clone();
        inline_doc
            .get_object_mut((2, 0))
            .unwrap()
            .as_stream_mut()
            .unwrap()
            .dict
            .get_mut(b"Resources")
            .unwrap()
            .as_dict_mut()
            .unwrap()
            .get_mut(b"Font")
            .unwrap()
            .as_dict_mut()
            .unwrap()
            .set("F1", direct_font);
        let (referenced_items, _) = extract_page(&referenced_doc, page_id, false);
        let (inline_items, _) = extract_page(&inline_doc, page_id, false);
        assert_eq!(referenced_items.len(), 1, "{name}");
        assert_eq!(inline_items.len(), 1, "{name}");
        let expected = &referenced_items[0];
        let actual = &inline_items[0];
        assert_eq!(actual.text, text, "{name}");
        assert_eq!((actual.is_bold, actual.is_italic), (bold, italic), "{name}");
        assert_eq!(
            (&actual.font, actual.font_size, actual.width, actual.height, actual.x, actual.y, actual.advance_known),
            (
                &expected.font,
                expected.font_size,
                expected.width,
                expected.height,
                expected.x,
                expected.y,
                expected.advance_known
            ),
            "{name}"
        );
    }
}

#[test]
fn nested_form_inherits_the_outer_forms_text_rendering_mode() {
    // The outer form sets `3 Tr` and invokes the inner form, whose text
    // must stay hidden; an outer run at the default mode stays visible.
    let (doc, page_id) = doc_with_page_and_forms(
        b"q /X1 Do Q",
        &[
            b"BT /F1 12 Tf 72 700 Td (Visible) Tj ET BT 3 Tr ET q /X2 Do Q",
            b"BT /F1 12 Tf 72 650 Td (Hidden) Tj ET",
        ],
    );
    let (items, skipped_invisible) = extract_page(&doc, page_id, false);
    let texts: Vec<&str> = items.iter().map(|i| i.text.as_str()).collect();
    assert_eq!(texts, ["Visible"]);
    assert!(skipped_invisible);
    let (items, _) = extract_page(&doc, page_id, true);
    assert!(items.iter().any(|i| i.text == "Hidden"), "{items:?}");
}

#[test]
fn form_inherits_the_pages_text_rise() {
    // `5 Ts` set by the page stream before `Do`: text state is graphics
    // state, so the form's first run is raised until the form itself
    // resets the rise.
    let (doc, page_id) = doc_with_page_and_forms(
        b"BT 5 Ts ET q /X1 Do Q",
        &[b"BT /F1 12 Tf 1 0 0 1 100 500 Tm (raised) Tj 0 Ts (base) Tj ET"],
    );
    let (items, _) = extract_page(&doc, page_id, false);
    let raised = find(&items, "raised");
    let base = find(&items, "base");
    assert!(near(raised.y, 505.0), "raised y = {}", v(raised.y));
    assert!(near(base.y, 500.0), "base y = {}", v(base.y));
}

#[test]
fn nested_form_inherits_the_outer_forms_text_rise() {
    // The outer form raises the baseline and invokes the inner form; the
    // inner run is raised, the outer's own run at rise 0 is not.
    let (doc, page_id) = doc_with_page_and_forms(
        b"q /X1 Do Q",
        &[
            b"BT /F1 12 Tf 1 0 0 1 100 500 Tm (outer) Tj ET BT 5 Ts ET q /X2 Do Q",
            b"BT /F1 12 Tf 1 0 0 1 100 400 Tm (inner) Tj ET",
        ],
    );
    let (items, _) = extract_page(&doc, page_id, false);
    let outer = find(&items, "outer");
    let inner = find(&items, "inner");
    assert!(near(outer.y, 500.0), "outer y = {}", v(outer.y));
    assert!(near(inner.y, 405.0), "inner y = {}", v(inner.y));
}

#[test]
fn text_rise_inside_form_shifts_the_baseline() {
    // Ts displaces the glyph origin without touching the advance, in a
    // form exactly as in the page stream; the next run at rise 0 returns
    // to the original baseline and follows the raised run horizontally.
    let items =
        form_items(b"BT /F1 12 Tf 1 0 0 1 100 500 Tm (base) Tj 5 Ts (super) Tj 0 Ts (after) Tj ET");
    let base = find(&items, "base");
    let raised = find(&items, "super");
    let after = find(&items, "after");
    assert!(near(base.y, 500.0), "base y = {}", v(base.y));
    assert!(near(raised.y, 505.0), "raised y = {}", v(raised.y));
    assert!(near(after.y, 500.0), "after y = {}", v(after.y));
    assert!(v(after.x) > v(raised.x));
}

#[test]
fn rotated_run_inside_form_gets_tall_thin_box() {
    // A 20pt stamp reading bottom-to-top gets its em as width and its
    // advance as height, for both Tj and TJ.
    let items = form_items(
        b"BT /F1 12 Tf 72 700 Td (Body line one) Tj ET
BT /F1 12 Tf 72 686 Td (Body line two) Tj ET
BT /F1 12 Tf 72 672 Td (Body line three) Tj ET
BT /F1 20 Tf 0 1 -1 0 32 200 Tm (arXiv:2301.00001) Tj ET
BT /F1 10 Tf 0 1 -1 0 60 200 Tm [(ABCD)] TJ ET",
    );
    let close = |x: Single, expected: f32| (v(x) - expected).abs() < 0.01;
    let stamp = find(&items, "arXiv:2301.00001");
    assert!(close(stamp.rotation, 90.0), "rotation = {}", v(stamp.rotation));
    assert!(close(stamp.x, 12.0), "x = {}", v(stamp.x));
    assert!(close(stamp.y, 200.0), "y = {}", v(stamp.y));
    assert!(close(stamp.width, 20.0), "width = {}", v(stamp.width));
    assert!(close(stamp.height, 192.0), "height = {}", v(stamp.height));

    let tj = find(&items, "ABCD");
    assert!(close(tj.rotation, 90.0), "rotation = {}", v(tj.rotation));
    assert!(close(tj.x, 50.0), "x = {}", v(tj.x));
    assert!(close(tj.width, 10.0), "width = {}", v(tj.width));
    assert!(close(tj.y, 200.0), "y = {}", v(tj.y));
    assert!(close(tj.height, 24.0), "height = {}", v(tj.height));

    let body = find(&items, "Body line one");
    assert_eq!(v(body.rotation), 0.0);
    assert!(close(body.width, 13.0 * 7.2), "width = {}", v(body.width));
    assert_eq!(v(body.height), 12.0);
}

#[test]
fn column_gaps_split_show_arrays() {
    let items = form_items(b"BT /F1 10 Tf 1 0 0 1 100 700 Tm [(AB) -6000 (CD) -300 (EF)] TJ (G) Tj ET");
    let first = find(&items, "AB");
    assert!(near(first.x, 100.0) && near(first.width, 12.0));
    let second = find(&items, "CD EF");
    assert!(near(second.x, 172.0), "x = {}", v(second.x));
    assert!(near(second.width, 27.0), "width = {}", v(second.width));
    assert!(near(find(&items, "G").x, 199.0));
}

#[test]
fn images_inside_forms_are_kept() {
    let mut doc = Document::new();
    let image = doc.add_object(Stream::new(
        dict(vec![("Type", Object::from("XObject")), ("Subtype", Object::from("Image"))]),
        Vec::new(),
    ));
    let xobjects = dict(vec![("Im1", Object::Reference(image))]);
    let form = doc.add_object(Stream::new(
        dict(vec![
            ("Subtype", Object::from("Form")),
            ("Matrix", Object::Array(vec![2.into(), 0.into(), 0.into(), 2.into(), 10.into(), 20.into()])),
            ("Resources", Object::from(dict(vec![("XObject", Object::from(xobjects))]))),
        ]),
        b"q 30 0 0 40 5 6 cm /Im1 Do Q /Other Do".to_vec(),
    ));
    let items = extract_form(&doc, form, &mut FormWalkBudget::new());
    assert_eq!(items.len(), 1);
    assert_eq!(items[0].text, "[Image: Im1]");
    assert!(matches!(items[0].item_type, ItemType::Image));
    assert_eq!((v(items[0].x), v(items[0].y)), (20.0, 32.0));
    assert_eq!((v(items[0].width), v(items[0].height)), (60.0, 80.0));
    let table = get_form_xobjects(&doc, &entries_of(doc.get_object(form).unwrap().as_stream().map(|s| &s.dict).unwrap()));
    assert!(matches!(table.get("Im1"), Some(XObjectType::Image)));
    assert!(table.get("Im2").is_none());
}

#[test]
fn unicode_maps_come_from_the_font_first() {
    let font = |value: Object| entries_of(&dict(vec![("ToUnicode", value)]));
    let reference = font(Object::Reference((7, 0)));
    assert!(matches!(cmap_source(&reference, true, Some(9)), CMapSource::Object(7)));
    let inline = font(Object::Stream(Stream::new(Dictionary::new(), Vec::new())));
    assert!(matches!(cmap_source(&inline, true, Some(9)), CMapSource::Inline));
    let none = entries_of(&Dictionary::new());
    assert!(matches!(cmap_source(&none, true, Some(9)), CMapSource::Encoding));
    assert!(matches!(cmap_source(&none, false, Some(9)), CMapSource::Object(9)));
    assert!(matches!(cmap_source(&none, false, None), CMapSource::Missing));
}

#[test]
fn unmeasured_parts_fall_back_to_their_estimate() {
    let run = |start: f32, end: f32, estimate: f32| SubRun {
        text: "a".to_string(),
        start: f(start),
        end: f(end),
        estimate: f(estimate),
        legacy_symbol_rewrite: false,
    };
    assert_eq!(sub_run_fallback(&run(1.0, 5.0, 3.0), false).map(v), Some(4.0));
    assert_eq!(sub_run_fallback(&run(5.0, 1.0, 3.0), false).map(v), Some(3.0));
    assert_eq!(sub_run_fallback(&run(5.0, 1.0, 3.0), true).map(v), Some(-4.0));
    assert_eq!(sub_run_fallback(&run(2.0, 2.0, 0.0), false).map(v), None);
}

/// Keep every glyph's advance at 600/1000 em so the geometry assertions
/// follow the PDF operators directly, without depending on system fonts.
fn scaled_items(content: &str, form_depth: usize, prefix: &str) -> Vec<TextItem> {
    let mut doc = Document::with_version("1.5");
    let widths: Vec<Object> = (0..=255).map(|_| 600.into()).collect();
    let font_id = doc.add_object(dict(vec![
        ("Type", Object::from("Font")),
        ("Subtype", Object::from("Type1")),
        ("BaseFont", Object::from("Courier")),
        ("FirstChar", Object::from(0)),
        ("LastChar", Object::from(255)),
        ("Widths", Object::Array(widths)),
    ]));
    let unknown_font_id = doc.add_object(dict(vec![
        ("Type", Object::from("Font")),
        ("Subtype", Object::from("Type1")),
        ("BaseFont", Object::from("SyntheticUnknown")),
    ]));
    let fonts = dict(vec![("F1", Object::Reference(font_id)), ("F2", Object::Reference(unknown_font_id))]);
    let mut resources = dict(vec![("Font", Object::from(fonts))]);
    let mut stream = content.to_owned();
    for _ in 0..form_depth {
        let form_id = doc.add_object(Stream::new(
            dict(vec![
                ("Type", Object::from("XObject")),
                ("Subtype", Object::from("Form")),
                ("Resources", Object::from(resources)),
            ]),
            stream.into_bytes(),
        ));
        let forms = dict(vec![("Form", Object::Reference(form_id))]);
        resources = dict(vec![("XObject", Object::from(forms))]);
        stream = "/Form Do".to_owned();
    }
    let content_id = doc.add_object(Stream::new(Dictionary::new(), format!("{prefix}\n{stream}").into_bytes()));
    let page_id = doc.add_object(dict(vec![
        ("Type", Object::from("Page")),
        ("Contents", Object::Reference(content_id)),
        ("Resources", Object::from(resources)),
    ]));
    extract_page(&doc, page_id, false).0
}

fn close(actual: Single, expected: f32) {
    assert!((v(actual) - expected).abs() < 0.002, "expected {expected}, got {}", v(actual));
}

#[test]
fn horizontal_scale_changes_width_without_changing_height() {
    for depth in [0, 1, 2] {
        for scale in [50, 100, 150, 200] {
            let extracted = scaled_items(
                &format!("BT /F1 12 Tf {scale} Tz 1 0 0 1 100 300 Tm (ABCDE) Tj ET"),
                depth,
                "",
            );
            let text = find(&extracted, "ABCDE");
            close(text.x, 100.0);
            close(text.width, 36.0 * scale as f32 / 100.0);
            close(text.y, 300.0);
            close(text.height, 12.0);
            close(text.font_size, 12.0);
        }
    }
}

#[test]
fn negative_size_and_negative_scale_individually_still_run_left() {
    for depth in [0, 1] {
        for content in [
            "q 1 0 0 -1 0 400 cm BT /F1 -12 Tf 100 Tz 1 0 0 1 300 100 Tm (ABCDE) Tj ET Q",
            "BT /F1 12 Tf -100 Tz 1 0 0 1 300 300 Tm (ABCDE) Tj ET",
        ] {
            let extracted = scaled_items(content, depth, "");
            let text = find(&extracted, "ABCDE");
            close(text.x, 264.0);
            close(text.width, 36.0);
            close(text.height, 12.0);
        }
    }
}

#[test]
fn horizontal_scale_applies_to_tj_spacing_and_tj_array_cursor() {
    for depth in [0, 1] {
        for (show, expected_advance) in [
            ("1 Tc 2 Tw (A B) Tj", 13.3),
            ("[(AA) -100 (BB)] TJ", 15.0),
            ("[(AA) -3000 (BB)] TJ", 32.4),
            ("3 Tr (AB) Tj 0 Tr", 7.2),
            ("3 Tr [(AA) -100 (BB)] TJ 0 Tr", 15.0),
        ] {
            let extracted = scaled_items(
                &format!("BT /F1 12 Tf 50 Tz 1 0 0 1 100 300 Tm {show} 0 Tc 0 Tw 40 Ts /F1 10 Tf (FOLLOW) Tj ET"),
                depth,
                "",
            );
            let following = find(&extracted, "FOLLOW");
            close(following.x, 100.0 + expected_advance);
            close(following.width, 18.0);
        }
    }
}

#[test]
fn horizontal_scale_restores_with_graphics_state_and_survives_text_blocks() {
    let content = "50 Tz BT /F1 12 Tf 1 0 0 1 100 300 Tm (BEFORE) Tj ET
        q 200 Tz BT /F1 12 Tf 1 0 0 1 100 250 Tm (INSIDE) Tj ET Q
        BT /F1 12 Tf 1 0 0 1 100 200 Tm (AFTER) Tj ET";
    for depth in [0, 1, 2] {
        let extracted = scaled_items(content, depth, "");
        close(find(&extracted, "BEFORE").width, 21.6);
        close(find(&extracted, "INSIDE").width, 86.4);
        close(find(&extracted, "AFTER").width, 18.0);
    }
}

#[test]
fn nested_forms_inherit_the_invoking_streams_horizontal_scale() {
    for depth in [1, 2, 3] {
        let extracted = scaled_items("BT /F1 12 Tf 1 0 0 1 100 300 Tm (INHERITED) Tj ET", depth, "50 Tz");
        close(find(&extracted, "INHERITED").width, 32.4);
    }
}

#[test]
fn horizontal_scale_and_painted_bold_inherit_and_restore_together() {
    for depth in [0, 1, 2, 3] {
        for scale in [50, -100] {
            let extracted = scaled_items(
                "BT /F1 12 Tf 1 0 0 1 100 300 Tm (ALPHA) Tj ET
                 q 200 Tz 0 Tr 0 w 0.5 g 1 G [1] 0 d /Unknown gs
                 BT /F1 12 Tf 1 0 0 1 100 250 Tm (BRAVO) Tj ET Q
                 BT /F1 12 Tf 1 0 0 1 100 200 Tm [(DELTA)] TJ ET",
                depth,
                &format!("0.36 w BT 2 Tr {scale} Tz ET"),
            );
            for text in ["ALPHA", "DELTA"] {
                let item = find(&extracted, text);
                close(item.x, if scale < 0 { 64.0 } else { 100.0 });
                close(item.width, 36.0 * (scale as f32 / 100.0).abs());
                close(item.height, 12.0);
                assert!(item.is_bold, "depth {depth}, scale {scale}, text {text}");
            }
            let plain = find(&extracted, "BRAVO");
            close(plain.x, 100.0);
            close(plain.width, 72.0);
            assert!(!plain.is_bold);
        }
    }
}

#[test]
fn horizontal_scale_applies_to_metricless_estimates_and_zero_scale() {
    for depth in [0, 1] {
        for (font_size, scale, expected_width) in [(12, 50, 15.0), (-12, -100, 30.0), (12, 0, 0.0)] {
            let extracted = scaled_items(
                &format!(
                    "BT /F2 {font_size} Tf {scale} Tz 1 0 0 1 100 300 Tm (ABCDE) Tj 40 Ts /F1 {font_size} Tf \
                     (FOLLOW) Tj ET"
                ),
                depth,
                "",
            );
            let text = find(&extracted, "ABCDE");
            close(text.x, 100.0);
            close(text.width, expected_width);
            assert!(!text.advance_known);
            close(find(&extracted, "FOLLOW").x, 100.0 + expected_width);
        }
    }
}

#[test]
fn metricless_tj_array_scales_kerning_and_following_cursor() {
    for depth in [0, 1] {
        let extracted = scaled_items(
            "BT /F2 12 Tf 50 Tz 1 0 0 1 100 300 Tm [(AA) -100 (BB)] TJ 40 Ts /F1 12 Tf (FOLLOW) Tj ET",
            depth,
            "",
        );
        close(find(&extracted, "FOLLOW").x, 112.6);
    }
}

/// The items of a stream whose font maps `W` into a private symbol area.
fn symbol_items(content: &str, in_form: bool) -> Vec<TextItem> {
    let mut doc = Document::with_version("1.5");
    let cmap = doc.add_object(Stream::new(Dictionary::new(), b"1 beginbfchar <57> <F057> endbfchar".to_vec()));
    let widths: Vec<Object> = (0..=255).map(|_| 600.into()).collect();
    let font = doc.add_object(dict(vec![
        ("Type", Object::from("Font")),
        ("Subtype", Object::from("Type1")),
        ("BaseFont", Object::from("ExampleFace")),
        ("Widths", Object::Array(widths)),
        ("ToUnicode", Object::Reference(cmap)),
    ]));
    let mut resources = dict(vec![("Font", Object::from(dict(vec![("F1", Object::Reference(font))])))]);
    let mut stream = content.to_string();
    if in_form {
        let form = doc.add_object(Stream::new(
            dict(vec![
                ("Type", Object::from("XObject")),
                ("Subtype", Object::from("Form")),
                ("Resources", Object::from(resources)),
            ]),
            stream.into_bytes(),
        ));
        let forms = dict(vec![("Form", Object::Reference(form))]);
        resources = dict(vec![("XObject", Object::from(forms))]);
        stream = "/Form Do".to_string();
    }
    let content_id = doc.add_object(Stream::new(Dictionary::new(), stream.into_bytes()));
    let page_id = doc.add_object(dict(vec![
        ("Type", Object::from("Page")),
        ("Contents", Object::Reference(content_id)),
        ("Resources", Object::from(resources)),
    ]));
    extract_page(&doc, page_id, false).0
}

#[test]
fn tj_evidence_is_local_to_each_emitted_segment() {
    for in_form in [false, true] {
        let items = symbol_items("BT /F1 10 Tf 50 300 Td [(A) -3000 (W) -3000.0 (B)] TJ ET", in_form);
        assert_eq!(items.iter().map(|i| i.text.as_str()).collect::<Vec<_>>(), ["A", "W", "B"]);
        assert_eq!(
            items.iter().map(|i| i.legacy_symbol_rewrite).collect::<Vec<_>>(),
            [false, true, false]
        );
        let joined = symbol_items("BT /F1 10 Tf 50 300 Td [(A) (W) (B)] TJ ET", in_form);
        assert_eq!(joined.len(), 1);
        assert_eq!(joined[0].text, "AWB");
        assert!(joined[0].legacy_symbol_rewrite);
    }
}

#[test]
fn quote_show_operators_record_evidence_without_changing_line_motion() {
    for in_form in [false, true] {
        let second_show = if in_form { "0 0 (A) \"" } else { "(A) '" };
        let items = symbol_items(&format!("BT /F1 10 Tf 20 TL 50 300 Td (W) ' {second_show} ET"), in_form);
        assert_eq!(items.len(), 2, "{items:?}");
        assert_eq!(
            (items[0].text.as_str(), v(items[0].y), items[0].legacy_symbol_rewrite),
            ("W", 280.0, true)
        );
        assert_eq!(
            (items[1].text.as_str(), v(items[1].y), items[1].legacy_symbol_rewrite),
            ("A", 260.0, false)
        );
    }
}

#[test]
fn white_space_is_reported_and_not_shown() {
    let mut form = FormExtraction::new(matrix(IDENTITY), fresh(), false, 0, 7);
    let text = |text: &str| ShownText {
        run: placed(text, IDENTITY, 5.0, 10.0, true),
        face: FontFace {
            base_font: "Helvetica".to_string(),
            item_font: "Helvetica".to_string(),
            bold: false,
            italic: true,
            paintable: true,
        },
        rendered_size: f(10.0),
        scale: f(1.0),
        combined: matrix(IDENTITY),
        angle: f(0.0),
    };
    assert!(form.show(&text("  ")));
    form.advance(Some(f(5.0)));
    assert!(form.extracted.items.is_empty());
    assert!(!form.show(&text("word")));
    form.advance(Some(f(5.0)));
    form.advance(None);
    assert_eq!(v(form.walk.text_matrix.e), 10.0);
    let extracted = form.finish();
    assert_eq!(extracted.items.len(), 1);
    assert_eq!((extracted.items[0].page, extracted.items[0].is_italic), (7, true));
    assert_eq!(extracted.run_rotations.len(), 1);
}

#[test]
fn right_to_left_evidence_follows_the_paint_order() {
    let run = |x: f32| PlacedRun {
        rtl_candidate: true,
        ..placed("אב", [x, 0.0, 0.0, 1.0, 0.0, 0.0], 5.0, 10.0, true)
    };
    let face = || FontFace {
        base_font: String::new(),
        item_font: String::new(),
        bold: false,
        italic: false,
        paintable: false,
    };
    let mut form = FormExtraction::new(matrix(IDENTITY), fresh(), false, 0, 1);
    let shown = |x: f32| ShownText {
        run: run(x),
        face: face(),
        rendered_size: f(10.0),
        scale: f(1.0),
        combined: matrix([x, 0.0, 0.0, 1.0, 0.0, 0.0]),
        angle: f(0.0),
    };
    form.show(&shown(1.0));
    form.show(&shown(-1.0));
    let mut outer = FormExtraction::new(matrix(IDENTITY), fresh(), false, 0, 1);
    outer.image("Im", &ImageBox { x: f(0.0), y: f(0.0), width: f(1.0), height: f(1.0) });
    outer.nested(form.finish());
    let extracted = outer.finish();
    // The candidate of the nested form names its item behind the image.
    assert_eq!(extracted.rtl_visual_candidates, [1]);
    assert_eq!(extracted.rtl_logical_ops, 1);
    assert_eq!(extracted.items.len(), 3);
}

#[derive(Debug, PartialEq)]
enum PageRotation {
    Upright,
    Ccw,
    Cw,
}

/// The way a page is turned: most of its show operators, and more than one of
/// them, read in one vertical direction.
fn page_rotation(rotations: &[Single]) -> PageRotation {
    let reading = |angle: f32| rotations.iter().filter(|&&r| (v(r) - angle).abs() < 1.0).count();
    let (up, down) = (reading(90.0), reading(-90.0));
    if up > 1 && 2 * up > rotations.len() {
        PageRotation::Ccw
    } else if down > 1 && 2 * down > rotations.len() {
        PageRotation::Cw
    } else {
        PageRotation::Upright
    }
}

/// The items of a page, in the frame in which most of its text is upright.
fn turned_page(doc: &Document, page_id: ObjectId, include_invisible: bool) -> (Vec<TextItem>, PageRotation, bool) {
    let extracted = walk_page(doc, page_id, include_invisible, &mut FormWalkBudget::new());
    let rotation = page_rotation(&extracted.run_rotations);
    let mut items = extracted.items;
    for item in &mut items {
        let (x, y, width, height) = (v(item.x), v(item.y), v(item.width), v(item.height));
        let (turned_x, turned_y, angle) = match rotation {
            PageRotation::Upright => continue,
            PageRotation::Ccw => (y, -(x + width), v(item.rotation) - 90.0),
            PageRotation::Cw => (-(y + height), x, v(item.rotation) + 90.0),
        };
        (item.x, item.y, item.rotation) = (f(turned_x), f(turned_y), f(angle));
        (item.width, item.height) = (f(height), f(width));
    }
    (items, rotation, extracted.skipped_invisible)
}

#[test]
fn form_only_rotated_page_is_turned_like_page_stream_text() {
    // The whole page is one Form XObject whose runs are all 90°: the form
    // runs must vote, so the page is re-based exactly as if the runs had been
    // shown by the page stream itself.
    let (doc, page_id) = doc_with_page_and_forms(
        b"q /X1 Do Q",
        &[b"BT /F1 12 Tf 0 1 -1 0 200 100 Tm (HELLO) Tj ET
BT /F1 12 Tf 0 1 -1 0 240 100 Tm (WORLD) Tj ET"],
    );
    let (items, rotation, _) = turned_page(&doc, page_id, false);
    assert_eq!(rotation, PageRotation::Ccw);
    let hello = find(&items, "HELLO");
    assert_eq!(v(hello.rotation), 0.0);
    assert!((v(hello.x) - 100.0).abs() < 0.01, "x = {}", v(hello.x));
    assert!((v(hello.y) + 200.0).abs() < 0.01, "y = {}", v(hello.y));
    assert!((v(hello.width) - 36.0).abs() < 0.01, "width = {}", v(hello.width));
}

#[test]
fn form_only_page_with_a_lone_split_tj_stays_upright() {
    // One rotated TJ that splits at a 6em gap yields two items but is a
    // single show operator: a lone stamp, not a rotated page.
    let (doc, page_id) = doc_with_page_and_forms(
        b"q /X1 Do Q",
        &[b"BT /F1 10 Tf 0 1 -1 0 40 100 Tm [(AB) -6000 (CD)] TJ ET"],
    );
    let (items, rotation, _) = turned_page(&doc, page_id, false);
    assert_eq!(items.len(), 2, "{items:?}");
    assert_eq!(rotation, PageRotation::Upright);
    assert!(items.iter().all(|i| (v(i.rotation) - 90.0).abs() < 1e-3));
}

#[test]
fn invisible_form_text_is_skipped_and_does_not_vote() {
    // An OCR layer drawn inside a form with `3 Tr`: two rotated hidden runs
    // next to one visible upright caption. The hidden runs must neither appear
    // nor turn the page, and the page must report that it skipped them so that
    // a second pass recovers them.
    let (doc, page_id) = doc_with_page_and_forms(
        b"q /X1 Do Q",
        &[b"BT /F1 12 Tf 72 700 Td (Caption) Tj ET
BT 3 Tr /F1 12 Tf 0 1 -1 0 200 100 Tm (HIDDEN) Tj ET
BT 3 Tr /F1 12 Tf 0 1 -1 0 240 100 Tm [(ALSO) -3000 (HIDDEN)] TJ ET"],
    );
    let (items, rotation, skipped_invisible) = turned_page(&doc, page_id, false);
    assert_eq!(rotation, PageRotation::Upright);
    assert!(skipped_invisible);
    let texts: Vec<&str> = items.iter().map(|i| i.text.as_str()).collect();
    assert_eq!(texts, ["Caption"]);

    let (items, rotation, _) = turned_page(&doc, page_id, true);
    assert!(items.iter().any(|i| i.text == "HIDDEN"), "{items:?}");
    assert!(items.iter().any(|i| i.text.starts_with("ALSO")), "{items:?}");
    // Two rotated operators against one upright: the recovered layer now turns
    // the page like any other rotated text.
    assert_eq!(rotation, PageRotation::Ccw);
}

#[test]
fn form_tj_at_a_negative_size_votes_with_its_own_items() {
    // A form's vertical TJ runs at `-12 Tf` read top-to-bottom: their votes
    // must say so, like the items they produce, or the page would be turned
    // against them.
    let (doc, page_id) = doc_with_page_and_forms(
        b"q /X1 Do Q",
        &[b"BT /F1 -12 Tf 0 1 -1 0 100 100 Tm [(UP)] TJ ET BT /F1 -12 Tf 0 1 -1 0 130 100 Tm [(UP)] TJ ET"],
    );
    let (items, rotation, _) = turned_page(&doc, page_id, false);
    assert_eq!(rotation, PageRotation::Cw);
    assert_eq!(items.len(), 2, "{items:?}");
    assert!(items.iter().all(|i| v(i.rotation) == 0.0), "{items:?}");
}

/// The items of a form with the touching ones of a line joined.
fn joined_form_items(form_content: &[u8]) -> Vec<TextItem> {
    let mut joined: Vec<TextItem> = Vec::new();
    for item in form_items(form_content) {
        match joined.last_mut() {
            Some(last) if last.y == item.y && (v(item.x) - v(last.x) - v(last.width)).abs() < 2.0 => {
                last.text.push_str(&item.text);
                last.width = f(v(item.x) + v(item.width) - v(last.x));
            }
            _ => joined.push(item),
        }
    }
    joined
}

/// Pen travel ahead of the first glyph of a `TJ` moves the box, not just the
/// pen.
#[test]
fn tj_positioning_ahead_of_the_first_glyph_inside_form_moves_the_box() {
    // -5400 at 10pt carries the pen 54pt from x=100 to 154, flush against
    // "Intr" (130..154), so the word can be rejoined.
    let items = joined_form_items(
        b"BT /F1 10 Tf 1 0 0 1 130 700 Tm (Intr) Tj 1 0 0 1 100 700 Tm [-5400 (oduction)] TJ ET",
    );
    let word = find(&items, "Introduction");
    assert!((v(word.x) - 130.0).abs() < 0.05, "{items:?}");
    assert!((v(word.width) - 72.0).abs() < 0.05, "{items:?}");

    // A squeezed space run positioned the same way is still the word space of
    // the item before it.
    let items = joined_form_items(
        b"BT /F1 12 Tf 72 700 Td (for) Tj -6 Tc 1 0 0 1 60 700 Tm [-2800 ( )] TJ 0 Tc 1 0 0 1 94.8 700 Tm (the) Tj ET",
    );
    find(&items, "for the");
}

#[test]
fn packed_form_streams_are_unpacked() {
    let (mut doc, page_id) = doc_with_page_and_forms(b"q /X1 Do Q", &[b"BT /F1 12 Tf 72 700 Td (packed) Tj ET"]);
    let long: Vec<u8> = b"q Q\n".repeat(200).into_iter().chain(*b"BT /F1 12 Tf 72 700 Td (packed) Tj ET").collect();
    let form = doc.get_object_mut((2, 0)).unwrap().as_stream_mut().unwrap();
    form.set_plain_content(long.clone());
    form.compress().unwrap();
    assert_ne!(form.content, long);
    let (items, _) = extract_page(&doc, page_id, false);
    find(&items, "packed");
    assert_eq!(read_operations(&doc, (2, 0), LIMITS).unwrap().unwrap().len(), 405);
    assert!(read_operations(&doc, (99, 0), LIMITS).unwrap().is_none());
}

#[test]
fn white_space_becomes_the_word_space_of_the_item_before_it() {
    let items = form_items(b"BT /F1 10 Tf 1 0 0 1 100 700 Tm (for) Tj ( ) Tj (the) Tj [( )] TJ 0 -40 Td (end) Tj ET");
    let texts: Vec<&str> = items.iter().map(|item| item.text.as_str()).collect();
    // The space behind "the" is followed by text on another line.
    assert_eq!(texts, ["for ", "the", "end"]);
    assert!(near(items[0].width, 18.0) && near(items[1].x, 124.0));
    // White space ahead of the first item is nobody's.
    let items = form_items(b"BT /F1 10 Tf 1 0 0 1 100 700 Tm ( ) Tj (the) Tj ET");
    assert_eq!(items[0].text, "the");
}

#[test]
fn forms_beyond_the_size_limit_fail() {
    // The outer form is small, and the nested one decompresses to more.
    let nested: Vec<u8> = b"BT /F1 12 Tf 72 700 Td (inner) Tj ET ".iter().copied().chain(b"q Q ".repeat(200)).collect();
    let (mut doc, page_id) =
        doc_with_page_and_forms(b"q /X1 Do Q", &[b"BT /F1 12 Tf 72 720 Td (outer) Tj ET q /X2 Do Q", &nested]);
    doc.get_object_mut((3, 0)).unwrap().as_stream_mut().unwrap().compress().unwrap();
    let walk = |limit: Option<usize>| {
        let limits = FormLimits { max_decompressed_size: limit, ..LIMITS };
        walk_page_within(&doc, page_id, false, limits, &mut FormWalkBudget::new())
    };
    for limit in [None, Some(nested.len())] {
        let texts: Vec<String> = walk(limit).unwrap().items.into_iter().map(|item| item.text).collect();
        assert_eq!(texts, ["outer", "inner"]);
    }
    let failure = walk(Some(nested.len() - 1)).unwrap_err();
    assert!(failure.is_decompression_limit);
    assert_eq!(failure.message, format!("decompressed output exceeded the {}-byte limit", nested.len() - 1));
    // Streams that are stored as they are count too.
    assert!(walk(Some(10)).is_err());
}

#[test]
fn forms_with_too_many_operators_give_nothing() {
    let (doc, page_id) = doc_with_page_and_forms(b"q /X1 Do Q", &[b"BT /F1 12 Tf 72 700 Td (X) Tj ET"]);
    let texts = |max_operations: usize| {
        let limits = FormLimits { max_operations, ..LIMITS };
        walk_page_within(&doc, page_id, false, limits, &mut FormWalkBudget::new()).unwrap().items.len()
    };
    assert_eq!((texts(5), texts(4)), (1, 0));
}

#[test]
fn broken_filters_leave_the_stored_bytes() {
    let (mut doc, page_id) = doc_with_page_and_forms(b"q /X1 Do Q", &[b"BT /F1 12 Tf 72 700 Td (raw) Tj ET"]);
    let form = doc.get_object_mut((2, 0)).unwrap().as_stream_mut().unwrap();
    form.dict.set("Filter", Object::Name(b"NoSuchFilter".to_vec()));
    for limit in [None, Some(1000)] {
        let limits = FormLimits { max_decompressed_size: limit, ..LIMITS };
        let extracted = walk_page_within(&doc, page_id, false, limits, &mut FormWalkBudget::new()).unwrap();
        assert_eq!(extracted.items[0].text, "raw");
    }
}

#[test]
fn fonts_beyond_the_size_limit_fail_a_form() {
    let (mut doc, page_id) = doc_with_page_and_forms(b"q /X1 Do Q", &[b"BT /F1 12 Tf 72 700 Td (X) Tj ET"]);
    doc.get_dictionary_mut((1, 0)).unwrap().set("TooLarge", true);
    let walk = |limit: Option<usize>| {
        let limits = FormLimits { max_decompressed_size: limit, ..LIMITS };
        walk_page_within(&doc, page_id, false, limits, &mut FormWalkBudget::new())
    };
    assert_eq!(walk(None).unwrap().items.len(), 1);
    assert_eq!(walk(Some(1000)).unwrap_err().message, "font beyond 1000");
}
