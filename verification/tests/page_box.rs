use lopdf::{Dictionary, Document, Object, ObjectId};
use pdf_inspector::extractor::page_box::{visible_page_box, PageBox, PageRotation};
use pdf_inspector::single::Single;
use pdf_inspector::types::{ItemType, PdfLine, PdfRect, TextItem};

fn f(x: f32) -> Single {
    Single { bits: x.to_bits() }
}

fn v(x: Single) -> f32 {
    f32::from_bits(x.bits)
}

fn dict(entries: Vec<(&str, Object)>) -> Dictionary {
    entries.into_iter().collect()
}


fn boxed(values: [i64; 4]) -> Object {
    Object::Array(values.iter().map(|&v| v.into()).collect())
}

/// One-page document; `page_keys` go on the page, `parent_keys` on
/// the `/Pages` node.
fn doc_with_boxes(
    page_keys: &[(&str, [i64; 4])],
    parent_keys: &[(&str, [i64; 4])],
) -> (Document, ObjectId) {
    let mut doc = Document::with_version("1.5");
    let pages_id = doc.new_object_id();
    let mut page = dict(vec![
        ("Type", Object::from("Page")),
        ("Parent", Object::from(Object::Reference(pages_id))),
    ]);
    for (key, values) in page_keys {
        page.set(*key, boxed(*values));
    }
    let page_id = doc.add_object(page);
    let mut pages = dict(vec![
        ("Type", Object::from("Pages")),
        ("Count", Object::from(1)),
        ("Kids", Object::from(vec![Object::Reference(page_id)])),
    ]);
    for (key, values) in parent_keys {
        pages.set(*key, boxed(*values));
    }
    doc.objects.insert(pages_id, pages.into());
    let catalog_id = doc.add_object(dict(vec![
        ("Type", Object::from("Catalog")),
        ("Pages", Object::from(Object::Reference(pages_id))),
    ]));
    doc.trailer.set("Root", Object::Reference(catalog_id));
    (doc, page_id)
}

fn page_box(x0: f32, y0: f32, x1: f32, y1: f32) -> PageBox {
    PageBox { x0: f(x0), y0: f(y0), x1: f(x1), y1: f(y1) }
}

#[test]
fn media_box_alone_is_the_visible_box() {
    let (doc, page_id) = doc_with_boxes(&[("MediaBox", [0, 0, 612, 792])], &[]);
    assert_eq!(
        visible_page_box(&doc, page_id),
        Some(page_box(0.0, 0.0, 612.0, 792.0))
    );
}

#[test]
fn crop_box_inside_media_box_wins() {
    let (doc, page_id) = doc_with_boxes(
        &[
            ("MediaBox", [0, 0, 400, 500]),
            ("CropBox", [50, 60, 350, 460]),
        ],
        &[],
    );
    assert_eq!(
        visible_page_box(&doc, page_id),
        Some(page_box(50.0, 60.0, 350.0, 460.0))
    );
}

#[test]
fn crop_box_is_intersected_with_an_offset_media_box() {
    // The observed shape: MediaBox origin off (0,0) and a CropBox that
    // pokes below it. Renderers show the intersection.
    let (doc, page_id) = doc_with_boxes(
        &[
            ("MediaBox", [36, 36, 648, 819]),
            ("CropBox", [36, 0, 648, 783]),
        ],
        &[],
    );
    assert_eq!(
        visible_page_box(&doc, page_id),
        Some(page_box(36.0, 36.0, 648.0, 783.0))
    );
}

#[test]
fn disjoint_crop_box_falls_back_to_media_box() {
    let (doc, page_id) = doc_with_boxes(
        &[
            ("MediaBox", [0, 0, 400, 500]),
            ("CropBox", [900, 900, 950, 950]),
        ],
        &[],
    );
    assert_eq!(
        visible_page_box(&doc, page_id),
        Some(page_box(0.0, 0.0, 400.0, 500.0))
    );
}

#[test]
fn reversed_corners_are_normalized() {
    let (doc, page_id) = doc_with_boxes(&[("MediaBox", [612, 792, 0, 0])], &[]);
    assert_eq!(
        visible_page_box(&doc, page_id),
        Some(page_box(0.0, 0.0, 612.0, 792.0))
    );
}

#[test]
fn boxes_are_inherited_from_the_page_tree() {
    let (doc, page_id) = doc_with_boxes(
        &[],
        &[
            ("MediaBox", [0, 0, 400, 500]),
            ("CropBox", [50, 60, 350, 460]),
        ],
    );
    assert_eq!(
        visible_page_box(&doc, page_id),
        Some(page_box(50.0, 60.0, 350.0, 460.0))
    );
    // A page-level MediaBox overrides the inherited one; the CropBox is
    // still inherited.
    let (doc, page_id) = doc_with_boxes(
        &[("MediaBox", [0, 0, 300, 300])],
        &[
            ("MediaBox", [0, 0, 400, 500]),
            ("CropBox", [50, 60, 350, 460]),
        ],
    );
    assert_eq!(
        visible_page_box(&doc, page_id),
        Some(page_box(50.0, 60.0, 300.0, 300.0))
    );
}

#[test]
fn indirect_box_operands_are_resolved() {
    // `/CropBox [50 60 350 7 0 R]` with `7 0 obj 460 endobj`: dropping the
    // reference would leave three numbers, skip the CropBox, and resolve
    // the page against the MediaBox instead.
    let mut doc = Document::with_version("1.5");
    let pages_id = doc.new_object_id();
    let top = doc.add_object(Object::Real(460.0));
    let page_id = doc.add_object(dict(vec![
        ("Type", Object::from("Page")),
        ("Parent", Object::from(Object::Reference(pages_id))),
        ("MediaBox", Object::from(boxed([0, 0, 400, 500]))),
        ("CropBox", Object::from(Object::Array(vec![
            50.into(),
            60.into(),
            350.into(),
            Object::Reference(top),
        ]))),
    ]));
    doc.objects.insert(
        pages_id,
        dict(vec![
            ("Type", Object::from("Pages")),
            ("Count", Object::from(1)),
            ("Kids", Object::from(vec![Object::Reference(page_id)])),
    ])
        .into(),
    );
    let catalog_id = doc.add_object(dict(vec![
        ("Type", Object::from("Catalog")),
        ("Pages", Object::from(Object::Reference(pages_id))),
    ]));
    doc.trailer.set("Root", Object::Reference(catalog_id));
    assert_eq!(
        visible_page_box(&doc, page_id),
        Some(page_box(50.0, 60.0, 350.0, 460.0))
    );
}

#[test]
fn crop_box_without_media_box_is_measured_against_letter() {
    let (doc, page_id) = doc_with_boxes(&[("CropBox", [100, 100, 700, 900])], &[]);
    assert_eq!(
        visible_page_box(&doc, page_id),
        Some(page_box(100.0, 100.0, 612.0, 792.0))
    );
}

#[test]
fn degenerate_boxes_are_ignored() {
    let (doc, page_id) = doc_with_boxes(&[("MediaBox", [0, 0, 0, 792])], &[]);
    assert_eq!(visible_page_box(&doc, page_id), None);
    let (doc, page_id) = doc_with_boxes(&[], &[]);
    assert_eq!(visible_page_box(&doc, page_id), None);
}

fn item_at(x: f32, y: f32) -> TextItem {
    TextItem {
        text: "a".into(),
        x: f(x),
        y: f(y),
        width: f(10.0),
        height: f(12.0),
        font: String::new(),
        font_tag: String::new(),
        legacy_symbol_rewrite: false,
        font_size: f(12.0),
        page: 1,
        is_bold: false,
        is_italic: false,
        is_underline: false,
        is_strikeout: false,
        item_type: ItemType::Text,
        mcid: None,
        baseline_shift: f(0.0),
        rotation: f(0.0),
        advance_known: true,
    }
}

#[test]
fn translate_page_shifts_every_geometry_kind() {
    let page_box = page_box(50.0, 60.0, 350.0, 460.0);
    let mut items = vec![item_at(120.0, 300.0)];
    let mut rects = vec![PdfRect {
        x: f(100.0),
        y: f(200.0),
        width: f(30.0),
        height: f(5.0),
        page: 1,
    }];
    let mut lines = vec![PdfLine {
        x1: f(60.0),
        y1: f(70.0),
        x2: f(160.0),
        y2: f(70.0),
        page: 1,
    }];
    page_box.translate_page(&mut items, &mut rects, &mut lines, PageRotation::Upright);
    assert_eq!((v(items[0].x), v(items[0].y)), (70.0, 240.0));
    assert_eq!((v(rects[0].x), v(rects[0].y)), (50.0, 140.0));
    assert_eq!((v(rects[0].width), v(rects[0].height)), (30.0, 5.0));
    assert_eq!(
        (v(lines[0].x1), v(lines[0].y1), v(lines[0].x2), v(lines[0].y2)),
        (10.0, 10.0, 110.0, 10.0)
    );
}

#[test]
fn rotated_translation_matches_translating_before_rotation() {
    // Shifting the raw point first and turning must equal turning first
    // and applying the turned shift, for both turns: counter-clockwise
    // maps (x, y) -> (y, -x), clockwise maps (x, y) -> (-y, x).
    let page_box = page_box(50.0, 60.0, 350.0, 460.0);
    let (raw_x, raw_y) = (120.0_f32, 300.0_f32);
    let (rel_x, rel_y) = (raw_x - v(page_box.x0), raw_y - v(page_box.y0));

    let mut items = vec![item_at(raw_y, -raw_x)];
    page_box.translate_items(&mut items, PageRotation::Ccw);
    assert_eq!((v(items[0].x), v(items[0].y)), (rel_y, -rel_x));

    let mut items = vec![item_at(-raw_y, raw_x)];
    page_box.translate_items(&mut items, PageRotation::Cw);
    assert_eq!((v(items[0].x), v(items[0].y)), (-rel_y, rel_x));
}

#[test]
fn origin_box_is_a_no_op() {
    let mut items = vec![item_at(72.0, 700.0)];
    PageBox::letter().translate_items(&mut items, PageRotation::Upright);
    assert_eq!((v(items[0].x), v(items[0].y)), (72.0, 700.0));
}

#[test]
fn boxes_keep_to_their_corners() {
    assert_eq!(PageBox::from_corners(f(10.0), f(40.0), f(30.0), f(20.0)), Some(page_box(10.0, 20.0, 30.0, 40.0)));
    assert_eq!(PageBox::from_corners(f(10.0), f(20.0), f(10.0), f(40.0)), None);
    assert_eq!(PageBox::from_corners(f(f32::NAN), f(20.0), f(10.0), f(40.0)), None);
    assert_eq!(v(page_box(10.0, 20.0, 30.0, 45.0).height()), 25.0);
    let common = page_box(0.0, 0.0, 10.0, 10.0).intersect(&page_box(5.0, -5.0, 20.0, 8.0));
    assert_eq!(common, Some(page_box(5.0, 0.0, 10.0, 8.0)));
    assert_eq!(page_box(0.0, 0.0, 10.0, 10.0).intersect(&page_box(10.0, 0.0, 20.0, 10.0)), None);
}

#[test]
fn shifts_and_turns_commute() {
    let page_box = PageBox { x0: f(50.0), y0: f(70.0), x1: f(550.0), y1: f(370.0) };
    for rotation in [PageRotation::Upright, PageRotation::Ccw, PageRotation::Cw] {
        for (x, y) in [(10.0, 20.0), (50.0, 70.0), (300.5, 200.25)] {
            let (dx, dy) = page_box.shift(rotation);
            let (px, py) = rotation.rotate_point(f(x), f(y));
            let (qx, qy) = rotation.rotate_point(f(x - 50.0), f(y - 70.0));
            assert_eq!(v(px.plus(dx)), v(qx));
            assert_eq!(v(py.plus(dy)), v(qy));
        }
    }
}
