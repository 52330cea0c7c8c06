use lopdf::content::Content;
use lopdf::{Dictionary, Document, Object};
use pdf_inspector::extractor::text_paint::{Matrix, PaintResources, TextPaint};
use pdf_inspector::pdf::{entries_of, object_of, PdfObject};
use pdf_inspector::single::Single;

fn f(x: f32) -> Single {
    Single { bits: x.to_bits() }
}

fn dict(entries: Vec<(&str, Object)>) -> Dictionary {
    entries.into_iter().collect()
}

fn matrix(m: &[f32; 6]) -> Matrix {
    Matrix { a: f(m[0]), b: f(m[1]), c: f(m[2]), d: f(m[3]), e: f(m[4]), f: f(m[5]) }
}

trait Bold {
    fn bold(&self, text: &str, size: f32, font: &str, ctm: &[f32; 6]) -> bool;
}

impl Bold for TextPaint {
    fn bold(&self, text: &str, size: f32, font: &str, ctm: &[f32; 6]) -> bool {
        let scale = ctm[0].hypot(ctm[1]).min(ctm[2].hypot(ctm[3]));
        self.adds_bold(text, f(size), font, &matrix(ctm), f(scale))
    }
}

fn painted_text(ops: &[u8], resources: &PaintResources) -> TextPaint {
    let mut paint = TextPaint {
        rendering_mode: 2,
        ..TextPaint::default()
    };
    for op in Content::decode(ops).unwrap().operations {
        let operands: Vec<PdfObject> = op.operands.iter().map(object_of).collect();
        paint.observe(&op.operator, &operands, resources);
    }
    paint
}

const IDENTITY: [f32; 6] = [1.0, 0.0, 0.0, 1.0, 0.0, 0.0];

#[test]
fn paint_requires_matching_known_colors_and_visible_weight() {
    let resources = PaintResources::new();
    for ops in [b"0.3 w".as_slice(), b"0.3 w 0 0.2 0.4 rg 0 0.2 0.4 RG"] {
        assert!(painted_text(ops, &resources).bold("Label", 12.0, "Regular", &IDENTITY));
    }
    for ops in [
        b"0 w".as_slice(),
        b"-1 w",
        b"0.001 w",
        b"0.3 w 1 G",
        b"0.3 w /Unknown cs",
        b"0.3 w /Unknown gs",
        b"0.3 w [1] 0 d",
    ] {
        assert!(!painted_text(ops, &resources).bold("Label", 12.0, "Regular", &IDENTITY));
    }
}

#[test]
fn symbolic_fonts_and_glyphs_do_not_gain_semantic_emphasis() {
    let paint = painted_text(b"0.3 w", &PaintResources::new());
    for name in ["Wingdings-Regular", "ABCDEF+ZapfDingbats", "Webdings"] {
        assert!(!paint.bold("A", 12.0, name, &IDENTITY));
    }
    for glyph in ["✓", "\u{f0fc}", "•", ""] {
        assert!(!paint.bold(glyph, 12.0, "Regular", &IDENTITY));
    }
}

#[test]
fn stroke_weight_uses_user_space_and_rejects_degenerate_geometry() {
    let paint = painted_text(b"0.3 w", &PaintResources::new());
    assert!(paint.bold("Label", 6.0, "Regular", &[0.5, 0.0, 0.0, 0.5, 0.0, 0.0]));
    for size in [0.0, -1.0, f32::NAN, f32::INFINITY] {
        assert!(!paint.bold("Label", size, "Regular", &IDENTITY));
    }
    for ctm in [
        [1.0, 1.0, 1.0, 1.0, 0.0, 0.0],
        [f32::NAN, 0.0, 0.0, 1.0, 0.0, 0.0],
        [0.01, 0.0, 0.0, 0.01, 0.0, 0.0],
    ] {
        assert!(!paint.bold("Label", 12.0, "Regular", &ctm));
    }
}

#[test]
fn unsupported_local_color_space_shadows_parent_alias() {
    let doc = Document::new();
    let local = dict(vec![("ColorSpace", Object::from(dict(vec![("Tone", Object::from("Pattern"))])))]);
    let parent = dict(vec![("ColorSpace", Object::from(dict(vec![("Tone", Object::from("DeviceRGB"))])))]);
    let mut resources = PaintResources::new();
    resources.add(&doc, &entries_of(&local));
    resources.add(&doc, &entries_of(&parent));
    let paint = painted_text(b"0.3 w /Tone cs 0 0 0 sc /Tone CS 0 0 0 SC", &resources);
    assert!(!paint.bold("Label", 12.0, "Regular", &IDENTITY));
}

#[test]
fn harmless_graphics_states_do_not_clear_unknown_compositing() {
    let mut doc = Document::new();
    let smooth = doc.add_object(dict(vec![("Type", Object::from("ExtGState")), ("SM", Object::from(0.02))]));
    let resources_dict = dict(vec![("ExtGState", Object::from(dict(vec![
        ("Smooth", Object::from(Object::Reference(smooth))),
        ("OverprintMode", Object::from(dict(vec![("OPM", Object::from(1))]))),
        ("Alpha", Object::from(dict(vec![("ca", Object::from(0.5))]))),
        ("Blend", Object::from(dict(vec![("BM", Object::from("Multiply"))]))),
        ("Mask", Object::from(dict(vec![("SMask", Object::from("None"))]))),
        ("Overprint", Object::from(dict(vec![("OP", Object::from(true))]))),
        ("Stroke", Object::from(dict(vec![("LW", Object::from(1))]))),
        ("InvalidSmooth", Object::from(dict(vec![("SM", Object::from(2))]))),
        ("NotFiniteSmooth", Object::from(dict(vec![("SM", Object::from(Object::Real(f32::NAN)))]))),
        ("InvalidMode", Object::from(dict(vec![("OPM", Object::from(2))]))),
        ("InvalidType", Object::from(dict(vec![("Type", Object::from("Other"))]))),
    ]))),
    ]);
    let mut resources = PaintResources::new();
    resources.add(&doc, &entries_of(&resources_dict));
    assert!(painted_text(b"0.3 w /Smooth gs /OverprintMode gs", &resources)
        .bold("Label", 12.0, "Regular", &IDENTITY));
    for name in [
        "Alpha",
        "Blend",
        "Mask",
        "Overprint",
        "Stroke",
        "InvalidSmooth",
        "NotFiniteSmooth",
        "InvalidMode",
        "InvalidType",
        "Missing",
    ] {
        let ops = format!("0.3 w /{name} gs /Smooth gs /OverprintMode gs");
        assert!(
            !painted_text(ops.as_bytes(), &resources).bold("Label", 12.0, "Regular", &IDENTITY),
            "{name}"
        );
    }

    let mut shadowed = PaintResources::new();
    shadowed.add(
        &doc,
        &entries_of(&dict(vec![("ExtGState", Object::from(dict(vec![("Smooth", Object::from(Object::Reference((999, 0))))])))])),
    );
    shadowed.add(&doc, &entries_of(&resources_dict));
    assert!(
        !painted_text(b"0.3 w /Smooth gs", &shadowed).bold("Label", 12.0, "Regular", &IDENTITY)
    );
}

#[test]
fn same_icc_profile_and_components_establish_same_paint() {
    let mut doc = Document::new();
    let profile = doc.add_object(lopdf::Stream::new(dict(vec![("N", Object::from(3))]), vec![]));
    let mut resources = PaintResources::new();
    resources.add(
        &doc,
        &entries_of(&dict(vec![("ColorSpace", Object::from(dict(vec![
            ("Tone", Object::from(vec![Object::Name(b"ICCBased".to_vec()), Object::Reference(profile)])),
    ]))),
    ])),
    );
    let paint = painted_text(
        b"0.3 w /Tone cs 0 0.2 0.4 sc /Tone CS 0 0.2 0.4 SC",
        &resources,
    );
    assert!(paint.bold("Label", 12.0, "Regular", &IDENTITY));
}

#[test]
fn page_resources_are_read_through_the_page_tree() {
    let mut doc = Document::with_version("1.5");
    let pages_id = doc.new_object_id();
    let states = dict(vec![("Soft", Object::from(dict(vec![("OPM", Object::from(1))])))]);
    let shared = doc.add_object(dict(vec![("ExtGState", Object::from(states))]));
    let page_id = doc.add_object(dict(vec![
        ("Type", Object::from("Page")),
        ("Parent", Object::Reference(pages_id)),
    ]));
    doc.objects.insert(
        pages_id,
        dict(vec![
            ("Type", Object::from("Pages")),
            ("Count", Object::from(1)),
            ("Kids", Object::from(vec![Object::Reference(page_id)])),
            ("Resources", Object::Reference(shared)),
        ])
        .into(),
    );
    let resources = PaintResources::page(&doc, page_id);
    let soft = painted_text(b"0.3 w /Soft gs", &resources);
    let other = painted_text(b"0.3 w /Other gs", &resources);
    let found = soft.bold("Label", 12.0, "Regular", &IDENTITY);
    assert!(!other.bold("Label", 12.0, "Regular", &IDENTITY));
    // The page inherits the resources that its parent refers to.
    assert!(found);
}

#[test]
fn form_resources_are_read_from_the_form() {
    let doc = Document::new();
    let states = dict(vec![("Soft", Object::from(dict(vec![("OPM", Object::from(1))])))]);
    let form = dict(vec![("Resources", Object::from(dict(vec![("ExtGState", Object::from(states))])))]);
    let resources = PaintResources::form(&doc, &entries_of(&form));
    assert!(painted_text(b"0.3 w /Soft gs", &resources).bold("Label", 12.0, "Regular", &IDENTITY));
}
