use pdf_inspector::extractor::clip_boundaries::{separated_runs, ClipRect, ClipTracker};
use pdf_inspector::extractor::text_paint::Matrix;
use pdf_inspector::pdf::{object_of, PdfObject};
use pdf_inspector::single::Single;
use pdf_inspector::types::{ItemType, TextItem};

fn f(x: f32) -> Single {
    Single { bits: x.to_bits() }
}

fn v(x: Single) -> f32 {
    f32::from_bits(x.bits)
}

fn matrix(m: [f32; 6]) -> Matrix {
    Matrix { a: f(m[0]), b: f(m[1]), c: f(m[2]), d: f(m[3]), e: f(m[4]), f: f(m[5]) }
}

const IDENTITY: [f32; 6] = [1.0, 0.0, 0.0, 1.0, 0.0, 0.0];

fn apply(tracker: &mut ClipTracker, content: &str, ctm: [f32; 6]) {
    for op in lopdf::content::Content::decode(content.as_bytes())
        .unwrap()
        .operations
    {
        let operands: Vec<PdfObject> = op.operands.iter().map(object_of).collect();
        tracker.observe(&op.operator, &operands, &matrix(ctm));
    }
}

#[test]
fn clip_waits_for_path_end_and_intersects_nested_rectangles() {
    let mut tracker = ClipTracker::new();
    apply(&mut tracker, "10 20 80 90 re W", IDENTITY);
    assert!(tracker.rect().is_none());
    apply(&mut tracker, "n q 20 10 100 80 re W* f", IDENTITY);
    let rect = tracker.rect().unwrap();
    assert_eq!(
        (v(rect.left), v(rect.bottom), v(rect.right), v(rect.top)),
        (20.0, 20.0, 90.0, 90.0)
    );
    apply(&mut tracker, "Q", IDENTITY);
    assert_eq!(v(tracker.rect().unwrap().left), 10.0);
}

#[test]
fn path_coordinates_are_captured_when_constructed() {
    let mut tracker = ClipTracker::new();
    apply(
        &mut tracker,
        "10 20 -5 10 re",
        [-2.0, 0.0, 0.0, 3.0, 50.0, 7.0],
    );
    apply(&mut tracker, "W n", IDENTITY);
    let rect = tracker.rect().unwrap();
    assert_eq!(
        (v(rect.left), v(rect.right), v(rect.bottom), v(rect.top)),
        (30.0, 40.0, 67.0, 97.0)
    );
}

#[test]
fn uncertain_clips_remain_unknown_until_graphics_restore() {
    for path in [
        "0 0 m 10 0 l 10 10 l h W n",
        "0 0 10 10 re 20 0 10 10 re W n",
        "0 0 0 10 re W n",
        "W n",
        "0 0 10 10 re W n 30 30 10 10 re W n",
    ] {
        let mut tracker = ClipTracker::new();
        apply(&mut tracker, "0 0 100 100 re W n q", IDENTITY);
        apply(&mut tracker, path, IDENTITY);
        apply(&mut tracker, "1 1 2 2 re W n", IDENTITY);
        assert!(tracker.rect().is_none(), "{path}");
        apply(&mut tracker, "Q", IDENTITY);
        assert_eq!(v(tracker.rect().unwrap().right), 100.0);
    }
}

#[test]
fn path_is_not_restored_with_graphics_state() {
    let mut tracker = ClipTracker::new();
    apply(&mut tracker, "q 10 20 30 40 re Q W n", IDENTITY);
    assert_eq!(v(tracker.rect().unwrap().left), 10.0);
}

#[test]
fn unsupported_transforms_and_text_clips_abstain() {
    for ctm in [
        [0.0, 1.0, -1.0, 0.0, 0.0, 0.0],
        [1.0, 0.1, 0.0, 1.0, 0.0, 0.0],
        [f32::INFINITY, 0.0, 0.0, 1.0, 0.0, 0.0],
    ] {
        let mut tracker = ClipTracker::new();
        apply(&mut tracker, "1 2 30 40 re W n", ctm);
        assert!(tracker.rect().is_none());
    }
    let mut tracker = ClipTracker::new();
    apply(&mut tracker, "0 0 100 100 re W n BT q 4 Tr Q", IDENTITY);
    assert!(tracker.rect().is_none());
    apply(&mut tracker, "ET 1 1 2 2 re W n", IDENTITY);
    assert!(tracker.rect().is_none());
}

fn run(text: &str, x: f32, width: f32) -> TextItem {
    TextItem {
        text: text.to_string(),
        x: f(x),
        y: f(100.0),
        width: f(width),
        height: f(10.0),
        rotation: f(0.0),
        advance_known: true,
        font: String::new(),
        font_tag: String::new(),
        legacy_symbol_rewrite: false,
        font_size: f(10.0),
        page: 1,
        is_bold: false,
        is_italic: false,
        is_underline: false,
        is_strikeout: false,
        item_type: ItemType::Text,
        mcid: None,
        baseline_shift: f(0.0),
    }
}

fn clip(left: f32, right: f32) -> ClipRect {
    ClipRect { left: f(left), bottom: f(90.0), right: f(right), top: f(120.0) }
}

#[test]
fn runs_in_clips_side_by_side_are_separated() {
    let (first, second) = (run("left", 12.0, 20.0), run("right", 52.0, 20.0));
    let (a, b) = (clip(10.0, 40.0), clip(50.0, 80.0));
    assert!(a.contains_advance(&first));
    assert!(!a.contains_advance(&second));
    assert!(separated_runs(&first, Some(&a), &second, Some(&b)));
    assert!(!separated_runs(&first, None, &second, Some(&b)));
    assert!(!separated_runs(&first, Some(&a), &second, Some(&a)));
    assert!(a.intersection(b).is_none());
}
