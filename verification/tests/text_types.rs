use pdf_inspector::single::Single;
use pdf_inspector::types::{stacked_fraction_slash, ItemType, TextItem, TextLine};


fn f(x: f32) -> Single {
    Single { bits: x.to_bits() }
}

fn v(x: Single) -> f32 {
    f32::from_bits(x.bits)
}

fn item(text: &str, x: f32, width: f32, strikeout: bool) -> TextItem {
    TextItem {
        text: text.to_string(),
        x: f(x),
        y: f(100.0),
        width: f(width),
        height: f(12.0),
        font: "F1".to_string(),
        font_tag: String::new(),
        legacy_symbol_rewrite: false,
        font_size: f(12.0),
        page: 1,
        is_bold: false,
        is_italic: false,
        is_underline: false,
        is_strikeout: strikeout,
        rotation: f(0.0),
        advance_known: true,
        item_type: ItemType::Text,
        mcid: None,
        baseline_shift: f(0.0),
    }
}

fn line_of(items: Vec<TextItem>) -> TextLine {
    TextLine { items, y: f(100.0), page: 1, adaptive_threshold: f(0.1), joined: Vec::new() }
}

/// A body-text item at 12pt on the shared baseline.
fn body(text: &str, x: f32, width: f32) -> TextItem {
    item(text, x, width, false)
}

/// A script run at 8pt, `shift` points off the 12pt body baseline
/// (positive = raised), as `merge_subscript_items` materializes it: one
/// item per run.
fn script(text: &str, x: f32, width: f32, shift: f32) -> TextItem {
    let mut it = item(text, x, width, false);
    it.font_size = f(8.0);
    it.height = f(8.0);
    it.y = it.y.plus(f(shift));
    it.baseline_shift = f(shift);
    it
}

#[test]
fn script_run_is_wrapped_in_one_sup_span() {
    // Author block: "Yibo Yan" + the raised "1,2" run + body ", " +
    // "Jiahao Huo". The marker run is one <sup> span attached to the
    // name, and the body comma follows without a space.
    let line = line_of(vec![
        body("Yibo Yan", 10.0, 48.0),
        script("1,2", 58.0, 10.0, 4.3),
        body(",", 68.0, 3.0),
        body("Jiahao Huo", 74.5, 60.0),
    ]);
    assert_eq!(line.text(), "Yibo Yan<sup>1,2</sup>, Jiahao Huo");
    assert_eq!(
        line.text_with_formatting(true, true, true),
        "Yibo Yan<sup>1,2</sup>, Jiahao Huo"
    );
}

#[test]
fn word_space_after_script_run_follows_geometry() {
    let line = line_of(vec![
        body("word", 10.0, 24.0),
        script("2", 34.0, 4.0, 4.0),
        body("next", 41.5, 24.0),
    ]);
    assert_eq!(line.text(), "word<sup>2</sup> next");

    // Tight junction after the marker: no space ("x<sup>2</sup>y").
    let line = line_of(vec![
            body("x", 10.0, 6.0),
            script("2", 16.2, 4.0, 4.0),
            body("y", 20.4, 6.0),
        ]);
    assert_eq!(line.text(), "x<sup>2</sup>y");
}

#[test]
fn leading_script_run_attaches_to_following_word() {
    // Affiliation line: markers lead their institution, and a word space
    // before the run (after the previous institution's comma) survives.
    let line = line_of(vec![
        body("University,", 10.0, 60.0),
        script("1,2", 73.4, 10.2, 3.5),
        body("Hong Kong", 83.6, 54.0),
    ]);
    assert_eq!(line.text(), "University, <sup>1,2</sup>Hong Kong");
}

#[test]
fn lowered_run_uses_sub_tag() {
    let line = line_of(vec![body("x", 10.0, 6.0), script("max", 16.0, 12.0, -2.4)]);
    assert_eq!(line.text(), "x<sub>max</sub>");
}

#[test]
fn script_span_does_not_split_a_bold_run() {
    let mut name = body("Yibo Yan", 10.0, 48.0);
    name.is_bold = true;
    let mut rest = body(", Jiahao Huo", 62.0, 66.0);
    rest.is_bold = true;
    let line = line_of(vec![name, script("1", 58.0, 4.0, 4.3), rest]);
    assert_eq!(
        line.text_with_formatting(true, false, false),
        "**Yibo Yan<sup>1</sup>, Jiahao Huo**"
    );
    assert_eq!(line.text(), "Yibo Yan<sup>1</sup>, Jiahao Huo");
}

#[test]
fn line_y_of_an_upside_down_run_is_its_baseline() {
    // A 180° run hangs from its box top: that is the baseline its line
    // groups by, a script offset still applies below it, and an upright
    // run keeps `y`.
    let mut run = item("x", 100.0, 20.0, false);
    run.y = f(500.0);
    run.height = f(10.0);
    run.rotation = f(180.0);
    assert_eq!(v(run.baseline_y()), 510.0);
    assert_eq!(v(run.line_y()), 510.0);
    run.baseline_shift = f(2.0);
    assert_eq!(v(run.line_y()), 508.0);
    run.rotation = f(0.0);
    assert_eq!(v(run.baseline_y()), 500.0);
    assert_eq!(v(run.line_y()), 498.0);
}

#[test]
fn separated_script_items_get_separate_spans() {
    // Two runs with a real gap between them (nothing else on the line)
    // are two spans with a space, never "<sup>1 2</sup>".
    let line = line_of(vec![
        script("1", 10.0, 4.0, 4.0),
        script("2", 40.0, 4.0, 4.0),
    ]);
    assert_eq!(line.text(), "<sup>1</sup> <sup>2</sup>");
}

#[test]
fn touching_runs_of_different_size_are_separate_spans_without_space() {
    // Nested script: "n" (6pt) attached to the superscript "2" (8pt).
    let mut nested = script("n", 20.2, 3.0, 6.0);
    nested.font_size = f(6.0);
    let line = line_of(vec![
        body("x", 10.0, 6.0),
        script("2", 16.2, 4.0, 4.0),
        nested,
    ]);
    assert_eq!(line.text(), "x<sup>2</sup><sup>n</sup>");
}

#[test]
fn stacked_digit_fraction_renders_with_a_slash() {
    // "3 1/3 bits" set as a case fraction: numerator raised, denominator
    // lowered, both at the same x. Never "3 <sup>13</sup>".
    let mut num = script("1", 52.5, 3.7, 3.96);
    num.font_size = f(7.4);
    let mut den = script("3", 52.5, 3.7, -4.0);
    den.font_size = f(7.4);
    let line = line_of(vec![
        body("about 3", 10.0, 40.8),
        num,
        den,
        body("bits", 58.0, 20.0),
    ]);
    assert_eq!(line.text(), "about 3 <sup>1</sup>/<sub>3</sub> bits");
}

#[test]
fn decorated_script_run_keeps_its_own_underline() {
    // An underlined (hyperlinked) footnote marker in plain text.
    let mut marker = script("1", 58.0, 4.0, 4.3);
    marker.is_underline = true;
    let line = line_of(vec![body("word", 10.0, 48.0), marker]);
    assert_eq!(
        line.text_with_formatting(false, false, true),
        "word<u><sup>1</sup></u>"
    );
}

#[test]
fn own_decoration_does_not_leak_onto_the_next_run() {
    let mut first = script("1", 58.0, 4.0, 4.3);
    first.is_underline = true;
    let second = script("2", 80.0, 4.0, 4.3);
    let line = line_of(vec![body("word", 10.0, 48.0), first, second]);
    assert_eq!(
        line.text_with_formatting(false, false, true),
        "word<u><sup>1</sup></u> <sup>2</sup>"
    );
}

#[test]
fn own_decoration_nests_inside_an_open_body_decoration() {
    // Underlined body text with a struck footnote marker: the strike
    // nests inside the underline instead of being dropped.
    let mut word = body("word", 10.0, 48.0);
    word.is_underline = true;
    let mut marker = script("1", 58.0, 4.0, 4.3);
    marker.is_strikeout = true;
    let line = line_of(vec![word, marker]);
    assert_eq!(
        line.text_with_formatting(false, false, true),
        "<u>word<s><sup>1</sup></s></u>"
    );
}

#[test]
fn fraction_slash_needs_one_visual_line() {
    // Opposite-sign digit runs on different lines are not a fraction.
    let mut num = script("1", 52.5, 3.7, 3.96);
    num.font_size = f(7.4);
    let mut den = script("3", 52.5, 3.7, -4.0);
    den.font_size = f(7.4);
    den.y = den.y.minus(f(12.0)); // anchored to the next line's body
    assert!(!stacked_fraction_slash(&num, &den));
}

#[test]
fn line_y_snaps_scripts_to_the_anchor_baseline() {
    let raised = script("1", 58.0, 4.0, 4.3);
    assert!((v(raised.y) - 104.3).abs() < 1e-4);
    assert!((v(raised.line_y()) - 100.0).abs() < 1e-4);
    assert!(raised.is_script());
    assert!(!body("Yibo Yan", 10.0, 48.0).is_script());
}

#[test]
fn formatting_emits_semantic_strikeout() {
    let line = line_of(vec![item("deleted", 10.0, 42.0, true)]);

    assert_eq!(
        line.text_with_formatting(true, true, true),
        "<s>deleted</s>"
    );
}

#[test]
fn formatting_closes_strikeout_before_live_text() {
    let line = line_of(vec![
        item("keep", 10.0, 24.0, false),
        item("remove", 40.0, 42.0, true),
        item("keep", 88.0, 24.0, false),
    ]);

    assert_eq!(
        line.text_with_formatting(true, true, true),
        "keep <s>remove</s> keep"
    );
}

#[test]
fn formatting_coalesces_adjacent_struck_items() {
    let line = line_of(vec![
        item("deleted", 10.0, 42.0, true),
        item("words", 58.0, 30.0, true),
    ]);

    assert_eq!(
        line.text_with_formatting(true, true, true),
        "<s>deleted words</s>"
    );
}

#[test]
fn strikeout_takes_precedence_over_other_styles() {
    let mut decorated = item("deleted", 10.0, 42.0, true);
    decorated.is_bold = true;
    decorated.is_italic = true;
    decorated.is_underline = true;
    let line = line_of(vec![decorated]);

    assert_eq!(
        line.text_with_formatting(true, true, true),
        "<s>deleted</s>"
    );
    assert_eq!(line.text(), "deleted");
}

#[test]
fn is_horizontal_follows_the_baseline_quadrant() {
    let cases = [
        (0.0, true),
        (180.0, true),
        (90.0, false),
        (270.0, false),
        (44.0, true),
        (46.0, false),
        (134.0, false),
        (136.0, true),
        (359.5, true),
        (-90.0, false),
        (450.0, false),
    ];
    for (rotation, horizontal) in cases {
        let mut probe = item("x", 0.0, 10.0, false);
        probe.rotation = f(rotation);
        assert_eq!(
            probe.is_horizontal(),
            horizontal,
            "rotation {rotation} should be horizontal={horizontal}"
        );
    }
}

#[test]
fn cross_extent_is_the_em_box_whatever_the_orientation() {
    let mut probe = item("x", 0.0, 10.0, false);
    probe.height = f(12.0);
    assert_eq!(v(probe.cross_extent()), 12.0);
    probe.rotation = f(90.0);
    probe.width = f(12.0);
    probe.height = f(200.0);
    assert_eq!(v(probe.cross_extent()), 12.0);
    // A long diagonal run: both box extents carry the advance, the em
    // is the font size.
    probe.rotation = f(30.0);
    probe.width = f(180.0);
    probe.height = f(110.0);
    assert_eq!(v(probe.cross_extent()), 12.0);
}

#[test]
fn upright_and_upside_down_split_the_horizontal_half_plane() {
    let mut probe = item("x", 0.0, 10.0, false);
    for (rotation, upright, upside_down) in [
        (0.0, true, false),
        (44.0, true, false),
        (316.0, true, false),
        (180.0, false, true),
        (136.0, false, true),
        (224.0, false, true),
        (90.0, false, false),
        (270.0, false, false),
    ] {
        probe.rotation = f(rotation);
        assert_eq!(probe.is_upright(), upright, "upright at {rotation}");
        assert_eq!(
            probe.is_upside_down(),
            upside_down,
            "upside_down at {rotation}"
        );
    }
}

#[test]
fn joined_items_are_one_word() {
    let mut line = line_of(vec![body("wo", 10.0, 12.0), body("rd", 22.0, 12.0), body("next", 40.0, 24.0)]);
    assert_eq!(line.text(), "wo rd next");
    line.joined = vec![false, true, false];
    assert_eq!(line.text(), "word next");
}

#[test]
fn only_requested_styles_are_marked() {
    let mut decorated = body("word", 10.0, 42.0);
    decorated.is_bold = true;
    decorated.is_underline = true;
    let line = line_of(vec![decorated]);
    assert_eq!(line.text_with_formatting(true, false, false), "**word**");
    assert_eq!(line.text_with_formatting(false, false, false), "word");
    assert_eq!(line.text_with_formatting(false, true, true), "<u>word</u>");
}
