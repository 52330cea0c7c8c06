use pdf_inspector::extractor::scripts::{
    apply_script_runs, detect_script_runs, fusable_anchor_edge, is_script_glyph_text, is_script_marker_symbol,
    is_script_participant, map_script_digits, merge_subscript_items,
};
use pdf_inspector::single::Single;
use pdf_inspector::types::{copy_item, ItemType, TextItem};

fn f(x: f32) -> Single {
    Single { bits: x.to_bits() }
}

fn v(x: Single) -> f32 {
    f32::from_bits(x.bits)
}


fn make_item_fs(text: &str, x: f32, y: f32, width: f32, font_size: f32) -> TextItem {
    TextItem {
        rotation: f(0.0),
        advance_known: true,
        text: text.into(),
        x: f(x),
        y: f(y),
        width: f(width),
        height: f(font_size),
        font: "F1".into(),
        font_tag: String::new(),
        legacy_symbol_rewrite: false,
        font_size: f(font_size),
        page: 1,
        is_bold: false,
        is_italic: false,
        is_underline: false,
        is_strikeout: false,
        item_type: ItemType::Text,
        mcid: None,
        baseline_shift: f(0.0),
    }
}

fn make_merge_item(text: &str, x: f32, width: f32) -> TextItem {
    make_item_fs(text, x, 700.0, width, 12.0)
}

fn texts(items: &[TextItem]) -> Vec<&str> {
    items.iter().map(|i| i.text.as_str()).collect()
}

#[test]
fn script_merge_keeps_rewrite_evidence_from_every_contributor() {
    let clean = make_item_fs("A", 20.0, 100.0, 6.0, 10.0);
    let mut digit = make_item_fs("1", 26.0, 103.0, 3.0, 5.0);
    digit.legacy_symbol_rewrite = true;
    let merged = merge_subscript_items(vec![clean, digit]);
    assert_eq!(merged.len(), 1);
    assert_eq!(merged[0].text, "A¹");
    assert!(merged[0].legacy_symbol_rewrite);
}

// ---- fusion ----

#[test]
fn test_merge_subscript_items_chemical_formula() {
    // NH₃: "NH" at fs=8 followed by subscript "3" at fs=4.7
    let items = vec![
        make_item_fs("NH", 78.0, 499.0, 12.0, 8.0),
        make_item_fs("3", 90.0, 496.0, 2.3, 4.7),
        make_item_fs("Cl", 100.0, 499.0, 7.0, 8.0),
    ];
    let merged = merge_subscript_items(items);
    assert_eq!(merged.len(), 2);
    // Lowered baseline → Unicode subscript form (NFKC folds back to "NH3")
    assert_eq!(merged[0].text, "NH₃");
    assert_eq!(merged[1].text, "Cl");
}

#[test]
fn test_merge_subscript_items_h2o() {
    // H₂O: "H" then subscript "2" then "O"
    let items = vec![
        make_item_fs("H", 250.0, 499.0, 5.0, 8.0),
        make_item_fs("2", 255.0, 496.0, 2.3, 4.7),
        make_item_fs("O", 257.5, 499.0, 6.0, 8.0),
    ];
    let merged = merge_subscript_items(items);
    assert_eq!(merged.len(), 2);
    assert_eq!(merged[0].text, "H₂");
    assert_eq!(merged[1].text, "O");
}

#[test]
fn test_merge_subscript_items_raised_marker_becomes_superscript() {
    // Footnote reference: "word" followed by a RAISED small "2" → word²
    let mut marker = make_item_fs("2", 90.0, 502.5, 2.3, 4.7);
    marker.y = f(502.5); // raised above the 499.0 parent baseline
    let items = vec![make_item_fs("word", 78.0, 499.0, 12.0, 8.0), marker];
    let merged = merge_subscript_items(items);
    assert_eq!(merged.len(), 1);
    assert_eq!(merged[0].text, "word²");
}

#[test]
fn test_merge_subscript_items_no_merge_far_gap() {
    // Subscript-sized item that's far from the parent should NOT merge
    let items = vec![
        make_item_fs("Text", 78.0, 499.0, 20.0, 8.0),
        make_item_fs("▶", 120.0, 498.0, 3.0, 3.7),
    ];
    let merged = merge_subscript_items(items);
    assert_eq!(merged.len(), 2);
    assert_eq!(merged[0].text, "Text");
    assert_eq!(merged[1].text, "▶");
}

#[test]
fn test_merge_subscript_items_no_merge_long_text() {
    // Long subscript-sized text should NOT merge (not a true subscript)
    let items = vec![
        make_item_fs("Title", 78.0, 499.0, 30.0, 8.0),
        make_item_fs("footnote", 108.0, 496.0, 20.0, 4.7),
    ];
    let merged = merge_subscript_items(items);
    assert_eq!(merged.len(), 2);
}

#[test]
fn test_merge_subscript_items_no_merge_same_font_size() {
    // Same font size items should NOT be treated as subscripts
    let items = vec![
        make_item_fs("NH", 78.0, 499.0, 12.0, 8.0),
        make_item_fs("3", 90.0, 496.0, 2.3, 8.0),
    ];
    let merged = merge_subscript_items(items);
    assert_eq!(merged.len(), 2);
}

#[test]
fn test_merge_subscript_items_no_merge_non_numeric() {
    // Non-numeric subscript text (e.g. "sol", "º", "vf") should NOT merge
    let items = vec![
        make_item_fs("∆", 200.0, 639.0, 5.5, 8.0),
        make_item_fs("sol", 205.8, 636.9, 5.7, 4.7),
    ];
    let merged = merge_subscript_items(items);
    assert_eq!(merged.len(), 2);
    assert_eq!(merged[0].text, "∆");
    assert_eq!(merged[1].text, "sol");
}

#[test]
fn test_merge_subscript_items_no_merge_parent_ends_with_digit() {
    // "33" + "1" in "33 1/3%" — parent ends with digit, should NOT merge
    let items = vec![
        make_item_fs("33", 78.0, 499.0, 10.0, 8.0),
        make_item_fs("1", 88.0, 496.0, 2.3, 4.7),
    ];
    let merged = merge_subscript_items(items);
    assert_eq!(merged.len(), 2);
    assert_eq!(merged[0].text, "33");
    assert_eq!(merged[1].text, "1");
}

#[test]
fn test_merge_subscript_items_no_merge_parent_ends_with_space() {
    // "Health " + "1" — parent ends with space (table credit), should NOT merge
    let items = vec![
        make_item_fs("Health ", 78.0, 499.0, 30.0, 8.0),
        make_item_fs("1", 108.0, 496.0, 2.3, 4.7),
    ];
    let merged = merge_subscript_items(items);
    assert_eq!(merged.len(), 2);
}

#[test]
fn subscript_digit_with_different_marks_is_not_absorbed() {
    // A struck-out word followed by an unmarked footnote digit: merging
    // would widen the parent's strikeout claim over the digit (and the
    // reverse would drop the digit's own mark). Style boundaries break
    // the merge, as in merge_text_items.
    let mut word = make_merge_item("word", 100.0, 24.0);
    word.font_size = f(10.0);
    word.is_strikeout = true;
    let mut digit = make_merge_item("2", 124.5, 4.0);
    digit.font_size = f(6.0);
    digit.y = word.y.plus(f(3.0));

    let merged = merge_subscript_items(vec![copy_item(&word), copy_item(&digit)]);
    assert_eq!(merged.len(), 2);

    // Same marks still merge (footnote ref inside the strike).
    digit.is_strikeout = true;
    let merged = merge_subscript_items(vec![word, digit]);
    assert_eq!(merged.len(), 1);
    assert!(merged[0].text.starts_with("word"));
}

// ---- multi-glyph runs, leading markers, anchors ----

#[test]
fn multi_glyph_marker_run_is_coalesced_and_flagged() {
    // Author block: "Yibo Yan" at 11.96pt, markers at 7.97pt raised 4.3pt,
    // the commas as separate glyphs; then the body comma and next name.
    let items = vec![
        make_item_fs("Yibo Yan", 72.0, 700.0, 48.5, 11.96),
        make_item_fs("1", 120.5, 704.3, 4.4, 7.97),
        make_item_fs(",", 124.9, 704.3, 2.0, 7.97),
        make_item_fs("2", 126.9, 704.3, 4.4, 7.97),
        make_item_fs(",", 131.3, 700.0, 3.3, 11.96),
        make_item_fs("Jiahao Huo", 137.9, 700.0, 60.0, 11.96),
    ];
    let merged = merge_subscript_items(items);
    assert_eq!(texts(&merged), vec!["Yibo Yan", "1,2", ",", "Jiahao Huo"]);
    let run = &merged[1];
    assert!((v(run.baseline_shift) - 4.3).abs() < 1e-3, "{run:?}");
    assert!((v(run.line_y()) - 700.0).abs() < 1e-3);
    assert!((v(run.x) - 120.5).abs() < 1e-3);
    assert!(
        (v(run.x) + v(run.width) - 131.3).abs() < 1e-3,
        "run spans all glyphs"
    );
    assert!(merged.iter().filter(|i| i.is_script()).count() == 1);
}

#[test]
fn leading_digit_marker_fuses_into_following_word() {
    let items = vec![
        make_item_fs("1", 72.0, 653.5, 3.9, 6.97),
        make_item_fs("Hong Kong University", 75.9, 650.0, 100.0, 9.96),
    ];
    let merged = merge_subscript_items(items);
    assert_eq!(texts(&merged), vec!["¹Hong Kong University"]);
    assert!(
        (v(merged[0].x) - 72.0).abs() < 1e-3,
        "fused item starts at the marker"
    );
    assert!(!merged[0].is_script());
}

#[test]
fn leading_mixed_run_is_flagged_not_fused() {
    let items = vec![
        make_item_fs("3", 72.0, 640.5, 3.9, 6.97),
        make_item_fs(",", 75.9, 640.5, 1.7, 6.97),
        make_item_fs("4", 77.6, 640.5, 3.9, 6.97),
        make_item_fs("Some Institute", 81.5, 637.0, 70.0, 9.96),
    ];
    let merged = merge_subscript_items(items);
    assert_eq!(texts(&merged), vec!["3,4", "Some Institute"]);
    assert!((v(merged[0].baseline_shift) - 3.5).abs() < 1e-3);
}

#[test]
fn marker_after_closing_punctuation_fuses() {
    let items = vec![
        make_item_fs("sentence.", 72.0, 500.0, 45.0, 10.0),
        make_item_fs("2", 117.0, 503.5, 3.6, 6.5),
    ];
    let merged = merge_subscript_items(items);
    assert_eq!(texts(&merged), vec!["sentence.²"]);
}

#[test]
fn marker_after_digits_is_flagged_not_fused() {
    // "$1,234" + raised "1": gluing would corrupt the number, so the
    // marker stays a separate flagged item ("$1,234<sup>1</sup>").
    let items = vec![
        make_item_fs("$1,234", 72.0, 500.0, 33.0, 10.0),
        make_item_fs("1", 105.0, 503.5, 3.6, 6.5),
    ];
    let merged = merge_subscript_items(items);
    assert_eq!(texts(&merged), vec!["$1,234", "1"]);
    assert!(merged[1].is_script() && v(merged[1].baseline_shift) > 0.0);
}

#[test]
fn symbol_marker_beyond_the_rough_line_window_still_attaches() {
    // 16pt title, 10.6pt asterisk raised 6.5pt — past the 5pt rough
    // grouping window, so detection must be geometric.
    let items = vec![
        make_item_fs("A Fixture Title", 72.0, 730.0, 98.7, 16.0),
        make_item_fs("*", 170.7, 736.5, 4.1, 10.6),
    ];
    let merged = merge_subscript_items(items);
    assert_eq!(texts(&merged), vec!["A Fixture Title", "*"]);
    assert!((v(merged[1].baseline_shift) - 6.5).abs() < 1e-3);
}

#[test]
fn level_small_run_is_not_a_script() {
    // Small caps: shrunken capitals on the SAME baseline are not a script.
    let items = vec![
        make_item_fs("R", 100.0, 500.0, 7.0, 9.98),
        make_item_fs("OLAN", 107.0, 500.0, 18.0, 6.74),
    ];
    let merged = merge_subscript_items(items);
    assert_eq!(texts(&merged), vec!["R", "OLAN"]);
    assert!(merged.iter().all(|i| !i.is_script()));
}

#[test]
fn bullet_glyph_is_not_a_script() {
    let items = vec![
        make_item_fs("•", 72.0, 501.5, 3.5, 7.0),
        make_item_fs("Item text", 76.0, 500.0, 40.0, 10.0),
    ];
    let merged = merge_subscript_items(items);
    assert_eq!(texts(&merged), vec!["•", "Item text"]);
    assert!(merged.iter().all(|i| !i.is_script()));
}

#[test]
fn drop_cap_body_text_is_not_a_script() {
    // Three-line drop cap: the body words beside it are far smaller than
    // the ratio window allows and too long to be markers.
    let items = vec![
        make_item_fs("T", 72.0, 500.0, 20.0, 30.0),
        make_item_fs("he", 92.0, 512.0, 10.0, 10.0),
        make_item_fs("court held", 104.0, 512.0, 45.0, 10.0),
    ];
    let merged = merge_subscript_items(items);
    assert_eq!(merged.len(), 3);
    assert!(merged.iter().all(|i| !i.is_script()));
}

#[test]
fn separate_word_after_space_is_not_a_script() {
    // A small item a word space away is a separate word, not a marker.
    let items = vec![
        make_item_fs("Total", 72.0, 500.0, 24.0, 10.0),
        make_item_fs("2", 79.5 + 24.0, 503.0, 3.6, 6.5),
    ];
    let merged = merge_subscript_items(items);
    assert_eq!(texts(&merged), vec!["Total", "2"]);
    assert!(!merged[1].is_script());
}

#[test]
fn nested_script_shift_is_measured_from_the_body_baseline() {
    // "x" + superscript "2" (fused into the word) + a smaller "n" riding
    // on the "2": the suffix is flagged, never fused into the removed
    // digit, and its shift is relative to the body baseline so it stays
    // on the body line.
    let items = vec![
        make_item_fs("x", 100.0, 500.0, 5.0, 10.0),
        make_item_fs("2", 105.0, 503.5, 3.6, 6.5),
        make_item_fs("n", 108.6, 506.0, 2.4, 4.5),
    ];
    let merged = merge_subscript_items(items);
    assert_eq!(texts(&merged), vec!["x²", "n"]);
    assert!(
        (v(merged[1].baseline_shift) - 6.0).abs() < 1e-3,
        "{:?}",
        merged[1]
    );
    assert!((v(merged[1].line_y()) - 500.0).abs() < 1e-3);
}

#[test]
fn fusion_spans_the_union_of_word_and_marker() {
    // A kerned marker ending inside the word's advance must not shrink
    // the fused item.
    let items = vec![
        make_item_fs("word", 78.0, 499.0, 12.0, 8.0),
        make_item_fs("2", 87.0, 502.5, 2.0, 4.7),
    ];
    let merged = merge_subscript_items(items);
    assert_eq!(texts(&merged), vec!["word²"]);
    assert!((v(merged[0].width) - 12.0).abs() < 1e-3, "{}", v(merged[0].width));
    // Leading marker starting inside the word's box keeps the word's x.
    let items = vec![
        make_item_fs("1", 76.5, 653.5, 3.9, 6.97),
        make_item_fs("Hong Kong", 75.9, 650.0, 50.0, 9.96),
    ];
    let merged = merge_subscript_items(items);
    assert_eq!(texts(&merged), vec!["¹Hong Kong"]);
    assert!((v(merged[0].x) - 75.9).abs() < 1e-3);
    assert!((v(merged[0].width) - 50.0).abs() < 1e-3);
}

#[test]
fn output_order_follows_rough_lines_sorted_by_x() {
    // Ordering contract: 5pt rough groups in discovery order, x-sorted
    // within.
    let items = vec![
        make_item_fs("b", 200.0, 500.0, 5.0, 10.0),
        make_item_fs("a", 100.0, 500.0, 5.0, 10.0),
        make_item_fs("second", 100.0, 480.0, 30.0, 10.0),
    ];
    let merged = merge_subscript_items(items);
    assert_eq!(texts(&merged), vec!["a", "b", "second"]);
}

#[test]
fn script_digits_have_their_own_characters() {
    assert_eq!(map_script_digits("0123456789", true), "⁰¹²³⁴⁵⁶⁷⁸⁹");
    assert_eq!(map_script_digits("0123456789", false), "₀₁₂₃₄₅₆₇₈₉");
    assert_eq!(map_script_digits("a1,b", true), "a¹,b");
}

#[test]
fn script_glyphs_are_digits_and_markers() {
    assert!(is_script_glyph_text("12"));
    assert!(is_script_glyph_text("1,2"));
    assert!(!is_script_glyph_text("footnote"));
    assert!(is_script_marker_symbol('*'));
    assert!(!is_script_marker_symbol('a'));
    assert!(is_script_participant(&make_merge_item("word", 0.0, 10.0)));
    assert!(!is_script_participant(&make_merge_item("  ", 0.0, 10.0)));
}

#[test]
fn digits_fuse_only_to_letters() {
    assert!(fusable_anchor_edge(&make_merge_item("word", 0.0, 10.0), true));
    assert!(!fusable_anchor_edge(&make_merge_item("33", 0.0, 10.0), true));
    assert!(!fusable_anchor_edge(&make_merge_item("word ", 0.0, 10.0), true));
}

#[test]
fn detected_runs_are_applied_one_by_one() {
    let items = vec![
        make_item_fs("NH", 78.0, 499.0, 12.0, 8.0),
        make_item_fs("3", 90.0, 496.0, 2.3, 4.7),
    ];
    let runs = detect_script_runs(&items);
    assert_eq!(runs.len(), 1);
    let applied = apply_script_runs(items, &runs);
    assert_eq!(texts(&applied), vec!["NH₃"]);
}

#[test]
fn merging_keeps_every_character() {
    let plain = |c: char| match c {
        '\u{b9}' => '1',
        '\u{2082}' => '2',
        c => c,
    };
    let characters = |items: &[TextItem]| {
        let mut all: Vec<char> = items.iter().flat_map(|item| item.text.chars()).map(plain).collect();
        all.sort_unstable();
        all
    };
    let items = vec![
        make_item_fs("Wang", 20.0, 100.0, 24.0, 10.0),
        make_item_fs("1", 44.0, 103.0, 3.0, 5.0),
        make_item_fs("H", 100.0, 100.0, 6.0, 10.0),
        make_item_fs("2", 106.0, 97.0, 3.0, 5.0),
        make_item_fs("Chen", 200.0, 100.0, 24.0, 10.0),
        make_item_fs("a", 224.0, 103.0, 3.0, 5.0),
        make_item_fs("b", 227.0, 103.0, 3.0, 5.0),
    ];
    let before = characters(&items);
    let merged = merge_subscript_items(items);
    assert!(merged.len() < 7);
    assert_eq!(characters(&merged), before);
}
