use pdf_inspector::markdown::preprocess::{
    effective_heading_level, merge_drop_caps, merge_heading_lines, LineAnalysis, RoleEntry, StructRole,
};
use pdf_inspector::single::Single;
use pdf_inspector::types::{ItemType, TextItem, TextLine};

fn f(x: f32) -> Single {
    Single { bits: x.to_bits() }
}

fn make_item(text: &str, font_size: f32, mcid: Option<i64>) -> TextItem {
    TextItem {
        text: text.to_string(),
        x: f(0.0),
        y: f(0.0),
        width: f(100.0),
        height: f(font_size),
        font: "TestFont".to_string(),
        font_tag: String::new(),
        legacy_symbol_rewrite: false,
        font_size: f(font_size),
        page: 1,
        is_bold: false,
        is_italic: false,
        is_underline: false,
        is_strikeout: false,
        rotation: f(0.0),
        advance_known: true,
        item_type: ItemType::Text,
        mcid,
        baseline_shift: f(0.0),
    }
}

fn line_of(items: Vec<TextItem>, page: u32, y: f32) -> TextLine {
    TextLine { items, y: f(y), page, adaptive_threshold: f(0.10), joined: Vec::new() }
}

fn make_line(text: &str, font_size: f32, page: u32, y: f32, mcid: Option<i64>) -> TextLine {
    line_of(vec![make_item(text, font_size, mcid)], page, y)
}


/// Levels by the size of the tiers. A bold line is one level higher.
struct Tiers;

impl LineAnalysis for Tiers {
    fn line_is_mostly_bold(&self, line: &TextLine) -> bool {
        let bold: usize = line.items.iter().filter(|item| item.is_bold).map(|item| item.text.len()).sum();
        2 * bold > line.items.iter().map(|item| item.text.len()).sum()
    }

    fn detect_header_level(
        &self,
        font_size: Single,
        _base_size: Single,
        heading_tiers: &Vec<Single>,
        is_bold: bool,
    ) -> Option<usize> {
        let level = heading_tiers.iter().position(|tier| *tier == font_size)? + 1;
        Some(if is_bold { level.max(2) - 1 } else { level })
    }
}

#[test]
fn drop_cap_merge_preserves_evidence_from_either_source() {
    for (body_marked, cap_marked) in [(false, false), (true, false), (false, true)] {
        let mut body = make_line("elcome", 12.0, 1, 700.0, None);
        body.items[0].legacy_symbol_rewrite = body_marked;
        let mut cap = make_line("W", 36.0, 1, 680.0, None);
        cap.items[0].legacy_symbol_rewrite = cap_marked;

        let result = merge_drop_caps(vec![body, cap], f(12.0));
        assert_eq!(result.len(), 1);
        assert_eq!(result[0].text(), "Welcome");
        assert_eq!(
            result[0].items[0].legacy_symbol_rewrite,
            body_marked || cap_marked
        );
    }
}

#[test]
fn test_merge_struct_tree_headings() {
    // Two consecutive lines tagged as H2 via struct tree, same font size as body
    let lines = vec![
        make_line(
            "Historical Context for Operations in Snow",
            12.0,
            1,
            700.0,
            Some(10),
        ),
        make_line("Lake District", 12.0, 1, 686.0, Some(11)),
        make_line("Body text paragraph.", 12.0, 1, 660.0, Some(12)),
    ];

    let mut roles = Vec::new();
    roles.push(RoleEntry { page: 1, mcid: 10, role: StructRole::H2 });
    roles.push(RoleEntry { page: 1, mcid: 11, role: StructRole::H2 });
    roles.push(RoleEntry { page: 1, mcid: 12, role: StructRole::Other });

    let result = merge_heading_lines(&Tiers, lines, f(12.0), &Vec::new(), &roles);
    assert_eq!(result.len(), 2, "should merge two H2 lines into one");
    let merged_text = result[0].text();
    assert!(
        merged_text.contains("Snow") && merged_text.contains("Lake"),
        "merged heading should contain both fragments: {merged_text}"
    );
}

#[test]
fn test_no_merge_different_struct_levels() {
    // Two consecutive lines tagged as different heading levels
    let lines = vec![
        make_line("Chapter 1", 12.0, 1, 700.0, Some(10)),
        make_line("Introduction", 12.0, 1, 686.0, Some(11)),
    ];

    let mut roles = Vec::new();
    roles.push(RoleEntry { page: 1, mcid: 10, role: StructRole::H1 });
    roles.push(RoleEntry { page: 1, mcid: 11, role: StructRole::H2 });

    let result = merge_heading_lines(&Tiers, lines, f(12.0), &Vec::new(), &roles);
    assert_eq!(result.len(), 2, "should not merge different heading levels");
}

#[test]
fn test_no_merge_heading_with_body() {
    // A heading line followed by a body paragraph line
    let lines = vec![
        make_line("Introduction", 12.0, 1, 700.0, Some(10)),
        make_line("This is body text.", 12.0, 1, 686.0, Some(11)),
    ];

    let mut roles = Vec::new();
    roles.push(RoleEntry { page: 1, mcid: 10, role: StructRole::H1 });
    roles.push(RoleEntry { page: 1, mcid: 11, role: StructRole::Other });

    let result = merge_heading_lines(&Tiers, lines, f(12.0), &Vec::new(), &roles);
    assert_eq!(result.len(), 2, "should not merge heading with body text");
}

#[test]
fn test_merge_font_headings_still_works() {
    // Font sizes alone decide where there are no struct roles
    let lines = vec![
        make_line("A Very Long Heading That", 18.0, 1, 700.0, None),
        make_line("Wraps to Next Line", 18.0, 1, 682.0, None),
        make_line("Body text.", 12.0, 1, 660.0, None),
    ];

    let heading_tiers = vec![f(18.0)];
    let result = merge_heading_lines(&Tiers, lines, f(12.0), &heading_tiers, &Vec::new());
    assert_eq!(result.len(), 2, "should merge font-based heading lines");
}

fn make_bold_line(text: &str, page: u32, y: f32) -> TextLine {
    let mut item = make_item(text, 12.0, None);
    item.is_bold = true;
    line_of(vec![item], page, y)
}

#[test]
fn merge_wrapped_bold_heading_lowercase_continuation() {
    // Bold-at-body-size heading wrapped across two lines: the second line
    // starts lowercase and must merge into the first.
    let lines = vec![
        make_bold_line(
            "3. Perspective of supply and demand balance and cost",
            1,
            700.0,
        ),
        make_bold_line("structure in Japan", 1, 686.0),
        make_line("Body text paragraph follows here.", 12.0, 1, 660.0, None),
    ];
    let result = merge_heading_lines(&Tiers, lines, f(12.0), &Vec::new(), &Vec::new());
    assert_eq!(result.len(), 2, "wrapped bold heading should merge");
    assert!(result[0].text().contains("cost structure in Japan"));
}

#[test]
fn no_merge_for_bold_sentences_or_new_headings() {
    // Second bold line starts with a capital — a new heading or label,
    // not a wrap continuation.
    let lines = vec![
        make_bold_line("Replace", 1, 700.0),
        make_bold_line("Trash", 1, 686.0),
    ];
    let result = merge_heading_lines(&Tiers, lines, f(12.0), &Vec::new(), &Vec::new());
    assert_eq!(result.len(), 2, "distinct bold lines must not merge");

    // Previous line ends a sentence — continuation must not merge.
    let lines = vec![
        make_bold_line("This is a bold sentence.", 1, 700.0),
        make_bold_line("another bold line", 1, 686.0),
    ];
    let result = merge_heading_lines(&Tiers, lines, f(12.0), &Vec::new(), &Vec::new());
    assert_eq!(result.len(), 2, "sentence-final bold line must not merge");
}

#[test]
fn tiered_bold_heading_does_not_absorb_bold_body() {
    // Previous line is a tier-level bold heading (16pt vs 12pt body);
    // a following lowercase bold body line must NOT merge into it.
    let mut heading = make_bold_line("Section Title", 1, 700.0);
    heading.items[0].font_size = f(16.0);
    heading.items[0].height = f(16.0);
    let lines = vec![
        heading,
        make_bold_line("emphasized body text continues here", 1, 686.0),
    ];
    let result = merge_heading_lines(&Tiers, lines, f(12.0), &vec![f(16.0)], &Vec::new());
    assert_eq!(result.len(), 2, "tiered heading must not absorb bold body");
}

#[test]
fn structure_roles_come_before_font_levels() {
    let line = make_line("Chapter", 18.0, 1, 700.0, Some(4));
    let roles = vec![RoleEntry { page: 1, mcid: 4, role: StructRole::H3 }];
    let level = |line: &TextLine, tiers: Vec<Single>, roles: &Vec<RoleEntry>| {
        effective_heading_level(&Tiers, line, f(12.0), &tiers, roles)
    };
    assert_eq!(level(&line, vec![f(18.0)], &roles), Some(3));
    assert_eq!(level(&line, vec![f(18.0)], &Vec::new()), Some(1));
    assert_eq!(level(&line, vec![f(24.0), f(18.0)], &Vec::new()), Some(2));
    let other = vec![RoleEntry { page: 2, mcid: 4, role: StructRole::H3 }];
    assert_eq!(level(&line, Vec::new(), &other), None);
    assert_eq!(StructRole::H.heading_level(), Some(1));
    assert_eq!(StructRole::H6.heading_level(), Some(6));
    assert_eq!(StructRole::Other.heading_level(), None);
}

#[test]
fn headings_do_not_run_over_a_page_end() {
    let lines = vec![
        make_line("A Very Long Heading That", 18.0, 1, 100.0, None),
        make_line("Wraps to Next Page", 18.0, 2, 90.0, None),
    ];
    let result = merge_heading_lines(&Tiers, lines, f(12.0), &vec![f(18.0)], &Vec::new());
    assert_eq!(result.len(), 2);
}

#[test]
fn a_drop_cap_is_one_character() {
    let lines = vec![make_line("elcome", 12.0, 1, 700.0, None), make_line("AB", 36.0, 1, 680.0, None)];
    let result = merge_drop_caps(lines, f(12.0));
    assert_eq!(result.len(), 2);
    assert_eq!(result[0].text(), "elcome");
    assert_eq!(result[1].text(), "AB");
}

/// Lines of one item count as bold, and bold lines are of the first level.
struct ByItems;

impl LineAnalysis for ByItems {
    fn line_is_mostly_bold(&self, line: &TextLine) -> bool {
        line.items.len() == 1
    }

    fn detect_header_level(&self, _: Single, _: Single, _: &Vec<Single>, is_bold: bool) -> Option<usize> {
        Some(if is_bold { 1 } else { 2 })
    }
}

#[test]
fn merged_headings_get_their_level_anew() {
    let one = |text: &str, y: f32| make_line(text, 18.0, 1, y, None);
    let two = |y: f32| line_of(vec![make_item("Third", 18.0, None), make_item("line", 18.0, None)], 1, y);
    let merged = |lines: Vec<TextLine>| merge_heading_lines(&ByItems, lines, f(12.0), &Vec::new(), &Vec::new()).len();
    // A line of the second level does not continue one of the first.
    assert_eq!(merged(vec![one("First", 700.0), two(685.0)]), 2);
    // Merged, the first two lines are of the second level, and the third
    // continues them.
    assert_eq!(merged(vec![one("First", 700.0), one("Second", 685.0), two(670.0)]), 1);
}
