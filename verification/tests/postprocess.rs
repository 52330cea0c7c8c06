use pdf_inspector::markdown::postprocess::{
    clean_markdown, collapse_consecutive_spaces, collapse_dot_leaders, dehyphenate_line_breaks, fix_hyphenation, format_urls, remove_page_numbers,
    remove_spaces_before_closing_brackets, remove_spaces_before_sentence_punctuation,
};
use pdf_inspector::markdown::{MarkdownOptions, MarkdownProfile};
use pdf_inspector::text_utils::is_page_number_line;

#[test]
fn fidelity_profile_preserves_dot_leaders() {
    let input = "Introduction............................1".to_string();
    let result = clean_markdown(input.clone(), &MarkdownOptions::default());
    assert_eq!(result, format!("{input}\n"));
}

#[test]
fn compact_profile_collapses_dot_leaders() {
    let input = "Introduction............................1".to_string();
    let options = MarkdownOptions {
        profile: MarkdownProfile::Compact,
        ..MarkdownOptions::default()
    };
    assert_eq!(clean_markdown(input, &options), "Introduction ... 1\n");
}

// --- collapse_dot_leaders ---

#[test]
fn test_collapse_dot_leaders_four_or_more_dots() {
    assert_eq!(
        collapse_dot_leaders("Introduction............................1"),
        "Introduction ... 1"
    );
}

#[test]
fn test_collapse_dot_leaders_three_dots_unchanged() {
    assert_eq!(collapse_dot_leaders("wait...what"), "wait...what");
}

#[test]
fn test_collapse_dot_leaders_no_dots() {
    assert_eq!(collapse_dot_leaders("Hello World"), "Hello World");
}

#[test]
fn test_collapse_dot_leaders_mixed() {
    let input = "Chapter 1.......10\nSome text... ok\nChapter 2........20";
    let result = collapse_dot_leaders(input);
    assert!(result.contains("Chapter 1 ... 10"));
    assert!(result.contains("Some text... ok"));
    assert!(result.contains("Chapter 2 ... 20"));
}

// --- remove_spaces_before_closing_brackets ---

#[test]
fn test_remove_spaces_before_closing_brackets() {
    let mut input = "Density [kg/m3 ] and [linked text ](https://example.com)".to_string();
    remove_spaces_before_closing_brackets(&mut input);
    assert_eq!(
        input,
        "Density [kg/m3] and [linked text](https://example.com)"
    );
}

// --- remove_spaces_before_sentence_punctuation ---

#[test]
fn strips_space_before_trailing_period() {
    let mut t = "Foreign insurance companies . The provisions".to_string();
    remove_spaces_before_sentence_punctuation(&mut t);
    assert_eq!(t, "Foreign insurance companies. The provisions");
}

#[test]
fn strips_space_before_period_at_cell_boundary() {
    let mut t = "|Applicability date .|This section|".to_string();
    remove_spaces_before_sentence_punctuation(&mut t);
    assert_eq!(t, "|Applicability date.|This section|");
}

#[test]
fn keeps_dot_leaders_and_ellipses() {
    let mut t = "Introduction ... 1".to_string();
    remove_spaces_before_sentence_punctuation(&mut t);
    assert_eq!(t, "Introduction ... 1");
}

#[test]
fn keeps_mid_token_periods() {
    let mut t = "version 3 .14 released".to_string();
    remove_spaces_before_sentence_punctuation(&mut t);
    assert_eq!(t, "version 3 .14 released");
}

// --- dehyphenate_line_breaks ---

#[test]
fn line_break_joins_plain_on_vocabulary_evidence() {
    // "defendant" appears whole elsewhere, so the broken form joins plain.
    let text = "The defendant appeared. The de- fendant argued.";
    assert_eq!(
        dehyphenate_line_breaks(text),
        "The defendant appeared. The defendant argued."
    );
}

#[test]
fn line_break_keeps_hyphen_on_hyphenated_evidence() {
    // "six-month" appears hyphenated elsewhere, so the broken form keeps it.
    let text = "A six-month term. After a six- month delay.";
    assert_eq!(
        dehyphenate_line_breaks(text),
        "A six-month term. After a six-month delay."
    );
}

#[test]
fn no_evidence_leaves_the_break_untouched() {
    // Without document evidence a join cannot be distinguished from
    // interleaved-column noise; the visible break is kept.
    let text = "The evi- dence was clear.";
    assert_eq!(dehyphenate_line_breaks(text), text);
}

#[test]
fn line_break_keeps_hyphen_before_capitalized_continuation() {
    // Broken compounds: "Third-Party", "Hinds-Radix".
    let text = "The Third- Party complaint by Hinds- Radix.";
    assert_eq!(
        dehyphenate_line_breaks(text),
        "The Third-Party complaint by Hinds-Radix."
    );
}

#[test]
fn cyrillic_words_join_on_evidence() {
    // The word class is Unicode-wide, not a hard-coded Latin subset.
    let text = "Это решение важно. Это реше- ние суда.";
    assert_eq!(
        dehyphenate_line_breaks(text),
        "Это решение важно. Это решение суда."
    );
}

#[test]
fn double_spaced_breaks_join_through_clean_markdown() {
    // Space collapsing runs before hyphenation, so a break that arrives
    // with two spaces ("de-  fendant") still rejoins.
    let options = MarkdownOptions::default();
    let out = clean_markdown(
        "The defendant appeared. The de-  fendant argued.".to_string(),
        &options,
    );
    assert_eq!(
        out.trim_end(),
        "The defendant appeared. The defendant argued."
    );
}

#[test]
fn code_block_identifiers_are_not_vocabulary_evidence() {
    // A fused identifier in code must not justify fusing unrelated prose.
    let text = "```\nlet comreal = 1;\n```\nThe com- real estate story.";
    assert_eq!(dehyphenate_line_breaks(text), text);
}

#[test]
fn fused_column_noise_is_not_joined() {
    // Interleaved-column garbage arrives already fused; joining across
    // its breaks would compound the damage. Real syllable fragments are
    // short; fragments this long are left exactly as they are.
    let text = "spreadswerenegativeintheearlytomid- seriouslyflawedduetoappraisallags";
    assert_eq!(dehyphenate_line_breaks(text), text);
    // Long German compounds stay under the length gate and join on
    // vocabulary evidence.
    let german =
        "Das Bundesausbildungsförderungsgesetz. Das Bundesausbildungsförderungs- gesetz gilt.";
    assert_eq!(
        dehyphenate_line_breaks(german),
        "Das Bundesausbildungsförderungsgesetz. Das Bundesausbildungsförderungsgesetz gilt."
    );
}

#[test]
fn no_evidence_compounds_stay_visibly_broken() {
    // No hard-coded suffix list: without document evidence even a likely
    // compound keeps its visible break. A curated list would be
    // English-only, of unfalsifiable membership, and able to invent
    // hyphens ("proto- type" -> "proto-type").
    let text = "Their world- class support and proto- type systems.";
    assert_eq!(dehyphenate_line_breaks(text), text);
}

#[test]
fn both_fragments_being_words_keeps_the_hyphen() {
    // "commercial-type insurance": no evidence either way, but both
    // fragments are words the document uses, so this is a compound.
    let text = "Any commercial firm of this type offering commercial- type insurance.";
    assert_eq!(
        dehyphenate_line_breaks(text),
        "Any commercial firm of this type offering commercial-type insurance."
    );
}

#[test]
fn suspended_hyphen_is_preserved() {
    // "mid- to long-term": joining would fuse unrelated words. No
    // conjunction list is involved — conjunctions are 1-3 letters in
    // essentially every language, and the compound rule requires a
    // 4-letter continuation, so suspended hyphens fall through to Keep.
    let text = "Planned over the mid- to long-term horizon, in- and out-of-possession.";
    assert_eq!(dehyphenate_line_breaks(text), text);
    // Same construction in German, which a hard-coded English list
    // would have missed. "klein" appears standalone so it IS in the
    // vocabulary — only the length floor (continuation "und" has three
    // letters) keeps the compound rule from fusing "klein-und".
    let german = "Das klein geschriebene Wort und die klein- und mittelgroßen Betriebe.";
    assert_eq!(dehyphenate_line_breaks(german), german);
}

#[test]
fn split_emphasis_span_joins_inside_markers() {
    // Vocabulary evidence ("Baptist", "Consolidated" elsewhere) drives
    // the join; the split emphasis markers collapse with it.
    let text = "The Baptist and Consolidated cases. By **Bap-** **tist** pastors and *Consoli-* *dated* Edison.";
    assert_eq!(
        dehyphenate_line_breaks(text),
        "The Baptist and Consolidated cases. By **Baptist** pastors and *Consolidated* Edison."
    );
}

#[test]
fn mismatched_emphasis_markers_are_left_alone() {
    let text = "Odd **Bap-** *tist* markers.";
    assert_eq!(dehyphenate_line_breaks(text), text);
}

#[test]
fn chained_breaks_join_stepwise_with_evidence() {
    // A word broken twice joins across passes when each junction has
    // vocabulary evidence for its intermediate form.
    let text = "The word unconstitutional, and unconstitu appears too: unconsti- tu- tional.";
    assert_eq!(
        dehyphenate_line_breaks(text),
        "The word unconstitutional, and unconstitu appears too: unconstitutional."
    );
}

#[test]
fn table_rows_and_code_blocks_are_untouched() {
    let text =
        "The defendant.\n|de- fendant|value|\n```\nlet x = de- fendant;\n```\nThe de- fendant won.";
    assert_eq!(
        dehyphenate_line_breaks(text),
        "The defendant.\n|de- fendant|value|\n```\nlet x = de- fendant;\n```\nThe defendant won."
    );
}

#[test]
fn accented_words_join() {
    // Spanish syllable break with accented continuation, evidence-backed.
    let text = "Una resolución firme. La resolu- ción fue clara.";
    assert_eq!(
        dehyphenate_line_breaks(text),
        "Una resolución firme. La resolución fue clara."
    );
}

// --- fix_hyphenation ---

#[test]
fn test_fix_hyphenation_spaced_hyphen() {
    assert_eq!(fix_hyphenation("Limoeiro - Norte"), "Limoeiro-Norte");
}

#[test]
fn test_fix_hyphenation_list_item_unchanged() {
    assert_eq!(
        fix_hyphenation("- item one\n- item two"),
        "- item one\n- item two"
    );
}

#[test]
fn test_fix_hyphenation_accented_chars() {
    assert_eq!(fix_hyphenation("São - Paulo"), "São-Paulo");
}

#[test]
fn test_fix_hyphenation_multiple_instances() {
    assert_eq!(
        fix_hyphenation("one - two and three - four"),
        "one-two and three-four"
    );
}

// --- is_page_number_line ---

#[test]
fn test_is_page_number_digits_1_to_4() {
    assert!(is_page_number_line("1"));
    assert!(is_page_number_line("42"));
    assert!(is_page_number_line("123"));
    assert!(is_page_number_line("9999"));
    assert!(!is_page_number_line("12345"));
}

#[test]
fn test_is_page_number_page_x() {
    assert!(is_page_number_line("Page 5"));
    assert!(is_page_number_line("page 12"));
    assert!(is_page_number_line("Page123"));
}

#[test]
fn test_is_page_number_page_x_of_y() {
    assert!(is_page_number_line("Page 3 of 10"));
    assert!(is_page_number_line("page 1 of 5"));
    assert!(is_page_number_line("Page 3 of 10 Report header"));
}

#[test]
fn test_is_page_number_x_of_y() {
    assert!(is_page_number_line("3 of 10"));
}

#[test]
fn test_is_page_number_centered_dash() {
    assert!(is_page_number_line("- 5 -"));
    assert!(is_page_number_line("-12-"));
}

#[test]
fn test_is_page_number_page_of() {
    assert!(is_page_number_line("Page of"));
    assert!(is_page_number_line("page of 10"));
}

#[test]
fn test_is_page_number_empty() {
    assert!(!is_page_number_line(""));
}

#[test]
fn test_is_page_number_non_match() {
    assert!(!is_page_number_line("Hello World"));
    assert!(!is_page_number_line("Chapter 1"));
    assert!(!is_page_number_line("Total: 500"));
    assert!(!is_page_number_line("PAGE0-PARA2-END-MARKER-0"));
}

#[test]
fn test_is_page_number_labeled_running_header() {
    assert!(is_page_number_line("Page 42 Chapter 5"));
    assert!(is_page_number_line("Page 42 explains the result"));
}

// --- remove_page_numbers ---

#[test]
fn test_remove_page_numbers_isolated_number() {
    let input = "Some text\n\n42\n\nMore text";
    let result = remove_page_numbers(input);
    assert!(!result.contains("\n42\n"));
    assert!(result.contains("Some text"));
    assert!(result.contains("More text"));
}

#[test]
fn test_remove_page_numbers_before_break() {
    let input = "Content\n\n5\n---\nNext page";
    let result = remove_page_numbers(input);
    assert!(!result.contains("\n5\n"));
}

#[test]
fn test_remove_page_numbers_in_context_kept() {
    let input = "Line A\nLine B\n42\nLine C\nLine D";
    let result = remove_page_numbers(input);
    assert!(result.contains("42"));
}

#[test]
fn test_remove_page_numbers_labeled_header_with_content() {
    let input = "Content\n\nPage 42 explains the result\n---\nEnd";
    let result = remove_page_numbers(input);

    assert!(!result.contains("Page 42 explains the result"));
    assert!(result.contains("Content"));
    assert!(result.contains("End"));
}

#[test]
fn test_remove_page_numbers_preserves_page_prefixed_content() {
    let input = "PAGE0-PARA2-START substantive report text PAGE0-PARA2-END-MARKER-0";
    let result = remove_page_numbers(input);

    assert_eq!(result, input);
}

#[test]
fn test_remove_page_numbers_multiple_patterns() {
    let input = "\n1\n\nContent\n\n2\n\n---\nMore\n\n3\n";
    let result = remove_page_numbers(input);
    assert!(!result.contains("\n1\n"));
    assert!(!result.contains("\n2\n"));
    assert!(!result.contains("\n3\n"));
}

#[test]
fn test_remove_page_numbers_empty() {
    assert_eq!(remove_page_numbers(""), "");
}

// --- format_urls ---

#[test]
fn test_format_urls_bare_url() {
    let result = format_urls("Visit https://example.com for info");
    assert!(result.contains("[https://example.com](https://example.com)"));
}

#[test]
fn test_format_urls_already_linked() {
    let input = "[click](https://example.com)";
    assert_eq!(format_urls(input), input);
}

#[test]
fn test_format_urls_inside_brackets() {
    let input = "[https://example.com](https://example.com)";
    let result = format_urls(input);
    assert!(!result.contains("[["));
}

#[test]
fn test_format_urls_multiple() {
    let input = "See https://a.com and https://b.com";
    let result = format_urls(input);
    assert!(result.contains("[https://a.com](https://a.com)"));
    assert!(result.contains("[https://b.com](https://b.com)"));
}

#[test]
fn test_format_urls_no_urls() {
    let input = "No links here";
    assert_eq!(format_urls(input), input);
}

fn collapsed(text: &str) -> String {
    let mut text = text.to_string();
    collapse_consecutive_spaces(&mut text);
    text
}

#[test]
fn table_rows_and_leading_lines_keep_their_spacing() {
    assert_eq!(collapsed("| a   | b |"), "| a   | b |");
    assert_eq!(collapsed("  | a   | b |\nx   y"), "  | a   | b |\nx y");
    assert_eq!(collapsed("\n\n  A  B"), "\n\n  A B");
    assert_eq!(collapsed("A   B\n\n"), "A B\n\n");
    assert_eq!(collapsed(""), "");
}

#[test]
fn cleaned_text_is_singly_spaced_behind_its_first_text() {
    let cleaned = clean_markdown("a   b\n    c  d\n| e   | f |".to_string(), &MarkdownOptions::default());
    assert_eq!(cleaned, "a b\n    c d\n| e   | f |\n");
}

#[test]
fn stranded_letters_rejoin_their_word() {
    assert_eq!(fix_hyphenation("Limoeiro do Nort e"), "Limoeiro do Norte");
    // The word stands complete elsewhere, or the letter is none that is left
    // behind.
    assert_eq!(fix_hyphenation("Limoeiro do Nort e\n\nNort"), "Limoeiro do Nort e\n\nNort");
    assert_eq!(fix_hyphenation("Limoeiro do norte e"), "Limoeiro do norte e");
    assert_eq!(fix_hyphenation("| Limoeiro do Nort e"), "| Limoeiro do Nort e");
}

#[test]
fn links_stay_and_come_off_again() {
    let text = "See https://a.com/x. Then http://b.org, and no more";
    let linked = format_urls(text);
    assert_eq!(
        linked,
        "See [https://a.com/x](https://a.com/x). Then [http://b.org](http://b.org), and no more"
    );
    assert_eq!(format_urls(&linked), linked);
    let unlinked = linked
        .replace("[https://a.com/x](https://a.com/x)", "https://a.com/x")
        .replace("[http://b.org](http://b.org)", "http://b.org");
    assert_eq!(unlinked, text);
}

#[test]
fn urls_end_where_they_can() {
    for (text, linked) in [
        ("http://a", "http://a"),
        ("http://ab", "[http://ab](http://ab)"),
        ("https://a.b...", "[https://a.b](https://a.b)..."),
        ("(see https://a.b/c), d", "(see [https://a.b/c](https://a.b/c)), d"),
        ("<https://a.b>", "<[https://a.b](https://a.b)>"),
        ("HTTP://a.b", "HTTP://a.b"),
        ("http://http://a.b", "[http://http://a.b](http://http://a.b)"),
        ("http://\u{a0}x", "http://\u{a0}x"),
        ("\u{e9}t\u{e9} https://\u{e9}.fr fin", "\u{e9}t\u{e9} [https://\u{e9}.fr](https://\u{e9}.fr) fin"),
        ("http:// http://..", "http:// http://.."),
    ] {
        assert_eq!(format_urls(text), linked);
        assert_eq!(format_urls(linked), linked);
    }
}
