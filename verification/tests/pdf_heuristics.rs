use kreuzberg::pdf::{
    is_list_prefix, merge_list_continuations, demote_non_code_blocks, demote_unnumbered_subsections, ends_with_sentence_terminator, looks_like_figure_label,
    looks_like_non_code, merge_consecutive_code_blocks, merge_continuation_paragraphs_region_aware,
    paragraph_plain_text, refine_heading_hierarchy, starts_with_section_number, LayoutHintClass, PdfLine,
    PdfParagraph, SegmentData,
};

fn segment(text: &str, font_size: i64) -> SegmentData {
    SegmentData {
        text: text.to_string(),
        x: 0,
        y: 70000,
        width: 4000,
        height: font_size,
        font_size,
        is_bold: false,
        is_italic: false,
        is_monospace: false,
        baseline_y: 70000,
    }
}

fn line(texts: &[&str], font_size: i64) -> PdfLine {
    PdfLine {
        segments: texts.iter().map(|t| segment(t, font_size)).collect(),
        baseline_y: 70000,
        dominant_font_size: font_size,
        is_bold: false,
        is_monospace: false,
    }
}

fn para(lines: &[&[&str]], font_size: i64) -> PdfParagraph {
    PdfParagraph {
        lines: lines.iter().map(|l| line(l, font_size)).collect(),
        dominant_font_size: font_size,
        heading_level: None,
        is_bold: false,
        is_list_item: false,
        is_code_block: false,
        is_formula: false,
        is_page_furniture: false,
        layout_class: None,
    }
}

fn heading(text: &str, level: u8) -> PdfParagraph {
    let mut p = para(&[&[text]], 1800);
    p.heading_level = Some(level);
    p
}

fn code(text: &str) -> PdfParagraph {
    let mut p = para(&[&[text]], 1000);
    p.is_code_block = true;
    p.layout_class = Some(LayoutHintClass::Code);
    p
}

fn texts(ps: &[PdfParagraph]) -> Vec<String> {
    ps.iter().map(paragraph_plain_text).collect()
}

#[test]
fn plain_text_joins_segments_with_spaces() {
    let p = para(&[&["Hello", "world"], &["again"]], 1200);
    assert_eq!(paragraph_plain_text(&p), "Hello world again");
    let empty = para(&[], 1200);
    assert_eq!(paragraph_plain_text(&empty), "");
}

#[test]
fn section_numbers_are_recognised() {
    assert!(starts_with_section_number("1 Introduction"));
    assert!(starts_with_section_number("2.3 Methods"));
    assert!(starts_with_section_number("  4) Results"));
    assert!(starts_with_section_number("12. Conclusion"));
    assert!(!starts_with_section_number("Introduction"));
    assert!(!starts_with_section_number("123"));
    assert!(!starts_with_section_number("3D models"));
    assert!(!starts_with_section_number(""));
}

#[test]
fn sentence_terminators() {
    assert!(ends_with_sentence_terminator(&para(&[&["It ends here."]], 1200)));
    assert!(ends_with_sentence_terminator(&para(&[&["first"], &["Is it?  "]], 1200)));
    assert!(ends_with_sentence_terminator(&para(&[&["Note:"]], 1200)));
    assert!(!ends_with_sentence_terminator(&para(&[&["and then"]], 1200)));
    assert!(!ends_with_sentence_terminator(&para(&[], 1200)));
    assert!(!ends_with_sentence_terminator(&para(&[&["   "]], 1200)));
}

#[test]
fn figure_labels() {
    assert!(looks_like_figure_label("a b c"));
    assert!(looks_like_figure_label("x y z w"));
    assert!(looks_like_figure_label("Input Layer Input Layer Input"));
    assert!(!looks_like_figure_label("a b"));
    assert!(!looks_like_figure_label("The model reads the page image"));
    assert!(!looks_like_figure_label("ab c d"));
}

#[test]
fn non_code_detection() {
    // hex dump of image data
    assert!(looks_like_non_code("5b 96 24\nc0 75 52"));
    // diagram text without code syntax
    assert!(looks_like_non_code("Assemble results, Serialize as JSON"));
    // real code
    assert!(!looks_like_non_code("fn main() { let x = vec![1]; }"));
    // too short to judge
    assert!(!looks_like_non_code("abc def"));
    // nothing at all
    assert!(!looks_like_non_code("   "));
}

#[test]
fn consecutive_code_blocks_are_merged() {
    let mut ps = vec![
        code("let a = 1;"),
        code("let b = 2;"),
        code("let c = a + b;"),
        para(&[&["Some prose."]], 1000),
        code("print(c)"),
    ];
    merge_consecutive_code_blocks(&mut ps);
    assert_eq!(ps.len(), 3);
    assert_eq!(ps[0].lines.len(), 3);
    assert!(ps[0].is_code_block);
    assert_eq!(texts(&ps), vec!["let a = 1; let b = 2; let c = a + b;", "Some prose.", "print(c)"]);
}

#[test]
fn continuation_paragraphs_are_merged() {
    let mut ps = vec![
        para(&[&["The quick brown"]], 1000),
        para(&[&["fox jumps over"]], 1050),
        para(&[&["the lazy dog."]], 1000),
        para(&[&["A new sentence"]], 1000),
        para(&[&["in a larger font"]], 1400),
    ];
    merge_continuation_paragraphs_region_aware(&mut ps);
    assert_eq!(
        texts(&ps),
        vec!["The quick brown fox jumps over the lazy dog.", "A new sentence", "in a larger font"]
    );
    assert_eq!(ps[0].lines.len(), 3);
}

#[test]
fn continuation_not_merged_across_headings_or_classes() {
    let mut list_item = para(&[&["item one"]], 1000);
    list_item.is_list_item = true;
    let mut captioned = para(&[&["a caption"]], 1000);
    captioned.layout_class = Some(LayoutHintClass::Caption);
    let mut ps = vec![heading("Title", 1), para(&[&["body text"]], 1000), list_item, para(&[&["more"]], 1000), captioned];
    merge_continuation_paragraphs_region_aware(&mut ps);
    assert_eq!(ps.len(), 5);
}

#[test]
fn non_code_blocks_are_demoted() {
    let mut ps = vec![code("5b 96 24 c0 75 52"), code("fn main() { run(); }"), para(&[&["plain words here ok"]], 1000)];
    demote_non_code_blocks(&mut ps);
    assert!(!ps[0].is_code_block);
    assert_eq!(ps[0].layout_class, Some(LayoutHintClass::Text));
    assert!(ps[1].is_code_block);
    assert_eq!(ps[1].layout_class, Some(LayoutHintClass::Code));
    assert!(!ps[2].is_code_block);
    assert_eq!(ps[2].layout_class, None);
    // a second pass changes nothing
    demote_non_code_blocks(&mut ps);
    assert!(ps[1].is_code_block);
    assert_eq!(ps[0].layout_class, Some(LayoutHintClass::Text));
}

#[test]
fn split_title_is_merged_and_numbered_sections_demoted() {
    let mut pages = vec![
        vec![heading("Deep Learning for", 1), heading("Document Layout", 1), para(&[&["Abstract text."]], 1000)],
        vec![heading("1 Introduction", 1), para(&[&["Body."]], 1000), heading("2 Related Work", 1)],
    ];
    refine_heading_hierarchy(&mut pages);
    assert_eq!(pages.len(), 2);
    assert_eq!(texts(&pages[0]), vec!["Deep Learning for Document Layout", "Abstract text."]);
    assert_eq!(pages[0][0].heading_level, Some(1));
    assert_eq!(pages[0][0].lines.len(), 2);
    assert_eq!(pages[1][0].heading_level, Some(2));
    assert_eq!(pages[1][2].heading_level, Some(2));
}

#[test]
fn single_title_is_left_alone() {
    let mut pages = vec![vec![heading("Only Title", 1), heading("1 Intro", 2)]];
    refine_heading_hierarchy(&mut pages);
    assert_eq!(pages[0][0].heading_level, Some(1));
    assert_eq!(pages[0][1].heading_level, Some(2));
}

#[test]
fn leading_numbered_headings_merge_into_one() {
    let mut pages = vec![vec![heading("1 Introduction", 1), heading("2 Methods", 1), heading("3 Results", 1)]];
    refine_heading_hierarchy(&mut pages);
    assert_eq!(texts(&pages[0]), vec!["1 Introduction 2 Methods 3 Results"]);
}

#[test]
fn numbered_first_heading_keeps_levels() {
    let mut pages = vec![
        vec![para(&[&["Preamble."]], 1000), heading("1 Introduction", 1)],
        vec![heading("2 Methods", 1), heading("Summary", 1)],
    ];
    refine_heading_hierarchy(&mut pages);
    assert_eq!(pages[0][1].heading_level, Some(1));
    assert_eq!(pages[1][0].heading_level, Some(1));
    assert_eq!(pages[1][1].heading_level, Some(1));
}

#[test]
fn unnumbered_subsections_between_numbered_sections_become_level_3() {
    let mut pages = vec![
        vec![heading("Preface", 2), heading("1 Introduction", 2), heading("Background", 2)],
        vec![heading("2 Methods", 2), heading("Baselines for Object Detection", 2), heading("3 Results", 2)],
        vec![heading("Appendix", 2), heading("Notes", 3)],
    ];
    demote_unnumbered_subsections(&mut pages);
    let levels: Vec<Vec<Option<u8>>> =
        pages.iter().map(|pg| pg.iter().map(|p| p.heading_level).collect()).collect();
    assert_eq!(
        levels,
        vec![
            vec![Some(2), Some(2), Some(3)],
            vec![Some(2), Some(3), Some(2)],
            vec![Some(2), Some(3)],
        ]
    );
}

#[test]
fn too_few_numbered_sections_change_nothing() {
    let mut pages = vec![vec![heading("1 Introduction", 2), heading("Background", 2), heading("2 Methods", 2)]];
    demote_unnumbered_subsections(&mut pages);
    assert_eq!(pages[0][1].heading_level, Some(2));
}

fn item(lines: &[&[&str]]) -> PdfParagraph {
    let mut p = para(lines, 1000);
    p.is_list_item = true;
    p.layout_class = Some(LayoutHintClass::ListItem);
    p
}

fn chars(s: &str) -> Vec<char> {
    s.chars().collect()
}

#[test]
fn list_prefixes() {
    for w in ["•", "-", "*", "1.", "12)", "a.", "B)", "(3)", "(b)", "–"] {
        assert!(is_list_prefix(&chars(w)), "{}", w);
    }
    for w in ["", "1", "ab.", "1a.", "(12", "()", "word", "[1]", "(ab)"] {
        assert!(!is_list_prefix(&chars(w)), "{}", w);
    }
}

#[test]
fn split_list_items_are_merged() {
    let mut ps = vec![
        item(&[&["1. A long reference that"]]),
        item(&[&["continues on the next box"]]),
        item(&[&["and ends here."]]),
        item(&[&["2. Second item without end"]]),
        item(&[&["3. Third item"]]),
        item(&[&["[4] bracketed entry"]]),
        para(&[&["plain paragraph"]], 1000),
    ];
    merge_list_continuations(&mut ps);
    assert_eq!(
        texts(&ps),
        vec![
            "1. A long reference that continues on the next box and ends here.",
            "2. Second item without end",
            "3. Third item [4] bracketed entry",
            "plain paragraph",
        ]
    );
    assert_eq!(ps[0].lines.len(), 3);
}
