use kreuzberg::pdf::{PdfLine, PdfParagraph, SegmentData};
use kreuzberg::pdf_classify::{classify_paragraphs, find_heading_level, precompute_gap_info, HeadingLimits};

const LIMITS: HeadingLimits =
    HeadingLimits { max_heading_words: 15, max_bold_heading_words: 10, max_distance_tenths: 20 };

fn make_paragraph(font_size: i64, segment_count: usize) -> PdfParagraph {
    let segments: Vec<SegmentData> = (0..segment_count)
        .map(|i| SegmentData {
            text: format!("word{}", i),
            x: i as i64 * 5000,
            y: 70000,
            width: 4000,
            height: font_size,
            font_size,
            is_bold: false,
            is_italic: false,
            is_monospace: false,
            baseline_y: 70000,
        })
        .collect();

    PdfParagraph {
        lines: vec![PdfLine {
            segments,
            baseline_y: 70000,
            dominant_font_size: font_size,
            is_bold: false,
            is_monospace: false,
        }],
        dominant_font_size: font_size,
        heading_level: None,
        is_bold: false,
        is_list_item: false,
        is_code_block: false,
        is_formula: false,
        is_page_furniture: false,
        layout_class: None,
    }
}

#[test]
fn test_classify_heading() {
    let heading_map = vec![(1800, Some(1)), (1200, None)];
    let mut paragraphs = vec![make_paragraph(1800, 3)];
    classify_paragraphs(&mut paragraphs, &heading_map, &LIMITS);
    assert_eq!(paragraphs[0].heading_level, Some(1));
}

#[test]
fn test_classify_body() {
    let heading_map = vec![(1800, Some(1)), (1200, None)];
    let mut paragraphs = vec![make_paragraph(1200, 5)];
    classify_paragraphs(&mut paragraphs, &heading_map, &LIMITS);
    assert_eq!(paragraphs[0].heading_level, None);
}

#[test]
fn test_classify_too_many_segments_for_heading() {
    let heading_map = vec![(1800, Some(1)), (1200, None)];
    let mut paragraphs = vec![make_paragraph(1800, 20)]; // > max_heading_words
    classify_paragraphs(&mut paragraphs, &heading_map, &LIMITS);
    assert_eq!(paragraphs[0].heading_level, None);
}

#[test]
fn test_find_heading_level_empty_map() {
    let gap_info = precompute_gap_info(&vec![]);
    assert_eq!(find_heading_level(1200, &vec![], &gap_info, &LIMITS), None);
}

#[test]
fn test_find_heading_level_single_entry() {
    let heading_map = vec![(1200, Some(1))];
    let gap_info = precompute_gap_info(&heading_map);
    assert_eq!(find_heading_level(1200, &heading_map, &gap_info, &LIMITS), Some(1));
}

#[test]
fn test_find_heading_level_outlier_rejected() {
    let heading_map = vec![(1200, None), (1600, Some(2)), (2000, Some(1))];
    let gap_info = precompute_gap_info(&heading_map);
    // Font size 50.0 is way too far from any centroid
    assert_eq!(find_heading_level(5000, &heading_map, &gap_info, &LIMITS), None);
}

#[test]
fn test_find_heading_level_close_match() {
    let heading_map = vec![(1200, None), (1600, Some(2)), (2000, Some(1))];
    let gap_info = precompute_gap_info(&heading_map);
    assert_eq!(find_heading_level(1550, &heading_map, &gap_info, &LIMITS), Some(2));
}

#[test]
fn test_classify_bold_short_paragraph_promoted_to_heading() {
    let heading_map = vec![(1200, None)]; // no heading clusters
    let mut para = make_paragraph(1200, 3);
    para.is_bold = true;
    para.lines[0].is_bold = true;
    let mut paragraphs = vec![para];
    classify_paragraphs(&mut paragraphs, &heading_map, &LIMITS);
    assert_eq!(paragraphs[0].heading_level, Some(2));
}

#[test]
fn test_classify_bold_long_paragraph_not_promoted() {
    let heading_map = vec![(1200, None)];
    let mut para = make_paragraph(1200, 20); // too many words
    para.is_bold = true;
    let mut paragraphs = vec![para];
    classify_paragraphs(&mut paragraphs, &heading_map, &LIMITS);
    assert_eq!(paragraphs[0].heading_level, None);
}

#[test]
fn test_classify_bold_list_item_not_promoted() {
    let heading_map = vec![(1200, None)];
    let mut para = make_paragraph(1200, 3);
    para.is_bold = true;
    para.is_list_item = true;
    let mut paragraphs = vec![para];
    classify_paragraphs(&mut paragraphs, &heading_map, &LIMITS);
    assert_eq!(paragraphs[0].heading_level, None);
}

#[test]
fn test_classify_few_segments_many_words_not_heading() {
    // 3 segments but each contains many words — total word count exceeds threshold
    let segments: Vec<SegmentData> = (0..3)
        .map(|i| SegmentData {
            text: "one two three four five six".to_string(),
            x: i as i64 * 20000,
            y: 70000,
            width: 18000,
            height: 1800,
            font_size: 1800,
            is_bold: false,
            is_italic: false,
            is_monospace: false,
            baseline_y: 70000,
        })
        .collect();

    let mut paragraphs = vec![PdfParagraph {
        lines: vec![PdfLine {
            segments,
            baseline_y: 70000,
            dominant_font_size: 1800,
            is_bold: false,
            is_monospace: false,
        }],
        dominant_font_size: 1800,
        heading_level: None,
        is_bold: false,
        is_list_item: false,
        is_code_block: false,
        is_formula: false,
        is_page_furniture: false,
        layout_class: None,
    }];
    // 3 segments × 6 words = 18 words > max_heading_words
    let heading_map = vec![(1800, Some(1)), (1200, None)];
    classify_paragraphs(&mut paragraphs, &heading_map, &LIMITS);
    assert_eq!(paragraphs[0].heading_level, None);
}

fn italic(mut p: PdfParagraph, text: &str) -> PdfParagraph {
    p.lines[0].segments = vec![SegmentData {
        text: text.to_string(),
        x: 0,
        y: 70000,
        width: 4000,
        height: p.dominant_font_size,
        font_size: p.dominant_font_size,
        is_bold: false,
        is_italic: true,
        is_monospace: false,
        baseline_y: 70000,
    }];
    p
}

#[test]
fn italic_and_code_guards() {
    let heading_map = vec![(1200, None)];
    let mut ps = vec![
        italic(make_paragraph(1400, 1), "Related Work Overview"),
        italic(make_paragraph(1400, 1), "Jane Doe, John Roe"),
        italic(make_paragraph(1400, 1), "jane@example.org"),
        italic(make_paragraph(1400, 1), "lower case start"),
        italic(make_paragraph(1200, 1), "Two Words"),
        italic(make_paragraph(1400, 1), "Ends with a colon:"),
    ];
    let mut code = make_paragraph(1200, 3);
    code.is_bold = true;
    code.is_code_block = true;
    code.heading_level = Some(4);
    ps.push(code);
    classify_paragraphs(&mut ps, &heading_map, &LIMITS);
    let levels: Vec<Option<u8>> = ps.iter().map(|p| p.heading_level).collect();
    assert_eq!(levels, vec![Some(2), None, None, None, None, None, None]);
}

#[test]
fn code_blocks_are_never_headings() {
    let heading_map = vec![(1800, Some(1)), (1200, None)];
    let mut p = make_paragraph(1800, 3);
    p.is_code_block = true;
    let mut ps = vec![p];
    classify_paragraphs(&mut ps, &heading_map, &LIMITS);
    assert_eq!(ps[0].heading_level, None);
}
