use kreuzberg::document::{AnnotationKind, ContentLayer, ExtractedImage, InternalDocumentBuilder, TextAnnotation};
use kreuzberg::markdown::render_markdown;
// ========================================================================
// 1. Element rendering tests
// ========================================================================

#[test]
fn test_render_markdown_title() {
    let mut b = InternalDocumentBuilder::new("test");
    b.push_title("My Document", None, None);
    let doc = b.build();
    let out = render_markdown(&doc);
    assert_eq!(out, "# My Document\n");
}

#[test]
fn test_render_markdown_heading_levels() {
    for level in 1u8..=6 {
        let mut b = InternalDocumentBuilder::new("test");
        b.push_heading(level, "Heading", None, None);
        let doc = b.build();
        let out = render_markdown(&doc);
        let hashes = "#".repeat(level as usize);
        assert!(
            out.starts_with(&format!("{} Heading", hashes)),
            "level {}: got {}",
            level,
            out
        );
    }
}

#[test]
fn test_render_markdown_paragraph() {
    let mut b = InternalDocumentBuilder::new("test");
    b.push_paragraph("Hello world.", vec![], None, None);
    let doc = b.build();
    let out = render_markdown(&doc);
    assert_eq!(out, "Hello world.\n");
}

#[test]
fn test_render_markdown_unordered_list_items() {
    let mut b = InternalDocumentBuilder::new("test");
    b.push_list(false);
    b.push_list_item("Alpha", false, vec![], None, None);
    b.push_list_item("Beta", false, vec![], None, None);
    b.push_list_item("Gamma", false, vec![], None, None);
    b.end_list();
    let doc = b.build();
    let out = render_markdown(&doc);
    assert!(out.contains("- Alpha\n"), "got: {}", out);
    assert!(out.contains("- Beta\n"), "got: {}", out);
    assert!(out.contains("- Gamma\n"), "got: {}", out);
}

#[test]
fn test_render_markdown_ordered_list_items() {
    let mut b = InternalDocumentBuilder::new("test");
    b.push_list(true);
    b.push_list_item("First", true, vec![], None, None);
    b.push_list_item("Second", true, vec![], None, None);
    b.push_list_item("Third", true, vec![], None, None);
    b.end_list();
    let doc = b.build();
    let out = render_markdown(&doc);
    assert!(out.contains("1. First\n"), "got: {}", out);
    assert!(out.contains("2. Second\n"), "got: {}", out);
    assert!(out.contains("3. Third\n"), "got: {}", out);
}

#[test]
fn test_render_markdown_nested_list() {
    let mut b = InternalDocumentBuilder::new("test");
    b.push_list(false);
    b.push_list_item("Outer", false, vec![], None, None);
    b.push_list(false);
    b.push_list_item("Inner", false, vec![], None, None);
    b.end_list();
    b.end_list();
    let doc = b.build();
    let out = render_markdown(&doc);
    assert!(out.contains("- Outer\n"), "got: {}", out);
    assert!(out.contains("  - Inner\n"), "got: {}", out);
}

#[test]
fn test_render_markdown_code_block_with_language() {
    let mut b = InternalDocumentBuilder::new("test");
    b.push_code("fn main() {}", Some("rust"), None, None);
    let doc = b.build();
    let out = render_markdown(&doc);
    assert!(out.contains("```rust\n"), "got: {}", out);
    assert!(out.contains("fn main() {}"), "got: {}", out);
    assert!(out.contains("```\n"), "got: {}", out);
}

#[test]
fn test_render_markdown_formula() {
    let mut b = InternalDocumentBuilder::new("test");
    b.push_formula("E = mc^2", None, None);
    let doc = b.build();
    let out = render_markdown(&doc);
    assert!(out.contains("$$\n"), "got: {}", out);
    assert!(out.contains("E = mc^2"), "got: {}", out);
}

#[test]
fn test_render_markdown_table() {
    let mut b = InternalDocumentBuilder::new("test");
    let cells = vec![
        vec!["Name".to_string(), "Age".to_string()],
        vec!["Alice".to_string(), "30".to_string()],
    ];
    b.push_table_from_cells(&cells, None, None);
    let doc = b.build();
    let out = render_markdown(&doc);
    assert!(out.contains("| Name | Age |"), "got: {}", out);
    assert!(out.contains("| --- | --- |"), "got: {}", out);
    assert!(out.contains("| Alice | 30 |"), "got: {}", out);
}

#[test]
fn test_render_markdown_image() {
    let mut b = InternalDocumentBuilder::new("test");
    let image = ExtractedImage {
        data: Vec::new(),
        format: "png".to_string(),
        image_index: 0,
        page_number: None,
        width: None,
        height: None,
        is_mask: false,
        description: Some("A nice photo".to_string()),
        source_path: None,
    };
    b.push_image(Some("A nice photo"), image, None, None);
    let doc = b.build();
    let out = render_markdown(&doc);
    assert!(out.contains("![A nice photo]()"), "got: {}", out);
}

#[test]
fn test_render_markdown_page_break() {
    let mut b = InternalDocumentBuilder::new("test");
    b.push_paragraph("Before", vec![], None, None);
    b.push_page_break();
    b.push_paragraph("After", vec![], None, None);
    let doc = b.build();
    let out = render_markdown(&doc);
    assert!(out.contains("<!-- page break -->"), "got: {}", out);
}

#[test]
fn test_render_markdown_slide() {
    let mut b = InternalDocumentBuilder::new("test");
    b.push_slide(1, Some("Intro Slide"), None);
    let doc = b.build();
    let out = render_markdown(&doc);
    assert!(out.contains("---"), "got: {}", out);
    assert!(out.contains("## Intro Slide"), "got: {}", out);
}

#[test]
fn test_render_markdown_definition_term_and_description() {
    let mut b = InternalDocumentBuilder::new("test");
    b.push_definition_term("Rust", None);
    b.push_definition_description("A systems programming language", None);
    let doc = b.build();
    let out = render_markdown(&doc);
    assert!(out.contains("Rust\n"), "got: {}", out);
    assert!(out.contains(": A systems programming language"), "got: {}", out);
}

#[test]
fn test_render_markdown_admonition_with_title() {
    let mut b = InternalDocumentBuilder::new("test");
    b.push_admonition("warning", Some("Be careful"), None);
    let doc = b.build();
    let out = render_markdown(&doc);
    assert!(out.contains("> **Be careful**"), "got: {}", out);
}

#[test]
fn test_render_markdown_admonition_without_title() {
    let mut b = InternalDocumentBuilder::new("test");
    b.push_admonition("note", None, None);
    let doc = b.build();
    let out = render_markdown(&doc);
    assert!(out.contains("> **Note**"), "got: {}", out);
}

#[test]
fn test_render_markdown_raw_block() {
    let mut b = InternalDocumentBuilder::new("test");
    b.push_raw_block("tex", "\\begin{equation}x^2\\end{equation}", None);
    let doc = b.build();
    let out = render_markdown(&doc);
    assert!(out.contains("\\begin{equation}x^2\\end{equation}"), "got: {}", out);
}

#[test]
fn test_render_markdown_metadata_block() {
    let mut b = InternalDocumentBuilder::new("test");
    let entries = vec![
        ("Author".to_string(), "Alice".to_string()),
        ("Date".to_string(), "2024-01-01".to_string()),
    ];
    b.push_metadata_block(&entries, None);
    let doc = b.build();
    let out = render_markdown(&doc);
    assert!(out.contains("**Author**: Alice"), "got: {}", out);
    assert!(out.contains("**Date**: 2024-01-01"), "got: {}", out);
}

#[test]
fn test_render_markdown_empty_document() {
    let b = InternalDocumentBuilder::new("test");
    let doc = b.build();
    let out = render_markdown(&doc);
    assert_eq!(out, "");
}

// ========================================================================
// 2. Annotation tests
// ========================================================================

#[test]
fn test_render_markdown_bold_annotation() {
    let mut b = InternalDocumentBuilder::new("test");
    // "Hello world" - bold on "Hello"
    let ann = vec![TextAnnotation {
        start: 0,
        end: 5,
        kind: AnnotationKind::Bold,
    }];
    b.push_paragraph("Hello world", ann, None, None);
    let doc = b.build();
    let out = render_markdown(&doc);
    assert!(out.contains("**Hello** world"), "got: {}", out);
}

#[test]
fn test_render_markdown_italic_annotation() {
    let mut b = InternalDocumentBuilder::new("test");
    let ann = vec![TextAnnotation {
        start: 0,
        end: 5,
        kind: AnnotationKind::Italic,
    }];
    b.push_paragraph("Hello world", ann, None, None);
    let doc = b.build();
    let out = render_markdown(&doc);
    assert!(out.contains("*Hello* world"), "got: {}", out);
}

#[test]
fn test_render_markdown_code_annotation() {
    let mut b = InternalDocumentBuilder::new("test");
    let ann = vec![TextAnnotation {
        start: 4,
        end: 9,
        kind: AnnotationKind::Code,
    }];
    b.push_paragraph("Use print here", ann, None, None);
    let doc = b.build();
    let out = render_markdown(&doc);
    assert!(out.contains("`print`"), "got: {}", out);
}

#[test]
fn test_render_markdown_link_annotation() {
    let mut b = InternalDocumentBuilder::new("test");
    let ann = vec![TextAnnotation {
        start: 0,
        end: 5,
        kind: AnnotationKind::Link {
            url: "https://example.com".to_string(),
            title: None,
        },
    }];
    b.push_paragraph("Click here", ann, None, None);
    let doc = b.build();
    let out = render_markdown(&doc);
    assert!(out.contains("[Click](https://example.com)"), "got: {}", out);
}

#[test]
fn test_render_markdown_link_with_title() {
    let mut b = InternalDocumentBuilder::new("test");
    let ann = vec![TextAnnotation {
        start: 0,
        end: 5,
        kind: AnnotationKind::Link {
            url: "https://example.com".to_string(),
            title: Some("Example".to_string()),
        },
    }];
    b.push_paragraph("Click here", ann, None, None);
    let doc = b.build();
    let out = render_markdown(&doc);
    assert!(out.contains("[Click](https://example.com \"Example\")"), "got: {}", out);
}

#[test]
fn test_render_markdown_strikethrough_annotation() {
    let mut b = InternalDocumentBuilder::new("test");
    let ann = vec![TextAnnotation {
        start: 0,
        end: 3,
        kind: AnnotationKind::Strikethrough,
    }];
    b.push_paragraph("old new", ann, None, None);
    let doc = b.build();
    let out = render_markdown(&doc);
    assert!(out.contains("~~old~~"), "got: {}", out);
}

#[test]
fn test_render_markdown_underline_annotation() {
    let mut b = InternalDocumentBuilder::new("test");
    let ann = vec![TextAnnotation {
        start: 0,
        end: 4,
        kind: AnnotationKind::Underline,
    }];
    b.push_paragraph("text rest", ann, None, None);
    let doc = b.build();
    let out = render_markdown(&doc);
    assert!(out.contains("<u>text</u>"), "got: {}", out);
}

#[test]
fn test_render_markdown_multiple_non_overlapping_annotations() {
    let mut b = InternalDocumentBuilder::new("test");
    // "Hello brave world" - bold "Hello", italic "world"
    let ann = vec![
        TextAnnotation {
            start: 0,
            end: 5,
            kind: AnnotationKind::Bold,
        },
        TextAnnotation {
            start: 12,
            end: 17,
            kind: AnnotationKind::Italic,
        },
    ];
    b.push_paragraph("Hello brave world", ann, None, None);
    let doc = b.build();
    let out = render_markdown(&doc);
    assert!(out.contains("**Hello**"), "got: {}", out);
    assert!(out.contains("*world*"), "got: {}", out);
}

#[test]
fn test_render_markdown_overlapping_annotations_inner_skipped() {
    let mut b = InternalDocumentBuilder::new("test");
    // "Hello world" - bold 0..11, italic 6..11 (overlaps, inner should be skipped)
    let ann = vec![
        TextAnnotation {
            start: 0,
            end: 11,
            kind: AnnotationKind::Bold,
        },
        TextAnnotation {
            start: 6,
            end: 11,
            kind: AnnotationKind::Italic,
        },
    ];
    b.push_paragraph("Hello world", ann, None, None);
    let doc = b.build();
    let out = render_markdown(&doc);
    assert!(out.contains("**Hello world**"), "got: {}", out);
    // The italic should NOT appear since it overlaps
    assert!(
        !out.contains("*world*"),
        "overlapping italic should be skipped, got: {}",
        out
    );
}

// ========================================================================
// 3. Nested structure tests
// ========================================================================

#[test]
fn test_render_markdown_blockquote() {
    let mut b = InternalDocumentBuilder::new("test");
    b.push_quote_start();
    b.push_paragraph("Quoted text.", vec![], None, None);
    b.push_quote_end();
    let doc = b.build();
    let out = render_markdown(&doc);
    assert!(out.contains("> Quoted text."), "got: {}", out);
}

#[test]
fn test_render_markdown_nested_blockquote() {
    let mut b = InternalDocumentBuilder::new("test");
    b.push_quote_start();
    b.push_quote_start();
    b.push_paragraph("Deeply quoted.", vec![], None, None);
    b.push_quote_end();
    b.push_quote_end();
    let doc = b.build();
    let out = render_markdown(&doc);
    assert!(out.contains("> > Deeply quoted."), "got: {}", out);
}

#[test]
fn test_render_markdown_list_inside_blockquote() {
    let mut b = InternalDocumentBuilder::new("test");
    b.push_quote_start();
    b.push_list(false);
    b.push_list_item("Quoted item", false, vec![], None, None);
    b.end_list();
    b.push_quote_end();
    let doc = b.build();
    let out = render_markdown(&doc);
    assert!(out.contains("> - Quoted item"), "got: {}", out);
}

// ========================================================================
// 4. Footnote tests
// ========================================================================

#[test]
fn test_render_markdown_footnote() {
    let mut b = InternalDocumentBuilder::new("test");
    b.push_paragraph("See note", vec![], None, None);
    let _ref_idx = b.push_footnote_ref("1", "fn1", None);
    let def_idx = b.push_footnote_definition("This is the footnote text.", "fn1", None);
    b.set_layer(def_idx, ContentLayer::Footnote);
    let doc = b.build();
    let out = render_markdown(&doc);
    assert!(out.contains("[^1]"), "should contain footnote ref, got: {}", out);
    assert!(
        out.contains("[^1]: This is the footnote text."),
        "should contain footnote def, got: {}",
        out
    );
}

#[test]
fn test_render_markdown_multiple_footnotes() {
    let mut b = InternalDocumentBuilder::new("test");
    b.push_paragraph("Text", vec![], None, None);
    b.push_footnote_ref("a", "fn1", None);
    b.push_footnote_ref("b", "fn2", None);
    let d1 = b.push_footnote_definition("First note.", "fn1", None);
    let d2 = b.push_footnote_definition("Second note.", "fn2", None);
    b.set_layer(d1, ContentLayer::Footnote);
    b.set_layer(d2, ContentLayer::Footnote);
    let doc = b.build();
    let out = render_markdown(&doc);
    assert!(out.contains("[^1]"), "got: {}", out);
    assert!(out.contains("[^2]"), "got: {}", out);
    assert!(out.contains("[^1]: First note."), "got: {}", out);
    assert!(out.contains("[^2]: Second note."), "got: {}", out);
}

#[test]
fn test_render_markdown_citation() {
    let mut b = InternalDocumentBuilder::new("test");
    b.push_citation("Smith et al. 2024", "smith2024", None);
    let doc = b.build();
    let out = render_markdown(&doc);
    assert!(out.contains("[^smith2024]: Smith et al. 2024"), "got: {}", out);
}

#[test]
fn metadata_block_reads_back_its_entries() {
    let mut b = InternalDocumentBuilder::new("test");
    let entries = vec![
        ("Time".to_string(), "10: 30".to_string()),
        ("Empty".to_string(), String::new()),
        ("Title".to_string(), "A: B".to_string()),
    ];
    b.push_metadata_block(&entries, None);
    let doc = b.build();
    let out = render_markdown(&doc);
    assert_eq!(out, "**Time**: 10: 30\n**Empty**: \n**Title**: A: B\n");
}
