use kreuzberg::document::{AnnotationKind, ContentLayer, ExtractedImage, InternalDocumentBuilder, TextAnnotation};
use kreuzberg::html::render_html;
// ========================================================================
// 1. Element rendering tests
// ========================================================================

#[test]
fn test_render_html_title() {
    let mut b = InternalDocumentBuilder::new("test");
    b.push_title("My Document", None, None);
    let doc = b.build();
    let out = render_html(&doc);
    assert!(out.contains("<h1>My Document</h1>"), "got: {}", out);
}

#[test]
fn test_render_html_heading_levels() {
    for level in 1u8..=6 {
        let mut b = InternalDocumentBuilder::new("test");
        b.push_heading(level, "Heading", None, None);
        let doc = b.build();
        let out = render_html(&doc);
        let expected = format!("<h{}>Heading</h{}>", level, level);
        assert!(out.contains(&expected), "level {}: got {}", level, out);
    }
}

#[test]
fn test_render_html_paragraph() {
    let mut b = InternalDocumentBuilder::new("test");
    b.push_paragraph("Hello world.", vec![], None, None);
    let doc = b.build();
    let out = render_html(&doc);
    assert!(out.contains("<p>Hello world.</p>"), "got: {}", out);
}

#[test]
fn test_render_html_unordered_list() {
    let mut b = InternalDocumentBuilder::new("test");
    b.push_list(false);
    b.push_list_item("Alpha", false, vec![], None, None);
    b.push_list_item("Beta", false, vec![], None, None);
    b.end_list();
    let doc = b.build();
    let out = render_html(&doc);
    assert!(out.contains("<ul>"), "got: {}", out);
    assert!(out.contains("<li>Alpha</li>"), "got: {}", out);
    assert!(out.contains("<li>Beta</li>"), "got: {}", out);
    assert!(out.contains("</ul>"), "got: {}", out);
}

#[test]
fn test_render_html_ordered_list() {
    let mut b = InternalDocumentBuilder::new("test");
    b.push_list(true);
    b.push_list_item("First", true, vec![], None, None);
    b.push_list_item("Second", true, vec![], None, None);
    b.end_list();
    let doc = b.build();
    let out = render_html(&doc);
    assert!(out.contains("<ol>"), "got: {}", out);
    assert!(out.contains("<li>First</li>"), "got: {}", out);
    assert!(out.contains("<li>Second</li>"), "got: {}", out);
    assert!(out.contains("</ol>"), "got: {}", out);
}

#[test]
fn test_render_html_nested_list() {
    let mut b = InternalDocumentBuilder::new("test");
    b.push_list(false);
    b.push_list_item("Outer", false, vec![], None, None);
    b.push_list(false);
    b.push_list_item("Inner", false, vec![], None, None);
    b.end_list();
    b.end_list();
    let doc = b.build();
    let out = render_html(&doc);
    assert!(out.contains("<ul>"), "got: {}", out);
    assert!(out.contains("<li>Outer</li>"), "got: {}", out);
    assert!(out.contains("<li>Inner</li>"), "got: {}", out);
    // Should have two <ul> opens and two </ul> closes
    assert_eq!(out.matches("<ul>").count(), 2, "got: {}", out);
    assert_eq!(out.matches("</ul>").count(), 2, "got: {}", out);
}

#[test]
fn test_render_html_code_block_with_language() {
    let mut b = InternalDocumentBuilder::new("test");
    b.push_code("let x = 1;", Some("rust"), None, None);
    let doc = b.build();
    let out = render_html(&doc);
    assert!(out.contains("<pre><code class=\"language-rust\">"), "got: {}", out);
    assert!(out.contains("let x = 1;"), "got: {}", out);
    assert!(out.contains("</code></pre>"), "got: {}", out);
}

#[test]
fn test_render_html_code_block_no_language() {
    let mut b = InternalDocumentBuilder::new("test");
    b.push_code("echo hello", None, None, None);
    let doc = b.build();
    let out = render_html(&doc);
    assert!(out.contains("<pre><code>echo hello</code></pre>"), "got: {}", out);
}

#[test]
fn test_render_html_formula() {
    let mut b = InternalDocumentBuilder::new("test");
    b.push_formula("E = mc^2", None, None);
    let doc = b.build();
    let out = render_html(&doc);
    assert!(out.contains("<div class=\"math\">$$E = mc^2$$</div>"), "got: {}", out);
}

#[test]
fn test_render_html_table() {
    let mut b = InternalDocumentBuilder::new("test");
    let cells = vec![
        vec!["Name".to_string(), "Age".to_string()],
        vec!["Alice".to_string(), "30".to_string()],
    ];
    b.push_table_from_cells(&cells, None, None);
    let doc = b.build();
    let out = render_html(&doc);
    assert!(out.contains("<table>"), "got: {}", out);
    assert!(out.contains("<th>Name</th>"), "got: {}", out);
    assert!(out.contains("<th>Age</th>"), "got: {}", out);
    assert!(out.contains("<td>Alice</td>"), "got: {}", out);
    assert!(out.contains("<td>30</td>"), "got: {}", out);
    assert!(out.contains("</table>"), "got: {}", out);
}

#[test]
fn test_render_html_image() {
    let mut b = InternalDocumentBuilder::new("test");
    let image = ExtractedImage {
        data: Vec::new(),
        format: "png".to_string(),
        image_index: 0,
        page_number: None,
        width: None,
        height: None,
        is_mask: false,
        description: Some("A photo".to_string()),
        source_path: None,
    };
    b.push_image(Some("A photo"), image, None, None);
    let doc = b.build();
    let out = render_html(&doc);
    assert!(out.contains("<figure>"), "got: {}", out);
    assert!(out.contains("alt=\"A photo\""), "got: {}", out);
    assert!(out.contains("<figcaption>A photo</figcaption>"), "got: {}", out);
    assert!(out.contains("</figure>"), "got: {}", out);
}

#[test]
fn test_render_html_page_break() {
    let mut b = InternalDocumentBuilder::new("test");
    b.push_page_break();
    let doc = b.build();
    let out = render_html(&doc);
    assert!(out.contains("<hr class=\"page-break\">"), "got: {}", out);
}

#[test]
fn test_render_html_slide() {
    let mut b = InternalDocumentBuilder::new("test");
    b.push_slide(1, Some("Intro"), None);
    let doc = b.build();
    let out = render_html(&doc);
    assert!(
        out.contains("<section class=\"slide\" data-slide=\"1\">"),
        "got: {}",
        out
    );
    assert!(out.contains("<h2>Intro</h2>"), "got: {}", out);
    // Slide should be closed at end of document
    assert!(out.contains("</section>"), "got: {}", out);
}

#[test]
fn test_render_html_definition_term_and_description() {
    let mut b = InternalDocumentBuilder::new("test");
    b.push_definition_term("Rust", None);
    b.push_definition_description("A systems language", None);
    let doc = b.build();
    let out = render_html(&doc);
    assert!(out.contains("<dt>Rust</dt>"), "got: {}", out);
    assert!(out.contains("<dd>A systems language</dd>"), "got: {}", out);
}

#[test]
fn test_render_html_admonition_with_title() {
    let mut b = InternalDocumentBuilder::new("test");
    b.push_admonition("warning", Some("Watch out"), None);
    let doc = b.build();
    let out = render_html(&doc);
    assert!(out.contains("<div class=\"admonition warning\">"), "got: {}", out);
    assert!(
        out.contains("<p class=\"admonition-title\">Watch out</p>"),
        "got: {}",
        out
    );
    assert!(out.contains("</div>"), "got: {}", out);
}

#[test]
fn test_render_html_admonition_without_title() {
    let mut b = InternalDocumentBuilder::new("test");
    b.push_admonition("note", None, None);
    let doc = b.build();
    let out = render_html(&doc);
    assert!(out.contains("<div class=\"admonition note\">"), "got: {}", out);
    assert!(out.contains("<p class=\"admonition-title\">Note</p>"), "got: {}", out);
}

#[test]
fn test_render_html_raw_block_html_format() {
    let mut b = InternalDocumentBuilder::new("test");
    b.push_raw_block("html", "<div>raw content</div>", None);
    let doc = b.build();
    let out = render_html(&doc);
    // Raw HTML should be emitted verbatim
    assert!(out.contains("<div>raw content</div>"), "got: {}", out);
}

#[test]
fn test_render_html_raw_block_non_html_format() {
    let mut b = InternalDocumentBuilder::new("test");
    b.push_raw_block("tex", "\\textbf{hello}", None);
    let doc = b.build();
    let out = render_html(&doc);
    // Non-HTML raw block should be wrapped in <pre> and escaped
    assert!(out.contains("<pre>"), "got: {}", out);
    assert!(out.contains("\\textbf{hello}"), "got: {}", out);
    assert!(out.contains("</pre>"), "got: {}", out);
}

#[test]
fn test_render_html_metadata_block() {
    let mut b = InternalDocumentBuilder::new("test");
    let entries = vec![("Author".to_string(), "Alice".to_string())];
    b.push_metadata_block(&entries, None);
    let doc = b.build();
    let out = render_html(&doc);
    assert!(out.contains("<dl class=\"metadata\">"), "got: {}", out);
    assert!(out.contains("<dt>Author</dt>"), "got: {}", out);
    assert!(out.contains("<dd>Alice</dd>"), "got: {}", out);
    assert!(out.contains("</dl>"), "got: {}", out);
}

#[test]
fn test_render_html_empty_document() {
    let b = InternalDocumentBuilder::new("test");
    let doc = b.build();
    let out = render_html(&doc);
    assert_eq!(out, "");
}

// ========================================================================
// 2. Annotation tests
// ========================================================================

#[test]
fn test_render_html_bold_annotation() {
    let mut b = InternalDocumentBuilder::new("test");
    let ann = vec![TextAnnotation {
        start: 0,
        end: 5,
        kind: AnnotationKind::Bold,
    }];
    b.push_paragraph("Hello world", ann, None, None);
    let doc = b.build();
    let out = render_html(&doc);
    assert!(out.contains("<strong>Hello</strong>"), "got: {}", out);
}

#[test]
fn test_render_html_italic_annotation() {
    let mut b = InternalDocumentBuilder::new("test");
    let ann = vec![TextAnnotation {
        start: 0,
        end: 5,
        kind: AnnotationKind::Italic,
    }];
    b.push_paragraph("Hello world", ann, None, None);
    let doc = b.build();
    let out = render_html(&doc);
    assert!(out.contains("<em>Hello</em>"), "got: {}", out);
}

#[test]
fn test_render_html_code_annotation() {
    let mut b = InternalDocumentBuilder::new("test");
    let ann = vec![TextAnnotation {
        start: 0,
        end: 4,
        kind: AnnotationKind::Code,
    }];
    b.push_paragraph("code rest", ann, None, None);
    let doc = b.build();
    let out = render_html(&doc);
    assert!(out.contains("<code>code</code>"), "got: {}", out);
}

#[test]
fn test_render_html_link_annotation() {
    let mut b = InternalDocumentBuilder::new("test");
    let ann = vec![TextAnnotation {
        start: 0,
        end: 5,
        kind: AnnotationKind::Link {
            url: "https://example.com".to_string(),
            title: None,
        },
    }];
    b.push_paragraph("Click here", ann, None, None);
    let doc = b.build();
    let out = render_html(&doc);
    assert!(
        out.contains("<a href=\"https://example.com\">Click</a>"),
        "got: {}",
        out
    );
}

#[test]
fn test_render_html_link_with_title() {
    let mut b = InternalDocumentBuilder::new("test");
    let ann = vec![TextAnnotation {
        start: 0,
        end: 5,
        kind: AnnotationKind::Link {
            url: "https://example.com".to_string(),
            title: Some("My Title".to_string()),
        },
    }];
    b.push_paragraph("Click here", ann, None, None);
    let doc = b.build();
    let out = render_html(&doc);
    assert!(
        out.contains("<a href=\"https://example.com\" title=\"My Title\">Click</a>"),
        "got: {}",
        out
    );
}

#[test]
fn test_render_html_strikethrough_annotation() {
    let mut b = InternalDocumentBuilder::new("test");
    let ann = vec![TextAnnotation {
        start: 0,
        end: 3,
        kind: AnnotationKind::Strikethrough,
    }];
    b.push_paragraph("old new", ann, None, None);
    let doc = b.build();
    let out = render_html(&doc);
    assert!(out.contains("<del>old</del>"), "got: {}", out);
}

#[test]
fn test_render_html_underline_annotation() {
    let mut b = InternalDocumentBuilder::new("test");
    let ann = vec![TextAnnotation {
        start: 0,
        end: 4,
        kind: AnnotationKind::Underline,
    }];
    b.push_paragraph("text rest", ann, None, None);
    let doc = b.build();
    let out = render_html(&doc);
    assert!(out.contains("<u>text</u>"), "got: {}", out);
}

#[test]
fn test_render_html_multiple_non_overlapping_annotations() {
    let mut b = InternalDocumentBuilder::new("test");
    let ann = vec![
        TextAnnotation {
            start: 0,
            end: 5,
            kind: AnnotationKind::Bold,
        },
        TextAnnotation {
            start: 6,
            end: 11,
            kind: AnnotationKind::Italic,
        },
    ];
    b.push_paragraph("Hello world", ann, None, None);
    let doc = b.build();
    let out = render_html(&doc);
    assert!(out.contains("<strong>Hello</strong>"), "got: {}", out);
    assert!(out.contains("<em>world</em>"), "got: {}", out);
}

#[test]
fn test_render_html_overlapping_annotations_inner_skipped() {
    let mut b = InternalDocumentBuilder::new("test");
    let ann = vec![
        TextAnnotation {
            start: 0,
            end: 11,
            kind: AnnotationKind::Bold,
        },
        TextAnnotation {
            start: 6,
            end: 11,
            kind: AnnotationKind::Italic,
        },
    ];
    b.push_paragraph("Hello world", ann, None, None);
    let doc = b.build();
    let out = render_html(&doc);
    assert!(out.contains("<strong>Hello world</strong>"), "got: {}", out);
    assert!(!out.contains("<em>"), "overlapping should be skipped, got: {}", out);
}

// ========================================================================
// 3. Nested structure tests
// ========================================================================

#[test]
fn test_render_html_blockquote() {
    let mut b = InternalDocumentBuilder::new("test");
    b.push_quote_start();
    b.push_paragraph("Quoted text.", vec![], None, None);
    b.push_quote_end();
    let doc = b.build();
    let out = render_html(&doc);
    assert!(out.contains("<blockquote>"), "got: {}", out);
    assert!(out.contains("<p>Quoted text.</p>"), "got: {}", out);
    assert!(out.contains("</blockquote>"), "got: {}", out);
}

#[test]
fn test_render_html_nested_blockquote() {
    let mut b = InternalDocumentBuilder::new("test");
    b.push_quote_start();
    b.push_quote_start();
    b.push_paragraph("Deep quote.", vec![], None, None);
    b.push_quote_end();
    b.push_quote_end();
    let doc = b.build();
    let out = render_html(&doc);
    assert_eq!(out.matches("<blockquote>").count(), 2, "got: {}", out);
    assert_eq!(out.matches("</blockquote>").count(), 2, "got: {}", out);
    assert!(out.contains("<p>Deep quote.</p>"), "got: {}", out);
}

#[test]
fn test_render_html_list_inside_blockquote() {
    let mut b = InternalDocumentBuilder::new("test");
    b.push_quote_start();
    b.push_list(false);
    b.push_list_item("Quoted item", false, vec![], None, None);
    b.end_list();
    b.push_quote_end();
    let doc = b.build();
    let out = render_html(&doc);
    assert!(out.contains("<blockquote>"), "got: {}", out);
    assert!(out.contains("<ul>"), "got: {}", out);
    assert!(out.contains("<li>Quoted item</li>"), "got: {}", out);
    assert!(out.contains("</ul>"), "got: {}", out);
    assert!(out.contains("</blockquote>"), "got: {}", out);
}

// ========================================================================
// 4. Footnote tests
// ========================================================================

#[test]
fn test_render_html_footnote() {
    let mut b = InternalDocumentBuilder::new("test");
    b.push_paragraph("See note", vec![], None, None);
    b.push_footnote_ref("1", "fn1", None);
    let def = b.push_footnote_definition("Footnote content.", "fn1", None);
    b.set_layer(def, ContentLayer::Footnote);
    let doc = b.build();
    let out = render_html(&doc);
    // Ref in body
    assert!(
        out.contains("<sup><a href=\"#fn-1\" id=\"fnref-1\">1</a></sup>"),
        "got: {}",
        out
    );
    // Def in footnotes section
    assert!(out.contains("<section class=\"footnotes\">"), "got: {}", out);
    assert!(out.contains("<li id=\"fn-1\">"), "got: {}", out);
    assert!(out.contains("Footnote content."), "got: {}", out);
    assert!(out.contains("<a href=\"#fnref-1\">"), "got: {}", out);
}

#[test]
fn test_render_html_multiple_footnotes() {
    let mut b = InternalDocumentBuilder::new("test");
    b.push_footnote_ref("a", "fn1", None);
    b.push_footnote_ref("b", "fn2", None);
    let d1 = b.push_footnote_definition("First.", "fn1", None);
    let d2 = b.push_footnote_definition("Second.", "fn2", None);
    b.set_layer(d1, ContentLayer::Footnote);
    b.set_layer(d2, ContentLayer::Footnote);
    let doc = b.build();
    let out = render_html(&doc);
    assert!(out.contains("id=\"fnref-1\""), "got: {}", out);
    assert!(out.contains("id=\"fnref-2\""), "got: {}", out);
    assert!(out.contains("<li id=\"fn-1\">"), "got: {}", out);
    assert!(out.contains("<li id=\"fn-2\">"), "got: {}", out);
}

#[test]
fn test_render_html_citation() {
    let mut b = InternalDocumentBuilder::new("test");
    b.push_citation("Smith 2024", "smith2024", None);
    let doc = b.build();
    let out = render_html(&doc);
    assert!(out.contains("<section class=\"citations\">"), "got: {}", out);
    assert!(out.contains("id=\"cite-smith2024\""), "got: {}", out);
    assert!(out.contains("Smith 2024"), "got: {}", out);
}

// ========================================================================
// 5. HTML-specific tests
// ========================================================================

#[test]
fn test_render_html_escapes_script_tags() {
    let mut b = InternalDocumentBuilder::new("test");
    b.push_paragraph("<script>alert('xss')</script>", vec![], None, None);
    let doc = b.build();
    let out = render_html(&doc);
    assert!(!out.contains("<script>"), "script tag should be escaped, got: {}", out);
    assert!(out.contains("&lt;script&gt;"), "got: {}", out);
}

#[test]
fn test_render_html_escapes_angle_brackets_in_text() {
    let mut b = InternalDocumentBuilder::new("test");
    b.push_paragraph("a < b > c & d", vec![], None, None);
    let doc = b.build();
    let out = render_html(&doc);
    assert!(out.contains("a &lt; b &gt; c &amp; d"), "got: {}", out);
}

#[test]
fn test_render_html_dangerous_url_javascript() {
    let mut b = InternalDocumentBuilder::new("test");
    let ann = vec![TextAnnotation {
        start: 0,
        end: 5,
        kind: AnnotationKind::Link {
            url: "javascript:alert(1)".to_string(),
            title: None,
        },
    }];
    b.push_paragraph("Click here", ann, None, None);
    let doc = b.build();
    let out = render_html(&doc);
    // Dangerous URL should NOT produce an <a> tag
    assert!(
        !out.contains("href=\"javascript:"),
        "dangerous URL should be blocked, got: {}",
        out
    );
    // The text should still appear
    assert!(out.contains("Click"), "got: {}", out);
}

#[test]
fn test_render_html_dangerous_url_vbscript() {
    let mut b = InternalDocumentBuilder::new("test");
    let ann = vec![TextAnnotation {
        start: 0,
        end: 4,
        kind: AnnotationKind::Link {
            url: "vbscript:msgbox".to_string(),
            title: None,
        },
    }];
    b.push_paragraph("text here", ann, None, None);
    let doc = b.build();
    let out = render_html(&doc);
    assert!(!out.contains("href=\"vbscript:"), "got: {}", out);
}

#[test]
fn test_render_html_dangerous_url_data() {
    let mut b = InternalDocumentBuilder::new("test");
    let ann = vec![TextAnnotation {
        start: 0,
        end: 4,
        kind: AnnotationKind::Link {
            url: "data:text/html,<script>alert(1)</script>".to_string(),
            title: None,
        },
    }];
    b.push_paragraph("text here", ann, None, None);
    let doc = b.build();
    let out = render_html(&doc);
    assert!(!out.contains("href=\"data:text/html"), "got: {}", out);
}

#[test]
fn test_render_html_proper_tag_nesting() {
    let mut b = InternalDocumentBuilder::new("test");
    b.push_list(false);
    b.push_list_item("Item", false, vec![], None, None);
    b.end_list();
    let doc = b.build();
    let out = render_html(&doc);
    // Verify <ul> comes before <li> and </li> comes before </ul>
    let ul_open = out.find("<ul>").unwrap();
    let li_open = out.find("<li>").unwrap();
    let li_close = out.find("</li>").unwrap();
    let ul_close = out.find("</ul>").unwrap();
    assert!(ul_open < li_open, "ul should open before li");
    assert!(li_open < li_close, "li should open before close");
    assert!(li_close < ul_close, "li should close before ul");
}

#[test]
fn test_render_html_escapes_in_code_block() {
    let mut b = InternalDocumentBuilder::new("test");
    b.push_code("<div>not html</div>", Some("html"), None, None);
    let doc = b.build();
    let out = render_html(&doc);
    assert!(
        out.contains("&lt;div&gt;not html&lt;/div&gt;"),
        "code should be escaped, got: {}",
        out
    );
}

#[test]
fn test_render_html_escapes_in_table_cells() {
    let mut b = InternalDocumentBuilder::new("test");
    let cells = vec![vec!["<b>Header</b>".to_string()], vec!["<i>Cell</i>".to_string()]];
    b.push_table_from_cells(&cells, None, None);
    let doc = b.build();
    let out = render_html(&doc);
    assert!(
        out.contains("&lt;b&gt;Header&lt;/b&gt;"),
        "table header should be escaped, got: {}",
        out
    );
    assert!(
        out.contains("&lt;i&gt;Cell&lt;/i&gt;"),
        "table cell should be escaped, got: {}",
        out
    );
}

#[test]
fn single_paragraph_renders_escaped_without_script() {
    for text in ["<script>x</script>", "<<script>>", "plain", "a<script", "</p><script>"] {
        let mut b = InternalDocumentBuilder::new("test");
        b.push_paragraph(text, vec![], None, None);
        let doc = b.build();
        let out = render_html(&doc);
        assert!(!out.contains("<script>"), "got: {}", out);
        let escaped = text.replace('&', "&amp;").replace('<', "&lt;").replace('>', "&gt;");
        assert_eq!(out, format!("<p>{}</p>\n", escaped));
    }
}

#[test]
fn paragraph_with_only_dangerous_links_renders_as_escaped_text() {
    let mut b = InternalDocumentBuilder::new("test");
    let ann = vec![
        TextAnnotation {
            start: 0,
            end: 5,
            kind: AnnotationKind::Link { url: " JavaScript:alert(1)".to_string(), title: None },
        },
        TextAnnotation {
            start: 6,
            end: 10,
            kind: AnnotationKind::Link { url: "data:text/html,<b>x</b>".to_string(), title: Some("t".to_string()) },
        },
    ];
    b.push_paragraph("Click <here>", ann, None, None);
    let doc = b.build();
    let out = render_html(&doc);
    assert_eq!(out, "<p>Click &lt;here&gt;</p>\n");
}

#[test]
fn dangerous_links_never_become_anchors_in_a_document() {
    let mut b = InternalDocumentBuilder::new("test");
    b.push_heading(1, "Title", None, None);
    let anns = vec![
        TextAnnotation { start: 0, end: 4, kind: AnnotationKind::Bold },
        TextAnnotation {
            start: 5,
            end: 9,
            kind: AnnotationKind::Link { url: "vbscript:x".to_string(), title: None },
        },
    ];
    b.push_paragraph("Bold link <a href=x>", anns, None, None);
    b.push_list(false);
    let item = vec![TextAnnotation {
        start: 0,
        end: 4,
        kind: AnnotationKind::Link { url: "  JAVASCRIPT:go()".to_string(), title: None },
    }];
    b.push_list_item("item", false, item, None, None);
    b.end_list();
    b.push_table_from_cells(&vec![vec!["a".to_string(), "<b>".to_string()]], None, None);
    let doc = b.build();
    let out = render_html(&doc);
    assert!(!out.contains("<a"), "got: {}", out);
    assert!(out.contains("<strong>Bold</strong> link &lt;a href=x&gt;"), "got: {}", out);

    let mut safe = InternalDocumentBuilder::new("test");
    let link = vec![TextAnnotation {
        start: 0,
        end: 4,
        kind: AnnotationKind::Link { url: "https://x.org".to_string(), title: None },
    }];
    safe.push_paragraph("here", link, None, None);
    assert!(render_html(&safe.build()).contains("<a href=\"https://x.org\">here</a>"));
}

#[test]
fn list_and_quote_tags_match_the_starts_and_ends() {
    let mut b = InternalDocumentBuilder::new("test");
    b.push_quote_start();
    b.push_list(true);
    let under = vec![TextAnnotation { start: 0, end: 2, kind: AnnotationKind::Underline }];
    b.push_list_item("ul> and <ol> text", true, under, None, None);
    b.push_list(false);
    b.push_list_item("inner", false, vec![], None, None);
    b.end_list();
    b.end_list();
    b.push_quote_end();
    b.push_paragraph("</blockquote> is just text", vec![], None, None);
    let doc = b.build();
    let out = render_html(&doc);
    let opens = out.matches("<ul>").count() + out.matches("<ol>").count();
    let closes = out.matches("</ul>").count() + out.matches("</ol>").count();
    assert_eq!(opens, 2, "got: {}", out);
    assert_eq!(closes, 2, "got: {}", out);
    assert_eq!(out.matches("<blockquote>").count(), 1, "got: {}", out);
    assert_eq!(out.matches("</blockquote>").count(), 1, "got: {}", out);
}
