use kreuzberg::document::{AnnotationKind, ElementKind, OutputFormat, RelationshipKind, RelationshipTarget, Table};
use kreuzberg::extractors::html::{html_tables, HtmlExtractor};

/// The tables the HTML converter finds, as document tables.
fn extract_tables(html: &str) -> Vec<Table> {
    html_tables(html).unwrap()
}

#[test]
fn test_extract_html_tables_basic() {
    let html = r#"
        <table>
            <tr><th>Header1</th><th>Header2</th></tr>
            <tr><td>Row1Col1</td><td>Row1Col2</td></tr>
            <tr><td>Row2Col1</td><td>Row2Col2</td></tr>
        </table>
    "#;

    let tables = extract_tables(html);
    assert_eq!(tables.len(), 1);

    let table = &tables[0];
    assert_eq!(table.cells.len(), 3);
    assert_eq!(table.cells[0], vec!["Header1", "Header2"]);
    assert_eq!(table.cells[1], vec!["Row1Col1", "Row1Col2"]);
    assert_eq!(table.cells[2], vec!["Row2Col1", "Row2Col2"]);
    assert_eq!(table.page_number, 1);
    assert!(table.markdown.contains("Header1"));
    assert!(table.markdown.contains("Row1Col1"));
}

#[test]
fn test_extract_html_tables_multiple() {
    let html = r#"
        <table>
            <tr><th>Table1</th></tr>
            <tr><td>Data1</td></tr>
        </table>
        <p>Some text</p>
        <table>
            <tr><th>Table2</th></tr>
            <tr><td>Data2</td></tr>
        </table>
    "#;

    let tables = extract_tables(html);
    assert_eq!(tables.len(), 2);
    assert_eq!(tables[0].page_number, 1);
    assert_eq!(tables[1].page_number, 2);
}

#[test]
fn test_extract_html_tables_no_thead() {
    let html = r#"
        <table>
            <tr><td>Cell1</td><td>Cell2</td></tr>
            <tr><td>Cell3</td><td>Cell4</td></tr>
        </table>
    "#;

    let tables = extract_tables(html);
    assert_eq!(tables.len(), 1);

    let table = &tables[0];
    assert_eq!(table.cells.len(), 2);
    assert_eq!(table.cells[0], vec!["Cell1", "Cell2"]);
    assert_eq!(table.cells[1], vec!["Cell3", "Cell4"]);
}

#[test]
fn test_extract_html_tables_empty() {
    let html = "<p>No tables here</p>";
    let tables = extract_tables(html);
    assert_eq!(tables.len(), 0);
}

#[test]
fn test_extract_html_tables_with_nested_elements() {
    let html = r#"
        <table>
            <tr><th>Header <strong>Bold</strong></th></tr>
            <tr><td>Data with <em>emphasis</em></td></tr>
        </table>
    "#;

    let tables = extract_tables(html);
    assert_eq!(tables.len(), 1);

    let table = &tables[0];
    assert!(table.cells[0][0].contains("Header"));
    assert!(table.cells[0][0].contains("Bold"));
    assert!(table.cells[1][0].contains("Data with"));
    assert!(table.cells[1][0].contains("emphasis"));
}

#[test]
fn test_extract_nested_html_tables() {
    let html = r#"
        <table>
            <tr>
                <th>Category</th>
                <th>Details &amp; Nested Data</th>
            </tr>
            <tr>
                <td><strong>Project Alpha</strong></td>
                <td>
                <table>
                    <tr><th>Task ID</th><th>Status</th><th>Priority</th></tr>
                    <tr><td>001</td><td>Completed</td><td>High</td></tr>
                    <tr><td>002</td><td>In Progress</td><td>Medium</td></tr>
                </table>
                </td>
            </tr>
            <tr>
                <td><strong>Project Beta</strong></td>
                <td>No sub-tasks assigned yet.</td>
            </tr>
        </table>
    "#;

    let tables = extract_tables(html);

    // Should find at least 2 tables: outer + nested
    assert!(
        tables.len() >= 2,
        "Expected at least 2 tables (outer + nested), found {}",
        tables.len()
    );

    // Find the nested table (has Task ID header)
    let nested = tables
        .iter()
        .find(|t| {
            t.cells
                .first()
                .is_some_and(|row| row.iter().any(|c| c.contains("Task ID")))
        })
        .expect("Should find nested table with Task ID header");

    assert_eq!(nested.cells[0].len(), 3, "Nested table header should have 3 columns");
    assert!(nested.cells[0][0].contains("Task ID"));
    assert!(nested.cells[0][1].contains("Status"));
    assert!(nested.cells[0][2].contains("Priority"));
    assert_eq!(
        nested.cells.len(),
        3,
        "Nested table should have 3 rows (header + 2 data)"
    );
    assert!(nested.cells[1][0].contains("001"));
    assert!(nested.cells[1][1].contains("Completed"));
    assert!(nested.cells[2][0].contains("002"));
    assert!(nested.cells[2][1].contains("In Progress"));
}

#[test]
fn build_headings_paragraphs_and_anchors() {
    let doc = HtmlExtractor::build_internal_document(
        "<h1 id=\"top\">Title <strong>bold</strong></h1><p>Fish &amp; chips</p>",
    );
    assert_eq!(doc.source_format, "html");
    assert_eq!(doc.elements.len(), 2);
    assert_eq!(doc.elements[0].kind, ElementKind::Heading { level: 1 });
    assert_eq!(doc.elements[0].text, "Title bold");
    assert_eq!(doc.elements[0].anchor.as_deref(), Some("top"));
    assert_eq!(doc.elements[0].annotations.len(), 1);
    assert_eq!(doc.elements[0].annotations[0].start, 6);
    assert_eq!(doc.elements[0].annotations[0].end, 10);
    assert!(matches!(doc.elements[0].annotations[0].kind, AnnotationKind::Bold));
    assert_eq!(doc.elements[1].kind, ElementKind::Paragraph);
    assert_eq!(doc.elements[1].text, "Fish & chips");
}

#[test]
fn build_lists_with_depth() {
    let doc = HtmlExtractor::build_internal_document("<ol><li>one</li><li>two</li></ol>");
    let kinds: Vec<ElementKind> = doc.elements.iter().map(|e| e.kind).collect();
    assert_eq!(
        kinds,
        vec![
            ElementKind::ListStart { ordered: true },
            ElementKind::ListItem { ordered: true },
            ElementKind::ListItem { ordered: true },
            ElementKind::ListEnd,
        ]
    );
    assert_eq!(doc.elements[1].text, "one");
    assert_eq!(doc.elements[1].depth, 1);
    assert_eq!(doc.elements[3].depth, 0);
}

#[test]
fn build_code_block_with_language() {
    let doc = HtmlExtractor::build_internal_document("<pre><code class=\"hl language-rust\">let x = 1;</code></pre>");
    assert_eq!(doc.elements.len(), 1);
    assert_eq!(doc.elements[0].kind, ElementKind::Code);
    assert_eq!(doc.elements[0].text, "let x = 1;");
    assert_eq!(doc.elements[0].attributes, vec![("language".to_string(), "rust".to_string())]);
}

#[test]
fn build_table_from_cells() {
    let doc = HtmlExtractor::build_internal_document(
        "<table><tr><th> A </th><th>B</th></tr><tr><td>1</td><td>2</td></tr></table>",
    );
    assert_eq!(doc.tables.len(), 1);
    assert_eq!(doc.tables[0].cells, vec![vec!["A", "B"], vec!["1", "2"]]);
    assert_eq!(doc.elements[0].kind, ElementKind::Table { table_index: 0 });
    assert_eq!(doc.tables[0].markdown, "| A | B |\n| --- | --- |\n| 1 | 2 |\n");
}

#[test]
fn build_figure_caption_and_internal_link() {
    let doc = HtmlExtractor::build_internal_document(
        "<figure><img src=\"x.png\" alt=\"A cat\"><figcaption>The cat</figcaption></figure>\
         <p>See <a href=\"#sec\">section</a></p>",
    );
    assert_eq!(doc.elements[0].text, "[image: A cat]");
    assert_eq!(doc.elements[1].text, "The cat");
    assert_eq!(doc.relationships.len(), 2);
    assert_eq!(doc.relationships[0].source, 1);
    assert!(matches!(doc.relationships[0].target, RelationshipTarget::Index(0)));
    assert_eq!(doc.relationships[0].kind, RelationshipKind::Caption);
    assert_eq!(doc.relationships[1].source, 2);
    assert!(matches!(&doc.relationships[1].target, RelationshipTarget::Key(k) if k == "sec"));
    assert_eq!(doc.relationships[1].kind, RelationshipKind::InternalLink);
    let link = &doc.elements[2].annotations[0];
    assert!(matches!(&link.kind, AnnotationKind::Link { url, title: None } if url == "#sec"));
}

#[test]
fn build_skips_comments_and_flushes_trailing_text() {
    let doc = HtmlExtractor::build_internal_document("<!-- note --> trailing <b>text</b> ");
    assert_eq!(doc.elements.len(), 1);
    assert_eq!(doc.elements[0].text, "trailing text");
    assert_eq!(doc.elements[0].annotations[0].start, 9);
    assert_eq!(doc.elements[0].annotations[0].end, 13);
}

#[test]
fn build_unterminated_tag_ends_scan() {
    let doc = HtmlExtractor::build_internal_document("<p>kept</p><p broken");
    assert_eq!(doc.elements.len(), 1);
    assert_eq!(doc.elements[0].text, "kept");
}

#[test]
fn test_html_extractor_with_table() {
    let html = r#"
            <html>
                <body>
                    <h1>Test Page</h1>
                    <table>
                        <tr><th>Name</th><th>Age</th></tr>
                        <tr><td>Alice</td><td>30</td></tr>
                        <tr><td>Bob</td><td>25</td></tr>
                    </table>
                </body>
            </html>
        "#;

    let extractor = HtmlExtractor::new();
    let result = extractor.extract_sync(html.as_bytes(), "text/html", OutputFormat::Plain, &None, false).unwrap();

    // The HTML extractor produces 2 table entries: one from build_internal_document
    // and one from the converter's tables. Both contain the same data.
    assert_eq!(result.tables.len(), 2);
    for table in &result.tables {
        assert_eq!(table.cells.len(), 3);
        assert_eq!(table.cells[0], vec!["Name", "Age"]);
        assert_eq!(table.cells[1], vec!["Alice", "30"]);
        assert_eq!(table.cells[2], vec!["Bob", "25"]);
    }
}

#[test]
fn test_html_extractor_with_djot_output() {
    let html = r#"
        <html>
            <body>
                <h1>Test Page</h1>
                <p>Content with <strong>emphasis</strong>.</p>
            </body>
        </html>
    "#;

    let extractor = HtmlExtractor::new();
    let result = extractor.extract_sync(html.as_bytes(), "text/html", OutputFormat::Djot, &None, false).unwrap();

    assert_eq!(result.mime_type, "text/html");
    assert_eq!(result.metadata.output_format.as_deref(), Some("djot"));
    let content = kreuzberg::markdown::render_markdown(&result);
    assert!(content.contains("Test Page"), "Should contain heading text: {}", content);
    assert!(content.contains("emphasis"), "Should contain emphasis text: {}", content);
}

#[test]
fn extract_sync_marks_markdown_as_preformatted() {
    let html = "<p>Hello <b>world</b></p>";
    let extractor = HtmlExtractor::new();
    let result = extractor.extract_sync(html.as_bytes(), "text/html", OutputFormat::Markdown, &None, false).unwrap();
    assert_eq!(result.metadata.output_format.as_deref(), Some("markdown"));
    assert_eq!(result.mime_type, "text/html");
    assert_eq!(result.source_format, "html");
}

#[test]
fn extract_sync_leaves_plain_and_html_unmarked() {
    let html = "<p>Hello</p>";
    let extractor = HtmlExtractor::new();
    let plain = extractor.extract_sync(html.as_bytes(), "text/html", OutputFormat::Plain, &None, false).unwrap();
    assert_eq!(plain.metadata.output_format, None);
    let as_html = extractor.extract_sync(html.as_bytes(), "application/xhtml+xml", OutputFormat::Html, &None, false).unwrap();
    assert_eq!(as_html.metadata.output_format, None);
    assert_eq!(as_html.mime_type, "application/xhtml+xml");
}

#[test]
fn prose_texts_come_out_trimmed() {
    let html = "<h2>  Title \n</h2><p>\n  Some   text  </p><ul><li>  item one  </li></ul> tail ";
    let doc = HtmlExtractor::build_internal_document(html);
    let prose: Vec<&str> = doc
        .elements
        .iter()
        .filter(|e| {
            matches!(e.kind, ElementKind::Heading { .. } | ElementKind::Paragraph | ElementKind::ListItem { .. })
        })
        .map(|e| e.text.as_str())
        .collect();
    assert_eq!(prose, vec!["Title", "Some   text", "item one", "tail"]);
    for t in prose {
        assert_eq!(t, t.trim());
    }
}

#[test]
fn built_tables_carry_markdown_and_no_page() {
    let html = "<table><tr><th>Name</th><th>Age</th></tr><tr><td>Alice</td><td>30</td></tr></table>";
    let doc = HtmlExtractor::build_internal_document(html);
    assert_eq!(doc.tables.len(), 1);
    let t = &doc.tables[0];
    assert_eq!(t.page_number, 0);
    assert!(t.bounding_box.is_none());
    assert_eq!(t.markdown, "| Name | Age |\n| --- | --- |\n| Alice | 30 |\n");
    assert_eq!(doc.mime_type, "");
    for e in &doc.elements {
        assert!(e.page.is_none());
        assert!(e.bbox.is_none());
    }
}

#[test]
fn code_block_attributes_hold_only_its_language() {
    let html = "<pre><code class=\"language-rust\">fn main() {}</code></pre><p>x</p>";
    let doc = HtmlExtractor::build_internal_document(html);
    let code = doc.elements.iter().find(|e| matches!(e.kind, ElementKind::Code)).unwrap();
    assert_eq!(code.attributes.len(), 1);
    assert_eq!(code.attributes[0].0, "language");
    assert_eq!(code.attributes[0].1, "rust");
    let para = doc.elements.iter().find(|e| matches!(e.kind, ElementKind::Paragraph)).unwrap();
    assert!(para.attributes.is_empty());
}

#[test]
fn built_document_is_not_preformatted() {
    let doc = HtmlExtractor::build_internal_document("<p>x</p>");
    assert_eq!(doc.metadata.output_format, None);
}

const ONE_PIXEL_PNG: &str =
    "iVBORw0KGgoAAAANSUhEUgAAAAEAAAABCAYAAAAfFcSJAAAADUlEQVR42mNkYPhfDwAChwGA60e6kgAAAABJRU5ErkJggg==";

#[test]
fn extract_sync_carries_html_metadata() {
    let html = "<html><head><title>My Page</title><meta name=\"description\" content=\"About it\"></head><body><p>Hi</p></body></html>";
    let extractor = HtmlExtractor::new();
    let doc = extractor.extract_sync(html.as_bytes(), "text/html", OutputFormat::Plain, &None, false).unwrap();
    let meta = doc.metadata.format.as_ref().unwrap();
    assert_eq!(meta.document.title.as_deref(), Some("My Page"));
    assert_eq!(meta.document.description.as_deref(), Some("About it"));
    assert!(doc.images.is_empty());
}

#[test]
fn extract_sync_extracts_inline_images_when_asked() {
    let html = format!("<p>Pic</p><img src=\"data:image/png;base64,{}\" alt=\"dot\">", ONE_PIXEL_PNG);
    let extractor = HtmlExtractor::new();
    let without = extractor.extract_sync(html.as_bytes(), "text/html", OutputFormat::Plain, &None, false).unwrap();
    assert!(without.images.is_empty());
    let with = extractor.extract_sync(html.as_bytes(), "text/html", OutputFormat::Plain, &None, true).unwrap();
    assert_eq!(with.images.len(), 1);
    let img = &with.images[0];
    assert_eq!(img.format, "png");
    assert_eq!(img.image_index, 0);
    assert_eq!(img.page_number, None);
    assert!(!img.is_mask);
    assert!(!img.data.is_empty());
    assert_eq!(img.data[..4], [0x89, b'P', b'N', b'G']);
}

#[test]
fn extract_sync_uses_the_callers_conversion_options() {
    let html = "<table><tr><th>A</th></tr><tr><td>1</td></tr></table>";
    let extractor = HtmlExtractor::new();
    let defaults = extractor.extract_sync(html.as_bytes(), "text/html", OutputFormat::Plain, &None, false).unwrap();
    let options = Some(html_to_markdown_rs::ConversionOptions::default());
    let given = extractor.extract_sync(html.as_bytes(), "text/html", OutputFormat::Plain, &options, false).unwrap();
    assert_eq!(defaults.tables.len(), 2);
    assert_eq!(given.tables.len(), 2);
    assert_eq!(given.tables[1].cells, defaults.tables[1].cells);
    assert_eq!(given.tables[1].page_number, 1);
}
