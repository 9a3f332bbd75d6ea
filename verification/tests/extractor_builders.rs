use kreuzberg::document::{ElementKind, InternalDocument};
use kreuzberg::extractors::email::{EmailExtractionResult, EmailExtractor, HtmlBodyNode};
use kreuzberg::extractors::iwork::{build_keynote_internal_document, build_pages_internal_document, keynote_read_order};
use kreuzberg::markdown::render_markdown;

fn kinds_and_texts(doc: &InternalDocument) -> Vec<(ElementKind, String)> {
    doc.elements.iter().map(|e| (e.kind, e.text.clone())).collect()
}

fn email(html_body: Option<Vec<HtmlBodyNode>>, cleaned_text: &str) -> EmailExtractionResult {
    EmailExtractionResult {
        subject: Some("Hi".to_string()),
        from_email: Some("a@example.com".to_string()),
        to_emails: vec!["b@example.com".to_string(), "c@example.com".to_string()],
        cc_emails: vec![],
        bcc_emails: vec!["hidden@example.com".to_string()],
        date: Some("Mon, 1 Jan 2024".to_string()),
        message_id: Some("<id@example.com>".to_string()),
        cleaned_text: cleaned_text.to_string(),
        html_body,
    }
}

#[test]
fn email_plain_body_becomes_paragraphs() {
    let doc = EmailExtractor::build_internal_document(&email(None, "Hello there\n\n  World  \n\n\n\n"));
    assert_eq!(doc.source_format, "email");
    assert_eq!(
        kinds_and_texts(&doc),
        vec![
            (
                ElementKind::MetadataBlock,
                "Subject: Hi\nFrom: a@example.com\nTo: b@example.com, c@example.com\nDate: Mon, 1 Jan 2024"
                    .to_string()
            ),
            (ElementKind::Paragraph, "Hello there".to_string()),
            (ElementKind::Paragraph, "World".to_string()),
        ]
    );
}

#[test]
fn email_without_headers_has_no_metadata_block() {
    let r = EmailExtractionResult {
        subject: None,
        from_email: None,
        to_emails: vec![],
        cc_emails: vec![],
        bcc_emails: vec![],
        date: None,
        message_id: None,
        cleaned_text: "Only text".to_string(),
        html_body: None,
    };
    let doc = EmailExtractor::build_internal_document(&r);
    assert_eq!(kinds_and_texts(&doc), vec![(ElementKind::Paragraph, "Only text".to_string())]);
}

#[test]
fn email_html_body_keeps_its_structure() {
    let nodes = vec![
        HtmlBodyNode::Heading { level: 2, text: "Agenda".to_string() },
        HtmlBodyNode::List { ordered: true, items: vec!["one".to_string(), "two".to_string()] },
        HtmlBodyNode::Code { text: "x = 1".to_string(), language: Some("python".to_string()) },
        HtmlBodyNode::Paragraph { text: "   ".to_string(), annotations: vec![] },
        HtmlBodyNode::Other { text: Some(" Signed ".to_string()), annotations: vec![] },
        HtmlBodyNode::Other { text: None, annotations: vec![] },
    ];
    let doc = EmailExtractor::build_internal_document(&email(Some(nodes), "ignored"));
    let got = kinds_and_texts(&doc);
    assert_eq!(got.len(), 8);
    assert_eq!(got[1], (ElementKind::Heading { level: 2 }, "Agenda".to_string()));
    assert_eq!(got[2], (ElementKind::ListStart { ordered: true }, String::new()));
    assert_eq!(got[3], (ElementKind::ListItem { ordered: true }, "one".to_string()));
    assert_eq!(got[4], (ElementKind::ListItem { ordered: true }, "two".to_string()));
    assert_eq!(got[5], (ElementKind::ListEnd, String::new()));
    assert_eq!(got[6], (ElementKind::Code, "x = 1".to_string()));
    assert_eq!(got[7], (ElementKind::Paragraph, "Signed".to_string()));
    assert_eq!(doc.elements[3].depth, 1);
    assert!(doc.elements[6].attributes.iter().any(|(k, v)| k == "language" && v == "python"));
}

#[test]
fn keynote_text_becomes_slides() {
    let doc = build_keynote_internal_document("Intro\n first point \n\n\nSecond slide\nmore\n");
    assert_eq!(doc.source_format, "keynote");
    assert_eq!(
        kinds_and_texts(&doc),
        vec![
            (ElementKind::Slide { number: 1 }, "Intro".to_string()),
            (ElementKind::Paragraph, "first point".to_string()),
            (ElementKind::Slide { number: 2 }, "Second slide".to_string()),
            (ElementKind::Paragraph, "more".to_string()),
        ]
    );
    let md = render_markdown(&doc);
    assert!(md.contains("## Intro"), "got: {}", md);
}

#[test]
fn blank_keynote_text_has_no_elements() {
    assert!(build_keynote_internal_document("  \n\n \n").elements.is_empty());
    assert!(build_keynote_internal_document("").elements.is_empty());
}

#[test]
fn pages_text_becomes_paragraphs() {
    let doc = build_pages_internal_document("Para one\n\n  Para two  \n\n\n\nlast");
    assert_eq!(doc.source_format, "pages");
    assert_eq!(
        kinds_and_texts(&doc),
        vec![
            (ElementKind::Paragraph, "Para one".to_string()),
            (ElementKind::Paragraph, "Para two".to_string()),
            (ElementKind::Paragraph, "last".to_string()),
        ]
    );
    let single_breaks = build_pages_internal_document("a\n b \n\nc");
    assert_eq!(single_breaks.elements.len(), 2);
    let lines_only = build_pages_internal_document("a\n b \n");
    assert_eq!(
        kinds_and_texts(&lines_only),
        vec![(ElementKind::Paragraph, "a".to_string()), (ElementKind::Paragraph, "b".to_string())]
    );
}

#[test]
fn keynote_slide_files_are_read_first() {
    let paths: Vec<String> = ["Index/Document.iwa", "Index/Slide-1.iwa", "Index/Metadata.iwa", "Index/Presentation.iwa", "Index/Slide-2.iwa"]
        .iter()
        .map(|s| s.to_string())
        .collect();
    assert_eq!(
        keynote_read_order(&paths),
        vec![
            "Index/Slide-1.iwa",
            "Index/Presentation.iwa",
            "Index/Slide-2.iwa",
            "Index/Document.iwa",
            "Index/Metadata.iwa"
        ]
    );
    assert!(keynote_read_order(&vec![]).is_empty());
    assert_eq!(keynote_read_order(&vec!["slide.iwa".to_string()]), vec!["slide.iwa"]);
}
