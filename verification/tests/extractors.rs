use kreuzberg::extractors::email::EmailExtractor;
use kreuzberg::extractors::html::HtmlExtractor;
use kreuzberg::extractors::iwork::{KeynoteExtractor, PagesExtractor};

#[test]
fn test_email_extractor_plugin_interface() {
    let extractor = EmailExtractor::new();
    assert_eq!(extractor.name(), "email-extractor");
    assert!(extractor.initialize().is_ok());
    assert!(extractor.shutdown().is_ok());
}

#[test]
fn test_email_extractor_supported_mime_types() {
    let extractor = EmailExtractor::new();
    let mime_types = extractor.supported_mime_types();
    assert_eq!(mime_types.len(), 2);
    assert!(mime_types.contains(&"message/rfc822"));
    assert!(mime_types.contains(&"application/vnd.ms-outlook"));
}

#[test]
fn test_html_extractor_plugin_interface() {
    let extractor = HtmlExtractor::new();
    assert_eq!(extractor.name(), "html-extractor");
    assert!(extractor.initialize().is_ok());
    assert!(extractor.shutdown().is_ok());
}

#[test]
fn test_html_extractor_supported_mime_types() {
    let extractor = HtmlExtractor::new();
    let mime_types = extractor.supported_mime_types();
    assert_eq!(mime_types.len(), 2);
    assert!(mime_types.contains(&"text/html"));
    assert!(mime_types.contains(&"application/xhtml+xml"));
}

#[test]
fn test_keynote_extractor_plugin_interface() {
    let extractor = KeynoteExtractor::new();
    assert_eq!(extractor.name(), "iwork-keynote-extractor");
    assert!(extractor.initialize().is_ok());
    assert!(extractor.shutdown().is_ok());
}

#[test]
fn test_keynote_extractor_supported_mime_types() {
    let extractor = KeynoteExtractor::new();
    let types = extractor.supported_mime_types();
    assert!(types.contains(&"application/x-iwork-keynote-sffkey"));
}

#[test]
fn test_pages_extractor_plugin_interface() {
    let extractor = PagesExtractor::new();
    assert_eq!(extractor.name(), "iwork-pages-extractor");
    assert!(extractor.initialize().is_ok());
    assert!(extractor.shutdown().is_ok());
}

#[test]
fn test_pages_extractor_supported_mime_types() {
    let extractor = PagesExtractor::new();
    let types = extractor.supported_mime_types();
    assert!(types.contains(&"application/x-iwork-pages-sffpages"));
}
