use kreuzberg::comparison::{
    count_headings, count_paragraphs, count_tables, curated_files, curated_pdfs, join_page_texts, word_set,
};

#[test]
fn curated_list() {
    let names = curated_pdfs();
    assert_eq!(names.len(), 18);
    assert_eq!(names[0], "docling.pdf");
    assert_eq!(names[17], "large.pdf");
}

#[test]
fn only_existing_files_are_kept() {
    let mut exists = vec![false; 18];
    exists[0] = true;
    exists[17] = true;
    assert_eq!(curated_files("/docs", &exists), vec!["/docs/docling.pdf", "/docs/large.pdf"]);
    assert!(curated_files("/docs", &vec![false; 18]).is_empty());
    assert_eq!(curated_files("/docs/", &exists)[0], "/docs/docling.pdf");
}

#[test]
fn headings_are_counted() {
    assert_eq!(count_headings("# A\ntext\n## B\n #not a heading\n#tag"), 3);
    assert_eq!(count_headings(""), 0);
}

#[test]
fn table_separators_are_counted() {
    assert_eq!(count_tables("| a | b |\n|---|---|\n| 1 | 2 |\n   |---|\n---"), 2);
    assert_eq!(count_tables("no tables here"), 0);
}

#[test]
fn paragraph_breaks_are_counted() {
    assert_eq!(count_paragraphs("a\n\nb\n\nc"), 2);
    assert_eq!(count_paragraphs("a\n\n\nb"), 1);
    assert_eq!(count_paragraphs("a\n\n\n\nb"), 2);
    assert_eq!(count_paragraphs("single line"), 0);
}

#[test]
fn word_sets_are_lower_case_and_distinct() {
    assert_eq!(word_set("Hello hello WORLD\tworld  foo"), vec!["hello", "world", "foo"]);
    assert!(word_set("   ").is_empty());
    assert_eq!(word_set("ÄPFEL äpfel"), vec!["äpfel"]);
}

#[test]
fn page_texts_are_joined_by_newlines() {
    let pages = vec!["one".to_string(), "".to_string(), "two".to_string(), "three".to_string()];
    assert_eq!(join_page_texts(&pages), "one\ntwo\nthree");
    assert_eq!(join_page_texts(&vec!["".to_string(), "x".to_string()]), "x");
    assert_eq!(join_page_texts(&vec![]), "");
}
