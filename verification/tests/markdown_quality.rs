use kreuzberg::markdown_quality::{longest_increasing_subsequence_length, parse_markdown_blocks, MdBlockType};

#[test]
fn test_parse_heading_levels() {
    let md = "# Title\n\n## Section\n\n### Subsection\n\nBody text.\n";
    let blocks = parse_markdown_blocks(md);
    assert_eq!(blocks.len(), 4);
    assert_eq!(blocks[0].block_type, MdBlockType::Heading1);
    assert_eq!(blocks[0].content, "Title");
    assert_eq!(blocks[1].block_type, MdBlockType::Heading2);
    assert_eq!(blocks[1].content, "Section");
    assert_eq!(blocks[2].block_type, MdBlockType::Heading3);
    assert_eq!(blocks[2].content, "Subsection");
    assert_eq!(blocks[3].block_type, MdBlockType::Paragraph);
}

#[test]
fn test_parse_code_block() {
    let md = "Some text.\n\n```python\ndef hello():\n    print('hi')\n```\n\nMore text.\n";
    let blocks = parse_markdown_blocks(md);
    assert_eq!(blocks.len(), 3);
    assert_eq!(blocks[0].block_type, MdBlockType::Paragraph);
    assert_eq!(blocks[1].block_type, MdBlockType::CodeBlock);
    assert!(blocks[1].content.contains("def hello()"));
    assert_eq!(blocks[2].block_type, MdBlockType::Paragraph);
}

#[test]
fn test_parse_formula() {
    let md = "Before.\n\n$$\nE = mc^2\n$$\n\nAfter.\n";
    let blocks = parse_markdown_blocks(md);
    assert_eq!(blocks.len(), 3);
    assert_eq!(blocks[1].block_type, MdBlockType::Formula);
    assert_eq!(blocks[1].content, "E = mc^2");
}

#[test]
fn test_parse_table() {
    let md = "| Name | Age |\n|------|-----|\n| Alice | 30 |\n| Bob | 25 |\n";
    let blocks = parse_markdown_blocks(md);
    assert_eq!(blocks.len(), 1);
    assert_eq!(blocks[0].block_type, MdBlockType::Table);
    assert!(blocks[0].content.contains("Alice"));
}

#[test]
fn test_parse_list_items() {
    let md = "- Item one\n- Item two\n- Item three\n";
    let blocks = parse_markdown_blocks(md);
    assert_eq!(blocks.len(), 3);
    assert!(blocks.iter().all(|b| b.block_type == MdBlockType::ListItem));
    assert_eq!(blocks[0].content, "Item one");
}

#[test]
fn test_parse_numbered_list() {
    let md = "1. First\n2. Second\n";
    let blocks = parse_markdown_blocks(md);
    assert_eq!(blocks.len(), 2);
    assert!(blocks.iter().all(|b| b.block_type == MdBlockType::ListItem));
}

#[test]
fn test_parse_image() {
    let md = "![Alt text](image.png)\n";
    let blocks = parse_markdown_blocks(md);
    assert_eq!(blocks.len(), 1);
    assert_eq!(blocks[0].block_type, MdBlockType::Image);
}

#[test]
fn test_parse_paragraph_grouping() {
    let md = "Line one of a paragraph.\nLine two of the same paragraph.\n\nNew paragraph.\n";
    let blocks = parse_markdown_blocks(md);
    assert_eq!(blocks.len(), 2);
    assert!(blocks[0].content.contains("Line one"));
    assert!(blocks[0].content.contains("Line two"));
}

#[test]
fn test_lis_length() {
    assert_eq!(longest_increasing_subsequence_length(&[1, 3, 2, 4, 5]), 4);
    assert_eq!(longest_increasing_subsequence_length(&[5, 4, 3, 2, 1]), 1);
    assert_eq!(longest_increasing_subsequence_length(&[1, 2, 3, 4, 5]), 5);
    assert_eq!(longest_increasing_subsequence_length(&[]), 0);
}

#[test]
fn hash_without_space_opens_a_paragraph() {
    let blocks = parse_markdown_blocks("#Title\n");
    assert_eq!(blocks.len(), 1);
    assert_eq!(blocks[0].block_type, MdBlockType::Paragraph);
    assert_eq!(blocks[0].content, "#Title");
    assert_eq!(blocks[0].index, 0);
}

#[test]
fn inline_formula_line_opens_a_paragraph() {
    let blocks = parse_markdown_blocks("$$x$$\nmore text\n\nnext");
    assert_eq!(blocks.len(), 2);
    assert_eq!(blocks[0].block_type, MdBlockType::Paragraph);
    assert_eq!(blocks[0].content, "$$x$$ more text");
    assert_eq!(blocks[1].block_type, MdBlockType::Paragraph);
    assert_eq!(blocks[1].content, "next");
    assert_eq!(blocks[1].index, 1);
}

#[test]
fn paragraph_stops_before_an_unparsed_hash_line() {
    let blocks = parse_markdown_blocks("intro\n#tag\n");
    assert_eq!(blocks.len(), 2);
    assert_eq!(blocks[0].content, "intro");
    assert_eq!(blocks[1].block_type, MdBlockType::Paragraph);
    assert_eq!(blocks[1].content, "#tag");
}
