use kreuzberg::document::InternalDocumentBuilder;
use kreuzberg::extractors::html::decode_html_entities;
use kreuzberg::html::render_html;
use kreuzberg::markdown::render_markdown;
use kreuzberg::markdown_quality::{
    greedy_matches, longest_increasing_subsequence_length, order_score_counts, MatchCandidate,
};
use kreuzberg::render_common::html_escape;

#[test]
fn greedy_matching_takes_free_blocks_only() {
    let cands = vec![
        MatchCandidate { gt: 0, ext: 0, concat: false },
        MatchCandidate { gt: 1, ext: 0, concat: false },
        MatchCandidate { gt: 1, ext: 1, concat: true },
        MatchCandidate { gt: 2, ext: 2, concat: false },
        MatchCandidate { gt: 2, ext: 3, concat: false },
    ];
    let (accepted, pairs) = greedy_matches(&cands, &vec![10, 11, 12], &vec![20, 21, 22, 23]);
    assert_eq!(accepted, vec![0, 2, 4]);
    assert_eq!(pairs, vec![(10, 20), (11, 21), (12, 23)]);
}

#[test]
fn greedy_matching_concat_needs_the_next_block_free() {
    let cands = vec![
        MatchCandidate { gt: 0, ext: 1, concat: false },
        MatchCandidate { gt: 1, ext: 0, concat: true },
        MatchCandidate { gt: 1, ext: 0, concat: false },
        MatchCandidate { gt: 2, ext: 2, concat: true },
    ];
    let (accepted, pairs) = greedy_matches(&cands, &vec![0, 1, 2], &vec![5, 6, 7]);
    assert_eq!(accepted, vec![0, 2, 3]);
    assert_eq!(pairs, vec![(0, 6), (1, 5), (2, 7)]);
    let (none, no_pairs) = greedy_matches(&vec![], &vec![0], &vec![0]);
    assert!(none.is_empty() && no_pairs.is_empty());
}

#[test]
fn test_lis_basic() {
    assert_eq!(longest_increasing_subsequence_length(&[1, 3, 2, 4, 5]), 4);
    assert_eq!(longest_increasing_subsequence_length(&[5, 4, 3, 2, 1]), 1);
    assert_eq!(longest_increasing_subsequence_length(&[1, 2, 3, 4, 5]), 5);
}

#[test]
fn escaped_text_has_no_markup_characters() {
    let out = html_escape("<script>alert(\"x\") & 'y'</script>");
    assert_eq!(out, "&lt;script&gt;alert(&quot;x&quot;) &amp; &#x27;y&#x27;&lt;/script&gt;");
    assert!(!out.contains('<') && !out.contains('>') && !out.contains('"') && !out.contains('\''));
}

#[test]
fn single_paragraph_round_trips() {
    let mut b = InternalDocumentBuilder::new("test");
    b.push_paragraph("a < b && c", vec![], None, None);
    let doc = b.build();
    assert_eq!(render_html(&doc), "<p>a &lt; b &amp;&amp; c</p>\n");
    assert_eq!(render_markdown(&doc), "a < b && c\n");

    let mut b = InternalDocumentBuilder::new("test");
    b.push_paragraph("trailing blanks   ", vec![], None, None);
    assert_eq!(render_markdown(&b.build()), "trailing blanks\n");

    let mut b = InternalDocumentBuilder::new("test");
    b.push_paragraph("   ", vec![], None, None);
    assert_eq!(render_markdown(&b.build()), "");
}

fn compute_order_score(matches: &Vec<(usize, usize)>) -> f64 {
    if matches.is_empty() {
        return 1.0;
    }
    let (lis, n) = order_score_counts(matches);
    lis as f64 / n as f64
}

#[test]
fn test_order_score_perfect() {
    let matches = vec![(0, 0), (1, 1), (2, 2)];
    assert!((compute_order_score(&matches) - 1.0).abs() < 0.01);
}

#[test]
fn test_order_score_reversed() {
    let matches = vec![(0, 2), (1, 1), (2, 0)];
    // LIS of [2, 1, 0] = 1
    assert!((compute_order_score(&matches) - 1.0 / 3.0).abs() < 0.01);
}

#[test]
fn order_counts_sort_stably_by_ground_truth() {
    assert_eq!(order_score_counts(&vec![(2, 0), (0, 1), (1, 2)]), (2, 3));
    assert_eq!(order_score_counts(&vec![(1, 5), (0, 3), (1, 4)]), (2, 3));
    assert_eq!(order_score_counts(&vec![(1, 4), (0, 3), (1, 5)]), (3, 3));
    assert_eq!(order_score_counts(&vec![]), (0, 0));
}

#[test]
fn decoding_leaves_text_without_ampersands_alone() {
    let text: Vec<char> = "no entities <b>here</b> \"quoted\"".chars().collect();
    assert_eq!(decode_html_entities(&text), text);
    let encoded: Vec<char> = "a &lt;b&gt; &amp;amp; &nbsp;c".chars().collect();
    let decoded: String = decode_html_entities(&encoded).into_iter().collect();
    // "&amp;" is decoded first, so "&amp;amp;" becomes "&amp;" and stays so
    assert_eq!(decoded, "a <b> &amp;  c");
}
