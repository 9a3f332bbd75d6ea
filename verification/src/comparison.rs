//! Text and markdown measures used to compare PDF extractors: word sets and
//! counts of headings, paragraph breaks and table separator rows.
use vstd::prelude::*;
use crate::layout::{join, join_path};
use crate::text::{
    chars_of, push_str, contains_seq, find_exec, lines, split_exec, split_lines, split_on, split_words, trim,
    trim_chars, words,
};

verus! {

/// The names of the PDF files compared, in the order they are compared.
pub open spec fn curated_names() -> Seq<Seq<char>> {
    seq![
        "docling.pdf"@,
        "fake_memo.pdf"@,
        "google_doc_document.pdf"@,
        "code_and_formula.pdf"@,
        "sample_contract.pdf"@,
        "test_article.pdf"@,
        "searchable.pdf"@,
        "multi_page.pdf"@,
        "right_to_left_01.pdf"@,
        "non_ascii_text.pdf"@,
        "copy_protected.pdf"@,
        "perfect_hash_functions_slides.pdf"@,
        "the_hideous_name_1985_pike85hideous.pdf"@,
        "program_design_in_the_unix_environment.pdf"@,
        "5_level_paging_and_5_level_ept_intel_revision_1_1_may_2017.pdf"@,
        "scanned.pdf"@,
        "tiny.pdf"@,
        "large.pdf"@,
    ]
}

/// The list of PDF files compared, in the order they are compared.
pub fn curated_pdfs() -> (r: Vec<&'static str>)
    ensures
        r@.map_values(|n: &'static str| n@) == curated_names(),
{
    let r = vec![
        "docling.pdf",
        "fake_memo.pdf",
        "google_doc_document.pdf",
        "code_and_formula.pdf",
        "sample_contract.pdf",
        "test_article.pdf",
        "searchable.pdf",
        "multi_page.pdf",
        "right_to_left_01.pdf",
        "non_ascii_text.pdf",
        "copy_protected.pdf",
        "perfect_hash_functions_slides.pdf",
        "the_hideous_name_1985_pike85hideous.pdf",
        "program_design_in_the_unix_environment.pdf",
        "5_level_paging_and_5_level_ept_intel_revision_1_1_may_2017.pdf",
        "scanned.pdf",
        "tiny.pdf",
        "large.pdf",
    ];
    assert(r@.map_values(|n: &'static str| n@) =~= curated_names());
    r
}

/// The paths of the first `n` names under `dir`, kept where `exists` says
/// the file is there.
pub open spec fn kept_paths(dir: Seq<char>, names: Seq<Seq<char>>, exists: Seq<bool>, n: int) -> Seq<Seq<char>>
    decreases n,
{
    if n <= 0 {
        Seq::empty()
    } else {
        kept_paths(dir, names, exists, n - 1) + (if exists[n - 1] {
            seq![join_path(dir, names[n - 1])]
        } else {
            Seq::empty()
        })
    }
}

/// `curated_files`: the curated PDFs under `pdf_dir` that exist; `exists`
/// tells, for each curated name in order, whether its file is there.
pub fn curated_files(pdf_dir: &str, exists: &Vec<bool>) -> (r: Vec<String>)
    requires
        exists@.len() == curated_names().len(),
    ensures
        r@.map_values(|p: String| p@) == kept_paths(pdf_dir@, curated_names(), exists@, curated_names().len() as int),
{
    let names = curated_pdfs();
    let mut r: Vec<String> = Vec::new();
    let mut i: usize = 0;
    while i < names.len()
        invariant
            i <= names@.len() == exists@.len() == curated_names().len(),
            names@.map_values(|n: &'static str| n@) == curated_names(),
            r@.map_values(|p: String| p@) == kept_paths(pdf_dir@, curated_names(), exists@, i as int),
        decreases names.len() - i,
    {
        assert(names@.map_values(|n: &'static str| n@)[i as int] == names@[i as int]@);
        if exists[i] {
            let p = join(pdf_dir, names[i]);
            let ghost r0 = r@;
            r.push(p);
            assert(r@.map_values(|q: String| q@) =~= r0.map_values(|q: String| q@) + seq![p@]);
        } else {
            assert(kept_paths(pdf_dir@, curated_names(), exists@, i + 1) =~= kept_paths(pdf_dir@, curated_names(), exists@, i as int));
        }
        i += 1;
    }
    r
}

/// The number of lines of `ls` that satisfy `p`, among the first `n`.
pub open spec fn count_lines(ls: Seq<Seq<char>>, n: int, p: spec_fn(Seq<char>) -> bool) -> nat
    decreases n,
{
    if n <= 0 {
        0
    } else {
        count_lines(ls, n - 1, p) + (if p(ls[n - 1]) {
            1nat
        } else {
            0nat
        })
    }
}

/// A heading line starts with `#`.
pub open spec fn is_heading_line(l: Seq<char>) -> bool {
    l.len() > 0 && l[0] == '#'
}

/// A table separator line: trimmed, it starts with `|` and holds `---`.
pub open spec fn is_table_separator(l: Seq<char>) -> bool {
    let t = trim(l);
    t.len() > 0 && t[0] == '|' && contains_seq(t, "---"@)
}

fn count_matching(ls: &Vec<Vec<char>>, tables: bool) -> (n: usize)
    ensures
        n == count_lines(
            ls@.map_values(|l: Vec<char>| l@),
            ls@.len() as int,
            if tables {
                |l: Seq<char>| is_table_separator(l)
            } else {
                |l: Seq<char>| is_heading_line(l)
            },
        ),
{
    let ghost sl = ls@.map_values(|l: Vec<char>| l@);
    let ghost p = if tables {
        |l: Seq<char>| is_table_separator(l)
    } else {
        |l: Seq<char>| is_heading_line(l)
    };
    let dashes = chars_of("---");
    proof {
        reveal_strlit("---");
    }
    let mut n: usize = 0;
    let mut i: usize = 0;
    while i < ls.len()
        invariant
            i <= ls@.len(),
            sl == ls@.map_values(|l: Vec<char>| l@),
            p == (if tables {
                |l: Seq<char>| is_table_separator(l)
            } else {
                |l: Seq<char>| is_heading_line(l)
            }),
            dashes@ == "---"@,
            n <= i,
            n == count_lines(sl, i as int, p),
        decreases ls.len() - i,
    {
        let l = &ls[i];
        let hit = if tables {
            let t = trim_chars(l);
            t.len() > 0 && t[0] == '|' && find_exec(&t, &dashes, 0).is_some()
        } else {
            l.len() > 0 && l[0] == '#'
        };
        assert(sl[i as int] == l@);
        if hit {
            n += 1;
        }
        i += 1;
    }
    n
}

/// The number of lines of the markdown that start with `#`.
pub open spec fn heading_count(md: Seq<char>) -> nat {
    count_lines(lines(md), lines(md).len() as int, |l: Seq<char>| is_heading_line(l))
}

/// The number of table separator lines of the markdown.
pub open spec fn table_count(md: Seq<char>) -> nat {
    count_lines(lines(md), lines(md).len() as int, |l: Seq<char>| is_table_separator(l))
}

/// `count_headings`.
pub fn count_headings(md: &str) -> (n: usize)
    ensures
        n == heading_count(md@),
{
    let v = chars_of(md);
    let ls = split_lines(&v);
    assert(ls@.map_values(|l: Vec<char>| l@) =~= lines(md@));
    count_matching(&ls, false)
}

/// `count_tables`.
pub fn count_tables(md: &str) -> (n: usize)
    ensures
        n == table_count(md@),
{
    let v = chars_of(md);
    let ls = split_lines(&v);
    assert(ls@.map_values(|l: Vec<char>| l@) =~= lines(md@));
    count_matching(&ls, true)
}

/// `count_paragraphs`: the number of non-overlapping `"\n\n"` in the markdown.
pub fn count_paragraphs(md: &str) -> (n: usize)
    ensures
        n + 1 == split_on(md@, "\n\n"@).len(),
{
    let v = chars_of(md);
    let sep = chars_of("\n\n");
    proof {
        reveal_strlit("\n\n");
    }
    let parts = split_exec(&v, &sep);
    proof {
        lemma_split_nonempty(md@, "\n\n"@);
    }
    parts.len() - 1
}

proof fn lemma_split_nonempty(s: Seq<char>, p: Seq<char>)
    ensures
        split_on(s, p).len() >= 1,
{
    reveal(split_on);
}

/// What `str::to_lowercase` yields for a text.
pub uninterp spec fn lowercase_of(s: Seq<char>) -> Seq<char>;

/// `str::to_lowercase`: the Unicode lower-case form, named `lowercase_of(s)`.
#[verifier::external_body]
fn to_lowercase(s: &str) -> (r: String)
    ensures
        r@ == lowercase_of(s@),
{
    s.to_lowercase()
}

/// Whether some string of `r` reads `x`.
pub open spec fn holds_text(r: Seq<String>, x: Seq<char>) -> bool {
    exists|k: int| 0 <= k < r.len() && r[k]@ == x
}

/// Whether `x` is the lower-cased form of one of the first `n` words.
pub open spec fn is_lowered_word(ws: Seq<Seq<char>>, n: int, x: Seq<char>) -> bool {
    exists|w: int| 0 <= w < n && lowercase_of(ws[w]) == x
}

/// The distinct lower-cased words of a text (`word_set`), in order of first
/// appearance.
pub fn word_set(text: &str) -> (r: Vec<String>)
    ensures
        forall|i: int, j: int| 0 <= i < j < r@.len() ==> r@[i]@ != r@[j]@,
        forall|k: int| 0 <= k < r@.len() ==> is_lowered_word(words(text@), words(text@).len() as int, (#[trigger] r@[k])@),
        forall|w: int| 0 <= w < words(text@).len() ==> holds_text(r@, lowercase_of(#[trigger] words(text@)[w])),
{
    let v = chars_of(text);
    let ws = split_words(&v);
    let ghost sw = words(text@);
    let mut r: Vec<String> = Vec::new();
    let mut i: usize = 0;
    while i < ws.len()
        invariant
            i <= ws@.len() == sw.len(),
            sw == words(text@),
            forall|k: int| 0 <= k < ws@.len() ==> #[trigger] ws@[k]@ == sw[k],
            forall|a: int, b: int| 0 <= a < b < r@.len() ==> r@[a]@ != r@[b]@,
            forall|k: int| 0 <= k < r@.len() ==> is_lowered_word(sw, i as int, (#[trigger] r@[k])@),
            forall|w: int| 0 <= w < i ==> holds_text(r@, lowercase_of(#[trigger] sw[w])),
        decreases ws.len() - i,
    {
        let s = crate::text::string_of(&ws[i]);
        let low = to_lowercase(s.as_str());
        assert(low@ == lowercase_of(sw[i as int]));
        let mut j: usize = 0;
        let mut seen = false;
        while j < r.len()
            invariant
                j <= r@.len(),
                seen ==> holds_text(r@, low@),
                !seen ==> forall|k: int| 0 <= k < j ==> r@[k]@ != low@,
            decreases r.len() - j,
        {
            if r[j] == low {
                seen = true;
            }
            j += 1;
        }
        let ghost old_r = r@;
        if !seen {
            r.push(low);
            proof {
                assert forall|k: int| 0 <= k < r@.len() implies is_lowered_word(sw, i + 1, (#[trigger] r@[k])@) by {
                    if k < old_r.len() {
                        assert(r@[k] == old_r[k]);
                        assert(is_lowered_word(sw, i as int, old_r[k]@));
                    } else {
                        assert(lowercase_of(sw[i as int]) == r@[k]@);
                    }
                }
                assert forall|w: int| 0 <= w < i + 1 implies holds_text(r@, lowercase_of(#[trigger] sw[w])) by {
                    if w < i {
                        assert(holds_text(old_r, lowercase_of(sw[w])));
                        let k = choose|k: int| 0 <= k < old_r.len() && old_r[k]@ == lowercase_of(sw[w]);
                        assert(r@[k] == old_r[k]);
                    } else {
                        assert(r@[old_r.len() as int]@ == lowercase_of(sw[w]));
                    }
                }
            }
        } else {
            proof {
                assert forall|k: int| 0 <= k < r@.len() implies is_lowered_word(sw, i + 1, (#[trigger] r@[k])@) by {
                    assert(is_lowered_word(sw, i as int, r@[k]@));
                }
            }
        }
        i += 1;
    }
    r
}


/// The texts of the first `n` pages joined: a newline between two pages
/// only when the text so far and the next page's text are both non-empty.
pub open spec fn joined_pages(pages: Seq<Seq<char>>, n: int) -> Seq<char>
    decreases n,
{
    if n <= 0 {
        Seq::empty()
    } else {
        let t = joined_pages(pages, n - 1);
        if t.len() > 0 && pages[n - 1].len() > 0 {
            t + "\n"@ + pages[n - 1]
        } else {
            t + pages[n - 1]
        }
    }
}

/// How the text of a document is assembled from its pages' texts.
pub fn join_page_texts(pages: &Vec<String>) -> (r: String)
    ensures
        r@ == joined_pages(pages@.map_values(|p: String| p@), pages@.len() as int),
{
    let ghost pv = pages@.map_values(|p: String| p@);
    let mut r = String::new();
    let mut i: usize = 0;
    while i < pages.len()
        invariant
            i <= pages@.len(),
            pv == pages@.map_values(|p: String| p@),
            r@ == joined_pages(pv, i as int),
        decreases pages.len() - i,
    {
        let page = pages[i].as_str();
        assert(pv[i as int] == page@);
        if r.as_str().unicode_len() > 0 && page.unicode_len() > 0 {
            push_str(&mut r, "\n");
        }
        push_str(&mut r, page);
        i += 1;
    }
    r
}

} // verus!
