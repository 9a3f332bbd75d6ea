//! Apple iWork documents (Keynote presentations and Pages documents): the
//! text that the IWA container yields, turned into a document.
use vstd::prelude::*;
use crate::document::{
    fresh_element, plain_builder, plain_document, trimmed_paragraphs, ElementKind, InternalDocument,
    InternalDocumentBuilder, InternalElement,
};
use crate::error::KreuzbergError;
use crate::text::{
    chars_of, contains_seq, find_exec, lines, occurs_at, split_exec, split_lines, split_on, string_of, trim,
    trim_chars,
};

verus! {


/// Keynote extractor.
pub struct KeynoteExtractor;

impl KeynoteExtractor {
    pub fn new() -> (r: Self) {
        KeynoteExtractor
    }

    /// The plugin's name.
    pub fn name(&self) -> (r: &'static str)
        ensures
            r@ == "iwork-keynote-extractor"@,
    {
        "iwork-keynote-extractor"
    }

    /// Prepares the plugin (nothing to do).
    pub fn initialize(&self) -> (r: Result<(), KreuzbergError>)
        ensures
            r is Ok,
    {
        Ok(())
    }

    /// Releases the plugin (nothing to do).
    pub fn shutdown(&self) -> (r: Result<(), KreuzbergError>)
        ensures
            r is Ok,
    {
        Ok(())
    }

    /// The MIME types this extractor handles.
    pub fn supported_mime_types(&self) -> (r: Vec<&'static str>)
        ensures
            r@.len() == 1,
            r@[0]@ == "application/x-iwork-keynote-sffkey"@,
    {
        vec!["application/x-iwork-keynote-sffkey"]
    }

    /// A one-line description of the plugin.
    pub fn description(&self) -> (r: &'static str)
        ensures
            r@ == "Apple Keynote (.key) text extraction via IWA container parser"@,
    {
        "Apple Keynote (.key) text extraction via IWA container parser"
    }

    /// The plugin's author.
    pub fn author(&self) -> (r: &'static str)
        ensures
            r@ == "Kreuzberg Team"@,
    {
        "Kreuzberg Team"
    }

    /// The extractor's priority among those for the same MIME type.
    pub fn priority(&self) -> (r: i32)
        ensures
            r == 50,
    {
        50
    }
}



/// Pages extractor.
pub struct PagesExtractor;

impl PagesExtractor {
    pub fn new() -> (r: Self) {
        PagesExtractor
    }

    /// The plugin's name.
    pub fn name(&self) -> (r: &'static str)
        ensures
            r@ == "iwork-pages-extractor"@,
    {
        "iwork-pages-extractor"
    }

    /// Prepares the plugin (nothing to do).
    pub fn initialize(&self) -> (r: Result<(), KreuzbergError>)
        ensures
            r is Ok,
    {
        Ok(())
    }

    /// Releases the plugin (nothing to do).
    pub fn shutdown(&self) -> (r: Result<(), KreuzbergError>)
        ensures
            r is Ok,
    {
        Ok(())
    }

    /// The MIME types this extractor handles.
    pub fn supported_mime_types(&self) -> (r: Vec<&'static str>)
        ensures
            r@.len() == 1,
            r@[0]@ == "application/x-iwork-pages-sffpages"@,
    {
        vec!["application/x-iwork-pages-sffpages"]
    }

    /// A one-line description of the plugin.
    pub fn description(&self) -> (r: &'static str)
        ensures
            r@ == "Apple Pages (.pages) text extraction via IWA container parser"@,
    {
        "Apple Pages (.pages) text extraction via IWA container parser"
    }

    /// The plugin's author.
    pub fn author(&self) -> (r: &'static str)
        ensures
            r@ == "Kreuzberg Team"@,
    {
        "Kreuzberg Team"
    }

    /// The extractor's priority among those for the same MIME type.
    pub fn priority(&self) -> (r: i32)
        ensures
            r == 50,
    {
        50
    }
}


/// Whether a line holds only whitespace.
pub open spec fn blank(l: Seq<char>) -> bool {
    trim(l).len() == 0
}

/// Whether line `i` starts a run of non-blank lines.
pub open spec fn starts_run(ls: Seq<Seq<char>>, i: int) -> bool {
    !blank(ls[i]) && (i == 0 || blank(ls[i - 1]))
}

/// The number of runs of non-blank lines that start among the first `n` lines.
pub open spec fn run_count(ls: Seq<Seq<char>>, n: int) -> nat
    decreases n,
{
    if n <= 0 {
        0
    } else {
        run_count(ls, n - 1) + (if starts_run(ls, n - 1) {
            1nat
        } else {
            0nat
        })
    }
}

/// The slides of the first `n` lines: each run of non-blank lines is a slide
/// titled by its first line, its other lines paragraphs of that slide.
pub open spec fn keynote_items(ls: Seq<Seq<char>>, n: int) -> Seq<(ElementKind, Seq<char>)>
    decreases n,
{
    if n <= 0 {
        Seq::empty()
    } else {
        let prev = keynote_items(ls, n - 1);
        let l = ls[n - 1];
        if blank(l) {
            prev
        } else if starts_run(ls, n - 1) {
            prev.push((ElementKind::Slide { number: run_count(ls, n) as u32 }, trim(l)))
        } else {
            prev.push((ElementKind::Paragraph, trim(l)))
        }
    }
}

/// The elements of a Keynote document built from its extracted text.
pub open spec fn keynote_elements(text: Seq<char>) -> Seq<(ElementKind, Seq<char>)> {
    let ls = lines(text);
    let items = keynote_items(ls, ls.len() as int);
    if run_count(ls, ls.len() as int) == 0 && trim(text).len() > 0 {
        items + trimmed_paragraphs(ls)
    } else {
        items
    }
}

proof fn lemma_run_count_mono(ls: Seq<Seq<char>>, a: int, b: int)
    requires
        0 <= a <= b,
    ensures
        run_count(ls, a) <= run_count(ls, b),
    decreases b - a,
{
    if a < b {
        lemma_run_count_mono(ls, a, b - 1);
    }
}

/// `build_keynote_internal_document`: slides from the runs of non-blank
/// lines.  Slides are numbered with a `u32`, so the text holds at most
/// `u32::MAX` of them.
pub fn build_keynote_internal_document(text: &str) -> (doc: InternalDocument)
    requires
        run_count(lines(text@), lines(text@).len() as int) <= u32::MAX,
    ensures
        plain_document(doc, "keynote"@, keynote_elements(text@)),
{
    let v = chars_of(text);
    let ls = split_lines(&v);
    let ghost sl = lines(text@);
    let mut b = InternalDocumentBuilder::new("keynote");
    let mut slide_number: u32 = 0;
    let mut prev_blank = true;
    let mut i: usize = 0;
    while i < ls.len()
        invariant
            i <= ls@.len() == sl.len(),
            run_count(sl, sl.len() as int) <= u32::MAX,
            sl == lines(text@),
            forall|k: int| 0 <= k < ls@.len() ==> #[trigger] ls@[k]@ == sl[k],
            prev_blank == (i == 0 || blank(sl[i - 1])),
            slide_number == run_count(sl, i as int),
            plain_builder(b, "keynote"@, keynote_items(sl, i as int)),
        decreases ls.len() - i,
    {
        proof {
            lemma_run_count_mono(sl, i + 1, sl.len() as int);
        }
        let t = trim_chars(&ls[i]);
        let ghost before = b.doc.elements@;
        let ghost items = keynote_items(sl, i + 1);
        if t.len() > 0 {
            let ts = string_of(&t);
            if prev_blank {
                slide_number += 1;
                b.push_slide(slide_number, Some(ts.as_str()), None);
            } else {
                b.push_paragraph(ts.as_str(), Vec::new(), None, None);
            }
            proof {
                assert forall|k: int| 0 <= k < b.doc.elements@.len() implies fresh_element(
                    #[trigger] b.doc.elements@[k],
                    items[k].0,
                    items[k].1,
                    0,
                ) by {
                    if k < before.len() {
                        assert(b.doc.elements@[k] == before[k]);
                    }
                }
            }
            prev_blank = false;
        } else {
            prev_blank = true;
        }
        i += 1;
    }
    if slide_number == 0 {
        let tv = trim_chars(&v);
        if tv.len() > 0 {
            b.push_trimmed_paragraphs(&ls);
            proof {
                assert(ls@.map_values(|p: Vec<char>| p@) =~= sl);
                assert(b.doc.elements@.map_values(|e: InternalElement| (e.kind, e.text@)) =~= keynote_elements(text@));
            }
        }
    }
    proof {
        if !(slide_number == 0 && trim(text@).len() > 0) {
            assert(keynote_elements(text@) == keynote_items(sl, sl.len() as int));
        }
    }
    b.build()
}

/// The elements of a Pages document built from its extracted text: a paragraph
/// per blank-line-separated block when there is a blank line, else per line.
pub open spec fn pages_elements(text: Seq<char>) -> Seq<(ElementKind, Seq<char>)> {
    if contains_seq(text, "\n\n"@) {
        trimmed_paragraphs(split_on(text, "\n\n"@))
    } else {
        trimmed_paragraphs(lines(text))
    }
}

/// `build_pages_internal_document`: paragraphs from the extracted text.
pub fn build_pages_internal_document(text: &str) -> (doc: InternalDocument)
    ensures
        plain_document(doc, "pages"@, pages_elements(text@)),
{
    let v = chars_of(text);
    let sep = chars_of("\n\n");
    proof {
        reveal_strlit("\n\n");
    }
    let mut b = InternalDocumentBuilder::new("pages");
    assert(b.doc.elements@.map_values(|e: InternalElement| (e.kind, e.text@)) =~= Seq::<
        (ElementKind, Seq<char>),
    >::empty());
    let parts = match find_exec(&v, &sep, 0) {
        Some(_) => {
            let ps = split_exec(&v, &sep);
            assert(ps@.map_values(|p: Vec<char>| p@) =~= split_on(text@, "\n\n"@));
            ps
        },
        None => {
            let ps = split_lines(&v);
            assert(ps@.map_values(|p: Vec<char>| p@) =~= lines(text@));
            ps
        },
    };
    b.push_trimmed_paragraphs(&parts);
    assert(Seq::<(ElementKind, Seq<char>)>::empty() + pages_elements(text@) =~= pages_elements(text@));
    b.build()
}


// ---------------------------------------------------------------------------
// The order in which a Keynote archive's IWA files are read
// ---------------------------------------------------------------------------
/// An IWA path of the slides: it names `Slide` or `Presentation`.
pub open spec fn slide_path(p: Seq<char>) -> bool {
    contains_seq(p, "Slide"@) || contains_seq(p, "Presentation"@)
}

/// The first `n` paths that are (`want`) or are not slide paths, in order.
pub open spec fn paths_where(ps: Seq<Seq<char>>, n: int, want: bool) -> Seq<Seq<char>>
    decreases n,
{
    if n <= 0 {
        Seq::empty()
    } else {
        paths_where(ps, n - 1, want) + (if slide_path(ps[n - 1]) == want {
            seq![ps[n - 1]]
        } else {
            Seq::empty()
        })
    }
}

fn has_substring(v: &Vec<char>, p: &Vec<char>) -> (b: bool)
    ensures
        b == contains_seq(v@, p@),
{
    match find_exec(v, p, 0) {
        Some(_) => true,
        None => {
            assert forall|k: int| !occurs_at(v@, p@, k) by {
                if k < 0 {
                }
            }
            false
        },
    }
}

/// The order in which the IWA files of a Keynote archive are read: the slide
/// files first, then the others, each group in the order given.
pub fn keynote_read_order(paths: &Vec<String>) -> (r: Vec<String>)
    ensures
        r@.map_values(|p: String| p@) == paths_where(paths@.map_values(|p: String| p@), paths@.len() as int, true)
            + paths_where(paths@.map_values(|p: String| p@), paths@.len() as int, false),
{
    let ghost pv = paths@.map_values(|p: String| p@);
    let slide = chars_of("Slide");
    let presentation = chars_of("Presentation");
    let mut first: Vec<String> = Vec::new();
    let mut rest: Vec<String> = Vec::new();
    let mut i: usize = 0;
    while i < paths.len()
        invariant
            i <= paths@.len(),
            pv == paths@.map_values(|p: String| p@),
            slide@ == "Slide"@,
            presentation@ == "Presentation"@,
            first@.map_values(|p: String| p@) == paths_where(pv, i as int, true),
            rest@.map_values(|p: String| p@) == paths_where(pv, i as int, false),
        decreases paths.len() - i,
    {
        let v = chars_of(paths[i].as_str());
        assert(pv[i as int] == paths@[i as int]@);
        let is_slide = has_substring(&v, &slide) || has_substring(&v, &presentation);
        let p = paths[i].clone();
        assert(p@ == paths@[i as int]@);
        if is_slide {
            let ghost f0 = first@;
            first.push(p);
            assert(first@.map_values(|q: String| q@) =~= f0.map_values(|q: String| q@) + seq![pv[i as int]]);
            assert(paths_where(pv, i + 1, false) =~= paths_where(pv, i as int, false));
        } else {
            let ghost r0 = rest@;
            rest.push(p);
            assert(rest@.map_values(|q: String| q@) =~= r0.map_values(|q: String| q@) + seq![pv[i as int]]);
            assert(paths_where(pv, i + 1, true) =~= paths_where(pv, i as int, true));
        }
        i += 1;
    }
    let ghost f1 = first@;
    first.append(&mut rest);
    assert(first@.map_values(|p: String| p@) =~= f1.map_values(|p: String| p@) + paths_where(pv, paths@.len() as int, false));
    first
}

} // verus!
