//! Rendering of an `InternalDocument` as HTML.
//!
//! All document text is escaped, except raw blocks in the `html` format.
//! Slides open a `<section>` that the next slide, the end of a group or the end
//! of the document closes.  Footnote definitions and citations are written in
//! sections of their own at the end.
use vstd::prelude::*;
use crate::document::{attr_value, ContentLayer, ElementKind, InternalDocument, InternalElement, TextAnnotation};
use crate::footnotes::{footnote_keys, footnote_texts, is_new_definition, lemma_footnote_lens, ref_number, FootnoteCollector};
use crate::inline::{annotated, render_html_annotated, unannotated_text, Flavor};
use crate::markdown::{admonition_title, citation_key};
use crate::render_common::{
    admonition_kind, attr_or_empty, capitalize_chars, finalize, finalize_output, get_admonition_kind, get_attr,
    get_attr_or_empty, html_esc, image_desc, image_desc_exec, image_url, image_url_exec, innermost_ordered,
    metadata_entries, parse_metadata_entries, pop_container, pop_to_depth, push_escaped, push_escaped_str,
    push_with_nl, table_text, table_text_exec, with_nl, Container, ContainerTag, NestingKind, RenderState,
};
use crate::text::{back_ws, chars_of, decimal, lines, push_decimal, push_str};

verus! {

/// The inline HTML of an element's text.
pub open spec fn ann_html(e: InternalElement) -> Seq<char> {
    annotated(e.text@, e.annotations@, Flavor::Html)
}

/// The heading level written: at most 6.
pub open spec fn html_level(level: u8) -> nat {
    if level > 6 {
        6
    } else {
        level as nat
    }
}

/// Metadata entries as `<dt>`/`<dd>` lines.
pub open spec fn html_metadata(es: Seq<(Seq<char>, Seq<char>)>) -> Seq<char>
    decreases es.len(),
{
    if es.len() == 0 {
        Seq::empty()
    } else {
        html_metadata(es.drop_last()) + "<dt>"@ + html_esc(es.last().0) + "</dt><dd>"@ + html_esc(es.last().1)
            + "</dd>\n"@
    }
}

/// A code block; its language, when known, as a class.
pub open spec fn html_code(e: InternalElement) -> Seq<char> {
    let lang = attr_or_empty(e, "language"@);
    if lang.len() == 0 {
        "<pre><code>"@ + html_esc(e.text@) + "</code></pre>\n"@
    } else {
        "<pre><code class=\"language-"@ + html_esc(lang) + "\">"@ + html_esc(e.text@) + "</code></pre>\n"@
    }
}

/// An image as a figure, captioned by its description when it has one.
pub open spec fn html_image(doc: InternalDocument, idx: int) -> Seq<char> {
    let desc = image_desc(doc, idx);
    "<figure><img src=\""@ + html_esc(image_url(doc, idx)) + "\" alt=\""@ + html_esc(desc) + "\">"@ + (if desc.len()
        > 0 {
        "<figcaption>"@ + html_esc(desc) + "</figcaption>"@
    } else {
        Seq::empty()
    }) + "</figure>\n"@
}

/// An admonition as a classed `<div>` with a title paragraph.
pub open spec fn html_admonition(e: InternalElement) -> Seq<char> {
    "<div class=\"admonition "@ + html_esc(admonition_kind(e)) + "\">\n"@ + "<p class=\"admonition-title\">"@
        + html_esc(admonition_title(e)) + "</p>\n"@ + (if ann_html(e).len() > 0 {
        "<p>"@ + ann_html(e) + "</p>\n"@
    } else {
        Seq::empty()
    }) + "</div>\n"@
}

/// A raw block: verbatim when its format is `html`, else escaped in `<pre>`.
pub open spec fn html_raw(e: InternalElement) -> Seq<char> {
    if attr_value(e.attributes@, "format"@) == Some("html"@) {
        with_nl(e.text@)
    } else {
        "<pre>"@ + html_esc(e.text@) + "</pre>\n"@
    }
}

/// A metadata block: its entries as a definition list, else its text in `<pre>`.
pub open spec fn html_meta(e: InternalElement) -> Seq<char> {
    let es = metadata_entries(lines(e.text@));
    if es.len() > 0 {
        "<dl class=\"metadata\">\n"@ + html_metadata(es) + "</dl>\n"@
    } else if e.text@.len() > 0 {
        "<pre class=\"metadata\">"@ + html_esc(e.text@) + "</pre>\n"@
    } else {
        Seq::empty()
    }
}

/// The HTML of an element whose output does not depend on the nesting state or
/// on an open slide (empty for elements that write nothing in the body).
pub open spec fn html_block(doc: InternalDocument, e: InternalElement) -> Seq<char> {
    match e.kind {
        ElementKind::Title => "<h1>"@ + ann_html(e) + "</h1>\n"@,
        ElementKind::Heading { level } => "<h"@ + decimal(html_level(level)) + ">"@ + ann_html(e) + "</h"@ + decimal(
            html_level(level),
        ) + ">\n"@,
        ElementKind::Paragraph => "<p>"@ + ann_html(e) + "</p>\n"@,
        ElementKind::OcrText => "<p>"@ + ann_html(e) + "</p>\n"@,
        ElementKind::ListItem { .. } => "<li>"@ + ann_html(e) + "</li>\n"@,
        ElementKind::Code => html_code(e),
        ElementKind::Formula => "<div class=\"math\">$$"@ + html_esc(e.text@) + "$$</div>\n"@,
        ElementKind::Table { table_index } => match table_text(doc, table_index as int, true) {
            Some(t) => t + "\n"@,
            None => Seq::empty(),
        },
        ElementKind::Image { image_index } => html_image(doc, image_index as int),
        ElementKind::PageBreak => "<hr class=\"page-break\">\n"@,
        ElementKind::DefinitionTerm => "<dt>"@ + ann_html(e) + "</dt>\n"@,
        ElementKind::DefinitionDescription => "<dd>"@ + ann_html(e) + "</dd>\n"@,
        ElementKind::Admonition => html_admonition(e),
        ElementKind::RawBlock => html_raw(e),
        ElementKind::MetadataBlock => html_meta(e),
        _ => Seq::empty(),
    }
}

/// One step of the body pass: element `i` written in state `s`.
pub open spec fn html_step(doc: InternalDocument, i: int, s: (Seq<char>, Seq<Container>, bool)) -> (
    Seq<char>,
    Seq<Container>,
    bool,
) {
    let (out, st, slide) = s;
    let e = doc.elements@[i];
    if e.layer != ContentLayer::Body {
        s
    } else {
        match e.kind {
            ElementKind::ListEnd => (
                out + (if innermost_ordered(st) {
                    "</ol>\n"@
                } else {
                    "</ul>\n"@
                }),
                pop_container(st, ContainerTag::List),
                slide,
            ),
            ElementKind::QuoteEnd => (out + "</blockquote>\n"@, pop_container(st, ContainerTag::BlockQuote), slide),
            ElementKind::GroupEnd => (
                out + (if slide {
                    "</section>\n"@
                } else {
                    Seq::empty()
                }) + "</section>\n"@,
                pop_container(st, ContainerTag::Group),
                false,
            ),
            _ => {
                let st1 = pop_to_depth(st, e.depth);
                match e.kind {
                    ElementKind::ListStart { ordered } => (
                        out + (if ordered {
                            "<ol>\n"@
                        } else {
                            "<ul>\n"@
                        }),
                        st1.push(Container { kind: NestingKind::List { ordered, item_count: 0 }, depth: e.depth }),
                        slide,
                    ),
                    ElementKind::QuoteStart => (
                        out + "<blockquote>\n"@,
                        st1.push(Container { kind: NestingKind::BlockQuote, depth: e.depth }),
                        slide,
                    ),
                    ElementKind::GroupStart => (
                        out + "<section>\n"@,
                        st1.push(Container { kind: NestingKind::Group, depth: e.depth }),
                        slide,
                    ),
                    ElementKind::FootnoteRef => match ref_number(doc.elements@, i) {
                        Some(n) => (
                            out + "<sup><a href=\"#fn-"@ + decimal(n) + "\" id=\"fnref-"@ + decimal(n) + "\">"@
                                + decimal(n) + "</a></sup>"@,
                            st1,
                            slide,
                        ),
                        None => (out, st1, slide),
                    },
                    ElementKind::Slide { number } => (
                        out + (if slide {
                            "</section>\n"@
                        } else {
                            Seq::empty()
                        }) + "<section class=\"slide\" data-slide=\""@ + decimal(number as nat) + "\">\n"@ + (
                        if e.text@.len() > 0 {
                            "<h2>"@ + ann_html(e) + "</h2>\n"@
                        } else {
                            Seq::empty()
                        }),
                        st1,
                        true,
                    ),
                    _ => (out + html_block(doc, e), st1, slide),
                }
            },
        }
    }
}

/// The body pass over the first `n` elements.
pub open spec fn html_body(doc: InternalDocument, n: int) -> (Seq<char>, Seq<Container>, bool)
    decreases n,
{
    if n <= 0 {
        (Seq::empty(), Seq::empty(), false)
    } else {
        html_step(doc, n - 1, html_body(doc, n - 1))
    }
}

/// Footnote definitions `1..=n` as list items linking back to their references.
pub open spec fn html_footnote_entries(texts: Seq<Seq<char>>, n: int) -> Seq<char>
    decreases n,
{
    if n <= 0 {
        Seq::empty()
    } else {
        html_footnote_entries(texts, n - 1) + "<li id=\"fn-"@ + decimal(n as nat) + "\"><p>"@ + html_esc(
            texts[n - 1],
        ) + " <a href=\"#fnref-"@ + decimal(n as nat) + "\">&#x21a9;</a></p></li>\n"@
    }
}

/// The footnote section, when there are footnote definitions.
pub open spec fn html_footnotes(texts: Seq<Seq<char>>) -> Seq<char> {
    if texts.len() == 0 {
        Seq::empty()
    } else {
        "<section class=\"footnotes\">\n<hr>\n<ol>\n"@ + html_footnote_entries(texts, texts.len() as int)
            + "</ol>\n</section>\n"@
    }
}

/// The citations among the first `n` elements, one paragraph each.
pub open spec fn html_citation_entries(elems: Seq<InternalElement>, n: int) -> Seq<char>
    decreases n,
{
    if n <= 0 {
        Seq::empty()
    } else {
        html_citation_entries(elems, n - 1) + (if elems[n - 1].kind == ElementKind::Citation {
            "<p id=\"cite-"@ + html_esc(citation_key(elems[n - 1])) + "\">"@ + html_esc(elems[n - 1].text@)
                + "</p>\n"@
        } else {
            Seq::empty()
        })
    }
}

/// Whether any of the first `n` elements is a citation.
pub open spec fn has_citation(elems: Seq<InternalElement>, n: int) -> bool {
    exists|k: int| 0 <= k < n && #[trigger] elems[k].kind == ElementKind::Citation
}

/// The citation section, when there are citations.
pub open spec fn html_citations(elems: Seq<InternalElement>) -> Seq<char> {
    if has_citation(elems, elems.len() as int) {
        "<section class=\"citations\">\n"@ + html_citation_entries(elems, elems.len() as int) + "</section>\n"@
    } else {
        Seq::empty()
    }
}

/// The HTML of a document.
pub open spec fn html_of(doc: InternalDocument) -> Seq<char> {
    let (out, st, slide) = html_body(doc, doc.elements@.len() as int);
    finalize(out + (if slide {
        "</section>\n"@
    } else {
        Seq::empty()
    }) + html_footnotes(footnote_texts(doc.elements@)) + html_citations(doc.elements@))
}

proof fn lemma_one_paragraph_html(doc: InternalDocument)
    requires
        doc.elements@.len() == 1,
        doc.elements@[0].kind == ElementKind::Paragraph,
        doc.elements@[0].layer == ContentLayer::Body,
    ensures
        html_of(doc) == "<p>"@ + ann_html(doc.elements@[0]) + "</p>\n"@,
{
    let es = doc.elements@;
    let e = es[0];
    reveal_strlit("</p>\n");
    let x = "<p>"@ + ann_html(e) + "</p>\n"@;
    assert(html_body(doc, 0) == (Seq::<char>::empty(), Seq::<Container>::empty(), false));
    assert(html_body(doc, 1).0 =~= x);
    assert(es.drop_last() =~= Seq::<InternalElement>::empty());
    assert(footnote_texts(es.drop_last()) =~= Seq::<Seq<char>>::empty());
    assert(es.last() == e);
    assert(!is_new_definition(e, footnote_keys(es.drop_last())));
    assert(footnote_texts(es) =~= Seq::<Seq<char>>::empty());
    assert(!has_citation(es, 1)) by {
        if has_citation(es, 1) {
            let k = choose|k: int| 0 <= k < 1 && #[trigger] es[k].kind == ElementKind::Citation;
            assert(k == 0);
        }
    }
    let y = x + Seq::<char>::empty() + html_footnotes(footnote_texts(es)) + html_citations(es);
    assert(y =~= x);
    let n = x.len() as int;
    assert(x[n - 1] == '\n');
    assert(x[n - 2] == '>');
    assert(back_ws(x, n - 1) == n - 1);
    assert(back_ws(x, n) == n - 1);
    assert(x.take(n - 1).push('\n') =~= x);
}

/// An image whose bytes the document holds is referred to by the file name
/// `image_<index>.<format>`, whatever source path it has: a document holding
/// one image element renders in HTML as a figure whose `img` has that `src`,
/// its description as `alt`, and the description as caption when there is one.
pub proof fn embedded_image_html_src(doc: InternalDocument)
    requires
        doc.elements@.len() == 1,
        doc.elements@[0].layer == ContentLayer::Body,
        doc.elements@[0].kind matches ElementKind::Image { image_index } && image_index < doc.images@.len()
            && doc.images@[image_index as int].data@.len() > 0,
    ensures
        ({
            let i = doc.elements@[0].kind->image_index;
            let img = doc.images@[i as int];
            let desc = match img.description {
                Some(d) => d@,
                None => Seq::empty(),
            };
            html_of(doc) == "<figure><img src=\""@ + html_esc("image_"@ + decimal(i as nat) + "."@ + img.format@)
                + "\" alt=\""@ + html_esc(desc) + "\">"@ + (if desc.len() > 0 {
                "<figcaption>"@ + html_esc(desc) + "</figcaption>"@
            } else {
                Seq::empty()
            }) + "</figure>\n"@
        }),
{
    let es = doc.elements@;
    let e = es[0];
    reveal_strlit("</figure>\n");
    let x = html_block(doc, e);
    assert(html_body(doc, 0) == (Seq::<char>::empty(), Seq::<Container>::empty(), false));
    assert(html_body(doc, 1).0 =~= x);
    assert(es.drop_last() =~= Seq::<InternalElement>::empty());
    assert(footnote_texts(es.drop_last()) =~= Seq::<Seq<char>>::empty());
    assert(es.last() == e);
    assert(!is_new_definition(e, footnote_keys(es.drop_last())));
    assert(footnote_texts(es) =~= Seq::<Seq<char>>::empty());
    assert(!has_citation(es, 1)) by {
        if has_citation(es, 1) {
            let k = choose|k: int| 0 <= k < 1 && #[trigger] es[k].kind == ElementKind::Citation;
            assert(k == 0);
        }
    }
    let y = x + Seq::<char>::empty() + html_footnotes(footnote_texts(es)) + html_citations(es);
    assert(y =~= x);
    let n = x.len() as int;
    assert(x[n - 1] == '\n');
    assert(x[n - 2] == '>');
    assert(back_ws(x, n - 1) == n - 1);
    assert(back_ws(x, n) == n - 1);
    assert(x.take(n - 1).push('\n') =~= x);
}

/// A document holding one body paragraph without annotations renders as
/// that paragraph's text, escaped, in a `<p>` element.
pub proof fn single_paragraph_html(doc: InternalDocument)
    requires
        doc.elements@.len() == 1,
        doc.elements@[0].kind == ElementKind::Paragraph,
        doc.elements@[0].layer == ContentLayer::Body,
        doc.elements@[0].annotations@.len() == 0,
    ensures
        html_of(doc) == "<p>"@ + html_esc(doc.elements@[0].text@) + "</p>\n"@,
{
    let e = doc.elements@[0];
    lemma_one_paragraph_html(doc);
    unannotated_text(e.text@);
    assert(e.annotations@ =~= Seq::<TextAnnotation>::empty());
}

/// Links with dangerous schemes never reach a document's HTML: a document
/// holding one body paragraph whose annotations are all such links renders as
/// that paragraph's text, escaped, in a `<p>` element, with no link.
pub proof fn dangerous_links_are_dropped_from_html(doc: InternalDocument)
    requires
        doc.elements@.len() == 1,
        doc.elements@[0].kind == ElementKind::Paragraph,
        doc.elements@[0].layer == ContentLayer::Body,
        crate::inline::all_dangerous_links(doc.elements@[0].annotations@),
    ensures
        html_of(doc) == "<p>"@ + html_esc(doc.elements@[0].text@) + "</p>\n"@,
{
    let e = doc.elements@[0];
    lemma_one_paragraph_html(doc);
    crate::inline::dangerous_links_render_as_text(e.text@, e.annotations@);
}

/// A document holding one body paragraph, unannotated or annotated only by
/// links with dangerous schemes, renders with no markup taken from its text:
/// whatever the text holds, no `<script>` occurs in the output.
pub proof fn single_paragraph_html_has_no_script(doc: InternalDocument)
    requires
        doc.elements@.len() == 1,
        doc.elements@[0].kind == ElementKind::Paragraph,
        doc.elements@[0].layer == ContentLayer::Body,
        crate::inline::all_dangerous_links(doc.elements@[0].annotations@),
    ensures
        !crate::text::contains_seq(html_of(doc), "<script>"@),
{
    dangerous_links_are_dropped_from_html(doc);
    let t = doc.elements@[0].text@;
    let esc = html_esc(t);
    crate::render_common::escaped_text_has_no_markup(t);
    let x = html_of(doc);
    reveal_strlit("<script>");
    reveal_strlit("<p>");
    reveal_strlit("</p>\n");
    let n = esc.len() as int;
    assert(x.len() == n + 8);
    assert(x[0] == '<' && x[1] == 'p' && x[2] == '>');
    assert(x[n + 3] == '<' && x[n + 4] == '/' && x[n + 5] == 'p' && x[n + 6] == '>' && x[n + 7] == '\n');
    assert forall|k: int| !crate::text::occurs_at(x, "<script>"@, k) by {
        if crate::text::occurs_at(x, "<script>"@, k) {
            assert(x.subrange(k, k + 8)[0] == '<');
            assert(x.subrange(k, k + 8)[1] == 's');
            assert(x[k] == '<');
            assert(x[k + 1] == 's');
            if 3 <= k < n + 3 {
                assert(x[k] == esc[k - 3]);
            }
        }
    }
}

fn push_tagged(out: &mut String, open: &str, e: &InternalElement, close: &str)
    ensures
        final(out)@ == old(out)@ + (open@ + ann_html(*e) + close@),
{
    push_str(out, open);
    let t = render_html_annotated(e.text.as_str(), &e.annotations);
    push_str(out, t.as_str());
    push_str(out, close);
    assert(out@ =~= old(out)@ + (open@ + ann_html(*e) + close@));
}

fn push_escaped_tagged(out: &mut String, open: &str, s: &str, close: &str)
    ensures
        final(out)@ == old(out)@ + (open@ + html_esc(s@) + close@),
{
    push_str(out, open);
    push_escaped_str(out, s);
    push_str(out, close);
    assert(out@ =~= old(out)@ + (open@ + html_esc(s@) + close@));
}

fn push_heading(out: &mut String, e: &InternalElement, level: u8)
    ensures
        final(out)@ == old(out)@ + ("<h"@ + decimal(html_level(level)) + ">"@ + ann_html(*e) + "</h"@ + decimal(
            html_level(level),
        ) + ">\n"@),
{
    let lvl: u8 = if level > 6 { 6 } else { level };
    push_str(out, "<h");
    push_decimal(out, lvl as u64);
    push_str(out, ">");
    let t = render_html_annotated(e.text.as_str(), &e.annotations);
    push_str(out, t.as_str());
    push_str(out, "</h");
    push_decimal(out, lvl as u64);
    push_str(out, ">\n");
    assert(out@ =~= old(out)@ + ("<h"@ + decimal(html_level(level)) + ">"@ + ann_html(*e) + "</h"@ + decimal(
        html_level(level),
    ) + ">\n"@));
}

fn push_code(out: &mut String, e: &InternalElement)
    ensures
        final(out)@ == old(out)@ + html_code(*e),
{
    let lang = get_attr_or_empty(e, "language");
    if lang.len() == 0 {
        push_escaped_tagged(out, "<pre><code>", e.text.as_str(), "</code></pre>\n");
    } else {
        push_str(out, "<pre><code class=\"language-");
        push_escaped(out, &lang);
        push_escaped_tagged(out, "\">", e.text.as_str(), "</code></pre>\n");
        assert(out@ =~= old(out)@ + html_code(*e));
    }
}

fn push_image(out: &mut String, doc: &InternalDocument, idx: usize)
    ensures
        final(out)@ == old(out)@ + html_image(*doc, idx as int),
{
    let desc = image_desc_exec(doc, idx);
    let url = image_url_exec(doc, idx);
    push_escaped_tagged(out, "<figure><img src=\"", url.as_str(), "\" alt=\"");
    push_escaped_tagged(out, "", desc.as_str(), "\">");
    if !desc.as_str().is_empty() {
        push_escaped_tagged(out, "<figcaption>", desc.as_str(), "</figcaption>");
    }
    push_str(out, "</figure>\n");
    proof {
        reveal_strlit("");
    }
    assert(out@ =~= old(out)@ + html_image(*doc, idx as int));
}

fn push_admonition(out: &mut String, e: &InternalElement)
    ensures
        final(out)@ == old(out)@ + html_admonition(*e),
{
    let kind = get_admonition_kind(e);
    push_str(out, "<div class=\"admonition ");
    push_escaped(out, &kind);
    push_str(out, "\">\n");
    push_str(out, "<p class=\"admonition-title\">");
    match get_attr(e, "title") {
        Some(t) => push_escaped(out, &t),
        None => {
            let c = capitalize_chars(&kind);
            push_escaped(out, &c);
        },
    }
    push_str(out, "</p>\n");
    let t = render_html_annotated(e.text.as_str(), &e.annotations);
    if !t.as_str().is_empty() {
        push_str(out, "<p>");
        push_str(out, t.as_str());
        push_str(out, "</p>\n");
    }
    push_str(out, "</div>\n");
    assert(out@ =~= old(out)@ + html_admonition(*e));
}

fn push_raw(out: &mut String, e: &InternalElement)
    ensures
        final(out)@ == old(out)@ + html_raw(*e),
{
    let is_html = match get_attr(e, "format") {
        Some(f) => {
            let r = f.len() == 4 && f[0] == 'h' && f[1] == 't' && f[2] == 'm' && f[3] == 'l';
            proof {
                reveal_strlit("html");
                if r {
                    assert(f@ =~= "html"@);
                }
            }
            r
        },
        None => false,
    };
    if is_html {
        push_with_nl(out, e.text.as_str());
    } else {
        push_escaped_tagged(out, "<pre>", e.text.as_str(), "</pre>\n");
    }
}

fn push_meta(out: &mut String, e: &InternalElement)
    ensures
        final(out)@ == old(out)@ + html_meta(*e),
{
    let tv = chars_of(e.text.as_str());
    let es = parse_metadata_entries(&tv);
    let ghost ses = metadata_entries(lines(e.text@));
    if es.len() > 0 {
        push_str(out, "<dl class=\"metadata\">\n");
        let ghost p = out@;
        let mut i: usize = 0;
        assert(ses.take(0) =~= Seq::<(Seq<char>, Seq<char>)>::empty());
        while i < es.len()
            invariant
                i <= es@.len() == ses.len(),
                ses == metadata_entries(lines(e.text@)),
                forall|k: int| 0 <= k < es@.len() ==> (#[trigger] es@[k]).0@ == ses[k].0 && es@[k].1@ == ses[k].1,
                out@ == p + html_metadata(ses.take(i as int)),
            decreases es.len() - i,
        {
            assert(ses.take(i + 1).drop_last() =~= ses.take(i as int));
            push_str(out, "<dt>");
            push_escaped(out, &es[i].0);
            push_str(out, "</dt><dd>");
            push_escaped(out, &es[i].1);
            push_str(out, "</dd>\n");
            i += 1;
            assert(out@ =~= p + html_metadata(ses.take(i as int)));
        }
        assert(ses.take(ses.len() as int) =~= ses);
        push_str(out, "</dl>\n");
        assert(out@ =~= old(out)@ + html_meta(*e));
    } else if tv.len() > 0 {
        push_escaped_tagged(out, "<pre class=\"metadata\">", e.text.as_str(), "</pre>\n");
    } else {
        assert(old(out)@ + html_meta(*e) =~= old(out)@);
    }
}

/// Writes the HTML of an element of the kinds `html_block` covers.
fn push_html_block(out: &mut String, doc: &InternalDocument, e: &InternalElement)
    ensures
        final(out)@ == old(out)@ + html_block(*doc, *e),
{
    match e.kind {
        ElementKind::Title => push_tagged(out, "<h1>", e, "</h1>\n"),
        ElementKind::Heading { level } => push_heading(out, e, level),
        ElementKind::Paragraph => push_tagged(out, "<p>", e, "</p>\n"),
        ElementKind::OcrText => push_tagged(out, "<p>", e, "</p>\n"),
        ElementKind::ListItem { .. } => push_tagged(out, "<li>", e, "</li>\n"),
        ElementKind::Code => push_code(out, e),
        ElementKind::Formula => push_escaped_tagged(out, "<div class=\"math\">$$", e.text.as_str(), "$$</div>\n"),
        ElementKind::Table { table_index } => {
            match table_text_exec(doc, table_index, true) {
                Some(t) => {
                    push_str(out, t.as_str());
                    push_str(out, "\n");
                    assert(out@ =~= old(out)@ + html_block(*doc, *e));
                },
                None => {
                    assert(old(out)@ + html_block(*doc, *e) =~= old(out)@);
                },
            }
        },
        ElementKind::Image { image_index } => push_image(out, doc, image_index),
        ElementKind::PageBreak => push_str(out, "<hr class=\"page-break\">\n"),
        ElementKind::DefinitionTerm => push_tagged(out, "<dt>", e, "</dt>\n"),
        ElementKind::DefinitionDescription => push_tagged(out, "<dd>", e, "</dd>\n"),
        ElementKind::Admonition => push_admonition(out, e),
        ElementKind::RawBlock => push_raw(out, e),
        ElementKind::MetadataBlock => push_meta(out, e),
        _ => {
            assert(old(out)@ + html_block(*doc, *e) =~= old(out)@);
        },
    }
}

fn push_footnote_ref(out: &mut String, n: u64)
    ensures
        final(out)@ == old(out)@ + ("<sup><a href=\"#fn-"@ + decimal(n as nat) + "\" id=\"fnref-"@ + decimal(
            n as nat,
        ) + "\">"@ + decimal(n as nat) + "</a></sup>"@),
{
    push_str(out, "<sup><a href=\"#fn-");
    push_decimal(out, n);
    push_str(out, "\" id=\"fnref-");
    push_decimal(out, n);
    push_str(out, "\">");
    push_decimal(out, n);
    push_str(out, "</a></sup>");
    assert(out@ =~= old(out)@ + ("<sup><a href=\"#fn-"@ + decimal(n as nat) + "\" id=\"fnref-"@ + decimal(n as nat)
        + "\">"@ + decimal(n as nat) + "</a></sup>"@));
}

fn push_slide(out: &mut String, e: &InternalElement, number: u32, slide_open: bool)
    ensures
        final(out)@ == old(out)@ + (if slide_open {
            "</section>\n"@
        } else {
            Seq::empty()
        }) + "<section class=\"slide\" data-slide=\""@ + decimal(number as nat) + "\">\n"@ + (if e.text@.len() > 0 {
            "<h2>"@ + ann_html(*e) + "</h2>\n"@
        } else {
            Seq::empty()
        }),
{
    if slide_open {
        push_str(out, "</section>\n");
    }
    let ghost p = out@;
    push_str(out, "<section class=\"slide\" data-slide=\"");
    push_decimal(out, number as u64);
    push_str(out, "\">\n");
    if !e.text.as_str().is_empty() {
        push_tagged(out, "<h2>", e, "</h2>\n");
    }
    assert(out@ =~= old(out)@ + (if slide_open {
        "</section>\n"@
    } else {
        Seq::empty()
    }) + "<section class=\"slide\" data-slide=\""@ + decimal(number as nat) + "\">\n"@ + (if e.text@.len() > 0 {
        "<h2>"@ + ann_html(*e) + "</h2>\n"@
    } else {
        Seq::empty()
    }));
}

/// Closes the innermost list and tells whether it was ordered.
pub fn close_list(state: &mut RenderState) -> (was_ordered: bool)
    ensures
        was_ordered == innermost_ordered(old(state).stack@),
        final(state).stack@ == pop_container(old(state).stack@, ContainerTag::List),
{
    let was_ordered = state.innermost_list_ordered();
    state.pop_container(ContainerTag::List);
    was_ordered
}

/// Writes element `i` (one step of the body pass).
fn html_element(
    doc: &InternalDocument,
    fc: &FootnoteCollector,
    i: usize,
    out: &mut String,
    state: &mut RenderState,
    slide_open: &mut bool,
)
    requires
        i < doc.elements@.len(),
        fc.describes(doc.elements@),
    ensures
        (final(out)@, final(state).stack@, *final(slide_open)) == html_step(
            *doc,
            i as int,
            (old(out)@, old(state).stack@, *old(slide_open)),
        ),
{
    let e = &doc.elements[i];
    if e.layer != ContentLayer::Body {
        return;
    }
    match e.kind {
        ElementKind::ListEnd => {
            if close_list(state) {
                push_str(out, "</ol>\n");
            } else {
                push_str(out, "</ul>\n");
            }
            return;
        },
        ElementKind::QuoteEnd => {
            state.pop_container(ContainerTag::BlockQuote);
            push_str(out, "</blockquote>\n");
            return;
        },
        ElementKind::GroupEnd => {
            if *slide_open {
                push_str(out, "</section>\n");
                *slide_open = false;
            }
            state.pop_container(ContainerTag::Group);
            push_str(out, "</section>\n");
            assert(out@ =~= html_step(*doc, i as int, (old(out)@, old(state).stack@, *old(slide_open))).0);
            return;
        },
        _ => {},
    }
    state.pop_to_depth(e.depth);
    match e.kind {
        ElementKind::ListStart { ordered } => {
            state.push_container(NestingKind::List { ordered, item_count: 0 }, e.depth);
            if ordered {
                push_str(out, "<ol>\n");
            } else {
                push_str(out, "<ul>\n");
            }
        },
        ElementKind::QuoteStart => {
            state.push_container(NestingKind::BlockQuote, e.depth);
            push_str(out, "<blockquote>\n");
        },
        ElementKind::GroupStart => {
            state.push_container(NestingKind::Group, e.depth);
            push_str(out, "<section>\n");
        },
        ElementKind::FootnoteRef => {
            match fc.ref_number(&doc.elements, i) {
                Some(n) => push_footnote_ref(out, n),
                None => {},
            }
        },
        ElementKind::Slide { number } => {
            push_slide(out, e, number, *slide_open);
            *slide_open = true;
        },
        _ => push_html_block(out, doc, e),
    }
}

fn push_html_footnotes(out: &mut String, fc: &FootnoteCollector, Ghost(texts): Ghost<Seq<Seq<char>>>)
    requires
        fc.texts@.len() == texts.len(),
        forall|k: int| 0 <= k < texts.len() ==> #[trigger] fc.texts@[k]@ == texts[k],
    ensures
        final(out)@ == old(out)@ + html_footnotes(texts),
{
    if fc.texts.len() == 0 {
        assert(old(out)@ + html_footnotes(texts) =~= old(out)@);
        return;
    }
    push_str(out, "<section class=\"footnotes\">\n<hr>\n<ol>\n");
    let ghost p = out@;
    let mut k: usize = 0;
    while k < fc.texts.len()
        invariant
            k <= fc.texts@.len() == texts.len(),
            forall|j: int| 0 <= j < texts.len() ==> #[trigger] fc.texts@[j]@ == texts[j],
            out@ == p + html_footnote_entries(texts, k as int),
        decreases fc.texts.len() - k,
    {
        let n = k as u64 + 1;
        push_str(out, "<li id=\"fn-");
        push_decimal(out, n);
        push_str(out, "\"><p>");
        push_escaped_str(out, fc.texts[k].as_str());
        push_str(out, " <a href=\"#fnref-");
        push_decimal(out, n);
        push_str(out, "\">&#x21a9;</a></p></li>\n");
        k += 1;
        assert(out@ =~= p + html_footnote_entries(texts, k as int));
    }
    push_str(out, "</ol>\n</section>\n");
    assert(out@ =~= old(out)@ + html_footnotes(texts));
}

fn push_html_citations(out: &mut String, elems: &Vec<InternalElement>)
    ensures
        final(out)@ == old(out)@ + html_citations(elems@),
{
    let mut body = String::new();
    let mut found = false;
    let mut i: usize = 0;
    assert(html_citation_entries(elems@, 0) =~= Seq::<char>::empty());
    while i < elems.len()
        invariant
            i <= elems@.len(),
            body@ == html_citation_entries(elems@, i as int),
            found == has_citation(elems@, i as int),
        decreases elems.len() - i,
    {
        let e = &elems[i];
        if e.kind == ElementKind::Citation {
            push_str(&mut body, "<p id=\"cite-");
            match &e.anchor {
                Some(a) => push_escaped_str(&mut body, a.as_str()),
                None => push_escaped_str(&mut body, "?"),
            }
            push_str(&mut body, "\">");
            push_escaped_str(&mut body, e.text.as_str());
            push_str(&mut body, "</p>\n");
            found = true;
        }
        proof {
            if has_citation(elems@, i as int) {
                let w = choose|k: int| 0 <= k < i && #[trigger] elems@[k].kind == ElementKind::Citation;
                assert(0 <= w < i + 1 && elems@[w].kind == ElementKind::Citation);
            }
            if elems@[i as int].kind == ElementKind::Citation {
                assert(0 <= i < i + 1 && elems@[i as int].kind == ElementKind::Citation);
            }
        }
        i += 1;
        assert(body@ =~= html_citation_entries(elems@, i as int));
    }
    if found {
        push_str(out, "<section class=\"citations\">\n");
        push_str(out, body.as_str());
        push_str(out, "</section>\n");
        assert(out@ =~= old(out)@ + html_citations(elems@));
    } else {
        assert(old(out)@ + html_citations(elems@) =~= old(out)@);
    }
}

/// `render_html`: the document as HTML.
pub fn render_html(doc: &InternalDocument) -> (r: String)
    ensures
        r@ == html_of(*doc),
{
    let fc = FootnoteCollector::new(&doc.elements);
    let mut state = RenderState::new();
    let mut out = String::new();
    let mut slide_open = false;
    let mut i: usize = 0;
    while i < doc.elements.len()
        invariant
            i <= doc.elements@.len(),
            fc.describes(doc.elements@),
            (out@, state.stack@, slide_open) == html_body(*doc, i as int),
        decreases doc.elements.len() - i,
    {
        html_element(doc, &fc, i, &mut out, &mut state, &mut slide_open);
        i += 1;
    }
    if slide_open {
        push_str(&mut out, "</section>\n");
    }
    proof {
        lemma_footnote_lens(doc.elements@);
    }
    push_html_footnotes(&mut out, &fc, Ghost(footnote_texts(doc.elements@)));
    push_html_citations(&mut out, &doc.elements);
    finalize_output(out)
}
} // verus!
