//! What HTML rendering does with links whose scheme is dangerous: they never
//! become anchors, in a single span, in a whole text, or in a whole document.
use vstd::prelude::*;
use crate::document::{AnnotationKind, ElementKind, InternalDocument, InternalElement, TextAnnotation};
use crate::inline::{annotated, annotated_from, dangerous_link, html_wrap, lemma_pick, pick, plain, wrap, Flavor};
use crate::render_common::{html_esc, table_text};
use crate::html::{ann_html, html_block, html_body, html_citation_entries, html_citations, html_code, html_footnotes, html_image, html_admonition, html_level, html_meta, html_metadata, html_of, html_step};
use crate::footnotes::footnote_texts;
use crate::text::decimal;

verus! {

/// No `<` of the text opens an `a` element: each is followed by a character
/// other than `a`.
pub open spec fn no_anchor(s: Seq<char>) -> bool {
    forall|k: int| 0 <= k < s.len() && #[trigger] s[k] == '<' ==> k + 1 < s.len() && s[k + 1] != 'a'
}

pub proof fn lemma_na_concat(a: Seq<char>, b: Seq<char>)
    requires
        no_anchor(a),
        no_anchor(b),
    ensures
        no_anchor(a + b),
{
    let s = a + b;
    assert forall|k: int| 0 <= k < s.len() && #[trigger] s[k] == '<' implies k + 1 < s.len() && s[k + 1] != 'a' by {
        if k < a.len() {
            assert(a[k] == '<');
        } else {
            assert(b[k - a.len()] == '<');
        }
    }
}

pub proof fn lemma_na_escaped(t: Seq<char>)
    ensures
        no_anchor(html_esc(t)),
{
    crate::render_common::escaped_text_has_no_markup(t);
}

/// Every annotation that is a link has a dangerous scheme.
pub open spec fn links_dangerous(anns: Seq<TextAnnotation>) -> bool {
    forall|k: int| 0 <= k < anns.len() && (#[trigger] anns[k]).kind is Link ==> dangerous_link(anns[k].kind)
}

proof fn lemma_na_wrap(span: Seq<char>, kind: AnnotationKind)
    requires
        kind is Link ==> dangerous_link(kind),
    ensures
        no_anchor(html_wrap(span, kind)),
{
    let e = html_esc(span);
    lemma_na_escaped(span);
    match kind {
        AnnotationKind::Bold => lemma_na_tag(e, "<strong>"@, "</strong>"@),
        AnnotationKind::Italic => lemma_na_tag(e, "<em>"@, "</em>"@),
        AnnotationKind::Code => lemma_na_tag(e, "<code>"@, "</code>"@),
        AnnotationKind::Strikethrough => lemma_na_tag(e, "<del>"@, "</del>"@),
        AnnotationKind::Underline => lemma_na_tag(e, "<u>"@, "</u>"@),
        AnnotationKind::Subscript => lemma_na_tag(e, "<sub>"@, "</sub>"@),
        AnnotationKind::Superscript => lemma_na_tag(e, "<sup>"@, "</sup>"@),
        AnnotationKind::Highlight => lemma_na_tag(e, "<mark>"@, "</mark>"@),
        AnnotationKind::Link { .. } => {},
        AnnotationKind::Color { value } => {
            lemma_na_escaped(value@);
            lemma_na_lits();
            lemma_na_concat("<span style=\"color: "@, html_esc(value@));
            lemma_na_concat("<span style=\"color: "@ + html_esc(value@), "\">"@);
            lemma_na_tag(e, "<span style=\"color: "@ + html_esc(value@) + "\">"@, "</span>"@);
        },
        AnnotationKind::FontSize { value } => {
            lemma_na_escaped(value@);
            lemma_na_lits();
            lemma_na_concat("<span style=\"font-size: "@, html_esc(value@));
            lemma_na_concat("<span style=\"font-size: "@ + html_esc(value@), "\">"@);
            lemma_na_tag(e, "<span style=\"font-size: "@ + html_esc(value@) + "\">"@, "</span>"@);
        },
        AnnotationKind::Custom { name, value } => {
            lemma_na_escaped(name@);
            lemma_na_lits();
            let n = "<span data-"@ + html_esc(name@);
            lemma_na_concat("<span data-"@, html_esc(name@));
            match value {
                Some(v) => {
                    lemma_na_escaped(v@);
                    lemma_na_concat(n, "=\""@);
                    lemma_na_concat(n + "=\""@, html_esc(v@));
                    lemma_na_concat(n + "=\""@ + html_esc(v@), "\">"@);
                    lemma_na_tag(e, n + "=\""@ + html_esc(v@) + "\">"@, "</span>"@);
                },
                None => {
                    lemma_na_concat(n, ">"@);
                    lemma_na_tag(e, n + ">"@, "</span>"@);
                },
            }
        },
    }
}

/// The literals of inline markup open no `a` element.
proof fn lemma_na_lits()
    ensures
        no_anchor("<span style=\"color: "@),
        no_anchor("<span style=\"font-size: "@),
        no_anchor("<span data-"@),
        no_anchor("\">"@),
        no_anchor("=\""@),
        no_anchor(">"@),
        no_anchor("</span>"@),
{
    reveal_strlit("<span style=\"color: ");
    reveal_strlit("<span style=\"font-size: ");
    reveal_strlit("<span data-");
    reveal_strlit("\">");
    reveal_strlit("=\"");
    reveal_strlit(">");
    reveal_strlit("</span>");
}

/// `open + e + close` opens no `a` element when none of them does and the
/// literal tags' `<` are followed by a letter other than `a` or by `/`.
proof fn lemma_na_tag(e: Seq<char>, open: Seq<char>, close: Seq<char>)
    requires
        no_anchor(e),
        no_anchor(open) || open == "<strong>"@ || open == "<em>"@ || open == "<code>"@ || open == "<del>"@ || open
            == "<u>"@ || open == "<sub>"@ || open == "<sup>"@ || open == "<mark>"@,
        no_anchor(close) || close == "</strong>"@ || close == "</em>"@ || close == "</code>"@ || close == "</del>"@
            || close == "</u>"@ || close == "</sub>"@ || close == "</sup>"@ || close == "</mark>"@,
    ensures
        no_anchor(open + e + close),
{
    reveal_strlit("<strong>");
    reveal_strlit("<em>");
    reveal_strlit("<code>");
    reveal_strlit("<del>");
    reveal_strlit("<u>");
    reveal_strlit("<sub>");
    reveal_strlit("<sup>");
    reveal_strlit("<mark>");
    reveal_strlit("</strong>");
    reveal_strlit("</em>");
    reveal_strlit("</code>");
    reveal_strlit("</del>");
    reveal_strlit("</u>");
    reveal_strlit("</sub>");
    reveal_strlit("</sup>");
    reveal_strlit("</mark>");
    assert(no_anchor(open));
    assert(no_anchor(close));
    lemma_na_concat(open, e);
    lemma_na_concat(open + e, close);
}

proof fn lemma_na_from(text: Seq<char>, anns: Seq<TextAnnotation>, pos: int)
    requires
        0 <= pos <= text.len(),
        links_dangerous(anns),
    ensures
        no_anchor(annotated_from(text, anns, Flavor::Html, pos)),
    decreases text.len() - pos,
{
    lemma_pick(anns, pos, text.len() as int);
    match pick(anns, pos, text.len() as int) {
        Some(k) => {
            let a = anns[k];
            let (s, e) = (a.start as int, a.end as int);
            lemma_na_from(text, anns, e);
            assert(a.kind is Link ==> dangerous_link(a.kind));
            lemma_na_wrap(text.subrange(s, e), a.kind);
            lemma_na_escaped(text.subrange(pos, s));
            let x = plain(text.subrange(pos, s), Flavor::Html);
            let y = wrap(text.subrange(s, e), a.kind, Flavor::Html);
            lemma_na_concat(x, y);
            lemma_na_concat(x + y, annotated_from(text, anns, Flavor::Html, e));
        },
        None => {
            lemma_na_escaped(text.subrange(pos, text.len() as int));
        },
    }
}

/// A text whose links all have dangerous schemes renders in HTML with no
/// anchor, whatever its other annotations: no `<` of the output opens an `a`
/// element.
pub proof fn dangerous_links_make_no_anchor(text: Seq<char>, anns: Seq<TextAnnotation>)
    requires
        links_dangerous(anns),
    ensures
        no_anchor(annotated(text, anns, Flavor::Html)),
{
    lemma_na_from(text, anns, 0);
}

proof fn lemma_na_all()
    ensures
        forall|a: Seq<char>, b: Seq<char>| no_anchor(a) && no_anchor(b) ==> #[trigger] no_anchor(a + b),
{
    assert forall|a: Seq<char>, b: Seq<char>| no_anchor(a) && no_anchor(b) implies #[trigger] no_anchor(a + b) by {
        lemma_na_concat(a, b);
    }
}

proof fn lemma_na_decimal(n: nat)
    ensures
        no_anchor(decimal(n)),
        forall|k: int| 0 <= k < decimal(n).len() ==> #[trigger] decimal(n)[k] != '<',
    decreases n,
{
    if n >= 10 {
        lemma_na_decimal(n / 10);
        let d = decimal(n / 10);
        assert forall|k: int| 0 <= k < decimal(n).len() implies #[trigger] decimal(n)[k] != '<' by {
            if k < d.len() {
                assert(decimal(n)[k] == d[k]);
            }
        }
    }
}

/// The literals of block markup open no `a` element.
proof fn lemma_na_block_lits()
    ensures
        no_anchor("<h1>"@), no_anchor("</h1>\n"@), no_anchor("<h"@), no_anchor("<p>"@), no_anchor("</p>\n"@),
        no_anchor("<li>"@), no_anchor("</li>\n"@), no_anchor("<dt>"@), no_anchor("</dt>\n"@), no_anchor("<dd>"@),
        no_anchor("</dd>\n"@), no_anchor("<hr class=\"page-break\">\n"@), no_anchor("<div class=\"math\">$$"@),
        no_anchor("$$</div>\n"@), no_anchor("\n"@), no_anchor(">"@), no_anchor(">\n"@),
        no_anchor("<pre><code>"@), no_anchor("</code></pre>\n"@), no_anchor("<pre><code class=\"language-"@),
        no_anchor("\">"@), no_anchor("<figure><img src=\""@), no_anchor("\" alt=\""@),
        no_anchor("<figcaption>"@), no_anchor("</figcaption>"@), no_anchor("</figure>\n"@),
        no_anchor("<div class=\"admonition "@), no_anchor("\">\n"@), no_anchor("<p class=\"admonition-title\">"@),
        no_anchor("</div>\n"@), no_anchor("<dl class=\"metadata\">\n"@), no_anchor("</dl>\n"@),
        no_anchor("<pre class=\"metadata\">"@), no_anchor("</pre>\n"@), no_anchor("</dt><dd>"@),
        no_anchor("<table>\n"@), no_anchor("<thead>\n<tr>"@), no_anchor("<th>"@), no_anchor("</th>"@),
        no_anchor("</tr>\n</thead>\n"@), no_anchor("<tbody>\n"@), no_anchor("</tbody>\n"@), no_anchor("</table>"@),
        no_anchor("<tr>"@), no_anchor("<td>"@), no_anchor("</td>"@), no_anchor("</tr>\n"@),
        no_anchor("</ol>\n"@), no_anchor("</ul>\n"@), no_anchor("<ol>\n"@), no_anchor("<ul>\n"@),
        no_anchor("</blockquote>\n"@), no_anchor("<blockquote>\n"@), no_anchor("</section>\n"@),
        no_anchor("<section>\n"@), no_anchor("<section class=\"slide\" data-slide=\""@), no_anchor("<h2>"@),
        no_anchor("</h2>\n"@), no_anchor("<section class=\"citations\">\n"@), no_anchor("<p id=\"cite-"@),
        no_anchor("</h"@),
{
    reveal_strlit("<h1>"); reveal_strlit("</h1>\n"); reveal_strlit("<h"); reveal_strlit("<p>");
    reveal_strlit("</p>\n"); reveal_strlit("<li>"); reveal_strlit("</li>\n"); reveal_strlit("<dt>");
    reveal_strlit("</dt>\n"); reveal_strlit("<dd>"); reveal_strlit("</dd>\n");
    reveal_strlit("<hr class=\"page-break\">\n"); reveal_strlit("<div class=\"math\">$$");
    reveal_strlit("$$</div>\n"); reveal_strlit("\n"); reveal_strlit(">"); reveal_strlit(">\n");
    reveal_strlit("<pre><code>"); reveal_strlit("</code></pre>\n"); reveal_strlit("<pre><code class=\"language-");
    reveal_strlit("\">"); reveal_strlit("<figure><img src=\""); reveal_strlit("\" alt=\"");
    reveal_strlit("<figcaption>"); reveal_strlit("</figcaption>"); reveal_strlit("</figure>\n");
    reveal_strlit("<div class=\"admonition "); reveal_strlit("\">\n"); reveal_strlit("<p class=\"admonition-title\">");
    reveal_strlit("</div>\n"); reveal_strlit("<dl class=\"metadata\">\n"); reveal_strlit("</dl>\n");
    reveal_strlit("<pre class=\"metadata\">"); reveal_strlit("</pre>\n"); reveal_strlit("</dt><dd>");
    reveal_strlit("<table>\n"); reveal_strlit("<thead>\n<tr>"); reveal_strlit("<th>"); reveal_strlit("</th>");
    reveal_strlit("</tr>\n</thead>\n"); reveal_strlit("<tbody>\n"); reveal_strlit("</tbody>\n"); reveal_strlit("</table>");
    reveal_strlit("<tr>"); reveal_strlit("<td>"); reveal_strlit("</td>"); reveal_strlit("</tr>\n");
    reveal_strlit("</ol>\n"); reveal_strlit("</ul>\n"); reveal_strlit("<ol>\n"); reveal_strlit("<ul>\n");
    reveal_strlit("</blockquote>\n"); reveal_strlit("<blockquote>\n"); reveal_strlit("</section>\n");
    reveal_strlit("<section>\n"); reveal_strlit("<section class=\"slide\" data-slide=\""); reveal_strlit("<h2>");
    reveal_strlit("</h2>\n"); reveal_strlit("<section class=\"citations\">\n"); reveal_strlit("<p id=\"cite-");
    reveal_strlit("</h");
}

/// The element writes no link of its own: no raw block, no footnote
/// reference, and all its links have dangerous schemes.
pub open spec fn anchor_free_element(e: InternalElement) -> bool {
    &&& e.kind != ElementKind::RawBlock
    &&& e.kind != ElementKind::FootnoteRef
    &&& e.kind != ElementKind::FootnoteDefinition
    &&& links_dangerous(e.annotations@)
}

proof fn lemma_na_cells(cells: Seq<String>, open: Seq<char>, close: Seq<char>)
    requires
        no_anchor(open),
        no_anchor(close),
    ensures
        no_anchor(crate::render_common::html_cells(cells, open, close)),
    decreases cells.len(),
{
    lemma_na_all();
    if cells.len() > 0 {
        lemma_na_cells(cells.drop_last(), open, close);
        lemma_na_escaped(cells.last()@);
    }
}

proof fn lemma_na_body_rows(rows: Seq<Vec<String>>, n: int)
    ensures
        no_anchor(crate::render_common::html_body_rows(rows, n)),
    decreases n,
{
    lemma_na_all();
    lemma_na_block_lits();
    if n > 1 {
        lemma_na_body_rows(rows, n - 1);
        lemma_na_cells(rows[n - 1]@, "<td>"@, "</td>"@);
    }
}

proof fn lemma_na_table(doc: InternalDocument, idx: int)
    requires
        forall|k: int| 0 <= k < doc.tables@.len() ==> (#[trigger] doc.tables@[k]).cells@.len() > 0,
    ensures
        table_text(doc, idx, true) matches Some(t) ==> no_anchor(t),
{
    lemma_na_all();
    lemma_na_block_lits();
    if 0 <= idx < doc.tables@.len() {
        let rows = doc.tables@[idx].cells@;
        lemma_na_cells(rows[0]@, "<th>"@, "</th>"@);
        lemma_na_body_rows(rows, rows.len() as int);
        let head = "<thead>\n<tr>"@ + crate::render_common::html_cells(rows[0]@, "<th>"@, "</th>"@) + "</tr>\n</thead>\n"@;
        let body = if rows.len() > 1 {
            "<tbody>\n"@ + crate::render_common::html_body_rows(rows, rows.len() as int) + "</tbody>\n"@
        } else {
            Seq::empty()
        };
        assert(no_anchor(Seq::<char>::empty()));
        assert(no_anchor(head));
        assert(no_anchor(body));
        assert(crate::render_common::table_html(rows) == "<table>\n"@ + head + body + "</table>"@);
    }
}

proof fn lemma_na_metadata(es: Seq<(Seq<char>, Seq<char>)>)
    ensures
        no_anchor(html_metadata(es)),
    decreases es.len(),
{
    lemma_na_all();
    lemma_na_block_lits();
    if es.len() > 0 {
        lemma_na_metadata(es.drop_last());
        lemma_na_escaped(es.last().0);
        lemma_na_escaped(es.last().1);
    } else {
        assert(no_anchor(Seq::<char>::empty()));
    }
}

proof fn lemma_na_block(doc: InternalDocument, e: InternalElement)
    requires
        anchor_free_element(e),
        forall|k: int| 0 <= k < doc.tables@.len() ==> (#[trigger] doc.tables@[k]).cells@.len() > 0,
    ensures
        no_anchor(html_block(doc, e)),
{
    lemma_na_all();
    lemma_na_block_lits();
    dangerous_links_make_no_anchor(e.text@, e.annotations@);
    assert(no_anchor(ann_html(e)));
    lemma_na_escaped(e.text@);
    assert(no_anchor(Seq::<char>::empty()));
    match e.kind {
        ElementKind::Heading { level } => {
            lemma_na_decimal(html_level(level));
        },
        ElementKind::Code => {
            lemma_na_escaped(crate::render_common::attr_or_empty(e, "language"@));
            assert(no_anchor(html_code(e)));
        },
        ElementKind::Table { table_index } => {
            lemma_na_table(doc, table_index as int);
        },
        ElementKind::Image { image_index } => {
            lemma_na_escaped(crate::render_common::image_url(doc, image_index as int));
            lemma_na_escaped(crate::render_common::image_desc(doc, image_index as int));
            assert(no_anchor(html_image(doc, image_index as int)));
        },
        ElementKind::Admonition => {
            lemma_na_escaped(crate::render_common::admonition_kind(e));
            lemma_na_escaped(crate::markdown::admonition_title(e));
            assert(no_anchor(html_admonition(e)));
        },
        ElementKind::MetadataBlock => {
            lemma_na_metadata(crate::render_common::metadata_entries(crate::text::lines(e.text@)));
            assert(no_anchor(html_meta(e)));
        },
        _ => {},
    }
}

proof fn lemma_na_step(doc: InternalDocument, i: int, st: (Seq<char>, Seq<crate::render_common::Container>, bool))
    requires
        0 <= i < doc.elements@.len(),
        anchor_free_element(doc.elements@[i]),
        forall|k: int| 0 <= k < doc.tables@.len() ==> (#[trigger] doc.tables@[k]).cells@.len() > 0,
        no_anchor(st.0),
    ensures
        no_anchor(html_step(doc, i, st).0),
{
    lemma_na_all();
    lemma_na_block_lits();
    let e = doc.elements@[i];
    assert(no_anchor(Seq::<char>::empty()));
    lemma_na_block(doc, e);
    dangerous_links_make_no_anchor(e.text@, e.annotations@);
    match e.kind {
        ElementKind::Slide { number } => {
            lemma_na_decimal(number as nat);
        },
        _ => {},
    }
}

proof fn lemma_na_html_body(doc: InternalDocument, n: int)
    requires
        n <= doc.elements@.len(),
        forall|k: int| 0 <= k < doc.elements@.len() ==> anchor_free_element(#[trigger] doc.elements@[k]),
        forall|k: int| 0 <= k < doc.tables@.len() ==> (#[trigger] doc.tables@[k]).cells@.len() > 0,
    ensures
        no_anchor(html_body(doc, n).0),
    decreases n,
{
    if n <= 0 {
        assert(no_anchor(Seq::<char>::empty()));
    } else {
        lemma_na_html_body(doc, n - 1);
        lemma_na_step(doc, n - 1, html_body(doc, n - 1));
    }
}

proof fn lemma_no_footnotes(elems: Seq<InternalElement>)
    requires
        forall|k: int| 0 <= k < elems.len() ==> (#[trigger] elems[k]).kind != ElementKind::FootnoteDefinition,
    ensures
        footnote_texts(elems).len() == 0,
    decreases elems.len(),
{
    if elems.len() > 0 {
        let d = elems.drop_last();
        assert forall|k: int| 0 <= k < d.len() implies (#[trigger] d[k]).kind != ElementKind::FootnoteDefinition by {
            assert(d[k] == elems[k]);
        }
        lemma_no_footnotes(d);
        assert(elems.last() == elems[elems.len() - 1]);
    }
}

proof fn lemma_na_citations(elems: Seq<InternalElement>, n: int)
    ensures
        no_anchor(html_citation_entries(elems, n)),
    decreases n,
{
    lemma_na_all();
    lemma_na_block_lits();
    if n > 0 {
        lemma_na_citations(elems, n - 1);
        lemma_na_escaped(crate::markdown::citation_key(elems[n - 1]));
        lemma_na_escaped(elems[n - 1].text@);
    } else {
        assert(no_anchor(Seq::<char>::empty()));
    }
    assert(no_anchor(Seq::<char>::empty()));
}

proof fn lemma_na_finalize(s: Seq<char>)
    requires
        no_anchor(s),
    ensures
        no_anchor(crate::render_common::finalize(s)),
{
    crate::text::lemma_back_ws_bounds(s, s.len() as int);
    let t = s.take(crate::text::back_ws(s, s.len() as int));
    let f = crate::render_common::finalize(s);
    if t.len() > 0 {
        assert forall|k: int| 0 <= k < f.len() && #[trigger] f[k] == '<' implies k + 1 < f.len() && f[k + 1] != 'a' by {
            assert(k < t.len());
            assert(s[k] == '<');
            if k + 1 < t.len() {
                assert(f[k + 1] == s[k + 1]);
            }
        }
    }
}

/// Links with dangerous schemes never become anchors in a document's HTML:
/// a document whose links all have dangerous schemes, among whatever other
/// annotations and elements, renders with no `a` element at all, provided
/// it writes no link of its own (no raw block, no footnote) and holds no table
/// given only as markdown.
pub proof fn dangerous_links_make_no_anchor_in_documents(doc: InternalDocument)
    requires
        forall|k: int| 0 <= k < doc.elements@.len() ==> anchor_free_element(#[trigger] doc.elements@[k]),
        forall|k: int| 0 <= k < doc.tables@.len() ==> (#[trigger] doc.tables@[k]).cells@.len() > 0,
    ensures
        no_anchor(html_of(doc)),
        !crate::text::contains_seq(html_of(doc), "<a"@),
{
    lemma_na_all();
    lemma_na_block_lits();
    let es = doc.elements@;
    lemma_na_html_body(doc, es.len() as int);
    assert forall|k: int| 0 <= k < es.len() implies (#[trigger] es[k]).kind != ElementKind::FootnoteDefinition by {
        assert(anchor_free_element(es[k]));
    }
    lemma_no_footnotes(es);
    assert(html_footnotes(footnote_texts(es)) == Seq::<char>::empty());
    lemma_na_citations(es, es.len() as int);
    assert(no_anchor(Seq::<char>::empty()));
    assert(no_anchor(html_citations(es)));
    let (out, st, slide) = html_body(doc, es.len() as int);
    let whole = out + (if slide {
        "</section>\n"@
    } else {
        Seq::empty()
    }) + html_footnotes(footnote_texts(es)) + html_citations(es);
    assert(no_anchor(whole));
    lemma_na_finalize(whole);
    let x = html_of(doc);
    reveal_strlit("<a");
    assert forall|k: int| !crate::text::occurs_at(x, "<a"@, k) by {
        if crate::text::occurs_at(x, "<a"@, k) {
            assert(x.subrange(k, k + 2)[0] == '<' && x.subrange(k, k + 2)[1] == 'a');
            assert(x[k] == '<');
            assert(x[k + 1] == 'a');
        }
    }
}

} // verus!
