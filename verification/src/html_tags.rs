//! The list and quote tags of the HTML a document renders to: each list start
//! opens one list, each list end closes one, and likewise for block quotes,
//! so that tags balance whenever the document's starts and ends do.
use vstd::prelude::*;
use crate::document::{AnnotationKind, ElementKind, InternalDocument, InternalElement, TextAnnotation};
use crate::inline::{annotated_from, html_wrap, lemma_pick, pick, plain, wrap, Flavor};
use crate::render_common::{html_esc, table_text};
use crate::html::{ann_html, html_block, html_body, html_citations, html_code, html_footnote_entries, html_footnotes, html_image, html_admonition, html_level, html_meta, html_metadata, html_citation_entries, html_of, html_step};
use crate::document::ContentLayer;
use crate::footnotes::footnote_texts;
use crate::render_common::{innermost_ordered, Container};
use crate::text::{decimal, occurs_at};

verus! {

/// The tags that open or close a list or a block quote.
pub open spec fn nest_tag(p: Seq<char>) -> bool {
    p == "<ul>"@ || p == "<ol>"@ || p == "</ul>"@ || p == "</ol>"@ || p == "<blockquote>"@ || p == "</blockquote>"@
}

/// The number of places where `p` occurs in `s`.
pub open spec fn count_of(s: Seq<char>, p: Seq<char>) -> nat
    decreases s.len(),
{
    if s.len() == 0 {
        0
    } else {
        (if occurs_at(s, p, 0) {
            1nat
        } else {
            0nat
        }) + count_of(s.drop_first(), p)
    }
}

/// Whether a text that starts with `x` could begin one of the tags.
pub open spec fn may_start(x: Seq<char>) -> bool {
    &&& x.len() >= 1 && x[0] == '<'
    &&& x.len() < 2 || x[1] == 'u' || x[1] == 'o' || x[1] == 'b' || x[1] == '/'
    &&& x.len() < 3 || ((x[1] == 'u' || x[1] == 'o' || x[1] == 'b') ==> x[2] == 'l')
    &&& x.len() < 3 || (x[1] == '/' ==> (x[2] == 'u' || x[2] == 'o' || x[2] == 'b'))
    &&& x.len() < 4 || (x[1] == '/' ==> x[3] == 'l')
}

/// No `<` of the text begins a list or quote tag, whatever follows the text.
pub open spec fn tag_free(s: Seq<char>) -> bool {
    forall|k: int| 0 <= k < s.len() && #[trigger] s[k] == '<' ==> !may_start(s.skip(k))
}

/// The text is empty or ends a tag or a line.
pub open spec fn ends_clean(s: Seq<char>) -> bool {
    s.len() == 0 || s[s.len() - 1] == '>' || s[s.len() - 1] == '\n'
}

/// What the six tags look like.
pub proof fn lemma_tag_shape(p: Seq<char>)
    requires
        nest_tag(p),
    ensures
        p.len() >= 4,
        may_start(p),
        forall|j: int| 0 <= j < p.len() - 1 ==> p[j] != '>' && p[j] != '\n' && !crate::text::is_ws(#[trigger] p[j]),
        !crate::text::is_ws(p[p.len() - 1]),
        forall|j: int| 1 <= j < p.len() ==> #[trigger] p[j] != '<',
{
    reveal_strlit("<ul>");
    reveal_strlit("<ol>");
    reveal_strlit("</ul>");
    reveal_strlit("</ol>");
    reveal_strlit("<blockquote>");
    reveal_strlit("</blockquote>");
}

pub proof fn lemma_tag_free_concat(a: Seq<char>, b: Seq<char>)
    requires
        tag_free(a),
        tag_free(b),
    ensures
        tag_free(a + b),
{
    let s = a + b;
    assert forall|k: int| 0 <= k < s.len() && #[trigger] s[k] == '<' implies !may_start(s.skip(k)) by {
        if k < a.len() {
            assert(a[k] == '<');
            let x = s.skip(k);
            let y = a.skip(k);
            assert forall|j: int| 0 <= j < y.len() implies #[trigger] y[j] == x[j] by {}
            if may_start(x) {
                assert(may_start(y));
            }
        } else {
            assert(b[k - a.len()] == '<');
            assert(s.skip(k) =~= b.skip(k - a.len()));
        }
    }
}

proof fn lemma_tag_free_all()
    ensures
        forall|a: Seq<char>, b: Seq<char>| tag_free(a) && tag_free(b) ==> #[trigger] tag_free(a + b),
{
    assert forall|a: Seq<char>, b: Seq<char>| tag_free(a) && tag_free(b) implies #[trigger] tag_free(a + b) by {
        lemma_tag_free_concat(a, b);
    }
}

/// A text without `<` is tag free.
pub proof fn lemma_no_lt_tag_free(s: Seq<char>)
    requires
        forall|k: int| 0 <= k < s.len() ==> #[trigger] s[k] != '<',
    ensures
        tag_free(s),
{
}

/// A tag-free text holds none of the tags.
pub proof fn lemma_tag_free_count(s: Seq<char>, p: Seq<char>)
    requires
        tag_free(s),
        nest_tag(p),
    ensures
        count_of(s, p) == 0,
    decreases s.len(),
{
    if s.len() > 0 {
        lemma_tag_shape(p);
        if occurs_at(s, p, 0) {
            assert(s.subrange(0, p.len() as int) == p);
            assert(s[0] == p[0]);
            let x = s.skip(0);
            assert(x =~= s);
            assert forall|j: int| 0 <= j < p.len() implies #[trigger] s[j] == p[j] by {
                assert(s.subrange(0, p.len() as int)[j] == p[j]);
            }
            assert(may_start(s));
        }
        let d = s.drop_first();
        assert forall|k: int| 0 <= k < d.len() && #[trigger] d[k] == '<' implies !may_start(d.skip(k)) by {
            assert(s[k + 1] == '<');
            assert(d.skip(k) =~= s.skip(k + 1));
        }
        lemma_tag_free_count(d, p);
    }
}

/// Counting over a text that ends cleanly and what follows it.
pub proof fn lemma_count_concat(a: Seq<char>, b: Seq<char>, p: Seq<char>)
    requires
        ends_clean(a),
        nest_tag(p),
    ensures
        count_of(a + b, p) == count_of(a, p) + count_of(b, p),
    decreases a.len(),
{
    lemma_tag_shape(p);
    if a.len() == 0 {
        assert(a + b =~= b);
    } else {
        let s = a + b;
        assert(s.drop_first() =~= a.drop_first() + b);
        if a.len() > 1 {
            assert(a.drop_first()[a.drop_first().len() - 1] == a[a.len() - 1]);
        }
        lemma_count_concat(a.drop_first(), b, p);
        if p.len() <= a.len() {
            assert(s.subrange(0, p.len() as int) =~= a.subrange(0, p.len() as int));
        } else {
            if occurs_at(s, p, 0) {
                assert(s.subrange(0, p.len() as int)[a.len() - 1] == p[a.len() - 1]);
                assert(s[a.len() - 1] == a[a.len() - 1]);
            }
        }
    }
}

/// Whitespace after a text adds no tag.
pub proof fn lemma_count_ws(a: Seq<char>, w: Seq<char>, p: Seq<char>)
    requires
        forall|k: int| 0 <= k < w.len() ==> crate::text::is_ws(#[trigger] w[k]),
        nest_tag(p),
    ensures
        count_of(a + w, p) == count_of(a, p),
    decreases a.len(),
{
    lemma_tag_shape(p);
    if a.len() == 0 {
        assert(a + w =~= w);
        assert forall|k: int| 0 <= k < w.len() implies #[trigger] w[k] != '<' by {
            assert(crate::text::is_ws(w[k]));
        }
        lemma_no_lt_tag_free(w);
        lemma_tag_free_count(w, p);
    } else {
        let s = a + w;
        assert(s.drop_first() =~= a.drop_first() + w);
        lemma_count_ws(a.drop_first(), w, p);
        if p.len() <= a.len() {
            assert(s.subrange(0, p.len() as int) =~= a.subrange(0, p.len() as int));
        } else {
            if occurs_at(s, p, 0) {
                assert(s.subrange(0, p.len() as int)[a.len() as int] == p[a.len() as int]);
                assert(s[a.len() as int] == w[0]);
                assert(crate::text::is_ws(w[0]));
            }
        }
    }
}

proof fn lemma_tf_escaped(t: Seq<char>)
    ensures
        tag_free(html_esc(t)),
{
    crate::render_common::escaped_text_has_no_markup(t);
    lemma_no_lt_tag_free(html_esc(t));
}

proof fn lemma_tf_wrap(span: Seq<char>, kind: AnnotationKind)
    ensures
        tag_free(html_wrap(span, kind)),
{
    let e = html_esc(span);
    lemma_tf_escaped(span);
    match kind {
        AnnotationKind::Bold => lemma_tf_tag(e, "<strong>"@, "</strong>"@),
        AnnotationKind::Italic => lemma_tf_tag(e, "<em>"@, "</em>"@),
        AnnotationKind::Code => lemma_tf_tag(e, "<code>"@, "</code>"@),
        AnnotationKind::Strikethrough => lemma_tf_tag(e, "<del>"@, "</del>"@),
        AnnotationKind::Underline => lemma_tf_tag(e, "<u>"@, "</u>"@),
        AnnotationKind::Subscript => lemma_tf_tag(e, "<sub>"@, "</sub>"@),
        AnnotationKind::Superscript => lemma_tf_tag(e, "<sup>"@, "</sup>"@),
        AnnotationKind::Highlight => lemma_tf_tag(e, "<mark>"@, "</mark>"@),
        AnnotationKind::Link { url, title } => {
            lemma_tf_escaped(url@);
            lemma_tf_lits();
            if !crate::inline::is_dangerous(url@) {
                match title {
                    Some(tt) => {
                        lemma_tf_escaped(tt@);
                        lemma_tag_free_all();
                        assert(tag_free("<a href=\""@ + html_esc(url@) + "\" title=\""@ + html_esc(tt@) + "\">"@ + e + "</a>"@));
                    },
                    None => {
                        lemma_tag_free_all();
                        assert(tag_free("<a href=\""@ + html_esc(url@) + "\">"@ + e + "</a>"@));
                    },
                }
            }
        },
        AnnotationKind::Color { value } => {
            lemma_tf_escaped(value@);
            lemma_tf_lits();
            lemma_tag_free_concat("<span style=\"color: "@, html_esc(value@));
            lemma_tag_free_concat("<span style=\"color: "@ + html_esc(value@), "\">"@);
            lemma_tf_tag(e, "<span style=\"color: "@ + html_esc(value@) + "\">"@, "</span>"@);
        },
        AnnotationKind::FontSize { value } => {
            lemma_tf_escaped(value@);
            lemma_tf_lits();
            lemma_tag_free_concat("<span style=\"font-size: "@, html_esc(value@));
            lemma_tag_free_concat("<span style=\"font-size: "@ + html_esc(value@), "\">"@);
            lemma_tf_tag(e, "<span style=\"font-size: "@ + html_esc(value@) + "\">"@, "</span>"@);
        },
        AnnotationKind::Custom { name, value } => {
            lemma_tf_escaped(name@);
            lemma_tf_lits();
            let n = "<span data-"@ + html_esc(name@);
            lemma_tag_free_concat("<span data-"@, html_esc(name@));
            match value {
                Some(v) => {
                    lemma_tf_escaped(v@);
                    lemma_tag_free_concat(n, "=\""@);
                    lemma_tag_free_concat(n + "=\""@, html_esc(v@));
                    lemma_tag_free_concat(n + "=\""@ + html_esc(v@), "\">"@);
                    lemma_tf_tag(e, n + "=\""@ + html_esc(v@) + "\">"@, "</span>"@);
                },
                None => {
                    lemma_tag_free_concat(n, ">"@);
                    lemma_tf_tag(e, n + ">"@, "</span>"@);
                },
            }
        },
    }
}

/// The literals of inline markup begin no list or quote tag.
proof fn lemma_tf_lits()
    ensures
        tag_free("<span style=\"color: "@),
        tag_free("<span style=\"font-size: "@),
        tag_free("<span data-"@),
        tag_free("\">"@),
        tag_free("=\""@),
        tag_free(">"@),
        tag_free("</span>"@),
        tag_free("<a href=\""@),
        tag_free("\" title=\""@),
        tag_free("</a>"@),
{
    reveal_strlit("<a href=\"");
    reveal_strlit("\" title=\"");
    reveal_strlit("</a>");
    reveal_strlit("<span style=\"color: ");
    reveal_strlit("<span style=\"font-size: ");
    reveal_strlit("<span data-");
    reveal_strlit("\">");
    reveal_strlit("=\"");
    reveal_strlit(">");
    reveal_strlit("</span>");
}

/// Inline markup around a tag-free text is tag free.
proof fn lemma_tf_tag(e: Seq<char>, open: Seq<char>, close: Seq<char>)
    requires
        tag_free(e),
        tag_free(open) || open == "<strong>"@ || open == "<em>"@ || open == "<code>"@ || open == "<del>"@ || open
            == "<u>"@ || open == "<sub>"@ || open == "<sup>"@ || open == "<mark>"@,
        tag_free(close) || close == "</strong>"@ || close == "</em>"@ || close == "</code>"@ || close == "</del>"@
            || close == "</u>"@ || close == "</sub>"@ || close == "</sup>"@ || close == "</mark>"@,
    ensures
        tag_free(open + e + close),
{
    reveal_strlit("<strong>");
    reveal_strlit("<em>");
    reveal_strlit("<code>");
    reveal_strlit("<del>");
    reveal_strlit("<u>");
    reveal_strlit("<sub>");
    reveal_strlit("<sup>");
    reveal_strlit("<mark>");
    reveal_strlit("</strong>");
    reveal_strlit("</em>");
    reveal_strlit("</code>");
    reveal_strlit("</del>");
    reveal_strlit("</u>");
    reveal_strlit("</sub>");
    reveal_strlit("</sup>");
    reveal_strlit("</mark>");
    assert(tag_free(open));
    assert(tag_free(close));
    lemma_tag_free_concat(open, e);
    lemma_tag_free_concat(open + e, close);
}

proof fn lemma_tf_from(text: Seq<char>, anns: Seq<TextAnnotation>, pos: int)
    requires
        0 <= pos <= text.len(),
    ensures
        tag_free(annotated_from(text, anns, Flavor::Html, pos)),
    decreases text.len() - pos,
{
    lemma_pick(anns, pos, text.len() as int);
    match pick(anns, pos, text.len() as int) {
        Some(k) => {
            let a = anns[k];
            let (s, e) = (a.start as int, a.end as int);
            lemma_tf_from(text, anns, e);
            lemma_tf_wrap(text.subrange(s, e), a.kind);
            lemma_tf_escaped(text.subrange(pos, s));
            let x = plain(text.subrange(pos, s), Flavor::Html);
            let y = wrap(text.subrange(s, e), a.kind, Flavor::Html);
            lemma_tag_free_concat(x, y);
            lemma_tag_free_concat(x + y, annotated_from(text, anns, Flavor::Html, e));
        },
        None => {
            lemma_tf_escaped(text.subrange(pos, text.len() as int));
        },
    }
}

proof fn lemma_tf_decimal(n: nat)
    ensures
        tag_free(decimal(n)),
        forall|k: int| 0 <= k < decimal(n).len() ==> #[trigger] decimal(n)[k] != '<',
    decreases n,
{
    if n >= 10 {
        lemma_tf_decimal(n / 10);
        let d = decimal(n / 10);
        assert forall|k: int| 0 <= k < decimal(n).len() implies #[trigger] decimal(n)[k] != '<' by {
            if k < d.len() {
                assert(decimal(n)[k] == d[k]);
            }
        }
    }
}

/// The literals of block markup begin no list or quote tag.
proof fn lemma_tf_block_lits()
    ensures
        tag_free("<h1>"@), tag_free("</h1>\n"@), tag_free("<h"@), tag_free("<p>"@), tag_free("</p>\n"@),
        tag_free("<li>"@), tag_free("</li>\n"@), tag_free("<dt>"@), tag_free("</dt>\n"@), tag_free("<dd>"@),
        tag_free("</dd>\n"@), tag_free("<hr class=\"page-break\">\n"@), tag_free("<div class=\"math\">$$"@),
        tag_free("$$</div>\n"@), tag_free("\n"@), tag_free(">"@), tag_free(">\n"@),
        tag_free("<pre><code>"@), tag_free("</code></pre>\n"@), tag_free("<pre><code class=\"language-"@),
        tag_free("\">"@), tag_free("<figure><img src=\""@), tag_free("\" alt=\""@),
        tag_free("<figcaption>"@), tag_free("</figcaption>"@), tag_free("</figure>\n"@),
        tag_free("<div class=\"admonition "@), tag_free("\">\n"@), tag_free("<p class=\"admonition-title\">"@),
        tag_free("</div>\n"@), tag_free("<dl class=\"metadata\">\n"@), tag_free("</dl>\n"@),
        tag_free("<pre class=\"metadata\">"@), tag_free("</pre>\n"@), tag_free("</dt><dd>"@),
        tag_free("<table>\n"@), tag_free("<thead>\n<tr>"@), tag_free("<th>"@), tag_free("</th>"@),
        tag_free("</tr>\n</thead>\n"@), tag_free("<tbody>\n"@), tag_free("</tbody>\n"@), tag_free("</table>"@),
        tag_free("<tr>"@), tag_free("<td>"@), tag_free("</td>"@), tag_free("</tr>\n"@),
        tag_free("</section>\n"@), tag_free("<sup><a href=\"#fn-"@), tag_free("\" id=\"fnref-"@),
        tag_free("</a></sup>"@), tag_free("<li id=\"fn-"@), tag_free("\"><p>"@), tag_free(" <a href=\"#fnref-"@),
        tag_free("\">&#x21a9;</a></p></li>\n"@), tag_free("<section class=\"footnotes\">\n<hr>\n"@),
        tag_free("<section>\n"@), tag_free("<section class=\"slide\" data-slide=\""@), tag_free("<h2>"@),
        tag_free("</h2>\n"@), tag_free("<section class=\"citations\">\n"@), tag_free("<p id=\"cite-"@),
        tag_free("</h"@),
{
    reveal_strlit("<h1>"); reveal_strlit("</h1>\n"); reveal_strlit("<h"); reveal_strlit("<p>");
    reveal_strlit("</p>\n"); reveal_strlit("<li>"); reveal_strlit("</li>\n"); reveal_strlit("<dt>");
    reveal_strlit("</dt>\n"); reveal_strlit("<dd>"); reveal_strlit("</dd>\n");
    reveal_strlit("<hr class=\"page-break\">\n"); reveal_strlit("<div class=\"math\">$$");
    reveal_strlit("$$</div>\n"); reveal_strlit("\n"); reveal_strlit(">"); reveal_strlit(">\n");
    reveal_strlit("<pre><code>"); reveal_strlit("</code></pre>\n"); reveal_strlit("<pre><code class=\"language-");
    reveal_strlit("\">"); reveal_strlit("<figure><img src=\""); reveal_strlit("\" alt=\"");
    reveal_strlit("<figcaption>"); reveal_strlit("</figcaption>"); reveal_strlit("</figure>\n");
    reveal_strlit("<div class=\"admonition "); reveal_strlit("\">\n"); reveal_strlit("<p class=\"admonition-title\">");
    reveal_strlit("</div>\n"); reveal_strlit("<dl class=\"metadata\">\n"); reveal_strlit("</dl>\n");
    reveal_strlit("<pre class=\"metadata\">"); reveal_strlit("</pre>\n"); reveal_strlit("</dt><dd>");
    reveal_strlit("<table>\n"); reveal_strlit("<thead>\n<tr>"); reveal_strlit("<th>"); reveal_strlit("</th>");
    reveal_strlit("</tr>\n</thead>\n"); reveal_strlit("<tbody>\n"); reveal_strlit("</tbody>\n"); reveal_strlit("</table>");
    reveal_strlit("<tr>"); reveal_strlit("<td>"); reveal_strlit("</td>"); reveal_strlit("</tr>\n");
    reveal_strlit("</section>\n"); reveal_strlit("<sup><a href=\"#fn-"); reveal_strlit("\" id=\"fnref-");
    reveal_strlit("</a></sup>"); reveal_strlit("<li id=\"fn-"); reveal_strlit("\"><p>"); reveal_strlit(" <a href=\"#fnref-");
    reveal_strlit("\">&#x21a9;</a></p></li>\n"); reveal_strlit("<section class=\"footnotes\">\n<hr>\n");
    reveal_strlit("<section>\n"); reveal_strlit("<section class=\"slide\" data-slide=\""); reveal_strlit("<h2>");
    reveal_strlit("</h2>\n"); reveal_strlit("<section class=\"citations\">\n"); reveal_strlit("<p id=\"cite-");
    reveal_strlit("</h");
}

proof fn lemma_tf_cells(cells: Seq<String>, open: Seq<char>, close: Seq<char>)
    requires
        tag_free(open),
        tag_free(close),
    ensures
        tag_free(crate::render_common::html_cells(cells, open, close)),
    decreases cells.len(),
{
    lemma_tag_free_all();
    if cells.len() > 0 {
        lemma_tf_cells(cells.drop_last(), open, close);
        lemma_tf_escaped(cells.last()@);
    }
}

proof fn lemma_tf_body_rows(rows: Seq<Vec<String>>, n: int)
    ensures
        tag_free(crate::render_common::html_body_rows(rows, n)),
    decreases n,
{
    lemma_tag_free_all();
    lemma_tf_block_lits();
    if n > 1 {
        lemma_tf_body_rows(rows, n - 1);
        lemma_tf_cells(rows[n - 1]@, "<td>"@, "</td>"@);
    }
}

proof fn lemma_tf_table(doc: InternalDocument, idx: int)
    requires
        forall|k: int| 0 <= k < doc.tables@.len() ==> (#[trigger] doc.tables@[k]).cells@.len() > 0,
    ensures
        table_text(doc, idx, true) matches Some(t) ==> tag_free(t),
{
    lemma_tag_free_all();
    lemma_tf_block_lits();
    if 0 <= idx < doc.tables@.len() {
        let rows = doc.tables@[idx].cells@;
        lemma_tf_cells(rows[0]@, "<th>"@, "</th>"@);
        lemma_tf_body_rows(rows, rows.len() as int);
        let head = "<thead>\n<tr>"@ + crate::render_common::html_cells(rows[0]@, "<th>"@, "</th>"@) + "</tr>\n</thead>\n"@;
        let body = if rows.len() > 1 {
            "<tbody>\n"@ + crate::render_common::html_body_rows(rows, rows.len() as int) + "</tbody>\n"@
        } else {
            Seq::empty()
        };
        assert(tag_free(Seq::<char>::empty()));
        assert(tag_free(head));
        assert(tag_free(body));
        assert(crate::render_common::table_html(rows) == "<table>\n"@ + head + body + "</table>"@);
    }
}

proof fn lemma_tf_metadata(es: Seq<(Seq<char>, Seq<char>)>)
    ensures
        tag_free(html_metadata(es)),
    decreases es.len(),
{
    lemma_tag_free_all();
    lemma_tf_block_lits();
    if es.len() > 0 {
        lemma_tf_metadata(es.drop_last());
        lemma_tf_escaped(es.last().0);
        lemma_tf_escaped(es.last().1);
    } else {
        assert(tag_free(Seq::<char>::empty()));
    }
}


proof fn lemma_tf_citations(elems: Seq<InternalElement>, n: int)
    ensures
        tag_free(html_citation_entries(elems, n)),
    decreases n,
{
    lemma_tag_free_all();
    lemma_tf_block_lits();
    if n > 0 {
        lemma_tf_citations(elems, n - 1);
        lemma_tf_escaped(crate::markdown::citation_key(elems[n - 1]));
        lemma_tf_escaped(elems[n - 1].text@);
    } else {
        assert(tag_free(Seq::<char>::empty()));
    }
    assert(tag_free(Seq::<char>::empty()));
}

/// One of the tags followed by a line break holds that tag once and no other.
proof fn lemma_tag_line(p0: Seq<char>, p: Seq<char>)
    requires
        nest_tag(p0),
        nest_tag(p),
    ensures
        count_of(p0 + "\n"@, p) == (if p == p0 { 1nat } else { 0nat }),
        ends_clean(p0 + "\n"@),
{
    reveal_strlit("\n");
    reveal_strlit("<ul>");
    reveal_strlit("<ol>");
    reveal_strlit("</ul>");
    reveal_strlit("</ol>");
    reveal_strlit("<blockquote>");
    reveal_strlit("</blockquote>");
    lemma_tag_shape(p0);
    lemma_tag_shape(p);
    lemma_count_concat(p0, "\n"@, p);
    lemma_no_lt_tag_free("\n"@);
    lemma_tag_free_count("\n"@, p);
    let d = p0.drop_first();
    assert forall|k: int| 0 <= k < d.len() implies #[trigger] d[k] != '<' by {
        assert(d[k] == p0[k + 1]);
    }
    lemma_no_lt_tag_free(d);
    lemma_tag_free_count(d, p);
    if p == p0 {
        assert(p0.subrange(0, p.len() as int) =~= p);
    } else if occurs_at(p0, p, 0) {
        let x = p0.subrange(0, p.len() as int);
        assert(x[1] == p[1] && x[2] == p[2] && x[3] == p[3]);
        assert(p0[1] == p[1] && p0[2] == p[2] && p0[3] == p[3]);
    }
    let l = p0 + "\n"@;
    assert(l[l.len() - 1] == '\n');
}

proof fn lemma_ends_concat(a: Seq<char>, b: Seq<char>)
    requires
        ends_clean(a),
        ends_clean(b),
    ensures
        ends_clean(a + b),
{
    if b.len() > 0 {
        assert((a + b)[(a + b).len() - 1] == b[b.len() - 1]);
    } else {
        assert(a + b =~= a);
    }
}

/// The tag that a list end, a quote end, a list start or a quote start
/// writes when its list's innermost open list is ordered as `st` says.
pub open spec fn written_tag(e: InternalElement, st: Seq<Container>) -> Option<Seq<char>> {
    if e.layer != ContentLayer::Body {
        None
    } else {
        match e.kind {
            ElementKind::ListEnd => Some(if innermost_ordered(st) { "</ol>"@ } else { "</ul>"@ }),
            ElementKind::QuoteEnd => Some("</blockquote>"@),
            ElementKind::ListStart { ordered } => Some(if ordered { "<ol>"@ } else { "<ul>"@ }),
            ElementKind::QuoteStart => Some("<blockquote>"@),
            _ => None,
        }
    }
}

/// What element `i` adds to the body's HTML in state `st`.
pub open spec fn step_piece(doc: InternalDocument, i: int, st: (Seq<char>, Seq<Container>, bool)) -> Seq<char> {
    let e = doc.elements@[i];
    if e.layer != ContentLayer::Body {
        Seq::empty()
    } else {
        match e.kind {
            ElementKind::ListEnd => if innermost_ordered(st.1) {
                "</ol>\n"@
            } else {
                "</ul>\n"@
            },
            ElementKind::QuoteEnd => "</blockquote>\n"@,
            ElementKind::GroupEnd => (if st.2 {
                "</section>\n"@
            } else {
                Seq::empty()
            }) + "</section>\n"@,
            ElementKind::ListStart { ordered } => if ordered {
                "<ol>\n"@
            } else {
                "<ul>\n"@
            },
            ElementKind::QuoteStart => "<blockquote>\n"@,
            ElementKind::GroupStart => "<section>\n"@,
            ElementKind::FootnoteRef => match crate::footnotes::ref_number(doc.elements@, i) {
                Some(n) => "<sup><a href=\"#fn-"@ + decimal(n) + "\" id=\"fnref-"@ + decimal(n) + "\">"@ + decimal(n)
                    + "</a></sup>"@,
                None => Seq::empty(),
            },
            ElementKind::Slide { number } => (if st.2 {
                "</section>\n"@
            } else {
                Seq::empty()
            }) + "<section class=\"slide\" data-slide=\""@ + decimal(number as nat) + "\">\n"@ + (if e.text@.len() > 0 {
                "<h2>"@ + ann_html(e) + "</h2>\n"@
            } else {
                Seq::empty()
            }),
            _ => html_block(doc, e),
        }
    }
}

proof fn lemma_step_is_piece(doc: InternalDocument, i: int, st: (Seq<char>, Seq<Container>, bool))
    requires
        0 <= i < doc.elements@.len(),
    ensures
        html_step(doc, i, st).0 == st.0 + step_piece(doc, i, st),
{
    let e = doc.elements@[i];
    if e.layer != ContentLayer::Body {
        assert(st.0 + Seq::<char>::empty() =~= st.0);
    } else {
        match e.kind {
            ElementKind::GroupEnd => {
                assert(html_step(doc, i, st).0 =~= st.0 + step_piece(doc, i, st));
            },
            ElementKind::FootnoteRef => {
                assert(html_step(doc, i, st).0 =~= st.0 + step_piece(doc, i, st));
            },
            ElementKind::Slide { .. } => {
                assert(html_step(doc, i, st).0 =~= st.0 + step_piece(doc, i, st));
            },
            _ => {
                assert(html_step(doc, i, st).0 =~= st.0 + step_piece(doc, i, st));
            },
        }
    }
}

proof fn lemma_piece_free(doc: InternalDocument, i: int, st: (Seq<char>, Seq<Container>, bool))
    requires
        0 <= i < doc.elements@.len(),
        doc.elements@[i].kind != ElementKind::RawBlock,
        written_tag(doc.elements@[i], st.1) is None,
        forall|k: int| 0 <= k < doc.tables@.len() ==> (#[trigger] doc.tables@[k]).cells@.len() > 0,
    ensures
        tag_free(step_piece(doc, i, st)),
        ends_clean(step_piece(doc, i, st)),
{
    lemma_tag_free_all();
    lemma_tf_block_lits();
    let e = doc.elements@[i];
    assert(tag_free(Seq::<char>::empty()));
    if e.layer == ContentLayer::Body {
        reveal_strlit("</section>\n");
        reveal_strlit("<section>\n");
        reveal_strlit("</a></sup>");
        reveal_strlit("</h2>\n");
        reveal_strlit("\">\n");
        match e.kind {
            ElementKind::GroupEnd => {
                lemma_lit_ends(if st.2 { "</section>\n"@ } else { Seq::empty() }, "</section>\n"@);
            },
            ElementKind::GroupStart => {
                lemma_lit_ends(Seq::empty(), "<section>\n"@);
                assert(Seq::<char>::empty() + "<section>\n"@ =~= "<section>\n"@);
            },
            ElementKind::FootnoteRef => {
                match crate::footnotes::ref_number(doc.elements@, i) {
                    Some(n) => {
                        lemma_tf_decimal(n);
                        lemma_lit_ends(
                            "<sup><a href=\"#fn-"@ + decimal(n) + "\" id=\"fnref-"@ + decimal(n) + "\">"@ + decimal(n),
                            "</a></sup>"@,
                        );
                    },
                    None => {},
                }
            },
            ElementKind::Slide { number } => {
                lemma_tf_decimal(number as nat);
                lemma_tf_from(e.text@, e.annotations@, 0);
                let a = (if st.2 { "</section>\n"@ } else { Seq::empty() }) + "<section class=\"slide\" data-slide=\""@
                    + decimal(number as nat);
                if e.text@.len() > 0 {
                    lemma_lit_ends(a + "\">\n"@ + "<h2>"@ + ann_html(e), "</h2>\n"@);
                } else {
                    lemma_lit_ends(a, "\">\n"@);
                    assert(a + "\">\n"@ + Seq::<char>::empty() =~= a + "\">\n"@);
                }
            },
            _ => {
                lemma_tf_block(doc, e);
                lemma_block_ends(doc, e);
            },
        }
    }
}

proof fn lemma_piece_tag(doc: InternalDocument, i: int, st: (Seq<char>, Seq<Container>, bool))
    requires
        0 <= i < doc.elements@.len(),
        written_tag(doc.elements@[i], st.1) is Some,
    ensures
        step_piece(doc, i, st) == written_tag(doc.elements@[i], st.1)->0 + "\n"@,
        nest_tag(written_tag(doc.elements@[i], st.1)->0),
{
    reveal_strlit("\n");
    reveal_strlit("<ul>");
    reveal_strlit("<ol>");
    reveal_strlit("</ul>");
    reveal_strlit("</ol>");
    reveal_strlit("<blockquote>");
    reveal_strlit("</blockquote>");
    reveal_strlit("<ul>\n");
    reveal_strlit("<ol>\n");
    reveal_strlit("</ul>\n");
    reveal_strlit("</ol>\n");
    reveal_strlit("<blockquote>\n");
    reveal_strlit("</blockquote>\n");
    assert(step_piece(doc, i, st) =~= written_tag(doc.elements@[i], st.1)->0 + "\n"@);
}

proof fn lemma_lit_ends(a: Seq<char>, lit: Seq<char>)
    requires
        lit.len() > 0,
        lit[lit.len() - 1] == '\n' || lit[lit.len() - 1] == '>',
    ensures
        ends_clean(a + lit),
{
    assert((a + lit)[(a + lit).len() - 1] == lit[lit.len() - 1]);
}

proof fn lemma_block_ends(doc: InternalDocument, e: InternalElement)
    requires
        e.kind != ElementKind::RawBlock,
    ensures
        ends_clean(html_block(doc, e)),
{
    reveal_strlit("</h1>\n");
    reveal_strlit(">\n");
    reveal_strlit("</p>\n");
    reveal_strlit("</li>\n");
    reveal_strlit("</code></pre>\n");
    reveal_strlit("$$</div>\n");
    reveal_strlit("\n");
    reveal_strlit("</figure>\n");
    reveal_strlit("<hr class=\"page-break\">\n");
    reveal_strlit("</dt>\n");
    reveal_strlit("</dd>\n");
    reveal_strlit("</div>\n");
    reveal_strlit("</dl>\n");
    reveal_strlit("</pre>\n");
    let b = html_block(doc, e);
    if b.len() > 0 {
        match e.kind {
            ElementKind::Title => lemma_lit_ends("<h1>"@ + ann_html(e), "</h1>\n"@),
            ElementKind::Heading { level } => lemma_lit_ends(
                "<h"@ + decimal(html_level(level)) + ">"@ + ann_html(e) + "</h"@ + decimal(html_level(level)),
                ">\n"@,
            ),
            ElementKind::Paragraph => lemma_lit_ends("<p>"@ + ann_html(e), "</p>\n"@),
            ElementKind::OcrText => lemma_lit_ends("<p>"@ + ann_html(e), "</p>\n"@),
            ElementKind::ListItem { .. } => lemma_lit_ends("<li>"@ + ann_html(e), "</li>\n"@),
            ElementKind::Code => {
                let lang = crate::render_common::attr_or_empty(e, "language"@);
                if lang.len() == 0 {
                    lemma_lit_ends("<pre><code>"@ + html_esc(e.text@), "</code></pre>\n"@);
                } else {
                    lemma_lit_ends(
                        "<pre><code class=\"language-"@ + html_esc(lang) + "\">"@ + html_esc(e.text@),
                        "</code></pre>\n"@,
                    );
                }
            },
            ElementKind::Formula => lemma_lit_ends("<div class=\"math\">$$"@ + html_esc(e.text@), "$$</div>\n"@),
            ElementKind::Table { table_index } => {
                match table_text(doc, table_index as int, true) {
                    Some(t) => lemma_lit_ends(t, "\n"@),
                    None => {},
                }
            },
            ElementKind::Image { image_index } => {
                let desc = crate::render_common::image_desc(doc, image_index as int);
                let pre = "<figure><img src=\""@ + html_esc(crate::render_common::image_url(doc, image_index as int))
                    + "\" alt=\""@ + html_esc(desc) + "\">"@ + (if desc.len() > 0 {
                    "<figcaption>"@ + html_esc(desc) + "</figcaption>"@
                } else {
                    Seq::empty()
                });
                lemma_lit_ends(pre, "</figure>\n"@);
            },
            ElementKind::PageBreak => {
                assert(b == "<hr class=\"page-break\">\n"@);
            },
            ElementKind::DefinitionTerm => lemma_lit_ends("<dt>"@ + ann_html(e), "</dt>\n"@),
            ElementKind::DefinitionDescription => lemma_lit_ends("<dd>"@ + ann_html(e), "</dd>\n"@),
            ElementKind::Admonition => {
                let pre = "<div class=\"admonition "@ + html_esc(crate::render_common::admonition_kind(e)) + "\">\n"@
                    + "<p class=\"admonition-title\">"@ + html_esc(crate::markdown::admonition_title(e)) + "</p>\n"@
                    + (if ann_html(e).len() > 0 {
                    "<p>"@ + ann_html(e) + "</p>\n"@
                } else {
                    Seq::empty()
                });
                lemma_lit_ends(pre, "</div>\n"@);
            },
            ElementKind::MetadataBlock => {
                let es = crate::render_common::metadata_entries(crate::text::lines(e.text@));
                if es.len() > 0 {
                    lemma_lit_ends("<dl class=\"metadata\">\n"@ + html_metadata(es), "</dl>\n"@);
                } else if e.text@.len() > 0 {
                    lemma_lit_ends("<pre class=\"metadata\">"@ + html_esc(e.text@), "</pre>\n"@);
                }
            },
            _ => {},
        }
    }
}

proof fn lemma_tf_block(doc: InternalDocument, e: InternalElement)
    requires
        e.kind != ElementKind::RawBlock,
        forall|k: int| 0 <= k < doc.tables@.len() ==> (#[trigger] doc.tables@[k]).cells@.len() > 0,
    ensures
        tag_free(html_block(doc, e)),
{
    lemma_tag_free_all();
    lemma_tf_block_lits();
    lemma_tf_from(e.text@, e.annotations@, 0);
    assert(tag_free(ann_html(e)));
    lemma_tf_escaped(e.text@);
    assert(tag_free(Seq::<char>::empty()));
    match e.kind {
        ElementKind::Heading { level } => {
            lemma_tf_decimal(html_level(level));
        },
        ElementKind::Code => {
            lemma_tf_escaped(crate::render_common::attr_or_empty(e, "language"@));
            assert(tag_free(html_code(e)));
        },
        ElementKind::Table { table_index } => {
            lemma_tf_table(doc, table_index as int);
        },
        ElementKind::Image { image_index } => {
            lemma_tf_escaped(crate::render_common::image_url(doc, image_index as int));
            lemma_tf_escaped(crate::render_common::image_desc(doc, image_index as int));
            assert(tag_free(html_image(doc, image_index as int)));
        },
        ElementKind::Admonition => {
            lemma_tf_escaped(crate::render_common::admonition_kind(e));
            lemma_tf_escaped(crate::markdown::admonition_title(e));
            assert(tag_free(html_admonition(e)));
        },
        ElementKind::MetadataBlock => {
            lemma_tf_metadata(crate::render_common::metadata_entries(crate::text::lines(e.text@)));
            assert(tag_free(html_meta(e)));
        },
        _ => {},
    }
}

/// How many of the first `n` elements are in the body and of a kind `f`
/// picks.
pub open spec fn body_count(es: Seq<InternalElement>, n: int, f: spec_fn(ElementKind) -> bool) -> nat
    decreases n,
{
    if n <= 0 {
        0
    } else {
        body_count(es, n - 1, f) + (if es[n - 1].layer == ContentLayer::Body && f(es[n - 1].kind) {
            1nat
        } else {
            0nat
        })
    }
}

pub open spec fn is_list_start(k: ElementKind) -> bool {
    k is ListStart
}

pub open spec fn is_list_end(k: ElementKind) -> bool {
    k == ElementKind::ListEnd
}

pub open spec fn is_quote_start(k: ElementKind) -> bool {
    k == ElementKind::QuoteStart
}

pub open spec fn is_quote_end(k: ElementKind) -> bool {
    k == ElementKind::QuoteEnd
}

/// The opening and closing list tags, and the opening and closing quote tags,
/// that `s` holds.
pub open spec fn list_opens(s: Seq<char>) -> nat {
    count_of(s, "<ul>"@) + count_of(s, "<ol>"@)
}

pub open spec fn list_closes(s: Seq<char>) -> nat {
    count_of(s, "</ul>"@) + count_of(s, "</ol>"@)
}

pub open spec fn quote_opens(s: Seq<char>) -> nat {
    count_of(s, "<blockquote>"@)
}

pub open spec fn quote_closes(s: Seq<char>) -> nat {
    count_of(s, "</blockquote>"@)
}

/// Counting the tags over a clean text and a tag-free one, or one tag line.
proof fn lemma_counts_add(a: Seq<char>, b: Seq<char>, t: Option<Seq<char>>)
    requires
        ends_clean(a),
        match t {
            Some(p0) => nest_tag(p0) && b == p0 + "\n"@,
            None => tag_free(b),
        },
    ensures
        list_opens(a + b) == list_opens(a) + (if t == Some("<ul>"@) || t == Some("<ol>"@) { 1nat } else { 0nat }),
        list_closes(a + b) == list_closes(a) + (if t == Some("</ul>"@) || t == Some("</ol>"@) { 1nat } else { 0nat }),
        quote_opens(a + b) == quote_opens(a) + (if t == Some("<blockquote>"@) { 1nat } else { 0nat }),
        quote_closes(a + b) == quote_closes(a) + (if t == Some("</blockquote>"@) { 1nat } else { 0nat }),
{
    reveal_strlit("<ul>");
    reveal_strlit("<ol>");
    reveal_strlit("</ul>");
    reveal_strlit("</ol>");
    reveal_strlit("<blockquote>");
    reveal_strlit("</blockquote>");
    let tags = seq!["<ul>"@, "<ol>"@, "</ul>"@, "</ol>"@, "<blockquote>"@, "</blockquote>"@];
    assert forall|j: int| 0 <= j < 6 implies count_of(a + b, #[trigger] tags[j]) == count_of(a, tags[j]) + (if t
        == Some(tags[j]) {
        1nat
    } else {
        0nat
    }) by {
        let p = tags[j];
        assert(nest_tag(p));
        lemma_count_concat(a, b, p);
        match t {
            Some(p0) => lemma_tag_line(p0, p),
            None => lemma_tag_free_count(b, p),
        }
    }
    assert(tags[0] == "<ul>"@ && tags[1] == "<ol>"@ && tags[2] == "</ul>"@ && tags[3] == "</ol>"@);
    assert(tags[4] == "<blockquote>"@ && tags[5] == "</blockquote>"@);
    assert("<ul>"@ != "<ol>"@) by {
        assert("<ul>"@[1] != "<ol>"@[1]);
    }
    assert("</ul>"@ != "</ol>"@) by {
        assert("</ul>"@[2] != "</ol>"@[2]);
    }
    assert(count_of(a + b, tags[0]) == count_of(a, tags[0]) + (if t == Some(tags[0]) { 1nat } else { 0nat }));
    assert(count_of(a + b, tags[1]) == count_of(a, tags[1]) + (if t == Some(tags[1]) { 1nat } else { 0nat }));
    assert(count_of(a + b, tags[2]) == count_of(a, tags[2]) + (if t == Some(tags[2]) { 1nat } else { 0nat }));
    assert(count_of(a + b, tags[3]) == count_of(a, tags[3]) + (if t == Some(tags[3]) { 1nat } else { 0nat }));
}

proof fn lemma_body_counts(doc: InternalDocument, n: int)
    requires
        0 <= n <= doc.elements@.len(),
        forall|k: int| 0 <= k < doc.elements@.len() ==> (#[trigger] doc.elements@[k]).kind != ElementKind::RawBlock,
        forall|k: int| 0 <= k < doc.tables@.len() ==> (#[trigger] doc.tables@[k]).cells@.len() > 0,
    ensures
        ends_clean(html_body(doc, n).0),
        list_opens(html_body(doc, n).0) == body_count(doc.elements@, n, |k: ElementKind| is_list_start(k)),
        list_closes(html_body(doc, n).0) == body_count(doc.elements@, n, |k: ElementKind| is_list_end(k)),
        quote_opens(html_body(doc, n).0) == body_count(doc.elements@, n, |k: ElementKind| is_quote_start(k)),
        quote_closes(html_body(doc, n).0) == body_count(doc.elements@, n, |k: ElementKind| is_quote_end(k)),
    decreases n,
{
    reveal_strlit("<ul>");
    reveal_strlit("<ol>");
    reveal_strlit("</ul>");
    reveal_strlit("</ol>");
    reveal_strlit("<blockquote>");
    reveal_strlit("</blockquote>");
    if n == 0 {
        let z = Seq::<char>::empty();
        lemma_no_lt_tag_free(z);
        lemma_tag_free_count(z, "<ul>"@);
        lemma_tag_free_count(z, "<ol>"@);
        lemma_tag_free_count(z, "</ul>"@);
        lemma_tag_free_count(z, "</ol>"@);
        lemma_tag_free_count(z, "<blockquote>"@);
        lemma_tag_free_count(z, "</blockquote>"@);
    } else {
        lemma_body_counts(doc, n - 1);
        let st = html_body(doc, n - 1);
        let i = n - 1;
        lemma_step_is_piece(doc, i, st);
        let e = doc.elements@[i];
        let t = written_tag(e, st.1);
        let piece = step_piece(doc, i, st);
        match t {
            Some(p0) => {
                lemma_piece_tag(doc, i, st);
                lemma_tag_line(p0, p0);
            },
            None => {
                lemma_piece_free(doc, i, st);
            },
        }
        lemma_counts_add(st.0, piece, t);
        lemma_ends_concat(st.0, piece);
    }
}

proof fn lemma_finalize_count(s: Seq<char>, p: Seq<char>)
    requires
        nest_tag(p),
    ensures
        count_of(crate::render_common::finalize(s), p) == count_of(s, p),
{
    crate::text::lemma_back_ws_bounds(s, s.len() as int);
    let m = crate::text::back_ws(s, s.len() as int);
    let t = s.take(m);
    let w = s.skip(m);
    assert(s =~= t + w);
    assert forall|k: int| 0 <= k < w.len() implies crate::text::is_ws(#[trigger] w[k]) by {
        assert(w[k] == s[m + k]);
    }
    lemma_count_ws(t, w, p);
    reveal_strlit("\n");
    if t.len() > 0 {
        assert(t.push('\n') =~= t + "\n"@);
        assert forall|k: int| 0 <= k < "\n"@.len() implies crate::text::is_ws(#[trigger] "\n"@[k]) by {}
        lemma_count_ws(t, "\n"@, p);
    } else {
        lemma_no_lt_tag_free(Seq::<char>::empty());
        lemma_tag_free_count(Seq::<char>::empty(), p);
    }
}

proof fn lemma_footnote_entries(texts: Seq<Seq<char>>, n: int)
    ensures
        tag_free(html_footnote_entries(texts, n)),
        ends_clean(html_footnote_entries(texts, n)),
    decreases n,
{
    lemma_tag_free_all();
    lemma_tf_block_lits();
    reveal_strlit("\">&#x21a9;</a></p></li>\n");
    if n > 0 {
        lemma_footnote_entries(texts, n - 1);
        lemma_tf_decimal(n as nat);
        lemma_tf_escaped(texts[n - 1]);
        lemma_lit_ends(
            html_footnote_entries(texts, n - 1) + "<li id=\"fn-"@ + decimal(n as nat) + "\"><p>"@ + html_esc(texts[n - 1])
                + " <a href=\"#fnref-"@ + decimal(n as nat),
            "\">&#x21a9;</a></p></li>\n"@,
        );
    } else {
        assert(tag_free(Seq::<char>::empty()));
    }
}

/// List and quote tags in the HTML of a document: each body list start writes
/// one opening list tag and each body list end one closing list tag (and the
/// footnote section, when there is one, one of each); each body quote start
/// writes one opening quote tag and each quote end one closing quote tag.  So
/// the tags balance whenever the document's starts and ends do.  This holds of
/// a document with no raw block (whose text goes out as it is) and no table
/// given only as markdown.
pub proof fn nesting_tags_balance(doc: InternalDocument)
    requires
        forall|k: int| 0 <= k < doc.elements@.len() ==> (#[trigger] doc.elements@[k]).kind != ElementKind::RawBlock,
        forall|k: int| 0 <= k < doc.tables@.len() ==> (#[trigger] doc.tables@[k]).cells@.len() > 0,
    ensures
        ({
            let h = html_of(doc);
            let es = doc.elements@;
            let f: nat = if footnote_texts(es).len() > 0 { 1 } else { 0 };
            &&& list_opens(h) == body_count(es, es.len() as int, |k: ElementKind| is_list_start(k)) + f
            &&& list_closes(h) == body_count(es, es.len() as int, |k: ElementKind| is_list_end(k)) + f
            &&& quote_opens(h) == body_count(es, es.len() as int, |k: ElementKind| is_quote_start(k))
            &&& quote_closes(h) == body_count(es, es.len() as int, |k: ElementKind| is_quote_end(k))
            &&& body_count(es, es.len() as int, |k: ElementKind| is_list_start(k)) == body_count(
                es,
                es.len() as int,
                |k: ElementKind| is_list_end(k),
            ) ==> list_opens(h) == list_closes(h)
            &&& body_count(es, es.len() as int, |k: ElementKind| is_quote_start(k)) == body_count(
                es,
                es.len() as int,
                |k: ElementKind| is_quote_end(k),
            ) ==> quote_opens(h) == quote_closes(h)
        }),
{
    lemma_tag_free_all();
    lemma_tf_block_lits();
    let es = doc.elements@;
    let n = es.len() as int;
    lemma_body_counts(doc, n);
    let (out, st, slide) = html_body(doc, n);
    reveal_strlit("\n");
    reveal_strlit("<ol>");
    reveal_strlit("</ol>");
    reveal_strlit("</section>\n");
    reveal_strlit("<section class=\"footnotes\">\n<hr>\n<ol>\n");
    reveal_strlit("<section class=\"footnotes\">\n<hr>\n");
    reveal_strlit("</ol>\n</section>\n");
    reveal_strlit("<section class=\"citations\">\n");
    // the slide still open
    let sc: Seq<char> = if slide { "</section>\n"@ } else { Seq::empty() };
    assert(tag_free(sc));
    if slide {
        lemma_lit_ends(Seq::empty(), "</section>\n"@);
        assert(Seq::<char>::empty() + "</section>\n"@ =~= "</section>\n"@);
    }
    lemma_counts_add(out, sc, None);
    lemma_ends_concat(out, sc);
    let a1 = out + sc;
    // the footnote section
    let ft = footnote_texts(es);
    let fs = html_footnotes(ft);
    let a2 = a1 + fs;
    if ft.len() > 0 {
        let head = "<section class=\"footnotes\">\n<hr>\n"@;
        let ents = html_footnote_entries(ft, ft.len() as int);
        lemma_footnote_entries(ft, ft.len() as int);
        assert("<section class=\"footnotes\">\n<hr>\n<ol>\n"@ =~= head + ("<ol>"@ + "\n"@));
        assert("</ol>\n</section>\n"@ =~= ("</ol>"@ + "\n"@) + "</section>\n"@);
        assert(fs =~= a1.subrange(0, 0) + head + ("<ol>"@ + "\n"@) + ents + ("</ol>"@ + "\n"@) + "</section>\n"@);
        assert(a2 =~= a1 + head + ("<ol>"@ + "\n"@) + ents + ("</ol>"@ + "\n"@) + "</section>\n"@);
        lemma_lit_ends(Seq::empty(), head);
        assert(Seq::<char>::empty() + head =~= head);
        lemma_counts_add(a1, head, None);
        lemma_ends_concat(a1, head);
        lemma_counts_add(a1 + head, "<ol>"@ + "\n"@, Some("<ol>"@));
        lemma_tag_line("<ol>"@, "<ol>"@);
        lemma_ends_concat(a1 + head, "<ol>"@ + "\n"@);
        lemma_counts_add(a1 + head + ("<ol>"@ + "\n"@), ents, None);
        lemma_ends_concat(a1 + head + ("<ol>"@ + "\n"@), ents);
        lemma_counts_add(a1 + head + ("<ol>"@ + "\n"@) + ents, "</ol>"@ + "\n"@, Some("</ol>"@));
        lemma_tag_line("</ol>"@, "</ol>"@);
        lemma_ends_concat(a1 + head + ("<ol>"@ + "\n"@) + ents, "</ol>"@ + "\n"@);
        lemma_lit_ends(Seq::empty(), "</section>\n"@);
        assert(Seq::<char>::empty() + "</section>\n"@ =~= "</section>\n"@);
        lemma_counts_add(a1 + head + ("<ol>"@ + "\n"@) + ents + ("</ol>"@ + "\n"@), "</section>\n"@, None);
        lemma_ends_concat(a1 + head + ("<ol>"@ + "\n"@) + ents + ("</ol>"@ + "\n"@), "</section>\n"@);
    } else {
        assert(a2 =~= a1);
    }
    // the citations
    let cs = html_citations(es);
    lemma_tf_citations(es, n);
    assert(tag_free(cs));
    lemma_counts_add(a2, cs, None);
    let whole = a2 + cs;
    let h = html_of(doc);
    assert(h == crate::render_common::finalize(out + sc + fs + cs));
    assert(whole == out + sc + fs + cs);
    lemma_finalize_count(whole, "<ul>"@);
    lemma_finalize_count(whole, "<ol>"@);
    lemma_finalize_count(whole, "</ul>"@);
    lemma_finalize_count(whole, "</ol>"@);
    reveal_strlit("<ul>");
    reveal_strlit("</ul>");
    reveal_strlit("<blockquote>");
    reveal_strlit("</blockquote>");
    lemma_finalize_count(whole, "<blockquote>"@);
    lemma_finalize_count(whole, "</blockquote>"@);
}

} // verus!
