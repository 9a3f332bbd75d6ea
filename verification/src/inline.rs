//! Rendering of text with inline annotations (bold, links, ...), as markdown or
//! as HTML.
//!
//! Annotations are applied in order of their start offset (earlier in the list
//! first among equal starts).  An annotation whose span starts inside a span
//! already written, or that is empty or runs past the text, is left out.
use vstd::prelude::*;
use crate::document::{AnnotationKind, TextAnnotation};
use crate::render_common::{html_esc, push_escaped_range, push_escaped_str};
use crate::text::{chars_of, lower_chars, lower_seq, push_range, push_str, starts_with, starts_with_str, trim, trim_chars};

verus! {

/// The output language of inline rendering.
#[derive(Clone, Copy, Debug, PartialEq, Eq, Structural)]
pub enum Flavor {
    Markdown,
    Html,
}

/// Whether annotation `a` can be applied once everything before `pos` is written,
/// in a text of `len` characters.
pub open spec fn usable(a: TextAnnotation, pos: int, len: int) -> bool {
    pos <= a.start && a.start < a.end && a.end <= len
}

/// The next annotation to apply: among the usable ones, the one with the
/// smallest start, the earliest in the list on a tie.
pub open spec fn pick(anns: Seq<TextAnnotation>, pos: int, len: int) -> Option<int>
    decreases anns.len(),
{
    if anns.len() == 0 {
        None
    } else {
        let prev = pick(anns.drop_last(), pos, len);
        let a = anns.last();
        if usable(a, pos, len) && (match prev {
            None => true,
            Some(k) => anns[k].start > a.start,
        }) {
            Some(anns.len() - 1)
        } else {
            prev
        }
    }
}

pub proof fn lemma_pick(anns: Seq<TextAnnotation>, pos: int, len: int)
    ensures
        pick(anns, pos, len) matches Some(k) ==> 0 <= k < anns.len() && usable(anns[k], pos, len),
        pick(anns, pos, len) is None ==> forall|j: int| 0 <= j < anns.len() ==> !usable(#[trigger] anns[j], pos, len),
        pick(anns, pos, len) matches Some(k) ==> forall|j: int|
            0 <= j < anns.len() && usable(#[trigger] anns[j], pos, len) ==> anns[k].start <= anns[j].start,
    decreases anns.len(),
{
    if anns.len() > 0 {
        let d = anns.drop_last();
        lemma_pick(d, pos, len);
        assert forall|j: int| 0 <= j < d.len() implies #[trigger] d[j] == anns[j] by {}
        if pick(anns, pos, len) is None {
            assert forall|j: int| 0 <= j < anns.len() implies !usable(#[trigger] anns[j], pos, len) by {
                if j < d.len() {
                    assert(d[j] == anns[j]);
                }
            }
        }
        if let Some(k) = pick(anns, pos, len) {
            assert forall|j: int| 0 <= j < anns.len() && usable(#[trigger] anns[j], pos, len) implies anns[k].start
                <= anns[j].start by {
                if j < d.len() {
                    assert(d[j] == anns[j]);
                }
            }
        }
    }
}

/// Whether a link target uses a scheme that must not become a link in HTML.
pub open spec fn is_dangerous(url: Seq<char>) -> bool {
    let n = lower_seq(trim(url));
    starts_with(n, "javascript:"@) || starts_with(n, "vbscript:"@) || starts_with(n, "data:text/html"@)
}

/// A span as markdown.
pub open spec fn md_wrap(span: Seq<char>, kind: AnnotationKind) -> Seq<char> {
    match kind {
        AnnotationKind::Bold => "**"@ + span + "**"@,
        AnnotationKind::Italic => "*"@ + span + "*"@,
        AnnotationKind::Code => "`"@ + span + "`"@,
        AnnotationKind::Strikethrough => "~~"@ + span + "~~"@,
        AnnotationKind::Underline => "<u>"@ + span + "</u>"@,
        AnnotationKind::Subscript => "<sub>"@ + span + "</sub>"@,
        AnnotationKind::Superscript => "<sup>"@ + span + "</sup>"@,
        AnnotationKind::Highlight => "<mark>"@ + span + "</mark>"@,
        AnnotationKind::Link { url, title } => match title {
            Some(t) => "["@ + span + "]("@ + url@ + " \""@ + t@ + "\")"@,
            None => "["@ + span + "]("@ + url@ + ")"@,
        },
        _ => span,
    }
}

/// A span as HTML (its text escaped).
pub open spec fn html_wrap(span: Seq<char>, kind: AnnotationKind) -> Seq<char> {
    let e = html_esc(span);
    match kind {
        AnnotationKind::Bold => "<strong>"@ + e + "</strong>"@,
        AnnotationKind::Italic => "<em>"@ + e + "</em>"@,
        AnnotationKind::Code => "<code>"@ + e + "</code>"@,
        AnnotationKind::Strikethrough => "<del>"@ + e + "</del>"@,
        AnnotationKind::Underline => "<u>"@ + e + "</u>"@,
        AnnotationKind::Subscript => "<sub>"@ + e + "</sub>"@,
        AnnotationKind::Superscript => "<sup>"@ + e + "</sup>"@,
        AnnotationKind::Highlight => "<mark>"@ + e + "</mark>"@,
        AnnotationKind::Link { url, title } => if is_dangerous(url@) {
            e
        } else {
            match title {
                Some(t) => "<a href=\""@ + html_esc(url@) + "\" title=\""@ + html_esc(t@) + "\">"@ + e + "</a>"@,
                None => "<a href=\""@ + html_esc(url@) + "\">"@ + e + "</a>"@,
            }
        },
        AnnotationKind::Color { value } => "<span style=\"color: "@ + html_esc(value@) + "\">"@ + e + "</span>"@,
        AnnotationKind::FontSize { value } => "<span style=\"font-size: "@ + html_esc(value@) + "\">"@ + e
            + "</span>"@,
        AnnotationKind::Custom { name, value } => match value {
            Some(v) => "<span data-"@ + html_esc(name@) + "=\""@ + html_esc(v@) + "\">"@ + e + "</span>"@,
            None => "<span data-"@ + html_esc(name@) + ">"@ + e + "</span>"@,
        },
    }
}

/// Text outside any annotation.
pub open spec fn plain(s: Seq<char>, f: Flavor) -> Seq<char> {
    match f {
        Flavor::Markdown => s,
        Flavor::Html => html_esc(s),
    }
}

/// An annotated span.
pub open spec fn wrap(span: Seq<char>, kind: AnnotationKind, f: Flavor) -> Seq<char> {
    match f {
        Flavor::Markdown => md_wrap(span, kind),
        Flavor::Html => html_wrap(span, kind),
    }
}

/// The rendering of `text[pos..]`.
pub open spec fn annotated_from(text: Seq<char>, anns: Seq<TextAnnotation>, f: Flavor, pos: int) -> Seq<char>
    decreases text.len() - pos,
{
    if pos < 0 || pos > text.len() {
        Seq::empty()
    } else {
        match pick(anns, pos, text.len() as int) {
            Some(k) => {
                proof {
                    lemma_pick(anns, pos, text.len() as int);
                }
                let a = anns[k];
                plain(text.subrange(pos, a.start as int), f) + wrap(
                    text.subrange(a.start as int, a.end as int),
                    a.kind,
                    f,
                ) + annotated_from(text, anns, f, a.end as int)
            },
            None => plain(text.subrange(pos, text.len() as int), f),
        }
    }
}

/// The rendering of a whole annotated text.
pub open spec fn annotated(text: Seq<char>, anns: Seq<TextAnnotation>, f: Flavor) -> Seq<char> {
    annotated_from(text, anns, f, 0)
}

/// A span that links to a URL with a dangerous scheme (`javascript:`,
/// `vbscript:`, `data:text/html`, in any case and with surrounding blanks) is
/// written in HTML as its escaped text, never as a link.
pub proof fn dangerous_link_is_plain_text(span: Seq<char>, url: String, title: Option<String>)
    requires
        is_dangerous(url@),
    ensures
        html_wrap(span, AnnotationKind::Link { url, title }) == html_esc(span),
{
}

/// Whether an annotation kind is a link with a dangerous scheme.
pub open spec fn dangerous_link(kind: AnnotationKind) -> bool {
    match kind {
        AnnotationKind::Link { url, .. } => is_dangerous(url@),
        _ => false,
    }
}

/// Whether every annotation is a link with a dangerous scheme.
pub open spec fn all_dangerous_links(anns: Seq<TextAnnotation>) -> bool {
    forall|k: int| 0 <= k < anns.len() ==> dangerous_link((#[trigger] anns[k]).kind)
}

proof fn lemma_dangerous_from(text: Seq<char>, anns: Seq<TextAnnotation>, pos: int)
    requires
        0 <= pos <= text.len(),
        all_dangerous_links(anns),
    ensures
        annotated_from(text, anns, Flavor::Html, pos) == html_esc(text.subrange(pos, text.len() as int)),
    decreases text.len() - pos,
{
    lemma_pick(anns, pos, text.len() as int);
    match pick(anns, pos, text.len() as int) {
        Some(k) => {
            let a = anns[k];
            let (s, e) = (a.start as int, a.end as int);
            lemma_dangerous_from(text, anns, e);
            assert(dangerous_link(a.kind));
            assert(wrap(text.subrange(s, e), a.kind, Flavor::Html) == html_esc(text.subrange(s, e)));
            crate::render_common::lemma_esc_concat(text.subrange(pos, s), text.subrange(s, e));
            crate::render_common::lemma_esc_concat(text.subrange(pos, e), text.subrange(e, text.len() as int));
            assert(text.subrange(pos, s) + text.subrange(s, e) =~= text.subrange(pos, e));
            assert(text.subrange(pos, e) + text.subrange(e, text.len() as int) =~= text.subrange(
                pos,
                text.len() as int,
            ));
        },
        None => {},
    }
}

/// Links with a dangerous scheme are never written as links: a text whose
/// annotations are all such links renders in HTML as the text escaped.
pub proof fn dangerous_links_render_as_text(text: Seq<char>, anns: Seq<TextAnnotation>)
    requires
        all_dangerous_links(anns),
    ensures
        annotated(text, anns, Flavor::Html) == html_esc(text),
{
    lemma_dangerous_from(text, anns, 0);
    assert(text.subrange(0, text.len() as int) =~= text);
}

/// Text without annotations is written as it is in markdown, and escaped in
/// HTML.
pub proof fn unannotated_text(text: Seq<char>)
    ensures
        annotated(text, Seq::empty(), Flavor::Markdown) == text,
        annotated(text, Seq::empty(), Flavor::Html) == html_esc(text),
{
    assert(text.subrange(0, text.len() as int) =~= text);
}

fn pick_exec(anns: &Vec<TextAnnotation>, pos: usize, len: usize) -> (r: Option<usize>)
    ensures
        match r {
            Some(k) => pick(anns@, pos as int, len as int) == Some(k as int),
            None => pick(anns@, pos as int, len as int) is None,
        },
{
    let mut best: Option<usize> = None;
    let mut i: usize = 0;
    assert(anns@.take(0) =~= Seq::<TextAnnotation>::empty());
    while i < anns.len()
        invariant
            i <= anns@.len(),
            match best {
                Some(k) => pick(anns@.take(i as int), pos as int, len as int) == Some(k as int),
                None => pick(anns@.take(i as int), pos as int, len as int) is None,
            },
        decreases anns.len() - i,
    {
        let ghost t = anns@.take(i + 1);
        proof {
            assert(t.drop_last() =~= anns@.take(i as int));
            lemma_pick(anns@.take(i as int), pos as int, len as int);
        }
        let a = &anns[i];
        let s = a.start as usize;
        let e = a.end as usize;
        let ok = pos <= s && s < e && e <= len;
        if ok {
            match best {
                None => {
                    best = Some(i);
                },
                Some(b) => {
                    assert(t[b as int] == anns@[b as int]);
                    if anns[b].start > a.start {
                        best = Some(i);
                    }
                },
            }
        }
        i += 1;
    }
    assert(anns@.take(anns@.len() as int) =~= anns@);
    best
}

/// `is_dangerous_url`: `javascript:`, `vbscript:` and `data:text/html` links,
/// compared after trimming and ASCII lower-casing.
pub fn is_dangerous_url(url: &str) -> (b: bool)
    ensures
        b == is_dangerous(url@),
{
    let v = chars_of(url);
    let t = trim_chars(&v);
    let n = lower_chars(&t);
    starts_with_str(&n, "javascript:") || starts_with_str(&n, "vbscript:") || starts_with_str(&n, "data:text/html")
}

fn push_plain(out: &mut String, v: &Vec<char>, from: usize, to: usize, f: Flavor)
    requires
        from <= to <= v.len(),
    ensures
        final(out)@ == old(out)@ + plain(v@.subrange(from as int, to as int), f),
{
    match f {
        Flavor::Markdown => push_range(out, v, from, to),
        Flavor::Html => push_escaped_range(out, v, from, to),
    }
}

fn push_around(out: &mut String, open: &str, v: &Vec<char>, from: usize, to: usize, close: &str)
    requires
        from <= to <= v.len(),
    ensures
        final(out)@ == old(out)@ + (open@ + v@.subrange(from as int, to as int) + close@),
{
    push_str(out, open);
    push_range(out, v, from, to);
    push_str(out, close);
    assert(out@ =~= old(out)@ + (open@ + v@.subrange(from as int, to as int) + close@));
}

fn push_around_escaped(out: &mut String, open: &str, v: &Vec<char>, from: usize, to: usize, close: &str)
    requires
        from <= to <= v.len(),
    ensures
        final(out)@ == old(out)@ + (open@ + html_esc(v@.subrange(from as int, to as int)) + close@),
{
    push_str(out, open);
    push_escaped_range(out, v, from, to);
    push_str(out, close);
    assert(out@ =~= old(out)@ + (open@ + html_esc(v@.subrange(from as int, to as int)) + close@));
}

fn push_md_span(out: &mut String, v: &Vec<char>, from: usize, to: usize, kind: &AnnotationKind)
    requires
        from <= to <= v.len(),
    ensures
        final(out)@ == old(out)@ + md_wrap(v@.subrange(from as int, to as int), *kind),
{
    let ghost span = v@.subrange(from as int, to as int);
    match kind {
        AnnotationKind::Bold => push_around(out, "**", v, from, to, "**"),
        AnnotationKind::Italic => push_around(out, "*", v, from, to, "*"),
        AnnotationKind::Code => push_around(out, "`", v, from, to, "`"),
        AnnotationKind::Strikethrough => push_around(out, "~~", v, from, to, "~~"),
        AnnotationKind::Underline => push_around(out, "<u>", v, from, to, "</u>"),
        AnnotationKind::Subscript => push_around(out, "<sub>", v, from, to, "</sub>"),
        AnnotationKind::Superscript => push_around(out, "<sup>", v, from, to, "</sup>"),
        AnnotationKind::Highlight => push_around(out, "<mark>", v, from, to, "</mark>"),
        AnnotationKind::Link { url, title } => {
            push_str(out, "[");
            push_range(out, v, from, to);
            push_str(out, "](");
            push_str(out, url.as_str());
            match title {
                Some(t) => {
                    push_str(out, " \"");
                    push_str(out, t.as_str());
                    push_str(out, "\")");
                    assert(out@ =~= old(out)@ + ("["@ + span + "]("@ + url@ + " \""@ + t@ + "\")"@));
                },
                None => {
                    push_str(out, ")");
                    assert(out@ =~= old(out)@ + ("["@ + span + "]("@ + url@ + ")"@));
                },
            }
        },
        _ => push_range(out, v, from, to),
    }
}

fn push_html_span(out: &mut String, v: &Vec<char>, from: usize, to: usize, kind: &AnnotationKind)
    requires
        from <= to <= v.len(),
    ensures
        final(out)@ == old(out)@ + html_wrap(v@.subrange(from as int, to as int), *kind),
{
    let ghost e = html_esc(v@.subrange(from as int, to as int));
    match kind {
        AnnotationKind::Bold => push_around_escaped(out, "<strong>", v, from, to, "</strong>"),
        AnnotationKind::Italic => push_around_escaped(out, "<em>", v, from, to, "</em>"),
        AnnotationKind::Code => push_around_escaped(out, "<code>", v, from, to, "</code>"),
        AnnotationKind::Strikethrough => push_around_escaped(out, "<del>", v, from, to, "</del>"),
        AnnotationKind::Underline => push_around_escaped(out, "<u>", v, from, to, "</u>"),
        AnnotationKind::Subscript => push_around_escaped(out, "<sub>", v, from, to, "</sub>"),
        AnnotationKind::Superscript => push_around_escaped(out, "<sup>", v, from, to, "</sup>"),
        AnnotationKind::Highlight => push_around_escaped(out, "<mark>", v, from, to, "</mark>"),
        AnnotationKind::Link { url, title } => {
            if is_dangerous_url(url.as_str()) {
                push_escaped_range(out, v, from, to);
            } else {
                push_str(out, "<a href=\"");
                push_escaped_str(out, url.as_str());
                match title {
                    Some(t) => {
                        push_str(out, "\" title=\"");
                        push_escaped_str(out, t.as_str());
                        push_str(out, "\">");
                        push_escaped_range(out, v, from, to);
                        push_str(out, "</a>");
                        assert(out@ =~= old(out)@ + ("<a href=\""@ + html_esc(url@) + "\" title=\""@ + html_esc(t@)
                            + "\">"@ + e + "</a>"@));
                    },
                    None => {
                        push_str(out, "\">");
                        push_escaped_range(out, v, from, to);
                        push_str(out, "</a>");
                        assert(out@ =~= old(out)@ + ("<a href=\""@ + html_esc(url@) + "\">"@ + e + "</a>"@));
                    },
                }
            }
        },
        AnnotationKind::Color { value } => {
            push_str(out, "<span style=\"color: ");
            push_escaped_str(out, value.as_str());
            push_around_escaped(out, "\">", v, from, to, "</span>");
            assert(out@ =~= old(out)@ + ("<span style=\"color: "@ + html_esc(value@) + "\">"@ + e + "</span>"@));
        },
        AnnotationKind::FontSize { value } => {
            push_str(out, "<span style=\"font-size: ");
            push_escaped_str(out, value.as_str());
            push_around_escaped(out, "\">", v, from, to, "</span>");
            assert(out@ =~= old(out)@ + ("<span style=\"font-size: "@ + html_esc(value@) + "\">"@ + e
                + "</span>"@));
        },
        AnnotationKind::Custom { name, value } => {
            push_str(out, "<span data-");
            push_escaped_str(out, name.as_str());
            match value {
                Some(val) => {
                    push_str(out, "=\"");
                    push_escaped_str(out, val.as_str());
                    push_around_escaped(out, "\">", v, from, to, "</span>");
                    assert(out@ =~= old(out)@ + ("<span data-"@ + html_esc(name@) + "=\""@ + html_esc(val@) + "\">"@
                        + e + "</span>"@));
                },
                None => {
                    push_around_escaped(out, ">", v, from, to, "</span>");
                    assert(out@ =~= old(out)@ + ("<span data-"@ + html_esc(name@) + ">"@ + e + "</span>"@));
                },
            }
        },
    }
}

/// Renders `text` with its inline annotations.
pub fn render_annotated(text: &str, anns: &Vec<TextAnnotation>, f: Flavor) -> (r: String)
    ensures
        r@ == annotated(text@, anns@, f),
{
    let v = chars_of(text);
    let mut out = String::new();
    let mut pos: usize = 0;
    loop
        invariant
            pos <= v@.len(),
            v@ == text@,
            out@ + annotated_from(v@, anns@, f, pos as int) == annotated(text@, anns@, f),
        decreases v@.len() - pos,
    {
        proof {
            lemma_pick(anns@, pos as int, v@.len() as int);
        }
        match pick_exec(anns, pos, v.len()) {
            None => {
                let ghost before = out@;
                push_plain(&mut out, &v, pos, v.len(), f);
                assert(out@ =~= before + annotated_from(v@, anns@, f, pos as int));
                return out;
            },
            Some(k) => {
                let a = &anns[k];
                let s = a.start as usize;
                let e = a.end as usize;
                let ghost before = out@;
                push_plain(&mut out, &v, pos, s, f);
                match f {
                    Flavor::Markdown => push_md_span(&mut out, &v, s, e, &a.kind),
                    Flavor::Html => push_html_span(&mut out, &v, s, e, &a.kind),
                }
                proof {
                    let rest = annotated_from(v@, anns@, f, e as int);
                    assert(annotated_from(v@, anns@, f, pos as int) == plain(v@.subrange(pos as int, s as int), f)
                        + wrap(v@.subrange(s as int, e as int), a.kind, f) + rest);
                    assert(out@ + rest =~= before + annotated_from(v@, anns@, f, pos as int));
                }
                pos = e;
            },
        }
    }
}

/// `render_md_annotated`: inline annotations as markdown.
pub fn render_md_annotated(text: &str, anns: &Vec<TextAnnotation>) -> (r: String)
    ensures
        r@ == annotated(text@, anns@, Flavor::Markdown),
{
    render_annotated(text, anns, Flavor::Markdown)
}

/// `render_html_annotated`: inline annotations as escaped HTML.
pub fn render_html_annotated(text: &str, anns: &Vec<TextAnnotation>) -> (r: String)
    ensures
        r@ == annotated(text@, anns@, Flavor::Html),
{
    render_annotated(text, anns, Flavor::Html)
}

} // verus!
