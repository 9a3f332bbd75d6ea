//! Rendering of an `InternalDocument` as CommonMark markdown.
//!
//! The body is written element by element; elements of other layers than the
//! body are left out, footnote definitions are numbered and written at the end
//! after a rule, and citations follow them.
use vstd::prelude::*;
use crate::document::{attr_value, ContentLayer, ElementKind, InternalDocument, InternalElement, TextAnnotation};
use crate::footnotes::{footnote_keys, footnote_texts, is_new_definition, lemma_footnote_lens, ref_number, FootnoteCollector};
use crate::inline::{annotated, render_md_annotated, unannotated_text, Flavor};
use crate::render_common::{
    admonition_kind, attr_or_empty, capitalize, capitalize_chars, count_tag, finalize, finalize_output,
    get_admonition_kind, get_attr, get_attr_or_empty, image_desc, image_desc_exec, image_url, image_url_exec,
    metadata_entries, next_number, parse_metadata_entries, pop_container, pop_to_depth, push_repeat, push_with_bq,
    push_with_nl, repeat, table_text, table_text_exec, with_bq, with_nl, Container, ContainerTag, NestingKind,
    RenderState,
};
use crate::text::{chars_of, decimal, lines, push_all, push_decimal, push_str, split_lines};

verus! {

/// The inline markdown of an element's text.
pub open spec fn ann_md(e: InternalElement) -> Seq<char> {
    annotated(e.text@, e.annotations@, Flavor::Markdown)
}

/// An admonition's title: its `title` attribute, else its kind capitalised.
pub open spec fn admonition_title(e: InternalElement) -> Seq<char> {
    match attr_value(e.attributes@, "title"@) {
        Some(t) => t,
        None => capitalize(admonition_kind(e)),
    }
}

/// Each line prefixed by `"> "` and followed by a newline.
pub open spec fn quoted_lines(ls: Seq<Seq<char>>) -> Seq<char>
    decreases ls.len(),
{
    if ls.len() == 0 {
        Seq::empty()
    } else {
        quoted_lines(ls.drop_last()) + "> "@ + ls.last() + "\n"@
    }
}

/// Metadata entries as `**key**: value` lines.
pub open spec fn md_metadata(es: Seq<(Seq<char>, Seq<char>)>) -> Seq<char>
    decreases es.len(),
{
    if es.len() == 0 {
        Seq::empty()
    } else {
        md_metadata(es.drop_last()) + "**"@ + es.last().0 + "**: "@ + es.last().1 + "\n"@
    }
}

/// The markdown block of an element whose block does not depend on the nesting
/// state (all but list items, footnote references and container markers).
pub open spec fn md_block(doc: InternalDocument, e: InternalElement) -> Option<Seq<char>> {
    match e.kind {
        ElementKind::Title => Some("# "@ + ann_md(e) + "\n\n"@),
        ElementKind::Heading { level } => Some(repeat("#"@, level as nat) + " "@ + ann_md(e) + "\n\n"@),
        ElementKind::Paragraph => Some(ann_md(e) + "\n\n"@),
        ElementKind::OcrText => Some(ann_md(e) + "\n\n"@),
        ElementKind::Code => Some("```"@ + attr_or_empty(e, "language"@) + "\n"@ + with_nl(e.text@) + "```\n\n"@),
        ElementKind::Formula => Some("$$\n"@ + with_nl(e.text@) + "$$\n\n"@),
        ElementKind::Table { table_index } => match table_text(doc, table_index as int, false) {
            Some(t) => Some(t + "\n"@),
            None => None,
        },
        ElementKind::Image { image_index } => Some(
            "!["@ + image_desc(doc, image_index as int) + "]("@ + image_url(doc, image_index as int) + ")\n\n"@,
        ),
        ElementKind::PageBreak => Some("\n<!-- page break -->\n\n"@),
        ElementKind::Slide { .. } => if e.text@.len() == 0 {
            Some("\n---\n\n"@)
        } else {
            Some("\n---\n\n## "@ + ann_md(e) + "\n\n"@)
        },
        ElementKind::DefinitionTerm => Some(ann_md(e) + "\n"@),
        ElementKind::DefinitionDescription => Some(": "@ + ann_md(e) + "\n\n"@),
        ElementKind::Admonition => Some(
            "> **"@ + admonition_title(e) + "**\n"@ + quoted_lines(lines(ann_md(e))) + "\n"@,
        ),
        ElementKind::RawBlock => Some(with_nl(e.text@) + "\n"@),
        ElementKind::MetadataBlock => {
            let es = metadata_entries(lines(e.text@));
            Some(md_metadata(es) + (if es.len() == 0 && e.text@.len() > 0 {
                with_nl(e.text@)
            } else {
                Seq::empty()
            }) + "\n"@)
        },
        _ => None,
    }
}

/// A list item: its block and the nesting state after it (ordered items
/// advance the innermost list's counter).
pub open spec fn md_list_item(e: InternalElement, ordered: bool, st: Seq<Container>) -> (Seq<char>, Seq<Container>) {
    let ld = count_tag(st, ContainerTag::List);
    let indent = repeat("  "@, if ld > 0 {
        (ld - 1) as nat
    } else {
        0
    });
    if ordered {
        let (n, st2) = next_number(st);
        (indent + decimal(n as nat) + ". "@ + ann_md(e) + "\n"@, st2)
    } else {
        (indent + "- "@ + ann_md(e) + "\n"@, st)
    }
}

/// One step of the body pass: element `i` written after `out` in state `st`.
pub open spec fn md_step(doc: InternalDocument, i: int, out: Seq<char>, st: Seq<Container>) -> (
    Seq<char>,
    Seq<Container>,
) {
    let e = doc.elements@[i];
    if e.layer != ContentLayer::Body {
        (out, st)
    } else {
        match e.kind {
            ElementKind::ListEnd => (out, pop_container(st, ContainerTag::List)),
            ElementKind::QuoteEnd => (out, pop_container(st, ContainerTag::BlockQuote)),
            ElementKind::GroupEnd => (out, pop_container(st, ContainerTag::Group)),
            _ => {
                let st1 = pop_to_depth(st, e.depth);
                let bq = count_tag(st1, ContainerTag::BlockQuote);
                match e.kind {
                    ElementKind::ListStart { ordered } => (
                        out,
                        st1.push(Container { kind: NestingKind::List { ordered, item_count: 0 }, depth: e.depth }),
                    ),
                    ElementKind::QuoteStart => (out, st1.push(Container { kind: NestingKind::BlockQuote, depth: e.depth })),
                    ElementKind::GroupStart => (out, st1.push(Container { kind: NestingKind::Group, depth: e.depth })),
                    ElementKind::FootnoteRef => match ref_number(doc.elements@, i) {
                        Some(n) => (out + "[^"@ + decimal(n) + "]"@, st1),
                        None => (out, st1),
                    },
                    ElementKind::ListItem { ordered } => {
                        let (b, st2) = md_list_item(e, ordered, st1);
                        (out + with_bq(b, bq), st2)
                    },
                    _ => match md_block(doc, e) {
                        Some(b) => (out + with_bq(b, bq), st1),
                        None => (out, st1),
                    },
                }
            },
        }
    }
}

/// The body pass over the first `n` elements.
pub open spec fn md_body(doc: InternalDocument, n: int) -> (Seq<char>, Seq<Container>)
    decreases n,
{
    if n <= 0 {
        (Seq::empty(), Seq::empty())
    } else {
        let (out, st) = md_body(doc, n - 1);
        md_step(doc, n - 1, out, st)
    }
}

/// Footnote definitions `1..=n` as `[^k]: text` paragraphs.
pub open spec fn md_footnote_entries(texts: Seq<Seq<char>>, n: int) -> Seq<char>
    decreases n,
{
    if n <= 0 {
        Seq::empty()
    } else {
        md_footnote_entries(texts, n - 1) + "[^"@ + decimal(n as nat) + "]: "@ + texts[n - 1] + "\n\n"@
    }
}

/// The footnote section: a rule and the definitions, when there are any.
pub open spec fn md_footnotes(texts: Seq<Seq<char>>) -> Seq<char> {
    if texts.len() == 0 {
        Seq::empty()
    } else {
        "\n---\n\n"@ + md_footnote_entries(texts, texts.len() as int)
    }
}

/// The key a citation is shown under (`?` when it has none).
pub open spec fn citation_key(e: InternalElement) -> Seq<char> {
    match e.anchor {
        Some(a) => a@,
        None => "?"@,
    }
}

/// The citations among the first `n` elements, as `[^key]: text` paragraphs.
pub open spec fn md_citations(elems: Seq<InternalElement>, n: int) -> Seq<char>
    decreases n,
{
    if n <= 0 {
        Seq::empty()
    } else {
        md_citations(elems, n - 1) + (if elems[n - 1].kind == ElementKind::Citation {
            "[^"@ + citation_key(elems[n - 1]) + "]: "@ + elems[n - 1].text@ + "\n\n"@
        } else {
            Seq::empty()
        })
    }
}

/// The markdown of a document.
pub open spec fn markdown_of(doc: InternalDocument) -> Seq<char> {
    let n = doc.elements@.len() as int;
    finalize(md_body(doc, n).0 + md_footnotes(footnote_texts(doc.elements@)) + md_citations(doc.elements@, n))
}

/// A document holding one body paragraph without annotations renders as
/// that paragraph's text, followed by a single newline (trailing blanks
/// dropped; nothing at all for a blank paragraph).
pub proof fn single_paragraph_markdown(doc: InternalDocument)
    requires
        doc.elements@.len() == 1,
        doc.elements@[0].kind == ElementKind::Paragraph,
        doc.elements@[0].layer == ContentLayer::Body,
        doc.elements@[0].annotations@.len() == 0,
    ensures
        markdown_of(doc) == finalize(doc.elements@[0].text@ + "\n\n"@),
{
    let es = doc.elements@;
    let e = es[0];
    let t = e.text@;
    unannotated_text(t);
    assert(e.annotations@ =~= Seq::<TextAnnotation>::empty());
    assert(ann_md(e) == t);
    assert(md_body(doc, 0) == (Seq::<char>::empty(), Seq::<Container>::empty()));
    assert(pop_to_depth(Seq::<Container>::empty(), e.depth) =~= Seq::<Container>::empty());
    assert(count_tag(Seq::<Container>::empty(), ContainerTag::BlockQuote) == 0);
    assert(md_body(doc, 1).0 =~= t + "\n\n"@);
    assert(footnote_texts(es.drop_last()) =~= Seq::<Seq<char>>::empty());
    assert(es.last() == e);
    assert(!is_new_definition(e, footnote_keys(es.drop_last())));
    assert(footnote_texts(es) =~= Seq::<Seq<char>>::empty());
    assert(md_citations(es, 0) =~= Seq::<char>::empty());
    assert(es[0].kind != ElementKind::Citation);
    assert(md_citations(es, 1) =~= Seq::<char>::empty());
    assert(t + "\n\n"@ + md_footnotes(footnote_texts(es)) + md_citations(es, 1) =~= t + "\n\n"@);
}

proof fn lemma_one_block_markdown(doc: InternalDocument)
    requires
        doc.elements@.len() == 1,
        doc.elements@[0].layer == ContentLayer::Body,
        doc.elements@[0].kind is Formula || doc.elements@[0].kind is Image,
    ensures
        md_block(doc, doc.elements@[0]) is Some,
        markdown_of(doc) == finalize(md_block(doc, doc.elements@[0])->0),
{
    let es = doc.elements@;
    let e = es[0];
    let b = md_block(doc, e)->0;
    assert(md_body(doc, 0) == (Seq::<char>::empty(), Seq::<Container>::empty()));
    assert(pop_to_depth(Seq::<Container>::empty(), e.depth) =~= Seq::<Container>::empty());
    assert(count_tag(Seq::<Container>::empty(), ContainerTag::BlockQuote) == 0);
    assert(md_body(doc, 1).0 =~= b);
    assert(footnote_texts(es.drop_last()) =~= Seq::<Seq<char>>::empty());
    assert(es.last() == e);
    assert(!is_new_definition(e, footnote_keys(es.drop_last())));
    assert(footnote_texts(es) =~= Seq::<Seq<char>>::empty());
    assert(md_citations(es, 0) =~= Seq::<char>::empty());
    assert(es[0].kind != ElementKind::Citation);
    assert(md_citations(es, 1) =~= Seq::<char>::empty());
    assert(b + md_footnotes(footnote_texts(es)) + md_citations(es, 1) =~= b);
}

/// `x` followed by a blank line, finalised: `x` and one newline, when `x`
/// ends with a character that is not blank.
proof fn lemma_finalize_blank_line(x: Seq<char>)
    requires
        x.len() > 0,
        !crate::text::is_ws(x[x.len() - 1]),
    ensures
        finalize(x + "\n\n"@) == x + "\n"@,
{
    reveal_strlit("\n\n");
    reveal_strlit("\n");
    let y = x + "\n\n"@;
    let n = y.len() as int;
    assert(y[n - 1] == '\n' && y[n - 2] == '\n' && y[n - 3] == x[x.len() - 1]);
    assert(crate::text::back_ws(y, n - 2) == n - 2);
    assert(crate::text::back_ws(y, n - 1) == n - 2);
    assert(crate::text::back_ws(y, n) == n - 2);
    assert(y.take(n - 2) =~= x);
    assert(x.push('\n') =~= x + "\n"@);
}

/// A display formula is written as a block that a `$$` line opens and a `$$`
/// line closes, with the formula's text, on lines of its own, between them:
/// a document holding one formula renders as `$$`, the text (ending with a
/// newline), and `$$`.
pub proof fn formula_markdown_is_fenced(doc: InternalDocument)
    requires
        doc.elements@.len() == 1,
        doc.elements@[0].layer == ContentLayer::Body,
        doc.elements@[0].kind == ElementKind::Formula,
    ensures
        markdown_of(doc) == "$$\n"@ + with_nl(doc.elements@[0].text@) + "$$\n"@,
{
    reveal_strlit("$$\n");
    reveal_strlit("$$\n\n");
    reveal_strlit("$$");
    reveal_strlit("\n\n");
    reveal_strlit("\n");
    lemma_one_block_markdown(doc);
    let x = "$$\n"@ + with_nl(doc.elements@[0].text@) + "$$"@;
    assert("$$\n"@ + with_nl(doc.elements@[0].text@) + "$$\n\n"@ =~= x + "\n\n"@);
    assert(x[x.len() - 1] == '$');
    lemma_finalize_blank_line(x);
    assert(x + "\n"@ =~= "$$\n"@ + with_nl(doc.elements@[0].text@) + "$$\n"@);
}

/// An image whose bytes the document holds is referred to by the file name
/// `image_<index>.<format>`, whatever source path it has: a document holding
/// one image element renders in markdown as `![description](image_<i>.<f>)`.
pub proof fn embedded_image_markdown_link(doc: InternalDocument)
    requires
        doc.elements@.len() == 1,
        doc.elements@[0].layer == ContentLayer::Body,
        doc.elements@[0].kind matches ElementKind::Image { image_index } && image_index < doc.images@.len()
            && doc.images@[image_index as int].data@.len() > 0,
    ensures
        ({
            let i = doc.elements@[0].kind->image_index;
            let img = doc.images@[i as int];
            let desc = match img.description {
                Some(d) => d@,
                None => Seq::empty(),
            };
            markdown_of(doc) == "!["@ + desc + "](image_"@ + decimal(i as nat) + "."@ + img.format@ + ")\n"@
        }),
{
    reveal_strlit("![");
    reveal_strlit("](");
    reveal_strlit(")\n\n");
    reveal_strlit(")");
    reveal_strlit("\n\n");
    reveal_strlit("\n");
    reveal_strlit("](image_");
    reveal_strlit("image_");
    reveal_strlit(".");
    reveal_strlit(")\n");
    lemma_one_block_markdown(doc);
    let i = doc.elements@[0].kind->image_index;
    let img = doc.images@[i as int];
    let desc = match img.description {
        Some(d) => d@,
        None => Seq::empty(),
    };
    let x = "!["@ + desc + "](image_"@ + decimal(i as nat) + "."@ + img.format@ + ")"@;
    assert(md_block(doc, doc.elements@[0])->0 =~= x + "\n\n"@);
    assert(x[x.len() - 1] == ')');
    lemma_finalize_blank_line(x);
    assert(x + "\n"@ =~= "!["@ + desc + "](image_"@ + decimal(i as nat) + "."@ + img.format@ + ")\n"@);
}

fn heading_block(e: &InternalElement, level: u8) -> (r: String)
    ensures
        r@ == repeat("#"@, level as nat) + " "@ + ann_md(*e) + "\n\n"@,
{
    let mut b = String::new();
    push_repeat(&mut b, "#", level as usize);
    push_str(&mut b, " ");
    let t = render_md_annotated(e.text.as_str(), &e.annotations);
    push_str(&mut b, t.as_str());
    push_str(&mut b, "\n\n");
    b
}

fn around_annotated(e: &InternalElement, open: &str, close: &str) -> (r: String)
    ensures
        r@ == open@ + ann_md(*e) + close@,
{
    let mut b = String::new();
    push_str(&mut b, open);
    let t = render_md_annotated(e.text.as_str(), &e.annotations);
    push_str(&mut b, t.as_str());
    push_str(&mut b, close);
    b
}

fn code_block(e: &InternalElement) -> (r: String)
    ensures
        r@ == "```"@ + attr_or_empty(*e, "language"@) + "\n"@ + with_nl(e.text@) + "```\n\n"@,
{
    let mut b = String::new();
    push_str(&mut b, "```");
    let lang = get_attr_or_empty(e, "language");
    push_all(&mut b, &lang);
    push_str(&mut b, "\n");
    push_with_nl(&mut b, e.text.as_str());
    push_str(&mut b, "```\n\n");
    b
}

fn formula_block(e: &InternalElement) -> (r: String)
    ensures
        r@ == "$$\n"@ + with_nl(e.text@) + "$$\n\n"@,
{
    let mut b = String::new();
    push_str(&mut b, "$$\n");
    push_with_nl(&mut b, e.text.as_str());
    push_str(&mut b, "$$\n\n");
    b
}

fn image_block(doc: &InternalDocument, idx: usize) -> (r: String)
    ensures
        r@ == "!["@ + image_desc(*doc, idx as int) + "]("@ + image_url(*doc, idx as int) + ")\n\n"@,
{
    let mut b = String::new();
    push_str(&mut b, "![");
    let d = image_desc_exec(doc, idx);
    push_str(&mut b, d.as_str());
    push_str(&mut b, "](");
    let u = image_url_exec(doc, idx);
    push_str(&mut b, u.as_str());
    push_str(&mut b, ")\n\n");
    b
}

fn admonition_title_exec(e: &InternalElement) -> (r: Vec<char>)
    ensures
        r@ == admonition_title(*e),
{
    match get_attr(e, "title") {
        Some(t) => t,
        None => {
            let k = get_admonition_kind(e);
            capitalize_chars(&k)
        },
    }
}

fn admonition_block(e: &InternalElement) -> (r: String)
    ensures
        r@ == "> **"@ + admonition_title(*e) + "**\n"@ + quoted_lines(lines(ann_md(*e))) + "\n"@,
{
    let mut b = String::new();
    push_str(&mut b, "> **");
    let title = admonition_title_exec(e);
    push_all(&mut b, &title);
    push_str(&mut b, "**\n");
    let ghost p = b@;
    let t = render_md_annotated(e.text.as_str(), &e.annotations);
    let tv = chars_of(t.as_str());
    let ls = split_lines(&tv);
    let ghost sl = lines(tv@);
    let mut i: usize = 0;
    assert(sl.take(0) =~= Seq::<Seq<char>>::empty());
    while i < ls.len()
        invariant
            i <= ls@.len() == sl.len(),
            sl == lines(tv@),
            forall|k: int| 0 <= k < ls@.len() ==> #[trigger] ls@[k]@ == sl[k],
            b@ == p + quoted_lines(sl.take(i as int)),
        decreases ls.len() - i,
    {
        assert(sl.take(i + 1).drop_last() =~= sl.take(i as int));
        push_str(&mut b, "> ");
        push_all(&mut b, &ls[i]);
        push_str(&mut b, "\n");
        i += 1;
        assert(b@ =~= p + quoted_lines(sl.take(i as int)));
    }
    assert(sl.take(sl.len() as int) =~= sl);
    push_str(&mut b, "\n");
    b
}

fn metadata_block(e: &InternalElement) -> (r: String)
    ensures
        r@ == ({
            let es = metadata_entries(lines(e.text@));
            md_metadata(es) + (if es.len() == 0 && e.text@.len() > 0 {
                with_nl(e.text@)
            } else {
                Seq::empty()
            }) + "\n"@
        }),
{
    let tv = chars_of(e.text.as_str());
    let es = parse_metadata_entries(&tv);
    let ghost ses = metadata_entries(lines(e.text@));
    let mut b = String::new();
    let mut i: usize = 0;
    assert(ses.take(0) =~= Seq::<(Seq<char>, Seq<char>)>::empty());
    while i < es.len()
        invariant
            i <= es@.len() == ses.len(),
            ses == metadata_entries(lines(e.text@)),
            forall|k: int| 0 <= k < es@.len() ==> (#[trigger] es@[k]).0@ == ses[k].0 && es@[k].1@ == ses[k].1,
            b@ == md_metadata(ses.take(i as int)),
        decreases es.len() - i,
    {
        assert(ses.take(i + 1).drop_last() =~= ses.take(i as int));
        push_str(&mut b, "**");
        push_all(&mut b, &es[i].0);
        push_str(&mut b, "**: ");
        push_all(&mut b, &es[i].1);
        push_str(&mut b, "\n");
        i += 1;
        assert(b@ =~= md_metadata(ses.take(i as int)));
    }
    assert(ses.take(ses.len() as int) =~= ses);
    if es.len() == 0 && tv.len() > 0 {
        push_with_nl(&mut b, e.text.as_str());
    }
    push_str(&mut b, "\n");
    b
}

fn raw_block(e: &InternalElement) -> (r: String)
    ensures
        r@ == with_nl(e.text@) + "\n"@,
{
    let mut b = String::new();
    push_with_nl(&mut b, e.text.as_str());
    push_str(&mut b, "\n");
    b
}

/// The block of an element that does not depend on the nesting state.
fn md_block_exec(doc: &InternalDocument, e: &InternalElement) -> (r: Option<String>)
    ensures
        match r {
            Some(b) => md_block(*doc, *e) == Some(b@),
            None => md_block(*doc, *e) is None,
        },
{
    proof {
        reveal_strlit("");
    }
    assert(""@ =~= Seq::<char>::empty());
    match e.kind {
        ElementKind::Title => Some(around_annotated(e, "# ", "\n\n")),
        ElementKind::Heading { level } => Some(heading_block(e, level)),
        ElementKind::Paragraph => Some(around_annotated(e, "", "\n\n")),
        ElementKind::OcrText => Some(around_annotated(e, "", "\n\n")),
        ElementKind::Code => Some(code_block(e)),
        ElementKind::Formula => Some(formula_block(e)),
        ElementKind::Table { table_index } => match table_text_exec(doc, table_index, false) {
            Some(t) => {
                let mut b = t;
                push_str(&mut b, "\n");
                Some(b)
            },
            None => None,
        },
        ElementKind::Image { image_index } => Some(image_block(doc, image_index)),
        ElementKind::PageBreak => Some(String::from_str("\n<!-- page break -->\n\n")),
        ElementKind::Slide { .. } => {
            if e.text.as_str().is_empty() {
                Some(String::from_str("\n---\n\n"))
            } else {
                Some(around_annotated(e, "\n---\n\n## ", "\n\n"))
            }
        },
        ElementKind::DefinitionTerm => Some(around_annotated(e, "", "\n")),
        ElementKind::DefinitionDescription => Some(around_annotated(e, ": ", "\n\n")),
        ElementKind::Admonition => Some(admonition_block(e)),
        ElementKind::RawBlock => Some(raw_block(e)),
        ElementKind::MetadataBlock => Some(metadata_block(e)),
        _ => None,
    }
}

fn list_item_block(e: &InternalElement, ordered: bool, state: &mut RenderState) -> (r: String)
    ensures
        (r@, final(state).stack@) == md_list_item(*e, ordered, old(state).stack@),
{
    let ld = state.count(ContainerTag::List);
    let mut b = String::new();
    push_repeat(&mut b, "  ", if ld > 0 { ld - 1 } else { 0 });
    if ordered {
        let n = state.next_list_number();
        push_decimal(&mut b, n);
        push_str(&mut b, ". ");
    } else {
        push_str(&mut b, "- ");
    }
    let t = render_md_annotated(e.text.as_str(), &e.annotations);
    push_str(&mut b, t.as_str());
    push_str(&mut b, "\n");
    b
}

/// Writes element `i` (one step of the body pass).
fn md_element(doc: &InternalDocument, fc: &FootnoteCollector, i: usize, out: &mut String, state: &mut RenderState)
    requires
        i < doc.elements@.len(),
        fc.describes(doc.elements@),
    ensures
        (final(out)@, final(state).stack@) == md_step(*doc, i as int, old(out)@, old(state).stack@),
{
    let e = &doc.elements[i];
    if e.layer != ContentLayer::Body {
        return;
    }
    match e.kind {
        ElementKind::ListEnd => {
            state.pop_container(ContainerTag::List);
            return;
        },
        ElementKind::QuoteEnd => {
            state.pop_container(ContainerTag::BlockQuote);
            return;
        },
        ElementKind::GroupEnd => {
            state.pop_container(ContainerTag::Group);
            return;
        },
        _ => {},
    }
    state.pop_to_depth(e.depth);
    let bq = state.count(ContainerTag::BlockQuote);
    match e.kind {
        ElementKind::ListStart { ordered } => {
            state.push_container(NestingKind::List { ordered, item_count: 0 }, e.depth);
        },
        ElementKind::QuoteStart => {
            state.push_container(NestingKind::BlockQuote, e.depth);
        },
        ElementKind::GroupStart => {
            state.push_container(NestingKind::Group, e.depth);
        },
        ElementKind::FootnoteRef => {
            match fc.ref_number(&doc.elements, i) {
                Some(n) => {
                    push_str(out, "[^");
                    push_decimal(out, n);
                    push_str(out, "]");
                },
                None => {},
            }
        },
        ElementKind::ListItem { ordered } => {
            let b = list_item_block(e, ordered, state);
            let bv = chars_of(b.as_str());
            push_with_bq(out, &bv, bq);
        },
        _ => {
            match md_block_exec(doc, e) {
                Some(b) => {
                    let bv = chars_of(b.as_str());
                    push_with_bq(out, &bv, bq);
                },
                None => {},
            }
        },
    }
}

fn push_md_footnotes(out: &mut String, fc: &FootnoteCollector, Ghost(texts): Ghost<Seq<Seq<char>>>)
    requires
        fc.texts@.len() == texts.len(),
        forall|k: int| 0 <= k < texts.len() ==> #[trigger] fc.texts@[k]@ == texts[k],
    ensures
        final(out)@ == old(out)@ + md_footnotes(texts),
{
    if fc.texts.len() == 0 {
        assert(old(out)@ + md_footnotes(texts) =~= old(out)@);
        return;
    }
    push_str(out, "\n---\n\n");
    let ghost p = out@;
    let mut k: usize = 0;
    while k < fc.texts.len()
        invariant
            k <= fc.texts@.len() == texts.len(),
            forall|j: int| 0 <= j < texts.len() ==> #[trigger] fc.texts@[j]@ == texts[j],
            out@ == p + md_footnote_entries(texts, k as int),
        decreases fc.texts.len() - k,
    {
        push_str(out, "[^");
        push_decimal(out, k as u64 + 1);
        push_str(out, "]: ");
        push_str(out, fc.texts[k].as_str());
        push_str(out, "\n\n");
        k += 1;
        assert(out@ =~= p + md_footnote_entries(texts, k as int));
    }
    assert(out@ =~= old(out)@ + md_footnotes(texts));
}

fn push_md_citations(out: &mut String, elems: &Vec<InternalElement>)
    ensures
        final(out)@ == old(out)@ + md_citations(elems@, elems@.len() as int),
{
    let mut i: usize = 0;
    assert(old(out)@ + md_citations(elems@, 0) =~= old(out)@);
    while i < elems.len()
        invariant
            i <= elems@.len(),
            out@ == old(out)@ + md_citations(elems@, i as int),
        decreases elems.len() - i,
    {
        let e = &elems[i];
        if e.kind == ElementKind::Citation {
            push_str(out, "[^");
            match &e.anchor {
                Some(a) => push_str(out, a.as_str()),
                None => push_str(out, "?"),
            }
            push_str(out, "]: ");
            push_str(out, e.text.as_str());
            push_str(out, "\n\n");
        }
        i += 1;
        assert(out@ =~= old(out)@ + md_citations(elems@, i as int));
    }
}

/// `render_markdown`: the document as CommonMark markdown.
pub fn render_markdown(doc: &InternalDocument) -> (r: String)
    ensures
        r@ == markdown_of(*doc),
{
    let fc = FootnoteCollector::new(&doc.elements);
    let mut state = RenderState::new();
    let mut out = String::new();
    let mut i: usize = 0;
    while i < doc.elements.len()
        invariant
            i <= doc.elements@.len(),
            fc.describes(doc.elements@),
            (out@, state.stack@) == md_body(*doc, i as int),
        decreases doc.elements.len() - i,
    {
        md_element(doc, &fc, i, &mut out, &mut state);
        i += 1;
    }
    proof {
        lemma_footnote_lens(doc.elements@);
    }
    push_md_footnotes(&mut out, &fc, Ghost(footnote_texts(doc.elements@)));
    push_md_citations(&mut out, &doc.elements);
    finalize_output(out)
}

} // verus!
