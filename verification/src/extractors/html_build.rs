//! Building an `InternalDocument` from HTML source with a tag-level scanner.
//!
//! The source is read as comments, tags and text runs.  Headings, paragraphs,
//! list items, code blocks, tables, images and figure captions become
//! elements; `id` attributes become anchors; inline `<strong>`, `<em>`,
//! `<code>` and `<a>` become annotations; links to `#id` and `<label for>`
//! become relationships of the next heading or paragraph, and captions are
//! related to their figure's image.
use vstd::prelude::*;
use crate::doc_view::{
    document_is, anns_view, doc_view, dv_end_list, dv_push, dv_push_list, dv_push_rel, dv_push_table,
    dv_set_anchor, grid_view, push_text_element, sound_builder, view_end_list, view_push_code, view_push_list,
    view_push_rel, view_push_table, view_set_anchor, AnnView, DocView, KindView, TargetView,
};
use crate::document::{
    ElementKind, ExtractedImage, InternalDocument, InternalDocumentBuilder, Metadata, OutputFormat,
    RelationshipKind, RelationshipTarget, TextAnnotation,
};
use html_to_markdown_rs::ConversionOptions;
use crate::error::KreuzbergError;
use crate::extractors::html::{
    converted_images, converted_tables, html_conversion, html_inline_images, image_tuple, opt_chars_of,
    ImageFormatKind, InlineImageData, table_from_grid, adjust_annotations_for_trim, adjusted, attr_of,
    decode_entities, decode_html_entities, extract_attr, is_text, parse_tag, parse_tag_exec, HtmlExtractor,
    TagView,
};
use crate::text::{
    chars_of, extend_chars, find_exec, find_from, lemma_find_from, slice_vec, split_words, starts_with,
    starts_with_at, string_of, trim, trim_bounds, trim_start_idx, words,
};

verus! {

/// The scanner's state.
#[verifier::ext_equal]
pub struct ScanView {
    pub doc: DocView,
    /// Text of the current block.
    pub text_buf: Seq<char>,
    /// Annotations of the current block's text.
    pub text_anns: Seq<AnnView>,
    /// Open inline elements: kind (0 bold, 1 italic, 2 code, 3 link), start, link target.
    pub starts: Seq<(u8, u32, Option<Seq<char>>)>,
    pub pending_id: Option<Seq<char>>,
    pub pending_tag: bool,
    pub in_pre: bool,
    pub pre_lang: Option<Seq<char>>,
    pub pre_text: Seq<char>,
    /// Whether each open list is ordered, innermost last.
    pub list_stack: Seq<bool>,
    pub table_rows: Seq<Seq<Seq<char>>>,
    pub in_table: bool,
    pub in_cell: bool,
    pub cell_text: Seq<char>,
    pub current_row: Seq<Seq<char>>,
    pub in_figure: bool,
    pub figure_idx: Option<usize>,
    pub in_figcaption: bool,
    pub figcaption_text: Seq<char>,
    /// Relationships waiting for the next heading or paragraph: target key and kind.
    pub deferred: Seq<(Seq<char>, RelationshipKind)>,
}

/// The state before the first token.
pub open spec fn initial_scan() -> ScanView {
    ScanView {
        doc: DocView { elems: Seq::empty(), tables: Seq::empty(), rels: Seq::empty(), depth: 0 },
        text_buf: Seq::empty(),
        text_anns: Seq::empty(),
        starts: Seq::empty(),
        pending_id: None,
        pending_tag: false,
        in_pre: false,
        pre_lang: None,
        pre_text: Seq::empty(),
        list_stack: Seq::empty(),
        table_rows: Seq::empty(),
        in_table: false,
        in_cell: false,
        cell_text: Seq::empty(),
        current_row: Seq::empty(),
        in_figure: false,
        figure_idx: None,
        in_figcaption: false,
        figcaption_text: Seq::empty(),
        deferred: Seq::empty(),
    }
}

// ---------------------------------------------------------------------------
// Text
// ---------------------------------------------------------------------------
/// Decoded text goes to the open code block, else the open table cell, else
/// the open caption, else the current block.
pub open spec fn text_step(st: ScanView, d: Seq<char>) -> ScanView {
    if st.in_pre {
        ScanView { pre_text: st.pre_text + d, ..st }
    } else if st.in_cell {
        ScanView { cell_text: st.cell_text + d, ..st }
    } else if st.in_figcaption {
        ScanView { figcaption_text: st.figcaption_text + d, ..st }
    } else {
        ScanView { text_buf: st.text_buf + d, ..st }
    }
}

// ---------------------------------------------------------------------------
// Blocks
// ---------------------------------------------------------------------------
/// The deferred relationships recorded from element `idx`.
pub open spec fn resolve(d: DocView, idx: usize, deferred: Seq<(Seq<char>, RelationshipKind)>) -> DocView
    decreases deferred.len(),
{
    if deferred.len() == 0 {
        d
    } else {
        dv_push_rel(resolve(d, idx, deferred.drop_last()), idx, TargetView::Key(deferred.last().0), deferred.last().1)
    }
}

/// The anchor set on element `idx` when one is pending.
pub open spec fn with_pending(d: DocView, idx: usize, p: Option<Seq<char>>) -> DocView {
    match p {
        Some(a) => dv_set_anchor(d, idx as int, a),
        None => d,
    }
}

/// The current block's annotations fitted to its trimmed text.
pub open spec fn block_anns(st: ScanView) -> Seq<AnnView> {
    adjusted(st.text_anns, trim_start_idx(st.text_buf) as u32, trim(st.text_buf).len() as u32)
}

/// The end of a heading (`Some(level)`) or paragraph (`None`): its trimmed
/// text, when not blank, becomes the element, takes the pending anchor and the
/// deferred relationships.
pub open spec fn close_block(st: ScanView, heading: Option<u8>) -> ScanView {
    let t = trim(st.text_buf);
    let kind = match heading {
        Some(l) => ElementKind::Heading { level: l },
        None => ElementKind::Paragraph,
    };
    let base = ScanView { text_buf: Seq::empty(), text_anns: Seq::empty(), starts: Seq::empty(), pending_tag: false, ..st };
    if t.len() > 0 {
        let idx = st.doc.elems.len() as usize;
        let d1 = dv_push(st.doc, kind, t, block_anns(st), None);
        ScanView {
            doc: resolve(with_pending(d1, idx, st.pending_id), idx, st.deferred),
            pending_id: None,
            deferred: Seq::empty(),
            ..base
        }
    } else {
        base
    }
}

/// The end of a list item.
pub open spec fn close_li(st: ScanView) -> ScanView {
    let t = trim(st.text_buf);
    let ordered = if st.list_stack.len() > 0 {
        st.list_stack.last()
    } else {
        false
    };
    let base = ScanView { text_buf: Seq::empty(), text_anns: Seq::empty(), starts: Seq::empty(), ..st };
    if t.len() > 0 {
        let idx = st.doc.elems.len() as usize;
        let d1 = dv_push(st.doc, ElementKind::ListItem { ordered }, t, block_anns(st), None);
        ScanView { doc: with_pending(d1, idx, st.pending_id), pending_id: None, ..base }
    } else {
        base
    }
}

/// The index of the innermost open inline element of kind `k`.
pub open spec fn last_start(starts: Seq<(u8, u32, Option<Seq<char>>)>, k: u8) -> Option<int>
    decreases starts.len(),
{
    if starts.len() == 0 {
        None
    } else if starts.last().0 == k {
        Some(starts.len() - 1)
    } else {
        last_start(starts.drop_last(), k)
    }
}

/// The end of an inline element of kind `k`: its annotation, when it covers
/// some text.
pub open spec fn close_inline(st: ScanView, k: u8) -> ScanView {
    match last_start(st.starts, k) {
        None => st,
        Some(i) => {
            let (_, start, url) = st.starts[i];
            let end = st.text_buf.len() as u32;
            let starts = st.starts.remove(i);
            if start < end {
                if k == 3 {
                    match url {
                        Some(u) => ScanView {
                            starts,
                            text_anns: st.text_anns.push(
                                AnnView { start, end, kind: KindView::Link { url: u, title: None } },
                            ),
                            ..st
                        },
                        None => ScanView { starts, ..st },
                    }
                } else {
                    ScanView {
                        starts,
                        text_anns: st.text_anns.push(
                            AnnView {
                                start,
                                end,
                                kind: if k == 0 {
                                    KindView::Bold
                                } else if k == 1 {
                                    KindView::Italic
                                } else {
                                    KindView::Code
                                },
                            },
                        ),
                        ..st
                    }
                }
            } else {
                ScanView { starts, ..st }
            }
        },
    }
}

/// The end of a code block.
pub open spec fn close_pre(st: ScanView) -> ScanView {
    if st.in_pre {
        ScanView {
            doc: dv_push(st.doc, ElementKind::Code, st.pre_text, Seq::empty(), st.pre_lang),
            pre_text: Seq::empty(),
            pre_lang: None,
            in_pre: false,
            ..st
        }
    } else {
        st
    }
}

/// The end of a table cell: its trimmed text joins the row.
pub open spec fn close_cell(st: ScanView) -> ScanView {
    if st.in_cell {
        ScanView {
            current_row: st.current_row.push(trim(st.cell_text)),
            cell_text: Seq::empty(),
            in_cell: false,
            ..st
        }
    } else {
        st
    }
}

/// The end of a table row: a row with cells joins the table.
pub open spec fn close_row(st: ScanView) -> ScanView {
    if st.current_row.len() > 0 {
        ScanView { table_rows: st.table_rows.push(st.current_row), current_row: Seq::empty(), ..st }
    } else {
        st
    }
}

/// The end of a table: a table with rows becomes an element.
pub open spec fn close_table(st: ScanView) -> ScanView {
    if st.in_table && st.table_rows.len() > 0 {
        ScanView { doc: dv_push_table(st.doc, st.table_rows), table_rows: Seq::empty(), in_table: false, ..st }
    } else {
        ScanView { in_table: false, ..st }
    }
}

/// The end of a figure caption: its trimmed text becomes a paragraph, the
/// caption of the figure's image when there is one.
pub open spec fn close_figcaption(st: ScanView) -> ScanView {
    if st.in_figcaption {
        let cap = trim(st.figcaption_text);
        let base = ScanView { figcaption_text: Seq::empty(), in_figcaption: false, ..st };
        if cap.len() > 0 {
            let idx = st.doc.elems.len() as usize;
            let d1 = dv_push(st.doc, ElementKind::Paragraph, cap, Seq::empty(), None);
            ScanView {
                doc: match st.figure_idx {
                    Some(f) => dv_push_rel(d1, idx, TargetView::Index(f), RelationshipKind::Caption),
                    None => d1,
                },
                ..base
            }
        } else {
            base
        }
    } else {
        st
    }
}

/// The heading level of a tag name `h1` .. `h6`.
pub open spec fn heading_level(name: Seq<char>) -> Option<u8> {
    if name.len() == 2 && name[0] == 'h' && '1' <= name[1] && name[1] <= '6' {
        Some(((name[1] as u32) - 48) as u8)
    } else {
        None
    }
}

/// The end of a list.
pub open spec fn close_list(st: ScanView) -> ScanView {
    ScanView {
        list_stack: if st.list_stack.len() > 0 {
            st.list_stack.drop_last()
        } else {
            st.list_stack
        },
        doc: dv_end_list(st.doc),
        ..st
    }
}

/// A closing tag.
pub open spec fn close_step(st: ScanView, name: Seq<char>) -> ScanView {
    if heading_level(name) is Some {
        close_block(st, heading_level(name))
    } else if name == "p"@ {
        close_block(st, None)
    } else if name == "li"@ {
        close_li(st)
    } else if name == "ul"@ || name == "ol"@ {
        close_list(st)
    } else if name == "pre"@ {
        close_pre(st)
    } else if name == "code"@ {
        if st.in_pre {
            st
        } else {
            close_inline(st, 2)
        }
    } else if name == "strong"@ || name == "b"@ {
        close_inline(st, 0)
    } else if name == "em"@ || name == "i"@ {
        close_inline(st, 1)
    } else if name == "a"@ {
        close_inline(st, 3)
    } else if name == "td"@ || name == "th"@ {
        close_cell(st)
    } else if name == "tr"@ {
        close_row(st)
    } else if name == "table"@ {
        close_table(st)
    } else if name == "figure"@ {
        ScanView { in_figure: false, figure_idx: None, ..st }
    } else if name == "figcaption"@ {
        close_figcaption(st)
    } else {
        st
    }
}

// ---------------------------------------------------------------------------
// Opening tags
// ---------------------------------------------------------------------------
/// The language named by the first `language-` class, if any.
pub open spec fn class_language(ws: Seq<Seq<char>>) -> Option<Seq<char>>
    decreases ws.len(),
{
    if ws.len() == 0 {
        None
    } else if starts_with(ws[0], "language-"@) {
        Some(ws[0].skip(9))
    } else {
        class_language(ws.drop_first())
    }
}

/// An inline element opened at the current end of the block's text.
pub open spec fn open_inline(st: ScanView, k: u8, url: Option<Seq<char>>) -> ScanView {
    ScanView { starts: st.starts.push((k, st.text_buf.len() as u32, url)), ..st }
}

/// The text standing for an image: `[image: <alt>]`.
pub open spec fn image_text(alt: Seq<char>) -> Seq<char> {
    "[image: "@ + alt + "]"@
}

/// A heading or paragraph opened: text so far becomes a paragraph.
pub open spec fn open_block(st: ScanView, id: Option<Seq<char>>) -> ScanView {
    let prev = trim(st.text_buf);
    let base = ScanView { text_buf: Seq::empty(), pending_id: id, pending_tag: true, ..st };
    if prev.len() > 0 {
        ScanView { doc: dv_push(st.doc, ElementKind::Paragraph, prev, Seq::empty(), None), ..base }
    } else {
        base
    }
}

/// A `<code>` inside a code block names the block's language by its class.
pub open spec fn open_pre_code(st: ScanView, attrs: Seq<char>) -> ScanView {
    match attr_of(attrs, "class"@) {
        Some(cls) => match class_language(words(cls)) {
            Some(l) => ScanView { pre_lang: Some(l), ..st },
            None => st,
        },
        None => st,
    }
}

/// An image: a paragraph standing for it, anchored by its id, the image of
/// the open figure.
pub open spec fn open_img(st: ScanView, attrs: Seq<char>) -> ScanView {
    let id = attr_of(attrs, "id"@);
    let alt = match attr_of(attrs, "alt"@) {
        Some(a) => a,
        None => Seq::empty(),
    };
    let idx = st.doc.elems.len() as usize;
    let d1 = dv_push(st.doc, ElementKind::Paragraph, image_text(alt), Seq::empty(), None);
    ScanView {
        doc: match id {
            Some(i) => dv_set_anchor(d1, idx as int, i),
            None => d1,
        },
        figure_idx: if st.in_figure {
            Some(idx)
        } else {
            st.figure_idx
        },
        ..st
    }
}

/// A link: a `#id` target waits for the next block; the link annotation opens.
pub open spec fn open_a(st: ScanView, attrs: Seq<char>) -> ScanView {
    match attr_of(attrs, "href"@) {
        Some(h) => {
            let st1 = if h.len() > 0 && h[0] == '#' {
                ScanView { deferred: st.deferred.push((h.skip(1), RelationshipKind::InternalLink)), ..st }
            } else {
                st
            };
            open_inline(st1, 3, Some(h))
        },
        None => st,
    }
}

/// A label: its target waits for the next block.
pub open spec fn open_label(st: ScanView, attrs: Seq<char>) -> ScanView {
    match attr_of(attrs, "for"@) {
        Some(f) => ScanView { deferred: st.deferred.push((f, RelationshipKind::Label)), ..st },
        None => st,
    }
}

/// Any other element: outside a block, an id becomes an empty anchored paragraph.
pub open spec fn open_other(st: ScanView, id: Option<Seq<char>>) -> ScanView {
    match id {
        Some(i) => if st.pending_tag {
            st
        } else {
            let idx = st.doc.elems.len() as usize;
            ScanView {
                doc: dv_set_anchor(
                    dv_push(st.doc, ElementKind::Paragraph, Seq::empty(), Seq::empty(), None),
                    idx as int,
                    i,
                ),
                ..st
            }
        },
        None => st,
    }
}

/// An opening tag.
pub open spec fn open_step(st: ScanView, name: Seq<char>, attrs: Seq<char>) -> ScanView {
    let id = attr_of(attrs, "id"@);
    if heading_level(name) is Some || name == "p"@ {
        open_block(st, id)
    } else if name == "ul"@ || name == "ol"@ {
        let ordered = name == "ol"@;
        ScanView { list_stack: st.list_stack.push(ordered), doc: dv_push_list(st.doc, ordered), ..st }
    } else if name == "li"@ {
        ScanView { text_buf: Seq::empty(), pending_id: id, ..st }
    } else if name == "pre"@ {
        ScanView { in_pre: true, pre_text: Seq::empty(), pre_lang: None, ..st }
    } else if name == "code"@ {
        if st.in_pre {
            open_pre_code(st, attrs)
        } else {
            open_inline(st, 2, None)
        }
    } else if name == "strong"@ || name == "b"@ {
        open_inline(st, 0, None)
    } else if name == "em"@ || name == "i"@ {
        open_inline(st, 1, None)
    } else if name == "table"@ {
        ScanView { in_table: true, table_rows: Seq::empty(), ..st }
    } else if name == "td"@ || name == "th"@ {
        ScanView { in_cell: true, cell_text: Seq::empty(), ..st }
    } else if name == "tr"@ {
        ScanView { current_row: Seq::empty(), ..st }
    } else if name == "img"@ {
        open_img(st, attrs)
    } else if name == "figure"@ {
        ScanView { in_figure: true, figure_idx: None, ..st }
    } else if name == "figcaption"@ {
        ScanView { in_figcaption: true, figcaption_text: Seq::empty(), ..st }
    } else if name == "a"@ {
        open_a(st, attrs)
    } else if name == "label"@ {
        open_label(st, attrs)
    } else {
        open_other(st, id)
    }
}

/// A tag.
pub open spec fn tag_step(st: ScanView, t: TagView) -> ScanView {
    if t.closing {
        close_step(st, t.name)
    } else {
        open_step(st, t.name, t.attrs)
    }
}

// ---------------------------------------------------------------------------
// The scan
// ---------------------------------------------------------------------------
/// The index of the first `<` at or after `i` (or `s.len()`).
pub open spec fn next_lt(s: Seq<char>, i: int) -> int
    decreases s.len() - i,
{
    if i < 0 || i >= s.len() {
        if i < 0 { 0 } else { s.len() as int }
    } else if s[i] == '<' {
        i
    } else {
        next_lt(s, i + 1)
    }
}

pub proof fn lemma_next_lt(s: Seq<char>, i: int)
    requires
        0 <= i <= s.len(),
    ensures
        i <= next_lt(s, i) <= s.len(),
    decreases s.len() - i,
{
    if i < s.len() && s[i] != '<' {
        lemma_next_lt(s, i + 1);
    }
}

/// What the source holds at a position.
pub enum Token {
    /// A comment, skipped.
    Comment,
    /// A tag, with the text between `<` and `>`.
    Tag(Seq<char>),
    /// A run of text up to the next `<`.
    Text(Seq<char>),
}

/// The token at `pos` and the position after it; `None` for an unterminated
/// comment or tag, which ends the scan.
pub open spec fn next_token(s: Seq<char>, pos: int) -> Option<(int, Token)> {
    if starts_with(s.skip(pos), "<!--"@) {
        match find_from(s, "-->"@, pos) {
            Some(e) => Some((e + 3, Token::Comment)),
            None => None,
        }
    } else if s[pos] == '<' {
        match find_from(s, seq!['>'], pos) {
            Some(e) => Some((e + 1, Token::Tag(s.subrange(pos + 1, e)))),
            None => None,
        }
    } else {
        Some((next_lt(s, pos), Token::Text(s.subrange(pos, next_lt(s, pos)))))
    }
}

pub proof fn lemma_next_token(s: Seq<char>, pos: int)
    requires
        0 <= pos < s.len(),
    ensures
        next_token(s, pos) matches Some((n, _)) ==> pos < n <= s.len(),
{
    reveal_strlit("-->");
    reveal_strlit("<!--");
    lemma_find_from(s, "-->"@, pos);
    lemma_find_from(s, seq!['>'], pos);
    if !starts_with(s.skip(pos), "<!--"@) && s[pos] != '<' {
        lemma_next_lt(s, pos + 1);
    }
}

/// The state after one token.
pub open spec fn token_step(st: ScanView, t: Token) -> ScanView {
    match t {
        Token::Comment => st,
        Token::Tag(c) => tag_step(st, parse_tag(c)),
        Token::Text(raw) => text_step(st, decode_entities(raw)),
    }
}

/// The state after scanning `s` from `pos`.
pub open spec fn scan(s: Seq<char>, pos: int, st: ScanView) -> ScanView
    decreases s.len() - pos,
{
    if pos < 0 || pos >= s.len() {
        st
    } else {
        match next_token(s, pos) {
            Some((n, t)) => {
                proof {
                    lemma_next_token(s, pos);
                }
                scan(s, n, token_step(st, t))
            },
            None => st,
        }
    }
}

/// The end of the source: remaining text becomes a paragraph; relationships
/// still waiting are dropped.
pub open spec fn finish(st: ScanView) -> DocView {
    let t = trim(st.text_buf);
    if t.len() > 0 {
        dv_push(st.doc, ElementKind::Paragraph, t, block_anns(st), None)
    } else {
        st.doc
    }
}

/// The document built from HTML source.
pub open spec fn html_document(s: Seq<char>) -> DocView {
    finish(scan(s, 0, initial_scan()))
}

// ---------------------------------------------------------------------------
// Trimmed block texts
// ---------------------------------------------------------------------------
/// Headings, paragraphs and list items: the elements whose text is prose.
pub open spec fn prose_kind(k: ElementKind) -> bool {
    k is Heading || k is Paragraph || k is ListItem
}

/// Every prose element's text is trimmed.
pub open spec fn prose_trimmed(elems: Seq<crate::doc_view::ElemView>) -> bool {
    forall|k: int|
        0 <= k < elems.len() && prose_kind(#[trigger] elems[k].kind) ==> elems[k].text == trim(elems[k].text)
}

proof fn lemma_push_trimmed(d: DocView, kind: ElementKind, text: Seq<char>, anns: Seq<AnnView>, lang: Option<Seq<char>>)
    requires
        prose_trimmed(d.elems),
        prose_kind(kind) ==> text == trim(text),
    ensures
        prose_trimmed(dv_push(d, kind, text, anns, lang).elems),
{
    let e = dv_push(d, kind, text, anns, lang).elems;
    assert forall|k: int| 0 <= k < e.len() && prose_kind(#[trigger] e[k].kind) implies e[k].text == trim(e[k].text) by {
        if k < d.elems.len() {
            assert(e[k] == d.elems[k]);
        }
    }
}

proof fn lemma_trimmed_push(d: DocView, kind: ElementKind, text: Seq<char>, anns: Seq<AnnView>, lang: Option<Seq<char>>)
    requires
        prose_trimmed(d.elems),
    ensures
        prose_trimmed(dv_push(d, kind, trim(text), anns, lang).elems),
{
    crate::text::lemma_trim_idempotent(text);
    lemma_push_trimmed(d, kind, trim(text), anns, lang);
}

proof fn lemma_anchor_trimmed(d: DocView, idx: int, a: Seq<char>)
    requires
        prose_trimmed(d.elems),
    ensures
        prose_trimmed(dv_set_anchor(d, idx, a).elems),
{
    let e = dv_set_anchor(d, idx, a).elems;
    assert forall|k: int| 0 <= k < e.len() && prose_kind(#[trigger] e[k].kind) implies e[k].text == trim(e[k].text) by {
        assert(e[k].text == d.elems[k].text && e[k].kind == d.elems[k].kind);
    }
}

proof fn lemma_resolve_elems(d: DocView, idx: usize, deferred: Seq<(Seq<char>, RelationshipKind)>)
    ensures
        resolve(d, idx, deferred).elems == d.elems,
    decreases deferred.len(),
{
    if deferred.len() > 0 {
        lemma_resolve_elems(d, idx, deferred.drop_last());
    }
}

proof fn lemma_close_block_trimmed(st: ScanView, heading: Option<u8>)
    requires
        prose_trimmed(st.doc.elems),
    ensures
        prose_trimmed(close_block(st, heading).doc.elems),
{
    let t = trim(st.text_buf);
    if t.len() > 0 {
        let kind = match heading {
            Some(l) => ElementKind::Heading { level: l },
            None => ElementKind::Paragraph,
        };
        let idx = st.doc.elems.len() as usize;
        let d1 = dv_push(st.doc, kind, t, block_anns(st), None);
        lemma_trimmed_push(st.doc, kind, st.text_buf, block_anns(st), None);
        let d2 = with_pending(d1, idx, st.pending_id);
        match st.pending_id {
            Some(a) => lemma_anchor_trimmed(d1, idx as int, a),
            None => {},
        }
        lemma_resolve_elems(d2, idx, st.deferred);
    }
}

proof fn lemma_close_li_trimmed(st: ScanView)
    requires
        prose_trimmed(st.doc.elems),
    ensures
        prose_trimmed(close_li(st).doc.elems),
{
    let t = trim(st.text_buf);
    if t.len() > 0 {
        let ordered = if st.list_stack.len() > 0 {
            st.list_stack.last()
        } else {
            false
        };
        let idx = st.doc.elems.len() as usize;
        let d1 = dv_push(st.doc, ElementKind::ListItem { ordered }, t, block_anns(st), None);
        lemma_trimmed_push(st.doc, ElementKind::ListItem { ordered }, st.text_buf, block_anns(st), None);
        match st.pending_id {
            Some(a) => lemma_anchor_trimmed(d1, idx as int, a),
            None => {},
        }
    }
}

proof fn lemma_close_figcaption_trimmed(st: ScanView)
    requires
        prose_trimmed(st.doc.elems),
    ensures
        prose_trimmed(close_figcaption(st).doc.elems),
{
    if st.in_figcaption && trim(st.figcaption_text).len() > 0 {
        lemma_trimmed_push(st.doc, ElementKind::Paragraph, st.figcaption_text, Seq::empty(), None);
    }
}

proof fn lemma_close_step_trimmed(st: ScanView, name: Seq<char>)
    requires
        prose_trimmed(st.doc.elems),
    ensures
        prose_trimmed(close_step(st, name).doc.elems),
{
    if heading_level(name) is Some {
        lemma_close_block_trimmed(st, heading_level(name));
    } else if name == "p"@ {
        lemma_close_block_trimmed(st, None);
    } else if name == "li"@ {
        lemma_close_li_trimmed(st);
    } else if name == "ul"@ || name == "ol"@ {
        lemma_push_trimmed(
            DocView { depth: crate::doc_view::sat_dec(st.doc.depth), ..st.doc },
            ElementKind::ListEnd,
            Seq::empty(),
            Seq::empty(),
            None,
        );
    } else if name == "pre"@ {
        if st.in_pre {
            lemma_push_trimmed(st.doc, ElementKind::Code, st.pre_text, Seq::empty(), st.pre_lang);
        }
    } else if name == "code"@ || name == "strong"@ || name == "b"@ || name == "em"@ || name == "i"@ || name
        == "a"@ || name == "td"@ || name == "th"@ || name == "tr"@ {
    } else if name == "table"@ {
        if st.in_table && st.table_rows.len() > 0 {
            lemma_push_trimmed(
                st.doc,
                ElementKind::Table { table_index: st.doc.tables.len() as usize },
                Seq::empty(),
                Seq::empty(),
                None,
            );
        }
    } else if name == "figure"@ {
    } else if name == "figcaption"@ {
        lemma_close_figcaption_trimmed(st);
    }
}

proof fn lemma_open_img_trimmed(st: ScanView, attrs: Seq<char>)
    requires
        prose_trimmed(st.doc.elems),
    ensures
        prose_trimmed(open_img(st, attrs).doc.elems),
{
    let alt = match attr_of(attrs, "alt"@) {
        Some(a) => a,
        None => Seq::empty(),
    };
    let t = image_text(alt);
    reveal_strlit("[image: ");
    reveal_strlit("]");
    assert(t[0] == '[');
    assert(t[t.len() - 1] == ']');
    crate::text::lemma_trim_unchanged(t);
    let idx = st.doc.elems.len() as usize;
    let d1 = dv_push(st.doc, ElementKind::Paragraph, t, Seq::empty(), None);
    lemma_push_trimmed(st.doc, ElementKind::Paragraph, t, Seq::empty(), None);
    match attr_of(attrs, "id"@) {
        Some(i) => lemma_anchor_trimmed(d1, idx as int, i),
        None => {},
    }
}

proof fn lemma_open_step_trimmed(st: ScanView, name: Seq<char>, attrs: Seq<char>)
    requires
        prose_trimmed(st.doc.elems),
    ensures
        prose_trimmed(open_step(st, name, attrs).doc.elems),
{
    let id = attr_of(attrs, "id"@);
    if heading_level(name) is Some || name == "p"@ {
        if trim(st.text_buf).len() > 0 {
            lemma_trimmed_push(st.doc, ElementKind::Paragraph, st.text_buf, Seq::empty(), None);
        }
    } else if name == "ul"@ || name == "ol"@ {
        lemma_push_trimmed(st.doc, ElementKind::ListStart { ordered: name == "ol"@ }, Seq::empty(), Seq::empty(), None);
    } else if name == "li"@ || name == "pre"@ || name == "code"@ || name == "strong"@ || name == "b"@ || name
        == "em"@ || name == "i"@ || name == "table"@ || name == "td"@ || name == "th"@ || name == "tr"@ {
    } else if name == "img"@ {
        lemma_open_img_trimmed(st, attrs);
    } else if name == "figure"@ || name == "figcaption"@ || name == "a"@ || name == "label"@ {
    } else {
        match id {
            Some(i) => if !st.pending_tag {
                let d1 = dv_push(st.doc, ElementKind::Paragraph, Seq::empty(), Seq::empty(), None);
                crate::text::lemma_trim_unchanged(Seq::<char>::empty());
                lemma_push_trimmed(st.doc, ElementKind::Paragraph, Seq::empty(), Seq::empty(), None);
                lemma_anchor_trimmed(d1, st.doc.elems.len() as int, i);
            },
            None => {},
        }
    }
}

proof fn lemma_token_step_trimmed(st: ScanView, t: Token)
    requires
        prose_trimmed(st.doc.elems),
    ensures
        prose_trimmed(token_step(st, t).doc.elems),
{
    match t {
        Token::Comment => {},
        Token::Tag(c) => {
            let tv = parse_tag(c);
            if tv.closing {
                lemma_close_step_trimmed(st, tv.name);
            } else {
                lemma_open_step_trimmed(st, tv.name, tv.attrs);
            }
        },
        Token::Text(raw) => {},
    }
}

proof fn lemma_scan_trimmed(s: Seq<char>, pos: int, st: ScanView)
    requires
        prose_trimmed(st.doc.elems),
    ensures
        prose_trimmed(scan(s, pos, st).doc.elems),
    decreases s.len() - pos,
{
    if 0 <= pos < s.len() {
        match next_token(s, pos) {
            Some((n, t)) => {
                lemma_next_token(s, pos);
                lemma_token_step_trimmed(st, t);
                lemma_scan_trimmed(s, n, token_step(st, t));
            },
            None => {},
        }
    }
}

/// The headings, paragraphs and list items that HTML source is built into
/// carry their text trimmed: none begins or ends with whitespace.
pub proof fn html_prose_is_trimmed(s: Seq<char>)
    ensures
        prose_trimmed(html_document(s).elems),
{
    let st = scan(s, 0, initial_scan());
    lemma_scan_trimmed(s, 0, initial_scan());
    if trim(st.text_buf).len() > 0 {
        lemma_trimmed_push(st.doc, ElementKind::Paragraph, st.text_buf, block_anns(st), None);
    }
}

// ---------------------------------------------------------------------------
// The scanner
// ---------------------------------------------------------------------------
/// The scanner as it runs: the document under construction and the open
/// blocks' state.
pub struct Scanner {
    pub b: InternalDocumentBuilder,
    pub text_buf: Vec<char>,
    pub text_anns: Vec<TextAnnotation>,
    pub starts: Vec<(u8, u32, Option<Vec<char>>)>,
    pub pending_id: Option<Vec<char>>,
    pub pending_tag: bool,
    pub in_pre: bool,
    pub pre_lang: Option<Vec<char>>,
    pub pre_text: Vec<char>,
    pub list_stack: Vec<bool>,
    pub table_rows: Vec<Vec<String>>,
    pub in_table: bool,
    pub in_cell: bool,
    pub cell_text: Vec<char>,
    pub current_row: Vec<String>,
    pub in_figure: bool,
    pub figure_idx: Option<usize>,
    pub in_figcaption: bool,
    pub figcaption_text: Vec<char>,
    pub deferred: Vec<(Vec<char>, RelationshipKind)>,
}

pub open spec fn optv(o: Option<Vec<char>>) -> Option<Seq<char>> {
    match o {
        Some(v) => Some(v@),
        None => None,
    }
}

pub open spec fn starts_view(s: Seq<(u8, u32, Option<Vec<char>>)>) -> Seq<(u8, u32, Option<Seq<char>>)> {
    s.map_values(|x: (u8, u32, Option<Vec<char>>)| (x.0, x.1, optv(x.2)))
}

pub open spec fn deferred_view(s: Seq<(Vec<char>, RelationshipKind)>) -> Seq<(Seq<char>, RelationshipKind)> {
    s.map_values(|x: (Vec<char>, RelationshipKind)| (x.0@, x.1))
}

pub open spec fn scanner_view(sc: Scanner) -> ScanView {
    ScanView {
        doc: doc_view(sc.b),
        text_buf: sc.text_buf@,
        text_anns: anns_view(sc.text_anns@),
        starts: starts_view(sc.starts@),
        pending_id: optv(sc.pending_id),
        pending_tag: sc.pending_tag,
        in_pre: sc.in_pre,
        pre_lang: optv(sc.pre_lang),
        pre_text: sc.pre_text@,
        list_stack: sc.list_stack@,
        table_rows: grid_view(sc.table_rows@),
        in_table: sc.in_table,
        in_cell: sc.in_cell,
        cell_text: sc.cell_text@,
        current_row: sc.current_row@.map_values(|c: String| c@),
        in_figure: sc.in_figure,
        figure_idx: sc.figure_idx,
        in_figcaption: sc.in_figcaption,
        figcaption_text: sc.figcaption_text@,
        deferred: deferred_view(sc.deferred@),
    }
}

pub open spec fn scanner_ok(sc: Scanner) -> bool {
    sound_builder(sc.b, "html"@)
}

impl HtmlExtractor {
    /// `resolve_deferred`: records the waiting relationships from element
    /// `current_idx` and clears them.
    pub fn resolve_deferred(deferred: &mut Vec<(Vec<char>, RelationshipKind)>, b: &mut InternalDocumentBuilder, current_idx: usize)
        requires
            sound_builder(*old(b), "html"@),
        ensures
            sound_builder(*final(b), "html"@),
            final(deferred)@.len() == 0,
            doc_view(*final(b)) == resolve(doc_view(*old(b)), current_idx, deferred_view(old(deferred)@)),
    {
        let ghost dv = deferred_view(deferred@);
        let mut i: usize = 0;
        assert(dv.take(0) =~= Seq::<(Seq<char>, RelationshipKind)>::empty());
        while i < deferred.len()
            invariant
                i <= deferred@.len(),
                deferred@ == old(deferred)@,
                dv == deferred_view(deferred@),
                sound_builder(*b, "html"@),
                doc_view(*b) == resolve(doc_view(*old(b)), current_idx, dv.take(i as int)),
            decreases deferred.len() - i,
        {
            assert(dv.take(i + 1).drop_last() =~= dv.take(i as int));
            let key = string_of(&deferred[i].0);
            let kind = deferred[i].1;
            view_push_rel(b, current_idx, RelationshipTarget::Key(key), kind);
            i += 1;
        }
        assert(dv.take(dv.len() as int) =~= dv);
        deferred.clear();
    }
}

impl Scanner {
    fn new() -> (sc: Self)
        ensures
            scanner_ok(sc),
            scanner_view(sc) == initial_scan(),
    {
        let sc = Scanner {
            b: InternalDocumentBuilder::new("html"),
            text_buf: Vec::new(),
            text_anns: Vec::new(),
            starts: Vec::new(),
            pending_id: None,
            pending_tag: false,
            in_pre: false,
            pre_lang: None,
            pre_text: Vec::new(),
            list_stack: Vec::new(),
            table_rows: Vec::new(),
            in_table: false,
            in_cell: false,
            cell_text: Vec::new(),
            current_row: Vec::new(),
            in_figure: false,
            figure_idx: None,
            in_figcaption: false,
            figcaption_text: Vec::new(),
            deferred: Vec::new(),
        };
        assert(scanner_view(sc) =~= initial_scan());
        sc
    }

    fn on_text(&mut self, raw: &Vec<char>)
        requires
            scanner_ok(*old(self)),
        ensures
            scanner_ok(*final(self)),
            scanner_view(*final(self)) == text_step(scanner_view(*old(self)), decode_entities(raw@)),
    {
        let d = decode_html_entities(raw);
        if self.in_pre {
            extend_chars(&mut self.pre_text, &d);
        } else if self.in_cell {
            extend_chars(&mut self.cell_text, &d);
        } else if self.in_figcaption {
            extend_chars(&mut self.figcaption_text, &d);
        } else {
            extend_chars(&mut self.text_buf, &d);
        }
        assert(scanner_view(*self) =~= text_step(scanner_view(*old(self)), decode_entities(raw@)));
    }

    /// The trimmed text of the current block and its fitted annotations.
    fn take_block(&mut self) -> (r: Option<(String, Vec<TextAnnotation>)>)
        ensures
            final(self).b == old(self).b,
            final(self).pending_id == old(self).pending_id,
            final(self).deferred == old(self).deferred,
            final(self).list_stack == old(self).list_stack,
            final(self).text_buf@.len() == 0,
            final(self).text_anns@.len() == 0,
            scanner_view(*final(self)) == (ScanView {
                text_buf: Seq::empty(),
                text_anns: Seq::empty(),
                ..scanner_view(*old(self))
            }),
            (match r {
                Some((t, a)) => t@ == trim(old(self).text_buf@) && t@.len() > 0 && anns_view(a@) == block_anns(
                    scanner_view(*old(self)),
                ),
                None => trim(old(self).text_buf@).len() == 0,
            }),
    {
        let (a, e) = trim_bounds(&self.text_buf);
        let r = if a < e {
            let t = slice_vec(&self.text_buf, a, e);
            let anns = adjust_annotations_for_trim(&self.text_anns, a as u32, (e - a) as u32);
            Some((string_of(&t), anns))
        } else {
            None
        };
        self.text_buf = Vec::new();
        self.text_anns = Vec::new();
        proof {
            crate::text::lemma_trim_bounds(old(self).text_buf@);
        }
        assert(scanner_view(*self) =~= ScanView {
            text_buf: Seq::empty(),
            text_anns: Seq::empty(),
            ..scanner_view(*old(self))
        });
        r
    }

    fn set_pending_anchor(&mut self, idx: usize)
        requires
            scanner_ok(*old(self)),
        ensures
            scanner_ok(*final(self)),
            final(self).pending_id is None,
            doc_view(final(self).b) == with_pending(doc_view(old(self).b), idx, optv(old(self).pending_id)),
            scanner_view(*final(self)) == (ScanView {
                doc: doc_view(final(self).b),
                pending_id: None,
                ..scanner_view(*old(self))
            }),
    {
        match self.pending_id.take() {
            Some(p) => {
                let ps = string_of(&p);
                view_set_anchor(&mut self.b, idx, ps.as_str());
            },
            None => {},
        }
        assert(scanner_view(*self) =~= ScanView {
            doc: doc_view(self.b),
            pending_id: None,
            ..scanner_view(*old(self))
        });
    }

    fn close_block(&mut self, heading: Option<u8>)
        requires
            scanner_ok(*old(self)),
        ensures
            scanner_ok(*final(self)),
            scanner_view(*final(self)) == close_block(scanner_view(*old(self)), heading),
    {
        let ghost st = scanner_view(*self);
        match self.take_block() {
            Some((t, anns)) => {
                let kind = match heading {
                    Some(l) => ElementKind::Heading { level: l },
                    None => ElementKind::Paragraph,
                };
                let idx = push_text_element(&mut self.b, kind, t.as_str(), anns);
                self.set_pending_anchor(idx);
                HtmlExtractor::resolve_deferred(&mut self.deferred, &mut self.b, idx);
            },
            None => {},
        }
        self.starts = Vec::new();
        self.pending_tag = false;
        assert(scanner_view(*self) =~= close_block(st, heading));
    }
}

impl Scanner {
    fn close_li(&mut self)
        requires
            scanner_ok(*old(self)),
        ensures
            scanner_ok(*final(self)),
            scanner_view(*final(self)) == close_li(scanner_view(*old(self))),
    {
        let ghost st = scanner_view(*self);
        let ordered = if self.list_stack.len() > 0 {
            self.list_stack[self.list_stack.len() - 1]
        } else {
            false
        };
        match self.take_block() {
            Some((t, anns)) => {
                let idx = push_text_element(&mut self.b, ElementKind::ListItem { ordered }, t.as_str(), anns);
                self.set_pending_anchor(idx);
            },
            None => {},
        }
        self.starts = Vec::new();
        assert(scanner_view(*self) =~= close_li(st));
    }

    fn close_list(&mut self)
        requires
            scanner_ok(*old(self)),
        ensures
            scanner_ok(*final(self)),
            scanner_view(*final(self)) == close_list(scanner_view(*old(self))),
    {
        let ghost st = scanner_view(*self);
        if self.list_stack.len() > 0 {
            self.list_stack.pop();
        }
        view_end_list(&mut self.b);
        assert(scanner_view(*self) =~= close_list(st));
    }

    fn close_inline(&mut self, k: u8)
        requires
            scanner_ok(*old(self)),
        ensures
            scanner_ok(*final(self)),
            scanner_view(*final(self)) == close_inline(scanner_view(*old(self)), k),
    {
        let ghost st = scanner_view(*self);
        let mut i = self.starts.len();
        let mut found: Option<usize> = None;
        proof {
            assert(starts_view(self.starts@).take(i as int) =~= starts_view(self.starts@));
        }
        while i > 0 && found.is_none()
            invariant
                i <= self.starts@.len(),
                self.starts == old(self).starts,
                found is None ==> last_start(starts_view(self.starts@), k) == last_start(
                    starts_view(self.starts@).take(i as int),
                    k,
                ),
                found matches Some(j) ==> last_start(starts_view(self.starts@), k) == Some(j as int) && j
                    < self.starts@.len(),
            decreases i + (if found is None {
                1int
            } else {
                0int
            }),
        {
            let ghost sv = starts_view(self.starts@).take(i as int);
            if self.starts[i - 1].0 == k {
                assert(sv.last().0 == k);
                found = Some(i - 1);
            } else {
                assert(sv.drop_last() =~= starts_view(self.starts@).take(i - 1));
                i -= 1;
            }
        }
        let j = match found {
            Some(j) => j,
            None => {
                assert(starts_view(self.starts@).take(i as int) =~= Seq::<(u8, u32, Option<Seq<char>>)>::empty());
                return;
            },
        };
        let (_, start, url) = self.starts.remove(j);
        let end = #[verifier::truncate] (self.text_buf.len() as u32);
        if start < end {
            if k == 3 {
                match url {
                    Some(u) => {
                        let us = string_of(&u);
                        let a = TextAnnotation {
                            start,
                            end,
                            kind: crate::document::AnnotationKind::Link { url: us, title: None },
                        };
                        self.text_anns.push(a);
                    },
                    None => {},
                }
            } else {
                let kind = if k == 0 {
                    crate::document::AnnotationKind::Bold
                } else if k == 1 {
                    crate::document::AnnotationKind::Italic
                } else {
                    crate::document::AnnotationKind::Code
                };
                self.text_anns.push(TextAnnotation { start, end, kind });
            }
        }
        assert(starts_view(self.starts@) =~= st.starts.remove(j as int));
        assert(scanner_view(*self) =~= close_inline(st, k));
    }

    fn close_pre(&mut self)
        requires
            scanner_ok(*old(self)),
        ensures
            scanner_ok(*final(self)),
            scanner_view(*final(self)) == close_pre(scanner_view(*old(self))),
    {
        let ghost st = scanner_view(*self);
        if self.in_pre {
            let code = string_of(&self.pre_text);
            match &self.pre_lang {
                Some(l) => {
                    let ls = string_of(l);
                    view_push_code(&mut self.b, code.as_str(), Some(ls.as_str()));
                },
                None => {
                    view_push_code(&mut self.b, code.as_str(), None);
                },
            }
            self.pre_text = Vec::new();
            self.pre_lang = None;
            self.in_pre = false;
        }
        assert(scanner_view(*self) =~= close_pre(st));
    }

    fn close_cell(&mut self)
        requires
            scanner_ok(*old(self)),
        ensures
            scanner_ok(*final(self)),
            scanner_view(*final(self)) == close_cell(scanner_view(*old(self))),
    {
        let ghost st = scanner_view(*self);
        if self.in_cell {
            let t = crate::text::trim_chars(&self.cell_text);
            self.current_row.push(string_of(&t));
            self.cell_text = Vec::new();
            self.in_cell = false;
        }
        assert(scanner_view(*self) =~= close_cell(st));
    }

    fn close_row(&mut self)
        requires
            scanner_ok(*old(self)),
        ensures
            scanner_ok(*final(self)),
            scanner_view(*final(self)) == close_row(scanner_view(*old(self))),
    {
        let ghost st = scanner_view(*self);
        if self.current_row.len() > 0 {
            let mut row: Vec<String> = Vec::new();
            std::mem::swap(&mut row, &mut self.current_row);
            self.table_rows.push(row);
        }
        assert(scanner_view(*self) =~= close_row(st));
    }

    fn close_table(&mut self)
        requires
            scanner_ok(*old(self)),
        ensures
            scanner_ok(*final(self)),
            scanner_view(*final(self)) == close_table(scanner_view(*old(self))),
    {
        let ghost st = scanner_view(*self);
        if self.in_table && self.table_rows.len() > 0 {
            view_push_table(&mut self.b, &self.table_rows);
            self.table_rows = Vec::new();
        }
        self.in_table = false;
        assert(scanner_view(*self) =~= close_table(st));
    }

    fn close_figcaption(&mut self)
        requires
            scanner_ok(*old(self)),
        ensures
            scanner_ok(*final(self)),
            scanner_view(*final(self)) == close_figcaption(scanner_view(*old(self))),
    {
        let ghost st = scanner_view(*self);
        if self.in_figcaption {
            let cap = crate::text::trim_chars(&self.figcaption_text);
            self.figcaption_text = Vec::new();
            if cap.len() > 0 {
                let cs = string_of(&cap);
                let cap_idx = push_text_element(&mut self.b, ElementKind::Paragraph, cs.as_str(), Vec::new());
                proof {
                    assert(anns_view(Seq::<TextAnnotation>::empty()) =~= Seq::<AnnView>::empty());
                }
                match self.figure_idx {
                    Some(f) => {
                        view_push_rel(&mut self.b, cap_idx, RelationshipTarget::Index(f), RelationshipKind::Caption);
                    },
                    None => {},
                }
            }
            self.in_figcaption = false;
        }
        assert(scanner_view(*self) =~= close_figcaption(st));
    }
}

fn class_language_exec(cls: &Vec<char>) -> (r: Option<Vec<char>>)
    ensures
        optv(r) == class_language(words(cls@)),
{
    let ws = split_words(cls);
    let ghost sw = words(cls@);
    let mut i: usize = 0;
    assert(sw.skip(0) =~= sw);
    while i < ws.len()
        invariant
            i <= ws@.len() == sw.len(),
            sw == words(cls@),
            forall|k: int| 0 <= k < ws@.len() ==> #[trigger] ws@[k]@ == sw[k],
            class_language(sw) == class_language(sw.skip(i as int)),
        decreases ws.len() - i,
    {
        let w = &ws[i];
        assert(sw.skip(i as int)[0] == w@);
        if crate::text::starts_with_str(w, "language-") {
            proof {
                reveal_strlit("language-");
            }
            let l = slice_vec(w, 9, w.len());
            assert(l@ =~= w@.skip(9));
            return Some(l);
        }
        assert(sw.skip(i as int).drop_first() =~= sw.skip(i + 1));
        i += 1;
    }
    assert(sw.skip(i as int) =~= Seq::<Seq<char>>::empty());
    None
}

impl Scanner {
    fn open_block(&mut self, id: Option<Vec<char>>)
        requires
            scanner_ok(*old(self)),
        ensures
            scanner_ok(*final(self)),
            scanner_view(*final(self)) == open_block(scanner_view(*old(self)), optv(id)),
    {
        let ghost st = scanner_view(*self);
        let prev = crate::text::trim_chars(&self.text_buf);
        self.text_buf = Vec::new();
        if prev.len() > 0 {
            let ps = string_of(&prev);
            push_text_element(&mut self.b, ElementKind::Paragraph, ps.as_str(), Vec::new());
            assert(anns_view(Seq::<TextAnnotation>::empty()) =~= Seq::<AnnView>::empty());
        }
        self.pending_id = id;
        self.pending_tag = true;
        assert(scanner_view(*self) =~= open_block(st, optv(id)));
    }

    fn open_list(&mut self, ordered: bool)
        requires
            scanner_ok(*old(self)),
        ensures
            scanner_ok(*final(self)),
            scanner_view(*final(self)) == (ScanView {
                list_stack: old(self).list_stack@.push(ordered),
                doc: dv_push_list(doc_view(old(self).b), ordered),
                ..scanner_view(*old(self))
            }),
    {
        let ghost st = scanner_view(*self);
        self.list_stack.push(ordered);
        view_push_list(&mut self.b, ordered);
        assert(scanner_view(*self) =~= (ScanView {
            list_stack: old(self).list_stack@.push(ordered),
            doc: dv_push_list(doc_view(old(self).b), ordered),
            ..st
        }));
    }

    fn open_inline(&mut self, k: u8, url: Option<Vec<char>>)
        requires
            scanner_ok(*old(self)),
        ensures
            scanner_ok(*final(self)),
            scanner_view(*final(self)) == open_inline(scanner_view(*old(self)), k, optv(url)),
    {
        let ghost st = scanner_view(*self);
        let start = #[verifier::truncate] (self.text_buf.len() as u32);
        self.starts.push((k, start, url));
        assert(scanner_view(*self) =~= open_inline(st, k, optv(url)));
    }

    fn open_pre_code(&mut self, attrs: &Vec<char>)
        requires
            scanner_ok(*old(self)),
        ensures
            scanner_ok(*final(self)),
            scanner_view(*final(self)) == open_pre_code(scanner_view(*old(self)), attrs@),
    {
        let ghost st = scanner_view(*self);
        match extract_attr(attrs, "class") {
            Some(cls) => match class_language_exec(&cls) {
                Some(l) => {
                    self.pre_lang = Some(l);
                },
                None => {},
            },
            None => {},
        }
        assert(scanner_view(*self) =~= open_pre_code(st, attrs@));
    }

    fn open_img(&mut self, attrs: &Vec<char>)
        requires
            scanner_ok(*old(self)),
        ensures
            scanner_ok(*final(self)),
            scanner_view(*final(self)) == open_img(scanner_view(*old(self)), attrs@),
    {
        let ghost st = scanner_view(*self);
        let id = extract_attr(attrs, "id");
        let alt = match extract_attr(attrs, "alt") {
            Some(a) => a,
            None => Vec::new(),
        };
        let mut t = String::from_str("[image: ");
        crate::text::push_all(&mut t, &alt);
        crate::text::push_str(&mut t, "]");
        let idx = push_text_element(&mut self.b, ElementKind::Paragraph, t.as_str(), Vec::new());
        assert(anns_view(Seq::<TextAnnotation>::empty()) =~= Seq::<AnnView>::empty());
        match &id {
            Some(i) => {
                let is = string_of(i);
                view_set_anchor(&mut self.b, idx, is.as_str());
            },
            None => {},
        }
        if self.in_figure {
            self.figure_idx = Some(idx);
        }
        assert(scanner_view(*self) =~= open_img(st, attrs@));
    }

    fn open_a(&mut self, attrs: &Vec<char>)
        requires
            scanner_ok(*old(self)),
        ensures
            scanner_ok(*final(self)),
            scanner_view(*final(self)) == open_a(scanner_view(*old(self)), attrs@),
    {
        let ghost st = scanner_view(*self);
        match extract_attr(attrs, "href") {
            Some(h) => {
                if h.len() > 0 && h[0] == '#' {
                    let target = slice_vec(&h, 1, h.len());
                    assert(target@ =~= h@.skip(1));
                    self.deferred.push((target, RelationshipKind::InternalLink));
                }
                let ghost st1 = scanner_view(*self);
                assert(st1 =~= (if h@.len() > 0 && h@[0] == '#' {
                    ScanView { deferred: st.deferred.push((h@.skip(1), RelationshipKind::InternalLink)), ..st }
                } else {
                    st
                }));
                self.open_inline(3, Some(h));
            },
            None => {},
        }
    }

    fn open_label(&mut self, attrs: &Vec<char>)
        requires
            scanner_ok(*old(self)),
        ensures
            scanner_ok(*final(self)),
            scanner_view(*final(self)) == open_label(scanner_view(*old(self)), attrs@),
    {
        let ghost st = scanner_view(*self);
        match extract_attr(attrs, "for") {
            Some(f) => {
                self.deferred.push((f, RelationshipKind::Label));
            },
            None => {},
        }
        assert(scanner_view(*self) =~= open_label(st, attrs@));
    }

    fn open_other(&mut self, id: Option<Vec<char>>)
        requires
            scanner_ok(*old(self)),
        ensures
            scanner_ok(*final(self)),
            scanner_view(*final(self)) == open_other(scanner_view(*old(self)), optv(id)),
    {
        let ghost st = scanner_view(*self);
        match &id {
            Some(i) => {
                if !self.pending_tag {
                    proof {
                        reveal_strlit("");
                    }
                    let idx = push_text_element(&mut self.b, ElementKind::Paragraph, "", Vec::new());
                    assert(""@ =~= Seq::<char>::empty());
                    assert(anns_view(Seq::<TextAnnotation>::empty()) =~= Seq::<AnnView>::empty());
                    let is = string_of(i);
                    view_set_anchor(&mut self.b, idx, is.as_str());
                }
            },
            None => {},
        }
        assert(scanner_view(*self) =~= open_other(st, optv(id)));
    }
}

fn heading_level_exec(name: &Vec<char>) -> (r: Option<u8>)
    ensures
        r == heading_level(name@),
{
    if name.len() == 2 && name[0] == 'h' && '1' <= name[1] && name[1] <= '6' {
        Some(((name[1] as u32) - 48) as u8)
    } else {
        None
    }
}

impl Scanner {
    fn on_close(&mut self, name: &Vec<char>)
        requires
            scanner_ok(*old(self)),
        ensures
            scanner_ok(*final(self)),
            scanner_view(*final(self)) == close_step(scanner_view(*old(self)), name@),
    {
        let ghost st = scanner_view(*self);
        match heading_level_exec(name) {
            Some(l) => {
                self.close_block(Some(l));
                return;
            },
            None => {},
        }
        if is_text(name, "p") {
            self.close_block(None);
        } else if is_text(name, "li") {
            self.close_li();
        } else if is_text(name, "ul") || is_text(name, "ol") {
            self.close_list();
        } else if is_text(name, "pre") {
            self.close_pre();
        } else if is_text(name, "code") {
            if !self.in_pre {
                self.close_inline(2);
            }
        } else if is_text(name, "strong") || is_text(name, "b") {
            self.close_inline(0);
        } else if is_text(name, "em") || is_text(name, "i") {
            self.close_inline(1);
        } else if is_text(name, "a") {
            self.close_inline(3);
        } else if is_text(name, "td") || is_text(name, "th") {
            self.close_cell();
        } else if is_text(name, "tr") {
            self.close_row();
        } else if is_text(name, "table") {
            self.close_table();
        } else if is_text(name, "figure") {
            self.in_figure = false;
            self.figure_idx = None;
            assert(scanner_view(*self) =~= close_step(st, name@));
        } else if is_text(name, "figcaption") {
            self.close_figcaption();
        }
    }

    fn on_open(&mut self, name: &Vec<char>, attrs: &Vec<char>)
        requires
            scanner_ok(*old(self)),
        ensures
            scanner_ok(*final(self)),
            scanner_view(*final(self)) == open_step(scanner_view(*old(self)), name@, attrs@),
    {
        let ghost st = scanner_view(*self);
        let id = extract_attr(attrs, "id");
        if heading_level_exec(name).is_some() || is_text(name, "p") {
            self.open_block(id);
        } else if is_text(name, "ul") || is_text(name, "ol") {
            let ordered = is_text(name, "ol");
            self.open_list(ordered);
        } else if is_text(name, "li") {
            self.text_buf = Vec::new();
            self.pending_id = id;
            assert(scanner_view(*self) =~= open_step(st, name@, attrs@));
        } else if is_text(name, "pre") {
            self.in_pre = true;
            self.pre_text = Vec::new();
            self.pre_lang = None;
            assert(scanner_view(*self) =~= open_step(st, name@, attrs@));
        } else if is_text(name, "code") {
            if self.in_pre {
                self.open_pre_code(attrs);
            } else {
                self.open_inline(2, None);
            }
        } else if is_text(name, "strong") || is_text(name, "b") {
            self.open_inline(0, None);
        } else if is_text(name, "em") || is_text(name, "i") {
            self.open_inline(1, None);
        } else if is_text(name, "table") {
            self.in_table = true;
            self.table_rows = Vec::new();
            assert(scanner_view(*self) =~= open_step(st, name@, attrs@));
        } else if is_text(name, "td") || is_text(name, "th") {
            self.in_cell = true;
            self.cell_text = Vec::new();
            assert(scanner_view(*self) =~= open_step(st, name@, attrs@));
        } else if is_text(name, "tr") {
            self.current_row = Vec::new();
            assert(scanner_view(*self) =~= open_step(st, name@, attrs@));
        } else if is_text(name, "img") {
            self.open_img(attrs);
        } else if is_text(name, "figure") {
            self.in_figure = true;
            self.figure_idx = None;
            assert(scanner_view(*self) =~= open_step(st, name@, attrs@));
        } else if is_text(name, "figcaption") {
            self.in_figcaption = true;
            self.figcaption_text = Vec::new();
            assert(scanner_view(*self) =~= open_step(st, name@, attrs@));
        } else if is_text(name, "a") {
            self.open_a(attrs);
        } else if is_text(name, "label") {
            self.open_label(attrs);
        } else {
            self.open_other(id);
        }
    }

    fn on_tag(&mut self, content: &Vec<char>)
        requires
            scanner_ok(*old(self)),
        ensures
            scanner_ok(*final(self)),
            scanner_view(*final(self)) == tag_step(scanner_view(*old(self)), parse_tag(content@)),
    {
        let (closing, name, attrs) = parse_tag_exec(content);
        if closing {
            self.on_close(&name);
        } else {
            self.on_open(&name, &attrs);
        }
    }
}

fn next_lt_exec(v: &Vec<char>, i: usize) -> (r: usize)
    requires
        i <= v.len(),
    ensures
        r == next_lt(v@, i as int),
        i <= r <= v.len(),
{
    let mut k = i;
    while k < v.len() && v[k] != '<'
        invariant
            i <= k <= v.len(),
            next_lt(v@, k as int) == next_lt(v@, i as int),
        decreases v.len() - k,
    {
        k += 1;
    }
    k
}

impl Scanner {
    /// Handles the token at `pos`; `None` when the scan stops there.
    fn step(&mut self, v: &Vec<char>, pos: usize) -> (r: Option<usize>)
        requires
            scanner_ok(*old(self)),
            pos < v@.len(),
        ensures
            scanner_ok(*final(self)),
            match next_token(v@, pos as int) {
                Some((n, t)) => r == Some(n as usize) && n <= v@.len() && scanner_view(*final(self)) == token_step(
                    scanner_view(*old(self)),
                    t,
                ),
                None => r is None && scanner_view(*final(self)) == scanner_view(*old(self)),
            },
    {
        proof {
            reveal_strlit("<!--");
            reveal_strlit("-->");
            lemma_next_token(v@, pos as int);
        }
        if starts_with_at(v, pos, "<!--") {
            let close = chars_of("-->");
            match find_exec(v, &close, pos) {
                Some(e) => {
                    let n = v.len();
                    assert(e + 3 <= n);
                    Some(e + 3)
                },
                None => None,
            }
        } else if v[pos] == '<' {
            let gt: Vec<char> = vec!['>'];
            assert(gt@ =~= seq!['>']);
            match find_exec(v, &gt, pos) {
                Some(e) => {
                    let n = v.len();
                    assert(e + 1 <= n);
                    let content = slice_vec(v, pos + 1, e);
                    self.on_tag(&content);
                    Some(e + 1)
                },
                None => None,
            }
        } else {
            let e = next_lt_exec(v, pos);
            let raw = slice_vec(v, pos, e);
            self.on_text(&raw);
            Some(e)
        }
    }

    /// The end of the source.
    fn finish(&mut self)
        requires
            scanner_ok(*old(self)),
        ensures
            scanner_ok(*final(self)),
            doc_view(final(self).b) == finish(scanner_view(*old(self))),
    {
        let ghost st = scanner_view(*self);
        match self.take_block() {
            Some((t, anns)) => {
                push_text_element(&mut self.b, ElementKind::Paragraph, t.as_str(), anns);
            },
            None => {},
        }
    }
}

impl HtmlExtractor {
    /// `build_internal_document`: the document that HTML source describes
    /// (see `html_document`).
    pub fn build_internal_document(html: &str) -> (doc: InternalDocument)
        ensures
            document_is(doc, "html"@, html_document(html@)),
    {
        let v = chars_of(html);
        let mut sc = Scanner::new();
        let mut pos: usize = 0;
        let mut done = false;
        while pos < v.len() && !done
            invariant
                pos <= v@.len(),
                v@ == html@,
                scanner_ok(sc),
                done ==> scan(v@, 0, initial_scan()) == scanner_view(sc),
                !done ==> scan(v@, 0, initial_scan()) == scan(v@, pos as int, scanner_view(sc)),
            decreases v@.len() - pos + (if done {
                0int
            } else {
                1int
            }),
        {
            let ghost st = scanner_view(sc);
            proof {
                lemma_next_token(v@, pos as int);
            }
            match sc.step(&v, pos) {
                Some(n) => {
                    pos = n;
                },
                None => {
                    done = true;
                },
            }
        }
        sc.finish();
        let b = sc.b;
        proof {
            assert(b.doc.elements@.map_values(|e: crate::document::InternalElement| crate::doc_view::elem_view(e))
                =~= html_document(html@).elems);
        }
        b.build()
    }
}

/// What `String::from_utf8_lossy` yields for the bytes.
pub uninterp spec fn utf8_lossy(bytes: Seq<u8>) -> Seq<char>;

/// `String::from_utf8_lossy`: the bytes as UTF-8, invalid sequences replaced;
/// named `utf8_lossy(bytes)`.
#[verifier::external_body]
fn decode_utf8_lossy(bytes: &[u8]) -> (r: String)
    ensures
        r@ == utf8_lossy(bytes@),
{
    String::from_utf8_lossy(bytes).into_owned()
}

/// An optional string, by its characters.
pub open spec fn opt_chars(o: Option<String>) -> Option<Seq<char>> {
    match o {
        Some(s) => Some(s@),
        None => None,
    }
}

/// The format marker an extractor leaves in the metadata when it has already
/// produced the requested format: markdown and djot are produced by the HTML
/// converter itself, every other format is still to be derived.
pub open spec fn pre_formatted(f: OutputFormat) -> Option<Seq<char>> {
    match f {
        OutputFormat::Markdown => Some("markdown"@),
        OutputFormat::Djot => Some("djot"@),
        _ => None,
    }
}

fn format_marker(f: OutputFormat) -> (r: Option<String>)
    ensures
        opt_chars(r) == pre_formatted(f),
{
    match f {
        OutputFormat::Markdown => Some(String::from_str("markdown")),
        OutputFormat::Djot => Some(String::from_str("djot")),
        _ => None,
    }
}

/// The name of an image format (`Other`: the name the converter gave).
pub open spec fn format_name(kind: ImageFormatKind, custom: Option<Seq<char>>) -> Seq<char> {
    match kind {
        ImageFormatKind::Png => "png"@,
        ImageFormatKind::Jpeg => "jpeg"@,
        ImageFormatKind::Gif => "gif"@,
        ImageFormatKind::Bmp => "bmp"@,
        ImageFormatKind::Webp => "webp"@,
        ImageFormatKind::Svg => "svg"@,
        ImageFormatKind::Other => match custom {
            Some(c) => c,
            None => Seq::empty(),
        },
    }
}

/// `img` is the `i`-th inline image `t` of the converter (bytes, format,
/// custom format name, size, description) as a document image: no page, not
/// a mask, no source path.
pub open spec fn image_from(
    img: ExtractedImage,
    t: (Seq<u8>, ImageFormatKind, Option<Seq<char>>, Option<(u32, u32)>, Option<Seq<char>>),
    i: int,
) -> bool {
    &&& img.data@ == t.0
    &&& img.format@ == format_name(t.1, t.2)
    &&& img.image_index == i
    &&& img.page_number is None
    &&& img.width == (match t.3 {
        Some((w, _)) => Some(w),
        None => None,
    })
    &&& img.height == (match t.3 {
        Some((_, h)) => Some(h),
        None => None,
    })
    &&& !img.is_mask
    &&& opt_chars_of(img.description) == t.4
    &&& img.source_path is None
}

/// The document image of the converter's `i`-th inline image.
pub fn extracted_image(d: InlineImageData, i: usize) -> (img: ExtractedImage)
    ensures
        image_from(img, image_tuple(d), i as int),
{
    let ghost t = image_tuple(d);
    let format = match d.format {
        ImageFormatKind::Png => String::from_str("png"),
        ImageFormatKind::Jpeg => String::from_str("jpeg"),
        ImageFormatKind::Gif => String::from_str("gif"),
        ImageFormatKind::Bmp => String::from_str("bmp"),
        ImageFormatKind::Webp => String::from_str("webp"),
        ImageFormatKind::Svg => String::from_str("svg"),
        ImageFormatKind::Other => match d.custom_format {
            Some(c) => c,
            None => String::new(),
        },
    };
    let (width, height) = match d.dimensions {
        Some((w, h)) => (Some(w), Some(h)),
        None => (None, None),
    };
    ExtractedImage {
        data: d.data,
        format,
        image_index: i,
        page_number: None,
        width,
        height,
        is_mask: false,
        description: d.description,
        source_path: None,
    }
}

/// Appends the converter's inline images to the document, numbered from 0.
fn push_inline_images(doc: &mut InternalDocument, images: Vec<InlineImageData>)
    requires
        old(doc).images@.len() == 0,
    ensures
        final(doc).images@.len() == images@.len(),
        forall|k: int| 0 <= k < images@.len() ==> image_from(#[trigger] final(doc).images@[k], image_tuple(images@[k]), k),
        final(doc).elements@ == old(doc).elements@,
        final(doc).tables@ == old(doc).tables@,
        final(doc).relationships@ == old(doc).relationships@,
        final(doc).source_format == old(doc).source_format,
        final(doc).mime_type == old(doc).mime_type,
        final(doc).metadata == old(doc).metadata,
{
    let ghost ts = images@.map_values(|i: InlineImageData| image_tuple(i));
    let mut images = images;
    let ghost all = images@;
    let mut i: usize = 0;
    let n = images.len();
    assert(all.skip(0) =~= all);
    while images.len() > 0
        invariant
            i <= n == all.len(),
            images@ == all.skip(i as int),
            doc.images@.len() == i,
            forall|k: int| 0 <= k < i ==> image_from(#[trigger] doc.images@[k], image_tuple(all[k]), k),
            doc.elements@ == old(doc).elements@,
            doc.tables@ == old(doc).tables@,
            doc.relationships@ == old(doc).relationships@,
            doc.source_format == old(doc).source_format,
            doc.mime_type == old(doc).mime_type,
            doc.metadata == old(doc).metadata,
        decreases images.len(),
    {
        let d = images.remove(0);
        assert(image_tuple(d) == image_tuple(all[i as int]));
        let img = extracted_image(d, i);
        doc.push_image(img);
        proof {
            assert(all.skip(i as int).remove(0) =~= all.skip(i + 1));
        }
        i = i + 1;
    }
}

impl HtmlExtractor {
    /// `extract_sync`: the document built from the HTML source, with its MIME
    /// type, the output-format marker of `output_format` and the converter's
    /// HTML metadata in its metadata, followed by the tables the HTML converter
    /// finds under `html_options`, and, when `extract_images` is set, the
    /// converter's inline images; fails when a conversion fails.  Under the
    /// converter's default options (`html_options` is `None`) the tables and
    /// images are exactly those it names, and success is owed exactly when both
    /// conversions succeed.
    pub fn extract_sync(
        &self,
        content: &[u8],
        mime_type: &str,
        output_format: OutputFormat,
        html_options: &Option<ConversionOptions>,
        extract_images: bool,
    ) -> (r: Result<InternalDocument, KreuzbergError>)
        ensures
            match r {
                Ok(doc) => {
                    let v = html_document(utf8_lossy(content@));
                    &&& doc.mime_type@ == mime_type@
                    &&& doc.source_format@ == "html"@
                    &&& opt_chars(doc.metadata.output_format) == pre_formatted(output_format)
                    &&& doc.metadata.format is Some
                    &&& doc.elements@.map_values(|e: crate::document::InternalElement| crate::doc_view::elem_view(e)) == v.elems
                    &&& doc.relationships@.map_values(|x: crate::document::Relationship| crate::doc_view::rel_view(x)) == v.rels
                    &&& forall|k: int| 0 <= k < doc.elements@.len() ==> crate::doc_view::plain_element(#[trigger] doc.elements@[k])
                    &&& doc.tables@.len() >= v.tables.len()
                    &&& forall|k: int| 0 <= k < v.tables.len() ==> grid_view((#[trigger] doc.tables@[k]).cells@) == v.tables[k]
                        && crate::doc_view::plain_table(doc.tables@[k])
                    &&& html_options is None ==> (converted_tables(utf8_lossy(content@)) matches Some(g)
                        && doc.tables@.len() == v.tables.len() + g.len()
                        && forall|k: int| 0 <= k < g.len() ==> table_from_grid(#[trigger] doc.tables@[v.tables.len() + k], g[k], k))
                    &&& !extract_images ==> doc.images@.len() == 0
                    &&& (extract_images && html_options is None) ==> (converted_images(utf8_lossy(content@)) matches Some(ims)
                        && doc.images@.len() == ims.len()
                        && forall|k: int| 0 <= k < ims.len() ==> image_from(#[trigger] doc.images@[k], ims[k], k))
                },
                Err(e) => e is Parsing && (html_options is None ==> (converted_tables(utf8_lossy(content@)) is None
                    || (extract_images && converted_images(utf8_lossy(content@)) is None))),
            },
    {
        let html = decode_utf8_lossy(content);
        let (tables, meta) = match html_conversion(html.as_str(), html_options) {
            Ok(x) => x,
            Err(e) => {
                return Err(e);
            },
        };
        let mut doc = HtmlExtractor::build_internal_document(html.as_str());
        doc.metadata = Metadata { output_format: format_marker(output_format), format: Some(meta) };
        doc.mime_type = String::from_str(mime_type);
        let ghost before = doc.tables@;
        let ghost n0 = doc.tables@.len();
        let mut tables = tables;
        let ghost ts = tables@;
        let ghost i: int = 0;
        assert(ts.skip(0) =~= ts);
        while tables.len() > 0
            invariant
                0 <= i <= ts.len(),
                tables@ == ts.skip(i),
                doc.tables@.len() == n0 + i,
                forall|k: int| 0 <= k < n0 ==> #[trigger] doc.tables@[k] == before[k],
                forall|k: int| 0 <= k < i ==> #[trigger] doc.tables@[n0 + k] == ts[k],
                doc.mime_type@ == mime_type@,
                doc.source_format@ == "html"@,
                opt_chars(doc.metadata.output_format) == pre_formatted(output_format),
                doc.metadata.format is Some,
                doc.images@.len() == 0,
                doc.elements@.map_values(|e: crate::document::InternalElement| crate::doc_view::elem_view(e))
                    == html_document(html@).elems,
                doc.relationships@.map_values(|x: crate::document::Relationship| crate::doc_view::rel_view(x))
                    == html_document(html@).rels,
                forall|k: int| 0 <= k < doc.elements@.len() ==> crate::doc_view::plain_element(#[trigger] doc.elements@[k]),
                forall|k: int| 0 <= k < n0 ==> crate::doc_view::plain_table(#[trigger] before[k]),
            decreases tables.len(),
        {
            let t = tables.remove(0);
            assert(t == ts[i]);
            doc.push_table(t);
            proof {
                assert(ts.skip(i).remove(0) =~= ts.skip(i + 1));
                i = i + 1;
            }
        }
        proof {
            assert(i == ts.len());
        }
        if extract_images {
            let images = match html_inline_images(html.as_str(), html_options) {
                Ok(v) => v,
                Err(e) => {
                    return Err(e);
                },
            };
            let ghost ims = images@;
            push_inline_images(&mut doc, images);
        }
        Ok(doc)
    }
}

} // verus!
