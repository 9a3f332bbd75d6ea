//! The intermediate document model: a flat list of elements, plus the tables,
//! images and relationships that elements refer to, and a builder for it.
use vstd::prelude::*;
use crate::text::{push_str, string_of, trim, trim_chars};
use crate::render_common::{render_table_markdown, table_md};
use html_to_markdown_rs::HtmlMetadata;

verus! {

/// Which layer of the page an element belongs to.
#[derive(Clone, Copy, Debug, PartialEq, Eq, Structural)]
pub enum ContentLayer {
    Body,
    Header,
    Footer,
    Footnote,
}

/// The kind of an inline annotation.
#[derive(Clone, Debug)]
pub enum AnnotationKind {
    Bold,
    Italic,
    Code,
    Strikethrough,
    Underline,
    Subscript,
    Superscript,
    Highlight,
    Link { url: String, title: Option<String> },
    Color { value: String },
    FontSize { value: String },
    Custom { name: String, value: Option<String> },
}

/// An inline annotation over the characters `start..end` of an element's text.
#[derive(Clone, Debug)]
pub struct TextAnnotation {
    pub start: u32,
    pub end: u32,
    pub kind: AnnotationKind,
}

/// The kind of a document element.
#[derive(Clone, Copy, Debug, PartialEq, Eq, Structural)]
pub enum ElementKind {
    Title,
    Heading { level: u8 },
    Paragraph,
    ListItem { ordered: bool },
    Code,
    Formula,
    Table { table_index: usize },
    Image { image_index: usize },
    FootnoteRef,
    FootnoteDefinition,
    Citation,
    PageBreak,
    Slide { number: u32 },
    DefinitionTerm,
    DefinitionDescription,
    Admonition,
    RawBlock,
    MetadataBlock,
    OcrText,
    ListStart { ordered: bool },
    ListEnd,
    QuoteStart,
    QuoteEnd,
    GroupStart,
    GroupEnd,
}

/// A bounding box in page units.
#[derive(Clone, Copy, Debug, PartialEq, Eq, Structural)]
pub struct BoundingBox {
    pub x0: i64,
    pub y0: i64,
    pub x1: i64,
    pub y1: i64,
}

/// One element of the document.
#[derive(Debug)]
pub struct InternalElement {
    pub kind: ElementKind,
    pub text: String,
    pub depth: u32,
    pub layer: ContentLayer,
    pub annotations: Vec<TextAnnotation>,
    pub anchor: Option<String>,
    pub attributes: Vec<(String, String)>,
    pub page: Option<u32>,
    pub bbox: Option<BoundingBox>,
}

/// A table: a grid of cell texts and a markdown rendering of it.
#[derive(Debug)]
pub struct Table {
    pub cells: Vec<Vec<String>>,
    pub markdown: String,
    pub page_number: usize,
    pub bounding_box: Option<BoundingBox>,
}

/// An image carried by the document.
#[derive(Debug)]
pub struct ExtractedImage {
    pub data: Vec<u8>,
    pub format: String,
    pub image_index: usize,
    pub page_number: Option<usize>,
    pub width: Option<u32>,
    pub height: Option<u32>,
    pub is_mask: bool,
    pub description: Option<String>,
    pub source_path: Option<String>,
}

/// How one element relates to another.
#[derive(Clone, Copy, Debug, PartialEq, Eq, Structural)]
pub enum RelationshipKind {
    Caption,
    InternalLink,
    Label,
    FootnoteReference,
    CitationReference,
}

/// The target of a relationship: an element index, or an anchor key.
#[derive(Debug)]
pub enum RelationshipTarget {
    Index(usize),
    Key(String),
}

/// A relationship from element `source` to a target.
#[derive(Debug)]
pub struct Relationship {
    pub source: usize,
    pub target: RelationshipTarget,
    pub kind: RelationshipKind,
}

/// The format a caller asks the extracted text in.
#[derive(Clone, Copy, Debug, PartialEq, Eq, Structural)]
pub enum OutputFormat {
    Plain,
    Markdown,
    Djot,
    Html,
}

/// Document-level metadata.
#[derive(Debug)]
pub struct Metadata {
    /// The format the extractor already gave the text, so that it is not
    /// converted a second time (`None`: not yet formatted).
    pub output_format: Option<String>,
    /// The HTML metadata (title, description, Open Graph, links, ...) that the
    /// HTML converter found, for HTML sources.
    pub format: Option<HtmlMetadata>,
}

/// A document as a flat element list.
#[derive(Debug)]
pub struct InternalDocument {
    pub source_format: String,
    pub mime_type: String,
    pub elements: Vec<InternalElement>,
    pub tables: Vec<Table>,
    pub images: Vec<ExtractedImage>,
    pub relationships: Vec<Relationship>,
    pub metadata: Metadata,
}

impl InternalDocument {
    /// Adds a relationship.
    pub fn push_relationship(&mut self, rel: Relationship)
        ensures
            final(self).relationships@ == old(self).relationships@.push(rel),
            final(self).elements@ == old(self).elements@,
            final(self).tables@ == old(self).tables@,
            final(self).images@ == old(self).images@,
            final(self).source_format == old(self).source_format,
            final(self).mime_type == old(self).mime_type,
            final(self).metadata == old(self).metadata,
    {
        self.relationships.push(rel);
    }

    /// Adds a table (not referenced by any element).
    pub fn push_table(&mut self, table: Table)
        ensures
            final(self).tables@ == old(self).tables@.push(table),
            final(self).elements@ == old(self).elements@,
            final(self).images@ == old(self).images@,
            final(self).relationships@ == old(self).relationships@,
            final(self).source_format == old(self).source_format,
            final(self).mime_type == old(self).mime_type,
            final(self).metadata == old(self).metadata,
    {
        self.tables.push(table);
    }

    /// Adds an image (not referenced by any element).
    pub fn push_image(&mut self, image: ExtractedImage)
        ensures
            final(self).images@ == old(self).images@.push(image),
            final(self).elements@ == old(self).elements@,
            final(self).tables@ == old(self).tables@,
            final(self).relationships@ == old(self).relationships@,
            final(self).source_format == old(self).source_format,
            final(self).mime_type == old(self).mime_type,
            final(self).metadata == old(self).metadata,
    {
        self.images.push(image);
    }
}

fn copy_opt_string(s: &Option<String>) -> (r: Option<String>)
    ensures
        r == *s,
{
    match s {
        Some(t) => Some(t.clone()),
        None => None,
    }
}

/// An exact copy of an annotation kind.
pub fn copy_kind(k: &AnnotationKind) -> (r: AnnotationKind)
    ensures
        r == *k,
{
    match k {
        AnnotationKind::Bold => AnnotationKind::Bold,
        AnnotationKind::Italic => AnnotationKind::Italic,
        AnnotationKind::Code => AnnotationKind::Code,
        AnnotationKind::Strikethrough => AnnotationKind::Strikethrough,
        AnnotationKind::Underline => AnnotationKind::Underline,
        AnnotationKind::Subscript => AnnotationKind::Subscript,
        AnnotationKind::Superscript => AnnotationKind::Superscript,
        AnnotationKind::Highlight => AnnotationKind::Highlight,
        AnnotationKind::Link { url, title } => AnnotationKind::Link { url: url.clone(), title: copy_opt_string(title) },
        AnnotationKind::Color { value } => AnnotationKind::Color { value: value.clone() },
        AnnotationKind::FontSize { value } => AnnotationKind::FontSize { value: value.clone() },
        AnnotationKind::Custom { name, value } => AnnotationKind::Custom {
            name: name.clone(),
            value: copy_opt_string(value),
        },
    }
}

/// An exact copy of a list of annotations.
pub fn copy_annotations(v: &Vec<TextAnnotation>) -> (r: Vec<TextAnnotation>)
    ensures
        r@ == v@,
{
    let mut r: Vec<TextAnnotation> = Vec::new();
    let mut i: usize = 0;
    while i < v.len()
        invariant
            i <= v@.len(),
            r@ == v@.take(i as int),
        decreases v.len() - i,
    {
        let a = &v[i];
        r.push(TextAnnotation { start: a.start, end: a.end, kind: copy_kind(&a.kind) });
        i += 1;
        assert(r@ =~= v@.take(i as int));
    }
    assert(v@.take(v@.len() as int) =~= v@);
    r
}

/// The value of the first attribute named `key`.
pub open spec fn attr_value(attrs: Seq<(String, String)>, key: Seq<char>) -> Option<Seq<char>>
    decreases attrs.len(),
{
    if attrs.len() == 0 {
        None
    } else if attrs[0].0@ == key {
        Some(attrs[0].1@)
    } else {
        attr_value(attrs.drop_first(), key)
    }
}

/// `e` is a fresh element of kind `kind` with text `text` at `depth`, in the
/// body layer, with no annotations, anchor or attributes.
pub open spec fn fresh_element(e: InternalElement, kind: ElementKind, text: Seq<char>, depth: u32) -> bool {
    &&& e.kind == kind
    &&& e.text@ == text
    &&& e.depth == depth
    &&& e.layer == ContentLayer::Body
    &&& e.annotations@.len() == 0
    &&& e.anchor is None
    &&& e.attributes@.len() == 0
}

/// `e` is `fresh_element` except for its attributes.
pub open spec fn fresh_with_attrs(e: InternalElement, kind: ElementKind, text: Seq<char>, depth: u32) -> bool {
    &&& e.kind == kind
    &&& e.text@ == text
    &&& e.depth == depth
    &&& e.layer == ContentLayer::Body
    &&& e.annotations@.len() == 0
    &&& e.anchor is None
}

/// The text a metadata block stores: one `key: value` line per entry.
pub open spec fn metadata_text(entries: Seq<(Seq<char>, Seq<char>)>) -> Seq<char>
    decreases entries.len(),
{
    if entries.len() == 0 {
        Seq::empty()
    } else {
        let prev = metadata_text(entries.drop_last());
        let line = entries.last().0 + ": "@ + entries.last().1;
        if entries.len() == 1 {
            line
        } else {
            prev + "\n"@ + line
        }
    }
}

/// The views of string pairs.
pub open spec fn pair_views(entries: Seq<(String, String)>) -> Seq<(Seq<char>, Seq<char>)> {
    entries.map_values(|p: (String, String)| (p.0@, p.1@))
}

/// The element kinds and texts of a document built at depth 0 from plain
/// (unannotated) blocks.
pub open spec fn elements_are(elems: Seq<InternalElement>, items: Seq<(ElementKind, Seq<char>)>) -> bool {
    &&& elems.len() == items.len()
    &&& forall|k: int| 0 <= k < elems.len() ==> fresh_element(#[trigger] elems[k], items[k].0, items[k].1, 0)
}

/// A paragraph for each piece whose trimmed text is not empty.
pub open spec fn trimmed_paragraphs(parts: Seq<Seq<char>>) -> Seq<(ElementKind, Seq<char>)>
    decreases parts.len(),
{
    if parts.len() == 0 {
        Seq::empty()
    } else {
        let prev = trimmed_paragraphs(parts.drop_last());
        if trim(parts.last()).len() > 0 {
            prev.push((ElementKind::Paragraph, trim(parts.last())))
        } else {
            prev
        }
    }
}

/// A document with only the given plain elements and nothing else.
pub open spec fn plain_document(doc: InternalDocument, source: Seq<char>, items: Seq<(ElementKind, Seq<char>)>) -> bool {
    &&& doc.source_format@ == source
    &&& doc.mime_type@ == Seq::<char>::empty()
    &&& elements_are(doc.elements@, items)
    &&& doc.tables@.len() == 0
    &&& doc.images@.len() == 0
    &&& doc.relationships@.len() == 0
}

/// A builder at depth 0 holding only the given plain elements.
pub open spec fn plain_builder(b: InternalDocumentBuilder, source: Seq<char>, items: Seq<(ElementKind, Seq<char>)>) -> bool {
    &&& b.depth == 0
    &&& plain_document(b.doc, source, items)
}

/// Builds an `InternalDocument` element by element, keeping track of the
/// nesting depth of lists and quotes.
pub struct InternalDocumentBuilder {
    pub doc: InternalDocument,
    pub depth: u32,
}

/// The builder's state other than the elements is unchanged.
pub open spec fn same_except_elements(a: InternalDocumentBuilder, b: InternalDocumentBuilder) -> bool {
    &&& a.doc.tables@ == b.doc.tables@
    &&& a.doc.images@ == b.doc.images@
    &&& a.doc.relationships@ == b.doc.relationships@
    &&& a.doc.source_format == b.doc.source_format
    &&& a.doc.mime_type == b.doc.mime_type
    &&& a.doc.metadata == b.doc.metadata
}

/// `b` is `a` with one more element `e` appended.
pub open spec fn appended(a: InternalDocumentBuilder, b: InternalDocumentBuilder) -> bool {
    &&& b.doc.elements@.len() == a.doc.elements@.len() + 1
    &&& b.doc.elements@.drop_last() == a.doc.elements@
    &&& same_except_elements(a, b)
}

fn new_element(kind: ElementKind, text: &str, depth: u32, page: Option<u32>, bbox: Option<BoundingBox>) -> (e:
    InternalElement)
    ensures
        fresh_element(e, kind, text@, depth),
        e.page == page,
        e.bbox == bbox,
{
    InternalElement {
        kind,
        text: String::from_str(text),
        depth,
        layer: ContentLayer::Body,
        annotations: Vec::new(),
        anchor: None,
        attributes: Vec::new(),
        page,
        bbox,
    }
}

fn empty_element(kind: ElementKind, depth: u32, page: Option<u32>) -> (e: InternalElement)
    ensures
        fresh_element(e, kind, Seq::empty(), depth),
        e.page == page,
        e.bbox is None,
{
    InternalElement {
        kind,
        text: String::new(),
        depth,
        layer: ContentLayer::Body,
        annotations: Vec::new(),
        anchor: None,
        attributes: Vec::new(),
        page,
        bbox: None,
    }
}

fn str_pair(k: &str, v: &str) -> (p: (String, String))
    ensures
        p.0@ == k@,
        p.1@ == v@,
{
    (String::from_str(k), String::from_str(v))
}

impl InternalDocumentBuilder {
    /// A builder for a document of the given source format.
    pub fn new(source_format: &str) -> (b: Self)
        ensures
            b.doc.source_format@ == source_format@,
            b.doc.mime_type@ == Seq::<char>::empty(),
            b.doc.elements@.len() == 0,
            b.doc.tables@.len() == 0,
            b.doc.images@.len() == 0,
            b.doc.relationships@.len() == 0,
            b.doc.metadata.output_format is None,
            b.doc.metadata.format is None,
            b.depth == 0,
    {
        InternalDocumentBuilder {
            doc: InternalDocument {
                source_format: String::from_str(source_format),
                mime_type: String::new(),
                elements: Vec::new(),
                tables: Vec::new(),
                images: Vec::new(),
                relationships: Vec::new(),
                metadata: Metadata { output_format: None, format: None },
            },
            depth: 0,
        }
    }

    /// The finished document.
    pub fn build(self) -> (d: InternalDocument)
        ensures
            d == self.doc,
    {
        self.doc
    }

    /// Appends an element and returns its index.
    fn push_element(&mut self, e: InternalElement) -> (idx: usize)
        ensures
            idx == old(self).doc.elements@.len(),
            final(self).doc.elements@ == old(self).doc.elements@.push(e),
            same_except_elements(*old(self), *final(self)),
            final(self).depth == old(self).depth,
    {
        let idx = self.doc.elements.len();
        self.doc.elements.push(e);
        idx
    }

    /// Pushes a title.
    pub fn push_title(&mut self, text: &str, page: Option<u32>, bbox: Option<BoundingBox>) -> (idx: usize)
        ensures
            idx == old(self).doc.elements@.len(),
            appended(*old(self), *final(self)),
            fresh_element(final(self).doc.elements@.last(), ElementKind::Title, text@, old(self).depth),
            final(self).depth == old(self).depth,
    {
        let e = new_element(ElementKind::Title, text, self.depth, page, bbox);
        let idx = self.push_element(e);
        proof {
            assert(self.doc.elements@.drop_last() =~= old(self).doc.elements@);
        }
        idx
    }

    /// Pushes a heading of the given level.
    pub fn push_heading(&mut self, level: u8, text: &str, page: Option<u32>, bbox: Option<BoundingBox>) -> (idx:
        usize)
        ensures
            idx == old(self).doc.elements@.len(),
            appended(*old(self), *final(self)),
            fresh_element(
                final(self).doc.elements@.last(),
                ElementKind::Heading { level },
                text@,
                old(self).depth,
            ),
            final(self).doc.elements@.last().page == page,
            final(self).doc.elements@.last().bbox == bbox,
            final(self).depth == old(self).depth,
    {
        let e = new_element(ElementKind::Heading { level }, text, self.depth, page, bbox);
        let idx = self.push_element(e);
        proof {
            assert(self.doc.elements@.drop_last() =~= old(self).doc.elements@);
        }
        idx
    }

    /// Pushes a paragraph with inline annotations.
    pub fn push_paragraph(
        &mut self,
        text: &str,
        annotations: Vec<TextAnnotation>,
        page: Option<u32>,
        bbox: Option<BoundingBox>,
    ) -> (idx: usize)
        ensures
            idx == old(self).doc.elements@.len(),
            appended(*old(self), *final(self)),
            final(self).doc.elements@.last().kind == ElementKind::Paragraph,
            final(self).doc.elements@.last().text@ == text@,
            final(self).doc.elements@.last().depth == old(self).depth,
            final(self).doc.elements@.last().layer == ContentLayer::Body,
            final(self).doc.elements@.last().annotations@ == annotations@,
            final(self).doc.elements@.last().anchor is None,
            final(self).doc.elements@.last().attributes@.len() == 0,
            final(self).doc.elements@.last().page == page,
            final(self).doc.elements@.last().bbox == bbox,
            final(self).depth == old(self).depth,
    {
        let mut e = new_element(ElementKind::Paragraph, text, self.depth, page, bbox);
        e.annotations = annotations;
        let idx = self.push_element(e);
        proof {
            assert(self.doc.elements@.drop_last() =~= old(self).doc.elements@);
        }
        idx
    }

    /// Opens a list: pushes a list start and nests one level deeper.
    pub fn push_list(&mut self, ordered: bool)
        ensures
            appended(*old(self), *final(self)),
            fresh_element(
                final(self).doc.elements@.last(),
                ElementKind::ListStart { ordered },
                Seq::empty(),
                old(self).depth,
            ),
            final(self).doc.elements@.last().page is None,
            final(self).doc.elements@.last().bbox is None,
            final(self).depth == (if old(self).depth < u32::MAX {
                old(self).depth + 1
            } else {
                old(self).depth as int
            }),
    {
        let e = empty_element(ElementKind::ListStart { ordered }, self.depth, None);
        self.push_element(e);
        self.depth = self.depth.saturating_add(1);
        proof {
            assert(self.doc.elements@.drop_last() =~= old(self).doc.elements@);
        }
    }

    /// Closes a list: steps one level out and pushes a list end.
    pub fn end_list(&mut self)
        ensures
            appended(*old(self), *final(self)),
            final(self).depth == (if old(self).depth > 0 {
                old(self).depth - 1
            } else {
                0
            }),
            fresh_element(final(self).doc.elements@.last(), ElementKind::ListEnd, Seq::empty(), final(self).depth),
            final(self).doc.elements@.last().page is None,
            final(self).doc.elements@.last().bbox is None,
    {
        self.depth = self.depth.saturating_sub(1);
        let e = empty_element(ElementKind::ListEnd, self.depth, None);
        self.push_element(e);
        proof {
            assert(self.doc.elements@.drop_last() =~= old(self).doc.elements@);
        }
    }

    /// Opens a block quote.
    pub fn push_quote_start(&mut self)
        ensures
            appended(*old(self), *final(self)),
            fresh_element(final(self).doc.elements@.last(), ElementKind::QuoteStart, Seq::empty(), old(self).depth),
            final(self).depth == (if old(self).depth < u32::MAX {
                old(self).depth + 1
            } else {
                old(self).depth as int
            }),
    {
        let e = empty_element(ElementKind::QuoteStart, self.depth, None);
        self.push_element(e);
        self.depth = self.depth.saturating_add(1);
        proof {
            assert(self.doc.elements@.drop_last() =~= old(self).doc.elements@);
        }
    }

    /// Closes a block quote.
    pub fn push_quote_end(&mut self)
        ensures
            appended(*old(self), *final(self)),
            final(self).depth == (if old(self).depth > 0 {
                old(self).depth - 1
            } else {
                0
            }),
            fresh_element(final(self).doc.elements@.last(), ElementKind::QuoteEnd, Seq::empty(), final(self).depth),
    {
        self.depth = self.depth.saturating_sub(1);
        let e = empty_element(ElementKind::QuoteEnd, self.depth, None);
        self.push_element(e);
        proof {
            assert(self.doc.elements@.drop_last() =~= old(self).doc.elements@);
        }
    }

    /// Opens a group (section).
    pub fn push_group_start(&mut self)
        ensures
            appended(*old(self), *final(self)),
            fresh_element(final(self).doc.elements@.last(), ElementKind::GroupStart, Seq::empty(), old(self).depth),
            final(self).depth == (if old(self).depth < u32::MAX {
                old(self).depth + 1
            } else {
                old(self).depth as int
            }),
    {
        let e = empty_element(ElementKind::GroupStart, self.depth, None);
        self.push_element(e);
        self.depth = self.depth.saturating_add(1);
        proof {
            assert(self.doc.elements@.drop_last() =~= old(self).doc.elements@);
        }
    }

    /// Closes a group.
    pub fn push_group_end(&mut self)
        ensures
            appended(*old(self), *final(self)),
            final(self).depth == (if old(self).depth > 0 {
                old(self).depth - 1
            } else {
                0
            }),
            fresh_element(final(self).doc.elements@.last(), ElementKind::GroupEnd, Seq::empty(), final(self).depth),
    {
        self.depth = self.depth.saturating_sub(1);
        let e = empty_element(ElementKind::GroupEnd, self.depth, None);
        self.push_element(e);
        proof {
            assert(self.doc.elements@.drop_last() =~= old(self).doc.elements@);
        }
    }

    /// Pushes a list item with inline annotations.
    pub fn push_list_item(
        &mut self,
        text: &str,
        ordered: bool,
        annotations: Vec<TextAnnotation>,
        page: Option<u32>,
        bbox: Option<BoundingBox>,
    ) -> (idx: usize)
        ensures
            idx == old(self).doc.elements@.len(),
            appended(*old(self), *final(self)),
            final(self).doc.elements@.last().kind == (ElementKind::ListItem { ordered }),
            final(self).doc.elements@.last().text@ == text@,
            final(self).doc.elements@.last().depth == old(self).depth,
            final(self).doc.elements@.last().layer == ContentLayer::Body,
            final(self).doc.elements@.last().annotations@ == annotations@,
            final(self).doc.elements@.last().anchor is None,
            final(self).doc.elements@.last().attributes@.len() == 0,
            final(self).doc.elements@.last().page == page,
            final(self).doc.elements@.last().bbox == bbox,
            final(self).depth == old(self).depth,
    {
        let mut e = new_element(ElementKind::ListItem { ordered }, text, self.depth, page, bbox);
        e.annotations = annotations;
        let idx = self.push_element(e);
        proof {
            assert(self.doc.elements@.drop_last() =~= old(self).doc.elements@);
        }
        idx
    }

    /// Pushes a code block, with its language if known.
    pub fn push_code(&mut self, text: &str, language: Option<&str>, page: Option<u32>, bbox: Option<BoundingBox>) -> (idx:
        usize)
        ensures
            idx == old(self).doc.elements@.len(),
            appended(*old(self), *final(self)),
            fresh_with_attrs(final(self).doc.elements@.last(), ElementKind::Code, text@, old(self).depth),
            final(self).doc.elements@.last().page == page,
            final(self).doc.elements@.last().bbox == bbox,
            final(self).doc.elements@.last().attributes@.len() == (if language is Some {
                1int
            } else {
                0int
            }),
            language is Some ==> final(self).doc.elements@.last().attributes@[0].0@ == "language"@,
            attr_value(final(self).doc.elements@.last().attributes@, "language"@) == (match language {
                Some(l) => Some(l@),
                None => None::<Seq<char>>,
            }),
            final(self).depth == old(self).depth,
    {
        let mut e = new_element(ElementKind::Code, text, self.depth, page, bbox);
        match language {
            Some(l) => {
                e.attributes.push(str_pair("language", l));
            },
            None => {},
        }
        let idx = self.push_element(e);
        proof {
            assert(self.doc.elements@.drop_last() =~= old(self).doc.elements@);
            let a = self.doc.elements@.last().attributes@;
            if a.len() > 0 {
                assert(a.drop_first() =~= Seq::<(String, String)>::empty());
            }
        }
        idx
    }

    /// Pushes a display formula.
    pub fn push_formula(&mut self, text: &str, page: Option<u32>, bbox: Option<BoundingBox>) -> (idx: usize)
        ensures
            idx == old(self).doc.elements@.len(),
            appended(*old(self), *final(self)),
            fresh_element(final(self).doc.elements@.last(), ElementKind::Formula, text@, old(self).depth),
            final(self).depth == old(self).depth,
    {
        let e = new_element(ElementKind::Formula, text, self.depth, page, bbox);
        let idx = self.push_element(e);
        proof {
            assert(self.doc.elements@.drop_last() =~= old(self).doc.elements@);
        }
        idx
    }

    /// Pushes a page break.
    pub fn push_page_break(&mut self) -> (idx: usize)
        ensures
            idx == old(self).doc.elements@.len(),
            appended(*old(self), *final(self)),
            fresh_element(final(self).doc.elements@.last(), ElementKind::PageBreak, Seq::empty(), old(self).depth),
            final(self).depth == old(self).depth,
    {
        let e = empty_element(ElementKind::PageBreak, self.depth, None);
        let idx = self.push_element(e);
        proof {
            assert(self.doc.elements@.drop_last() =~= old(self).doc.elements@);
        }
        idx
    }

    /// Pushes a slide marker, with its title if any.
    pub fn push_slide(&mut self, number: u32, title: Option<&str>, page: Option<u32>) -> (idx: usize)
        ensures
            idx == old(self).doc.elements@.len(),
            appended(*old(self), *final(self)),
            fresh_element(
                final(self).doc.elements@.last(),
                ElementKind::Slide { number },
                match title {
                    Some(t) => t@,
                    None => Seq::empty(),
                },
                old(self).depth,
            ),
            final(self).depth == old(self).depth,
    {
        let e = match title {
            Some(t) => new_element(ElementKind::Slide { number }, t, self.depth, page, None),
            None => empty_element(ElementKind::Slide { number }, self.depth, page),
        };
        let idx = self.push_element(e);
        proof {
            assert(self.doc.elements@.drop_last() =~= old(self).doc.elements@);
        }
        idx
    }

    /// Pushes a definition-list term.
    pub fn push_definition_term(&mut self, text: &str, page: Option<u32>) -> (idx: usize)
        ensures
            idx == old(self).doc.elements@.len(),
            appended(*old(self), *final(self)),
            fresh_element(final(self).doc.elements@.last(), ElementKind::DefinitionTerm, text@, old(self).depth),
            final(self).depth == old(self).depth,
    {
        let e = new_element(ElementKind::DefinitionTerm, text, self.depth, page, None);
        let idx = self.push_element(e);
        proof {
            assert(self.doc.elements@.drop_last() =~= old(self).doc.elements@);
        }
        idx
    }

    /// Pushes a definition-list description.
    pub fn push_definition_description(&mut self, text: &str, page: Option<u32>) -> (idx: usize)
        ensures
            idx == old(self).doc.elements@.len(),
            appended(*old(self), *final(self)),
            fresh_element(
                final(self).doc.elements@.last(),
                ElementKind::DefinitionDescription,
                text@,
                old(self).depth,
            ),
            final(self).depth == old(self).depth,
    {
        let e = new_element(ElementKind::DefinitionDescription, text, self.depth, page, None);
        let idx = self.push_element(e);
        proof {
            assert(self.doc.elements@.drop_last() =~= old(self).doc.elements@);
        }
        idx
    }

    /// Pushes an admonition (note, warning, ...) with an optional title.
    pub fn push_admonition(&mut self, kind: &str, title: Option<&str>, page: Option<u32>) -> (idx: usize)
        ensures
            idx == old(self).doc.elements@.len(),
            appended(*old(self), *final(self)),
            fresh_with_attrs(final(self).doc.elements@.last(), ElementKind::Admonition, Seq::empty(), old(self).depth),
            attr_value(final(self).doc.elements@.last().attributes@, "kind"@) == Some(kind@),
            attr_value(final(self).doc.elements@.last().attributes@, "title"@) == (match title {
                Some(t) => Some(t@),
                None => None::<Seq<char>>,
            }),
            final(self).depth == old(self).depth,
    {
        proof {
            reveal_strlit("kind");
            reveal_strlit("title");
        }
        let mut e = empty_element(ElementKind::Admonition, self.depth, page);
        let mut attrs: Vec<(String, String)> = Vec::new();
        let kp = str_pair("kind", kind);
        assert("kind"@.len() == 4);
        assert("title"@.len() == 5);
        assert(kp.0@ != "title"@);
        attrs.push(kp);
        match title {
            Some(t) => {
                attrs.push(str_pair("title", t));
            },
            None => {},
        }
        proof {
            let a = attrs@;
            assert(a[0].0@ == "kind"@);
            assert(a.drop_first().len() == 0 ==> a.drop_first() =~= Seq::<(String, String)>::empty());
            if a.len() > 1 {
                assert(a.drop_first()[0].0@ == "title"@);
                assert(a.drop_first().drop_first() =~= Seq::<(String, String)>::empty());
                assert(attr_value(a.drop_first(), "title"@) == Some(a[1].1@));
            } else {
                assert(attr_value(a.drop_first(), "title"@) == None::<Seq<char>>);
            }
            assert(attr_value(a, "title"@) == attr_value(a.drop_first(), "title"@));
        }
        e.attributes = attrs;
        let idx = self.push_element(e);
        proof {
            assert(self.doc.elements@.drop_last() =~= old(self).doc.elements@);
        }
        idx
    }

    /// Pushes a raw block in the given format (`html`, `tex`, ...).
    pub fn push_raw_block(&mut self, format: &str, text: &str, page: Option<u32>) -> (idx: usize)
        ensures
            idx == old(self).doc.elements@.len(),
            appended(*old(self), *final(self)),
            fresh_with_attrs(final(self).doc.elements@.last(), ElementKind::RawBlock, text@, old(self).depth),
            attr_value(final(self).doc.elements@.last().attributes@, "format"@) == Some(format@),
            final(self).depth == old(self).depth,
    {
        let mut e = new_element(ElementKind::RawBlock, text, self.depth, page, None);
        e.attributes.push(str_pair("format", format));
        let idx = self.push_element(e);
        proof {
            assert(self.doc.elements@.drop_last() =~= old(self).doc.elements@);
        }
        idx
    }

    /// Pushes a metadata block holding `key: value` lines.
    pub fn push_metadata_block(&mut self, entries: &Vec<(String, String)>, page: Option<u32>) -> (idx: usize)
        ensures
            idx == old(self).doc.elements@.len(),
            appended(*old(self), *final(self)),
            fresh_element(
                final(self).doc.elements@.last(),
                ElementKind::MetadataBlock,
                metadata_text(pair_views(entries@)),
                old(self).depth,
            ),
            final(self).depth == old(self).depth,
    {
        let mut text = String::new();
        let mut i: usize = 0;
        while i < entries.len()
            invariant
                i <= entries.len(),
                text@ == metadata_text(pair_views(entries@).take(i as int)),
            decreases entries.len() - i,
        {
            proof {
                assert(pair_views(entries@).take(i + 1).drop_last() =~= pair_views(entries@).take(i as int));
            }
            if i > 0 {
                push_str(&mut text, "\n");
            }
            push_str(&mut text, entries[i].0.as_str());
            push_str(&mut text, ": ");
            push_str(&mut text, entries[i].1.as_str());
            i += 1;
        }
        assert(pair_views(entries@).take(entries.len() as int) =~= pair_views(entries@));
        let e = InternalElement {
            kind: ElementKind::MetadataBlock,
            text,
            depth: self.depth,
            layer: ContentLayer::Body,
            annotations: Vec::new(),
            anchor: None,
            attributes: Vec::new(),
            page,
            bbox: None,
        };
        let idx = self.push_element(e);
        proof {
            assert(self.doc.elements@.drop_last() =~= old(self).doc.elements@);
        }
        idx
    }

    /// Pushes a footnote reference with display label `label` pointing at `key`.
    pub fn push_footnote_ref(&mut self, label: &str, key: &str, page: Option<u32>) -> (idx: usize)
        ensures
            idx == old(self).doc.elements@.len(),
            appended(*old(self), *final(self)),
            final(self).doc.elements@.last().kind == ElementKind::FootnoteRef,
            final(self).doc.elements@.last().text@ == label@,
            final(self).doc.elements@.last().depth == old(self).depth,
            final(self).doc.elements@.last().layer == ContentLayer::Body,
            final(self).doc.elements@.last().annotations@.len() == 0,
            final(self).doc.elements@.last().attributes@.len() == 0,
            (final(self).doc.elements@.last().anchor matches Some(a) && a@ == key@),
            final(self).depth == old(self).depth,
    {
        let mut e = new_element(ElementKind::FootnoteRef, label, self.depth, page, None);
        e.anchor = Some(String::from_str(key));
        let idx = self.push_element(e);
        proof {
            assert(self.doc.elements@.drop_last() =~= old(self).doc.elements@);
        }
        idx
    }

    /// Pushes a footnote definition with text `text` for `key`.
    pub fn push_footnote_definition(&mut self, text: &str, key: &str, page: Option<u32>) -> (idx: usize)
        ensures
            idx == old(self).doc.elements@.len(),
            appended(*old(self), *final(self)),
            final(self).doc.elements@.last().kind == ElementKind::FootnoteDefinition,
            final(self).doc.elements@.last().text@ == text@,
            final(self).doc.elements@.last().depth == old(self).depth,
            final(self).doc.elements@.last().layer == ContentLayer::Body,
            final(self).doc.elements@.last().annotations@.len() == 0,
            final(self).doc.elements@.last().attributes@.len() == 0,
            (final(self).doc.elements@.last().anchor matches Some(a) && a@ == key@),
            final(self).depth == old(self).depth,
    {
        let mut e = new_element(ElementKind::FootnoteDefinition, text, self.depth, page, None);
        e.anchor = Some(String::from_str(key));
        let idx = self.push_element(e);
        proof {
            assert(self.doc.elements@.drop_last() =~= old(self).doc.elements@);
        }
        idx
    }

    /// Pushes a citation with text `text` under key `key`.
    pub fn push_citation(&mut self, text: &str, key: &str, page: Option<u32>) -> (idx: usize)
        ensures
            idx == old(self).doc.elements@.len(),
            appended(*old(self), *final(self)),
            final(self).doc.elements@.last().kind == ElementKind::Citation,
            final(self).doc.elements@.last().text@ == text@,
            final(self).doc.elements@.last().depth == old(self).depth,
            final(self).doc.elements@.last().layer == ContentLayer::Body,
            final(self).doc.elements@.last().annotations@.len() == 0,
            final(self).doc.elements@.last().attributes@.len() == 0,
            (final(self).doc.elements@.last().anchor matches Some(a) && a@ == key@),
            final(self).depth == old(self).depth,
    {
        let mut e = new_element(ElementKind::Citation, text, self.depth, page, None);
        e.anchor = Some(String::from_str(key));
        let idx = self.push_element(e);
        proof {
            assert(self.doc.elements@.drop_last() =~= old(self).doc.elements@);
        }
        idx
    }

    /// Pushes a table built from a grid of cell texts (first row the header);
    /// its markdown is the grid rendered as a markdown table.
    pub fn push_table_from_cells(&mut self, cells: &Vec<Vec<String>>, page: Option<u32>, bbox: Option<BoundingBox>) -> (idx:
        usize)
        ensures
            idx == old(self).doc.elements@.len(),
            final(self).doc.elements@.len() == old(self).doc.elements@.len() + 1,
            final(self).doc.elements@.drop_last() == old(self).doc.elements@,
            final(self).doc.tables@.len() == old(self).doc.tables@.len() + 1,
            final(self).doc.tables@.drop_last() == old(self).doc.tables@,
            final(self).doc.tables@.last().cells@.len() == cells@.len(),
            forall|k: int|
                0 <= k < cells@.len() ==> (#[trigger] final(self).doc.tables@.last().cells@[k])@ == cells@[k]@,
            final(self).doc.tables@.last().markdown@ == table_md(cells@),
            final(self).doc.tables@.last().bounding_box == bbox,
            final(self).doc.tables@.last().page_number == (match page {
                Some(p) => p as usize,
                None => 0usize,
            }),
            final(self).doc.elements@.last().page == page,
            final(self).doc.elements@.last().bbox is None,
            fresh_element(
                final(self).doc.elements@.last(),
                ElementKind::Table { table_index: old(self).doc.tables@.len() as usize },
                Seq::empty(),
                old(self).depth,
            ),
            final(self).doc.images@ == old(self).doc.images@,
            final(self).doc.relationships@ == old(self).doc.relationships@,
            final(self).doc.source_format == old(self).doc.source_format,
            final(self).doc.mime_type == old(self).doc.mime_type,
            final(self).depth == old(self).depth,
    {
        let mut grid: Vec<Vec<String>> = Vec::new();
        let mut i: usize = 0;
        while i < cells.len()
            invariant
                i <= cells@.len(),
                grid@.len() == i,
                forall|k: int| 0 <= k < i ==> (#[trigger] grid@[k])@ == cells@[k]@,
            decreases cells.len() - i,
        {
            let row = cells[i].clone();
            assert(row@ =~= cells@[i as int]@);
            grid.push(row);
            i += 1;
        }
        let markdown = render_table_markdown(cells);
        let table_index = self.doc.tables.len();
        let page_number: usize = match page {
            Some(p) => p as usize,
            None => 0,
        };
        self.doc.tables.push(Table { cells: grid, markdown, page_number, bounding_box: bbox });
        let e = empty_element(ElementKind::Table { table_index }, self.depth, page);
        let idx = self.push_element(e);
        proof {
            assert(self.doc.elements@.drop_last() =~= old(self).doc.elements@);
            assert(self.doc.tables@.drop_last() =~= old(self).doc.tables@);
        }
        idx
    }

    /// Pushes an image with an optional description (the element's text).
    pub fn push_image(&mut self, description: Option<&str>, image: ExtractedImage, page: Option<u32>, bbox: Option<
        BoundingBox,
    >) -> (idx: usize)
        ensures
            idx == old(self).doc.elements@.len(),
            final(self).doc.elements@.len() == old(self).doc.elements@.len() + 1,
            final(self).doc.elements@.drop_last() == old(self).doc.elements@,
            final(self).doc.images@ == old(self).doc.images@.push(image),
            fresh_element(
                final(self).doc.elements@.last(),
                ElementKind::Image { image_index: old(self).doc.images@.len() as usize },
                match description {
                    Some(d) => d@,
                    None => Seq::empty(),
                },
                old(self).depth,
            ),
            final(self).doc.tables@ == old(self).doc.tables@,
            final(self).doc.relationships@ == old(self).doc.relationships@,
            final(self).doc.source_format == old(self).doc.source_format,
            final(self).doc.mime_type == old(self).doc.mime_type,
            final(self).depth == old(self).depth,
    {
        let image_index = self.doc.images.len();
        self.doc.images.push(image);
        let kind = ElementKind::Image { image_index };
        let e = match description {
            Some(d) => new_element(kind, d, self.depth, page, bbox),
            None => empty_element(kind, self.depth, page),
        };
        let idx = self.push_element(e);
        proof {
            assert(self.doc.elements@.drop_last() =~= old(self).doc.elements@);
        }
        idx
    }

    /// Pushes a paragraph holding the trimmed text of each piece that is not blank.
    pub fn push_trimmed_paragraphs(&mut self, parts: &Vec<Vec<char>>)
        requires
            plain_builder(*old(self), old(self).doc.source_format@, old(self).doc.elements@.map_values(
                |e: InternalElement| (e.kind, e.text@),
            )),
        ensures
            plain_builder(
                *final(self),
                old(self).doc.source_format@,
                old(self).doc.elements@.map_values(|e: InternalElement| (e.kind, e.text@)) + trimmed_paragraphs(
                    parts@.map_values(|p: Vec<char>| p@),
                ),
            ),
    {
        let ghost base = old(self).doc.elements@.map_values(|e: InternalElement| (e.kind, e.text@));
        let ghost ps = parts@.map_values(|p: Vec<char>| p@);
        let mut i: usize = 0;
        assert(ps.take(0) =~= Seq::<Seq<char>>::empty());
        assert(base + trimmed_paragraphs(ps.take(0)) =~= base);
        while i < parts.len()
            invariant
                i <= parts@.len(),
                ps == parts@.map_values(|p: Vec<char>| p@),
                plain_builder(*self, old(self).doc.source_format@, base + trimmed_paragraphs(ps.take(i as int))),
            decreases parts.len() - i,
        {
            assert(ps.take(i + 1).drop_last() =~= ps.take(i as int));
            assert(ps.take(i + 1).last() == parts@[i as int]@);
            let t = trim_chars(&parts[i]);
            if t.len() > 0 {
                let ts = string_of(&t);
                let ghost before = self.doc.elements@;
                self.push_paragraph(ts.as_str(), Vec::new(), None, None);
                proof {
                    let items = base + trimmed_paragraphs(ps.take(i + 1));
                    assert(items =~= (base + trimmed_paragraphs(ps.take(i as int))).push(
                        (ElementKind::Paragraph, t@),
                    ));
                    assert forall|k: int| 0 <= k < self.doc.elements@.len() implies fresh_element(
                        #[trigger] self.doc.elements@[k],
                        items[k].0,
                        items[k].1,
                        0,
                    ) by {
                        if k < before.len() {
                            assert(self.doc.elements@[k] == before[k]);
                        }
                    }
                }
            } else {
                assert(base + trimmed_paragraphs(ps.take(i + 1)) =~= base + trimmed_paragraphs(ps.take(i as int)));
            }
            i += 1;
        }
        assert(ps.take(parts@.len() as int) =~= ps);
    }

    /// Moves element `idx` to another content layer (no effect if out of range).
    pub fn set_layer(&mut self, idx: usize, layer: ContentLayer)
        ensures
            final(self).doc.elements@.len() == old(self).doc.elements@.len(),
            forall|k: int|
                0 <= k < old(self).doc.elements@.len() && k != idx ==> #[trigger] final(self).doc.elements@[k]
                    == old(self).doc.elements@[k],
            idx < old(self).doc.elements@.len() ==> {
                let (a, b) = (old(self).doc.elements@[idx as int], final(self).doc.elements@[idx as int]);
                &&& b.layer == layer
                &&& b.kind == a.kind
                &&& b.text == a.text
                &&& b.depth == a.depth
                &&& b.annotations == a.annotations
                &&& b.anchor == a.anchor
                &&& b.attributes == a.attributes
            },
            same_except_elements(*old(self), *final(self)),
            final(self).depth == old(self).depth,
    {
        if idx < self.doc.elements.len() {
            let mut e = self.doc.elements.remove(idx);
            e.layer = layer;
            self.doc.elements.insert(idx, e);
        }
    }

    /// Sets the anchor id of element `idx` (no effect if out of range).
    pub fn set_anchor(&mut self, idx: usize, anchor: &str)
        ensures
            final(self).doc.elements@.len() == old(self).doc.elements@.len(),
            forall|k: int|
                0 <= k < old(self).doc.elements@.len() && k != idx ==> #[trigger] final(self).doc.elements@[k]
                    == old(self).doc.elements@[k],
            idx < old(self).doc.elements@.len() ==> {
                let (a, b) = (old(self).doc.elements@[idx as int], final(self).doc.elements@[idx as int]);
                &&& b.anchor matches Some(s) && s@ == anchor@
                &&& b.kind == a.kind
                &&& b.text == a.text
                &&& b.depth == a.depth
                &&& b.layer == a.layer
                &&& b.annotations == a.annotations
                &&& b.attributes == a.attributes
                &&& b.page == a.page
                &&& b.bbox == a.bbox
            },
            same_except_elements(*old(self), *final(self)),
            final(self).depth == old(self).depth,
    {
        if idx < self.doc.elements.len() {
            let mut e = self.doc.elements.remove(idx);
            e.anchor = Some(String::from_str(anchor));
            self.doc.elements.insert(idx, e);
        }
    }

    /// Replaces the annotations of element `idx` (no effect if out of range).
    pub fn set_annotations(&mut self, idx: usize, annotations: Vec<TextAnnotation>)
        ensures
            final(self).doc.elements@.len() == old(self).doc.elements@.len(),
            forall|k: int|
                0 <= k < old(self).doc.elements@.len() && k != idx ==> #[trigger] final(self).doc.elements@[k]
                    == old(self).doc.elements@[k],
            idx < old(self).doc.elements@.len() ==> {
                let (a, b) = (old(self).doc.elements@[idx as int], final(self).doc.elements@[idx as int]);
                &&& b.annotations@ == annotations@
                &&& b.kind == a.kind
                &&& b.text == a.text
                &&& b.depth == a.depth
                &&& b.layer == a.layer
                &&& b.anchor == a.anchor
                &&& b.attributes == a.attributes
                &&& b.page == a.page
                &&& b.bbox == a.bbox
            },
            same_except_elements(*old(self), *final(self)),
            final(self).depth == old(self).depth,
    {
        if idx < self.doc.elements.len() {
            let mut e = self.doc.elements.remove(idx);
            e.annotations = annotations;
            self.doc.elements.insert(idx, e);
        }
    }

    /// Records a relationship from element `source`.
    pub fn push_relationship(&mut self, source: usize, target: RelationshipTarget, kind: RelationshipKind)
        ensures
            final(self).doc.relationships@.len() == old(self).doc.relationships@.len() + 1,
            final(self).doc.relationships@.drop_last() == old(self).doc.relationships@,
            final(self).doc.relationships@.last() == (Relationship { source, target, kind }),
            final(self).doc.source_format == old(self).doc.source_format,
            final(self).doc.mime_type == old(self).doc.mime_type,
            final(self).doc.elements@ == old(self).doc.elements@,
            final(self).doc.tables@ == old(self).doc.tables@,
            final(self).doc.images@ == old(self).doc.images@,
            final(self).depth == old(self).depth,
    {
        self.doc.relationships.push(Relationship { source, target, kind });
        proof {
            assert(self.doc.relationships@.drop_last() =~= old(self).doc.relationships@);
        }
    }
}

} // verus!
