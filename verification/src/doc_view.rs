//! Mathematical views of documents and of what building them does, for
//! builders driven step by step (such as the HTML tag scanner).
use vstd::prelude::*;
use crate::document::{
    attr_value, AnnotationKind, ContentLayer, ElementKind, InternalDocument, InternalDocumentBuilder, InternalElement,
    Relationship, RelationshipKind, RelationshipTarget, Table, TextAnnotation,
};
use crate::render_common::{join_cells, md_row, md_rows, table_md};

verus! {

/// The view of an annotation kind.
pub enum KindView {
    Bold,
    Italic,
    Code,
    Strikethrough,
    Underline,
    Subscript,
    Superscript,
    Highlight,
    Link { url: Seq<char>, title: Option<Seq<char>> },
    Color { value: Seq<char> },
    FontSize { value: Seq<char> },
    Custom { name: Seq<char>, value: Option<Seq<char>> },
}

pub open spec fn opt_view(o: Option<String>) -> Option<Seq<char>> {
    match o {
        Some(s) => Some(s@),
        None => None,
    }
}

pub open spec fn kind_view(k: AnnotationKind) -> KindView {
    match k {
        AnnotationKind::Bold => KindView::Bold,
        AnnotationKind::Italic => KindView::Italic,
        AnnotationKind::Code => KindView::Code,
        AnnotationKind::Strikethrough => KindView::Strikethrough,
        AnnotationKind::Underline => KindView::Underline,
        AnnotationKind::Subscript => KindView::Subscript,
        AnnotationKind::Superscript => KindView::Superscript,
        AnnotationKind::Highlight => KindView::Highlight,
        AnnotationKind::Link { url, title } => KindView::Link { url: url@, title: opt_view(title) },
        AnnotationKind::Color { value } => KindView::Color { value: value@ },
        AnnotationKind::FontSize { value } => KindView::FontSize { value: value@ },
        AnnotationKind::Custom { name, value } => KindView::Custom { name: name@, value: opt_view(value) },
    }
}

/// The view of an annotation.
#[verifier::ext_equal]
pub struct AnnView {
    pub start: u32,
    pub end: u32,
    pub kind: KindView,
}

pub open spec fn ann_view(a: TextAnnotation) -> AnnView {
    AnnView { start: a.start, end: a.end, kind: kind_view(a.kind) }
}

pub open spec fn anns_view(s: Seq<TextAnnotation>) -> Seq<AnnView> {
    s.map_values(|a: TextAnnotation| ann_view(a))
}

/// The view of a body element: what a step-by-step builder varies.  Layer,
/// page, bounding box and attributes other than a language are left out here;
/// `plain_element` states them.
#[verifier::ext_equal]
pub struct ElemView {
    pub kind: ElementKind,
    pub text: Seq<char>,
    pub depth: u32,
    pub anns: Seq<AnnView>,
    pub anchor: Option<Seq<char>>,
    pub language: Option<Seq<char>>,
}

pub open spec fn elem_view(e: InternalElement) -> ElemView {
    ElemView {
        kind: e.kind,
        text: e.text@,
        depth: e.depth,
        anns: anns_view(e.annotations@),
        anchor: opt_view(e.anchor),
        language: attr_value(e.attributes@, "language"@),
    }
}

/// The view of a relationship target.
pub enum TargetView {
    Index(usize),
    Key(Seq<char>),
}

#[verifier::ext_equal]
pub struct RelView {
    pub source: usize,
    pub target: TargetView,
    pub kind: RelationshipKind,
}

pub open spec fn rel_view(r: Relationship) -> RelView {
    RelView {
        source: r.source,
        target: match r.target {
            RelationshipTarget::Index(i) => TargetView::Index(i),
            RelationshipTarget::Key(k) => TargetView::Key(k@),
        },
        kind: r.kind,
    }
}

/// The cell texts of a table row.
pub open spec fn row_view(r: Vec<String>) -> Seq<Seq<char>> {
    r@.map_values(|c: String| c@)
}

/// The cell texts of a table's rows (its markdown, page and box are stated by
/// `plain_table`).
pub open spec fn grid_view(g: Seq<Vec<String>>) -> Seq<Seq<Seq<char>>> {
    g.map_values(|r: Vec<String>| row_view(r))
}

/// The view of a document under construction: its elements, table grids,
/// relationships and the current list depth (MIME type and images, which a
/// step-by-step builder does not touch, are stated by `sound_builder`).
#[verifier::ext_equal]
pub struct DocView {
    pub elems: Seq<ElemView>,
    pub tables: Seq<Seq<Seq<Seq<char>>>>,
    pub rels: Seq<RelView>,
    pub depth: u32,
}

pub open spec fn doc_view(b: InternalDocumentBuilder) -> DocView {
    DocView {
        elems: b.doc.elements@.map_values(|e: InternalElement| elem_view(e)),
        tables: b.doc.tables@.map_values(|t: crate::document::Table| grid_view(t.cells@)),
        rels: b.doc.relationships@.map_values(|r: Relationship| rel_view(r)),
        depth: b.depth,
    }
}

/// The builder's document is a body-only document of the given source format
/// without images, whose tables' markdown is that of their cells.
pub open spec fn sound_builder(b: InternalDocumentBuilder, source: Seq<char>) -> bool {
    &&& b.doc.source_format@ == source
    &&& b.doc.mime_type@ == Seq::<char>::empty()
    &&& b.doc.images@.len() == 0
    &&& forall|k: int| 0 <= k < b.doc.elements@.len() ==> plain_element(#[trigger] b.doc.elements@[k])
    &&& forall|k: int| 0 <= k < b.doc.tables@.len() ==> plain_table(#[trigger] b.doc.tables@[k])
}

/// An element of a source without pages: in the body, with no page and no
/// bounding box, and no attribute but a code block's language.
pub open spec fn plain_element(e: InternalElement) -> bool {
    &&& e.layer == ContentLayer::Body
    &&& e.page is None
    &&& e.bbox is None
    &&& e.attributes@.len() <= 1
    &&& e.attributes@.len() == 1 ==> e.kind == ElementKind::Code && e.attributes@[0].0@ == "language"@
}

/// A table of a source without pages: page number 0, no bounding box, and
/// its markdown rendering.
pub open spec fn plain_table(t: Table) -> bool {
    &&& t.page_number == 0
    &&& t.bounding_box is None
    &&& t.markdown@ == table_md(t.cells@)
}

/// An element pushed at the current depth.
pub open spec fn dv_push(d: DocView, kind: ElementKind, text: Seq<char>, anns: Seq<AnnView>, language: Option<
    Seq<char>,
>) -> DocView {
    DocView {
        elems: d.elems.push(ElemView { kind, text, depth: d.depth, anns, anchor: None, language }),
        ..d
    }
}

pub open spec fn sat_inc(d: u32) -> u32 {
    if d < u32::MAX {
        (d + 1) as u32
    } else {
        d
    }
}

pub open spec fn sat_dec(d: u32) -> u32 {
    if d > 0 {
        (d - 1) as u32
    } else {
        0
    }
}

/// A list opened: its start marker, then one level deeper.
pub open spec fn dv_push_list(d: DocView, ordered: bool) -> DocView {
    DocView {
        depth: sat_inc(d.depth),
        ..dv_push(d, ElementKind::ListStart { ordered }, Seq::empty(), Seq::empty(), None)
    }
}

/// A list closed: one level out, then its end marker.
pub open spec fn dv_end_list(d: DocView) -> DocView {
    dv_push(DocView { depth: sat_dec(d.depth), ..d }, ElementKind::ListEnd, Seq::empty(), Seq::empty(), None)
}

/// A table pushed from its cells.
pub open spec fn dv_push_table(d: DocView, cells: Seq<Seq<Seq<char>>>) -> DocView {
    DocView {
        tables: d.tables.push(cells),
        ..dv_push(d, ElementKind::Table { table_index: d.tables.len() as usize }, Seq::empty(), Seq::empty(), None)
    }
}

/// Element `idx` given an anchor (no effect out of range).
pub open spec fn dv_set_anchor(d: DocView, idx: int, a: Seq<char>) -> DocView {
    if 0 <= idx < d.elems.len() {
        DocView { elems: d.elems.update(idx, ElemView { anchor: Some(a), ..d.elems[idx] }), ..d }
    } else {
        d
    }
}

/// A relationship recorded.
pub open spec fn dv_push_rel(d: DocView, source: usize, target: TargetView, kind: RelationshipKind) -> DocView {
    DocView { rels: d.rels.push(RelView { source, target, kind }), ..d }
}

proof fn lemma_map_push<A, B>(old: Seq<A>, new: Seq<A>, f: spec_fn(A) -> B)
    requires
        new.len() == old.len() + 1,
        new.drop_last() == old,
    ensures
        new.map_values(f) == old.map_values(f).push(f(new.last())),
{
    assert forall|k: int| 0 <= k < old.len() implies new[k] == old[k] by {
        assert(new.drop_last()[k] == new[k]);
    }
    assert(new.map_values(f) =~= old.map_values(f).push(f(new.last())));
}

/// Pushes a paragraph or list item or heading after which the builder's view
/// is as `dv_push` says.
pub fn push_text_element(b: &mut InternalDocumentBuilder, kind: ElementKind, text: &str, anns: Vec<TextAnnotation>) -> (idx: usize)
    requires
        sound_builder(*old(b), old(b).doc.source_format@),
        kind is Paragraph || kind is Heading || kind is ListItem,
    ensures
        sound_builder(*final(b), old(b).doc.source_format@),
        idx == doc_view(*old(b)).elems.len(),
        doc_view(*final(b)) == dv_push(doc_view(*old(b)), kind, text@, anns_view(anns@), None),
{
    let ghost a = anns@;
    let ghost old_elems = b.doc.elements@;
    let idx = match kind {
        ElementKind::Heading { level } => {
            let i = b.push_heading(level, text, None, None);
            b.set_annotations(i, anns);
            proof {
                assert(b.doc.elements@.drop_last() =~= old_elems);
            }
            i
        },
        ElementKind::ListItem { ordered } => b.push_list_item(text, ordered, anns, None, None),
        _ => b.push_paragraph(text, anns, None, None),
    };
    proof {
        lemma_map_push(old_elems, b.doc.elements@, |e: InternalElement| elem_view(e));
        let e = b.doc.elements@.last();
        assert(e.attributes@.len() == 0);
        assert(elem_view(e) == ElemView { kind, text: text@, depth: old(b).depth, anns: anns_view(a), anchor: None, language: None });
        assert(doc_view(*b).tables =~= doc_view(*old(b)).tables);
        assert(doc_view(*b).rels =~= doc_view(*old(b)).rels);
        lemma_plain_push(old_elems, b.doc.elements@);
    }
    idx
}

proof fn lemma_plain_push(old_e: Seq<InternalElement>, new_e: Seq<InternalElement>)
    requires
        new_e.len() == old_e.len() + 1,
        new_e.drop_last() == old_e,
        forall|k: int| 0 <= k < old_e.len() ==> plain_element(#[trigger] old_e[k]),
        plain_element(new_e.last()),
    ensures
        forall|k: int| 0 <= k < new_e.len() ==> plain_element(#[trigger] new_e[k]),
{
    assert forall|k: int| 0 <= k < new_e.len() implies plain_element(#[trigger] new_e[k]) by {
        if k < old_e.len() {
            assert(new_e.drop_last()[k] == new_e[k]);
        }
    }
}

/// Opens a list.
pub fn view_push_list(b: &mut InternalDocumentBuilder, ordered: bool)
    requires
        sound_builder(*old(b), old(b).doc.source_format@),
    ensures
        sound_builder(*final(b), old(b).doc.source_format@),
        doc_view(*final(b)) == dv_push_list(doc_view(*old(b)), ordered),
{
    b.push_list(ordered);
    proof {
        lemma_map_push(old(b).doc.elements@, b.doc.elements@, |e: InternalElement| elem_view(e));
        lemma_plain_push(old(b).doc.elements@, b.doc.elements@);
        assert(b.doc.elements@.last().annotations@ =~= Seq::<TextAnnotation>::empty());
        assert(anns_view(b.doc.elements@.last().annotations@) =~= Seq::<AnnView>::empty());
        assert(doc_view(*b) == dv_push_list(doc_view(*old(b)), ordered));
    }
}

/// Closes a list.
pub fn view_end_list(b: &mut InternalDocumentBuilder)
    requires
        sound_builder(*old(b), old(b).doc.source_format@),
    ensures
        sound_builder(*final(b), old(b).doc.source_format@),
        doc_view(*final(b)) == dv_end_list(doc_view(*old(b))),
{
    b.end_list();
    proof {
        lemma_map_push(old(b).doc.elements@, b.doc.elements@, |e: InternalElement| elem_view(e));
        lemma_plain_push(old(b).doc.elements@, b.doc.elements@);
        assert(b.doc.elements@.last().annotations@ =~= Seq::<TextAnnotation>::empty());
        assert(anns_view(b.doc.elements@.last().annotations@) =~= Seq::<AnnView>::empty());
        assert(doc_view(*b) == dv_end_list(doc_view(*old(b))));
    }
}

/// Pushes a code block.
pub fn view_push_code(b: &mut InternalDocumentBuilder, text: &str, language: Option<&str>) -> (idx: usize)
    requires
        sound_builder(*old(b), old(b).doc.source_format@),
    ensures
        sound_builder(*final(b), old(b).doc.source_format@),
        idx == doc_view(*old(b)).elems.len(),
        doc_view(*final(b)) == dv_push(doc_view(*old(b)), ElementKind::Code, text@, Seq::empty(), match language {
            Some(l) => Some(l@),
            None => None,
        }),
{
    let idx = b.push_code(text, language, None, None);
    proof {
        lemma_map_push(old(b).doc.elements@, b.doc.elements@, |e: InternalElement| elem_view(e));
        lemma_plain_push(old(b).doc.elements@, b.doc.elements@);
        assert(b.doc.elements@.last().annotations@ =~= Seq::<TextAnnotation>::empty());
        assert(anns_view(b.doc.elements@.last().annotations@) =~= Seq::<AnnView>::empty());
    }
    idx
}

proof fn lemma_join_cells_cong(a: Seq<String>, b: Seq<String>)
    requires
        a.len() == b.len(),
        forall|k: int| 0 <= k < a.len() ==> (#[trigger] a[k])@ == b[k]@,
    ensures
        join_cells(a) == join_cells(b),
    decreases a.len(),
{
    if a.len() > 1 {
        lemma_join_cells_cong(a.drop_last(), b.drop_last());
    }
}

proof fn lemma_md_rows_cong(a: Seq<Vec<String>>, b: Seq<Vec<String>>, n: int)
    requires
        0 <= n <= a.len(),
        grid_view(a) == grid_view(b),
    ensures
        md_rows(a, n) == md_rows(b, n),
    decreases n,
{
    assert(a.len() == grid_view(a).len() && b.len() == grid_view(b).len());
    if n > 0 {
        lemma_md_rows_cong(a, b, n - 1);
        let i = n - 1;
        assert(row_view(a[i]) == grid_view(a)[i] && row_view(b[i]) == grid_view(b)[i]);
        assert(a[i]@.len() == row_view(a[i]).len() && b[i]@.len() == row_view(b[i]).len());
        assert forall|k: int| 0 <= k < a[i]@.len() implies (#[trigger] a[i]@[k])@ == b[i]@[k]@ by {
            assert(row_view(a[i])[k] == a[i]@[k]@);
            assert(row_view(b[i])[k] == b[i]@[k]@);
        }
        lemma_join_cells_cong(a[i]@, b[i]@);
        if n == 1 {
            assert(md_row(a[0]@) == md_row(b[0]@));
        }
    }
}

/// Tables with the same cell texts render to the same markdown.
proof fn lemma_table_md_cong(a: Seq<Vec<String>>, b: Seq<Vec<String>>)
    requires
        grid_view(a) == grid_view(b),
    ensures
        table_md(a) == table_md(b),
{
    assert(a.len() == grid_view(a).len() && b.len() == grid_view(b).len());
    lemma_md_rows_cong(a, b, a.len() as int);
}

/// Pushes a table from its cells.
pub fn view_push_table(b: &mut InternalDocumentBuilder, cells: &Vec<Vec<String>>) -> (idx: usize)
    requires
        sound_builder(*old(b), old(b).doc.source_format@),
    ensures
        sound_builder(*final(b), old(b).doc.source_format@),
        idx == doc_view(*old(b)).elems.len(),
        doc_view(*final(b)) == dv_push_table(doc_view(*old(b)), grid_view(cells@)),
{
    let idx = b.push_table_from_cells(cells, None, None);
    proof {
        lemma_map_push(old(b).doc.elements@, b.doc.elements@, |e: InternalElement| elem_view(e));
        lemma_plain_push(old(b).doc.elements@, b.doc.elements@);
        lemma_map_push(old(b).doc.tables@, b.doc.tables@, |t: crate::document::Table| grid_view(t.cells@));
        assert(b.doc.elements@.last().annotations@ =~= Seq::<TextAnnotation>::empty());
        assert(anns_view(b.doc.elements@.last().annotations@) =~= Seq::<AnnView>::empty());
        let t = b.doc.tables@.last();
        assert(grid_view(t.cells@) =~= grid_view(cells@)) by {
            assert forall|k: int| 0 <= k < cells@.len() implies #[trigger] row_view(t.cells@[k]) == row_view(
                cells@[k],
            ) by {
                assert(row_view(t.cells@[k]) =~= row_view(cells@[k]));
            }
        }
        lemma_table_md_cong(t.cells@, cells@);
        assert forall|k: int| 0 <= k < b.doc.tables@.len() implies plain_table(#[trigger] b.doc.tables@[k]) by {
            if k < old(b).doc.tables@.len() {
                assert(b.doc.tables@.drop_last()[k] == b.doc.tables@[k]);
            }
        }
    }
    idx
}

/// Records a relationship.
pub fn view_push_rel(b: &mut InternalDocumentBuilder, source: usize, target: RelationshipTarget, kind: RelationshipKind)
    requires
        sound_builder(*old(b), old(b).doc.source_format@),
    ensures
        sound_builder(*final(b), old(b).doc.source_format@),
        doc_view(*final(b)) == dv_push_rel(doc_view(*old(b)), source, match target {
            RelationshipTarget::Index(i) => TargetView::Index(i),
            RelationshipTarget::Key(k) => TargetView::Key(k@),
        }, kind),
{
    let ghost t = target;
    b.push_relationship(source, target, kind);
    proof {
        lemma_map_push(old(b).doc.relationships@, b.doc.relationships@, |r: Relationship| rel_view(r));
        assert(doc_view(*b).elems =~= doc_view(*old(b)).elems);
        assert(doc_view(*b).tables =~= doc_view(*old(b)).tables);
    }
}

/// Gives element `idx` an anchor.
pub fn view_set_anchor(b: &mut InternalDocumentBuilder, idx: usize, anchor: &str)
    requires
        sound_builder(*old(b), old(b).doc.source_format@),
    ensures
        sound_builder(*final(b), old(b).doc.source_format@),
        doc_view(*final(b)) == dv_set_anchor(doc_view(*old(b)), idx as int, anchor@),
{
    b.set_anchor(idx, anchor);
    proof {
        let ov = doc_view(*old(b));
        let nv = doc_view(*b);
        if idx < old(b).doc.elements@.len() {
            assert(nv.elems =~= ov.elems.update(idx as int, ElemView { anchor: Some(anchor@), ..ov.elems[idx as int] }));
        } else {
            assert(nv.elems =~= ov.elems);
        }
        assert(nv.tables =~= ov.tables);
        assert(nv.rels =~= ov.rels);
        assert forall|k: int| 0 <= k < b.doc.elements@.len() implies plain_element(#[trigger] b.doc.elements@[k]) by {
            assert(plain_element(old(b).doc.elements@[k]));
        }
    }
}

/// The document's view is `v` (with any depth); it has no MIME type and no
/// images, and its elements and tables are those of a source without pages
/// (`plain_element`, `plain_table`).
pub open spec fn document_is(d: InternalDocument, source: Seq<char>, v: DocView) -> bool {
    &&& d.source_format@ == source
    &&& d.mime_type@ == Seq::<char>::empty()
    &&& d.elements@.map_values(|e: InternalElement| elem_view(e)) == v.elems
    &&& d.tables@.map_values(|t: crate::document::Table| grid_view(t.cells@)) == v.tables
    &&& d.relationships@.map_values(|r: Relationship| rel_view(r)) == v.rels
    &&& d.images@.len() == 0
    &&& forall|k: int| 0 <= k < d.elements@.len() ==> plain_element(#[trigger] d.elements@[k])
    &&& forall|k: int| 0 <= k < d.tables@.len() ==> plain_table(#[trigger] d.tables@[k])
}

} // verus!
