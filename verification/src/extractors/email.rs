//! Email messages (.eml, .msg).
use vstd::prelude::*;
use crate::document::{
    attr_value, copy_annotations, metadata_text, pair_views, ContentLayer, ElementKind, InternalDocument,
    InternalDocumentBuilder, InternalElement, TextAnnotation,
};
use crate::error::KreuzbergError;
use crate::render_common::{metadata_block_round_trip, metadata_entries, plain_entry};
use crate::text::{chars_of, lines, push_str, split_exec, split_on, string_of, trim, trim_chars};

verus! {

/// Email message extractor.
pub struct EmailExtractor;

impl EmailExtractor {
    pub fn new() -> (r: Self) {
        EmailExtractor
    }

    /// The plugin's name.
    pub fn name(&self) -> (r: &'static str)
        ensures
            r@ == "email-extractor"@,
    {
        "email-extractor"
    }

    /// Prepares the plugin (nothing to do).
    pub fn initialize(&self) -> (r: Result<(), KreuzbergError>)
        ensures
            r is Ok,
    {
        Ok(())
    }

    /// Releases the plugin (nothing to do).
    pub fn shutdown(&self) -> (r: Result<(), KreuzbergError>)
        ensures
            r is Ok,
    {
        Ok(())
    }

    /// The MIME types this extractor handles.
    pub fn supported_mime_types(&self) -> (r: Vec<&'static str>)
        ensures
            r@.len() == 2,
            r@[0]@ == "message/rfc822"@,
            r@[1]@ == "application/vnd.ms-outlook"@,
    {
        vec!["message/rfc822", "application/vnd.ms-outlook"]
    }

    /// The extractor's priority among those for the same MIME type.
    pub fn priority(&self) -> (r: i32)
        ensures
            r == 50,
    {
        50
    }
}


/// A top-level node of an email's HTML body, as the HTML structure gives it.
pub enum HtmlBodyNode {
    Paragraph { text: String, annotations: Vec<TextAnnotation> },
    Heading { level: u8, text: String },
    /// A list, with the texts of its list-item children.
    List { ordered: bool, items: Vec<String> },
    Code { text: String, language: Option<String> },
    /// Any other node, with its text if it has one.
    Other { text: Option<String>, annotations: Vec<TextAnnotation> },
}

/// What was read from an email message.
pub struct EmailExtractionResult {
    pub subject: Option<String>,
    pub from_email: Option<String>,
    pub to_emails: Vec<String>,
    pub cc_emails: Vec<String>,
    pub bcc_emails: Vec<String>,
    pub date: Option<String>,
    pub message_id: Option<String>,
    /// The plain-text body.
    pub cleaned_text: String,
    /// The top-level nodes of the HTML body, when the message has one.
    pub html_body: Option<Vec<HtmlBodyNode>>,
}

/// The shape of an element: kind, text, depth, annotations and language.
pub type Shape = (ElementKind, Seq<char>, u32, Seq<TextAnnotation>, Option<Seq<char>>);

/// Element `e` is a body element of the given shape, without an anchor.
pub open spec fn has_shape(e: InternalElement, sh: (ElementKind, Seq<char>, u32, Seq<TextAnnotation>, Option<Seq<char>>)) -> bool {
    &&& e.kind == sh.0
    &&& e.text@ == sh.1
    &&& e.depth == sh.2
    &&& e.annotations@ == sh.3
    &&& attr_value(e.attributes@, "language"@) == sh.4
    &&& e.layer == ContentLayer::Body
    &&& e.anchor is None
}

/// Every element has the shape at its position.
pub open spec fn shaped(es: Seq<InternalElement>, shs: Seq<(ElementKind, Seq<char>, u32, Seq<TextAnnotation>, Option<Seq<char>>)>) -> bool {
    &&& es.len() == shs.len()
    &&& forall|k: int| 0 <= k < es.len() ==> has_shape(#[trigger] es[k], shs[k])
}

/// The strings joined by `sep`.
pub open spec fn join_with(strs: Seq<String>, sep: Seq<char>) -> Seq<char>
    decreases strs.len(),
{
    if strs.len() == 0 {
        Seq::empty()
    } else if strs.len() == 1 {
        strs[0]@
    } else {
        join_with(strs.drop_last(), sep) + sep + strs.last()@
    }
}

/// An entry when the value is present.
pub open spec fn opt_entry(key: Seq<char>, v: Option<String>) -> Seq<(Seq<char>, Seq<char>)> {
    match v {
        Some(s) => seq![(key, s@)],
        None => Seq::empty(),
    }
}

/// An entry for a non-empty address list, the addresses joined by `", "`.
pub open spec fn list_entry(key: Seq<char>, v: Seq<String>) -> Seq<(Seq<char>, Seq<char>)> {
    if v.len() > 0 {
        seq![(key, join_with(v, ", "@))]
    } else {
        Seq::empty()
    }
}

/// The header entries shown for an email: subject, sender, recipients, copies, date.
pub open spec fn email_headers(r: EmailExtractionResult) -> Seq<(Seq<char>, Seq<char>)> {
    opt_entry("Subject"@, r.subject) + opt_entry("From"@, r.from_email) + list_entry("To"@, r.to_emails@)
        + list_entry("CC"@, r.cc_emails@) + opt_entry("Date"@, r.date)
}

/// A paragraph of the trimmed text, when it is not blank.
pub open spec fn para_shape(t: Seq<char>, anns: Seq<TextAnnotation>) -> Seq<(ElementKind, Seq<char>, u32, Seq<TextAnnotation>, Option<Seq<char>>)> {
    if trim(t).len() > 0 {
        seq![(ElementKind::Paragraph, trim(t), 0u32, anns, None::<Seq<char>>)]
    } else {
        Seq::empty()
    }
}

/// The list items of a list node, one level deep.
pub open spec fn item_shapes(items: Seq<String>, ordered: bool) -> Seq<(ElementKind, Seq<char>, u32, Seq<TextAnnotation>, Option<Seq<char>>)> {
    items.map_values(|t: String| (ElementKind::ListItem { ordered }, t@, 1u32, Seq::<TextAnnotation>::empty(), None::<Seq<char>>))
}

/// The elements of one HTML body node.
pub open spec fn node_shapes(n: HtmlBodyNode) -> Seq<(ElementKind, Seq<char>, u32, Seq<TextAnnotation>, Option<Seq<char>>)> {
    match n {
        HtmlBodyNode::Paragraph { text, annotations } => para_shape(text@, annotations@),
        HtmlBodyNode::Heading { level, text } => seq![
            (ElementKind::Heading { level }, text@, 0u32, Seq::<TextAnnotation>::empty(), None::<Seq<char>>),
        ],
        HtmlBodyNode::List { ordered, items } => seq![
            (ElementKind::ListStart { ordered }, Seq::<char>::empty(), 0u32, Seq::<TextAnnotation>::empty(), None::<Seq<char>>),
        ] + item_shapes(items@, ordered) + seq![
            (ElementKind::ListEnd, Seq::<char>::empty(), 0u32, Seq::<TextAnnotation>::empty(), None::<Seq<char>>),
        ],
        HtmlBodyNode::Code { text, language } => seq![
            (ElementKind::Code, text@, 0u32, Seq::<TextAnnotation>::empty(), match language {
                Some(l) => Some(l@),
                None => None::<Seq<char>>,
            }),
        ],
        HtmlBodyNode::Other { text, annotations } => match text {
            Some(t) => para_shape(t@, annotations@),
            None => Seq::empty(),
        },
    }
}

/// The elements of the first `n` HTML body nodes.
pub open spec fn nodes_shapes(ns: Seq<HtmlBodyNode>, n: int) -> Seq<(ElementKind, Seq<char>, u32, Seq<TextAnnotation>, Option<Seq<char>>)>
    decreases n,
{
    if n <= 0 {
        Seq::empty()
    } else {
        nodes_shapes(ns, n - 1) + node_shapes(ns[n - 1])
    }
}

/// Paragraphs of the non-blank pieces.
pub open spec fn pieces_shapes(ps: Seq<Seq<char>>) -> Seq<(ElementKind, Seq<char>, u32, Seq<TextAnnotation>, Option<Seq<char>>)>
    decreases ps.len(),
{
    if ps.len() == 0 {
        Seq::empty()
    } else {
        pieces_shapes(ps.drop_last()) + para_shape(ps.last(), Seq::empty())
    }
}

/// The elements of an email document: the headers as a metadata block, then
/// the HTML body's nodes, or else the plain body's blank-line-separated paragraphs.
pub open spec fn email_shapes(r: EmailExtractionResult) -> Seq<(ElementKind, Seq<char>, u32, Seq<TextAnnotation>, Option<Seq<char>>)> {
    let hs = email_headers(r);
    (if hs.len() > 0 {
        seq![(ElementKind::MetadataBlock, metadata_text(hs), 0u32, Seq::<TextAnnotation>::empty(), None::<Seq<char>>)]
    } else {
        Seq::empty()
    }) + match r.html_body {
        Some(ns) => nodes_shapes(ns@, ns@.len() as int),
        None => pieces_shapes(split_on(r.cleaned_text@, "\n\n"@)),
    }
}

/// The builder is at depth 0 and holds exactly elements of the given shapes.
pub open spec fn email_builder(b: InternalDocumentBuilder, shs: Seq<(ElementKind, Seq<char>, u32, Seq<TextAnnotation>, Option<Seq<char>>)>) -> bool {
    &&& b.depth == 0
    &&& b.doc.source_format@ == "email"@
    &&& b.doc.mime_type@ == Seq::<char>::empty()
    &&& shaped(b.doc.elements@, shs)
    &&& b.doc.tables@.len() == 0
    &&& b.doc.images@.len() == 0
    &&& b.doc.relationships@.len() == 0
}

proof fn lemma_shaped_push(es: Seq<InternalElement>, shs: Seq<(ElementKind, Seq<char>, u32, Seq<TextAnnotation>, Option<Seq<char>>)>, e: InternalElement, sh: (ElementKind, Seq<char>, u32, Seq<TextAnnotation>, Option<Seq<char>>))
    requires
        shaped(es, shs),
        has_shape(e, sh),
    ensures
        shaped(es.push(e), shs.push(sh)),
{
    assert forall|k: int| 0 <= k < es.len() + 1 implies has_shape(#[trigger] es.push(e)[k], shs.push(sh)[k]) by {
        if k < es.len() {
            assert(es.push(e)[k] == es[k]);
        }
    }
}

proof fn lemma_plain_shape(e: InternalElement)
    requires
        e.annotations@.len() == 0,
    ensures
        e.annotations@ == Seq::<TextAnnotation>::empty(),
        e.attributes@.len() == 0 ==> attr_value(e.attributes@, "language"@) is None,
{
    assert(e.annotations@ =~= Seq::<TextAnnotation>::empty());
}

fn join_exec(strs: &Vec<String>, sep: &str) -> (r: String)
    ensures
        r@ == join_with(strs@, sep@),
{
    let mut r = String::new();
    let mut i: usize = 0;
    assert(strs@.take(0) =~= Seq::<String>::empty());
    while i < strs.len()
        invariant
            i <= strs@.len(),
            r@ == join_with(strs@.take(i as int), sep@),
        decreases strs.len() - i,
    {
        assert(strs@.take(i + 1).drop_last() =~= strs@.take(i as int));
        if i > 0 {
            push_str(&mut r, sep);
        }
        push_str(&mut r, strs[i].as_str());
        i += 1;
        assert(r@ =~= join_with(strs@.take(i as int), sep@));
    }
    assert(strs@.take(strs@.len() as int) =~= strs@);
    r
}

fn header_entries(r: &EmailExtractionResult) -> (es: Vec<(String, String)>)
    ensures
        pair_views(es@) == email_headers(*r),
{
    let mut es: Vec<(String, String)> = Vec::new();
    match &r.subject {
        Some(s) => es.push((String::from_str("Subject"), s.clone())),
        None => {},
    }
    let ghost e1 = es@;
    match &r.from_email {
        Some(s) => es.push((String::from_str("From"), s.clone())),
        None => {},
    }
    let ghost e2 = es@;
    if r.to_emails.len() > 0 {
        es.push((String::from_str("To"), join_exec(&r.to_emails, ", ")));
    }
    let ghost e3 = es@;
    if r.cc_emails.len() > 0 {
        es.push((String::from_str("CC"), join_exec(&r.cc_emails, ", ")));
    }
    let ghost e4 = es@;
    match &r.date {
        Some(s) => es.push((String::from_str("Date"), s.clone())),
        None => {},
    }
    proof {
        assert(pair_views(e1) =~= opt_entry("Subject"@, r.subject));
        assert(pair_views(e2) =~= opt_entry("Subject"@, r.subject) + opt_entry("From"@, r.from_email));
        assert(pair_views(e3) =~= opt_entry("Subject"@, r.subject) + opt_entry("From"@, r.from_email) + list_entry(
            "To"@,
            r.to_emails@,
        ));
        assert(pair_views(e4) =~= opt_entry("Subject"@, r.subject) + opt_entry("From"@, r.from_email) + list_entry(
            "To"@,
            r.to_emails@,
        ) + list_entry("CC"@, r.cc_emails@));
        assert(pair_views(es@) =~= email_headers(*r));
    }
    es
}

fn push_para(b: &mut InternalDocumentBuilder, t: &String, anns: &Vec<TextAnnotation>, Ghost(shs): Ghost<Seq<(ElementKind, Seq<char>, u32, Seq<TextAnnotation>, Option<Seq<char>>)>>)
    requires
        email_builder(*old(b), shs),
    ensures
        email_builder(*final(b), shs + para_shape(t@, anns@)),
{
    let tv = chars_of(t.as_str());
    let tt = trim_chars(&tv);
    if tt.len() > 0 {
        let ts = string_of(&tt);
        let a = copy_annotations(anns);
        let ghost before = b.doc.elements@;
        b.push_paragraph(ts.as_str(), a, None, None);
        proof {
            assert(b.doc.elements@ == before.push(b.doc.elements@.last()));
            lemma_shaped_push(before, shs, b.doc.elements@.last(), (ElementKind::Paragraph, trim(t@), 0u32, anns@, None));
            assert(shs.push((ElementKind::Paragraph, trim(t@), 0u32, anns@, None)) =~= shs + para_shape(t@, anns@));
        }
    } else {
        assert(shs + para_shape(t@, anns@) =~= shs);
    }
}

fn push_list_node(b: &mut InternalDocumentBuilder, ordered: bool, items: &Vec<String>, Ghost(shs): Ghost<Seq<(ElementKind, Seq<char>, u32, Seq<TextAnnotation>, Option<Seq<char>>)>>)
    requires
        email_builder(*old(b), shs),
    ensures
        email_builder(*final(b), shs + node_shapes(HtmlBodyNode::List { ordered, items: *items })),
{
    let ghost before = b.doc.elements@;
    b.push_list(ordered);
    let ghost start = (ElementKind::ListStart { ordered }, Seq::<char>::empty(), 0u32, Seq::<TextAnnotation>::empty(), None::<Seq<char>>);
    proof {
        assert(b.doc.elements@ == before.push(b.doc.elements@.last()));
        lemma_plain_shape(b.doc.elements@.last());
        lemma_shaped_push(before, shs, b.doc.elements@.last(), start);
    }
    let ghost base = shs.push(start);
    let mut i: usize = 0;
    assert(item_shapes(items@, ordered).take(0) =~= Seq::<(ElementKind, Seq<char>, u32, Seq<TextAnnotation>, Option<Seq<char>>)>::empty());
    while i < items.len()
        invariant
            i <= items@.len(),
            b.depth == 1,
            b.doc.source_format@ == "email"@,
            b.doc.mime_type@ == Seq::<char>::empty(),
            shaped(b.doc.elements@, base + item_shapes(items@, ordered).take(i as int)),
            b.doc.tables@.len() == 0,
            b.doc.images@.len() == 0,
            b.doc.relationships@.len() == 0,
        decreases items.len() - i,
    {
        let ghost prev = b.doc.elements@;
        b.push_list_item(items[i].as_str(), ordered, Vec::new(), None, None);
        proof {
            let sh = (ElementKind::ListItem { ordered }, items@[i as int]@, 1u32, Seq::<TextAnnotation>::empty(), None::<Seq<char>>);
            assert(b.doc.elements@ == prev.push(b.doc.elements@.last()));
            lemma_plain_shape(b.doc.elements@.last());
            lemma_shaped_push(prev, base + item_shapes(items@, ordered).take(i as int), b.doc.elements@.last(), sh);
            assert(base + item_shapes(items@, ordered).take(i + 1) =~= (base + item_shapes(items@, ordered).take(i as int)).push(sh));
        }
        i += 1;
    }
    let ghost mid = b.doc.elements@;
    b.end_list();
    proof {
        let end = (ElementKind::ListEnd, Seq::<char>::empty(), 0u32, Seq::<TextAnnotation>::empty(), None::<Seq<char>>);
        assert(item_shapes(items@, ordered).take(items@.len() as int) =~= item_shapes(items@, ordered));
        assert(b.doc.elements@ == mid.push(b.doc.elements@.last()));
        lemma_plain_shape(b.doc.elements@.last());
        lemma_shaped_push(mid, base + item_shapes(items@, ordered), b.doc.elements@.last(), end);
        assert((base + item_shapes(items@, ordered)).push(end) =~= shs + node_shapes(HtmlBodyNode::List { ordered, items: *items }));
    }
}

fn push_node(b: &mut InternalDocumentBuilder, n: &HtmlBodyNode, Ghost(shs): Ghost<Seq<(ElementKind, Seq<char>, u32, Seq<TextAnnotation>, Option<Seq<char>>)>>)
    requires
        email_builder(*old(b), shs),
    ensures
        email_builder(*final(b), shs + node_shapes(*n)),
{
    match n {
        HtmlBodyNode::Paragraph { text, annotations } => push_para(b, text, annotations, Ghost(shs)),
        HtmlBodyNode::Heading { level, text } => {
            let ghost before = b.doc.elements@;
            b.push_heading(*level, text.as_str(), None, None);
            proof {
                let sh = (ElementKind::Heading { level: *level }, text@, 0u32, Seq::<TextAnnotation>::empty(), None::<Seq<char>>);
                assert(b.doc.elements@ == before.push(b.doc.elements@.last()));
                lemma_plain_shape(b.doc.elements@.last());
                lemma_shaped_push(before, shs, b.doc.elements@.last(), sh);
                assert(shs.push(sh) =~= shs + node_shapes(*n));
            }
        },
        HtmlBodyNode::List { ordered, items } => push_list_node(b, *ordered, items, Ghost(shs)),
        HtmlBodyNode::Code { text, language } => {
            let ghost before = b.doc.elements@;
            match language {
                Some(l) => {
                    b.push_code(text.as_str(), Some(l.as_str()), None, None);
                },
                None => {
                    b.push_code(text.as_str(), None, None, None);
                },
            }
            proof {
                let sh = node_shapes(*n)[0];
                assert(b.doc.elements@ == before.push(b.doc.elements@.last()));
                lemma_plain_shape(b.doc.elements@.last());
                lemma_shaped_push(before, shs, b.doc.elements@.last(), sh);
                assert(shs.push(sh) =~= shs + node_shapes(*n));
            }
        },
        HtmlBodyNode::Other { text, annotations } => match text {
            Some(t) => push_para(b, t, annotations, Ghost(shs)),
            None => {
                assert(shs + node_shapes(*n) =~= shs);
            },
        },
    }
}

pub open spec fn present(b: bool) -> int {
    if b {
        1
    } else {
        0
    }
}

/// Every header an email has is shown, in the order subject, sender,
/// recipients, copies, date: one entry per present field (an address list is
/// present when it is not empty, and shows its addresses joined by `", "`),
/// and no other.
pub proof fn email_headers_show_every_field(r: EmailExtractionResult)
    ensures
        ({
            let hs = email_headers(r);
            let ns = present(r.subject is Some);
            let nf = present(r.from_email is Some);
            let nt = present(r.to_emails@.len() > 0);
            let nc = present(r.cc_emails@.len() > 0);
            let nd = present(r.date is Some);
            &&& hs.len() == ns + nf + nt + nc + nd
            &&& r.subject matches Some(v) ==> hs[0] == ("Subject"@, v@)
            &&& r.from_email matches Some(v) ==> hs[ns] == ("From"@, v@)
            &&& r.to_emails@.len() > 0 ==> hs[ns + nf] == ("To"@, join_with(r.to_emails@, ", "@))
            &&& r.cc_emails@.len() > 0 ==> hs[ns + nf + nt] == ("CC"@, join_with(r.cc_emails@, ", "@))
            &&& r.date matches Some(v) ==> hs[ns + nf + nt + nc] == ("Date"@, v@)
        }),
{
    let a = opt_entry("Subject"@, r.subject);
    let b = opt_entry("From"@, r.from_email);
    let c = list_entry("To"@, r.to_emails@);
    let d = list_entry("CC"@, r.cc_emails@);
    let e = opt_entry("Date"@, r.date);
    let hs = email_headers(r);
    assert(hs == a + b + c + d + e);
    assert(a.len() == present(r.subject is Some));
    assert(b.len() == present(r.from_email is Some));
    assert(c.len() == present(r.to_emails@.len() > 0));
    assert(d.len() == present(r.cc_emails@.len() > 0));
    assert(e.len() == present(r.date is Some));
    if a.len() > 0 {
        assert(hs[0] == a[0]);
    }
    if b.len() > 0 {
        assert(hs[a.len() as int] == b[0]);
    }
    if c.len() > 0 {
        assert(hs[(a.len() + b.len()) as int] == c[0]);
    }
    if d.len() > 0 {
        assert(hs[(a.len() + b.len() + c.len()) as int] == d[0]);
    }
    if e.len() > 0 {
        assert(hs[(a.len() + b.len() + c.len() + d.len()) as int] == e[0]);
    }
}

/// A header value that a metadata line carries unchanged: no line break in
/// it, and no carriage return at its end (`str::lines` would drop that).
pub open spec fn line_safe(v: Seq<char>) -> bool {
    &&& forall|k: int| 0 <= k < v.len() ==> v[k] != '\n'
    &&& (v.len() == 0 || v[v.len() - 1] != '\r')
}

pub open spec fn opt_line_safe(v: Option<String>) -> bool {
    match v {
        Some(s) => line_safe(s@),
        None => true,
    }
}

/// Every header value of the email, address lists joined, is `line_safe`.
pub open spec fn headers_line_safe(r: EmailExtractionResult) -> bool {
    &&& opt_line_safe(r.subject)
    &&& opt_line_safe(r.from_email)
    &&& (r.to_emails@.len() > 0 ==> line_safe(join_with(r.to_emails@, ", "@)))
    &&& (r.cc_emails@.len() > 0 ==> line_safe(join_with(r.cc_emails@, ", "@)))
    &&& opt_line_safe(r.date)
}

proof fn lemma_key_plain(key: Seq<char>, v: Seq<char>)
    requires
        line_safe(v),
        key == "Subject"@ || key == "From"@ || key == "To"@ || key == "CC"@ || key == "Date"@,
    ensures
        plain_entry((key, v)),
{
    reveal(plain_entry);
    reveal_strlit("Subject");
    reveal_strlit("From");
    reveal_strlit("To");
    reveal_strlit("CC");
    reveal_strlit("Date");
    reveal_strlit(": ");
    assert forall|j: int| !crate::text::occurs_at(key, ": "@, j) by {
        if crate::text::occurs_at(key, ": "@, j) {
            assert(key.subrange(j, j + 2)[1] == ' ');
            assert(key[j + 1] == ' ');
        }
    }
}

/// The headers of an email read back from its metadata block: when every
/// header value is `line_safe`, the entries found in the block's text are the
/// headers, in order (subject, sender, recipients, copies, date, each when
/// present).  The block opens the document when there is a header, and no
/// element of the document is a metadata block when there is none.
pub proof fn email_headers_read_back(r: EmailExtractionResult)
    requires
        headers_line_safe(r),
    ensures
        metadata_entries(lines(metadata_text(email_headers(r)))) == email_headers(r),
        email_headers(r).len() > 0 ==> email_shapes(r)[0] == (
            ElementKind::MetadataBlock,
            metadata_text(email_headers(r)),
            0u32,
            Seq::<TextAnnotation>::empty(),
            None::<Seq<char>>,
        ),
        email_headers(r).len() == 0 ==> forall|k: int|
            0 <= k < email_shapes(r).len() ==> (#[trigger] email_shapes(r)[k]).0 != ElementKind::MetadataBlock,
{
    let hs = email_headers(r);
    let a = opt_entry("Subject"@, r.subject);
    let b = opt_entry("From"@, r.from_email);
    let c = list_entry("To"@, r.to_emails@);
    let d = list_entry("CC"@, r.cc_emails@);
    let e = opt_entry("Date"@, r.date);
    assert forall|k: int| 0 <= k < hs.len() implies plain_entry(#[trigger] hs[k]) by {
        let x = hs[k];
        if k < a.len() {
            assert(x == a[k]);
            lemma_key_plain(x.0, x.1);
        } else if k < a.len() + b.len() {
            assert(x == b[k - a.len()]);
            lemma_key_plain(x.0, x.1);
        } else if k < a.len() + b.len() + c.len() {
            assert(x == c[k - a.len() - b.len()]);
            lemma_key_plain(x.0, x.1);
        } else if k < a.len() + b.len() + c.len() + d.len() {
            assert(x == d[k - a.len() - b.len() - c.len()]);
            lemma_key_plain(x.0, x.1);
        } else {
            assert(x == e[k - a.len() - b.len() - c.len() - d.len()]);
            lemma_key_plain(x.0, x.1);
        }
    }
    metadata_block_round_trip(hs);
    if hs.len() == 0 {
        let body = match r.html_body {
            Some(ns) => nodes_shapes(ns@, ns@.len() as int),
            None => pieces_shapes(split_on(r.cleaned_text@, "\n\n"@)),
        };
        assert(email_shapes(r) =~= body);
        match r.html_body {
            Some(ns) => lemma_nodes_no_meta(ns@, ns@.len() as int),
            None => lemma_pieces_no_meta(split_on(r.cleaned_text@, "\n\n"@)),
        }
    }
}

proof fn lemma_nodes_no_meta(ns: Seq<HtmlBodyNode>, n: int)
    requires
        n <= ns.len(),
    ensures
        forall|k: int|
            0 <= k < nodes_shapes(ns, n).len() ==> (#[trigger] nodes_shapes(ns, n)[k]).0 != ElementKind::MetadataBlock,
    decreases n,
{
    if n > 0 {
        lemma_nodes_no_meta(ns, n - 1);
        let p = nodes_shapes(ns, n - 1);
        let q = node_shapes(ns[n - 1]);
        assert forall|k: int| 0 <= k < q.len() implies (#[trigger] q[k]).0 != ElementKind::MetadataBlock by {
            match ns[n - 1] {
                HtmlBodyNode::List { ordered, items } => {
                    let is = item_shapes(items@, ordered);
                    if 1 <= k < 1 + is.len() {
                        assert(q[k] == is[k - 1]);
                    }
                },
                _ => {},
            }
        }
        assert forall|k: int| 0 <= k < (p + q).len() implies (#[trigger] (p + q)[k]).0 != ElementKind::MetadataBlock by {
            if k >= p.len() {
                assert((p + q)[k] == q[k - p.len()]);
            }
        }
    }
}

proof fn lemma_pieces_no_meta(ps: Seq<Seq<char>>)
    ensures
        forall|k: int| 0 <= k < pieces_shapes(ps).len() ==> (#[trigger] pieces_shapes(ps)[k]).0 == ElementKind::Paragraph,
    decreases ps.len(),
{
    if ps.len() > 0 {
        lemma_pieces_no_meta(ps.drop_last());
        let p = pieces_shapes(ps.drop_last());
        let q = para_shape(ps.last(), Seq::empty());
        assert forall|k: int| 0 <= k < (p + q).len() implies (#[trigger] (p + q)[k]).0 == ElementKind::Paragraph by {
            if k >= p.len() {
                assert((p + q)[k] == q[k - p.len()]);
            }
        }
    }
}

/// The non-blank pieces, trimmed.
pub open spec fn nonblank_trimmed(ps: Seq<Seq<char>>) -> Seq<Seq<char>> {
    ps.map_values(|t: Seq<char>| trim(t)).filter(|t: Seq<char>| t.len() > 0)
}

/// An email without an HTML body has, after its header block, exactly one
/// paragraph for each non-blank blank-line-separated piece of its cleaned
/// text, holding that piece trimmed, in order.
pub proof fn plain_email_body_is_paragraphs(ps: Seq<Seq<char>>)
    ensures
        pieces_shapes(ps).len() == nonblank_trimmed(ps).len(),
        forall|k: int|
            0 <= k < pieces_shapes(ps).len() ==> (#[trigger] pieces_shapes(ps)[k]).0 == ElementKind::Paragraph
                && pieces_shapes(ps)[k].1 == nonblank_trimmed(ps)[k],
    decreases ps.len(),
{
    reveal(Seq::filter);
    lemma_pieces_no_meta(ps);
    if ps.len() > 0 {
        let d = ps.drop_last();
        plain_email_body_is_paragraphs(d);
        let f = |t: Seq<char>| trim(t);
        assert(ps.map_values(f).drop_last() =~= d.map_values(f));
        assert(ps.map_values(f).last() == trim(ps.last()));
        let p = pieces_shapes(d);
        let q = para_shape(ps.last(), Seq::empty());
        assert forall|k: int| 0 <= k < (p + q).len() implies (#[trigger] (p + q)[k]).1 == nonblank_trimmed(ps)[k] by {
            if k >= p.len() {
                assert((p + q)[k] == q[k - p.len()]);
            } else {
                assert((p + q)[k] == p[k]);
            }
        }
    } else {
        assert(nonblank_trimmed(ps) =~= Seq::<Seq<char>>::empty());
    }
}

impl EmailExtractor {
    /// The document of an email: its headers as a metadata block,
    /// then its HTML body's nodes, or its plain body's paragraphs.
    pub fn build_internal_document(r: &EmailExtractionResult) -> (doc: InternalDocument)
        ensures
            doc.source_format@ == "email"@,
            doc.mime_type@ == Seq::<char>::empty(),
            shaped(doc.elements@, email_shapes(*r)),
            doc.tables@.len() == 0,
            doc.images@.len() == 0,
            doc.relationships@.len() == 0,
    {
        let mut b = InternalDocumentBuilder::new("email");
        let es = header_entries(r);
        let ghost hs = email_headers(*r);
        let ghost head: Seq<(ElementKind, Seq<char>, u32, Seq<TextAnnotation>, Option<Seq<char>>)> = if hs.len() > 0 {
            seq![(ElementKind::MetadataBlock, metadata_text(hs), 0u32, Seq::<TextAnnotation>::empty(), None::<Seq<char>>)]
        } else {
            Seq::empty()
        };
        if es.len() > 0 {
            b.push_metadata_block(&es, None);
            proof {
                assert(b.doc.elements@ == Seq::<InternalElement>::empty().push(b.doc.elements@.last()));
                lemma_plain_shape(b.doc.elements@.last());
                lemma_shaped_push(Seq::empty(), Seq::empty(), b.doc.elements@.last(), head[0]);
                assert(Seq::<(ElementKind, Seq<char>, u32, Seq<TextAnnotation>, Option<Seq<char>>)>::empty().push(head[0]) =~= head);
            }
        }
        match &r.html_body {
            Some(nodes) => {
                let mut i: usize = 0;
                while i < nodes.len()
                    invariant
                        i <= nodes@.len(),
                        email_builder(b, head + nodes_shapes(nodes@, i as int)),
                    decreases nodes.len() - i,
                {
                    push_node(&mut b, &nodes[i], Ghost(head + nodes_shapes(nodes@, i as int)));
                    i += 1;
                    assert(head + nodes_shapes(nodes@, i as int) =~= head + nodes_shapes(nodes@, i - 1) + node_shapes(nodes@[i - 1]));
                }
            },
            None => {
                let v = chars_of(r.cleaned_text.as_str());
                let sep = chars_of("\n\n");
                proof {
                    reveal_strlit("\n\n");
                }
                let parts = split_exec(&v, &sep);
                let ghost ps = split_on(r.cleaned_text@, "\n\n"@);
                let mut i: usize = 0;
                assert(ps.take(0) =~= Seq::<Seq<char>>::empty());
                assert(head + pieces_shapes(ps.take(0)) =~= head);
                while i < parts.len()
                    invariant
                        i <= parts@.len() == ps.len(),
                        ps == split_on(r.cleaned_text@, "\n\n"@),
                        forall|k: int| 0 <= k < parts@.len() ==> #[trigger] parts@[k]@ == ps[k],
                        email_builder(b, head + pieces_shapes(ps.take(i as int))),
                    decreases parts.len() - i,
                {
                    let piece = string_of(&parts[i]);
                    let none: Vec<TextAnnotation> = Vec::new();
                    push_para(&mut b, &piece, &none, Ghost(head + pieces_shapes(ps.take(i as int))));
                    proof {
                        assert(ps.take(i + 1).drop_last() =~= ps.take(i as int));
                        assert(none@ =~= Seq::<TextAnnotation>::empty());
                        assert(head + pieces_shapes(ps.take(i + 1)) =~= head + pieces_shapes(ps.take(i as int)) + para_shape(piece@, none@));
                    }
                    i += 1;
                }
                assert(ps.take(ps.len() as int) =~= ps);
            },
        }
        b.build()
    }
}

} // verus!
