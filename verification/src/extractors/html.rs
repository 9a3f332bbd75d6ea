//! HTML documents.
use vstd::prelude::*;
use html_to_markdown_rs::{convert, ConversionError, ConversionOptions, HtmlMetadata, InlineImageFormat as F};
use crate::doc_view::{ann_view, anns_view, AnnView};
use crate::document::{copy_kind, Table, TextAnnotation};
use crate::error::KreuzbergError;
use crate::text::{
    chars_of, find_exec, find_from, has_char, is_whitespace, is_ws, join_seqs, lemma_find_from,
    lemma_split_step_none, lemma_split_step_some, split_on,
    lower_chars, lower_seq, occurs_at, replace_all, replace_exec, skip_ws, slice_vec, trim_start,
    trim_start_index, extend_str,
};

verus! {

use ImageFormatKind as K;

/// Html extractor.
pub struct HtmlExtractor;

impl HtmlExtractor {
    pub fn new() -> (r: Self) {
        HtmlExtractor
    }

    /// The plugin's name.
    pub fn name(&self) -> (r: &'static str)
        ensures
            r@ == "html-extractor"@,
    {
        "html-extractor"
    }

    /// Prepares the plugin (nothing to do).
    pub fn initialize(&self) -> (r: Result<(), KreuzbergError>)
        ensures
            r is Ok,
    {
        Ok(())
    }

    /// Releases the plugin (nothing to do).
    pub fn shutdown(&self) -> (r: Result<(), KreuzbergError>)
        ensures
            r is Ok,
    {
        Ok(())
    }

    /// The MIME types this extractor handles.
    pub fn supported_mime_types(&self) -> (r: Vec<&'static str>)
        ensures
            r@.len() == 2,
            r@[0]@ == "text/html"@,
            r@[1]@ == "application/xhtml+xml"@,
    {
        vec!["text/html", "application/xhtml+xml"]
    }

    /// The extractor's priority among those for the same MIME type.
    pub fn priority(&self) -> (r: i32)
        ensures
            r == 50,
    {
        50
    }
}

// ---------------------------------------------------------------------------
// Entities and attributes
// ---------------------------------------------------------------------------
/// `decode_html_entities`: the common named entities and `&#39;` replaced,
/// one after the other (`&amp;` first).
pub open spec fn decode_entities(s: Seq<char>) -> Seq<char> {
    replace_all(
        replace_all(
            replace_all(
                replace_all(
                    replace_all(replace_all(replace_all(s, "&amp;"@, "&"@), "&lt;"@, "<"@), "&gt;"@, ">"@),
                    "&quot;"@,
                    "\""@,
                ),
                "&#39;"@,
                "'"@,
            ),
            "&apos;"@,
            "'"@,
        ),
        "&nbsp;"@,
        " "@,
    )
}

proof fn lemma_replace_absent(s: Seq<char>, p: Seq<char>, r: Seq<char>)
    requires
        p.len() > 0,
        p[0] == '&',
        !has_char(s, '&'),
    ensures
        replace_all(s, p, r) == s,
{
    assert forall|k: int| 0 <= k implies !occurs_at(s, p, k) by {
        if occurs_at(s, p, k) {
            assert(s.subrange(k, k + p.len())[0] == s[k]);
        }
    }
    lemma_split_step_none(s, p, 0);
    assert(s.skip(0) =~= s);
    assert(s.subrange(0, s.len() as int) =~= s);
}

/// Decoding entities leaves a text without `&` as it is.
pub proof fn decoding_without_ampersand_is_identity(s: Seq<char>)
    requires
        !has_char(s, '&'),
    ensures
        decode_entities(s) == s,
{
    reveal_strlit("&amp;");
    reveal_strlit("&lt;");
    reveal_strlit("&gt;");
    reveal_strlit("&quot;");
    reveal_strlit("&#39;");
    reveal_strlit("&apos;");
    reveal_strlit("&nbsp;");
    lemma_replace_absent(s, "&amp;"@, "&"@);
    lemma_replace_absent(s, "&lt;"@, "<"@);
    lemma_replace_absent(s, "&gt;"@, ">"@);
    lemma_replace_absent(s, "&quot;"@, "\""@);
    lemma_replace_absent(s, "&#39;"@, "'"@);
    lemma_replace_absent(s, "&apos;"@, "'"@);
    lemma_replace_absent(s, "&nbsp;"@, " "@);
}

proof fn lemma_replace_none(x: Seq<char>, q: Seq<char>, r: Seq<char>)
    requires
        q.len() > 0,
        forall|k: int| 0 <= k ==> !occurs_at(x, q, k),
    ensures
        replace_all(x, q, r) == x,
{
    lemma_split_step_none(x, q, 0);
    assert(x.skip(0) =~= x);
    assert(x.subrange(0, x.len() as int) =~= x);
}

/// No `&` pattern occurs in `a + e + b` but possibly where `e` begins, and
/// not there either when `q` and `e` differ at `j`.
proof fn lemma_other_entity(a: Seq<char>, e: Seq<char>, b: Seq<char>, q: Seq<char>, j: int)
    requires
        !has_char(a, '&'),
        !has_char(b, '&'),
        q.len() > 0,
        q[0] == '&',
        1 <= j < e.len(),
        j < q.len(),
        q[j] != e[j],
        forall|i: int| 1 <= i < e.len() ==> e[i] != '&',
    ensures
        forall|k: int| 0 <= k ==> !occurs_at(a + e + b, q, k),
{
    let x = a + e + b;
    assert forall|k: int| 0 <= k implies !occurs_at(x, q, k) by {
        if occurs_at(x, q, k) {
            assert(x.subrange(k, k + q.len())[0] == x[k]);
            assert(x[k] == '&');
            if k < a.len() {
                assert(x[k] == a[k]);
            } else if k == a.len() {
                assert(x.subrange(k, k + q.len())[j] == x[k + j]);
                assert(x[k + j] == e[j]);
            } else if k < a.len() + e.len() {
                assert(x[k] == e[k - a.len()]);
            } else {
                assert(x[k] == b[k - a.len() - e.len()]);
            }
        }
    }
}

/// `a + p + b` with `p` replaced by `r`, when only `p` holds an `&`.
proof fn lemma_replace_entity(a: Seq<char>, p: Seq<char>, b: Seq<char>, r: Seq<char>)
    requires
        !has_char(a, '&'),
        !has_char(b, '&'),
        p.len() > 0,
        p[0] == '&',
    ensures
        replace_all(a + p + b, p, r) == a + r + b,
{
    let x = a + p + b;
    let k = a.len() as int;
    assert(x.subrange(k, k + p.len()) =~= p);
    assert forall|i: int| 0 <= i < k implies !occurs_at(x, p, i) by {
        if occurs_at(x, p, i) {
            assert(x.subrange(i, i + p.len())[0] == x[i]);
            assert(x[i] == a[i]);
        }
    }
    lemma_split_step_some(x, p, 0, k);
    assert(x.skip(0) =~= x);
    let m = k + p.len();
    assert forall|i: int| m <= i implies !occurs_at(x, p, i) by {
        if occurs_at(x, p, i) {
            assert(x.subrange(i, i + p.len())[0] == x[i]);
            assert(x[i] == b[i - m]);
        }
    }
    lemma_split_step_none(x, p, m);
    assert(x.subrange(0, k) =~= a);
    assert(x.subrange(m, x.len() as int) =~= b);
    assert(split_on(x, p) =~= seq![a, b]);
    assert(join_seqs(seq![a, b], r) == join_seqs(seq![a, b].drop_last(), r) + r + b);
    assert(seq![a, b].drop_last() =~= seq![a]);
}

proof fn lemma_no_amp_concat(a: Seq<char>, c: Seq<char>, b: Seq<char>)
    requires
        !has_char(a, '&'),
        !has_char(b, '&'),
        !has_char(c, '&'),
    ensures
        !has_char(a + c + b, '&'),
{
    let x = a + c + b;
    assert forall|i: int| 0 <= i < x.len() implies x[i] != '&' by {
        if i < a.len() {
            assert(x[i] == a[i]);
        } else if i < a.len() + c.len() {
            assert(x[i] == c[i - a.len()]);
        } else {
            assert(x[i] == b[i - a.len() - c.len()]);
        }
    }
}

/// Decoding turns each named entity, and `&#39;`, into its character: a text
/// whose only `&` begins one of `&lt;`, `&gt;`, `&quot;`, `&#39;`, `&apos;`
/// or `&nbsp;` decodes to the text with that entity replaced by `<`, `>`,
/// `"`, `'`, `'` or a space; and `&amp;` becomes `&` when no `;` follows it
/// (so that it cannot begin another entity).
pub proof fn decoding_replaces_each_entity(a: Seq<char>, b: Seq<char>)
    requires
        !has_char(a, '&'),
        !has_char(b, '&'),
    ensures
        decode_entities(a + "&lt;"@ + b) == a + "<"@ + b,
        decode_entities(a + "&gt;"@ + b) == a + ">"@ + b,
        decode_entities(a + "&quot;"@ + b) == a + "\""@ + b,
        decode_entities(a + "&#39;"@ + b) == a + "'"@ + b,
        decode_entities(a + "&apos;"@ + b) == a + "'"@ + b,
        decode_entities(a + "&nbsp;"@ + b) == a + " "@ + b,
        !has_char(b, ';') ==> decode_entities(a + "&amp;"@ + b) == a + "&"@ + b,
{
    reveal_strlit("&amp;");
    reveal_strlit("&lt;");
    reveal_strlit("&gt;");
    reveal_strlit("&quot;");
    reveal_strlit("&#39;");
    reveal_strlit("&apos;");
    reveal_strlit("&nbsp;");
    reveal_strlit("<");
    reveal_strlit(">");
    reveal_strlit("\"");
    reveal_strlit("'");
    reveal_strlit(" ");
    reveal_strlit("&");
    lemma_decode_one(a, b, "&lt;"@, "<"@, 1);
    lemma_decode_one(a, b, "&gt;"@, ">"@, 2);
    lemma_decode_one(a, b, "&quot;"@, "\""@, 3);
    lemma_decode_one(a, b, "&#39;"@, "'"@, 4);
    lemma_decode_one(a, b, "&apos;"@, "'"@, 5);
    lemma_decode_one(a, b, "&nbsp;"@, " "@, 6);
    if !has_char(b, ';') {
        lemma_decode_amp(a, b);
    }
}

/// The entity patterns, in the order decoding applies them.
pub open spec fn entity_pattern(i: int) -> Seq<char> {
    if i == 0 {
        "&amp;"@
    } else if i == 1 {
        "&lt;"@
    } else if i == 2 {
        "&gt;"@
    } else if i == 3 {
        "&quot;"@
    } else if i == 4 {
        "&#39;"@
    } else if i == 5 {
        "&apos;"@
    } else {
        "&nbsp;"@
    }
}

pub open spec fn entity_char(i: int) -> Seq<char> {
    if i == 0 {
        "&"@
    } else if i == 1 {
        "<"@
    } else if i == 2 {
        ">"@
    } else if i == 3 {
        "\""@
    } else if i == 4 || i == 5 {
        "'"@
    } else {
        " "@
    }
}

/// Decoding as the chain of its replacements, from pattern `i` on.
pub open spec fn decode_from(s: Seq<char>, i: int) -> Seq<char>
    decreases 7 - i,
{
    if i >= 7 || i < 0 {
        s
    } else {
        decode_from(replace_all(s, entity_pattern(i), entity_char(i)), i + 1)
    }
}

proof fn lemma_decode_chain(s: Seq<char>)
    ensures
        decode_entities(s) == decode_from(s, 0),
{
    reveal_with_fuel(decode_from, 8);
}

proof fn lemma_decode_absent_from(x: Seq<char>, i: int)
    requires
        !has_char(x, '&'),
        0 <= i <= 7,
    ensures
        decode_from(x, i) == x,
    decreases 7 - i,
{
    reveal_strlit("&amp;");
    reveal_strlit("&lt;");
    reveal_strlit("&gt;");
    reveal_strlit("&quot;");
    reveal_strlit("&#39;");
    reveal_strlit("&apos;");
    reveal_strlit("&nbsp;");
    if i < 7 {
        lemma_replace_absent(x, entity_pattern(i), entity_char(i));
        lemma_decode_absent_from(x, i + 1);
    }
}

proof fn lemma_decode_one(a: Seq<char>, b: Seq<char>, e: Seq<char>, c: Seq<char>, n: int)
    requires
        !has_char(a, '&'),
        !has_char(b, '&'),
        1 <= n < 7,
        e == entity_pattern(n),
        c == entity_char(n),
    ensures
        decode_entities(a + e + b) == a + c + b,
{
    reveal_strlit("&amp;");
    reveal_strlit("&lt;");
    reveal_strlit("&gt;");
    reveal_strlit("&quot;");
    reveal_strlit("&#39;");
    reveal_strlit("&apos;");
    reveal_strlit("&nbsp;");
    reveal_strlit("<");
    reveal_strlit(">");
    reveal_strlit("\"");
    reveal_strlit("'");
    reveal_strlit(" ");
    lemma_decode_chain(a + e + b);
    lemma_decode_before(a, b, e, n, 0);
    lemma_replace_entity(a, e, b, c);
    assert(!has_char(c, '&'));
    lemma_no_amp_concat(a, c, b);
    lemma_decode_absent_from(a + c + b, n + 1);
}

/// Before pattern `n`, the patterns `i..n` leave `a + e + b` as it is.
proof fn lemma_decode_before(a: Seq<char>, b: Seq<char>, e: Seq<char>, n: int, i: int)
    requires
        !has_char(a, '&'),
        !has_char(b, '&'),
        1 <= n < 7,
        e == entity_pattern(n),
        0 <= i <= n,
    ensures
        decode_from(a + e + b, i) == decode_from(a + e + b, n),
    decreases n - i,
{
    reveal_strlit("&amp;");
    reveal_strlit("&lt;");
    reveal_strlit("&gt;");
    reveal_strlit("&quot;");
    reveal_strlit("&#39;");
    reveal_strlit("&apos;");
    reveal_strlit("&nbsp;");
    if i < n {
        let q = entity_pattern(i);
        let j: int = if (i == 0 && n == 5) { 2 } else { 1 };
        assert(q[j] != e[j]);
        lemma_other_entity(a, e, b, q, j);
        lemma_replace_none(a + e + b, q, entity_char(i));
        lemma_decode_before(a, b, e, n, i + 1);
    }
}

proof fn lemma_decode_amp(a: Seq<char>, b: Seq<char>)
    requires
        !has_char(a, '&'),
        !has_char(b, '&'),
        !has_char(b, ';'),
    ensures
        decode_entities(a + "&amp;"@ + b) == a + "&"@ + b,
{
    reveal_strlit("&amp;");
    reveal_strlit("&lt;");
    reveal_strlit("&gt;");
    reveal_strlit("&quot;");
    reveal_strlit("&#39;");
    reveal_strlit("&apos;");
    reveal_strlit("&nbsp;");
    reveal_strlit("&");
    let x = a + "&"@ + b;
    lemma_decode_chain(a + "&amp;"@ + b);
    lemma_replace_entity(a, "&amp;"@, b, "&"@);
    assert forall|i: int| 1 <= i < 7 implies forall|k: int| 0 <= k ==> !occurs_at(x, #[trigger] entity_pattern(i), k) by {
        let q = entity_pattern(i);
        assert forall|k: int| 0 <= k implies !occurs_at(x, q, k) by {
            if occurs_at(x, q, k) {
                assert(x.subrange(k, k + q.len())[0] == x[k]);
                assert(x[k] == '&');
                if k < a.len() {
                    assert(x[k] == a[k]);
                } else if k > a.len() {
                    assert(x[k] == b[k - a.len() - 1]);
                } else {
                    let l = q.len() - 1;
                    assert(q[l] == ';');
                    assert(x.subrange(k, k + q.len())[l] == x[k + l]);
                    assert(x[k + l] == b[l - 1]);
                }
            }
        }
    }
    lemma_decode_rest(x, 1);
}

proof fn lemma_decode_rest(x: Seq<char>, i: int)
    requires
        1 <= i <= 7,
        forall|j: int| i <= j < 7 ==> forall|k: int| 0 <= k ==> !occurs_at(x, #[trigger] entity_pattern(j), k),
    ensures
        decode_from(x, i) == x,
    decreases 7 - i,
{
    reveal_strlit("&lt;");
    reveal_strlit("&gt;");
    reveal_strlit("&quot;");
    reveal_strlit("&#39;");
    reveal_strlit("&apos;");
    reveal_strlit("&nbsp;");
    if i < 7 {
        let q = entity_pattern(i);
        assert(forall|k: int| 0 <= k ==> !occurs_at(x, q, k));
        lemma_replace_none(x, q, entity_char(i));
        lemma_decode_rest(x, i + 1);
    }
}

pub fn decode_html_entities(s: &Vec<char>) -> (r: Vec<char>)
    ensures
        r@ == decode_entities(s@),
{
    proof {
        reveal_strlit("&amp;");
        reveal_strlit("&lt;");
        reveal_strlit("&gt;");
        reveal_strlit("&quot;");
        reveal_strlit("&#39;");
        reveal_strlit("&apos;");
        reveal_strlit("&nbsp;");
    }
    let a = replace_exec(s, "&amp;", "&");
    let b = replace_exec(&a, "&lt;", "<");
    let c = replace_exec(&b, "&gt;", ">");
    let d = replace_exec(&c, "&quot;", "\"");
    let e = replace_exec(&d, "&#39;", "'");
    let f = replace_exec(&e, "&apos;", "'");
    replace_exec(&f, "&nbsp;", " ")
}

/// Whether `c` ends a tag name or an unquoted attribute value.
pub open spec fn is_stop(c: char) -> bool {
    is_ws(c) || c == '/' || c == '>'
}

/// The index of the first stop character at or after `i` (or `s.len()`).
pub open spec fn stop_index(s: Seq<char>, i: int) -> int
    decreases s.len() - i,
{
    if i < 0 || i >= s.len() {
        if i < 0 { 0 } else { s.len() as int }
    } else if is_stop(s[i]) {
        i
    } else {
        stop_index(s, i + 1)
    }
}

fn stop_index_exec(v: &Vec<char>, i: usize) -> (r: usize)
    requires
        i <= v.len(),
    ensures
        r == stop_index(v@, i as int),
        i <= r <= v.len(),
{
    let mut k = i;
    while k < v.len() && !(is_whitespace(v[k]) || v[k] == '/' || v[k] == '>')
        invariant
            i <= k <= v.len(),
            stop_index(v@, k as int) == stop_index(v@, i as int),
        decreases v.len() - k,
    {
        k += 1;
    }
    k
}

/// The text up to the first `q` in `s`, if `s` holds one.
pub open spec fn until_quote(s: Seq<char>, q: char) -> Option<Seq<char>> {
    match find_from(s, seq![q], 0) {
        Some(e) => Some(s.take(e)),
        None => None,
    }
}

fn until_quote_exec(v: &Vec<char>, from: usize, q: char) -> (r: Option<Vec<char>>)
    requires
        from <= v.len(),
    ensures
        match r {
            Some(t) => until_quote(v@.skip(from as int), q) == Some(t@),
            None => until_quote(v@.skip(from as int), q) is None,
        },
{
    let rest = slice_vec(v, from, v.len());
    assert(rest@ =~= v@.skip(from as int));
    let qv: Vec<char> = vec![q];
    assert(qv@ =~= seq![q]);
    proof {
        lemma_find_from(rest@, qv@, 0);
    }
    match find_exec(&rest, &qv, 0) {
        Some(e) => Some(slice_vec(&rest, 0, e)),
        None => None,
    }
}

/// The text after `name=` (found case-insensitively), leading whitespace removed.
pub open spec fn attr_after(attrs: Seq<char>, name: Seq<char>) -> Option<Seq<char>> {
    let search = lower_seq(name) + "="@;
    match find_from(lower_seq(attrs), search, 0) {
        None => None,
        Some(pos) => Some(trim_start(attrs.skip(pos + search.len()))),
    }
}

/// An attribute value read from the text after `name=`: double- or
/// single-quoted, or else up to the next whitespace, `/` or `>`.
pub open spec fn value_from(after: Seq<char>) -> Option<Seq<char>> {
    if after.len() > 0 && after[0] == '"' {
        until_quote(after.skip(1), '"')
    } else if after.len() > 0 && after[0] == '\'' {
        until_quote(after.skip(1), '\'')
    } else {
        Some(after.take(stop_index(after, 0)))
    }
}

/// `extract_attr`: the value of attribute `name`, if present.
#[verifier::opaque]
pub open spec fn attr_of(attrs: Seq<char>, name: Seq<char>) -> Option<Seq<char>> {
    match attr_after(attrs, name) {
        Some(after) => value_from(after),
        None => None,
    }
}

fn value_start(attrs: &Vec<char>, name: &str) -> (r: Option<usize>)
    ensures
        match r {
            Some(a) => a <= attrs@.len() && attr_after(attrs@, name@) == Some(attrs@.skip(a as int)),
            None => attr_after(attrs@, name@) is None,
        },
{
    let lower = lower_chars(attrs);
    let nv = chars_of(name);
    let mut search = lower_chars(&nv);
    extend_str(&mut search, "=");
    proof {
        lemma_find_from(lower@, search@, 0);
    }
    match find_exec(&lower, &search, 0) {
        None => None,
        Some(pos) => {
            let n = attrs.len();
            assert(pos + search@.len() <= n);
            let start = pos + search.len();
            let a = trim_start_index(attrs, start);
            proof {
                crate::text::lemma_skip_ws_bounds(attrs@, start as int);
                lemma_skip_shift(attrs@, start as int);
                assert(trim_start(attrs@.skip(start as int)) =~= attrs@.skip(a as int));
            }
            Some(a)
        },
    }
}

fn value_from_exec(attrs: &Vec<char>, a: usize) -> (r: Option<Vec<char>>)
    requires
        a <= attrs@.len(),
    ensures
        match r {
            Some(v) => value_from(attrs@.skip(a as int)) == Some(v@),
            None => value_from(attrs@.skip(a as int)) is None,
        },
{
    let ghost after = attrs@.skip(a as int);
    if a < attrs.len() && attrs[a] == '"' {
        assert(attrs@.skip(a + 1) =~= after.skip(1));
        until_quote_exec(attrs, a + 1, '"')
    } else if a < attrs.len() && attrs[a] == '\'' {
        assert(attrs@.skip(a + 1) =~= after.skip(1));
        until_quote_exec(attrs, a + 1, '\'')
    } else {
        let rest = slice_vec(attrs, a, attrs.len());
        assert(rest@ =~= after);
        let e = stop_index_exec(&rest, 0);
        Some(slice_vec(&rest, 0, e))
    }
}

pub fn extract_attr(attrs: &Vec<char>, name: &str) -> (r: Option<Vec<char>>)
    ensures
        match r {
            Some(v) => attr_of(attrs@, name@) == Some(v@),
            None => attr_of(attrs@, name@) is None,
        },
{
    proof {
        reveal(attr_of);
    }
    match value_start(attrs, name) {
        None => None,
        Some(a) => value_from_exec(attrs, a),
    }
}

proof fn lemma_skip_shift(s: Seq<char>, start: int)
    requires
        0 <= start <= s.len(),
    ensures
        start + skip_ws(s.skip(start), 0) == skip_ws(s, start),
    decreases s.len() - start,
{
    if start < s.len() {
        assert(s.skip(start)[0] == s[start]);
        if is_ws(s[start]) {
            lemma_skip_shift(s, start + 1);
            lemma_skip_ws_suffix(s.skip(start), 1);
            assert(s.skip(start).skip(1) =~= s.skip(start + 1));
        }
    }
}

proof fn lemma_skip_ws_suffix(s: Seq<char>, i: int)
    requires
        0 <= i <= s.len(),
    ensures
        skip_ws(s, i) == i + skip_ws(s.skip(i), 0),
    decreases s.len() - i,
{
    if i < s.len() {
        assert(s.skip(i)[0] == s[i]);
        if is_ws(s[i]) {
            lemma_skip_ws_suffix(s, i + 1);
            lemma_skip_ws_suffix(s.skip(i), 1);
            assert(s.skip(i).skip(1) =~= s.skip(i + 1));
        }
    }
}

// ---------------------------------------------------------------------------
// Tags
// ---------------------------------------------------------------------------
/// A tag: whether it closes, its lower-cased name and its attribute text.
pub struct TagView {
    pub closing: bool,
    pub name: Seq<char>,
    pub attrs: Seq<char>,
}

/// The end of `s[..j]` without its trailing slashes.
pub open spec fn slash_end(s: Seq<char>, j: int) -> int
    decreases j,
{
    if j <= 0 || j > s.len() {
        if j <= 0 { 0 } else { s.len() as int }
    } else if s[j - 1] == '/' {
        slash_end(s, j - 1)
    } else {
        j
    }
}

/// The parts of the text between `<` and `>`.
pub open spec fn parse_tag(content: Seq<char>) -> TagView {
    let closing = content.len() > 0 && content[0] == '/';
    let raw = if closing {
        content.skip(1)
    } else {
        content
    };
    let ne = stop_index(raw, 0);
    let rest = raw.skip(ne);
    TagView { closing, name: lower_seq(raw.take(ne)), attrs: rest.take(slash_end(rest, rest.len() as int)) }
}

proof fn lemma_slash_bounds(s: Seq<char>, j: int)
    requires
        0 <= j <= s.len(),
    ensures
        0 <= slash_end(s, j) <= j,
    decreases j,
{
    if j > 0 && s[j - 1] == '/' {
        lemma_slash_bounds(s, j - 1);
    }
}

pub(crate) fn parse_tag_exec(content: &Vec<char>) -> (r: (bool, Vec<char>, Vec<char>))
    ensures
        r.0 == parse_tag(content@).closing,
        r.1@ == parse_tag(content@).name,
        r.2@ == parse_tag(content@).attrs,
{
    let closing = content.len() > 0 && content[0] == '/';
    let raw = if closing {
        slice_vec(content, 1, content.len())
    } else {
        slice_vec(content, 0, content.len())
    };
    assert(closing ==> raw@ =~= content@.skip(1));
    assert(!closing ==> raw@ =~= content@);
    let ne = stop_index_exec(&raw, 0);
    let head = slice_vec(&raw, 0, ne);
    let name = lower_chars(&head);
    let rest = slice_vec(&raw, ne, raw.len());
    let mut j = rest.len();
    proof {
        lemma_slash_bounds(rest@, j as int);
    }
    while j > 0 && rest[j - 1] == '/'
        invariant
            j <= rest@.len(),
            slash_end(rest@, j as int) == slash_end(rest@, rest@.len() as int),
        decreases j,
    {
        j -= 1;
    }
    let attrs = slice_vec(&rest, 0, j);
    proof {
        assert(head@ =~= raw@.take(ne as int));
        assert(rest@ =~= raw@.skip(ne as int));
        assert(attrs@ =~= rest@.take(j as int));
    }
    (closing, name, attrs)
}

/// Whether `v` holds exactly the text `lit`.
pub fn is_text(v: &Vec<char>, lit: &str) -> (b: bool)
    ensures
        b == (v@ == lit@),
{
    let l = chars_of(lit);
    if l.len() != v.len() {
        return false;
    }
    let mut i: usize = 0;
    while i < l.len()
        invariant
            i <= l.len() == v.len(),
            l@ == lit@,
            forall|k: int| 0 <= k < i ==> v@[k] == l@[k],
        decreases l.len() - i,
    {
        if v[i] != l[i] {
            return false;
        }
        i += 1;
    }
    assert(v@ =~= l@);
    true
}

// ---------------------------------------------------------------------------
// Annotations of trimmed text
// ---------------------------------------------------------------------------
pub open spec fn sat_sub32(a: u32, b: u32) -> u32 {
    if a >= b {
        (a - b) as u32
    } else {
        0
    }
}

pub open spec fn min32(a: u32, b: u32) -> u32 {
    if a <= b {
        a
    } else {
        b
    }
}

/// An annotation moved back by the `lead` characters trimmed off the front
/// and clipped to the trimmed text's `len`; dropped when nothing is left.
pub open spec fn adjust_ann(a: AnnView, lead: u32, len: u32) -> Option<AnnView> {
    let s = sat_sub32(a.start, lead);
    let e = min32(sat_sub32(a.end, lead), len);
    if s < e {
        Some(AnnView { start: s, end: e, kind: a.kind })
    } else {
        None
    }
}

pub open spec fn adjusted(anns: Seq<AnnView>, lead: u32, len: u32) -> Seq<AnnView>
    decreases anns.len(),
{
    if anns.len() == 0 {
        Seq::empty()
    } else {
        let prev = adjusted(anns.drop_last(), lead, len);
        match adjust_ann(anns.last(), lead, len) {
            Some(a) => prev.push(a),
            None => prev,
        }
    }
}

/// `adjust_annotations_for_trim`: annotations of a text made to fit the text
/// trimmed by `lead` leading characters to `len` characters.
pub fn adjust_annotations_for_trim(anns: &Vec<TextAnnotation>, lead: u32, len: u32) -> (r: Vec<TextAnnotation>)
    ensures
        anns_view(r@) == adjusted(anns_view(anns@), lead, len),
{
    let mut r: Vec<TextAnnotation> = Vec::new();
    let mut i: usize = 0;
    let ghost av = anns_view(anns@);
    assert(av.take(0) =~= Seq::<AnnView>::empty());
    assert(anns_view(r@) =~= Seq::<AnnView>::empty());
    while i < anns.len()
        invariant
            i <= anns@.len(),
            av == anns_view(anns@),
            anns_view(r@) == adjusted(av.take(i as int), lead, len),
        decreases anns.len() - i,
    {
        assert(av.take(i + 1).drop_last() =~= av.take(i as int));
        let a = &anns[i];
        let s = if a.start >= lead { a.start - lead } else { 0 };
        let e0 = if a.end >= lead { a.end - lead } else { 0 };
        let e = if e0 <= len { e0 } else { len };
        if s < e {
            let ghost before = r@;
            r.push(TextAnnotation { start: s, end: e, kind: copy_kind(&a.kind) });
            assert(anns_view(r@) =~= anns_view(before).push(ann_view(r@.last())));
        }
        i += 1;
    }
    assert(av.take(anns@.len() as int) =~= av);
    r
}

// ---------------------------------------------------------------------------
// Tables from the HTML converter
// ---------------------------------------------------------------------------
#[verifier::external_type_specification]
#[verifier::external_body]
pub struct ExConversionError(ConversionError);

/// A cell of a converted table's grid.
pub struct GridCellData {
    pub content: String,
    pub row: u32,
    pub col: u32,
}

/// A table as the HTML converter gives it: grid size, cells, markdown.
pub struct TableGridData {
    pub rows: u32,
    pub cols: u32,
    pub cells: Vec<GridCellData>,
    pub markdown: String,
}

pub open spec fn cell_tuple(c: GridCellData) -> (Seq<char>, u32, u32) {
    (c.content@, c.row, c.col)
}

pub open spec fn grid_tuple(t: TableGridData) -> (u32, u32, Seq<(Seq<char>, u32, u32)>, Seq<char>) {
    (t.rows, t.cols, t.cells@.map_values(|c: GridCellData| cell_tuple(c)), t.markdown@)
}

/// What the converter yields for HTML source under its default options
/// (document structure on): its tables (rows, columns, cells with their row and
/// column, markdown), or nothing when it fails.
pub uninterp spec fn converted_tables(html: Seq<char>) -> Option<Seq<(u32, u32, Seq<(Seq<char>, u32, u32)>, Seq<char>)>>;

#[verifier::external_type_specification]
#[verifier::external_body]
pub struct ExConversionOptions(ConversionOptions);

#[verifier::external_type_specification]
#[verifier::external_body]
pub struct ExHtmlMetadata(HtmlMetadata);

/// `html_to_markdown_rs::convert` with the caller's options (the defaults
/// when there are none) and document structure on: the tables, each with its
/// grid size, cells (content, row, column) and markdown, and the document's
/// HTML metadata.  Under the default options the tables are named
/// `converted_tables(html)`; under options of the caller nothing is stated of
/// them, since the options are opaque here and a name cannot be given over
/// them.  Nothing is stated of the metadata, which is carried as it is.
#[verifier::external_body]
fn convert_tables(html: &str, options: &Option<ConversionOptions>) -> (r: Result<
    (Vec<TableGridData>, HtmlMetadata),
    ConversionError,
>)
    ensures
        options is None ==> match r {
            Ok((ts, _)) => converted_tables(html@) == Some(ts@.map_values(|t: TableGridData| grid_tuple(t))),
            Err(_) => converted_tables(html@) is None,
        },
{
    let mut o = options.clone().unwrap_or_default();
    o.include_document_structure = true;
    let result = convert(html, o)?;
    let tables = result.tables.into_iter().map(|t| TableGridData {
        rows: t.grid.rows,
        cols: t.grid.cols,
        cells: t.grid.cells.into_iter().map(|c| GridCellData { content: c.content, row: c.row, col: c.col }).collect(),
        markdown: t.markdown,
    }).collect();
    Ok((tables, result.metadata))
}

/// The format of an inline image, as the converter detects it (`Other`: the
/// MIME subtype it gives is kept beside it).
#[derive(Clone, Copy, Debug, PartialEq, Eq, Structural)]
pub enum ImageFormatKind {
    Png,
    Jpeg,
    Gif,
    Bmp,
    Webp,
    Svg,
    Other,
}

/// An inline image as the converter gives it: its bytes, format, custom
/// format name (for `Other` only), size in pixels when known, and description.
pub struct InlineImageData {
    pub data: Vec<u8>,
    pub format: ImageFormatKind,
    pub custom_format: Option<String>,
    pub dimensions: Option<(u32, u32)>,
    pub description: Option<String>,
}

pub open spec fn opt_chars_of(o: Option<String>) -> Option<Seq<char>> {
    match o {
        Some(s) => Some(s@),
        None => None,
    }
}

pub open spec fn image_tuple(i: InlineImageData) -> (Seq<u8>, ImageFormatKind, Option<Seq<char>>, Option<(u32, u32)>, Option<Seq<char>>) {
    (i.data@, i.format, opt_chars_of(i.custom_format), i.dimensions, opt_chars_of(i.description))
}

/// What the converter yields for HTML source under its default options with
/// image extraction on: its inline images, or nothing when it fails.
pub uninterp spec fn converted_images(html: Seq<char>) -> Option<Seq<(Seq<u8>, ImageFormatKind, Option<Seq<char>>, Option<(u32, u32)>, Option<Seq<char>>)>>;

/// `html_to_markdown_rs::convert` with the caller's options (the defaults
/// when there are none) and image extraction on: the inline images it finds
/// in data URIs and SVG elements.  Under the default options they are named
/// `converted_images(html)`; under options of the caller nothing is stated of
/// them (the options are opaque here).
#[verifier::external_body]
fn convert_images(html: &str, options: &Option<ConversionOptions>) -> (r: Result<Vec<InlineImageData>, ConversionError>)
    ensures
        options is None ==> match r {
            Ok(v) => converted_images(html@) == Some(v@.map_values(|i: InlineImageData| image_tuple(i))),
            Err(_) => converted_images(html@) is None,
        },
{
    let mut o = options.clone().unwrap_or_default();
    o.extract_images = true;
    Ok(convert(html, o)?.images.into_iter().map(|i| {
        let (format, custom_format) = match i.format {
            F::Png => (K::Png, None),
            F::Jpeg => (K::Jpeg, None),
            F::Gif => (K::Gif, None),
            F::Bmp => (K::Bmp, None),
            F::Webp => (K::Webp, None),
            F::Svg => (K::Svg, None),
            F::Other(c) => (K::Other, Some(c)),
        };
        let dimensions = i.dimensions.map(|d| (d.width, d.height));
        InlineImageData { data: i.data, format, custom_format, dimensions, description: i.description }
    }).collect())
}

/// `ConversionError::to_string`: the converter's message for an error.  The
/// error is opaque here, so nothing is stated of the message.
#[verifier::external_body]
fn conversion_message(e: &ConversionError) -> String {
    e.to_string()
}

/// The index of the last cell placed at `(r, c)` among the first `n`.
pub open spec fn last_cell_at(cells: Seq<(Seq<char>, u32, u32)>, r: int, c: int, n: int) -> Option<int>
    decreases n,
{
    if n <= 0 {
        None
    } else if cells[n - 1].1 == r && cells[n - 1].2 == c {
        Some(n - 1)
    } else {
        last_cell_at(cells, r, c, n - 1)
    }
}

/// The text at `(r, c)` of a grid: that of the last cell placed there, else empty.
pub open spec fn grid_text(cells: Seq<(Seq<char>, u32, u32)>, r: int, c: int) -> Seq<char> {
    match last_cell_at(cells, r, c, cells.len() as int) {
        Some(k) => cells[k].0,
        None => Seq::empty(),
    }
}

/// Table `i` holds the dense `rows` x `cols` grid of converted table `t`, its
/// markdown and page number `i + 1`.
pub open spec fn table_from_grid(tb: Table, t: (u32, u32, Seq<(Seq<char>, u32, u32)>, Seq<char>), i: int) -> bool {
    &&& tb.cells@.len() == t.0
    &&& forall|r: int| 0 <= r < t.0 ==> (#[trigger] tb.cells@[r])@.len() == t.1
    &&& forall|r: int, c: int| 0 <= r < t.0 && 0 <= c < t.1 ==> (#[trigger] tb.cells@[r]@[c])@ == grid_text(t.2, r, c)
    &&& tb.markdown@ == t.3
    &&& tb.page_number == i + 1
    &&& tb.bounding_box is None
}

fn dense_grid(t: &TableGridData) -> (g: Vec<Vec<String>>)
    ensures
        g@.len() == t.rows,
        forall|r: int| 0 <= r < t.rows ==> (#[trigger] g@[r])@.len() == t.cols,
        forall|r: int, c: int| 0 <= r < t.rows && 0 <= c < t.cols ==> (#[trigger] g@[r]@[c])@ == grid_text(
            grid_tuple(*t).2,
            r,
            c,
        ),
{
    let ghost cs = grid_tuple(*t).2;
    let mut g: Vec<Vec<String>> = Vec::new();
    let mut r: u32 = 0;
    while r < t.rows
        invariant
            r <= t.rows,
            cs == grid_tuple(*t).2,
            g@.len() == r,
            forall|i: int| 0 <= i < r ==> (#[trigger] g@[i])@.len() == t.cols,
            forall|i: int, j: int| 0 <= i < r && 0 <= j < t.cols ==> (#[trigger] g@[i]@[j])@ == grid_text(cs, i, j),
        decreases t.rows - r,
    {
        let mut row: Vec<String> = Vec::new();
        let mut c: u32 = 0;
        while c < t.cols
            invariant
                c <= t.cols,
                r < t.rows,
                cs == grid_tuple(*t).2,
                row@.len() == c,
                forall|j: int| 0 <= j < c ==> (#[trigger] row@[j])@ == grid_text(cs, r as int, j),
            decreases t.cols - c,
        {
            let mut k = t.cells.len();
            let mut found: Option<usize> = None;
            while k > 0 && found.is_none()
                invariant
                    k <= t.cells@.len(),
                    cs == grid_tuple(*t).2,
                    found is None ==> last_cell_at(cs, r as int, c as int, cs.len() as int) == last_cell_at(
                        cs,
                        r as int,
                        c as int,
                        k as int,
                    ),
                    found matches Some(f) ==> f < t.cells@.len() && last_cell_at(
                        cs,
                        r as int,
                        c as int,
                        cs.len() as int,
                    ) == Some(f as int),
                decreases k + (if found is None {
                    1int
                } else {
                    0int
                }),
            {
                if t.cells[k - 1].row == r && t.cells[k - 1].col == c {
                    found = Some(k - 1);
                } else {
                    k -= 1;
                }
            }
            let text = match found {
                Some(f) => t.cells[f].content.clone(),
                None => String::new(),
            };
            row.push(text);
            c += 1;
        }
        g.push(row);
        r += 1;
    }
    g
}

/// The tables of the converter's result, in order, as document tables.
pub fn tables_from_grids(data: &Vec<TableGridData>) -> (r: Vec<Table>)
    ensures
        r@.len() == data@.len(),
        forall|i: int| 0 <= i < r@.len() ==> table_from_grid(#[trigger] r@[i], grid_tuple(data@[i]), i),
{
    let mut r: Vec<Table> = Vec::new();
    let mut i: usize = 0;
    while i < data.len()
        invariant
            i <= data@.len(),
            r@.len() == i,
            forall|k: int| 0 <= k < i ==> table_from_grid(#[trigger] r@[k], grid_tuple(data@[k]), k),
        decreases data.len() - i,
    {
        let t = &data[i];
        let cells = dense_grid(t);
        r.push(Table { cells, markdown: t.markdown.clone(), page_number: i + 1, bounding_box: None });
        i += 1;
    }
    r
}

/// The tables of HTML source, as the converter finds them.
pub fn html_tables(html: &str) -> (r: Result<Vec<Table>, KreuzbergError>)
    ensures
        match r {
            Ok(ts) => converted_tables(html@) matches Some(g) && ts@.len() == g.len() && forall|i: int|
                0 <= i < ts@.len() ==> table_from_grid(#[trigger] ts@[i], g[i], i),
            Err(e) => converted_tables(html@) is None && e is Parsing,
        },
{
    match convert_tables(html, &None) {
        Ok((data, _)) => Ok(tables_from_grids(&data)),
        Err(e) => Err(KreuzbergError::Parsing(conversion_message(&e))),
    }
}

/// The tables and HTML metadata the converter finds in HTML source, under the
/// caller's options (see `convert_tables`); under the default options the
/// tables are those of `converted_tables`.
pub fn html_conversion(html: &str, options: &Option<ConversionOptions>) -> (r: Result<
    (Vec<Table>, HtmlMetadata),
    KreuzbergError,
>)
    ensures
        r is Err ==> r->Err_0 is Parsing,
        options is None ==> match r {
            Ok((ts, _)) => converted_tables(html@) matches Some(g) && ts@.len() == g.len() && forall|i: int|
                0 <= i < ts@.len() ==> table_from_grid(#[trigger] ts@[i], g[i], i),
            Err(_) => converted_tables(html@) is None,
        },
{
    match convert_tables(html, options) {
        Ok((data, meta)) => Ok((tables_from_grids(&data), meta)),
        Err(e) => Err(KreuzbergError::Parsing(conversion_message(&e))),
    }
}

/// The inline images the converter finds in HTML source, under the caller's
/// options (see `convert_images`).
pub fn html_inline_images(html: &str, options: &Option<ConversionOptions>) -> (r: Result<
    Vec<InlineImageData>,
    KreuzbergError,
>)
    ensures
        r is Err ==> r->Err_0 is Parsing,
        options is None ==> match r {
            Ok(v) => converted_images(html@) == Some(v@.map_values(|i: InlineImageData| image_tuple(i))),
            Err(_) => converted_images(html@) is None,
        },
{
    match convert_images(html, options) {
        Ok(v) => Ok(v),
        Err(e) => Err(KreuzbergError::Parsing(conversion_message(&e))),
    }
}

} // verus!
