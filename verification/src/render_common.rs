//! Pieces shared by the markdown and HTML renderers: escaping, output
//! finalisation, the container nesting state, block-quote prefixing, table
//! rendering, metadata parsing and element attributes.
use vstd::prelude::*;
use crate::document::{attr_value, InternalDocument, InternalElement};
use crate::text::{
    back_ws, chars_of, extend_chars, find_exec, find_from, lines, occurs_at, push_all, push_char,
    push_decimal, push_str, slice_vec, split_lines, string_of_range, trim_end_index, decimal, trim,
    trim_chars,
};

verus! {

// ---------------------------------------------------------------------------
// HTML escaping
// ---------------------------------------------------------------------------
/// The escape of one character.
pub open spec fn esc_char(c: char) -> Seq<char> {
    if c == '&' {
        "&amp;"@
    } else if c == '<' {
        "&lt;"@
    } else if c == '>' {
        "&gt;"@
    } else if c == '"' {
        "&quot;"@
    } else if c == '\'' {
        "&#x27;"@
    } else {
        seq![c]
    }
}

/// HTML escaping of `&`, `<`, `>`, `"` and `'`.
pub open spec fn html_esc(s: Seq<char>) -> Seq<char>
    decreases s.len(),
{
    if s.len() == 0 {
        Seq::empty()
    } else {
        html_esc(s.drop_last()) + esc_char(s.last())
    }
}

/// Escaping works character by character: the escape of two texts put
/// together is their escapes put together.
pub proof fn lemma_esc_concat(a: Seq<char>, b: Seq<char>)
    ensures
        html_esc(a + b) == html_esc(a) + html_esc(b),
    decreases b.len(),
{
    if b.len() == 0 {
        assert(a + b =~= a);
    } else {
        lemma_esc_concat(a, b.drop_last());
        assert((a + b).drop_last() =~= a + b.drop_last());
        assert((a + b).last() == b.last());
    }
}

/// Escaped text holds none of the characters to which HTML gives a
/// meaning: no `<`, `>`, `"` or `'` is left in it.
pub proof fn escaped_text_has_no_markup(s: Seq<char>)
    ensures
        forall|i: int|
            0 <= i < html_esc(s).len() ==> #[trigger] html_esc(s)[i] != '<' && html_esc(s)[i] != '>' && html_esc(s)[i]
                != '"' && html_esc(s)[i] != '\'',
    decreases s.len(),
{
    reveal_strlit("&amp;");
    reveal_strlit("&lt;");
    reveal_strlit("&gt;");
    reveal_strlit("&quot;");
    reveal_strlit("&#x27;");
    if s.len() > 0 {
        escaped_text_has_no_markup(s.drop_last());
        let a = html_esc(s.drop_last());
        let b = esc_char(s.last());
        assert forall|i: int| 0 <= i < html_esc(s).len() implies #[trigger] html_esc(s)[i] != '<' && html_esc(s)[i]
            != '>' && html_esc(s)[i] != '"' && html_esc(s)[i] != '\'' by {
            if i < a.len() {
                assert(html_esc(s)[i] == a[i]);
            } else {
                assert(html_esc(s)[i] == b[i - a.len()]);
            }
        }
    }
}

/// Appends the escape of `v[from..to]`.
pub fn push_escaped_range(out: &mut String, v: &Vec<char>, from: usize, to: usize)
    requires
        from <= to <= v.len(),
    ensures
        final(out)@ == old(out)@ + html_esc(v@.subrange(from as int, to as int)),
{
    let mut i = from;
    assert(v@.subrange(from as int, from as int) =~= Seq::<char>::empty());
    while i < to
        invariant
            from <= i <= to <= v.len(),
            out@ == old(out)@ + html_esc(v@.subrange(from as int, i as int)),
        decreases to - i,
    {
        let c = v[i];
        let ghost before = out@;
        if c == '&' {
            push_str(out, "&amp;");
        } else if c == '<' {
            push_str(out, "&lt;");
        } else if c == '>' {
            push_str(out, "&gt;");
        } else if c == '"' {
            push_str(out, "&quot;");
        } else if c == '\'' {
            push_str(out, "&#x27;");
        } else {
            push_char(out, c);
            assert(before.push(c) =~= before + seq![c]);
        }
        proof {
            assert(v@.subrange(from as int, i + 1).drop_last() =~= v@.subrange(from as int, i as int));
            assert(out@ =~= old(out)@ + html_esc(v@.subrange(from as int, i + 1)));
        }
        i += 1;
    }
}

/// Appends the escape of `v`.
pub fn push_escaped(out: &mut String, v: &Vec<char>)
    ensures
        final(out)@ == old(out)@ + html_esc(v@),
{
    push_escaped_range(out, v, 0, v.len());
    assert(v@.subrange(0, v.len() as int) =~= v@);
}

/// Appends the escape of a string.
pub fn push_escaped_str(out: &mut String, s: &str)
    ensures
        final(out)@ == old(out)@ + html_esc(s@),
{
    let v = chars_of(s);
    push_escaped(out, &v);
}

/// `html_escape`: the escaped text as a new string.
pub fn html_escape(s: &str) -> (r: String)
    ensures
        r@ == html_esc(s@),
{
    let mut r = String::new();
    push_escaped_str(&mut r, s);
    assert(Seq::<char>::empty() + html_esc(s@) =~= html_esc(s@));
    r
}

// ---------------------------------------------------------------------------
// Output finalisation
// ---------------------------------------------------------------------------
/// The finished output: trailing whitespace removed, then one newline,
/// unless nothing is left.
pub open spec fn finalize(s: Seq<char>) -> Seq<char> {
    let t = s.take(back_ws(s, s.len() as int));
    if t.len() == 0 {
        Seq::empty()
    } else {
        t.push('\n')
    }
}

pub fn finalize_output(out: String) -> (r: String)
    ensures
        r@ == finalize(out@),
{
    let v = chars_of(out.as_str());
    let e = trim_end_index(&v, v.len());
    if e == 0 {
        proof {
            assert(v@.take(0) =~= Seq::<char>::empty());
        }
        return String::new();
    }
    let mut r = string_of_range(&v, 0, e);
    push_char(&mut r, '\n');
    assert(v@.subrange(0, e as int) =~= v@.take(e as int));
    r
}

// ---------------------------------------------------------------------------
// Container nesting state
// ---------------------------------------------------------------------------
/// A container that elements can be nested in.
#[derive(Clone, Copy, Debug, PartialEq, Eq, Structural)]
pub enum NestingKind {
    List { ordered: bool, item_count: u64 },
    BlockQuote,
    Group,
}

/// An open container and the depth of the element that opened it.
#[derive(Clone, Copy, Debug, PartialEq, Eq, Structural)]
pub struct Container {
    pub kind: NestingKind,
    pub depth: u32,
}

/// Which kind of container a close marker closes.
#[derive(Clone, Copy, Debug, PartialEq, Eq, Structural)]
pub enum ContainerTag {
    List,
    BlockQuote,
    Group,
}

pub open spec fn tag_of(k: NestingKind) -> ContainerTag {
    match k {
        NestingKind::List { .. } => ContainerTag::List,
        NestingKind::BlockQuote => ContainerTag::BlockQuote,
        NestingKind::Group => ContainerTag::Group,
    }
}

/// The stack of open containers, innermost last.
pub struct RenderState {
    pub stack: Vec<Container>,
}

/// Pops containers opened at depth `d` or deeper.
pub open spec fn pop_to_depth(st: Seq<Container>, d: u32) -> Seq<Container>
    decreases st.len(),
{
    if st.len() > 0 && st.last().depth >= d {
        pop_to_depth(st.drop_last(), d)
    } else {
        st
    }
}

/// The index of the innermost container with tag `t`, if any.
pub open spec fn innermost(st: Seq<Container>, t: ContainerTag) -> Option<int>
    decreases st.len(),
{
    if st.len() == 0 {
        None
    } else if tag_of(st.last().kind) == t {
        Some(st.len() - 1)
    } else {
        innermost(st.drop_last(), t)
    }
}

/// Closes the innermost container with tag `t` (and any opened inside it).
pub open spec fn pop_container(st: Seq<Container>, t: ContainerTag) -> Seq<Container> {
    match innermost(st, t) {
        Some(k) => st.take(k),
        None => st,
    }
}

/// The number of open containers with tag `t`.
pub open spec fn count_tag(st: Seq<Container>, t: ContainerTag) -> nat
    decreases st.len(),
{
    if st.len() == 0 {
        0
    } else {
        count_tag(st.drop_last(), t) + (if tag_of(st.last().kind) == t {
            1nat
        } else {
            0nat
        })
    }
}

/// Whether the innermost list is ordered (`false` when no list is open).
pub open spec fn innermost_ordered(st: Seq<Container>) -> bool {
    match innermost(st, ContainerTag::List) {
        Some(k) => match st[k].kind {
            NestingKind::List { ordered, .. } => ordered,
            _ => false,
        },
        None => false,
    }
}

/// The next item number of the innermost list, and the updated stack
/// (`1` and no change when no list is open).
pub open spec fn next_number(st: Seq<Container>) -> (u64, Seq<Container>) {
    match innermost(st, ContainerTag::List) {
        Some(k) => match st[k].kind {
            NestingKind::List { ordered, item_count } => {
                let n = if item_count < u64::MAX {
                    (item_count + 1) as u64
                } else {
                    item_count
                };
                (n, st.update(k, Container { kind: NestingKind::List { ordered, item_count: n }, depth: st[k].depth }))
            },
            _ => (1, st),
        },
        None => (1, st),
    }
}

proof fn lemma_innermost_bounds(st: Seq<Container>, t: ContainerTag)
    ensures
        innermost(st, t) matches Some(k) ==> 0 <= k < st.len() && tag_of(st[k].kind) == t,
    decreases st.len(),
{
    if st.len() > 0 && tag_of(st.last().kind) != t {
        lemma_innermost_bounds(st.drop_last(), t);
        if let Some(k) = innermost(st.drop_last(), t) {
            assert(st.drop_last()[k] == st[k]);
        }
    }
}

impl RenderState {
    pub fn new() -> (s: Self)
        ensures
            s.stack@ == Seq::<Container>::empty(),
    {
        RenderState { stack: Vec::new() }
    }

    /// Pops containers opened at `depth` or deeper.
    pub fn pop_to_depth(&mut self, depth: u32)
        ensures
            final(self).stack@ == pop_to_depth(old(self).stack@, depth),
    {
        while self.stack.len() > 0 && self.stack[self.stack.len() - 1].depth >= depth
            invariant
                pop_to_depth(self.stack@, depth) == pop_to_depth(old(self).stack@, depth),
            decreases self.stack.len(),
        {
            self.stack.pop();
        }
    }

    pub fn push_container(&mut self, kind: NestingKind, depth: u32)
        ensures
            final(self).stack@ == old(self).stack@.push(Container { kind, depth }),
    {
        self.stack.push(Container { kind, depth });
    }

    fn innermost_index(&self, t: ContainerTag) -> (r: Option<usize>)
        ensures
            r matches Some(k) ==> innermost(self.stack@, t) == Some(k as int),
            r is None ==> innermost(self.stack@, t) is None,
    {
        let mut k = self.stack.len();
        assert(self.stack@.take(k as int) =~= self.stack@);
        while k > 0
            invariant
                k <= self.stack@.len(),
                innermost(self.stack@, t) == innermost(self.stack@.take(k as int), t),
            decreases k,
        {
            let c = self.stack[k - 1];
            let is_t = match c.kind {
                NestingKind::List { .. } => t == ContainerTag::List,
                NestingKind::BlockQuote => t == ContainerTag::BlockQuote,
                NestingKind::Group => t == ContainerTag::Group,
            };
            assert(self.stack@.take(k as int).last() == c);
            if is_t {
                return Some(k - 1);
            }
            assert(self.stack@.take(k as int).drop_last() =~= self.stack@.take(k - 1));
            k -= 1;
        }
        None
    }

    /// Closes the innermost container with tag `t`.
    pub fn pop_container(&mut self, t: ContainerTag)
        ensures
            final(self).stack@ == pop_container(old(self).stack@, t),
    {
        proof {
            assert(self.stack@.take(self.stack@.len() as int) =~= self.stack@);
            lemma_innermost_bounds(self.stack@, t);
        }
        match self.innermost_index(t) {
            Some(k) => {
                self.stack.truncate(k);
            },
            None => {},
        }
    }

    /// The number of open containers with tag `t`.
    pub fn count(&self, t: ContainerTag) -> (n: usize)
        ensures
            n == count_tag(self.stack@, t),
    {
        let mut n: usize = 0;
        let mut i: usize = 0;
        while i < self.stack.len()
            invariant
                i <= self.stack@.len(),
                n == count_tag(self.stack@.take(i as int), t),
                n <= i,
            decreases self.stack.len() - i,
        {
            let c = self.stack[i];
            assert(self.stack@.take(i + 1).drop_last() =~= self.stack@.take(i as int));
            let is_t = match c.kind {
                NestingKind::List { .. } => t == ContainerTag::List,
                NestingKind::BlockQuote => t == ContainerTag::BlockQuote,
                NestingKind::Group => t == ContainerTag::Group,
            };
            if is_t {
                n += 1;
            }
            i += 1;
        }
        assert(self.stack@.take(self.stack@.len() as int) =~= self.stack@);
        n
    }

    /// Whether the innermost list is ordered.
    pub fn innermost_list_ordered(&self) -> (b: bool)
        ensures
            b == innermost_ordered(self.stack@),
    {
        proof {
            assert(self.stack@.take(self.stack@.len() as int) =~= self.stack@);
            lemma_innermost_bounds(self.stack@, ContainerTag::List);
        }
        match self.innermost_index(ContainerTag::List) {
            Some(k) => match self.stack[k].kind {
                NestingKind::List { ordered, .. } => ordered,
                _ => false,
            },
            None => false,
        }
    }

    /// Advances the innermost list's item count and returns the new number.
    pub fn next_list_number(&mut self) -> (n: u64)
        ensures
            (n, final(self).stack@) == next_number(old(self).stack@),
    {
        proof {
            assert(self.stack@.take(self.stack@.len() as int) =~= self.stack@);
            lemma_innermost_bounds(self.stack@, ContainerTag::List);
        }
        match self.innermost_index(ContainerTag::List) {
            Some(k) => {
                let c = self.stack[k];
                match c.kind {
                    NestingKind::List { ordered, item_count } => {
                        let n = item_count.saturating_add(1);
                        self.stack.set(k, Container { kind: NestingKind::List { ordered, item_count: n }, depth: c.depth });
                        n
                    },
                    _ => 1,
                }
            },
            None => 1,
        }
    }
}

// ---------------------------------------------------------------------------
// Block-quote prefixing
// ---------------------------------------------------------------------------
/// `"> "` repeated `d` times.
pub open spec fn bq_prefix(d: nat) -> Seq<char>
    decreases d,
{
    if d == 0 {
        Seq::empty()
    } else {
        bq_prefix((d - 1) as nat) + "> "@
    }
}

/// The prefix for a blank line: `bq_prefix(d)` without its last space.
pub open spec fn bq_blank_prefix(d: nat) -> Seq<char> {
    if d == 0 {
        Seq::empty()
    } else {
        bq_prefix((d - 1) as nat) + ">"@
    }
}

/// Each line of `ls`, prefixed for quote depth `d`, followed by a newline.
pub open spec fn bq_lines(ls: Seq<Seq<char>>, d: nat) -> Seq<char>
    decreases ls.len(),
{
    if ls.len() == 0 {
        Seq::empty()
    } else {
        let l = ls.last();
        bq_lines(ls.drop_last(), d) + (if l.len() == 0 {
            bq_blank_prefix(d)
        } else {
            bq_prefix(d) + l
        }) + "\n"@
    }
}

/// A block as written at quote depth `d`.
pub open spec fn with_bq(block: Seq<char>, d: nat) -> Seq<char> {
    if d == 0 {
        block
    } else {
        bq_lines(lines(block), d)
    }
}

fn push_bq_prefix(out: &mut String, d: usize, blank: bool)
    ensures
        final(out)@ == old(out)@ + (if blank {
            bq_blank_prefix(d as nat)
        } else {
            bq_prefix(d as nat)
        }),
{
    let mut k: usize = 0;
    let limit = if blank && d > 0 { d - 1 } else { d };
    assert(bq_prefix(0) =~= Seq::<char>::empty());
    while k < limit
        invariant
            k <= limit,
            out@ == old(out)@ + bq_prefix(k as nat),
        decreases limit - k,
    {
        push_str(out, "> ");
        k += 1;
    }
    if blank && d > 0 {
        push_str(out, ">");
    }
}

/// `push_with_bq`: appends a block, prefixing its lines for quote depth `d`.
pub fn push_with_bq(out: &mut String, block: &Vec<char>, d: usize)
    ensures
        final(out)@ == old(out)@ + with_bq(block@, d as nat),
{
    if d == 0 {
        push_all(out, block);
        return;
    }
    let ls = split_lines(block);
    let mut i: usize = 0;
    assert(lines(block@).take(0) =~= Seq::<Seq<char>>::empty());
    while i < ls.len()
        invariant
            i <= ls@.len() == lines(block@).len(),
            forall|k: int| 0 <= k < ls@.len() ==> #[trigger] ls@[k]@ == lines(block@)[k],
            out@ == old(out)@ + bq_lines(lines(block@).take(i as int), d as nat),
        decreases ls.len() - i,
    {
        let l = &ls[i];
        proof {
            assert(lines(block@).take(i + 1).drop_last() =~= lines(block@).take(i as int));
        }
        if l.len() == 0 {
            push_bq_prefix(out, d, true);
        } else {
            push_bq_prefix(out, d, false);
            push_all(out, l);
        }
        push_str(out, "\n");
        proof {
            assert(out@ =~= old(out)@ + bq_lines(lines(block@).take(i + 1), d as nat));
        }
        i += 1;
    }
    assert(lines(block@).take(ls@.len() as int) =~= lines(block@));
}

// ---------------------------------------------------------------------------
// Element attributes
// ---------------------------------------------------------------------------
/// The value of attribute `key` of an element.
pub fn get_attr(e: &InternalElement, key: &str) -> (r: Option<Vec<char>>)
    ensures
        match r {
            Some(v) => attr_value(e.attributes@, key@) == Some(v@),
            None => attr_value(e.attributes@, key@) is None,
        },
{
    let mut i: usize = 0;
    let k = String::from_str(key);
    assert(e.attributes@.skip(0) =~= e.attributes@);
    while i < e.attributes.len()
        invariant
            i <= e.attributes@.len(),
            k@ == key@,
            attr_value(e.attributes@, key@) == attr_value(e.attributes@.skip(i as int), key@),
        decreases e.attributes.len() - i,
    {
        assert(e.attributes@.skip(i as int)[0] == e.attributes@[i as int]);
        if e.attributes[i].0 == k {
            return Some(chars_of(e.attributes[i].1.as_str()));
        }
        assert(e.attributes@.skip(i as int).drop_first() =~= e.attributes@.skip(i + 1));
        i += 1;
    }
    assert(e.attributes@.skip(i as int) =~= Seq::<(String, String)>::empty());
    None
}

/// `attr` of an element, or the empty text.
pub open spec fn attr_or_empty(e: InternalElement, key: Seq<char>) -> Seq<char> {
    match attr_value(e.attributes@, key) {
        Some(v) => v,
        None => Seq::empty(),
    }
}

/// The admonition kind (`note` when none is recorded).
pub open spec fn admonition_kind(e: InternalElement) -> Seq<char> {
    match attr_value(e.attributes@, "kind"@) {
        Some(v) => v,
        None => "note"@,
    }
}

pub fn get_attr_or_empty(e: &InternalElement, key: &str) -> (r: Vec<char>)
    ensures
        r@ == attr_or_empty(*e, key@),
{
    match get_attr(e, key) {
        Some(v) => v,
        None => Vec::new(),
    }
}

pub fn get_admonition_kind(e: &InternalElement) -> (r: Vec<char>)
    ensures
        r@ == admonition_kind(*e),
{
    match get_attr(e, "kind") {
        Some(v) => v,
        None => chars_of("note"),
    }
}

// ---------------------------------------------------------------------------
// Capitalisation
// ---------------------------------------------------------------------------
/// What `char::to_uppercase` yields for a character.
pub uninterp spec fn upper_of(c: char) -> Seq<char>;

/// ASCII upper-casing of one character.
pub open spec fn ascii_upper(c: char) -> char {
    if 'a' <= c && c <= 'z' {
        ((c as u32) - 32) as char
    } else {
        c
    }
}

/// `char::to_uppercase`, collected.  Its result is named `upper_of(c)`; for an
/// ASCII character it is the ASCII upper-case letter (or the character itself),
/// as std documents.  What it yields for other characters (the Unicode case
/// mapping) is not stated here.
#[verifier::external_body]
fn char_to_uppercase(c: char) -> (r: Vec<char>)
    ensures
        r@ == upper_of(c),
        (c as u32) < 128 ==> r@ == seq![ascii_upper(c)],
{
    c.to_uppercase().collect()
}

/// The word with its first character upper-cased.
pub open spec fn capitalize(s: Seq<char>) -> Seq<char> {
    if s.len() == 0 {
        Seq::empty()
    } else {
        upper_of(s[0]) + s.drop_first()
    }
}

pub fn capitalize_chars(s: &Vec<char>) -> (r: Vec<char>)
    ensures
        r@ == capitalize(s@),
{
    if s.len() == 0 {
        return Vec::new();
    }
    let mut r = char_to_uppercase(s[0]);
    let rest = slice_vec(s, 1, s.len());
    extend_chars(&mut r, &rest);
    assert(rest@ =~= s@.drop_first());
    r
}

// ---------------------------------------------------------------------------
// Metadata entries
// ---------------------------------------------------------------------------
/// A `key: value` line split at its first `": "`.
pub open spec fn metadata_entry(l: Seq<char>) -> Option<(Seq<char>, Seq<char>)> {
    match find_from(l, ": "@, 0) {
        Some(d) => Some((l.take(d), l.skip(d + 2))),
        None => None,
    }
}

/// The `key: value` entries of a metadata block, one per line that has a `": "`.
pub open spec fn metadata_entries(ls: Seq<Seq<char>>) -> Seq<(Seq<char>, Seq<char>)>
    decreases ls.len(),
{
    if ls.len() == 0 {
        Seq::empty()
    } else {
        let prev = metadata_entries(ls.drop_last());
        match metadata_entry(ls.last()) {
            Some(e) => prev.push(e),
            None => prev,
        }
    }
}

/// An entry that a metadata line carries unchanged: its key holds no `": "`,
/// neither part holds a line break, and the value does not end with a
/// carriage return.
#[verifier::opaque]
pub open spec fn plain_entry(e: (Seq<char>, Seq<char>)) -> bool {
    &&& !crate::text::contains_seq(e.0, ": "@)
    &&& forall|k: int| 0 <= k < e.0.len() ==> e.0[k] != '\n'
    &&& forall|k: int| 0 <= k < e.1.len() ==> e.1[k] != '\n'
    &&& (e.1.len() == 0 || e.1[e.1.len() - 1] != '\r')
}

/// The line that stores an entry.
pub open spec fn entry_line(e: (Seq<char>, Seq<char>)) -> Seq<char> {
    e.0 + ": "@ + e.1
}

proof fn lemma_entry_line_chars(e: (Seq<char>, Seq<char>))
    requires
        plain_entry(e),
    ensures
        entry_line(e).len() > 0,
        forall|k: int| 0 <= k < entry_line(e).len() ==> entry_line(e)[k] != '\n',
        entry_line(e)[entry_line(e).len() - 1] != '\n',
        crate::text::strip_cr(entry_line(e)) == entry_line(e),
{
    reveal(plain_entry);
    reveal_strlit(": ");
    let (key, v) = e;
    let l = entry_line(e);
    let n = key.len() as int;
    assert(l[n] == ':' && l[n + 1] == ' ');
    assert forall|k: int| 0 <= k < l.len() implies l[k] != '\n' by {
        if k < n {
            assert(l[k] == key[k]);
        } else if k >= n + 2 {
            assert(l[k] == v[k - n - 2]);
        }
    }
    if v.len() > 0 {
        assert(l[l.len() - 1] == v[v.len() - 1]);
    }
}

proof fn lemma_entry_line_parses(key: Seq<char>, v: Seq<char>)
    requires
        !crate::text::contains_seq(key, ": "@),
    ensures
        metadata_entry(entry_line((key, v))) == Some((key, v)),
{
    reveal_strlit(": ");
    let l = entry_line((key, v));
    let n = key.len() as int;
    assert(l[n] == ':' && l[n + 1] == ' ');
    assert(crate::text::occurs_at(l, ": "@, n)) by {
        assert(l.subrange(n, n + 2) =~= ": "@);
    }
    assert forall|j: int| 0 <= j < n implies !crate::text::occurs_at(l, ": "@, j) by {
        if crate::text::occurs_at(l, ": "@, j) {
            assert(l.subrange(j, j + 2)[0] == ':' && l.subrange(j, j + 2)[1] == ' ');
            assert(l[j] == ':' && l[j + 1] == ' ');
            if j + 1 < n {
                assert(key.subrange(j, j + 2) =~= ": "@);
                assert(crate::text::occurs_at(key, ": "@, j));
            }
        }
    }
    crate::text::lemma_find_from(l, ": "@, 0);
    let d = find_from(l, ": "@, 0)->0;
    assert(d == n);
    assert(l.take(n) =~= key);
    assert(l.skip(n + 2) =~= v);
}

proof fn lemma_entry_line(e: (Seq<char>, Seq<char>))
    requires
        plain_entry(e),
    ensures
        entry_line(e).len() > 0,
        forall|k: int| 0 <= k < entry_line(e).len() ==> entry_line(e)[k] != '\n',
        entry_line(e)[entry_line(e).len() - 1] != '\n',
        crate::text::strip_cr(entry_line(e)) == entry_line(e),
        metadata_entry(entry_line(e)) == Some(e),
{
    lemma_entry_line_chars(e);
    assert(!crate::text::contains_seq(e.0, ": "@)) by {
        reveal(plain_entry);
    }
    lemma_entry_line_parses(e.0, e.1);
}

proof fn lemma_metadata_lines(es: Seq<(Seq<char>, Seq<char>)>)
    requires
        es.len() > 0,
        forall|k: int| 0 <= k < es.len() ==> plain_entry(#[trigger] es[k]),
    ensures
        lines(crate::document::metadata_text(es)) == es.map_values(|e: (Seq<char>, Seq<char>)| entry_line(e)),
        crate::document::metadata_text(es).len() > 0,
        crate::document::metadata_text(es)[crate::document::metadata_text(es).len() - 1] != '\n',
    decreases es.len(),
{
    let l = entry_line(es.last());
    assert(plain_entry(es[es.len() - 1]));
    lemma_entry_line(es.last());
    reveal_strlit(": ");
    assert(crate::document::metadata_text(es) == (if es.len() == 1 {
        l
    } else {
        crate::document::metadata_text(es.drop_last()) + "\n"@ + l
    }));
    if es.len() == 1 {
        crate::text::lemma_lines_single(l);
        assert(es.map_values(|e: (Seq<char>, Seq<char>)| entry_line(e)) =~= seq![l]);
    } else {
        let d = es.drop_last();
        assert forall|k: int| 0 <= k < d.len() implies plain_entry(#[trigger] d[k]) by {
            assert(d[k] == es[k]);
        }
        lemma_metadata_lines(d);
        let p = crate::document::metadata_text(d);
        crate::text::lemma_lines_append(p, l);
        assert(es.map_values(|e: (Seq<char>, Seq<char>)| entry_line(e)) =~= d.map_values(
            |e: (Seq<char>, Seq<char>)| entry_line(e),
        ).push(l));
        let t = p + "\n"@ + l;
        assert(t[t.len() - 1] == l[l.len() - 1]);
    }
}

#[verifier::rlimit(40)]
proof fn lemma_entries_of_lines(es: Seq<(Seq<char>, Seq<char>)>)
    requires
        forall|k: int| 0 <= k < es.len() ==> plain_entry(#[trigger] es[k]),
    ensures
        metadata_entries(es.map_values(|e: (Seq<char>, Seq<char>)| entry_line(e))) == es,
    decreases es.len(),
{
    let ls = es.map_values(|e: (Seq<char>, Seq<char>)| entry_line(e));
    if es.len() == 0 {
        assert(ls.len() == 0);
        assert(metadata_entries(ls) =~= es);
    } else {
        let d = es.drop_last();
        assert forall|k: int| 0 <= k < d.len() implies plain_entry(#[trigger] d[k]) by {
            assert(d[k] == es[k]);
        }
        lemma_entries_of_lines(d);
        let dl = d.map_values(|e: (Seq<char>, Seq<char>)| entry_line(e));
        assert(ls.drop_last() =~= dl);
        let x = es[es.len() - 1];
        assert(plain_entry(x));
        lemma_entry_line(x);
        assert(ls.last() == entry_line(x));
        assert(metadata_entry(ls.last()) == Some(x));
        assert(metadata_entries(ls) == metadata_entries(ls.drop_last()).push(x));
        assert(metadata_entries(ls.drop_last()) == d);
        assert(d.push(x) =~= es);
    }
}

/// A metadata block reads back the entries it was written from: the entries
/// found in the text that `push_metadata_block` stores for `es` are `es`,
/// whenever no key holds `": "`, no key or value holds a line break, and no
/// value ends with a carriage return.
pub proof fn metadata_block_round_trip(es: Seq<(Seq<char>, Seq<char>)>)
    requires
        forall|k: int| 0 <= k < es.len() ==> plain_entry(#[trigger] es[k]),
    ensures
        metadata_entries(lines(crate::document::metadata_text(es))) == es,
{
    if es.len() == 0 {
        assert(crate::document::metadata_text(es) == Seq::<char>::empty());
        assert(lines(Seq::<char>::empty()) == Seq::<Seq<char>>::empty());
    } else {
        lemma_metadata_lines(es);
        lemma_entries_of_lines(es);
    }
}

/// `parse_metadata_entries`.
pub fn parse_metadata_entries(text: &Vec<char>) -> (r: Vec<(Vec<char>, Vec<char>)>)
    ensures
        r@.len() == metadata_entries(lines(text@)).len(),
        forall|k: int|
            0 <= k < r@.len() ==> (#[trigger] r@[k]).0@ == metadata_entries(lines(text@))[k].0 && r@[k].1@
                == metadata_entries(lines(text@))[k].1,
{
    let ls = split_lines(text);
    let sep = chars_of(": ");
    proof {
        reveal_strlit(": ");
    }
    let mut r: Vec<(Vec<char>, Vec<char>)> = Vec::new();
    let mut i: usize = 0;
    let ghost sl = lines(text@);
    assert(sl.take(0) =~= Seq::<Seq<char>>::empty());
    while i < ls.len()
        invariant
            i <= ls@.len() == sl.len(),
            sl == lines(text@),
            sep@ == ": "@,
            ": "@.len() == 2,
            forall|k: int| 0 <= k < ls@.len() ==> #[trigger] ls@[k]@ == sl[k],
            r@.len() == metadata_entries(sl.take(i as int)).len(),
            forall|k: int|
                0 <= k < r@.len() ==> (#[trigger] r@[k]).0@ == metadata_entries(sl.take(i as int))[k].0
                    && r@[k].1@ == metadata_entries(sl.take(i as int))[k].1,
        decreases ls.len() - i,
    {
        let l = &ls[i];
        proof {
            assert(sl.take(i + 1).drop_last() =~= sl.take(i as int));
        }
        match find_exec(l, &sep, 0) {
            Some(d) => {
                assert(occurs_at(l@, sep@, d as int));
                let n = l.len();
                assert(d + 2 <= n);
                let key = slice_vec(l, 0, d);
                let val = slice_vec(l, d + 2, n);
                assert(key@ =~= l@.take(d as int));
                assert(val@ =~= l@.skip(d + 2));
                r.push((key, val));
            },
            None => {},
        }
        i += 1;
    }
    assert(sl.take(ls@.len() as int) =~= sl);
    r
}

// ---------------------------------------------------------------------------
// Tables
// ---------------------------------------------------------------------------
/// The cells of a row joined by `" | "`.
pub open spec fn join_cells(cells: Seq<String>) -> Seq<char>
    decreases cells.len(),
{
    if cells.len() == 0 {
        Seq::empty()
    } else if cells.len() == 1 {
        cells[0]@
    } else {
        join_cells(cells.drop_last()) + " | "@ + cells.last()@
    }
}

/// One markdown table row.
pub open spec fn md_row(cells: Seq<String>) -> Seq<char> {
    "| "@ + join_cells(cells) + " |\n"@
}

/// `"---"` repeated `n` times, joined by `" | "`.
pub open spec fn dashes(n: nat) -> Seq<char>
    decreases n,
{
    if n == 0 {
        Seq::empty()
    } else if n == 1 {
        "---"@
    } else {
        dashes((n - 1) as nat) + " | "@ + "---"@
    }
}

/// Markdown rows `rows[..n]`, with the separator row after the first.
pub open spec fn md_rows(rows: Seq<Vec<String>>, n: int) -> Seq<char>
    decreases n,
{
    if n <= 0 {
        Seq::empty()
    } else if n == 1 {
        md_row(rows[0]@) + "| "@ + dashes(rows[0]@.len()) + " |\n"@
    } else {
        md_rows(rows, n - 1) + md_row(rows[n - 1]@)
    }
}

/// A table as markdown (empty for a table without rows).
pub open spec fn table_md(rows: Seq<Vec<String>>) -> Seq<char> {
    md_rows(rows, rows.len() as int)
}

fn push_joined_cells(out: &mut String, cells: &Vec<String>)
    ensures
        final(out)@ == old(out)@ + join_cells(cells@),
{
    let mut i: usize = 0;
    assert(cells@.take(0) =~= Seq::<String>::empty());
    while i < cells.len()
        invariant
            i <= cells@.len(),
            out@ == old(out)@ + join_cells(cells@.take(i as int)),
        decreases cells.len() - i,
    {
        assert(cells@.take(i + 1).drop_last() =~= cells@.take(i as int));
        if i > 0 {
            push_str(out, " | ");
        }
        push_str(out, cells[i].as_str());
        i += 1;
        assert(out@ =~= old(out)@ + join_cells(cells@.take(i as int)));
    }
    assert(cells@.take(cells@.len() as int) =~= cells@);
}

fn push_dashes(out: &mut String, n: usize)
    ensures
        final(out)@ == old(out)@ + dashes(n as nat),
{
    let mut i: usize = 0;
    while i < n
        invariant
            i <= n,
            out@ == old(out)@ + dashes(i as nat),
        decreases n - i,
    {
        if i > 0 {
            push_str(out, " | ");
        }
        push_str(out, "---");
        i += 1;
        assert(out@ =~= old(out)@ + dashes(i as nat));
    }
}

/// `render_table_markdown`.
pub fn render_table_markdown(rows: &Vec<Vec<String>>) -> (r: String)
    ensures
        r@ == table_md(rows@),
{
    let mut out = String::new();
    let mut i: usize = 0;
    while i < rows.len()
        invariant
            i <= rows@.len(),
            out@ == md_rows(rows@, i as int),
        decreases rows.len() - i,
    {
        push_str(&mut out, "| ");
        push_joined_cells(&mut out, &rows[i]);
        push_str(&mut out, " |\n");
        if i == 0 {
            push_str(&mut out, "| ");
            push_dashes(&mut out, rows[0].len());
            push_str(&mut out, " |\n");
        }
        i += 1;
        assert(out@ =~= md_rows(rows@, i as int));
    }
    out
}

/// The cells of a row, each wrapped in `<tag>` .. `</tag>` with escaped text.
pub open spec fn html_cells(cells: Seq<String>, open: Seq<char>, close: Seq<char>) -> Seq<char>
    decreases cells.len(),
{
    if cells.len() == 0 {
        Seq::empty()
    } else {
        html_cells(cells.drop_last(), open, close) + open + html_esc(cells.last()@) + close
    }
}

/// HTML body rows `rows[1..n]`.
pub open spec fn html_body_rows(rows: Seq<Vec<String>>, n: int) -> Seq<char>
    decreases n,
{
    if n <= 1 {
        Seq::empty()
    } else {
        html_body_rows(rows, n - 1) + "<tr>"@ + html_cells(rows[n - 1]@, "<td>"@, "</td>"@) + "</tr>\n"@
    }
}

/// A table as HTML: the first row as header cells, the rest as body rows.
pub open spec fn table_html(rows: Seq<Vec<String>>) -> Seq<char> {
    "<table>\n"@ + (if rows.len() > 0 {
        "<thead>\n<tr>"@ + html_cells(rows[0]@, "<th>"@, "</th>"@) + "</tr>\n</thead>\n"@
    } else {
        Seq::empty()
    }) + (if rows.len() > 1 {
        "<tbody>\n"@ + html_body_rows(rows, rows.len() as int) + "</tbody>\n"@
    } else {
        Seq::empty()
    }) + "</table>"@
}

fn push_html_cells(out: &mut String, cells: &Vec<String>, open: &str, close: &str)
    ensures
        final(out)@ == old(out)@ + html_cells(cells@, open@, close@),
{
    let mut i: usize = 0;
    assert(cells@.take(0) =~= Seq::<String>::empty());
    while i < cells.len()
        invariant
            i <= cells@.len(),
            out@ == old(out)@ + html_cells(cells@.take(i as int), open@, close@),
        decreases cells.len() - i,
    {
        assert(cells@.take(i + 1).drop_last() =~= cells@.take(i as int));
        push_str(out, open);
        push_escaped_str(out, cells[i].as_str());
        push_str(out, close);
        i += 1;
        assert(out@ =~= old(out)@ + html_cells(cells@.take(i as int), open@, close@));
    }
    assert(cells@.take(cells@.len() as int) =~= cells@);
}

/// `render_table_html`.
pub fn render_table_html(rows: &Vec<Vec<String>>) -> (r: String)
    ensures
        r@ == table_html(rows@),
{
    let mut out = String::new();
    push_str(&mut out, "<table>\n");
    let ghost p0 = out@;
    if rows.len() > 0 {
        push_str(&mut out, "<thead>\n<tr>");
        push_html_cells(&mut out, &rows[0], "<th>", "</th>");
        push_str(&mut out, "</tr>\n</thead>\n");
    }
    let ghost p1 = out@;
    if rows.len() > 1 {
        push_str(&mut out, "<tbody>\n");
        let ghost p2 = out@;
        let mut i: usize = 1;
        assert(html_body_rows(rows@, 1) =~= Seq::<char>::empty());
        while i < rows.len()
            invariant
                1 <= i <= rows@.len(),
                out@ == p2 + html_body_rows(rows@, i as int),
            decreases rows.len() - i,
        {
            push_str(&mut out, "<tr>");
            push_html_cells(&mut out, &rows[i], "<td>", "</td>");
            push_str(&mut out, "</tr>\n");
            i += 1;
            assert(out@ =~= p2 + html_body_rows(rows@, i as int));
        }
        push_str(&mut out, "</tbody>\n");
    }
    push_str(&mut out, "</table>");
    assert(out@ =~= table_html(rows@));
    out
}


// ---------------------------------------------------------------------------
// Pieces of element blocks shared by the renderers
// ---------------------------------------------------------------------------
/// `s` followed by a newline unless it already ends with one.
pub open spec fn with_nl(s: Seq<char>) -> Seq<char> {
    if s.len() > 0 && s.last() == '\n' {
        s
    } else {
        s.push('\n')
    }
}

/// Appends `s`, then a newline unless `s` already ends with one.
pub fn push_with_nl(out: &mut String, s: &str)
    ensures
        final(out)@ == old(out)@ + with_nl(s@),
{
    let v = chars_of(s);
    push_all(out, &v);
    if v.len() == 0 || v[v.len() - 1] != '\n' {
        push_char(out, '\n');
        assert(out@ =~= old(out)@ + with_nl(s@));
    }
}

/// `s` repeated `n` times.
pub open spec fn repeat(s: Seq<char>, n: nat) -> Seq<char>
    decreases n,
{
    if n == 0 {
        Seq::empty()
    } else {
        repeat(s, (n - 1) as nat) + s
    }
}

pub fn push_repeat(out: &mut String, s: &str, n: usize)
    ensures
        final(out)@ == old(out)@ + repeat(s@, n as nat),
{
    let mut k: usize = 0;
    assert(old(out)@ + repeat(s@, 0) =~= old(out)@);
    while k < n
        invariant
            k <= n,
            out@ == old(out)@ + repeat(s@, k as nat),
        decreases n - k,
    {
        push_str(out, s);
        k += 1;
        assert(out@ =~= old(out)@ + repeat(s@, k as nat));
    }
}

/// The description of image `idx` (empty when there is none).
pub open spec fn image_desc(doc: InternalDocument, idx: int) -> Seq<char> {
    if 0 <= idx < doc.images@.len() {
        match doc.images@[idx].description {
            Some(d) => d@,
            None => Seq::empty(),
        }
    } else {
        Seq::empty()
    }
}

/// Where image `idx` is referenced from: `image_<idx>.<format>` when its data
/// is carried, else its source path (empty when there is none).
pub open spec fn image_url(doc: InternalDocument, idx: int) -> Seq<char> {
    if 0 <= idx < doc.images@.len() {
        let img = doc.images@[idx];
        if img.data@.len() > 0 {
            "image_"@ + decimal(idx as nat) + "."@ + img.format@
        } else {
            match img.source_path {
                Some(p) => p@,
                None => Seq::empty(),
            }
        }
    } else {
        Seq::empty()
    }
}

pub fn image_desc_exec(doc: &InternalDocument, idx: usize) -> (r: String)
    ensures
        r@ == image_desc(*doc, idx as int),
{
    if idx < doc.images.len() {
        match &doc.images[idx].description {
            Some(d) => d.clone(),
            None => String::new(),
        }
    } else {
        String::new()
    }
}

pub fn image_url_exec(doc: &InternalDocument, idx: usize) -> (r: String)
    ensures
        r@ == image_url(*doc, idx as int),
{
    if idx < doc.images.len() {
        let img = &doc.images[idx];
        if img.data.len() > 0 {
            let mut r = String::new();
            push_str(&mut r, "image_");
            push_decimal(&mut r, idx as u64);
            push_str(&mut r, ".");
            push_str(&mut r, img.format.as_str());
            r
        } else {
            match &img.source_path {
                Some(p) => p.clone(),
                None => String::new(),
            }
        }
    } else {
        String::new()
    }
}

/// The rendering of table `idx`: its grid when it has cells (as HTML when
/// `html`, else as markdown), else its stored markdown; nothing when the table
/// does not exist or the rendering is blank.
pub open spec fn table_text(doc: InternalDocument, idx: int, html: bool) -> Option<Seq<char>> {
    if 0 <= idx < doc.tables@.len() {
        let t = doc.tables@[idx];
        let ts = if t.cells@.len() > 0 {
            if html {
                table_html(t.cells@)
            } else {
                table_md(t.cells@)
            }
        } else {
            t.markdown@
        };
        if trim(ts).len() > 0 {
            Some(ts)
        } else {
            None
        }
    } else {
        None
    }
}

pub fn table_text_exec(doc: &InternalDocument, idx: usize, html: bool) -> (r: Option<String>)
    ensures
        match r {
            Some(s) => table_text(*doc, idx as int, html) == Some(s@),
            None => table_text(*doc, idx as int, html) is None,
        },
{
    if idx >= doc.tables.len() {
        return None;
    }
    let t = &doc.tables[idx];
    let ts = if t.cells.len() > 0 {
        if html {
            render_table_html(&t.cells)
        } else {
            render_table_markdown(&t.cells)
        }
    } else {
        t.markdown.clone()
    };
    let v = chars_of(ts.as_str());
    let tv = trim_chars(&v);
    if tv.len() > 0 {
        Some(ts)
    } else {
        None
    }
}

} // verus!
