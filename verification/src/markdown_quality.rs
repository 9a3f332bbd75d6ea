//! Structural parsing of markdown into typed blocks, and the reading-order
//! measure (longest increasing subsequence) used to score extractions.
use vstd::prelude::*;
use crate::text::{
    chars_of, contains_seq, extend_chars, extend_str, find_exec, find_from, is_ascii_digit, is_digit, lines,
    occurs_at, slice_vec, split_lines, starts_with, starts_with_str, string_of, trim, trim_chars, trim_start,
    trim_start_index,
};

verus! {

/// Block types in a markdown document.  Heading levels are distinct types.
#[derive(Debug, Clone, Copy, PartialEq, Eq, Hash, Structural)]
pub enum MdBlockType {
    Heading1,
    Heading2,
    Heading3,
    Heading4,
    Heading5,
    Heading6,
    Paragraph,
    CodeBlock,
    Formula,
    Table,
    ListItem,
    Image,
}

pub open spec fn spec_block_name(t: MdBlockType) -> &'static str {
    match t {
        MdBlockType::Heading1 => "H1",
        MdBlockType::Heading2 => "H2",
        MdBlockType::Heading3 => "H3",
        MdBlockType::Heading4 => "H4",
        MdBlockType::Heading5 => "H5",
        MdBlockType::Heading6 => "H6",
        MdBlockType::Paragraph => "Paragraph",
        MdBlockType::CodeBlock => "Code",
        MdBlockType::Formula => "Formula",
        MdBlockType::Table => "Table",
        MdBlockType::ListItem => "ListItem",
        MdBlockType::Image => "Image",
    }
}

/// Weight of a block type in structural scoring, in tenths
/// (headings 2.0, code/formula/table 1.5, list items 1.0, paragraphs/images 0.5).
pub open spec fn spec_block_weight_tenths(t: MdBlockType) -> u32 {
    match t {
        MdBlockType::Heading1 | MdBlockType::Heading2 | MdBlockType::Heading3 | MdBlockType::Heading4
        | MdBlockType::Heading5 | MdBlockType::Heading6 => 20,
        MdBlockType::CodeBlock | MdBlockType::Formula | MdBlockType::Table => 15,
        MdBlockType::ListItem => 10,
        MdBlockType::Paragraph | MdBlockType::Image => 5,
    }
}

impl MdBlockType {
    /// Short display name of the block type.
    pub fn name(&self) -> (r: &'static str)
        ensures
            r == spec_block_name(*self),
    {
        match self {
            MdBlockType::Heading1 => "H1",
            MdBlockType::Heading2 => "H2",
            MdBlockType::Heading3 => "H3",
            MdBlockType::Heading4 => "H4",
            MdBlockType::Heading5 => "H5",
            MdBlockType::Heading6 => "H6",
            MdBlockType::Paragraph => "Paragraph",
            MdBlockType::CodeBlock => "Code",
            MdBlockType::Formula => "Formula",
            MdBlockType::Table => "Table",
            MdBlockType::ListItem => "ListItem",
            MdBlockType::Image => "Image",
        }
    }

    /// Scoring weight in tenths.
    pub fn weight_tenths(&self) -> (r: u32)
        ensures
            r == spec_block_weight_tenths(*self),
    {
        match self {
            MdBlockType::Heading1 | MdBlockType::Heading2 | MdBlockType::Heading3 | MdBlockType::Heading4
            | MdBlockType::Heading5 | MdBlockType::Heading6 => 20,
            MdBlockType::CodeBlock | MdBlockType::Formula | MdBlockType::Table => 15,
            MdBlockType::ListItem => 10,
            MdBlockType::Paragraph | MdBlockType::Image => 5,
        }
    }

    /// The display text of the block type (what `Display` would print).
    pub fn to_string(&self) -> (s: String)
        ensures
            s@ == spec_block_name(*self)@,
    {
        String::from_str(self.name())
    }
}

/// A parsed markdown block with its type and content.
#[derive(Debug, Clone)]
pub struct MdBlock {
    pub block_type: MdBlockType,
    pub content: String,
    pub index: usize,
}

// ---------------------------------------------------------------------------
// Line classification
// ---------------------------------------------------------------------------
/// `parse_heading`: the heading type and text of a (trimmed) line, if it is a heading.
pub open spec fn spec_parse_heading(l: Seq<char>) -> Option<(MdBlockType, Seq<char>)> {
    if starts_with(l, "######"@) {
        Some((MdBlockType::Heading6, trim_start(l.skip(6))))
    } else if starts_with(l, "#####"@) {
        Some((MdBlockType::Heading5, trim_start(l.skip(5))))
    } else if starts_with(l, "####"@) {
        Some((MdBlockType::Heading4, trim_start(l.skip(4))))
    } else if starts_with(l, "###"@) {
        Some((MdBlockType::Heading3, trim_start(l.skip(3))))
    } else if starts_with(l, "##"@) {
        let rest = l.skip(2);
        if rest.len() == 0 || rest[0] == ' ' {
            Some((MdBlockType::Heading2, trim_start(rest)))
        } else {
            None
        }
    } else if starts_with(l, "#"@) {
        let rest = l.skip(1);
        if rest.len() == 0 || rest[0] == ' ' {
            Some((MdBlockType::Heading1, trim_start(rest)))
        } else {
            None
        }
    } else {
        None
    }
}

/// `is_list_item`: bullet (`- `, `* `, `+ `) or a digit-led line containing `". "`.
pub open spec fn spec_is_list_item(l: Seq<char>) -> bool {
    ||| starts_with(l, "- "@)
    ||| starts_with(l, "* "@)
    ||| starts_with(l, "+ "@)
    ||| (l.len() >= 3 && is_digit(l[0]) && contains_seq(l, ". "@))
}

pub open spec fn all_digits(s: Seq<char>) -> bool {
    forall|k: int| 0 <= k < s.len() ==> is_digit(#[trigger] s[k])
}

/// `strip_list_prefix`: the text of a list item without its marker.
pub open spec fn spec_strip_list_prefix(l: Seq<char>) -> Seq<char> {
    if starts_with(l, "- "@) || starts_with(l, "* "@) || starts_with(l, "+ "@) {
        l.skip(2)
    } else {
        match find_from(l, ". "@, 0) {
            Some(d) => if all_digits(l.take(d)) {
                l.skip(d + 2)
            } else {
                l
            },
            None => l,
        }
    }
}

/// A table separator row such as `|---|:--:|`.
pub open spec fn is_separator(l: Seq<char>) -> bool {
    forall|k: int| 0 <= k < l.len() ==> (#[trigger] l[k] == '|' || l[k] == '-' || l[k] == ':' || l[k] == ' ')
}

/// Lines that end a paragraph.
pub open spec fn breaks_paragraph(t: Seq<char>) -> bool {
    ||| t.len() == 0
    ||| starts_with(t, "#"@)
    ||| starts_with(t, "```"@)
    ||| starts_with(t, "$$"@)
    ||| starts_with(t, "|"@)
    ||| starts_with(t, "!["@)
    ||| spec_is_list_item(t)
}

pub open spec fn opens_formula(t: Seq<char>) -> bool {
    starts_with(t, "$$"@) && !contains_seq(t.skip(2), "$$"@)
}

// ---------------------------------------------------------------------------
// Block grammar
// ---------------------------------------------------------------------------
/// Concatenation that puts `sep` between parts, but only once something has
/// been accumulated (an empty accumulation takes the next part as it is).
pub open spec fn join_nonempty(parts: Seq<Seq<char>>, sep: Seq<char>) -> Seq<char>
    decreases parts.len(),
{
    if parts.len() == 0 {
        Seq::empty()
    } else {
        let a = join_nonempty(parts.drop_last(), sep);
        if a.len() == 0 {
            parts.last()
        } else {
            a + sep + parts.last()
        }
    }
}

/// First index `j >= i` whose trimmed line starts with `p` (or `ls.len()`).
pub open spec fn find_line(ls: Seq<Seq<char>>, i: int, p: Seq<char>) -> int
    decreases ls.len() - i,
{
    if i >= ls.len() || i < 0 {
        if i < 0 { 0 } else { ls.len() as int }
    } else if starts_with(trim(ls[i]), p) {
        i
    } else {
        find_line(ls, i + 1, p)
    }
}

/// First index `j >= i` whose trimmed line does not start with `|` (or `ls.len()`).
pub open spec fn table_end(ls: Seq<Seq<char>>, i: int) -> int
    decreases ls.len() - i,
{
    if i >= ls.len() || i < 0 {
        if i < 0 { 0 } else { ls.len() as int }
    } else if !starts_with(trim(ls[i]), "|"@) {
        i
    } else {
        table_end(ls, i + 1)
    }
}

/// First index `j >= i` whose trimmed line ends a paragraph (or `ls.len()`).
pub open spec fn para_end(ls: Seq<Seq<char>>, i: int) -> int
    decreases ls.len() - i,
{
    if i >= ls.len() || i < 0 {
        if i < 0 { 0 } else { ls.len() as int }
    } else if breaks_paragraph(trim(ls[i])) {
        i
    } else {
        para_end(ls, i + 1)
    }
}

/// The trimmed lines of `ls[a..b]`.
pub open spec fn trimmed(ls: Seq<Seq<char>>, a: int, b: int) -> Seq<Seq<char>> {
    ls.subrange(a, b).map_values(|l: Seq<char>| trim(l))
}

/// The trimmed non-separator lines of `ls[a..b]`.
pub open spec fn table_rows(ls: Seq<Seq<char>>, a: int, b: int) -> Seq<Seq<char>> {
    trimmed(ls, a, b).filter(|t: Seq<char>| !is_separator(t))
}

/// The blocks of `ls[i..]` (line-indexed block grammar).
pub open spec fn blocks_from(ls: Seq<Seq<char>>, i: int) -> Seq<(MdBlockType, Seq<char>)>
    decreases ls.len() - i, 0int,
{
    if i >= ls.len() || i < 0 {
        Seq::empty()
    } else {
        let t = trim(ls[i]);
        if t.len() == 0 {
            blocks_from(ls, i + 1)
        } else if starts_with(t, "```"@) {
            let e = find_line(ls, i + 1, "```"@);
            if e < i + 1 || e > ls.len() {
                Seq::empty()
            } else {
                let content = join_nonempty(ls.subrange(i + 1, e), "\n"@);
                let next = if e < ls.len() { e + 1 } else { e };
                seq![(MdBlockType::CodeBlock, content)] + blocks_from(ls, next)
            }
        } else if opens_formula(t) {
            let e = find_line(ls, i + 1, "$$"@);
            if e < i + 1 || e > ls.len() {
                Seq::empty()
            } else {
                let content = join_nonempty(trimmed(ls, i + 1, e), "\n"@);
                let next = if e < ls.len() { e + 1 } else { e };
                seq![(MdBlockType::Formula, content)] + blocks_from(ls, next)
            }
        } else if spec_parse_heading(t) is Some {
            let h = spec_parse_heading(t)->0;
            seq![h] + blocks_from(ls, i + 1)
        } else if starts_with(t, "|"@) {
            let e = table_end(ls, i);
            if e <= i || e > ls.len() {
                Seq::empty()
            } else {
                let content = join_nonempty(table_rows(ls, i, e), "\n"@);
                if content.len() == 0 {
                    blocks_from(ls, e)
                } else {
                    seq![(MdBlockType::Table, content)] + blocks_from(ls, e)
                }
            }
        } else if starts_with(t, "!["@) {
            seq![(MdBlockType::Image, t)] + blocks_from(ls, i + 1)
        } else if spec_is_list_item(t) {
            seq![(MdBlockType::ListItem, spec_strip_list_prefix(t))] + blocks_from(ls, i + 1)
        } else {
            // A paragraph: this line (whatever it starts with, since no other
            // block takes it) and the following lines up to one that ends a
            // paragraph.
            let e = para_end(ls, i + 1);
            if e <= i || e > ls.len() {
                Seq::empty()
            } else {
                let content = join_nonempty(trimmed(ls, i, e), " "@);
                seq![(MdBlockType::Paragraph, content)] + blocks_from(ls, e)
            }
        }
    }
}

/// The typed blocks of a markdown text.
pub open spec fn spec_markdown_blocks(md: Seq<char>) -> Seq<(MdBlockType, Seq<char>)> {
    blocks_from(lines(md), 0)
}

// ---------------------------------------------------------------------------
// Lemmas on the index functions
// ---------------------------------------------------------------------------
proof fn lemma_find_line_bounds(ls: Seq<Seq<char>>, i: int, p: Seq<char>)
    requires
        0 <= i <= ls.len(),
    ensures
        i <= find_line(ls, i, p) <= ls.len(),
        find_line(ls, i, p) < ls.len() ==> starts_with(trim(ls[find_line(ls, i, p)]), p),
    decreases ls.len() - i,
{
    if i < ls.len() && !starts_with(trim(ls[i]), p) {
        lemma_find_line_bounds(ls, i + 1, p);
    }
}

proof fn lemma_table_end_bounds(ls: Seq<Seq<char>>, i: int)
    requires
        0 <= i <= ls.len(),
    ensures
        i <= table_end(ls, i) <= ls.len(),
    decreases ls.len() - i,
{
    if i < ls.len() && starts_with(trim(ls[i]), "|"@) {
        lemma_table_end_bounds(ls, i + 1);
    }
}

proof fn lemma_para_end_bounds(ls: Seq<Seq<char>>, i: int)
    requires
        0 <= i <= ls.len(),
    ensures
        i <= para_end(ls, i) <= ls.len(),
    decreases ls.len() - i,
{
    if i < ls.len() && !breaks_paragraph(trim(ls[i])) {
        lemma_para_end_bounds(ls, i + 1);
    }
}

// ---------------------------------------------------------------------------
// Executable classification
// ---------------------------------------------------------------------------
/// Parses a heading line (`#` .. `######`).
pub fn parse_heading(line: &Vec<char>) -> (r: Option<(MdBlockType, Vec<char>)>)
    ensures
        match r {
            Some((t, rest)) => spec_parse_heading(line@) == Some((t, rest@)),
            None => spec_parse_heading(line@) is None,
        },
{
    proof {
        reveal_strlit("######");
        reveal_strlit("#####");
        reveal_strlit("####");
        reveal_strlit("###");
        reveal_strlit("##");
        reveal_strlit("#");
    }
    if starts_with_str(line, "######") {
        let rest = slice_vec(line, 6, line.len());
        return Some((MdBlockType::Heading6, trim_start_vec(&rest)));
    }
    if starts_with_str(line, "#####") {
        let rest = slice_vec(line, 5, line.len());
        return Some((MdBlockType::Heading5, trim_start_vec(&rest)));
    }
    if starts_with_str(line, "####") {
        let rest = slice_vec(line, 4, line.len());
        return Some((MdBlockType::Heading4, trim_start_vec(&rest)));
    }
    if starts_with_str(line, "###") {
        let rest = slice_vec(line, 3, line.len());
        return Some((MdBlockType::Heading3, trim_start_vec(&rest)));
    }
    if starts_with_str(line, "##") {
        let rest = slice_vec(line, 2, line.len());
        if rest.len() == 0 || rest[0] == ' ' {
            return Some((MdBlockType::Heading2, trim_start_vec(&rest)));
        }
        return None;
    }
    if starts_with_str(line, "#") {
        let rest = slice_vec(line, 1, line.len());
        if rest.len() == 0 || rest[0] == ' ' {
            return Some((MdBlockType::Heading1, trim_start_vec(&rest)));
        }
        return None;
    }
    None
}

/// `trim_start` of a vector.
pub fn trim_start_vec(v: &Vec<char>) -> (r: Vec<char>)
    ensures
        r@ == trim_start(v@),
{
    let a = trim_start_index(v, 0);
    let r = slice_vec(v, a, v.len());
    assert(r@ =~= v@.skip(a as int));
    r
}

/// Whether a (trimmed) line is a list item.
pub fn is_list_item(line: &Vec<char>) -> (b: bool)
    ensures
        b == spec_is_list_item(line@),
{
    if starts_with_str(line, "- ") || starts_with_str(line, "* ") || starts_with_str(line, "+ ") {
        return true;
    }
    if line.len() >= 3 && is_ascii_digit(line[0]) {
        let sep = chars_of(". ");
        let f = find_exec(line, &sep, 0);
        proof {
            if f is None {
                assert forall|k: int| !occurs_at(line@, ". "@, k) by {
                    if k < 0 {
                    }
                }
            }
        }
        return f.is_some();
    }
    false
}

/// Whether every character is an ASCII digit.
fn all_digits_range(v: &Vec<char>, to: usize) -> (b: bool)
    requires
        to <= v.len(),
    ensures
        b == all_digits(v@.take(to as int)),
{
    let mut i: usize = 0;
    while i < to
        invariant
            i <= to <= v.len(),
            forall|k: int| 0 <= k < i ==> is_digit(v@[k]),
        decreases to - i,
    {
        if !is_ascii_digit(v[i]) {
            assert(!is_digit(v@.take(to as int)[i as int]));
            return false;
        }
        i += 1;
    }
    true
}

/// The text of a list item without its marker.
pub fn strip_list_prefix(line: &Vec<char>) -> (r: Vec<char>)
    ensures
        r@ == spec_strip_list_prefix(line@),
{
    if line.len() >= 2 && (starts_with_str(line, "- ") || starts_with_str(line, "* ") || starts_with_str(
        line,
        "+ ",
    )) {
        let r = slice_vec(line, 2, line.len());
        assert(r@ =~= line@.skip(2));
        return r;
    }
    let sep = chars_of(". ");
    proof {
        reveal_strlit(". ");
        reveal_strlit("- ");
        reveal_strlit("* ");
        reveal_strlit("+ ");
    }
    match find_exec(line, &sep, 0) {
        Some(d) => {
            if all_digits_range(line, d) {
                let r = slice_vec(line, d + 2, line.len());
                assert(r@ =~= line@.skip(d + 2));
                assert(find_from(line@, ". "@, 0) == Some(d as int));
                assert(all_digits(line@.take(d as int)));
                assert(r@ == spec_strip_list_prefix(line@));
                r
            } else {
                let r = slice_vec(line, 0, line.len());
                assert(r@ =~= line@);
                assert(r@ == spec_strip_list_prefix(line@));
                r
            }
        },
        None => {
            let r = slice_vec(line, 0, line.len());
            assert(r@ =~= line@);
            assert(r@ == spec_strip_list_prefix(line@));
            r
        },
    }
}

fn is_separator_line(v: &Vec<char>) -> (b: bool)
    ensures
        b == is_separator(v@),
{
    let mut i: usize = 0;
    while i < v.len()
        invariant
            i <= v.len(),
            forall|k: int| 0 <= k < i ==> (v@[k] == '|' || v@[k] == '-' || v@[k] == ':' || v@[k] == ' '),
        decreases v.len() - i,
    {
        let c = v[i];
        if !(c == '|' || c == '-' || c == ':' || c == ' ') {
            return false;
        }
        i += 1;
    }
    true
}

fn breaks_paragraph_exec(t: &Vec<char>) -> (b: bool)
    ensures
        b == breaks_paragraph(t@),
{
    t.len() == 0 || starts_with_str(t, "#") || starts_with_str(t, "```") || starts_with_str(t, "$$")
        || starts_with_str(t, "|") || starts_with_str(t, "![") || is_list_item(t)
}

fn opens_formula_exec(t: &Vec<char>) -> (b: bool)
    ensures
        b == opens_formula(t@),
{
    if !starts_with_str(t, "$$") {
        return false;
    }
    proof {
        reveal_strlit("$$");
    }
    let rest = slice_vec(t, 2, t.len());
    let dd = chars_of("$$");
    let f = find_exec(&rest, &dd, 0);
    proof {
        assert(rest@ =~= t@.skip(2));
        if f is None {
            assert forall|k: int| !occurs_at(rest@, "$$"@, k) by {
                if k < 0 {
                }
            }
        } else {
            assert(occurs_at(rest@, "$$"@, f->0 as int));
        }
    }
    f.is_none()
}

/// Appends `part` to `acc`, with `sep` in between when `acc` is not empty.
fn join_push(acc: &mut Vec<char>, part: &Vec<char>, sep: &str)
    ensures
        final(acc)@ == (if old(acc)@.len() == 0 {
            part@
        } else {
            old(acc)@ + sep@ + part@
        }),
{
    if acc.len() > 0 {
        extend_str(acc, sep);
    }
    extend_chars(acc, part);
    assert(Seq::<char>::empty() + part@ =~= part@);
}

proof fn lemma_join_push(parts: Seq<Seq<char>>, p: Seq<char>, sep: Seq<char>)
    ensures
        join_nonempty(parts.push(p), sep) == (if join_nonempty(parts, sep).len() == 0 {
            p
        } else {
            join_nonempty(parts, sep) + sep + p
        }),
{
    assert(parts.push(p).drop_last() =~= parts);
}

proof fn lemma_subrange_push(sl: Seq<Seq<char>>, a: int, j: int)
    requires
        0 <= a <= j < sl.len(),
    ensures
        sl.subrange(a, j + 1) == sl.subrange(a, j).push(sl[j]),
        trimmed(sl, a, j + 1) == trimmed(sl, a, j).push(trim(sl[j])),
{
    assert(sl.subrange(a, j + 1) =~= sl.subrange(a, j).push(sl[j]));
    assert(trimmed(sl, a, j + 1) =~= trimmed(sl, a, j).push(trim(sl[j])));
}

/// Lines `sl` as vectors, with their trimmed forms.
pub open spec fn line_views(ls: Seq<Vec<char>>, tl: Seq<Vec<char>>, sl: Seq<Seq<char>>) -> bool {
    &&& ls.len() == sl.len()
    &&& tl.len() == sl.len()
    &&& forall|k: int| 0 <= k < ls.len() ==> #[trigger] ls[k]@ == sl[k]
    &&& forall|k: int| 0 <= k < tl.len() ==> #[trigger] tl[k]@ == trim(sl[k])
}

/// Collects the body of a fenced block (code or formula) that opens at line `i`.
fn collect_fenced(
    ls: &Vec<Vec<char>>,
    tl: &Vec<Vec<char>>,
    i: usize,
    fence: &str,
    use_trimmed: bool,
    Ghost(sl): Ghost<Seq<Seq<char>>>,
) -> (r: (Vec<char>, usize))
    requires
        line_views(ls@, tl@, sl),
        i < sl.len(),
    ensures
        r.1 == find_line(sl, i + 1, fence@),
        i + 1 <= r.1 <= sl.len(),
        r.0@ == (if use_trimmed {
            join_nonempty(trimmed(sl, i + 1, r.1 as int), "\n"@)
        } else {
            join_nonempty(sl.subrange(i + 1, r.1 as int), "\n"@)
        }),
{
    let n = tl.len();
    let mut content: Vec<char> = Vec::new();
    let mut j = i + 1;
    proof {
        lemma_find_line_bounds(sl, i + 1, fence@);
    }
    while j < n && !starts_with_str(&tl[j], fence)
        invariant
            line_views(ls@, tl@, sl),
            i + 1 <= j <= n == sl.len(),
            find_line(sl, j as int, fence@) == find_line(sl, i + 1, fence@),
            content@ == (if use_trimmed {
                join_nonempty(trimmed(sl, i + 1, j as int), "\n"@)
            } else {
                join_nonempty(sl.subrange(i + 1, j as int), "\n"@)
            }),
        decreases n - j,
    {
        proof {
            lemma_subrange_push(sl, i + 1, j as int);
            lemma_join_push(trimmed(sl, i + 1, j as int), trim(sl[j as int]), "\n"@);
            lemma_join_push(sl.subrange(i + 1, j as int), sl[j as int], "\n"@);
        }
        if use_trimmed {
            join_push(&mut content, &tl[j], "\n");
        } else {
            join_push(&mut content, &ls[j], "\n");
        }
        j += 1;
    }
    (content, j)
}

/// Collects a table that opens at line `i`.
fn collect_table(tl: &Vec<Vec<char>>, i: usize, Ghost(sl): Ghost<Seq<Seq<char>>>) -> (r: (
    Vec<char>,
    usize,
))
    requires
        tl@.len() == sl.len(),
        forall|k: int| 0 <= k < tl@.len() ==> #[trigger] tl@[k]@ == trim(sl[k]),
        i < sl.len(),
        starts_with(trim(sl[i as int]), "|"@),
    ensures
        r.1 == table_end(sl, i as int),
        i < r.1 <= sl.len(),
        r.0@ == join_nonempty(table_rows(sl, i as int, r.1 as int), "\n"@),
{
    let mut content: Vec<char> = Vec::new();
    let mut j = i;
    let n = tl.len();
    proof {
        lemma_table_end_bounds(sl, i as int);
        assert(table_end(sl, i as int) == table_end(sl, i + 1));
        lemma_table_end_bounds(sl, i + 1);
        assert(trimmed(sl, i as int, i as int) =~= Seq::<Seq<char>>::empty());
        reveal(Seq::filter);
        assert(table_rows(sl, i as int, i as int) =~= Seq::<Seq<char>>::empty());
    }
    while j < n && starts_with_str(&tl[j], "|")
        invariant
            tl@.len() == sl.len(),
            forall|k: int| 0 <= k < tl@.len() ==> #[trigger] tl@[k]@ == trim(sl[k]),
            i <= j <= n == sl.len(),
            table_end(sl, j as int) == table_end(sl, i as int),
            content@ == join_nonempty(table_rows(sl, i as int, j as int), "\n"@),
        decreases n - j,
    {
        let tj = &tl[j];
        let ghost old_rows = table_rows(sl, i as int, j as int);
        proof {
            lemma_subrange_push(sl, i as int, j as int);
            trimmed(sl, i as int, j as int).lemma_filter_push(tj@, |t: Seq<char>| !is_separator(t));
            lemma_join_push(old_rows, tj@, "\n"@);
        }
        if !is_separator_line(tj) {
            join_push(&mut content, tj, "\n");
            proof {
                assert(table_rows(sl, i as int, j + 1) == old_rows.push(tj@));
                assert(table_rows(sl, i as int, j + 1).drop_last() =~= old_rows);
            }
        } else {
            assert(table_rows(sl, i as int, j + 1) == old_rows);
        }
        j += 1;
    }
    (content, j)
}

/// Collects a paragraph that opens at line `i`: that line and the lines
/// after it up to one that ends a paragraph.
fn collect_paragraph(tl: &Vec<Vec<char>>, i: usize, Ghost(sl): Ghost<Seq<Seq<char>>>) -> (r: (
    Vec<char>,
    usize,
))
    requires
        tl@.len() == sl.len(),
        forall|k: int| 0 <= k < tl@.len() ==> #[trigger] tl@[k]@ == trim(sl[k]),
        i < sl.len(),
    ensures
        r.1 == para_end(sl, i + 1),
        i < r.1 <= sl.len(),
        r.0@ == join_nonempty(trimmed(sl, i as int, r.1 as int), " "@),
{
    let mut content: Vec<char> = Vec::new();
    let n = tl.len();
    proof {
        lemma_para_end_bounds(sl, i + 1);
        assert(trimmed(sl, i as int, i as int) =~= Seq::<Seq<char>>::empty());
        lemma_subrange_push(sl, i as int, i as int);
        lemma_join_push(trimmed(sl, i as int, i as int), trim(sl[i as int]), " "@);
    }
    join_push(&mut content, &tl[i], " ");
    let mut j = i + 1;
    while j < n && !breaks_paragraph_exec(&tl[j])
        invariant
            tl@.len() == sl.len(),
            forall|k: int| 0 <= k < tl@.len() ==> #[trigger] tl@[k]@ == trim(sl[k]),
            i < j <= n == sl.len(),
            para_end(sl, j as int) == para_end(sl, i + 1),
            content@ == join_nonempty(trimmed(sl, i as int, j as int), " "@),
        decreases n - j,
    {
        proof {
            lemma_subrange_push(sl, i as int, j as int);
            lemma_join_push(trimmed(sl, i as int, j as int), trim(sl[j as int]), " "@);
        }
        join_push(&mut content, &tl[j], " ");
        j += 1;
    }
    (content, j)
}

/// Parses the block that starts at line `i` (which is not blank).
fn parse_block_at(
    ls: &Vec<Vec<char>>,
    tl: &Vec<Vec<char>>,
    i: usize,
    Ghost(sl): Ghost<Seq<Seq<char>>>,
) -> (r: (Option<(MdBlockType, Vec<char>)>, usize))
    requires
        line_views(ls@, tl@, sl),
        i < sl.len(),
        trim(sl[i as int]).len() > 0,
    ensures
        i < r.1 <= sl.len(),
        blocks_from(sl, i as int) == (match r.0 {
            Some((ty, c)) => seq![(ty, c@)],
            None => Seq::empty(),
        }) + blocks_from(sl, r.1 as int),
{
    let n = tl.len();
    let t = &tl[i];
    if starts_with_str(t, "```") {
        let (content, j) = collect_fenced(ls, tl, i, "```", false, Ghost(sl));
        let next = if j < tl.len() { j + 1 } else { j };
        return (Some((MdBlockType::CodeBlock, content)), next);
    }
    if opens_formula_exec(t) {
        let (content, j) = collect_fenced(ls, tl, i, "$$", true, Ghost(sl));
        let next = if j < tl.len() { j + 1 } else { j };
        return (Some((MdBlockType::Formula, content)), next);
    }
    match parse_heading(t) {
        Some((ty, rest)) => {
            return (Some((ty, rest)), i + 1);
        },
        None => {},
    }
    if starts_with_str(t, "|") {
        let (content, j) = collect_table(tl, i, Ghost(sl));
        if content.len() > 0 {
            return (Some((MdBlockType::Table, content)), j);
        } else {
            assert(Seq::<(MdBlockType, Seq<char>)>::empty() + blocks_from(sl, j as int) =~= blocks_from(sl, j as int));
            return (None, j);
        }
    }
    if starts_with_str(t, "![") {
        let c = slice_vec(t, 0, t.len());
        assert(c@ =~= t@);
        return (Some((MdBlockType::Image, c)), i + 1);
    }
    if is_list_item(t) {
        return (Some((MdBlockType::ListItem, strip_list_prefix(t))), i + 1);
    }
    let (content, j) = collect_paragraph(tl, i, Ghost(sl));
    (Some((MdBlockType::Paragraph, content)), j)
}

/// The type and content of each block.
pub open spec fn block_views(bs: Seq<MdBlock>) -> Seq<(MdBlockType, Seq<char>)> {
    bs.map_values(|b: MdBlock| (b.block_type, b.content@))
}

proof fn lemma_views_push(bs: Seq<MdBlock>, b: MdBlock)
    ensures
        block_views(bs.push(b)) == block_views(bs).push((b.block_type, b.content@)),
{
    assert(block_views(bs.push(b)) =~= block_views(bs).push((b.block_type, b.content@)));
}

proof fn lemma_append_step(d: Seq<(MdBlockType, Seq<char>)>, x: (MdBlockType, Seq<char>), rest: Seq<(MdBlockType, Seq<char>)>)
    ensures
        d + (seq![x] + rest) == d.push(x) + rest,
{
    assert(d + (seq![x] + rest) =~= d.push(x) + rest);
}

/// Parses what starts at line `i`: a blank line is skipped, otherwise one
/// block (if it yields one) is appended.  Returns the next line.
fn parse_step(
    ls: &Vec<Vec<char>>,
    tl: &Vec<Vec<char>>,
    i: usize,
    blocks: &mut Vec<MdBlock>,
    Ghost(sl): Ghost<Seq<Seq<char>>>,
) -> (next: usize)
    requires
        line_views(ls@, tl@, sl),
        i < sl.len(),
        forall|k: int| 0 <= k < old(blocks)@.len() ==> (#[trigger] old(blocks)@[k]).index == k,
    ensures
        i < next <= sl.len(),
        block_views(final(blocks)@) + blocks_from(sl, next as int) == block_views(old(blocks)@) + blocks_from(
            sl,
            i as int,
        ),
        forall|k: int| 0 <= k < final(blocks)@.len() ==> (#[trigger] final(blocks)@[k]).index == k,
{
    let n = tl.len();
    if tl[i].len() == 0 {
        proof {
            lemma_blank_line(sl, i as int);
        }
        assert(i < n);
        return i + 1;
    }
    let (b, next) = parse_block_at(ls, tl, i, Ghost(sl));
    match b {
        Some((ty, content)) => {
            let ghost before = blocks@;
            let c = string_of(&content);
            let idx = blocks.len();
            blocks.push(MdBlock { block_type: ty, content: c, index: idx });
            proof {
                lemma_views_push(before, blocks@.last());
                assert(blocks@ == before.push(blocks@.last()));
                lemma_append_step(block_views(before), (ty, content@), blocks_from(sl, next as int));
                assert forall|k: int| 0 <= k < blocks@.len() implies (#[trigger] blocks@[k]).index == k by {
                    if k < before.len() {
                        assert(blocks@[k] == before[k]);
                    }
                }
            }
        },
        None => {
            assert(Seq::<(MdBlockType, Seq<char>)>::empty() + blocks_from(sl, next as int) =~= blocks_from(sl, next as int));
        },
    }
    next
}

proof fn lemma_blocks_at_end(sl: Seq<Seq<char>>)
    ensures
        blocks_from(sl, sl.len() as int) == Seq::<(MdBlockType, Seq<char>)>::empty(),
{
}

proof fn lemma_blank_line(sl: Seq<Seq<char>>, i: int)
    requires
        0 <= i < sl.len(),
        trim(sl[i]).len() == 0,
    ensures
        blocks_from(sl, i) == blocks_from(sl, i + 1),
{
}

/// A paragraph or table block carries text.
pub open spec fn carries_text(b: (MdBlockType, Seq<char>)) -> bool {
    (b.0 == MdBlockType::Paragraph || b.0 == MdBlockType::Table) ==> b.1.len() > 0
}

proof fn lemma_join_first_nonempty(parts: Seq<Seq<char>>, sep: Seq<char>)
    requires
        parts.len() > 0,
        parts[0].len() > 0,
    ensures
        join_nonempty(parts, sep).len() > 0,
    decreases parts.len(),
{
    if parts.len() > 1 {
        lemma_join_first_nonempty(parts.drop_last(), sep);
    }
}

proof fn lemma_cons_carries(h: (MdBlockType, Seq<char>), rest: Seq<(MdBlockType, Seq<char>)>)
    requires
        carries_text(h),
        forall|k: int| 0 <= k < rest.len() ==> carries_text(#[trigger] rest[k]),
    ensures
        forall|k: int| 0 <= k < (seq![h] + rest).len() ==> carries_text(#[trigger] (seq![h] + rest)[k]),
{
    assert forall|k: int| 0 <= k < (seq![h] + rest).len() implies carries_text(#[trigger] (seq![h] + rest)[k]) by {
        if k > 0 {
            assert((seq![h] + rest)[k] == rest[k - 1]);
        }
    }
}

proof fn lemma_paragraph_carries(ls: Seq<Seq<char>>, i: int, e: int)
    requires
        0 <= i < e <= ls.len(),
        trim(ls[i]).len() > 0,
    ensures
        join_nonempty(trimmed(ls, i, e), " "@).len() > 0,
{
    let parts = trimmed(ls, i, e);
    assert(parts[0] == trim(ls[i]));
    lemma_join_first_nonempty(parts, " "@);
}

proof fn lemma_unfold_fenced(ls: Seq<Seq<char>>, i: int, e: int, next: int)
    requires
        0 <= i < ls.len(),
        trim(ls[i]).len() > 0,
        starts_with(trim(ls[i]), "```"@),
        e == find_line(ls, i + 1, "```"@),
        i + 1 <= e <= ls.len(),
        next == (if e < ls.len() { e + 1 } else { e }),
    ensures
        blocks_from(ls, i) == seq![(MdBlockType::CodeBlock, join_nonempty(ls.subrange(i + 1, e), "\n"@))]
            + blocks_from(ls, next),
{
}

proof fn lemma_unfold_formula(ls: Seq<Seq<char>>, i: int, e: int, next: int)
    requires
        0 <= i < ls.len(),
        trim(ls[i]).len() > 0,
        !starts_with(trim(ls[i]), "```"@),
        opens_formula(trim(ls[i])),
        e == find_line(ls, i + 1, "$$"@),
        i + 1 <= e <= ls.len(),
        next == (if e < ls.len() { e + 1 } else { e }),
    ensures
        blocks_from(ls, i) == seq![(MdBlockType::Formula, join_nonempty(trimmed(ls, i + 1, e), "\n"@))]
            + blocks_from(ls, next),
{
}

/// The blocks after the first of `ls[i..]`, for a line that is neither blank,
/// a fence nor a formula opener.
proof fn lemma_unfold_single(ls: Seq<Seq<char>>, i: int)
    requires
        0 <= i < ls.len(),
        trim(ls[i]).len() > 0,
        !starts_with(trim(ls[i]), "```"@),
        !opens_formula(trim(ls[i])),
    ensures
        spec_parse_heading(trim(ls[i])) is Some ==> blocks_from(ls, i) == seq![spec_parse_heading(trim(ls[i]))->0]
            + blocks_from(ls, i + 1),
        spec_parse_heading(trim(ls[i])) is None && !starts_with(trim(ls[i]), "|"@) && starts_with(
            trim(ls[i]),
            "!["@,
        ) ==> blocks_from(ls, i) == seq![(MdBlockType::Image, trim(ls[i]))] + blocks_from(ls, i + 1),
        spec_parse_heading(trim(ls[i])) is None && !starts_with(trim(ls[i]), "|"@) && !starts_with(
            trim(ls[i]),
            "!["@,
        ) && spec_is_list_item(trim(ls[i])) ==> blocks_from(ls, i) == seq![
            (MdBlockType::ListItem, spec_strip_list_prefix(trim(ls[i]))),
        ] + blocks_from(ls, i + 1),
{
}

proof fn lemma_unfold_table(ls: Seq<Seq<char>>, i: int, e: int)
    requires
        0 <= i < ls.len(),
        trim(ls[i]).len() > 0,
        !starts_with(trim(ls[i]), "```"@),
        !opens_formula(trim(ls[i])),
        spec_parse_heading(trim(ls[i])) is None,
        starts_with(trim(ls[i]), "|"@),
        e == table_end(ls, i),
        i < e <= ls.len(),
    ensures
        join_nonempty(table_rows(ls, i, e), "\n"@).len() == 0 ==> blocks_from(ls, i) == blocks_from(ls, e),
        join_nonempty(table_rows(ls, i, e), "\n"@).len() > 0 ==> blocks_from(ls, i) == seq![
            (MdBlockType::Table, join_nonempty(table_rows(ls, i, e), "\n"@)),
        ] + blocks_from(ls, e),
{
}

proof fn lemma_unfold_paragraph(ls: Seq<Seq<char>>, i: int, e: int)
    requires
        0 <= i < ls.len(),
        trim(ls[i]).len() > 0,
        !starts_with(trim(ls[i]), "```"@),
        !opens_formula(trim(ls[i])),
        spec_parse_heading(trim(ls[i])) is None,
        !starts_with(trim(ls[i]), "|"@),
        !starts_with(trim(ls[i]), "!["@),
        !spec_is_list_item(trim(ls[i])),
        e == para_end(ls, i + 1),
        i < e <= ls.len(),
    ensures
        blocks_from(ls, i) == seq![(MdBlockType::Paragraph, join_nonempty(trimmed(ls, i, e), " "@))]
            + blocks_from(ls, e),
{
}

proof fn lemma_blocks_carry_text(ls: Seq<Seq<char>>, i: int)
    ensures
        forall|k: int| 0 <= k < blocks_from(ls, i).len() ==> carries_text(#[trigger] blocks_from(ls, i)[k]),
    decreases ls.len() - i,
{
    if i >= ls.len() || i < 0 {
    } else {
        let t = trim(ls[i]);
        if t.len() == 0 {
            lemma_blocks_carry_text(ls, i + 1);
        } else if starts_with(t, "```"@) {
            let e = find_line(ls, i + 1, "```"@);
            if i + 1 <= e <= ls.len() {
                let next = if e < ls.len() { e + 1 } else { e };
                lemma_blocks_carry_text(ls, next);
                lemma_unfold_fenced(ls, i, e, next);
                lemma_cons_carries(
                    (MdBlockType::CodeBlock, join_nonempty(ls.subrange(i + 1, e), "\n"@)),
                    blocks_from(ls, next),
                );
            }
        } else if opens_formula(t) {
            let e = find_line(ls, i + 1, "$$"@);
            if i + 1 <= e <= ls.len() {
                let next = if e < ls.len() { e + 1 } else { e };
                lemma_blocks_carry_text(ls, next);
                lemma_unfold_formula(ls, i, e, next);
                lemma_cons_carries(
                    (MdBlockType::Formula, join_nonempty(trimmed(ls, i + 1, e), "\n"@)),
                    blocks_from(ls, next),
                );
            }
        } else if spec_parse_heading(t) is Some {
            lemma_blocks_carry_text(ls, i + 1);
            lemma_unfold_single(ls, i);
            lemma_cons_carries(spec_parse_heading(t)->0, blocks_from(ls, i + 1));
        } else if starts_with(t, "|"@) {
            let e = table_end(ls, i);
            if i < e <= ls.len() {
                lemma_blocks_carry_text(ls, e);
                lemma_unfold_table(ls, i, e);
                let content = join_nonempty(table_rows(ls, i, e), "\n"@);
                if content.len() > 0 {
                    lemma_cons_carries((MdBlockType::Table, content), blocks_from(ls, e));
                }
            }
        } else if starts_with(t, "!["@) {
            lemma_blocks_carry_text(ls, i + 1);
            lemma_unfold_single(ls, i);
            lemma_cons_carries((MdBlockType::Image, t), blocks_from(ls, i + 1));
        } else if spec_is_list_item(t) {
            lemma_blocks_carry_text(ls, i + 1);
            lemma_unfold_single(ls, i);
            lemma_cons_carries((MdBlockType::ListItem, spec_strip_list_prefix(t)), blocks_from(ls, i + 1));
        } else {
            let e = para_end(ls, i + 1);
            if i < e <= ls.len() {
                lemma_blocks_carry_text(ls, e);
                lemma_unfold_paragraph(ls, i, e);
                lemma_paragraph_carries(ls, i, e);
                lemma_cons_carries(
                    (MdBlockType::Paragraph, join_nonempty(trimmed(ls, i, e), " "@)),
                    blocks_from(ls, e),
                );
            }
        }
    }
}

/// Every paragraph and table block that a markdown text parses into carries
/// text: no such block is empty.
pub proof fn paragraphs_and_tables_carry_text(md: Seq<char>)
    ensures
        forall|k: int|
            0 <= k < spec_markdown_blocks(md).len() ==> carries_text(#[trigger] spec_markdown_blocks(md)[k]),
{
    lemma_blocks_carry_text(lines(md), 0);
}

/// Parse a markdown string into a sequence of typed blocks.
///
/// Blank lines separate blocks; fenced code, `$$` formulas, `#` headings,
/// `|` tables, `![` images, list items and paragraphs are recognised.  A line
/// that no block takes (such as `#Title` or `$$x$$`) opens a paragraph, so
/// every text is parsed to its end.
pub fn parse_markdown_blocks(md: &str) -> (blocks: Vec<MdBlock>)
    ensures
        blocks@.len() == spec_markdown_blocks(md@).len(),
        forall|k: int|
            0 <= k < blocks@.len() ==> {
                &&& (#[trigger] blocks@[k]).block_type == spec_markdown_blocks(md@)[k].0
                &&& blocks@[k].content@ == spec_markdown_blocks(md@)[k].1
                &&& blocks@[k].index == k
            },
{
    let text = chars_of(md);
    let ls = split_lines(&text);
    let ghost sl = lines(md@);
    let n = ls.len();
    let mut tl: Vec<Vec<char>> = Vec::new();
    let mut q: usize = 0;
    while q < n
        invariant
            q <= n == ls@.len() == sl.len(),
            forall|k: int| 0 <= k < ls@.len() ==> #[trigger] ls@[k]@ == sl[k],
            tl@.len() == q,
            forall|k: int| 0 <= k < q ==> #[trigger] tl@[k]@ == trim(sl[k]),
        decreases n - q,
    {
        tl.push(trim_chars(&ls[q]));
        q += 1;
    }
    let mut blocks: Vec<MdBlock> = Vec::new();
    let mut i: usize = 0;
    assert(block_views(blocks@) =~= Seq::<(MdBlockType, Seq<char>)>::empty());
    while i < n
        invariant
            i <= n == sl.len(),
            line_views(ls@, tl@, sl),
            sl == lines(md@),
            blocks_from(sl, 0) == block_views(blocks@) + blocks_from(sl, i as int),
            forall|k: int| 0 <= k < blocks@.len() ==> (#[trigger] blocks@[k]).index == k,
        decreases n - i,
    {
        i = parse_step(&ls, &tl, i, &mut blocks, Ghost(sl));
    }
    proof {
        lemma_blocks_at_end(sl);
        assert(block_views(blocks@) + Seq::<(MdBlockType, Seq<char>)>::empty() =~= block_views(blocks@));
        assert forall|k: int| 0 <= k < blocks@.len() implies block_views(blocks@)[k] == ((#[trigger] blocks@[k]).block_type, blocks@[k].content@) by {}
    }
    blocks
}

// ---------------------------------------------------------------------------
// Longest increasing subsequence
// ---------------------------------------------------------------------------
/// `idx` picks positions of `s` in increasing order whose values strictly increase.
pub open spec fn is_increasing_subseq(s: Seq<usize>, idx: Seq<int>) -> bool {
    &&& forall|k: int| 0 <= k < idx.len() ==> 0 <= #[trigger] idx[k] < s.len()
    &&& forall|a: int, b: int|
        0 <= a < b < idx.len() ==> #[trigger] idx[a] < #[trigger] idx[b] && s[idx[a]] < s[idx[b]]
}

/// `n` is the length of a longest strictly increasing subsequence of `s`.
pub open spec fn is_lis_length(s: Seq<usize>, n: int) -> bool {
    &&& exists|idx: Seq<int>| is_increasing_subseq(s, idx) && idx.len() == n
    &&& forall|idx: Seq<int>| #[trigger] is_increasing_subseq(s, idx) ==> idx.len() <= n
}

/// Patience-sorting state after reading `s[..i]`: `tails[j]` is the least
/// last value of an increasing subsequence of length `j + 1`.
spec fn tails_inv(s: Seq<usize>, i: int, tails: Seq<usize>, wit: Seq<Seq<int>>) -> bool {
    &&& 0 <= i <= s.len()
    &&& wit.len() == tails.len()
    &&& forall|a: int, b: int| 0 <= a < b < tails.len() ==> #[trigger] tails[a] < #[trigger] tails[b]
    &&& forall|j: int|
        0 <= j < tails.len() ==> {
            &&& is_increasing_subseq(s, #[trigger] wit[j])
            &&& wit[j].len() == j + 1
            &&& forall|k: int| 0 <= k < wit[j].len() ==> wit[j][k] < i
            &&& s[wit[j][j]] == tails[j]
        }
    &&& forall|idx: Seq<int>|
        #[trigger] is_increasing_subseq(s, idx) && idx.len() >= 1 && idx[idx.len() - 1] < i ==> {
            &&& idx.len() <= tails.len()
            &&& tails[idx.len() - 1] <= s[idx[idx.len() - 1]]
        }
}

/// Appending position `p` to an increasing subsequence whose values end below `s[p]`.
proof fn lemma_extend_subseq(s: Seq<usize>, w: Seq<int>, p: int)
    requires
        is_increasing_subseq(s, w),
        0 <= p < s.len(),
        w.len() > 0 ==> w[w.len() - 1] < p && s[w[w.len() - 1]] < s[p],
    ensures
        is_increasing_subseq(s, w.push(p)),
{
    let w2 = w.push(p);
    assert forall|a: int, b: int| 0 <= a < b < w2.len() implies #[trigger] w2[a] < #[trigger] w2[b] && s[w2[a]] < s[w2[b]] by {
        if b == w.len() {
            if a < w.len() - 1 {
                assert(w[a] < w[w.len() - 1]);
                assert(s[w[a]] < s[w[w.len() - 1]]);
            }
        } else {
            assert(w[a] < w[b]);
        }
    }
}

/// Dropping the last position keeps a subsequence increasing.
proof fn lemma_drop_last_subseq(s: Seq<usize>, w: Seq<int>)
    requires
        is_increasing_subseq(s, w),
        w.len() > 0,
    ensures
        is_increasing_subseq(s, w.drop_last()),
{
    let w2 = w.drop_last();
    assert forall|a: int, b: int| 0 <= a < b < w2.len() implies #[trigger] w2[a] < #[trigger] w2[b] && s[w2[a]] < s[w2[b]] by {
        assert(w[a] < w[b]);
    }
}

/// The lower bound of `val` in a strictly increasing vector.
fn lower_bound(tails: &Vec<usize>, val: usize) -> (pos: usize)
    requires
        forall|a: int, b: int| 0 <= a < b < tails@.len() ==> #[trigger] tails@[a] < #[trigger] tails@[b],
    ensures
        pos <= tails.len(),
        forall|k: int| 0 <= k < pos ==> tails@[k] < val,
        forall|k: int| pos <= k < tails@.len() ==> tails@[k] >= val,
{
    let mut lo: usize = 0;
    let mut hi: usize = tails.len();
    while lo < hi
        invariant
            lo <= hi <= tails.len(),
            forall|a: int, b: int| 0 <= a < b < tails@.len() ==> #[trigger] tails@[a] < #[trigger] tails@[b],
            forall|k: int| 0 <= k < lo ==> tails@[k] < val,
            forall|k: int| hi <= k < tails@.len() ==> tails@[k] >= val,
        decreases hi - lo,
    {
        let mid = lo + (hi - lo) / 2;
        if tails[mid] < val {
            proof {
                assert forall|k: int| 0 <= k < mid + 1 implies tails@[k] < val by {
                    if k < mid {
                        assert(tails@[k] < tails@[mid as int]);
                    }
                }
            }
            lo = mid + 1;
        } else {
            proof {
                assert forall|k: int| mid <= k < tails@.len() implies tails@[k] >= val by {
                    if k > mid {
                        assert(tails@[mid as int] < tails@[k]);
                    }
                }
            }
            hi = mid;
        }
    }
    lo
}

/// One patience-sorting step preserves `tails_inv`.
proof fn lemma_tails_step(
    s: Seq<usize>,
    i: int,
    tails: Seq<usize>,
    wit: Seq<Seq<int>>,
    pos: int,
    tails2: Seq<usize>,
    wit2: Seq<Seq<int>>,
)
    requires
        tails_inv(s, i, tails, wit),
        i < s.len(),
        0 <= pos <= tails.len(),
        forall|k: int| 0 <= k < pos ==> tails[k] < s[i],
        forall|k: int| pos <= k < tails.len() ==> tails[k] >= s[i],
        pos < tails.len() && tails[pos] == s[i] ==> tails2 == tails && wit2 == wit,
        pos == tails.len() ==> tails2 == tails.push(s[i]) && wit2 == wit.push(
            if pos == 0 { seq![i] } else { wit[pos - 1].push(i) },
        ),
        pos < tails.len() && tails[pos] != s[i] ==> tails2 == tails.update(pos, s[i]) && wit2 == wit.update(
            pos,
            if pos == 0 { seq![i] } else { wit[pos - 1].push(i) },
        ),
    ensures
        tails_inv(s, i + 1, tails2, wit2),
{
    let v = s[i];
    let nw = if pos == 0 { seq![i] } else { wit[pos - 1].push(i) };
    if pos > 0 {
        let w = wit[pos - 1];
        assert(is_increasing_subseq(s, w) && w.len() == pos);
        assert(w[w.len() - 1] < i);
        assert(s[w[pos - 1]] == tails[pos - 1]);
        lemma_extend_subseq(s, w, i);
    } else {
        assert(is_increasing_subseq(s, nw));
    }
    assert(nw.len() == pos + 1);
    assert(s[nw[pos]] == v);
    assert forall|k: int| 0 <= k < nw.len() implies nw[k] < i + 1 by {
        if pos > 0 && k < pos {
            assert(wit[pos - 1][k] < i);
        }
    }
    // strict order of tails2
    assert forall|a: int, b: int| 0 <= a < b < tails2.len() implies #[trigger] tails2[a] < #[trigger] tails2[b] by {
        if pos < tails.len() && tails[pos] != v {
            if a == pos {
                assert(tails[pos] < tails[b] || b == pos);
            } else if b == pos {
                assert(tails[a] < v);
            }
        } else if pos == tails.len() {
            if b == pos {
                assert(tails[a] < v);
            }
        }
    }
    // witnesses
    assert forall|j: int| 0 <= j < tails2.len() implies {
        &&& is_increasing_subseq(s, #[trigger] wit2[j])
        &&& wit2[j].len() == j + 1
        &&& forall|k: int| 0 <= k < wit2[j].len() ==> wit2[j][k] < i + 1
        &&& s[wit2[j][j]] == tails2[j]
    } by {
        if j == pos && !(pos < tails.len() && tails[pos] == v) {
            assert(wit2[j] == nw);
        } else {
            assert(wit2[j] == wit[j]);
            assert(tails2[j] == tails[j]);
            assert forall|k: int| 0 <= k < wit2[j].len() implies wit2[j][k] < i + 1 by {
                assert(wit[j][k] < i);
            }
        }
    }
    // optimality
    assert forall|idx: Seq<int>|
        #[trigger] is_increasing_subseq(s, idx) && idx.len() >= 1 && idx[idx.len() - 1] < i + 1 implies {
        &&& idx.len() <= tails2.len()
        &&& tails2[idx.len() - 1] <= s[idx[idx.len() - 1]]
    } by {
        let l = idx.len();
        if idx[l - 1] < i {
            assert(l <= tails.len());
            assert(tails[l - 1] <= s[idx[l - 1]]);
            if pos == l - 1 && pos < tails.len() && tails[pos] != v {
                assert(tails2[l - 1] == v);
                assert(v <= tails[pos]);
            }
        } else {
            // the subsequence ends at position i
            assert(idx[l - 1] == i);
            if l >= 2 {
                let pre = idx.drop_last();
                lemma_drop_last_subseq(s, idx);
                assert(pre[pre.len() - 1] == idx[l - 2]);
                assert(idx[l - 2] < idx[l - 1]);
                assert(pre[pre.len() - 1] < i);
                assert(pre.len() <= tails.len());
                assert(tails[l - 2] <= s[idx[l - 2]]);
                assert(s[idx[l - 2]] < s[idx[l - 1]]);
                assert(tails[l - 2] < v);
                if pos < l - 1 {
                    assert(tails[pos] >= v);
                    assert(tails[pos] <= tails[l - 2]) by {
                        if pos < l - 2 {
                            assert(tails[pos] < tails[l - 2]);
                        }
                    }
                }
                assert(l - 1 <= pos);
            }
            if l - 1 < pos {
                assert(tails2[l - 1] == tails[l - 1]);
                assert(tails[l - 1] < v);
            }
        }
    }
}

/// Length of the longest strictly increasing subsequence (patience sorting).
pub fn longest_increasing_subsequence_length(seq: &[usize]) -> (n: usize)
    ensures
        is_lis_length(seq@, n as int),
{
    let mut tails: Vec<usize> = Vec::new();
    let ghost mut wit: Seq<Seq<int>> = Seq::empty();
    let mut i: usize = 0;
    while i < seq.len()
        invariant
            i <= seq@.len(),
            tails_inv(seq@, i as int, tails@, wit),
            tails@.len() <= i,
        decreases seq.len() - i,
    {
        let val = seq[i];
        let pos = lower_bound(&tails, val);
        let ghost t0 = tails@;
        let ghost w0 = wit;
        let ghost nw = if pos == 0 { seq![i as int] } else { w0[pos - 1].push(i as int) };
        if pos < tails.len() && tails[pos] == val {
        } else if pos == tails.len() {
            tails.push(val);
            proof {
                wit = w0.push(nw);
            }
        } else {
            tails.set(pos, val);
            proof {
                wit = w0.update(pos as int, nw);
            }
        }
        proof {
            lemma_tails_step(seq@, i as int, t0, w0, pos as int, tails@, wit);
        }
        i += 1;
    }
    proof {
        let s = seq@;
        let n = tails@.len();
        if n == 0 {
            let e: Seq<int> = Seq::empty();
            assert(is_increasing_subseq(s, e) && e.len() == 0);
        } else {
            assert(is_increasing_subseq(s, wit[n - 1]) && wit[n - 1].len() == n);
        }
        assert forall|idx: Seq<int>| #[trigger] is_increasing_subseq(s, idx) implies idx.len() <= n by {
            if idx.len() >= 1 {
                assert(idx[idx.len() - 1] < s.len());
            }
        }
    }
    tails.len()
}


// ---------------------------------------------------------------------------
// Greedy block matching
// ---------------------------------------------------------------------------
/// A candidate match of a ground-truth block with an extracted block, or
/// with an extracted block and the one after it read together (`concat`).
/// Candidates are considered best first.
#[derive(Debug, Clone, Copy)]
pub struct MatchCandidate {
    pub gt: usize,
    pub ext: usize,
    pub concat: bool,
}

/// Which ground-truth and extracted blocks are taken, and which candidates
/// were accepted, in order.
#[verifier::ext_equal]
pub struct MatchState {
    pub gt_taken: Seq<bool>,
    pub ext_taken: Seq<bool>,
    pub accepted: Seq<int>,
}

/// Whether candidate `c` can still be accepted.
pub open spec fn acceptable(st: MatchState, c: MatchCandidate) -> bool {
    &&& !st.gt_taken[c.gt as int]
    &&& !st.ext_taken[c.ext as int]
    &&& !(c.concat && c.ext + 1 < st.ext_taken.len() && st.ext_taken[c.ext + 1])
}

/// Candidate `k` considered: accepted when both its blocks (and, for a
/// concatenation, the next extracted block) are still free.
pub open spec fn match_step(st: MatchState, c: MatchCandidate, k: int) -> MatchState {
    if acceptable(st, c) {
        let e1 = st.ext_taken.update(c.ext as int, true);
        MatchState {
            gt_taken: st.gt_taken.update(c.gt as int, true),
            ext_taken: if c.concat && c.ext + 1 < st.ext_taken.len() {
                e1.update(c.ext + 1, true)
            } else {
                e1
            },
            accepted: st.accepted.push(k),
        }
    } else {
        st
    }
}

/// The greedy matching over the first `n` candidates.
pub open spec fn greedy(cands: Seq<MatchCandidate>, n: int, count_gt: nat, count_ext: nat) -> MatchState
    decreases n,
{
    if n <= 0 {
        MatchState {
            gt_taken: Seq::new(count_gt, |i: int| false),
            ext_taken: Seq::new(count_ext, |i: int| false),
            accepted: Seq::empty(),
        }
    } else {
        match_step(greedy(cands, n - 1, count_gt, count_ext), cands[n - 1], n - 1)
    }
}

proof fn lemma_greedy_lens(cands: Seq<MatchCandidate>, n: int, count_gt: nat, count_ext: nat)
    requires
        0 <= n <= cands.len(),
        forall|k: int| 0 <= k < n ==> (#[trigger] cands[k]).gt < count_gt && cands[k].ext < count_ext,
    ensures
        greedy(cands, n, count_gt, count_ext).gt_taken.len() == count_gt,
        greedy(cands, n, count_gt, count_ext).ext_taken.len() == count_ext,
        greedy(cands, n, count_gt, count_ext).accepted.len() <= n,
        forall|j: int|
            0 <= j < greedy(cands, n, count_gt, count_ext).accepted.len() ==> 0 <= #[trigger] greedy(
                cands,
                n,
                count_gt,
                count_ext,
            ).accepted[j] < n,
    decreases n,
{
    if n > 0 {
        lemma_greedy_lens(cands, n - 1, count_gt, count_ext);
    }
}

proof fn lemma_greedy_taken(cands: Seq<MatchCandidate>, n: int, count_gt: nat, count_ext: nat)
    requires
        0 <= n <= cands.len(),
        forall|k: int| 0 <= k < cands.len() ==> (#[trigger] cands[k]).gt < count_gt && cands[k].ext < count_ext,
    ensures
        forall|j: int|
            0 <= j < greedy(cands, n, count_gt, count_ext).accepted.len() ==> {
                let c = cands[#[trigger] greedy(cands, n, count_gt, count_ext).accepted[j]];
                &&& greedy(cands, n, count_gt, count_ext).gt_taken[c.gt as int]
                &&& greedy(cands, n, count_gt, count_ext).ext_taken[c.ext as int]
            },
        forall|a: int, b: int|
            0 <= a < b < greedy(cands, n, count_gt, count_ext).accepted.len() ==> {
                let ca = cands[#[trigger] greedy(cands, n, count_gt, count_ext).accepted[a]];
                let cb = cands[#[trigger] greedy(cands, n, count_gt, count_ext).accepted[b]];
                ca.gt != cb.gt && ca.ext != cb.ext
            },
    decreases n,
{
    if n > 0 {
        lemma_greedy_taken(cands, n - 1, count_gt, count_ext);
        lemma_greedy_lens(cands, n - 1, count_gt, count_ext);
        lemma_greedy_lens(cands, n, count_gt, count_ext);
        let st = greedy(cands, n - 1, count_gt, count_ext);
        let c = cands[n - 1];
        let st2 = greedy(cands, n, count_gt, count_ext);
        if acceptable(st, c) {
            assert forall|j: int| 0 <= j < st2.accepted.len() implies {
                let cj = cands[#[trigger] st2.accepted[j]];
                st2.gt_taken[cj.gt as int] && st2.ext_taken[cj.ext as int]
            } by {
                if j < st.accepted.len() {
                    assert(st2.accepted[j] == st.accepted[j]);
                }
            }
            assert forall|a: int, b: int| 0 <= a < b < st2.accepted.len() implies {
                let ca = cands[#[trigger] st2.accepted[a]];
                let cb = cands[#[trigger] st2.accepted[b]];
                ca.gt != cb.gt && ca.ext != cb.ext
            } by {
                assert(st2.accepted[a] == st.accepted[a]);
                if b < st.accepted.len() {
                    assert(st2.accepted[b] == st.accepted[b]);
                } else {
                    assert(st2.accepted[b] == n - 1);
                    let ca = cands[st.accepted[a]];
                    assert(st.gt_taken[ca.gt as int] && st.ext_taken[ca.ext as int]);
                }
            }
        }
    }
}

/// Greedy matching is one-to-one: no two accepted candidates share a
/// ground-truth block or an extracted block.
pub proof fn greedy_matching_is_one_to_one(cands: Seq<MatchCandidate>, count_gt: nat, count_ext: nat)
    requires
        forall|k: int| 0 <= k < cands.len() ==> (#[trigger] cands[k]).gt < count_gt && cands[k].ext < count_ext,
    ensures
        forall|a: int, b: int|
            0 <= a < b < greedy(cands, cands.len() as int, count_gt, count_ext).accepted.len() ==> {
                let ca = cands[#[trigger] greedy(cands, cands.len() as int, count_gt, count_ext).accepted[a]];
                let cb = cands[#[trigger] greedy(cands, cands.len() as int, count_gt, count_ext).accepted[b]];
                ca.gt != cb.gt && ca.ext != cb.ext
            },
{
    lemma_greedy_taken(cands, cands.len() as int, count_gt, count_ext);
}

/// The greedy part of block matching: candidates are taken in the order
/// given; one is accepted when neither its ground-truth block nor its
/// extracted block (nor, for a concatenation, the extracted block after it)
/// was taken by an earlier one.  Returns the positions of the accepted
/// candidates and, for each, the pair (`gt_index` of its ground-truth block,
/// `ext_index` of its extracted block).
pub fn greedy_matches(cands: &Vec<MatchCandidate>, gt_index: &Vec<usize>, ext_index: &Vec<usize>) -> (r: (
    Vec<usize>,
    Vec<(usize, usize)>,
))
    requires
        forall|k: int|
            0 <= k < cands@.len() ==> (#[trigger] cands@[k]).gt < gt_index@.len() && cands@[k].ext
                < ext_index@.len(),
    ensures
        r.0@.len() == r.1@.len(),
        r.0@.map_values(|k: usize| k as int) == greedy(
            cands@,
            cands@.len() as int,
            gt_index@.len(),
            ext_index@.len(),
        ).accepted,
        forall|j: int|
            0 <= j < r.1@.len() ==> #[trigger] r.1@[j] == (
                gt_index@[cands@[r.0@[j] as int].gt as int],
                ext_index@[cands@[r.0@[j] as int].ext as int],
            ),
{
    let ghost cg = gt_index@.len();
    let ghost ce = ext_index@.len();
    let mut gt_taken: Vec<bool> = Vec::new();
    let mut i: usize = 0;
    while i < gt_index.len()
        invariant
            i <= gt_index@.len(),
            gt_taken@ =~= Seq::new(i as nat, |k: int| false),
        decreases gt_index.len() - i,
    {
        gt_taken.push(false);
        i += 1;
    }
    let mut ext_taken: Vec<bool> = Vec::new();
    let mut i: usize = 0;
    while i < ext_index.len()
        invariant
            i <= ext_index@.len(),
            ext_taken@ =~= Seq::new(i as nat, |k: int| false),
        decreases ext_index.len() - i,
    {
        ext_taken.push(false);
        i += 1;
    }
    let mut accepted: Vec<usize> = Vec::new();
    let mut pairs: Vec<(usize, usize)> = Vec::new();
    let ne = ext_index.len();
    let mut k: usize = 0;
    while k < cands.len()
        invariant
            k <= cands@.len(),
            ne == ext_index@.len(),
            cg == gt_index@.len(),
            ce == ext_index@.len(),
            forall|q: int|
                0 <= q < cands@.len() ==> (#[trigger] cands@[q]).gt < gt_index@.len() && cands@[q].ext
                    < ext_index@.len(),
            gt_taken@ == greedy(cands@, k as int, cg, ce).gt_taken,
            ext_taken@ == greedy(cands@, k as int, cg, ce).ext_taken,
            accepted@.map_values(|a: usize| a as int) == greedy(cands@, k as int, cg, ce).accepted,
            accepted@.len() == pairs@.len(),
            forall|j: int| 0 <= j < accepted@.len() ==> #[trigger] accepted@[j] < cands@.len(),
            forall|j: int|
                0 <= j < pairs@.len() ==> #[trigger] pairs@[j] == (
                    gt_index@[cands@[accepted@[j] as int].gt as int],
                    ext_index@[cands@[accepted@[j] as int].ext as int],
                ),
        decreases cands.len() - k,
    {
        proof {
            lemma_greedy_lens(cands@, k as int, cg, ce);
        }
        let c = cands[k];
        let ok = !gt_taken[c.gt] && !ext_taken[c.ext] && !(c.concat && c.ext + 1 < ext_taken.len()
            && ext_taken[c.ext + 1]);
        if ok {
            gt_taken.set(c.gt, true);
            ext_taken.set(c.ext, true);
            if c.concat && c.ext + 1 < ext_taken.len() {
                ext_taken.set(c.ext + 1, true);
            }
            let ghost a0 = accepted@;
            let ghost p0 = pairs@;
            accepted.push(k);
            pairs.push((gt_index[c.gt], ext_index[c.ext]));
            proof {
                assert forall|j: int| 0 <= j < p0.len() implies #[trigger] pairs@[j] == p0[j] && accepted@[j]
                    == a0[j] by {}
                assert(accepted@[p0.len() as int] == k);
                assert(cands@[k as int] == c);
                assert(pairs@[p0.len() as int] == (gt_index@[c.gt as int], ext_index@[c.ext as int]));

                assert(accepted@.map_values(|a: usize| a as int) =~= a0.map_values(|a: usize| a as int).push(
                    k as int,
                ));
            }
        }
        k += 1;
    }
    (accepted, pairs)
}


// ---------------------------------------------------------------------------
// Reading order of the matches
// ---------------------------------------------------------------------------
/// `x` inserted into `s` after every pair whose ground-truth index is not
/// greater than its own.
pub open spec fn insert_by_gt(s: Seq<(usize, usize)>, x: (usize, usize)) -> Seq<(usize, usize)>
    decreases s.len(),
{
    if s.len() == 0 || s.last().0 <= x.0 {
        s.push(x)
    } else {
        insert_by_gt(s.drop_last(), x).push(s.last())
    }
}

/// The pairs stably sorted by ground-truth index (pairs with equal indices
/// keep their order).
pub open spec fn sorted_by_gt(s: Seq<(usize, usize)>) -> Seq<(usize, usize)>
    decreases s.len(),
{
    if s.len() == 0 {
        Seq::empty()
    } else {
        insert_by_gt(sorted_by_gt(s.drop_last()), s.last())
    }
}

proof fn lemma_insert_at(s: Seq<(usize, usize)>, x: (usize, usize), p: int)
    requires
        0 <= p <= s.len(),
        p == 0 || s[p - 1].0 <= x.0,
        forall|k: int| p <= k < s.len() ==> #[trigger] s[k].0 > x.0,
    ensures
        insert_by_gt(s, x) == s.take(p) + seq![x] + s.skip(p),
    decreases s.len(),
{
    if s.len() == 0 {
        assert(s.take(p) + seq![x] + s.skip(p) =~= seq![x]);
    } else if s.last().0 <= x.0 {
        assert(p == s.len());
        assert(s.take(p) + seq![x] + s.skip(p) =~= s.push(x));
    } else {
        let d = s.drop_last();
        lemma_insert_at(d, x, p);
        assert(d.take(p) + seq![x] + d.skip(p) + seq![s.last()] =~= s.take(p) + seq![x] + s.skip(p));
    }
}

proof fn lemma_insert_len(s: Seq<(usize, usize)>, x: (usize, usize))
    ensures
        insert_by_gt(s, x).len() == s.len() + 1,
    decreases s.len(),
{
    if s.len() > 0 && s.last().0 > x.0 {
        lemma_insert_len(s.drop_last(), x);
    }
}

/// The counts behind the reading-order score: the length of the longest
/// increasing run of extracted-block indices, taken in ground-truth order,
/// and the number of matches.
pub fn order_score_counts(matches: &Vec<(usize, usize)>) -> (r: (usize, usize))
    ensures
        r.1 == matches@.len(),
        is_lis_length(sorted_by_gt(matches@).map_values(|m: (usize, usize)| m.1), r.0 as int),
{
    let mut sorted: Vec<(usize, usize)> = Vec::new();
    let mut i: usize = 0;
    while i < matches.len()
        invariant
            i <= matches@.len(),
            sorted@ == sorted_by_gt(matches@.take(i as int)),
            sorted@.len() == i,
        decreases matches.len() - i,
    {
        let x = matches[i];
        let mut p = sorted.len();
        while p > 0 && sorted[p - 1].0 > x.0
            invariant
                p <= sorted@.len(),
                forall|k: int| p <= k < sorted@.len() ==> #[trigger] sorted@[k].0 > x.0,
            decreases p,
        {
            p -= 1;
        }
        proof {
            lemma_insert_at(sorted@, x, p as int);
            lemma_insert_len(sorted@, x);
            assert(matches@.take(i + 1).drop_last() =~= matches@.take(i as int));
        }
        sorted.insert(p, x);
        assert(sorted@ =~= sorted_by_gt(matches@.take(i + 1)));
        i += 1;
    }
    assert(matches@.take(matches@.len() as int) =~= matches@);
    let mut ext: Vec<usize> = Vec::new();
    let mut j: usize = 0;
    while j < sorted.len()
        invariant
            j <= sorted@.len(),
            ext@ =~= sorted@.take(j as int).map_values(|m: (usize, usize)| m.1),
        decreases sorted.len() - j,
    {
        ext.push(sorted[j].1);
        j += 1;
    }
    assert(sorted@.take(sorted@.len() as int) =~= sorted@);
    let n = longest_increasing_subsequence_length(ext.as_slice());
    (n, matches.len())
}

} // verus!
