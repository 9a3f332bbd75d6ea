//! Paragraph-level heuristics for PDF markdown: heading hierarchy
//! refinement, section numbering, figure-label and non-code detection, and
//! merging of paragraphs split by the layout model.
//!
//! Lengths in points are held in hundredths of a point.
use vstd::prelude::*;
use crate::text::{
    chars_of, is_ascii_digit, is_digit, join_seqs, lower, lower_chars, push_str, split_words, trim,
    trim_chars, trim_end, trim_end_index, words,
};

verus! {

/// A run of text with one font.
pub struct SegmentData {
    pub text: String,
    pub x: i64,
    pub y: i64,
    pub width: i64,
    pub height: i64,
    pub font_size: i64,
    pub is_bold: bool,
    pub is_italic: bool,
    pub is_monospace: bool,
    pub baseline_y: i64,
}

/// A line of text segments.
pub struct PdfLine {
    pub segments: Vec<SegmentData>,
    pub baseline_y: i64,
    pub dominant_font_size: i64,
    pub is_bold: bool,
    pub is_monospace: bool,
}

/// The class of the layout region a paragraph came from.
#[derive(Debug, Clone, Copy, PartialEq, Eq, Structural)]
pub enum LayoutHintClass {
    Caption,
    Footnote,
    Formula,
    ListItem,
    PageFooter,
    PageHeader,
    Picture,
    SectionHeader,
    Table,
    Text,
    Title,
    Code,
}

/// A paragraph of a PDF page.
pub struct PdfParagraph {
    pub lines: Vec<PdfLine>,
    pub dominant_font_size: i64,
    pub heading_level: Option<u8>,
    pub is_bold: bool,
    pub is_list_item: bool,
    pub is_code_block: bool,
    pub is_formula: bool,
    pub is_page_furniture: bool,
    pub layout_class: Option<LayoutHintClass>,
}

/// The view of a paragraph: its lines and its properties.
#[verifier::ext_equal]
pub struct ParaView {
    pub lines: Seq<PdfLine>,
    pub font: i64,
    pub heading: Option<u8>,
    pub bold: bool,
    pub list: bool,
    pub code: bool,
    pub formula: bool,
    pub furniture: bool,
    pub class: Option<LayoutHintClass>,
}

pub open spec fn para_view(p: PdfParagraph) -> ParaView {
    ParaView {
        lines: p.lines@,
        font: p.dominant_font_size,
        heading: p.heading_level,
        bold: p.is_bold,
        list: p.is_list_item,
        code: p.is_code_block,
        formula: p.is_formula,
        furniture: p.is_page_furniture,
        class: p.layout_class,
    }
}

pub open spec fn paras_view(ps: Seq<PdfParagraph>) -> Seq<ParaView> {
    ps.map_values(|p: PdfParagraph| para_view(p))
}

pub open spec fn pages_view(pages: Seq<Vec<PdfParagraph>>) -> Seq<Seq<ParaView>> {
    pages.map_values(|pg: Vec<PdfParagraph>| paras_view(pg@))
}

// ---------------------------------------------------------------------------
// Text of paragraphs
// ---------------------------------------------------------------------------
/// The texts of the segments of the first `n` lines, in order.
pub open spec fn segment_texts(lines: Seq<PdfLine>, n: int) -> Seq<Seq<char>>
    decreases n,
{
    if n <= 0 {
        Seq::empty()
    } else {
        segment_texts(lines, n - 1) + lines[n - 1].segments@.map_values(|s: SegmentData| s.text@)
    }
}

/// `paragraph_plain_text`: the segment texts joined by single spaces.
pub open spec fn plain_text(p: ParaView) -> Seq<char> {
    join_seqs(segment_texts(p.lines, p.lines.len() as int), " "@)
}

pub fn paragraph_plain_text(para: &PdfParagraph) -> (r: String)
    ensures
        r@ == plain_text(para_view(*para)),
{
    let mut r = String::new();
    let ghost lines = para.lines@;
    let mut first = true;
    let mut i: usize = 0;
    while i < para.lines.len()
        invariant
            i <= lines.len(),
            lines == para.lines@,
            first == (segment_texts(lines, i as int).len() == 0),
            r@ == join_seqs(segment_texts(lines, i as int), " "@),
        decreases para.lines.len() - i,
    {
        let segs = &para.lines[i].segments;
        let ghost base = segment_texts(lines, i as int);
        let ghost st = segs@.map_values(|s: SegmentData| s.text@);
        let mut j: usize = 0;
        assert(base + st.take(0) =~= base);
        while j < segs.len()
            invariant
                j <= segs@.len(),
                lines == para.lines@,
                segs@ == lines[i as int].segments@,
                st == segs@.map_values(|s: SegmentData| s.text@),
                first == ((base + st.take(j as int)).len() == 0),
                r@ == join_seqs(base + st.take(j as int), " "@),
            decreases segs.len() - j,
        {
            let ghost all = base + st.take(j + 1);
            assert(all.drop_last() =~= base + st.take(j as int));
            if !first {
                push_str(&mut r, " ");
            }
            push_str(&mut r, segs[j].text.as_str());
            first = false;
            j += 1;
            assert(r@ =~= join_seqs(base + st.take(j as int), " "@));
        }
        assert(st.take(st.len() as int) =~= st);
        i += 1;
    }
    r
}

/// The length of the run of ASCII digits that starts `t`.
pub open spec fn digit_run(t: Seq<char>, i: int) -> int
    decreases t.len() - i,
{
    if i < 0 || i >= t.len() {
        if i < 0 { 0 } else { t.len() as int }
    } else if is_digit(t[i]) {
        digit_run(t, i + 1)
    } else {
        i
    }
}

/// Whether text starts with a section number: digits, then a space, `.` or `)`
/// (leading and trailing whitespace ignored).
pub open spec fn section_numbered(text: Seq<char>) -> bool {
    let t = trim(text);
    let d = digit_run(t, 0);
    0 < d && d < t.len() && (t[d] == ' ' || t[d] == '.' || t[d] == ')')
}

pub fn starts_with_section_number(text: &str) -> (b: bool)
    ensures
        b == section_numbered(text@),
{
    let v = chars_of(text);
    let t = trim_chars(&v);
    let mut d: usize = 0;
    while d < t.len() && crate::text::is_ascii_digit(t[d])
        invariant
            d <= t.len(),
            digit_run(t@, d as int) == digit_run(t@, 0),
        decreases t.len() - d,
    {
        d += 1;
    }
    0 < d && d < t.len() && (t[d] == ' ' || t[d] == '.' || t[d] == ')')
}

/// Whether a paragraph's last segment, trailing whitespace removed, ends
/// with `.`, `?`, `!`, `:` or `;`.
pub open spec fn ends_terminated(p: ParaView) -> bool {
    p.lines.len() > 0 && p.lines.last().segments@.len() > 0 && {
        let t = trim_end(p.lines.last().segments@.last().text@);
        t.len() > 0 && (t.last() == '.' || t.last() == '?' || t.last() == '!' || t.last() == ':' || t.last() == ';')
    }
}

pub fn ends_with_sentence_terminator(para: &PdfParagraph) -> (b: bool)
    ensures
        b == ends_terminated(para_view(*para)),
{
    if para.lines.len() == 0 {
        return false;
    }
    let line = &para.lines[para.lines.len() - 1];
    if line.segments.len() == 0 {
        return false;
    }
    let v = chars_of(line.segments[line.segments.len() - 1].text.as_str());
    let e = trim_end_index(&v, v.len());
    if e == 0 {
        return false;
    }
    let c = v[e - 1];
    c == '.' || c == '?' || c == '!' || c == ':' || c == ';'
}

// ---------------------------------------------------------------------------
// Figure labels and non-code
// ---------------------------------------------------------------------------
/// The UTF-8 length of a character.
pub open spec fn utf8_len(c: char) -> nat {
    if (c as u32) < 0x80 {
        1
    } else if (c as u32) < 0x800 {
        2
    } else if (c as u32) < 0x10000 {
        3
    } else {
        4
    }
}

/// The UTF-8 length of a text (`str::len`).
pub open spec fn byte_len(s: Seq<char>) -> nat
    decreases s.len(),
{
    if s.len() == 0 {
        0
    } else {
        byte_len(s.drop_last()) + utf8_len(s.last())
    }
}

fn byte_len_exec(v: &Vec<char>) -> (n: u128)
    ensures
        n == byte_len(v@),
        n <= 4 * v@.len(),
{
    let mut n: u128 = 0;
    let mut i: usize = 0;
    let len = v.len();
    assert(v@.take(0) =~= Seq::<char>::empty());
    while i < v.len()
        invariant
            i <= v@.len() == len,
            n == byte_len(v@.take(i as int)),
            n <= 4 * i,
        decreases v.len() - i,
    {
        assert(v@.take(i + 1).drop_last() =~= v@.take(i as int));
        let c = v[i] as u32;
        n += if c < 0x80 {
            1
        } else if c < 0x800 {
            2
        } else if c < 0x10000 {
            3
        } else {
            4
        };
        i += 1;
    }
    assert(v@.take(v@.len() as int) =~= v@);
    n
}

/// The number of words equal to `w` when ASCII lower-cased.
pub open spec fn same_word_count(ws: Seq<Seq<char>>, w: Seq<char>, n: int) -> nat
    decreases n,
{
    if n <= 0 {
        0
    } else {
        same_word_count(ws, w, n - 1) + (if crate::text::lower_seq(ws[n - 1]) == crate::text::lower_seq(w) {
            1nat
        } else {
            0nat
        })
    }
}

/// Whether text looks like a figure label rather than a heading: three or
/// more one-byte words, or five or more words of which one appears (ignoring
/// ASCII case) three times or more.
pub open spec fn figure_label(text: Seq<char>) -> bool {
    let ws = words(text);
    (ws.len() >= 3 && forall|k: int| 0 <= k < ws.len() ==> byte_len(#[trigger] ws[k]) <= 1) || (ws.len() >= 5
        && exists|k: int| 0 <= k < ws.len() && same_word_count(ws, #[trigger] ws[k], ws.len() as int) >= 3)
}

pub fn looks_like_figure_label(text: &str) -> (b: bool)
    ensures
        b == figure_label(text@),
{
    let v = chars_of(text);
    let ws = split_words(&v);
    let ghost sw = words(text@);
    if ws.len() >= 3 {
        let mut all_short = true;
        let mut i: usize = 0;
        while i < ws.len()
            invariant
                i <= ws@.len() == sw.len(),
                forall|k: int| 0 <= k < ws@.len() ==> #[trigger] ws@[k]@ == sw[k],
                all_short == forall|k: int| 0 <= k < i ==> byte_len(#[trigger] sw[k]) <= 1,
            decreases ws.len() - i,
        {
            let w = &ws[i];
            let short = w.len() == 0 || (w.len() == 1 && (w[0] as u32) < 0x80);
            proof {
                let s = sw[i as int];
                lemma_byte_len_ge(s);
                if s.len() == 1 {
                    assert(s.drop_last() =~= Seq::<char>::empty());
                    assert(byte_len(s.drop_last()) == 0);
                    assert(byte_len(s) == utf8_len(s[0]));
                }
                if s.len() == 0 {
                    assert(byte_len(s) == 0);
                }
                assert(w@ == s);
                assert(short == (byte_len(s) <= 1));
            }
            all_short = all_short && short;
            i += 1;
        }
        if all_short {
            return true;
        }
    }
    if ws.len() >= 5 {
        let mut k: usize = 0;
        while k < ws.len()
            invariant
                k <= ws@.len() == sw.len(),
                sw == words(text@),
                ws@.len() >= 5,
                forall|q: int| 0 <= q < ws@.len() ==> #[trigger] ws@[q]@ == sw[q],
                forall|q: int| 0 <= q < k ==> same_word_count(sw, #[trigger] sw[q], sw.len() as int) < 3,
            decreases ws.len() - k,
        {
            let lw = lower_chars(&ws[k]);
            let mut count: usize = 0;
            let mut j: usize = 0;
            while j < ws.len()
                invariant
                    j <= ws@.len() == sw.len(),
                    k < ws@.len(),
                    sw == words(text@),
                    ws@.len() >= 5,
                    forall|q: int| 0 <= q < ws@.len() ==> #[trigger] ws@[q]@ == sw[q],
                    lw@ == crate::text::lower_seq(sw[k as int]),
                    count == same_word_count(sw, sw[k as int], j as int),
                    count <= j,
                decreases ws.len() - j,
            {
                let lx = lower_chars(&ws[j]);
                if same_chars(&lx, &lw) {
                    count += 1;
                }
                j += 1;
            }
            if count >= 3 {
                assert(same_word_count(sw, sw[k as int], sw.len() as int) >= 3);
                assert(sw == words(text@));
                assert(sw.len() >= 5);
                assert(exists|q: int| 0 <= q < sw.len() && same_word_count(sw, #[trigger] sw[q], sw.len() as int) >= 3);
                return true;
            }
            k += 1;
        }
    }
    false
}

proof fn lemma_byte_len_ge(s: Seq<char>)
    ensures
        byte_len(s) >= s.len(),
    decreases s.len(),
{
    if s.len() > 0 {
        lemma_byte_len_ge(s.drop_last());
    }
}

fn same_chars(a: &Vec<char>, b: &Vec<char>) -> (r: bool)
    ensures
        r == (a@ == b@),
{
    if a.len() != b.len() {
        return false;
    }
    let mut i: usize = 0;
    while i < a.len()
        invariant
            i <= a.len() == b.len(),
            forall|k: int| 0 <= k < i ==> a@[k] == b@[k],
        decreases a.len() - i,
    {
        if a[i] != b[i] {
            return false;
        }
        i += 1;
    }
    assert(a@ =~= b@);
    true
}

/// Whether a character is an ASCII hex digit.
pub open spec fn is_hex(c: char) -> bool {
    ('0' <= c && c <= '9') || ('a' <= c && c <= 'f') || ('A' <= c && c <= 'F')
}

/// A hex-dump token: one or two hex digits.
pub open spec fn hex_token(w: Seq<char>) -> bool {
    1 <= w.len() <= 2 && forall|k: int| 0 <= k < w.len() ==> is_hex(#[trigger] w[k])
}

/// A character that code is made of: brackets, `=`, `<`, `>`, `;`.
pub open spec fn is_code_char(c: char) -> bool {
    c == '(' || c == ')' || c == '{' || c == '}' || c == '[' || c == ']' || c == '=' || c == '<' || c == '>' || c == ';'
}

/// The number of the first `n` words that are hex tokens.
pub open spec fn hex_count(ws: Seq<Seq<char>>, n: int) -> nat
    decreases n,
{
    if n <= 0 {
        0
    } else {
        hex_count(ws, n - 1) + (if hex_token(ws[n - 1]) {
            1nat
        } else {
            0nat
        })
    }
}

/// The number of code characters among the first `n` characters.
pub open spec fn code_char_count(s: Seq<char>, n: int) -> nat
    decreases n,
{
    if n <= 0 {
        0
    } else {
        code_char_count(s, n - 1) + (if is_code_char(s[n - 1]) {
            1nat
        } else {
            0nat
        })
    }
}

/// Whether text labelled as code is not code: more than half its words are
/// hex tokens, or it has at least ten bytes of which code characters are
/// fewer than 3%.
pub open spec fn non_code(text: Seq<char>) -> bool {
    let ws = words(text);
    if ws.len() == 0 {
        false
    } else if hex_count(ws, ws.len() as int) * 2 > ws.len() {
        true
    } else if byte_len(text) < 10 {
        false
    } else {
        code_char_count(text, text.len() as int) * 100 < byte_len(text) * 3
    }
}

pub fn looks_like_non_code(text: &str) -> (b: bool)
    ensures
        b == non_code(text@),
{
    let v = chars_of(text);
    let ws = split_words(&v);
    let ghost sw = words(text@);
    if ws.len() == 0 {
        return false;
    }
    proof {
        lemma_words_len(text@);
    }
    let mut hex: u128 = 0;
    let mut i: usize = 0;
    while i < ws.len()
        invariant
            i <= ws@.len() == sw.len(),
            sw.len() <= text@.len() + 1,
            forall|k: int| 0 <= k < ws@.len() ==> #[trigger] ws@[k]@ == sw[k],
            hex == hex_count(sw, i as int),
            hex <= i,
        decreases ws.len() - i,
    {
        let w = &ws[i];
        let mut ok = 1 <= w.len() && w.len() <= 2;
        let mut j: usize = 0;
        while j < w.len()
            invariant
                j <= w@.len(),
                ok ==> forall|q: int| 0 <= q < j ==> is_hex(#[trigger] w@[q]),
                !ok ==> !hex_token(w@),
                ok ==> 1 <= w@.len() <= 2,
            decreases w.len() - j,
        {
            let c = w[j];
            if !(('0' <= c && c <= '9') || ('a' <= c && c <= 'f') || ('A' <= c && c <= 'F')) {
                ok = false;
            }
            j += 1;
        }
        assert(ok == hex_token(sw[i as int]));
        if ok {
            hex += 1;
        }
        i += 1;
    }
    proof {
        lemma_words_len(text@);
    }
    if hex * 2 > ws.len() as u128 {
        return true;
    }
    let total = byte_len_exec(&v);
    if total < 10 {
        return false;
    }
    let mut code: u128 = 0;
    let mut k: usize = 0;
    let vlen = v.len();
    while k < v.len()
        invariant
            k <= v@.len() == vlen,
            code == code_char_count(v@, k as int),
            code <= k,
        decreases v.len() - k,
    {
        let c = v[k];
        if c == '(' || c == ')' || c == '{' || c == '}' || c == '[' || c == ']' || c == '=' || c == '<' || c == '>'
            || c == ';' {
            code += 1;
        }
        k += 1;
    }
    code * 100 < total * 3
}

proof fn lemma_words_len(s: Seq<char>)
    ensures
        words(s).len() <= s.len() + 1,
{
    lemma_words_from_len(s, 0);
}

proof fn lemma_words_from_len(s: Seq<char>, i: int)
    requires
        0 <= i <= s.len(),
    ensures
        crate::text::words_from(s, i).len() <= s.len() - i + 1,
    decreases s.len() - i,
{
    if i < s.len() {
        crate::text::lemma_skip_ws_bounds(s, i);
        let a = crate::text::skip_ws(s, i);
        if a < s.len() {
            crate::text::lemma_word_end_bounds(s, a);
            let b = crate::text::word_end(s, a);
            if b > a && b <= s.len() {
                lemma_words_from_len(s, b);
            }
        }
    }
}

// ---------------------------------------------------------------------------
// Merging and demoting paragraphs
// ---------------------------------------------------------------------------
/// `a` with the lines of `b` appended.
pub open spec fn merged(a: ParaView, b: ParaView) -> ParaView {
    ParaView { lines: a.lines + b.lines, ..a }
}

/// Whether two paragraphs are both code blocks.
pub open spec fn both_code(a: ParaView, b: ParaView) -> bool {
    a.code && b.code
}

/// Whether `b` continues the body text of `a`: both plain body paragraphs
/// of the same layout class and font sizes less than 2 points apart, `a` not
/// ending a sentence.
pub open spec fn continues(a: ParaView, b: ParaView) -> bool {
    &&& a.heading is None
    &&& b.heading is None
    &&& !a.list
    &&& !b.list
    &&& !a.code
    &&& !b.code
    &&& !a.formula
    &&& !b.formula
    &&& a.class == b.class
    &&& -200 < a.font - b.font < 200
    &&& !ends_terminated(a)
}

/// The first `n` paragraphs, each merged into the one before it (as merged
/// so far) when `c` holds of the two.
pub open spec fn merge_runs(ps: Seq<ParaView>, n: int, c: spec_fn(ParaView, ParaView) -> bool) -> Seq<ParaView>
    decreases n,
{
    if n <= 0 {
        Seq::empty()
    } else {
        let acc = merge_runs(ps, n - 1, c);
        if acc.len() > 0 && c(acc.last(), ps[n - 1]) {
            acc.drop_last().push(merged(acc.last(), ps[n - 1]))
        } else {
            acc.push(ps[n - 1])
        }
    }
}

fn continues_exec(a: &PdfParagraph, b: &PdfParagraph) -> (r: bool)
    ensures
        r == continues(para_view(*a), para_view(*b)),
{
    a.heading_level.is_none() && b.heading_level.is_none() && !a.is_list_item && !b.is_list_item && !a.is_code_block
        && !b.is_code_block && !a.is_formula && !b.is_formula && a.layout_class == b.layout_class && (
    a.dominant_font_size as i128) - (b.dominant_font_size as i128) < 200 && (a.dominant_font_size as i128) - (
    b.dominant_font_size as i128) > -200 && !ends_with_sentence_terminator(a)
}

/// Which paragraphs are merged into the one before them.
#[derive(Debug, Clone, Copy, PartialEq, Eq, Structural)]
pub enum MergeRule {
    /// Consecutive code blocks.
    Code,
    /// Body text continuing the paragraph before.
    Continuation,
    /// A list item split over several paragraphs.
    ListContinuation,
}

/// The condition under which `b` is merged into `a` under `rule`.
pub open spec fn merge_condition(rule: MergeRule) -> spec_fn(ParaView, ParaView) -> bool {
    match rule {
        MergeRule::Code => |a: ParaView, b: ParaView| both_code(a, b),
        MergeRule::Continuation => |a: ParaView, b: ParaView| continues(a, b),
        MergeRule::ListContinuation => |a: ParaView, b: ParaView| continues_list(a, b),
    }
}

fn should_merge(rule: MergeRule, a: &PdfParagraph, b: &PdfParagraph) -> (r: bool)
    ensures
        r == (merge_condition(rule))(para_view(*a), para_view(*b)),
{
    match rule {
        MergeRule::Code => a.is_code_block && b.is_code_block,
        MergeRule::Continuation => continues_exec(a, b),
        MergeRule::ListContinuation => a.is_list_item && b.is_list_item && !ends_with_sentence_terminator(a)
            && !starts_with_list_prefix(b),
    }
}

fn merge_paragraphs(paragraphs: &mut Vec<PdfParagraph>, rule: MergeRule)
    ensures
        paras_view(final(paragraphs)@) == merge_runs(
            paras_view(old(paragraphs)@),
            old(paragraphs)@.len() as int,
            merge_condition(rule),
        ),
{
    let ghost c = merge_condition(rule);
    let ghost pv = paras_view(paragraphs@);
    let mut rest: Vec<PdfParagraph> = Vec::new();
    std::mem::swap(&mut rest, paragraphs);
    let ghost orig = rest@;
    let ghost mut i: int = 0;
    assert(orig.skip(0) =~= orig);
    assert(paras_view(paragraphs@) =~= merge_runs(pv, 0, c));
    while rest.len() > 0
        invariant
            0 <= i <= orig.len(),
            pv == paras_view(orig),
            rest@ == orig.skip(i),
            c == merge_condition(rule),
            paras_view(paragraphs@) == merge_runs(pv, i, c),
        decreases rest.len(),
    {
        let mut p = rest.remove(0);
        assert(para_view(p) == pv[i]);
        let n = paragraphs.len();
        let join = n > 0 && should_merge(rule, &paragraphs[n - 1], &p);
        let ghost acc = paras_view(paragraphs@);
        if join {
            let mut last = paragraphs.pop().unwrap();
            last.lines.append(&mut p.lines);
            paragraphs.push(last);
            proof {
                assert(paras_view(paragraphs@) =~= acc.drop_last().push(merged(acc.last(), pv[i])));
            }
        } else {
            paragraphs.push(p);
            proof {
                assert(paras_view(paragraphs@) =~= acc.push(pv[i]));
            }
        }
        proof {
            assert(orig.skip(i).remove(0) =~= orig.skip(i + 1));
            i = i + 1;
        }
    }
}

// ---------------------------------------------------------------------------
// List items split over several paragraphs
// ---------------------------------------------------------------------------
/// A bullet character.
pub open spec fn is_bullet(c: char) -> bool {
    c == '•' || c == '◦' || c == '▪' || c == '‣' || c == '·' || c == '-' || c == '*' || c == '+' || c == '–'
        || c == '—'
}

pub open spec fn is_ascii_letter(c: char) -> bool {
    ('a' <= c && c <= 'z') || ('A' <= c && c <= 'Z')
}

/// An item number: digits, or a single letter.
pub open spec fn enumerator(w: Seq<char>) -> bool {
    (w.len() > 0 && forall|i: int| 0 <= i < w.len() ==> is_digit(#[trigger] w[i])) || (w.len() == 1
        && is_ascii_letter(w[0]))
}

/// A word that opens a list item: a bullet (`•`, `-`, `*`, ...), an item
/// number followed by `.` or `)` (`1.`, `12)`, `a.`), or an item number in
/// brackets (`(3)`, `(b)`).
pub open spec fn list_prefix(w: Seq<char>) -> bool {
    ||| w.len() == 1 && is_bullet(w[0])
    ||| w.len() >= 2 && (w.last() == '.' || w.last() == ')') && enumerator(w.drop_last())
    ||| w.len() >= 3 && w[0] == '(' && w.last() == ')' && enumerator(w.subrange(1, w.len() - 1))
}

fn is_enumerator(w: &Vec<char>, from: usize, to: usize) -> (b: bool)
    requires
        from <= to <= w@.len(),
    ensures
        b == enumerator(w@.subrange(from as int, to as int)),
{
    if from == to {
        return false;
    }
    if to - from == 1 {
        let c = w[from];
        if ('a' <= c && c <= 'z') || ('A' <= c && c <= 'Z') {
            return true;
        }
        assert(!is_ascii_letter(w@.subrange(from as int, to as int)[0]));
    }
    let mut i = from;
    while i < to
        invariant
            from <= i <= to <= w@.len(),
            forall|k: int| from <= k < i ==> is_digit(#[trigger] w@[k]),
            !(to - from == 1 && is_ascii_letter(w@.subrange(from as int, to as int)[0])),
        decreases to - i,
    {
        if !is_ascii_digit(w[i]) {
            assert(!is_digit(w@.subrange(from as int, to as int)[i - from]));
            return false;
        }
        i += 1;
    }
    assert forall|k: int| 0 <= k < to - from implies is_digit(#[trigger] w@.subrange(from as int, to as int)[k]) by {
        assert(w@.subrange(from as int, to as int)[k] == w@[from + k]);
    }
    true
}

/// `is_list_prefix` (see `list_prefix`).
pub fn is_list_prefix(w: &Vec<char>) -> (b: bool)
    ensures
        b == list_prefix(w@),
{
    let n = w.len();
    if n == 0 {
        return false;
    }
    if n == 1 {
        let c = w[0];
        return c == '•' || c == '◦' || c == '▪' || c == '‣' || c == '·' || c == '-' || c == '*' || c == '+'
            || c == '–' || c == '—';
    }
    let last = w[n - 1];
    if last == '.' || last == ')' {
        assert(w@.drop_last() =~= w@.subrange(0, n - 1));
        if is_enumerator(w, 0, n - 1) {
            return true;
        }
    }
    if n >= 3 && w[0] == '(' && last == ')' {
        return is_enumerator(w, 1, n - 1);
    }
    false
}

/// The first word of the paragraph's first segment (empty when there is no
/// word there); `None` when the paragraph has no first segment.
pub open spec fn opening_word(p: ParaView) -> Option<Seq<char>> {
    if p.lines.len() > 0 && p.lines[0].segments@.len() > 0 {
        let ws = words(p.lines[0].segments@[0].text@);
        Some(if ws.len() > 0 {
            ws[0]
        } else {
            Seq::empty()
        })
    } else {
        None
    }
}

/// Whether `b` continues the list item `a`: both are list items, `a` does not
/// end a sentence, and `b` does not open with a list prefix.
pub open spec fn continues_list(a: ParaView, b: ParaView) -> bool {
    &&& a.list
    &&& b.list
    &&& !ends_terminated(a)
    &&& !(opening_word(b) matches Some(w) && list_prefix(w))
}

fn starts_with_list_prefix(p: &PdfParagraph) -> (b: bool)
    ensures
        b == (opening_word(para_view(*p)) matches Some(w) && list_prefix(w)),
{
    if p.lines.len() == 0 || p.lines[0].segments.len() == 0 {
        return false;
    }
    let v = chars_of(p.lines[0].segments[0].text.as_str());
    let ws = split_words(&v);
    if ws.len() > 0 {
        is_list_prefix(&ws[0])
    } else {
        let e: Vec<char> = Vec::new();
        assert(e@ =~= Seq::<char>::empty());
        is_list_prefix(&e)
    }
}

/// `merge_list_continuations`: a list item split over several paragraphs is
/// put back together.
pub fn merge_list_continuations(paragraphs: &mut Vec<PdfParagraph>)
    ensures
        paras_view(final(paragraphs)@) == merge_runs(
            paras_view(old(paragraphs)@),
            old(paragraphs)@.len() as int,
            |a: ParaView, b: ParaView| continues_list(a, b),
        ),
{
    merge_paragraphs(paragraphs, MergeRule::ListContinuation);
}

/// `merge_consecutive_code_blocks`: runs of code blocks become one.
pub fn merge_consecutive_code_blocks(paragraphs: &mut Vec<PdfParagraph>)
    ensures
        paras_view(final(paragraphs)@) == merge_runs(
            paras_view(old(paragraphs)@),
            old(paragraphs)@.len() as int,
            |a: ParaView, b: ParaView| both_code(a, b),
        ),
{
    merge_paragraphs(paragraphs, MergeRule::Code);
}

/// `merge_continuation_paragraphs_region_aware`: body paragraphs that
/// continue the one before are merged into it.
pub fn merge_continuation_paragraphs_region_aware(paragraphs: &mut Vec<PdfParagraph>)
    ensures
        paras_view(final(paragraphs)@) == merge_runs(
            paras_view(old(paragraphs)@),
            old(paragraphs)@.len() as int,
            |a: ParaView, b: ParaView| continues(a, b),
        ),
{
    merge_paragraphs(paragraphs, MergeRule::Continuation);
}

/// A code block whose text does not look like code becomes body text.
pub open spec fn demoted_if_not_code(p: ParaView) -> ParaView {
    if p.code && non_code(plain_text(p)) {
        ParaView { code: false, class: Some(LayoutHintClass::Text), ..p }
    } else {
        p
    }
}

/// `demote_non_code_blocks`.
pub fn demote_non_code_blocks(paragraphs: &mut Vec<PdfParagraph>)
    ensures
        paras_view(final(paragraphs)@) == paras_view(old(paragraphs)@).map_values(|p: ParaView| demoted_if_not_code(p)),
{
    let ghost pv = paras_view(paragraphs@);
    let mut i: usize = 0;
    while i < paragraphs.len()
        invariant
            i <= paragraphs@.len() == pv.len(),
            pv == paras_view(old(paragraphs)@),
            forall|k: int| 0 <= k < i ==> #[trigger] para_view(paragraphs@[k]) == demoted_if_not_code(pv[k]),
            forall|k: int| i <= k < pv.len() ==> #[trigger] para_view(paragraphs@[k]) == pv[k],
        decreases paragraphs.len() - i,
    {
        if paragraphs[i].is_code_block {
            let text = paragraph_plain_text(&paragraphs[i]);
            if looks_like_non_code(text.as_str()) {
                let mut p = paragraphs.remove(i);
                p.is_code_block = false;
                p.layout_class = Some(LayoutHintClass::Text);
                paragraphs.insert(i, p);
            }
        }
        i += 1;
    }
    assert(paras_view(paragraphs@) =~= pv.map_values(|p: ParaView| demoted_if_not_code(p)));
}

// ---------------------------------------------------------------------------
// Heading hierarchy across pages
// ---------------------------------------------------------------------------
pub open spec fn is_h1(p: ParaView) -> bool {
    p.heading == Some(1u8)
}

/// The number of level-1 headings among the first `n` paragraphs.
pub open spec fn h1_in(ps: Seq<ParaView>, n: int) -> nat
    decreases n,
{
    if n <= 0 {
        0
    } else {
        h1_in(ps, n - 1) + (if is_h1(ps[n - 1]) {
            1nat
        } else {
            0nat
        })
    }
}

/// The number of level-1 headings on the first `n` pages.
pub open spec fn h1_total(pages: Seq<Seq<ParaView>>, n: int) -> nat
    decreases n,
{
    if n <= 0 {
        0
    } else {
        h1_total(pages, n - 1) + h1_in(pages[n - 1], pages[n - 1].len() as int)
    }
}

/// The number of level-1 headings that open the paragraph list, from `i`.
pub open spec fn leading_h1(ps: Seq<ParaView>, i: int) -> int
    decreases ps.len() - i,
{
    if i < 0 || i >= ps.len() {
        if i < 0 { 0 } else { ps.len() as int }
    } else if is_h1(ps[i]) {
        leading_h1(ps, i + 1)
    } else {
        i
    }
}

/// The lines of the first `n` paragraphs, in order.
pub open spec fn lines_of(ps: Seq<ParaView>, n: int) -> Seq<PdfLine>
    decreases n,
{
    if n <= 0 {
        Seq::empty()
    } else {
        lines_of(ps, n - 1) + ps[n - 1].lines
    }
}

/// The first page's leading run of level-1 headings (a title split over
/// several lines) merged into its first heading.
pub open spec fn merge_title(pages: Seq<Seq<ParaView>>) -> Seq<Seq<ParaView>> {
    if pages.len() == 0 {
        pages
    } else {
        let fp = pages[0];
        let run = leading_h1(fp, 0);
        if run > 1 {
            pages.update(0, seq![ParaView { lines: lines_of(fp, run), ..fp[0] }] + fp.skip(run))
        } else {
            pages
        }
    }
}

/// The first level-1 heading among the first `n` paragraphs.
pub open spec fn first_h1_in(ps: Seq<ParaView>, n: int) -> Option<ParaView>
    decreases n,
{
    if n <= 0 {
        None
    } else {
        match first_h1_in(ps, n - 1) {
            Some(p) => Some(p),
            None => if is_h1(ps[n - 1]) {
                Some(ps[n - 1])
            } else {
                None
            },
        }
    }
}

/// The first level-1 heading on the first `n` pages.
pub open spec fn first_h1(pages: Seq<Seq<ParaView>>, n: int) -> Option<ParaView>
    decreases n,
{
    if n <= 0 {
        None
    } else {
        match first_h1(pages, n - 1) {
            Some(p) => Some(p),
            None => first_h1_in(pages[n - 1], pages[n - 1].len() as int),
        }
    }
}

/// One paragraph of the demotion pass: once the first level-1 heading has
/// been seen, later numbered level-1 headings become level 2.
pub open spec fn demote_one(p: ParaView, found: bool) -> (ParaView, bool) {
    if is_h1(p) {
        if found && section_numbered(plain_text(p)) {
            (ParaView { heading: Some(2u8), ..p }, true)
        } else {
            (p, true)
        }
    } else {
        (p, found)
    }
}

pub open spec fn demote_in(ps: Seq<ParaView>, n: int, found: bool) -> (Seq<ParaView>, bool)
    decreases n,
{
    if n <= 0 {
        (Seq::empty(), found)
    } else {
        let (acc, f) = demote_in(ps, n - 1, found);
        let (q, f2) = demote_one(ps[n - 1], f);
        (acc.push(q), f2)
    }
}

pub open spec fn demote_pages(pages: Seq<Seq<ParaView>>, n: int) -> (Seq<Seq<ParaView>>, bool)
    decreases n,
{
    if n <= 0 {
        (Seq::empty(), false)
    } else {
        let (acc, f) = demote_pages(pages, n - 1);
        let (pg, f2) = demote_in(pages[n - 1], pages[n - 1].len() as int, f);
        (acc.push(pg), f2)
    }
}

/// `refine_heading_hierarchy`: with several level-1 headings, a title split
/// over the first page's leading level-1 headings is merged; then, if there
/// are still several and the first is not numbered, the numbered ones after
/// it become level 2.
pub open spec fn refined(pages: Seq<Seq<ParaView>>) -> Seq<Seq<ParaView>> {
    if h1_total(pages, pages.len() as int) <= 1 {
        pages
    } else {
        let m = merge_title(pages);
        if h1_total(m, m.len() as int) <= 1 {
            m
        } else {
            match first_h1(m, m.len() as int) {
                Some(p) => if section_numbered(plain_text(p)) {
                    m
                } else {
                    demote_pages(m, m.len() as int).0
                },
                None => m,
            }
        }
    }
}

fn several_h1(pages: &Vec<Vec<PdfParagraph>>) -> (b: bool)
    ensures
        b == (h1_total(pages_view(pages@), pages@.len() as int) > 1),
{
    let ghost pv = pages_view(pages@);
    let mut n: u64 = 0;
    let mut i: usize = 0;
    while i < pages.len()
        invariant
            i <= pages@.len(),
            pv == pages_view(pages@),
            n == (if h1_total(pv, i as int) > 2 {
                2
            } else {
                h1_total(pv, i as int)
            }),
        decreases pages.len() - i,
    {
        let pg = &pages[i];
        let ghost ps = pv[i as int];
        assert(ps == paras_view(pg@));
        let mut j: usize = 0;
        let ghost base = h1_total(pv, i as int);
        while j < pg.len()
            invariant
                j <= pg@.len(),
                ps == paras_view(pg@),
                base == h1_total(pv, i as int),
                n == (if base + h1_in(ps, j as int) > 2 {
                    2
                } else {
                    base + h1_in(ps, j as int)
                }),
            decreases pg.len() - j,
        {
            if pg[j].heading_level == Some(1u8) && n < 2 {
                n += 1;
            }
            j += 1;
        }
        i += 1;
    }
    n > 1
}

fn merge_title_exec(pages: &mut Vec<Vec<PdfParagraph>>)
    ensures
        pages_view(final(pages)@) == merge_title(pages_view(old(pages)@)),
{
    if pages.len() == 0 {
        return;
    }
    let ghost pv = pages_view(pages@);
    let mut fp = pages.remove(0);
    let ghost fpv = paras_view(fp@);
    assert(fpv == pv[0]);
    let mut run: usize = 0;
    while run < fp.len() && fp[run].heading_level == Some(1u8)
        invariant
            run <= fp@.len() == fpv.len(),
            fpv == paras_view(fp@),
            leading_h1(fpv, run as int) == leading_h1(fpv, 0),
        decreases fp.len() - run,
    {
        run += 1;
    }
    if run > 1 {
        let mut first = fp.remove(0);
        let mut k: usize = 1;
        assert(lines_of(fpv, 1) =~= fpv[0].lines) by {
            assert(lines_of(fpv, 0) =~= Seq::<PdfLine>::empty());
        }
        assert(paras_view(fp@) =~= fpv.skip(1));
        while k < run
            invariant
                1 <= k <= run <= fpv.len(),
                fp@.len() == fpv.len() - k,
                paras_view(fp@) == fpv.skip(k as int),
                first.lines@ == lines_of(fpv, k as int),
                para_view(first) == (ParaView { lines: first.lines@, ..fpv[0] }),
            decreases run - k,
        {
            assert(paras_view(fp@)[0] == para_view(fp@[0]));
            let ghost fb = fp@;
            let mut q = fp.remove(0);
            assert(para_view(q) == fpv[k as int]);
            first.lines.append(&mut q.lines);
            assert(paras_view(fp@) =~= paras_view(fb).skip(1));
            assert(fpv.skip(k as int).skip(1) =~= fpv.skip(k + 1));
            k += 1;
        }
        fp.insert(0, first);
        assert(paras_view(fp@) =~= seq![ParaView { lines: lines_of(fpv, run as int), ..fpv[0] }] + fpv.skip(
            run as int,
        ));
    }
    pages.insert(0, fp);
    assert(pages_view(pages@) =~= merge_title(pv));
}

fn first_h1_text(pages: &Vec<Vec<PdfParagraph>>) -> (r: Option<String>)
    ensures
        match first_h1(pages_view(pages@), pages@.len() as int) {
            Some(p) => r matches Some(t) && t@ == plain_text(p),
            None => r is None,
        },
{
    let ghost pv = pages_view(pages@);
    let mut i: usize = 0;
    while i < pages.len()
        invariant
            i <= pages@.len() == pv.len(),
            pv == pages_view(pages@),
            first_h1(pv, i as int) is None,
        decreases pages.len() - i,
    {
        let pg = &pages[i];
        let ghost ps = pv[i as int];
        assert(ps == paras_view(pg@));
        let mut j: usize = 0;
        while j < pg.len()
            invariant
                j <= pg@.len() == ps.len(),
                ps == paras_view(pg@),
                ps == pv[i as int],
                i < pv.len(),
                pv == pages_view(pages@),
                pv.len() == pages@.len(),
                first_h1(pv, i as int) is None,
                first_h1_in(ps, j as int) is None,
            decreases pg.len() - j,
        {
            assert(ps[j as int] == para_view(pg@[j as int]));
            if pg[j].heading_level == Some(1u8) {
                let t = paragraph_plain_text(&pg[j]);
                proof {
                    lemma_first_in_extends(ps, j as int + 1, ps.len() as int);
                    assert(first_h1(pv, i + 1) == Some(ps[j as int]));
                    lemma_first_extends(pv, i as int + 1, pv.len() as int);
                }
                return Some(t);
            }
            j += 1;
        }
        i += 1;
    }
    None
}

proof fn lemma_first_in_extends(ps: Seq<ParaView>, a: int, b: int)
    requires
        0 <= a <= b,
        first_h1_in(ps, a) is Some,
    ensures
        first_h1_in(ps, b) == first_h1_in(ps, a),
    decreases b - a,
{
    if a < b {
        lemma_first_in_extends(ps, a, b - 1);
    }
}

proof fn lemma_first_extends(pages: Seq<Seq<ParaView>>, a: int, b: int)
    requires
        0 <= a <= b,
        first_h1(pages, a) is Some,
    ensures
        first_h1(pages, b) == first_h1(pages, a),
    decreases b - a,
{
    if a < b {
        lemma_first_extends(pages, a, b - 1);
    }
}

fn demote_page_exec(pg: &mut Vec<PdfParagraph>, found: bool) -> (f: bool)
    ensures
        (paras_view(final(pg)@), f) == demote_in(paras_view(old(pg)@), old(pg)@.len() as int, found),
{
    let ghost ps = paras_view(pg@);
    let mut f = found;
    let mut j: usize = 0;
    while j < pg.len()
        invariant
            j <= pg@.len() == ps.len(),
            ps == paras_view(old(pg)@),
            paras_view(pg@).take(j as int) == demote_in(ps, j as int, found).0,
            paras_view(pg@).skip(j as int) == ps.skip(j as int),
            f == demote_in(ps, j as int, found).1,
        decreases pg.len() - j,
    {
        let ghost before = pg@;
        assert(paras_view(pg@).skip(j as int)[0] == para_view(pg@[j as int]));
        assert(para_view(pg@[j as int]) == ps[j as int]);
        if pg[j].heading_level == Some(1u8) {
            if f {
                let t = paragraph_plain_text(&pg[j]);
                if starts_with_section_number(t.as_str()) {
                    let mut q = pg.remove(j);
                    q.heading_level = Some(2u8);
                    pg.insert(j, q);
                    assert(pg@ =~= before.update(j as int, q));
                }
            }
            f = true;
        }
        proof {
            assert(paras_view(pg@).take(j + 1) =~= paras_view(pg@).take(j as int).push(para_view(pg@[j as int])));
            assert(paras_view(pg@).take(j as int) =~= paras_view(before).take(j as int));
            assert(paras_view(pg@).skip(j + 1) =~= paras_view(before).skip(j + 1));
            assert(paras_view(before).skip(j + 1) =~= paras_view(before).skip(j as int).skip(1));
            assert(ps.skip(j + 1) =~= ps.skip(j as int).skip(1));
        }
        j += 1;
    }
    assert(paras_view(pg@) =~= paras_view(pg@).take(j as int));
    f
}

fn demote_pages_exec(pages: &mut Vec<Vec<PdfParagraph>>)
    ensures
        pages_view(final(pages)@) == demote_pages(pages_view(old(pages)@), old(pages)@.len() as int).0,
{
    let ghost pv = pages_view(pages@);
    let mut found = false;
    let mut i: usize = 0;
    while i < pages.len()
        invariant
            i <= pages@.len() == pv.len(),
            pv == pages_view(old(pages)@),
            pages_view(pages@).take(i as int) == demote_pages(pv, i as int).0,
            pages_view(pages@).skip(i as int) == pv.skip(i as int),
            found == demote_pages(pv, i as int).1,
        decreases pages.len() - i,
    {
        let ghost before = pages@;
        assert(pages_view(pages@).skip(i as int)[0] == paras_view(pages@[i as int]@));
        let mut pg = pages.remove(i);
        assert(paras_view(pg@) == pv[i as int]);
        found = demote_page_exec(&mut pg, found);
        pages.insert(i, pg);
        proof {
            assert(pages@ =~= before.update(i as int, pg));
            assert(pages_view(pages@).take(i + 1) =~= pages_view(pages@).take(i as int).push(paras_view(pg@)));
            assert(pages_view(pages@).take(i as int) =~= pages_view(before).take(i as int));
            assert(pages_view(pages@).skip(i + 1) =~= pages_view(before).skip(i + 1));
            assert(pages_view(before).skip(i + 1) =~= pages_view(before).skip(i as int).skip(1));
            assert(pv.skip(i + 1) =~= pv.skip(i as int).skip(1));
        }
        i += 1;
    }
    assert(pages_view(pages@) =~= pages_view(pages@).take(i as int));
}

/// `refine_heading_hierarchy` (see `refined`).
pub fn refine_heading_hierarchy(all_pages: &mut Vec<Vec<PdfParagraph>>)
    ensures
        pages_view(final(all_pages)@) == refined(pages_view(old(all_pages)@)),
{
    if !several_h1(all_pages) {
        return;
    }
    merge_title_exec(all_pages);
    if !several_h1(all_pages) {
        return;
    }
    match first_h1_text(all_pages) {
        Some(t) => {
            if starts_with_section_number(t.as_str()) {
                return;
            }
        },
        None => {
            return;
        },
    }
    demote_pages_exec(all_pages);
}


// ---------------------------------------------------------------------------
// Unnumbered sub-sections between numbered sections
// ---------------------------------------------------------------------------
/// A level-2 heading whose text starts with a section number.
pub open spec fn numbered_h2(p: ParaView) -> bool {
    p.heading == Some(2u8) && section_numbered(plain_text(p))
}

/// The number of numbered level-2 headings among the first `n` paragraphs.
pub open spec fn numbered_in(ps: Seq<ParaView>, n: int) -> nat
    decreases n,
{
    if n <= 0 {
        0
    } else {
        numbered_in(ps, n - 1) + (if numbered_h2(ps[n - 1]) {
            1nat
        } else {
            0nat
        })
    }
}

/// The number of numbered level-2 headings on the first `n` pages.
pub open spec fn numbered_total(pages: Seq<Seq<ParaView>>, n: int) -> nat
    decreases n,
{
    if n <= 0 {
        0
    } else {
        numbered_total(pages, n - 1) + numbered_in(pages[n - 1], pages[n - 1].len() as int)
    }
}

/// Paragraph `(a, b)` (page, index) comes before paragraph `(c, d)`.
pub open spec fn precedes(a: int, b: int, c: int, d: int) -> bool {
    a < c || (a == c && b < d)
}

pub open spec fn numbered_at(pages: Seq<Seq<ParaView>>, a: int, b: int) -> bool {
    0 <= a < pages.len() && 0 <= b < pages[a].len() && numbered_h2(pages[a][b])
}

/// An unnumbered level-2 heading with a numbered level-2 heading before it
/// and one after it, in a document with at least three numbered ones.
pub open spec fn is_subsection(pages: Seq<Seq<ParaView>>, i: int, j: int) -> bool {
    &&& numbered_total(pages, pages.len() as int) >= 3
    &&& pages[i][j].heading == Some(2u8)
    &&& !section_numbered(plain_text(pages[i][j]))
    &&& exists|a: int, b: int| #[trigger] numbered_at(pages, a, b) && precedes(a, b, i, j)
    &&& exists|a: int, b: int| #[trigger] numbered_at(pages, a, b) && precedes(i, j, a, b)
}

/// `demote_unnumbered_subsections`: every sub-section heading becomes level 3.
pub open spec fn subsections_demoted(pages: Seq<Seq<ParaView>>) -> Seq<Seq<ParaView>> {
    Seq::new(
        pages.len(),
        |i: int|
            Seq::new(
                pages[i].len(),
                |j: int|
                    if is_subsection(pages, i, j) {
                        ParaView { heading: Some(3u8), ..pages[i][j] }
                    } else {
                        pages[i][j]
                    },
            ),
    )
}

pub open spec fn at_most_3(n: nat) -> nat {
    if n > 3 {
        3
    } else {
        n
    }
}

/// The first and last numbered level-2 headings, if any, and how many there
/// are (counted up to three).
fn numbered_h2_span(pages: &Vec<Vec<PdfParagraph>>) -> (r: (u8, Option<(usize, usize, usize, usize)>))
    ensures
        r.0 == at_most_3(numbered_total(pages_view(pages@), pages@.len() as int)),
        r.1 is None ==> forall|x: int, y: int| !numbered_at(pages_view(pages@), x, y),
        r.1 matches Some((a, b, c, d)) ==> {
            &&& numbered_at(pages_view(pages@), a as int, b as int)
            &&& numbered_at(pages_view(pages@), c as int, d as int)
            &&& forall|x: int, y: int| #[trigger]
                numbered_at(pages_view(pages@), x, y) ==> !precedes(x, y, a as int, b as int) && !precedes(
                    c as int,
                    d as int,
                    x,
                    y,
                )
        },
{
    let ghost pv = pages_view(pages@);
    let mut cnt: u8 = 0;
    let mut span: Option<(usize, usize, usize, usize)> = None;
    let mut i: usize = 0;
    while i < pages.len()
        invariant
            i <= pages@.len() == pv.len(),
            pv == pages_view(pages@),
            cnt == at_most_3(numbered_total(pv, i as int)),
            span is None ==> forall|x: int, y: int| #[trigger]
                numbered_at(pv, x, y) ==> !precedes(x, y, i as int, 0),
            span matches Some((a, b, c, d)) ==> {
                &&& numbered_at(pv, a as int, b as int) && precedes(a as int, b as int, i as int, 0)
                &&& numbered_at(pv, c as int, d as int) && precedes(c as int, d as int, i as int, 0)
                &&& forall|x: int, y: int| #[trigger]
                    numbered_at(pv, x, y) && precedes(x, y, i as int, 0) ==> !precedes(x, y, a as int, b as int)
                        && !precedes(c as int, d as int, x, y)
            },
        decreases pages.len() - i,
    {
        let pg = &pages[i];
        let ghost ps = pv[i as int];
        assert(ps == paras_view(pg@));
        let ghost base = numbered_total(pv, i as int);
        let mut j: usize = 0;
        while j < pg.len()
            invariant
                j <= pg@.len() == ps.len(),
                i < pv.len() == pages@.len(),
                ps == paras_view(pg@),
                ps == pv[i as int],
                base == numbered_total(pv, i as int),
                cnt == at_most_3(base + numbered_in(ps, j as int)),
                span is None ==> forall|x: int, y: int| #[trigger]
                    numbered_at(pv, x, y) ==> !precedes(x, y, i as int, j as int),
                span matches Some((a, b, c, d)) ==> {
                    &&& numbered_at(pv, a as int, b as int) && precedes(a as int, b as int, i as int, j as int)
                    &&& numbered_at(pv, c as int, d as int) && precedes(c as int, d as int, i as int, j as int)
                    &&& forall|x: int, y: int| #[trigger]
                        numbered_at(pv, x, y) && precedes(x, y, i as int, j as int) ==> !precedes(
                            x,
                            y,
                            a as int,
                            b as int,
                        ) && !precedes(c as int, d as int, x, y)
                },
            decreases pg.len() - j,
        {
            assert(ps[j as int] == para_view(pg@[j as int]));
            let mut numbered = false;
            if pg[j].heading_level == Some(2u8) {
                let t = paragraph_plain_text(&pg[j]);
                numbered = starts_with_section_number(t.as_str());
            }
            assert(numbered == numbered_at(pv, i as int, j as int));
            if numbered {
                if cnt < 3 {
                    cnt += 1;
                }
                span = match span {
                    None => Some((i, j, i, j)),
                    Some((a, b, _c, _d)) => Some((a, b, i, j)),
                };
            }
            j += 1;
        }
        i += 1;
    }
    (cnt, span)
}


/// With `(a, b)` the first and `(c, d)` the last numbered level-2 heading,
/// the paragraph `(i, j)` is a sub-section exactly when it is an unnumbered
/// level-2 heading strictly between them.
proof fn lemma_subsection_between(
    pv: Seq<Seq<ParaView>>,
    a: int,
    b: int,
    c: int,
    d: int,
    i: int,
    j: int,
)
    requires
        numbered_at(pv, a, b),
        numbered_at(pv, c, d),
        numbered_total(pv, pv.len() as int) >= 3,
        forall|x: int, y: int| #[trigger]
            numbered_at(pv, x, y) ==> !precedes(x, y, a, b) && !precedes(c, d, x, y),
        0 <= i < pv.len(),
        0 <= j < pv[i].len(),
    ensures
        is_subsection(pv, i, j) == (pv[i][j].heading == Some(2u8) && !section_numbered(plain_text(pv[i][j]))
            && precedes(a, b, i, j) && precedes(i, j, c, d)),
{
    if precedes(a, b, i, j) && precedes(i, j, c, d) {
        assert(numbered_at(pv, a, b) && precedes(a, b, i, j));
        assert(numbered_at(pv, c, d) && precedes(i, j, c, d));
    }
}

fn demote_between(pages: &mut Vec<Vec<PdfParagraph>>, a: usize, b: usize, c: usize, d: usize)
    requires
        numbered_at(pages_view(old(pages)@), a as int, b as int),
        numbered_at(pages_view(old(pages)@), c as int, d as int),
        numbered_total(pages_view(old(pages)@), old(pages)@.len() as int) >= 3,
        forall|x: int, y: int| #[trigger]
            numbered_at(pages_view(old(pages)@), x, y) ==> !precedes(x, y, a as int, b as int) && !precedes(
                c as int,
                d as int,
                x,
                y,
            ),
    ensures
        pages_view(final(pages)@) == subsections_demoted(pages_view(old(pages)@)),
{
    let ghost pv = pages_view(pages@);
    let ghost dm = subsections_demoted(pv);
    let mut i: usize = 0;
    while i < pages.len()
        invariant
            i <= pages@.len() == pv.len() == dm.len(),
            pv == pages_view(old(pages)@),
            dm == subsections_demoted(pv),
            numbered_at(pv, a as int, b as int),
            numbered_at(pv, c as int, d as int),
            numbered_total(pv, pv.len() as int) >= 3,
            forall|x: int, y: int| #[trigger]
                numbered_at(pv, x, y) ==> !precedes(x, y, a as int, b as int) && !precedes(c as int, d as int, x, y),
            forall|k: int| 0 <= k < i ==> paras_view(#[trigger] pages@[k]@) == dm[k],
            forall|k: int| i <= k < pv.len() ==> paras_view(#[trigger] pages@[k]@) == pv[k],
        decreases pages.len() - i,
    {
        let ghost before = pages@;
        let mut pg = pages.remove(i);
        assert(paras_view(pg@) == pv[i as int]);
        let ghost ps = pv[i as int];
        let mut j: usize = 0;
        while j < pg.len()
            invariant
                j <= pg@.len() == ps.len() == dm[i as int].len(),
                i < pv.len() == dm.len(),
                ps == pv[i as int],
                dm == subsections_demoted(pv),
                numbered_at(pv, a as int, b as int),
                numbered_at(pv, c as int, d as int),
                numbered_total(pv, pv.len() as int) >= 3,
                forall|x: int, y: int| #[trigger]
                    numbered_at(pv, x, y) ==> !precedes(x, y, a as int, b as int) && !precedes(
                        c as int,
                        d as int,
                        x,
                        y,
                    ),
                forall|k: int| 0 <= k < j ==> para_view(#[trigger] pg@[k]) == dm[i as int][k],
                forall|k: int| j <= k < ps.len() ==> para_view(#[trigger] pg@[k]) == ps[k],
            decreases pg.len() - j,
        {
            proof {
                lemma_subsection_between(pv, a as int, b as int, c as int, d as int, i as int, j as int);
            }
            assert(para_view(pg@[j as int]) == ps[j as int]);
            let between = (a < i || (a == i && b < j)) && (i < c || (i == c && j < d));
            if between && pg[j].heading_level == Some(2u8) {
                let t = paragraph_plain_text(&pg[j]);
                if !starts_with_section_number(t.as_str()) {
                    let ghost pb = pg@;
                    let mut q = pg.remove(j);
                    q.heading_level = Some(3u8);
                    pg.insert(j, q);
                    assert(pg@ =~= pb.update(j as int, q));
                }
            }
            j += 1;
        }
        pages.insert(i, pg);
        proof {
            assert(paras_view(pg@) =~= dm[i as int]);
            assert(pages@ =~= before.update(i as int, pg));
        }
        i += 1;
    }
    assert(pages_view(pages@) =~= dm);
}

/// `demote_unnumbered_subsections` (see `subsections_demoted`).
pub fn demote_unnumbered_subsections(all_pages: &mut Vec<Vec<PdfParagraph>>)
    ensures
        pages_view(final(all_pages)@) == subsections_demoted(pages_view(old(all_pages)@)),
{
    let ghost pv = pages_view(all_pages@);
    let (cnt, span) = numbered_h2_span(all_pages);
    match span {
        Some((a, b, c, d)) => {
            if cnt >= 3 {
                demote_between(all_pages, a, b, c, d);
                return ;
            }
        },
        None => {},
    }
    proof {
        assert forall|i: int| 0 <= i < pv.len() implies subsections_demoted(pv)[i] =~= pv[i] by {
            assert forall|j: int| 0 <= j < pv[i].len() implies !is_subsection(pv, i, j) by {
                if is_subsection(pv, i, j) {
                    let (x, y) = choose|x: int, y: int| #[trigger] numbered_at(pv, x, y) && precedes(x, y, i, j);
                    assert(numbered_at(pv, x, y));
                }
            }
        }
        assert(subsections_demoted(pv) =~= pv);
    }
}


// ---------------------------------------------------------------------------
// Laws
// ---------------------------------------------------------------------------
proof fn lemma_lines_of_prefix(s: Seq<ParaView>, t: Seq<ParaView>, n: int)
    requires
        0 <= n <= s.len(),
        n <= t.len(),
        forall|k: int| 0 <= k < n ==> s[k].lines == t[k].lines,
    ensures
        lines_of(s, n) == lines_of(t, n),
    decreases n,
{
    if n > 0 {
        lemma_lines_of_prefix(s, t, n - 1);
    }
}

/// Merging paragraphs neither drops, repeats nor reorders a line: the lines
/// of the merged paragraphs, read in order, are the lines of the paragraphs
/// given.  This holds of `merge_consecutive_code_blocks`,
/// `merge_continuation_paragraphs_region_aware` and `merge_list_continuations`
/// alike.
pub proof fn merge_keeps_lines(ps: Seq<ParaView>, c: spec_fn(ParaView, ParaView) -> bool)
    ensures
        lines_of(merge_runs(ps, ps.len() as int, c), merge_runs(ps, ps.len() as int, c).len() as int) == lines_of(
            ps,
            ps.len() as int,
        ),
{
    lemma_merge_keeps_lines(ps, ps.len() as int, c);
}

proof fn lemma_merge_keeps_lines(ps: Seq<ParaView>, n: int, c: spec_fn(ParaView, ParaView) -> bool)
    requires
        0 <= n <= ps.len(),
    ensures
        lines_of(merge_runs(ps, n, c), merge_runs(ps, n, c).len() as int) == lines_of(ps, n),
    decreases n,
{
    if n > 0 {
        lemma_merge_keeps_lines(ps, n - 1, c);
        let acc = merge_runs(ps, n - 1, c);
        let r = merge_runs(ps, n, c);
        if acc.len() > 0 && c(acc.last(), ps[n - 1]) {
            assert(r == acc.drop_last().push(merged(acc.last(), ps[n - 1])));
            lemma_lines_of_prefix(r, acc, acc.len() - 1);
            assert(lines_of(r, r.len() as int) == lines_of(r, acc.len() - 1) + (acc.last().lines + ps[n
                - 1].lines));
            assert(lines_of(acc, acc.len() as int) == lines_of(acc, acc.len() - 1) + acc.last().lines);
            assert(lines_of(r, r.len() as int) =~= lines_of(acc, acc.len() as int) + ps[n - 1].lines);
        } else {
            assert(r == acc.push(ps[n - 1]));
            lemma_lines_of_prefix(r, acc, acc.len() as int);
        }
    }
}

/// Demoting code blocks that do not look like code a second time changes
/// nothing.
pub proof fn non_code_demotion_idempotent(ps: Seq<ParaView>)
    ensures
        ps.map_values(|p: ParaView| demoted_if_not_code(p)).map_values(|p: ParaView| demoted_if_not_code(p))
            == ps.map_values(|p: ParaView| demoted_if_not_code(p)),
{
    assert(ps.map_values(|p: ParaView| demoted_if_not_code(p)).map_values(|p: ParaView| demoted_if_not_code(p))
        =~= ps.map_values(|p: ParaView| demoted_if_not_code(p)));
}

/// `demote_unnumbered_subsections` keeps every page and paragraph in place
/// and changes nothing but heading levels: a paragraph either stays as it
/// was, or it was an unnumbered level-2 heading and becomes level 3.
pub proof fn subsection_demotion_only_lowers_unnumbered_h2(pages: Seq<Seq<ParaView>>, i: int, j: int)
    requires
        0 <= i < pages.len(),
        0 <= j < pages[i].len(),
    ensures
        subsections_demoted(pages).len() == pages.len(),
        subsections_demoted(pages)[i].len() == pages[i].len(),
        subsections_demoted(pages)[i][j] == pages[i][j] || (pages[i][j].heading == Some(2u8) && !section_numbered(
            plain_text(pages[i][j]),
        ) && subsections_demoted(pages)[i][j] == ParaView { heading: Some(3u8), ..pages[i][j] }),
{
}


proof fn lemma_leading_h1_bounds(ps: Seq<ParaView>, i: int)
    requires
        0 <= i <= ps.len(),
    ensures
        i <= leading_h1(ps, i) <= ps.len(),
    decreases ps.len() - i,
{
    if i < ps.len() && is_h1(ps[i]) {
        lemma_leading_h1_bounds(ps, i + 1);
    }
}

proof fn lemma_demote_in_lines(ps: Seq<ParaView>, n: int, found: bool)
    requires
        0 <= n <= ps.len(),
    ensures
        demote_in(ps, n, found).0.len() == n,
        forall|k: int| 0 <= k < n ==> (#[trigger] demote_in(ps, n, found).0[k]).lines == ps[k].lines,
    decreases n,
{
    if n > 0 {
        lemma_demote_in_lines(ps, n - 1, found);
    }
}

proof fn lemma_demote_pages_lines(pages: Seq<Seq<ParaView>>, n: int)
    requires
        0 <= n <= pages.len(),
    ensures
        demote_pages(pages, n).0.len() == n,
        forall|i: int|
            0 <= i < n ==> lines_of(#[trigger] demote_pages(pages, n).0[i], pages[i].len() as int) == lines_of(
                pages[i],
                pages[i].len() as int,
            ) && demote_pages(pages, n).0[i].len() == pages[i].len(),
    decreases n,
{
    if n > 0 {
        lemma_demote_pages_lines(pages, n - 1);
        let f = demote_pages(pages, n - 1).1;
        let pg = pages[n - 1];
        lemma_demote_in_lines(pg, pg.len() as int, f);
        lemma_lines_of_prefix(demote_in(pg, pg.len() as int, f).0, pg, pg.len() as int);
    }
}

proof fn lemma_title_lines(fp: Seq<ParaView>, run: int, x: ParaView, m: int)
    requires
        0 < run <= fp.len(),
        x.lines == lines_of(fp, run),
        0 <= m <= fp.len() - run,
    ensures
        lines_of(seq![x] + fp.skip(run), 1 + m) == lines_of(fp, run + m),
    decreases m,
{
    let t = seq![x] + fp.skip(run);
    if m == 0 {
        assert(lines_of(t, 0) =~= Seq::<PdfLine>::empty());
        assert(lines_of(t, 1) =~= x.lines);
    } else {
        lemma_title_lines(fp, run, x, m - 1);
        assert(t[m] == fp[run + m - 1]);
    }
}

proof fn lemma_demote_in_first(ps: Seq<ParaView>, n: int)
    requires
        1 <= n <= ps.len(),
    ensures
        demote_in(ps, n, false).0[0] == ps[0],
    decreases n,
{
    lemma_demote_in_lines(ps, n, false);
    if n == 1 {
        assert(demote_in(ps, 0, false) == (Seq::<ParaView>::empty(), false));
        assert(demote_one(ps[0], false).0 == ps[0]);
        assert(demote_in(ps, 1, false).0 == Seq::<ParaView>::empty().push(ps[0]));
    } else {
        lemma_demote_in_first(ps, n - 1);
        lemma_demote_in_lines(ps, n - 1, false);
        assert(demote_in(ps, n, false).0[0] == demote_in(ps, n - 1, false).0[0]);
    }
}

proof fn lemma_demote_pages_first(pages: Seq<Seq<ParaView>>, n: int)
    requires
        1 <= n <= pages.len(),
    ensures
        demote_pages(pages, n).0[0] == demote_in(pages[0], pages[0].len() as int, false).0,
    decreases n,
{
    lemma_demote_pages_lines(pages, n);
    if n == 1 {
        assert(demote_pages(pages, 0) == (Seq::<Seq<ParaView>>::empty(), false));
        let pg = demote_in(pages[0], pages[0].len() as int, false);
        assert(demote_pages(pages, 1).0 == Seq::<Seq<ParaView>>::empty().push(pg.0));
    } else {
        lemma_demote_pages_first(pages, n - 1);
        lemma_demote_pages_lines(pages, n - 1);
        assert(demote_pages(pages, n).0[0] == demote_pages(pages, n - 1).0[0]);
    }
}

/// A title split over the first page's leading level-1 headings comes out
/// whole: when a document has several level-1 headings and its first page
/// opens with more than one of them, the refined first page opens with a
/// single level-1 heading that holds all their lines, followed by the rest of
/// that page; every other page keeps its number of paragraphs.
pub proof fn split_title_is_merged(pages: Seq<Seq<ParaView>>)
    requires
        pages.len() > 0,
        h1_total(pages, pages.len() as int) > 1,
        leading_h1(pages[0], 0) > 1,
    ensures
        refined(pages)[0][0] == (ParaView { lines: lines_of(pages[0], leading_h1(pages[0], 0)), ..pages[0][0] }),
        is_h1(refined(pages)[0][0]),
        refined(pages)[0].len() == pages[0].len() - leading_h1(pages[0], 0) + 1,
        refined(pages).len() == pages.len(),
        forall|i: int| 1 <= i < pages.len() ==> (#[trigger] refined(pages)[i]).len() == pages[i].len(),
{
    let fp = pages[0];
    let run = leading_h1(fp, 0);
    lemma_leading_h1_bounds(fp, 0);
    assert(is_h1(fp[0]));
    let x = ParaView { lines: lines_of(fp, run), ..fp[0] };
    let m = merge_title(pages);
    assert(m[0] == seq![x] + fp.skip(run));
    assert(m[0][0] == x);
    let r = refined(pages);
    assert(m.len() == pages.len());
    assert forall|i: int| 1 <= i < pages.len() implies #[trigger] m[i] == pages[i] by {}
    lemma_demote_pages_lines(m, m.len() as int);
    if r != m {
        let d = demote_pages(m, m.len() as int).0;
        assert(r == d);
        lemma_demote_pages_first(m, m.len() as int);
        lemma_demote_in_first(m[0], m[0].len() as int);
        lemma_demote_in_lines(m[0], m[0].len() as int, false);
    }
}

/// `refine_heading_hierarchy` keeps the pages and every line of them: each
/// page holds the same lines, in the same order, before and after.
pub proof fn refine_keeps_page_lines(pages: Seq<Seq<ParaView>>)
    ensures
        refined(pages).len() == pages.len(),
        forall|i: int|
            0 <= i < pages.len() ==> lines_of(#[trigger] refined(pages)[i], refined(pages)[i].len() as int)
                == lines_of(pages[i], pages[i].len() as int),
{
    let m = merge_title(pages);
    assert(m.len() == pages.len());
    assert forall|i: int| 0 <= i < pages.len() implies lines_of(#[trigger] m[i], m[i].len() as int) == lines_of(
        pages[i],
        pages[i].len() as int,
    ) by {
        if i == 0 && pages.len() > 0 {
            let fp = pages[0];
            let run = leading_h1(fp, 0);
            lemma_leading_h1_bounds(fp, 0);
            if run > 1 {
                let x = ParaView { lines: lines_of(fp, run), ..fp[0] };
                lemma_title_lines(fp, run, x, fp.len() - run);
                assert(m[0] == seq![x] + fp.skip(run));
            }
        }
    }
    lemma_demote_pages_lines(m, m.len() as int);
}

} // verus!
