//! Heading classification of PDF paragraphs by font-size clusters and by the
//! bold (or italic) short-paragraph heuristic.
//!
//! Font sizes are in hundredths of a point.  A heading map lists the font-size
//! clusters of a document: each centroid with the heading level it stands for
//! (`None` for body text).  Distances are compared with the average gap
//! between centroids exactly, in integers.
use vstd::prelude::*;
use crate::pdf::{
    figure_label, looks_like_figure_label, para_view, paragraph_plain_text, paras_view, plain_text, ParaView, PdfLine,
    PdfParagraph, SegmentData,
};
use crate::text::{chars_of, contains_char, has_char, split_words, string_of, trim, trim_chars, words};

verus! {

/// The limits of heading classification.
#[derive(Debug, Clone, Copy)]
pub struct HeadingLimits {
    /// At most this many words for a paragraph to be a heading by font size.
    pub max_heading_words: usize,
    /// At most this many words for a bold or italic paragraph to be a heading.
    pub max_bold_heading_words: usize,
    /// How far a font size may be from its cluster's centroid, as a multiple
    /// of the average gap between centroids, in tenths.
    pub max_distance_tenths: u32,
}

/// The spread of the centroids of a heading map: the average gap between
/// neighbouring centroids is `span / gaps`; with fewer than two centroids
/// there is no gap (`gaps == 0`) and no distance is too far.
#[derive(Debug, Clone, Copy)]
pub struct GapInfo {
    pub span: u128,
    pub gaps: usize,
}

pub open spec fn max_centroid(map: Seq<(i64, Option<u8>)>, n: int) -> int
    decreases n,
{
    if n <= 1 {
        map[0].0 as int
    } else {
        let m = max_centroid(map, n - 1);
        if map[n - 1].0 > m {
            map[n - 1].0 as int
        } else {
            m
        }
    }
}

pub open spec fn min_centroid(map: Seq<(i64, Option<u8>)>, n: int) -> int
    decreases n,
{
    if n <= 1 {
        map[0].0 as int
    } else {
        let m = min_centroid(map, n - 1);
        if map[n - 1].0 < m {
            map[n - 1].0 as int
        } else {
            m
        }
    }
}

proof fn lemma_min_le_max(map: Seq<(i64, Option<u8>)>, n: int)
    requires
        1 <= n <= map.len(),
    ensures
        min_centroid(map, n) <= max_centroid(map, n),
        i64::MIN <= min_centroid(map, n),
        max_centroid(map, n) <= i64::MAX,
    decreases n,
{
    if n > 1 {
        lemma_min_le_max(map, n - 1);
    }
}

/// The gap information of a heading map.
pub open spec fn gap_of(map: Seq<(i64, Option<u8>)>) -> GapInfo {
    if map.len() <= 1 {
        GapInfo { span: 0, gaps: 0 }
    } else {
        GapInfo {
            span: (max_centroid(map, map.len() as int) - min_centroid(map, map.len() as int)) as u128,
            gaps: (map.len() - 1) as usize,
        }
    }
}

/// `precompute_gap_info`: the sum of the gaps between sorted neighbouring
/// centroids is the largest centroid less the smallest.
pub fn precompute_gap_info(heading_map: &Vec<(i64, Option<u8>)>) -> (g: GapInfo)
    ensures
        g == gap_of(heading_map@),
        heading_map@.len() <= 1 ==> g.gaps == 0,
        g.span <= u64::MAX,
        heading_map@.len() > 1 ==> g.gaps == heading_map@.len() - 1 && g.span == max_centroid(
            heading_map@,
            heading_map@.len() as int,
        ) - min_centroid(heading_map@, heading_map@.len() as int),
{
    let n = heading_map.len();
    if n <= 1 {
        return GapInfo { span: 0, gaps: 0 };
    }
    let mut hi: i64 = heading_map[0].0;
    let mut lo: i64 = heading_map[0].0;
    let mut i: usize = 1;
    while i < n
        invariant
            1 <= i <= n == heading_map@.len(),
            hi == max_centroid(heading_map@, i as int),
            lo == min_centroid(heading_map@, i as int),
        decreases n - i,
    {
        if heading_map[i].0 > hi {
            hi = heading_map[i].0;
        }
        if heading_map[i].0 < lo {
            lo = heading_map[i].0;
        }
        i += 1;
    }
    proof {
        lemma_min_le_max(heading_map@, n as int);
    }
    let span = (hi as i128 - lo as i128) as u128;
    GapInfo { span, gaps: n - 1 }
}

/// The distance of a font size from a centroid.
pub open spec fn distance(font: i64, centroid: i64) -> int {
    if font >= centroid {
        font - centroid
    } else {
        centroid - font
    }
}

/// The entry of the first `n` whose centroid is closest to `font` (the
/// first such on a tie).
pub open spec fn closest(map: Seq<(i64, Option<u8>)>, font: i64, n: int) -> int
    decreases n,
{
    if n <= 1 {
        0
    } else {
        let k = closest(map, font, n - 1);
        if distance(font, map[n - 1].0) < distance(font, map[k].0) {
            n - 1
        } else {
            k
        }
    }
}

/// A distance too far from every cluster: more than the allowed multiple of
/// the average gap.
pub open spec fn too_far(dist: int, gap: GapInfo, tenths: u32) -> bool {
    gap.gaps > 0 && dist * 10 * gap.gaps > tenths * gap.span
}

/// The heading level of a font size: the level of the closest cluster, unless
/// that is too far; the only cluster's level when there is one.
pub open spec fn heading_level_for(
    font: i64,
    map: Seq<(i64, Option<u8>)>,
    gap: GapInfo,
    tenths: u32,
) -> Option<u8> {
    if map.len() == 0 {
        None
    } else if map.len() == 1 {
        map[0].1
    } else {
        let k = closest(map, font, map.len() as int);
        if too_far(distance(font, map[k].0), gap, tenths) {
            None
        } else {
            map[k].1
        }
    }
}

proof fn lemma_quotient_compare(x: int, y: int, g: int)
    requires
        g > 0,
        x >= 0,
        y >= 0,
    ensures
        (x * g > y) == (x > y / g),
{
    let q = y / g;
    let r = y % g;
    assert(y == q * g + r && 0 <= r < g) by (nonlinear_arith)
        requires
            g > 0,
            y >= 0,
            q == y / g,
            r == y % g,
    ;
    if x > q {
        assert(x * g >= (q + 1) * g) by (nonlinear_arith)
            requires
                x >= q + 1,
                g > 0,
        ;
        assert((q + 1) * g == q * g + g) by (nonlinear_arith);
    } else {
        assert(x * g <= q * g) by (nonlinear_arith)
            requires
                x <= q,
                g > 0,
        ;
    }
}

/// `find_heading_level`.
pub fn find_heading_level(font_size: i64, heading_map: &Vec<(i64, Option<u8>)>, gap_info: &GapInfo, limits: &HeadingLimits) -> (r: Option<u8>)
    requires
        gap_info.span <= u64::MAX,
    ensures
        r == heading_level_for(font_size, heading_map@, *gap_info, limits.max_distance_tenths),
{
    let n = heading_map.len();
    if n == 0 {
        return None;
    }
    if n == 1 {
        return heading_map[0].1;
    }
    let mut best: usize = 0;
    let mut best_dist: u128 = abs_diff(font_size, heading_map[0].0);
    let mut i: usize = 1;
    while i < n
        invariant
            1 <= i <= n == heading_map@.len(),
            best == closest(heading_map@, font_size, i as int),
            best < i,
            best_dist == distance(font_size, heading_map@[best as int].0),
        decreases n - i,
    {
        let d = abs_diff(font_size, heading_map[i].0);
        if d < best_dist {
            best = i;
            best_dist = d;
        }
        i += 1;
    }
    if gap_info.gaps > 0 {
        assert(limits.max_distance_tenths as u128 * gap_info.span <= 0x1_0000_0000_0000_0000_0000_0000u128) by (
        nonlinear_arith)
            requires
                limits.max_distance_tenths <= u32::MAX,
                gap_info.span <= u64::MAX,
        ;
        let y: u128 = limits.max_distance_tenths as u128 * gap_info.span;
        let q: u128 = y / (gap_info.gaps as u128);
        proof {
            lemma_quotient_compare(best_dist * 10, y as int, gap_info.gaps as int);
            assert(best_dist * 10 * gap_info.gaps == (best_dist * 10) * gap_info.gaps);
        }
        if best_dist * 10 > q {
            return None;
        }
    }
    heading_map[best].1
}

fn abs_diff(a: i64, b: i64) -> (r: u128)
    ensures
        r == distance(a, b),
{
    if a >= b {
        (a as i128 - b as i128) as u128
    } else {
        (b as i128 - a as i128) as u128
    }
}


// ---------------------------------------------------------------------------
// Classification of paragraphs
// ---------------------------------------------------------------------------
/// The number of words of the first `n` segments.
pub open spec fn seg_words(segs: Seq<SegmentData>, n: int) -> nat
    decreases n,
{
    if n <= 0 {
        0
    } else {
        seg_words(segs, n - 1) + words(segs[n - 1].text@).len()
    }
}

/// The number of words of the first `n` lines.
pub open spec fn line_words(lines: Seq<PdfLine>, n: int) -> nat
    decreases n,
{
    if n <= 0 {
        0
    } else {
        line_words(lines, n - 1) + seg_words(lines[n - 1].segments@, lines[n - 1].segments@.len() as int)
    }
}

/// The number of words of a paragraph.
pub open spec fn word_count(p: ParaView) -> nat {
    line_words(p.lines, p.lines.len() as int)
}

/// A paragraph with lines, every segment of which is italic.
pub open spec fn italic_para(p: ParaView) -> bool {
    &&& p.lines.len() > 0
    &&& forall|i: int, j: int|
        0 <= i < p.lines.len() && 0 <= j < p.lines[i].segments@.len() ==> (#[trigger] p.lines[i].segments@[j]).is_italic
}

/// The centroid of the first body cluster from entry `i` on (0 when none).
pub open spec fn body_font_from(map: Seq<(i64, Option<u8>)>, i: int) -> int
    decreases map.len() - i,
{
    if i < 0 || i >= map.len() {
        0
    } else if map[i].1 is None {
        map[i].0 as int
    } else {
        body_font_from(map, i + 1)
    }
}

/// The body font size: the centroid of the first cluster without a heading
/// level, 0 when there is none.
pub open spec fn body_font(map: Seq<(i64, Option<u8>)>) -> int {
    body_font_from(map, 0)
}

pub open spec fn is_ascii_upper(c: char) -> bool {
    'A' <= c && c <= 'Z'
}

/// A short bold or italic paragraph that reads as a section heading: not a
/// list item, at most `max_bold_heading_words` words, not an italic line of
/// names or addresses, not one or two words at body size, not ending with `.`
/// or `:`, and not a figure label.
pub open spec fn promoted(p: ParaView, body: int, limits: HeadingLimits) -> bool {
    let wc = word_count(p);
    let it = italic_para(p);
    let t = trim(plain_text(p));
    &&& p.bold || it
    &&& !p.list
    &&& wc <= limits.max_bold_heading_words
    &&& (it && !p.bold ==> !has_char(t, '@') && !has_char(t, ',') && t.len() > 0 && is_ascii_upper(t[0]))
    &&& !(wc <= 2 && body > 0 && p.font <= body + 50)
    &&& !(t.len() > 0 && (t.last() == '.' || t.last() == ':'))
    &&& !figure_label(t)
}

/// One paragraph classified: the level of its font-size cluster when it has
/// few enough words; otherwise level 2 when it reads as a bold section
/// heading.  A code block is never a heading, whatever the other rules say.
pub open spec fn classified(p: ParaView, map: Seq<(i64, Option<u8>)>, gap: GapInfo, body: int, limits: HeadingLimits) -> ParaView {
    let lvl = heading_level_for(p.font, map, gap, limits.max_distance_tenths);
    let p2 = if lvl is Some && word_count(p) <= limits.max_heading_words {
        ParaView { heading: lvl, ..p }
    } else if promoted(p, body, limits) {
        ParaView { heading: Some(2u8), ..p }
    } else {
        p
    };
    if p2.code {
        ParaView { heading: None, ..p2 }
    } else {
        p2
    }
}

pub open spec fn capped(n: nat) -> u128 {
    if n > u128::MAX {
        u128::MAX
    } else {
        n as u128
    }
}

fn count_words(p: &PdfParagraph) -> (r: u128)
    ensures
        r == capped(word_count(para_view(*p))),
{
    let ghost lines = p.lines@;
    let mut r: u128 = 0;
    let mut i: usize = 0;
    while i < p.lines.len()
        invariant
            i <= lines.len(),
            lines == p.lines@,
            r == capped(line_words(lines, i as int)),
        decreases p.lines.len() - i,
    {
        let segs = &p.lines[i].segments;
        let ghost base = line_words(lines, i as int);
        let mut j: usize = 0;
        while j < segs.len()
            invariant
                j <= segs@.len(),
                i < lines.len(),
                segs@ == lines[i as int].segments@,
                base == line_words(lines, i as int),
                r == capped(base + seg_words(segs@, j as int)),
            decreases segs.len() - j,
        {
            let v = chars_of(segs[j].text.as_str());
            let ws = split_words(&v);
            let k = ws.len() as u128;
            if r < u128::MAX - k {
                r = r + k;
            } else {
                r = u128::MAX;
            }
            j += 1;
        }
        i += 1;
    }
    r
}

fn is_italic_paragraph(p: &PdfParagraph) -> (b: bool)
    ensures
        b == italic_para(para_view(*p)),
{
    if p.lines.len() == 0 {
        return false;
    }
    let ghost lines = p.lines@;
    let mut i: usize = 0;
    while i < p.lines.len()
        invariant
            i <= lines.len(),
            lines == p.lines@,
            forall|a: int, b: int|
                0 <= a < i && 0 <= b < lines[a].segments@.len() ==> (#[trigger] lines[a].segments@[b]).is_italic,
        decreases p.lines.len() - i,
    {
        let segs = &p.lines[i].segments;
        let mut j: usize = 0;
        while j < segs.len()
            invariant
                j <= segs@.len(),
                i < lines.len(),
                lines == p.lines@,
                segs@ == lines[i as int].segments@,
                forall|b: int| 0 <= b < j ==> (#[trigger] segs@[b]).is_italic,
            decreases segs.len() - j,
        {
            if !segs[j].is_italic {
                assert(!(para_view(*p).lines[i as int].segments@[j as int]).is_italic);
                return false;
            }
            j += 1;
        }
        i += 1;
    }
    true
}

fn body_font_size(map: &Vec<(i64, Option<u8>)>) -> (r: i64)
    ensures
        r == body_font(map@),
{
    let mut i: usize = 0;
    while i < map.len()
        invariant
            i <= map@.len(),
            body_font_from(map@, 0) == body_font_from(map@, i as int),
        decreases map.len() - i,
    {
        if map[i].1.is_none() {
            return map[i].0;
        }
        i += 1;
    }
    0
}

fn is_promoted(p: &PdfParagraph, body: i64, limits: &HeadingLimits, wc: u128) -> (b: bool)
    requires
        wc == capped(word_count(para_view(*p))),
    ensures
        b == promoted(para_view(*p), body as int, *limits),
{
    let it = is_italic_paragraph(p);
    if !(p.is_bold || it) || p.is_list_item || wc > limits.max_bold_heading_words as u128 {
        return false;
    }
    let text = paragraph_plain_text(p);
    let v = chars_of(text.as_str());
    let t = trim_chars(&v);
    if it && !p.is_bold {
        if contains_char(&t, '@') || contains_char(&t, ',') || t.len() == 0 || !('A' <= t[0] && t[0] <= 'Z') {
            return false;
        }
    }
    if wc <= 2 && body > 0 && (p.dominant_font_size as i128) <= (body as i128) + 50 {
        return false;
    }
    if t.len() > 0 && (t[t.len() - 1] == '.' || t[t.len() - 1] == ':') {
        return false;
    }
    let ts = string_of(&t);
    !looks_like_figure_label(ts.as_str())
}

fn classify_one(p: &mut PdfParagraph, map: &Vec<(i64, Option<u8>)>, gap: &GapInfo, body: i64, limits: &HeadingLimits)
    requires
        gap.span <= u64::MAX,
    ensures
        para_view(*final(p)) == classified(para_view(*old(p)), map@, *gap, body as int, *limits),
{
    let wc = count_words(p);
    let lvl = find_heading_level(p.dominant_font_size, map, gap, limits);
    if lvl.is_some() && wc <= limits.max_heading_words as u128 {
        p.heading_level = lvl;
    } else if is_promoted(p, body, limits, wc) {
        p.heading_level = Some(2u8);
    }
    if p.is_code_block {
        p.heading_level = None;
    }
}

/// `classify_paragraphs`: each paragraph classified against the heading map
/// (see `classified`).
pub fn classify_paragraphs(paragraphs: &mut Vec<PdfParagraph>, heading_map: &Vec<(i64, Option<u8>)>, limits: &HeadingLimits)
    ensures
        paras_view(final(paragraphs)@) == paras_view(old(paragraphs)@).map_values(
            |p: ParaView| classified(p, heading_map@, gap_of(heading_map@), body_font(heading_map@), *limits),
        ),
        forall|k: int|
            0 <= k < final(paragraphs)@.len() && (#[trigger] final(paragraphs)@[k]).is_code_block
                ==> final(paragraphs)@[k].heading_level is None,
{
    let gap = precompute_gap_info(heading_map);
    let body = body_font_size(heading_map);
    let ghost pv = paras_view(paragraphs@);
    let ghost f = |p: ParaView| classified(p, heading_map@, gap_of(heading_map@), body_font(heading_map@), *limits);
    let mut i: usize = 0;
    while i < paragraphs.len()
        invariant
            i <= paragraphs@.len() == pv.len(),
            pv == paras_view(old(paragraphs)@),
            gap == gap_of(heading_map@),
            gap.span <= u64::MAX,
            body == body_font(heading_map@),
            f == (|p: ParaView| classified(p, heading_map@, gap_of(heading_map@), body_font(heading_map@), *limits)),
            forall|k: int| 0 <= k < i ==> #[trigger] para_view(paragraphs@[k]) == f(pv[k]),
            forall|k: int| i <= k < pv.len() ==> #[trigger] para_view(paragraphs@[k]) == pv[k],
        decreases paragraphs.len() - i,
    {
        let ghost before = paragraphs@;
        let mut p = paragraphs.remove(i);
        classify_one(&mut p, heading_map, &gap, body, limits);
        paragraphs.insert(i, p);
        assert(paragraphs@ =~= before.update(i as int, p));
        i += 1;
    }
    assert(paras_view(paragraphs@) =~= pv.map_values(f));
    assert forall|k: int| 0 <= k < paragraphs@.len() && (#[trigger] paragraphs@[k]).is_code_block implies paragraphs@[k].heading_level is None by {
        assert(para_view(paragraphs@[k]) == f(pv[k]));
    }
}

/// A paragraph whose text ends a sentence or announces what follows (its
/// trimmed text ends with `.` or `:`) is never made a heading by the bold or
/// italic heuristic: classification gives it its font cluster's level (when
/// that applies), or leaves its level as it was, and no level for a code
/// block.
pub proof fn sentences_are_not_promoted(
    p: ParaView,
    map: Seq<(i64, Option<u8>)>,
    gap: GapInfo,
    body: int,
    limits: HeadingLimits,
)
    requires
        trim(plain_text(p)).len() > 0,
        trim(plain_text(p)).last() == '.' || trim(plain_text(p)).last() == ':',
    ensures
        classified(p, map, gap, body, limits).heading == (if p.code {
            None
        } else if heading_level_for(p.font, map, gap, limits.max_distance_tenths) is Some && word_count(p)
            <= limits.max_heading_words {
            heading_level_for(p.font, map, gap, limits.max_distance_tenths)
        } else {
            p.heading
        }),
        classified(p, map, gap, body, limits).lines == p.lines,
{
}

} // verus!
