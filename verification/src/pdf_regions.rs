//! Layout regions of a PDF page: which text segments fall in which region of
//! the layout model, and the order in which the regions are read.
//!
//! Coordinates are in hundredths of a point, with y growing upwards (PDF
//! coordinates); confidences are in thousandths.  Centres are compared
//! doubled, so that no halves are lost.
use vstd::prelude::*;
use crate::pdf::{LayoutHintClass, SegmentData};
use crate::text::{chars_of, trim, trim_chars};

verus! {

/// A region the layout model found on a page.
#[derive(Debug, Clone, Copy)]
pub struct LayoutHint {
    pub class: LayoutHintClass,
    pub confidence_millis: u32,
    pub left: i64,
    pub bottom: i64,
    pub right: i64,
    pub top: i64,
}

/// A layout region with the indices of the segments assigned to it.
#[derive(Debug, Clone)]
pub struct LayoutRegion {
    pub hint: LayoutHint,
    pub segment_indices: Vec<usize>,
}

/// A hint that takes text: confident enough, and neither a table nor a
/// picture (those are handled apart).
pub open spec fn takes_text(h: LayoutHint, min_confidence: u32) -> bool {
    h.confidence_millis >= min_confidence && h.class != LayoutHintClass::Table && h.class
        != LayoutHintClass::Picture
}

/// A confident table hint: its text is extracted with the table.
pub open spec fn confident_table(h: LayoutHint, min_confidence: u32) -> bool {
    h.confidence_millis >= min_confidence && h.class == LayoutHintClass::Table
}

/// The hints among the first `n` that take text, in order.
pub open spec fn text_hints(hs: Seq<LayoutHint>, min_confidence: u32, n: int) -> Seq<LayoutHint>
    decreases n,
{
    if n <= 0 {
        Seq::empty()
    } else {
        text_hints(hs, min_confidence, n - 1) + (if takes_text(hs[n - 1], min_confidence) {
            seq![hs[n - 1]]
        } else {
            Seq::empty()
        })
    }
}

/// Twice the horizontal centre of a segment.
pub open spec fn center2x(s: SegmentData) -> int {
    2 * s.x + s.width
}

/// Twice the vertical centre of a segment.
pub open spec fn center2y(s: SegmentData) -> int {
    2 * s.y + s.height
}

/// Whether a hint's box holds the point whose doubled coordinates are given
/// (edges included).
pub open spec fn covers(h: LayoutHint, cx2: int, cy2: int) -> bool {
    2 * h.left <= cx2 && cx2 <= 2 * h.right && 2 * h.bottom <= cy2 && cy2 <= 2 * h.top
}

pub open spec fn hint_area(h: LayoutHint) -> int {
    (h.right - h.left) * (h.top - h.bottom)
}

/// Among the first `n` hints, the first one of least area that holds the
/// point.
pub open spec fn best_region(ch: Seq<LayoutHint>, cx2: int, cy2: int, n: int) -> Option<int>
    decreases n,
{
    if n <= 0 {
        None
    } else {
        let b = best_region(ch, cx2, cy2, n - 1);
        if covers(ch[n - 1], cx2, cy2) && (match b {
            None => true,
            Some(k) => hint_area(ch[n - 1]) < hint_area(ch[k]),
        }) {
            Some(n - 1)
        } else {
            b
        }
    }
}

/// Whether a confident table hint holds the point.
pub open spec fn in_table(hs: Seq<LayoutHint>, min_confidence: u32, cx2: int, cy2: int) -> bool {
    exists|k: int| 0 <= k < hs.len() && confident_table(#[trigger] hs[k], min_confidence) && covers(hs[k], cx2, cy2)
}

/// Where a segment goes.
pub enum Placement {
    /// Left out: blank, or inside a table.
    Dropped,
    /// Into the text region with this index.
    Region(int),
    /// To the pages's remaining text.
    Unassigned,
}

pub open spec fn placement(s: SegmentData, hs: Seq<LayoutHint>, min_confidence: u32) -> Placement {
    let ch = text_hints(hs, min_confidence, hs.len() as int);
    if trim(s.text@).len() == 0 || in_table(hs, min_confidence, center2x(s), center2y(s)) {
        Placement::Dropped
    } else {
        match best_region(ch, center2x(s), center2y(s), ch.len() as int) {
            Some(k) => Placement::Region(k),
            None => Placement::Unassigned,
        }
    }
}

/// The indices of the first `n` segments placed as `want`, in order.
pub open spec fn placed(segs: Seq<SegmentData>, hs: Seq<LayoutHint>, min_confidence: u32, n: int, want: Placement) -> Seq<usize>
    decreases n,
{
    if n <= 0 {
        Seq::empty()
    } else {
        placed(segs, hs, min_confidence, n - 1, want) + (if placement(segs[n - 1], hs, min_confidence) == want {
            seq![(n - 1) as usize]
        } else {
            Seq::empty()
        })
    }
}

pub open spec fn has_table_hint(hs: Seq<LayoutHint>, min_confidence: u32) -> bool {
    exists|k: int| 0 <= k < hs.len() && confident_table(#[trigger] hs[k], min_confidence)
}

fn covers_exec(h: &LayoutHint, cx2: i128, cy2: i128) -> (b: bool)
    ensures
        b == covers(*h, cx2 as int, cy2 as int),
{
    2 * (h.left as i128) <= cx2 && cx2 <= 2 * (h.right as i128) && 2 * (h.bottom as i128) <= cy2 && cy2 <= 2 * (
    h.top as i128)
}

/// An area as a sign and a magnitude.
pub open spec fn signed(a: (bool, u128)) -> int {
    if a.0 {
        -(a.1 as int)
    } else {
        a.1 as int
    }
}

fn magnitude(a: i64, b: i64) -> (r: (bool, u128))
    ensures
        signed(r) == b - a,
        r.1 <= u64::MAX,
{
    if b >= a {
        (false, (b as i128 - a as i128) as u128)
    } else {
        (true, (a as i128 - b as i128) as u128)
    }
}

fn area_exec(h: &LayoutHint) -> (a: (bool, u128))
    ensures
        signed(a) == hint_area(*h),
{
    let w = magnitude(h.left, h.right);
    let t = magnitude(h.bottom, h.top);
    assert(w.1 * t.1 <= u128::MAX) by (nonlinear_arith)
        requires
            w.1 <= u64::MAX,
            t.1 <= u64::MAX,
    ;
    let m = w.1 * t.1;
    let neg = w.0 != t.0 && m > 0;
    proof {
        let (wi, ti) = (signed(w), signed(t));
        assert(wi * ti == if w.0 != t.0 { -(w.1 * t.1) } else { w.1 * t.1 }) by (nonlinear_arith)
            requires
                wi == (if w.0 { -(w.1 as int) } else { w.1 as int }),
                ti == (if t.0 { -(t.1 as int) } else { t.1 as int }),
        ;
    }
    (neg, m)
}

fn area_less(a: (bool, u128), b: (bool, u128)) -> (r: bool)
    ensures
        r == (signed(a) < signed(b)),
{
    if a.0 && !b.0 {
        a.1 > 0 || b.1 > 0
    } else if !a.0 && b.0 {
        false
    } else if a.0 {
        a.1 > b.1
    } else {
        a.1 < b.1
    }
}

fn text_hints_exec(hints: &Vec<LayoutHint>, min_confidence: u32) -> (r: Vec<LayoutHint>)
    ensures
        r@ == text_hints(hints@, min_confidence, hints@.len() as int),
{
    let mut r: Vec<LayoutHint> = Vec::new();
    let mut i: usize = 0;
    while i < hints.len()
        invariant
            i <= hints@.len(),
            r@ == text_hints(hints@, min_confidence, i as int),
        decreases hints.len() - i,
    {
        let h = hints[i];
        if h.confidence_millis >= min_confidence && h.class != LayoutHintClass::Table && h.class
            != LayoutHintClass::Picture {
            r.push(h);
        }
        assert(r@ =~= text_hints(hints@, min_confidence, i + 1));
        i += 1;
    }
    r
}

fn in_table_exec(hints: &Vec<LayoutHint>, min_confidence: u32, cx2: i128, cy2: i128) -> (b: bool)
    ensures
        b == in_table(hints@, min_confidence, cx2 as int, cy2 as int),
{
    let mut i: usize = 0;
    while i < hints.len()
        invariant
            i <= hints@.len(),
            forall|k: int|
                0 <= k < i ==> !(confident_table(#[trigger] hints@[k], min_confidence) && covers(
                    hints@[k],
                    cx2 as int,
                    cy2 as int,
                )),
        decreases hints.len() - i,
    {
        let h = hints[i];
        if h.confidence_millis >= min_confidence && h.class == LayoutHintClass::Table && covers_exec(&h, cx2, cy2) {
            return true;
        }
        i += 1;
    }
    false
}

fn has_table_hint_exec(hints: &Vec<LayoutHint>, min_confidence: u32) -> (b: bool)
    ensures
        b == has_table_hint(hints@, min_confidence),
{
    let mut i: usize = 0;
    while i < hints.len()
        invariant
            i <= hints@.len(),
            forall|k: int| 0 <= k < i ==> !confident_table(#[trigger] hints@[k], min_confidence),
        decreases hints.len() - i,
    {
        if hints[i].confidence_millis >= min_confidence && hints[i].class == LayoutHintClass::Table {
            return true;
        }
        i += 1;
    }
    false
}

fn best_region_exec(ch: &Vec<LayoutHint>, cx2: i128, cy2: i128) -> (r: Option<usize>)
    ensures
        match best_region(ch@, cx2 as int, cy2 as int, ch@.len() as int) {
            Some(k) => r == Some(k as usize),
            None => r is None,
        },
{
    let mut best: Option<usize> = None;
    let mut best_area: (bool, u128) = (false, 0);
    let mut i: usize = 0;
    while i < ch.len()
        invariant
            i <= ch@.len(),
            match best_region(ch@, cx2 as int, cy2 as int, i as int) {
                Some(k) => best == Some(k as usize) && 0 <= k < i && signed(best_area) == hint_area(ch@[k]),
                None => best is None,
            },
        decreases ch.len() - i,
    {
        let h = ch[i];
        if covers_exec(&h, cx2, cy2) {
            let a = area_exec(&h);
            let better = match best {
                None => true,
                Some(_) => area_less(a, best_area),
            };
            if better {
                best = Some(i);
                best_area = a;
            }
        }
        i += 1;
    }
    best
}

/// Where a segment goes, as an index: `None` when dropped, `Some(None)` when
/// unassigned, `Some(Some(k))` for text region `k`.
fn place_exec(s: &SegmentData, hints: &Vec<LayoutHint>, ch: &Vec<LayoutHint>, min_confidence: u32) -> (r: Option<Option<usize>>)
    requires
        ch@ == text_hints(hints@, min_confidence, hints@.len() as int),
    ensures
        match placement(*s, hints@, min_confidence) {
            Placement::Dropped => r is None,
            Placement::Unassigned => r == Some(None::<usize>),
            Placement::Region(k) => r == Some(Some(k as usize)),
        },
{
    let v = chars_of(s.text.as_str());
    let t = trim_chars(&v);
    if t.len() == 0 {
        return None;
    }
    let cx2: i128 = 2 * (s.x as i128) + s.width as i128;
    let cy2: i128 = 2 * (s.y as i128) + s.height as i128;
    if in_table_exec(hints, min_confidence, cx2, cy2) {
        return None;
    }
    proof {
        lemma_best_region_bounds(ch@, cx2 as int, cy2 as int, ch@.len() as int);
    }
    Some(best_region_exec(ch, cx2, cy2))
}

proof fn lemma_best_region_bounds(ch: Seq<LayoutHint>, cx2: int, cy2: int, n: int)
    requires
        0 <= n,
    ensures
        best_region(ch, cx2, cy2, n) matches Some(k) ==> 0 <= k < n,
    decreases n,
{
    if n > 0 {
        lemma_best_region_bounds(ch, cx2, cy2, n - 1);
    }
}


/// The placement as the executable code records it.
pub open spec fn place_code(p: Placement) -> Option<Option<usize>> {
    match p {
        Placement::Dropped => None,
        Placement::Unassigned => Some(None),
        Placement::Region(k) => Some(Some(k as usize)),
    }
}

proof fn lemma_placement_bounds(s: SegmentData, hs: Seq<LayoutHint>, min_confidence: u32)
    ensures
        placement(s, hs, min_confidence) matches Placement::Region(k) ==> 0 <= k < text_hints(
            hs,
            min_confidence,
            hs.len() as int,
        ).len(),
{
    let ch = text_hints(hs, min_confidence, hs.len() as int);
    lemma_best_region_bounds(ch, center2x(s), center2y(s), ch.len() as int);
}

proof fn lemma_placed(segs: Seq<SegmentData>, hs: Seq<LayoutHint>, min_confidence: u32, n: int, want: Placement)
    requires
        0 <= n <= segs.len() <= usize::MAX,
    ensures
        forall|j: int|
            0 <= j < placed(segs, hs, min_confidence, n, want).len() ==> (#[trigger] placed(
                segs,
                hs,
                min_confidence,
                n,
                want,
            )[j]) < n,
        forall|i: int|
            0 <= i < n ==> (placed(segs, hs, min_confidence, n, want).contains(i as usize) <==> placement(
                #[trigger] segs[i],
                hs,
                min_confidence,
            ) == want),
    decreases n,
{
    if n > 0 {
        lemma_placed(segs, hs, min_confidence, n - 1, want);
        let prev = placed(segs, hs, min_confidence, n - 1, want);
        let cur = placed(segs, hs, min_confidence, n, want);
        assert forall|j: int| 0 <= j < cur.len() implies (#[trigger] cur[j]) < n by {
            if j < prev.len() {
                assert(cur[j] == prev[j]);
            }
        }
        assert forall|i: int| 0 <= i < n implies (cur.contains(i as usize) <==> placement(
            #[trigger] segs[i],
            hs,
            min_confidence,
        ) == want) by {
            if cur.contains(i as usize) {
                let j = choose|j: int| 0 <= j < cur.len() && cur[j] == i as usize;
                if j < prev.len() {
                    assert(cur[j] == prev[j]);
                    assert(prev.contains(i as usize));
                }
            }
            if i < n - 1 && prev.contains(i as usize) {
                let j = choose|j: int| 0 <= j < prev.len() && prev[j] == i as usize;
                assert(cur[j] == prev[j]);
            }
            if i == n - 1 && placement(segs[i], hs, min_confidence) == want {
                assert(cur[cur.len() - 1] == (n - 1) as usize);
            }
            if i == n - 1 && prev.contains(i as usize) {
                let j = choose|j: int| 0 <= j < prev.len() && prev[j] == i as usize;
                assert(prev[j] < n - 1);
            }
        }
    }
}

/// The assignment puts each segment in exactly one place: in the list of the
/// region, or of unassigned segments, that its placement names, and in no
/// other; a dropped segment is in none.
pub proof fn assignment_places_each_segment_once(
    segs: Seq<SegmentData>,
    hs: Seq<LayoutHint>,
    min_confidence: u32,
    i: int,
    want: Placement,
)
    requires
        0 <= i < segs.len() <= usize::MAX,
    ensures
        placed(segs, hs, min_confidence, segs.len() as int, want).contains(i as usize) <==> placement(
            segs[i],
            hs,
            min_confidence,
        ) == want,
{
    lemma_placed(segs, hs, min_confidence, segs.len() as int, want);
}

/// `assign_segments_to_regions`: each segment goes to the text region of
/// least area whose box holds its centre; segments that are blank or lie in a
/// confident table are dropped, the others are unassigned.  With no text
/// region and no table at all, every segment is unassigned.
pub fn assign_segments_to_regions(segments: &Vec<SegmentData>, hints: &Vec<LayoutHint>, min_confidence: u32) -> (r: (
    Vec<LayoutRegion>,
    Vec<usize>,
))
    ensures
        ({
            let ch = text_hints(hints@, min_confidence, hints@.len() as int);
            let n = segments@.len() as int;
            if ch.len() == 0 && !has_table_hint(hints@, min_confidence) {
                r.0@.len() == 0 && r.1@ == Seq::new(n as nat, |i: int| i as usize)
            } else {
                &&& r.0@.len() == ch.len()
                &&& forall|k: int|
                    0 <= k < ch.len() ==> (#[trigger] r.0@[k]).hint == ch[k] && r.0@[k].segment_indices@ == placed(
                        segments@,
                        hints@,
                        min_confidence,
                        n,
                        Placement::Region(k),
                    )
                &&& r.1@ == placed(segments@, hints@, min_confidence, n, Placement::Unassigned)
            }
        }),
{
    let ch = text_hints_exec(hints, min_confidence);
    let n = segments.len();
    if ch.len() == 0 && !has_table_hint_exec(hints, min_confidence) {
        let mut all: Vec<usize> = Vec::new();
        let mut i: usize = 0;
        while i < n
            invariant
                i <= n == segments@.len(),
                all@ =~= Seq::new(i as nat, |j: int| j as usize),
            decreases n - i,
        {
            all.push(i);
            i += 1;
        }
        return (Vec::new(), all);
    }
    let mut places: Vec<Option<Option<usize>>> = Vec::new();
    let mut i: usize = 0;
    while i < n
        invariant
            i <= n == segments@.len(),
            ch@ == text_hints(hints@, min_confidence, hints@.len() as int),
            places@.len() == i,
            forall|j: int| 0 <= j < i ==> #[trigger] places@[j] == place_code(placement(segments@[j], hints@, min_confidence)),
        decreases n - i,
    {
        let p = place_exec(&segments[i], hints, &ch, min_confidence);
        places.push(p);
        i += 1;
    }
    let mut regions: Vec<LayoutRegion> = Vec::new();
    let nch = ch.len();
    let mut k: usize = 0;
    while k < ch.len()
        invariant
            k <= ch@.len(),
            nch == ch@.len(),
            n == segments@.len() == places@.len(),
            ch@ == text_hints(hints@, min_confidence, hints@.len() as int),
            forall|j: int| 0 <= j < n ==> #[trigger] places@[j] == place_code(placement(segments@[j], hints@, min_confidence)),
            regions@.len() == k,
            forall|q: int|
                0 <= q < k ==> (#[trigger] regions@[q]).hint == ch@[q] && regions@[q].segment_indices@ == placed(
                    segments@,
                    hints@,
                    min_confidence,
                    n as int,
                    Placement::Region(q),
                ),
        decreases ch.len() - k,
    {
        let mut idx: Vec<usize> = Vec::new();
        let mut i: usize = 0;
        while i < n
            invariant
                i <= n == segments@.len() == places@.len(),
                k < ch@.len(),
                nch == ch@.len(),
                ch@ == text_hints(hints@, min_confidence, hints@.len() as int),
                forall|j: int| 0 <= j < n ==> #[trigger] places@[j] == place_code(placement(segments@[j], hints@, min_confidence)),
                idx@ == placed(segments@, hints@, min_confidence, i as int, Placement::Region(k as int)),
            decreases n - i,
        {
            proof {
                lemma_placement_bounds(segments@[i as int], hints@, min_confidence);
            }
            let hit = match places[i] {
                Some(Some(q)) => q == k,
                _ => false,
            };
            proof {
                let pl = placement(segments@[i as int], hints@, min_confidence);
                assert(places@[i as int] == place_code(pl));
                match pl {
                    Placement::Region(q) => {
                        assert(hit == (q == k as int));
                    },
                    _ => {
                        assert(!hit);
                        assert(pl != Placement::Region(k as int));
                    },
                }
                assert(hit == (pl == Placement::Region(k as int)));
            }
            if hit {
                idx.push(i);
            }
            assert(idx@ =~= placed(segments@, hints@, min_confidence, i + 1, Placement::Region(k as int)));
            i += 1;
        }
        let ghost r0 = regions@;
        regions.push(LayoutRegion { hint: ch[k], segment_indices: idx });
        assert forall|q: int| 0 <= q < k + 1 implies (#[trigger] regions@[q]).hint == ch@[q] && regions@[q].segment_indices@
            == placed(segments@, hints@, min_confidence, n as int, Placement::Region(q)) by {
            if q < k {
                assert(regions@[q] == r0[q]);
            }
        }
        k += 1;
    }
    let mut unassigned: Vec<usize> = Vec::new();
    let mut i: usize = 0;
    while i < n
        invariant
            i <= n == segments@.len() == places@.len(),
            forall|j: int| 0 <= j < n ==> #[trigger] places@[j] == place_code(placement(segments@[j], hints@, min_confidence)),
            unassigned@ == placed(segments@, hints@, min_confidence, i as int, Placement::Unassigned),
        decreases n - i,
    {
        let hit = match places[i] {
            Some(None) => true,
            _ => false,
        };
        if hit {
            unassigned.push(i);
        }
        assert(unassigned@ =~= placed(segments@, hints@, min_confidence, i + 1, Placement::Unassigned));
        i += 1;
    }
    (regions, unassigned)
}


// ---------------------------------------------------------------------------
// Columns
// ---------------------------------------------------------------------------
/// The narrowest gap between two columns of regions, in hundredths (5 points).
pub const MIN_REGION_COLUMN_GAP: i64 = 500;

/// A region of the page's content (not its running header or footer).
pub open spec fn is_content(r: LayoutRegion) -> bool {
    r.hint.class != LayoutHintClass::PageHeader && r.hint.class != LayoutHintClass::PageFooter
}

/// The horizontal edges of the first `n` content regions.
pub open spec fn content_edges(rs: Seq<LayoutRegion>, n: int) -> Seq<(i64, i64)>
    decreases n,
{
    if n <= 0 {
        Seq::empty()
    } else {
        content_edges(rs, n - 1) + (if is_content(rs[n - 1]) {
            seq![(rs[n - 1].hint.left, rs[n - 1].hint.right)]
        } else {
            Seq::empty()
        })
    }
}

/// `x` inserted into `s` after every edge that does not start right of it.
pub open spec fn insert_by_left(s: Seq<(i64, i64)>, x: (i64, i64)) -> Seq<(i64, i64)>
    decreases s.len(),
{
    if s.len() == 0 || s.last().0 <= x.0 {
        s.push(x)
    } else {
        insert_by_left(s.drop_last(), x).push(s.last())
    }
}

/// The edges stably sorted by their left end.
pub open spec fn sorted_by_left(s: Seq<(i64, i64)>) -> Seq<(i64, i64)>
    decreases s.len(),
{
    if s.len() == 0 {
        Seq::empty()
    } else {
        insert_by_left(sorted_by_left(s.drop_last()), s.last())
    }
}

/// Scanning the first `n` edges left to right: the rightmost end so far, the
/// widest gap between an edge and everything left of it, and twice the middle
/// of that gap.
pub open spec fn gap_scan(es: Seq<(i64, i64)>, n: int) -> (Option<int>, int, Option<int>)
    decreases n,
{
    if n <= 0 {
        (None, 0, None)
    } else {
        let (mr, bg, bs) = gap_scan(es, n - 1);
        let (l, r) = es[n - 1];
        let (bg2, bs2) = match mr {
            Some(m) => if l - m > bg {
                (l - m, Some(m + l))
            } else {
                (bg, bs)
            },
            None => (bg, bs),
        };
        (
            Some(
                match mr {
                    Some(m) => if r > m {
                        r as int
                    } else {
                        m
                    },
                    None => r as int,
                },
            ),
            bg2,
            bs2,
        )
    }
}

/// Twice the horizontal centre of a region.
pub open spec fn mid2(r: LayoutRegion) -> int {
    r.hint.left + r.hint.right
}

/// The number of the first `n` regions left (`left`) or right of the split.
pub open spec fn side_count(rs: Seq<LayoutRegion>, n: int, split2: int, left: bool) -> nat
    decreases n,
{
    if n <= 0 {
        0
    } else {
        side_count(rs, n - 1, split2, left) + (if (mid2(rs[n - 1]) < split2) == left {
            1nat
        } else {
            0nat
        })
    }
}

/// The lowest bottom and the highest top among the first `n` regions on the
/// chosen side of the split (all regions when `side` is `None`).
pub open spec fn extent(rs: Seq<LayoutRegion>, n: int, split2: int, side: Option<bool>) -> Option<(int, int)>
    decreases n,
{
    if n <= 0 {
        None
    } else {
        let e = extent(rs, n - 1, split2, side);
        let r = rs[n - 1];
        let on_side = match side {
            None => true,
            Some(left) => (mid2(r) < split2) == left,
        };
        if !on_side {
            e
        } else {
            match e {
                None => Some((r.hint.bottom as int, r.hint.top as int)),
                Some((lo, hi)) => Some(
                    (if (r.hint.bottom as int) < lo {
                        r.hint.bottom as int
                    } else {
                        lo
                    }, if (r.hint.top as int) > hi {
                        r.hint.top as int
                    } else {
                        hi
                    }),
                ),
            }
        }
    }
}

pub open spec fn span_of(e: Option<(int, int)>) -> int {
    match e {
        Some((lo, hi)) => hi - lo,
        None => 0,
    }
}

/// `detect_region_column_split`: twice the x where the page's regions split
/// into two columns, if they do.  That needs four content regions; sorted by
/// left end, the widest gap between a region and everything left of it must
/// be at least 5 points; each side must hold two regions; and each side must
/// span at least 3/10 of the regions' height (at least 1 point).
pub open spec fn column_split(rs: Seq<LayoutRegion>) -> Option<int> {
    let es = content_edges(rs, rs.len() as int);
    if rs.len() < 4 || es.len() < 4 {
        None
    } else {
        let (_, bg, bs) = gap_scan(sorted_by_left(es), es.len() as int);
        if bg < MIN_REGION_COLUMN_GAP {
            None
        } else {
            match bs {
                None => None,
                Some(s2) => {
                    let n = rs.len() as int;
                    let span = span_of(extent(rs, n, s2, None));
                    let ls = span_of(extent(rs, n, s2, Some(true)));
                    let rsp = span_of(extent(rs, n, s2, Some(false)));
                    if side_count(rs, n, s2, true) < 2 || side_count(rs, n, s2, false) < 2 {
                        None
                    } else if span < 100 {
                        None
                    } else if ls * 10 < span * 3 || rsp * 10 < span * 3 {
                        None
                    } else {
                        Some(s2)
                    }
                },
            }
        }
    }
}

proof fn lemma_insert_left_at(s: Seq<(i64, i64)>, x: (i64, i64), p: int)
    requires
        0 <= p <= s.len(),
        p == 0 || s[p - 1].0 <= x.0,
        forall|k: int| p <= k < s.len() ==> #[trigger] s[k].0 > x.0,
    ensures
        insert_by_left(s, x) == s.take(p) + seq![x] + s.skip(p),
    decreases s.len(),
{
    if s.len() == 0 {
        assert(s.take(p) + seq![x] + s.skip(p) =~= seq![x]);
    } else if s.last().0 <= x.0 {
        assert(p == s.len());
        assert(s.take(p) + seq![x] + s.skip(p) =~= s.push(x));
    } else {
        let d = s.drop_last();
        lemma_insert_left_at(d, x, p);
        assert(d.take(p) + seq![x] + d.skip(p) + seq![s.last()] =~= s.take(p) + seq![x] + s.skip(p));
    }
}

fn sort_edges(es: &Vec<(i64, i64)>) -> (r: Vec<(i64, i64)>)
    ensures
        r@ == sorted_by_left(es@),
{
    let mut r: Vec<(i64, i64)> = Vec::new();
    let mut i: usize = 0;
    while i < es.len()
        invariant
            i <= es@.len(),
            r@ == sorted_by_left(es@.take(i as int)),
        decreases es.len() - i,
    {
        let x = es[i];
        let mut p = r.len();
        while p > 0 && r[p - 1].0 > x.0
            invariant
                p <= r@.len(),
                forall|k: int| p <= k < r@.len() ==> #[trigger] r@[k].0 > x.0,
            decreases p,
        {
            p -= 1;
        }
        proof {
            lemma_insert_left_at(r@, x, p as int);
            assert(es@.take(i + 1).drop_last() =~= es@.take(i as int));
        }
        r.insert(p, x);
        assert(r@ =~= sorted_by_left(es@.take(i + 1)));
        i += 1;
    }
    assert(es@.take(es@.len() as int) =~= es@);
    r
}

proof fn lemma_scan_bounds(es: Seq<(i64, i64)>, n: int)
    requires
        0 <= n <= es.len(),
    ensures
        gap_scan(es, n).0 matches Some(m) ==> i64::MIN <= m <= i64::MAX,
        0 <= gap_scan(es, n).1 <= 0x1_0000_0000_0000_0000,
        gap_scan(es, n).2 matches Some(s2) ==> 2 * i64::MIN <= s2 <= 2 * i64::MAX,
        n > 0 ==> gap_scan(es, n).0 is Some,
    decreases n,
{
    if n > 0 {
        lemma_scan_bounds(es, n - 1);
    }
}

fn scan_gaps(es: &Vec<(i64, i64)>) -> (r: (i128, Option<i128>))
    ensures
        r.0 == gap_scan(es@, es@.len() as int).1,
        match gap_scan(es@, es@.len() as int).2 {
            Some(s2) => r.1 == Some(s2 as i128),
            None => r.1 is None,
        },
{
    let mut max_right: Option<i64> = None;
    let mut best_gap: i128 = 0;
    let mut best_split: Option<i128> = None;
    let mut i: usize = 0;
    while i < es.len()
        invariant
            i <= es@.len(),
            ({
                let (mr, bg, bs) = gap_scan(es@, i as int);
                &&& match mr {
                    Some(m) => max_right == Some(m as i64),
                    None => max_right is None,
                }
                &&& best_gap == bg
                &&& match bs {
                    Some(s2) => best_split == Some(s2 as i128),
                    None => best_split is None,
                }
            }),
        decreases es.len() - i,
    {
        proof {
            lemma_scan_bounds(es@, i as int);
        }
        let (l, r) = es[i];
        match max_right {
            Some(m) => {
                let gap = l as i128 - m as i128;
                if gap > best_gap {
                    best_gap = gap;
                    best_split = Some(m as i128 + l as i128);
                }
                if r > m {
                    max_right = Some(r);
                }
            },
            None => {
                max_right = Some(r);
            },
        }
        i += 1;
    }
    (best_gap, best_split)
}

fn side_count_exec(rs: &Vec<LayoutRegion>, split2: i128, left: bool) -> (c: usize)
    ensures
        c == side_count(rs@, rs@.len() as int, split2 as int, left),
{
    let mut c: usize = 0;
    let mut i: usize = 0;
    while i < rs.len()
        invariant
            i <= rs@.len(),
            c <= i,
            c == side_count(rs@, i as int, split2 as int, left),
        decreases rs.len() - i,
    {
        let m = rs[i].hint.left as i128 + rs[i].hint.right as i128;
        if (m < split2) == left {
            c += 1;
        }
        i += 1;
    }
    c
}

fn extent_exec(rs: &Vec<LayoutRegion>, split2: i128, side: Option<bool>) -> (r: Option<(i64, i64)>)
    ensures
        match extent(rs@, rs@.len() as int, split2 as int, side) {
            Some((lo, hi)) => r == Some((lo as i64, hi as i64)) && i64::MIN <= lo <= i64::MAX && i64::MIN <= hi
                <= i64::MAX,
            None => r is None,
        },
{
    let mut r: Option<(i64, i64)> = None;
    let mut i: usize = 0;
    while i < rs.len()
        invariant
            i <= rs@.len(),
            match extent(rs@, i as int, split2 as int, side) {
                Some((lo, hi)) => r == Some((lo as i64, hi as i64)) && i64::MIN <= lo <= i64::MAX && i64::MIN <= hi
                    <= i64::MAX,
                None => r is None,
            },
        decreases rs.len() - i,
    {
        let h = rs[i].hint;
        let m = h.left as i128 + h.right as i128;
        let on_side = match side {
            None => true,
            Some(left) => (m < split2) == left,
        };
        if on_side {
            r = match r {
                None => Some((h.bottom, h.top)),
                Some((lo, hi)) => Some((if h.bottom < lo { h.bottom } else { lo }, if h.top > hi { h.top } else { hi })),
            };
        }
        i += 1;
    }
    r
}

fn span_exec(e: Option<(i64, i64)>) -> (s: i128)
    ensures
        s == span_of(
            match e {
                Some((lo, hi)) => Some((lo as int, hi as int)),
                None => None,
            },
        ),
{
    match e {
        Some((lo, hi)) => hi as i128 - lo as i128,
        None => 0,
    }
}

/// The edges are in order of their left ends.
pub open spec fn sorted_left(s: Seq<(i64, i64)>) -> bool {
    forall|i: int, j: int| 0 <= i < j < s.len() ==> (#[trigger] s[i]).0 <= (#[trigger] s[j]).0
}

proof fn lemma_insert_by_left(s: Seq<(i64, i64)>, x: (i64, i64))
    requires
        sorted_left(s),
    ensures
        sorted_left(insert_by_left(s, x)),
        forall|e: (i64, i64)| #[trigger] insert_by_left(s, x).contains(e) <==> (s.contains(e) || e == x),
    decreases s.len(),
{
    let r = insert_by_left(s, x);
    if s.len() == 0 || s.last().0 <= x.0 {
        assert forall|e: (i64, i64)| #[trigger] r.contains(e) <==> (s.contains(e) || e == x) by {
            if s.contains(e) {
                let k = choose|k: int| 0 <= k < s.len() && s[k] == e;
                assert(r[k] == e);
            }
            if e == x {
                assert(r[s.len() as int] == x);
            }
        }
    } else {
        let d = s.drop_last();
        assert(sorted_left(d));
        lemma_insert_by_left(d, x);
        let inner = insert_by_left(d, x);
        assert(r == inner.push(s.last()));
        assert forall|k: int| 0 <= k < inner.len() implies #[trigger] inner[k].0 <= s.last().0 by {
            assert(inner.contains(inner[k]));
            if d.contains(inner[k]) {
                let m = choose|m: int| 0 <= m < d.len() && d[m] == inner[k];
                assert(s[m] == inner[k]);
            }
        }
        assert forall|e: (i64, i64)| #[trigger] r.contains(e) <==> (s.contains(e) || e == x) by {
            if r.contains(e) {
                let k = choose|k: int| 0 <= k < r.len() && r[k] == e;
                if k < inner.len() {
                    assert(inner.contains(e));
                    if d.contains(e) {
                        let m = choose|m: int| 0 <= m < d.len() && d[m] == e;
                        assert(s[m] == e);
                    }
                } else {
                    assert(e == s.last());
                    assert(s[s.len() - 1] == e);
                }
            }
            if s.contains(e) {
                let k = choose|k: int| 0 <= k < s.len() && s[k] == e;
                if k < s.len() - 1 {
                    assert(d[k] == e);
                    assert(inner.contains(e));
                    let m = choose|m: int| 0 <= m < inner.len() && inner[m] == e;
                    assert(r[m] == e);
                } else {
                    assert(r[r.len() - 1] == e);
                }
            }
            if e == x {
                assert(inner.contains(e));
                let m = choose|m: int| 0 <= m < inner.len() && inner[m] == e;
                assert(r[m] == e);
            }
        }
    }
}

proof fn lemma_sorted_by_left(s: Seq<(i64, i64)>)
    ensures
        sorted_left(sorted_by_left(s)),
        forall|e: (i64, i64)| #[trigger] sorted_by_left(s).contains(e) <==> s.contains(e),
    decreases s.len(),
{
    if s.len() > 0 {
        let d = s.drop_last();
        lemma_sorted_by_left(d);
        lemma_insert_by_left(sorted_by_left(d), s.last());
        assert forall|e: (i64, i64)| #[trigger] sorted_by_left(s).contains(e) <==> s.contains(e) by {
            if d.contains(e) {
                let k = choose|k: int| 0 <= k < d.len() && d[k] == e;
                assert(s[k] == e);
            }
            if s.contains(e) {
                let k = choose|k: int| 0 <= k < s.len() && s[k] == e;
                if k < s.len() - 1 {
                    assert(d[k] == e);
                }
            }
            if e == s.last() {
                assert(s[s.len() - 1] == e);
            }
        }
    }
}

proof fn lemma_content_edge_in(rs: Seq<LayoutRegion>, n: int, i: int)
    requires
        0 <= i < n <= rs.len(),
        is_content(rs[i]),
    ensures
        content_edges(rs, n).contains((rs[i].hint.left, rs[i].hint.right)),
    decreases n,
{
    let e = (rs[i].hint.left, rs[i].hint.right);
    let c = content_edges(rs, n);
    if i < n - 1 {
        lemma_content_edge_in(rs, n - 1, i);
        let p = content_edges(rs, n - 1);
        let k = choose|k: int| 0 <= k < p.len() && #[trigger] p[k] == e;
        assert(c[k] == e);
    } else {
        assert(c[c.len() - 1] == e);
    }
}

/// The widest gap recorded by `gap_scan` opens before edge `j`: `s2` is the
/// rightmost end before `j` plus the left end of `j`, and `g` their distance.
pub open spec fn gap_before(es: Seq<(i64, i64)>, j: int, s2: int, g: int) -> bool {
    gap_scan(es, j).0 matches Some(m) && s2 == m + es[j].0 && g == es[j].0 - m
}

/// The edge before which `gap_scan` over the first `n` edges records its
/// widest gap (0 when none is recorded).
pub open spec fn gap_index(es: Seq<(i64, i64)>, n: int) -> int
    decreases n,
{
    if n <= 0 {
        0
    } else {
        let prev = gap_scan(es, n - 1);
        match prev.0 {
            Some(m) => if es[n - 1].0 - m > prev.1 {
                n - 1
            } else {
                gap_index(es, n - 1)
            },
            None => gap_index(es, n - 1),
        }
    }
}

proof fn lemma_gap_scan(es: Seq<(i64, i64)>, n: int)
    requires
        0 <= n <= es.len(),
    ensures
        n > 0 ==> gap_scan(es, n).0 is Some,
        forall|k: int| 0 <= k < n ==> (#[trigger] es[k]).1 <= gap_scan(es, n).0->0,
        gap_scan(es, n).2 matches Some(s2) ==> 0 < gap_index(es, n) < n && gap_before(
            es,
            gap_index(es, n),
            s2,
            gap_scan(es, n).1,
        ),
    decreases n,
{
    if n > 0 {
        lemma_gap_scan(es, n - 1);
        assert(gap_scan(es, 0) == (None::<int>, 0int, None::<int>));
    }
}

/// A column split, when one is found, runs through a gap that no content
/// region reaches into: every content region lies wholly left of the split,
/// or wholly right of it, at least half the narrowest column gap away.
pub proof fn column_split_crosses_no_region(rs: Seq<LayoutRegion>)
    ensures
        column_split(rs) matches Some(s2) ==> forall|i: int|
            0 <= i < rs.len() && is_content(#[trigger] rs[i]) ==> 2 * rs[i].hint.right <= s2 - MIN_REGION_COLUMN_GAP
                || 2 * rs[i].hint.left >= s2 + MIN_REGION_COLUMN_GAP,
{
    match column_split(rs) {
        Some(s2) => {
            let n = rs.len() as int;
            let es = content_edges(rs, n);
            let ss = sorted_by_left(es);
            lemma_sorted_len(es);
            lemma_sorted_by_left(es);
            lemma_gap_scan(ss, ss.len() as int);
            let (mr, bg, bs) = gap_scan(ss, ss.len() as int);
            assert(bs == Some(s2) && bg >= MIN_REGION_COLUMN_GAP);
            let j = gap_index(ss, ss.len() as int);
            lemma_gap_scan(ss, j);
            let m = gap_scan(ss, j).0->0;
            let l = ss[j].0;
            assert forall|i: int| 0 <= i < rs.len() && is_content(#[trigger] rs[i]) implies 2 * rs[i].hint.right
                <= s2 - MIN_REGION_COLUMN_GAP || 2 * rs[i].hint.left >= s2 + MIN_REGION_COLUMN_GAP by {
                let e = (rs[i].hint.left, rs[i].hint.right);
                lemma_content_edge_in(rs, n, i);
                assert(ss.contains(e));
                let k = choose|k: int| 0 <= k < ss.len() && #[trigger] ss[k] == e;
                if k < j {
                    assert(ss[k].1 <= m);
                } else if k > j {
                    assert(ss[j].0 <= ss[k].0);
                }
            }
        },
        None => {},
    }
}

/// A column split, when one is found, has at least two regions on each
/// side, the regions span at least one point vertically, and each side covers
/// at least three tenths of that span.
pub proof fn column_split_has_two_columns(rs: Seq<LayoutRegion>)
    ensures
        column_split(rs) matches Some(s) ==> {
            let n = rs.len() as int;
            let span = span_of(extent(rs, n, s, None));
            &&& side_count(rs, n, s, true) >= 2
            &&& side_count(rs, n, s, false) >= 2
            &&& span >= 100
            &&& span_of(extent(rs, n, s, Some(true))) * 10 >= span * 3
            &&& span_of(extent(rs, n, s, Some(false))) * 10 >= span * 3
        },
{
}

/// `detect_region_column_split` (see `column_split`).
pub fn detect_region_column_split(regions: &Vec<LayoutRegion>) -> (r: Option<i128>)
    ensures
        match column_split(regions@) {
            Some(s2) => r matches Some(x) && x as int == s2 && 2 * i64::MIN <= s2 <= 2 * i64::MAX,
            None => r is None,
        },
{
    let n = regions.len();
    let mut edges: Vec<(i64, i64)> = Vec::new();
    let mut i: usize = 0;
    while i < n
        invariant
            i <= n == regions@.len(),
            edges@ == content_edges(regions@, i as int),
        decreases n - i,
    {
        let h = regions[i].hint;
        if h.class != LayoutHintClass::PageHeader && h.class != LayoutHintClass::PageFooter {
            edges.push((h.left, h.right));
        }
        assert(edges@ =~= content_edges(regions@, i + 1));
        i += 1;
    }
    if n < 4 || edges.len() < 4 {
        return None;
    }
    let sorted = sort_edges(&edges);
    proof {
        lemma_sorted_len(edges@);
    }
    let (best_gap, best_split) = scan_gaps(&sorted);
    proof {
        lemma_scan_bounds(sorted@, sorted@.len() as int);
    }
    if best_gap < MIN_REGION_COLUMN_GAP as i128 {
        return None;
    }
    let split2 = match best_split {
        Some(s) => s,
        None => {
            return None;
        },
    };
    if side_count_exec(regions, split2, true) < 2 || side_count_exec(regions, split2, false) < 2 {
        return None;
    }
    let span = span_exec(extent_exec(regions, split2, None));
    if span < 100 {
        return None;
    }
    let ls = span_exec(extent_exec(regions, split2, Some(true)));
    let rsp = span_exec(extent_exec(regions, split2, Some(false)));
    if ls * 10 < span * 3 || rsp * 10 < span * 3 {
        return None;
    }
    Some(split2)
}

proof fn lemma_insert_left_len(s: Seq<(i64, i64)>, x: (i64, i64))
    ensures
        insert_by_left(s, x).len() == s.len() + 1,
    decreases s.len(),
{
    if s.len() > 0 && s.last().0 > x.0 {
        lemma_insert_left_len(s.drop_last(), x);
    }
}

proof fn lemma_sorted_len(s: Seq<(i64, i64)>)
    ensures
        sorted_by_left(s).len() == s.len(),
    decreases s.len(),
{
    if s.len() > 0 {
        lemma_sorted_len(s.drop_last());
        lemma_insert_left_len(sorted_by_left(s.drop_last()), s.last());
    }
}


// ---------------------------------------------------------------------------
// Reading order
// ---------------------------------------------------------------------------
/// Twice the vertical centre of a hint.
pub open spec fn cy2(h: LayoutHint) -> int {
    h.top + h.bottom
}

/// The column of a hint: 0 left of the split, 1 right of it.
pub open spec fn column_of(h: LayoutHint, split2: int) -> int {
    if h.left + h.right < split2 {
        0
    } else {
        1
    }
}

pub open spec fn abs_int(x: int) -> int {
    if x < 0 {
        -x
    } else {
        x
    }
}

/// Whether region `a` is read before region `b`.  With two columns: the left
/// column first, each column top to bottom.  Otherwise top to bottom, and
/// left to right for regions whose vertical centres are closer than the
/// same-row fraction (in thousandths) of the page height.
pub open spec fn reads_before(a: LayoutHint, b: LayoutHint, split: Option<int>, page_height: int, row_millis: int) -> bool {
    match split {
        Some(s2) => column_of(a, s2) < column_of(b, s2) || (column_of(a, s2) == column_of(b, s2) && cy2(a) > cy2(b)),
        None => if abs_int(cy2(a) - cy2(b)) * 1000 < 2 * page_height * row_millis {
            a.left < b.left
        } else {
            cy2(a) > cy2(b)
        },
    }
}

/// `x` inserted into `s`, moving left past the regions it is read before.
pub open spec fn insert_region(s: Seq<LayoutRegion>, x: LayoutRegion, split: Option<int>, page_height: int, row_millis: int) -> Seq<LayoutRegion>
    decreases s.len(),
{
    if s.len() == 0 || !reads_before(x.hint, s.last().hint, split, page_height, row_millis) {
        s.push(x)
    } else {
        insert_region(s.drop_last(), x, split, page_height, row_millis).push(s.last())
    }
}

/// The regions in reading order, as an insertion sort by `reads_before`
/// places them.
pub open spec fn reading_order(s: Seq<LayoutRegion>, split: Option<int>, page_height: int, row_millis: int) -> Seq<LayoutRegion>
    decreases s.len(),
{
    if s.len() == 0 {
        Seq::empty()
    } else {
        insert_region(reading_order(s.drop_last(), split, page_height, row_millis), s.last(), split, page_height, row_millis)
    }
}

proof fn lemma_insert_region_at(s: Seq<LayoutRegion>, x: LayoutRegion, split: Option<int>, ph: int, rm: int, p: int)
    requires
        0 <= p <= s.len(),
        p == 0 || !reads_before(x.hint, s[p - 1].hint, split, ph, rm),
        forall|k: int| p <= k < s.len() ==> reads_before(x.hint, #[trigger] s[k].hint, split, ph, rm),
    ensures
        insert_region(s, x, split, ph, rm) == s.take(p) + seq![x] + s.skip(p),
    decreases s.len(),
{
    if s.len() == 0 {
        assert(s.take(p) + seq![x] + s.skip(p) =~= seq![x]);
    } else if !reads_before(x.hint, s.last().hint, split, ph, rm) {
        assert(p == s.len());
        assert(s.take(p) + seq![x] + s.skip(p) =~= s.push(x));
    } else {
        let d = s.drop_last();
        lemma_insert_region_at(d, x, split, ph, rm, p);
        assert(d.take(p) + seq![x] + d.skip(p) + seq![s.last()] =~= s.take(p) + seq![x] + s.skip(p));
    }
}

pub open spec fn split_view(split: Option<i128>) -> Option<int> {
    match split {
        Some(s2) => Some(s2 as int),
        None => None,
    }
}

fn reads_before_exec(a: &LayoutHint, b: &LayoutHint, split: Option<i128>, page_height: i64, row_millis: u32) -> (r: bool)
    requires
        split matches Some(s2) ==> 2 * i64::MIN <= s2 <= 2 * i64::MAX,
    ensures
        r == reads_before(*a, *b, split_view(split), page_height as int, row_millis as int),
{
    let ay = a.top as i128 + a.bottom as i128;
    let by = b.top as i128 + b.bottom as i128;
    match split {
        Some(s2) => {
            let ca: u8 = if (a.left as i128 + a.right as i128) < s2 { 0 } else { 1 };
            let cb: u8 = if (b.left as i128 + b.right as i128) < s2 { 0 } else { 1 };
            ca < cb || (ca == cb && ay > by)
        },
        None => {
            let d = if ay >= by { ay - by } else { by - ay };
            assert(2 * page_height * row_millis <= 0x1_0000_0000_0000_0000_0000_0000 && 2 * page_height * row_millis
                >= -0x1_0000_0000_0000_0000_0000_0000) by (nonlinear_arith)
                requires
                    i64::MIN <= page_height <= i64::MAX,
                    0 <= row_millis <= u32::MAX,
            ;
            let tol: i128 = 2 * (page_height as i128) * (row_millis as i128);
            if d * 1000 < tol {
                a.left < b.left
            } else {
                ay > by
            }
        },
    }
}

/// `order_regions_reading_order` (see `reading_order`): the regions sorted in
/// reading order, by columns when `detect_region_column_split` finds two.
/// Regions count as one row when their vertical centres are closer than
/// `same_row_fraction_millis` thousandths of `page_height`.
pub fn order_regions_reading_order(regions: &mut Vec<LayoutRegion>, page_height: i64, same_row_fraction_millis: u32)
    ensures
        final(regions)@ == reading_order(
            old(regions)@,
            column_split(old(regions)@),
            page_height as int,
            same_row_fraction_millis as int,
        ),
{
    let split = detect_region_column_split(regions);
    let ghost sv = column_split(regions@);
    proof {
        if let Some(s2) = sv {
            lemma_split_bounds(regions@);
        }
    }
    assert(split_view(split) == sv);
    let mut rest: Vec<LayoutRegion> = Vec::new();
    std::mem::swap(&mut rest, regions);
    let ghost orig = rest@;
    let ghost ph = page_height as int;
    let ghost rm = same_row_fraction_millis as int;
    let ghost mut i: int = 0;
    assert(orig.skip(0) =~= orig);
    assert(orig.take(0) =~= Seq::<LayoutRegion>::empty());
    while rest.len() > 0
        invariant
            0 <= i <= orig.len(),
            rest@ == orig.skip(i),
            split_view(split) == sv,
            split matches Some(s2) ==> 2 * i64::MIN <= s2 <= 2 * i64::MAX,
            ph == page_height as int,
            rm == same_row_fraction_millis as int,
            regions@ == reading_order(orig.take(i), sv, ph, rm),
        decreases rest.len(),
    {
        let x = rest.remove(0);
        assert(x == orig[i]);
        let mut p = regions.len();
        while p > 0 && reads_before_exec(&x.hint, &regions[p - 1].hint, split, page_height, same_row_fraction_millis)
            invariant
                p <= regions@.len(),
                split_view(split) == sv,
                split matches Some(s2) ==> 2 * i64::MIN <= s2 <= 2 * i64::MAX,
                forall|k: int| p <= k < regions@.len() ==> reads_before(x.hint, #[trigger] regions@[k].hint, sv, ph, rm),
                ph == page_height as int,
                rm == same_row_fraction_millis as int,
            decreases p,
        {
            p -= 1;
        }
        proof {
            lemma_insert_region_at(regions@, x, sv, ph, rm, p as int);
            assert(orig.take(i + 1).drop_last() =~= orig.take(i));
            assert(orig.skip(i).remove(0) =~= orig.skip(i + 1));
        }
        regions.insert(p, x);
        proof {
            i = i + 1;
        }
    }
    assert(orig.take(orig.len() as int) =~= orig);
}

proof fn lemma_split_bounds(rs: Seq<LayoutRegion>)
    ensures
        column_split(rs) matches Some(s2) ==> 2 * i64::MIN <= s2 <= 2 * i64::MAX,
{
    let es = content_edges(rs, rs.len() as int);
    if rs.len() >= 4 && es.len() >= 4 {
        lemma_sorted_len(es);
        lemma_scan_bounds(sorted_by_left(es), es.len() as int);
    }
}

} // verus!
