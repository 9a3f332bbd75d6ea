//! Character-level text utilities shared by the renderers and parsers.
//!
//! Text is handled as sequences of Unicode scalar values (`char`).  Every
//! helper here is stated against a spec function over `Seq<char>`.
use vstd::prelude::*;

verus! {

/// Unicode `White_Space` property, as used by `char::is_whitespace`.
pub open spec fn is_ws(c: char) -> bool {
    ||| c == '\t'
    ||| c == '\n'
    ||| c == '\u{b}'
    ||| c == '\u{c}'
    ||| c == '\r'
    ||| c == ' '
    ||| c == '\u{85}'
    ||| c == '\u{a0}'
    ||| c == '\u{1680}'
    ||| ('\u{2000}' <= c && c <= '\u{200a}')
    ||| c == '\u{2028}'
    ||| c == '\u{2029}'
    ||| c == '\u{202f}'
    ||| c == '\u{205f}'
    ||| c == '\u{3000}'
}

pub fn is_whitespace(c: char) -> (b: bool)
    ensures
        b == is_ws(c),
{
    c == '\t' || c == '\n' || c == '\u{b}' || c == '\u{c}' || c == '\r' || c == ' ' || c == '\u{85}'
        || c == '\u{a0}' || c == '\u{1680}' || ('\u{2000}' <= c && c <= '\u{200a}') || c == '\u{2028}'
        || c == '\u{2029}' || c == '\u{202f}' || c == '\u{205f}' || c == '\u{3000}'
}

pub open spec fn is_digit(c: char) -> bool {
    '0' <= c && c <= '9'
}

pub fn is_ascii_digit(c: char) -> (b: bool)
    ensures
        b == is_digit(c),
{
    '0' <= c && c <= '9'
}

/// ASCII lower-casing of one character (`char::to_ascii_lowercase`).
pub open spec fn lower(c: char) -> char {
    if 'A' <= c && c <= 'Z' {
        ((c as u32) + 32) as char
    } else {
        c
    }
}

pub fn to_ascii_lower(c: char) -> (r: char)
    ensures
        r == lower(c),
{
    if 'A' <= c && c <= 'Z' {
        ((c as u8) + 32) as char
    } else {
        c
    }
}

/// ASCII lower-casing of a whole sequence.
pub open spec fn lower_seq(s: Seq<char>) -> Seq<char> {
    s.map_values(|c: char| lower(c))
}

pub fn lower_chars(s: &Vec<char>) -> (r: Vec<char>)
    ensures
        r@ == lower_seq(s@),
{
    let mut r: Vec<char> = Vec::new();
    let mut i: usize = 0;
    while i < s.len()
        invariant
            i <= s.len(),
            r@ == lower_seq(s@.take(i as int)),
        decreases s.len() - i,
    {
        r.push(to_ascii_lower(s[i]));
        i += 1;
        assert(lower_seq(s@.take(i as int)) =~= lower_seq(s@.take(i - 1)).push(lower(s@[i - 1])));
    }
    assert(s@.take(s.len() as int) =~= s@);
    r
}

/// The characters of a string slice, in order.
pub fn chars_of(s: &str) -> (v: Vec<char>)
    ensures
        v@ == s@,
{
    let mut v: Vec<char> = Vec::new();
    for c in it: s.chars()
        invariant
            v@ == it.seq().take(it.index() as int),
            it.seq() == s@,
    {
        v.push(c);
    }
    v
}

/// `String::push`: appends one character.
#[verifier::external_body]
pub(crate) fn push_char(s: &mut String, c: char)
    ensures
        final(s)@ == old(s)@.push(c),
{
    s.push(c);
}

/// Appends `v[from..to]` to `s`.
pub fn push_range(s: &mut String, v: &Vec<char>, from: usize, to: usize)
    requires
        from <= to <= v.len(),
    ensures
        final(s)@ == old(s)@ + v@.subrange(from as int, to as int),
{
    let mut i = from;
    while i < to
        invariant
            from <= i <= to <= v.len(),
            s@ == old(s)@ + v@.subrange(from as int, i as int),
        decreases to - i,
    {
        push_char(s, v[i]);
        i += 1;
        assert(v@.subrange(from as int, i as int) =~= v@.subrange(from as int, i - 1).push(v@[i - 1]));
    }
}

/// Appends all of `v` to `s`.
pub fn push_all(s: &mut String, v: &Vec<char>)
    ensures
        final(s)@ == old(s)@ + v@,
{
    push_range(s, v, 0, v.len());
    assert(v@.subrange(0, v.len() as int) =~= v@);
}

/// A `String` holding `v[from..to]`.
pub fn string_of_range(v: &Vec<char>, from: usize, to: usize) -> (s: String)
    requires
        from <= to <= v.len(),
    ensures
        s@ == v@.subrange(from as int, to as int),
{
    let mut s = String::new();
    push_range(&mut s, v, from, to);
    assert(Seq::<char>::empty() + v@.subrange(from as int, to as int) =~= v@.subrange(
        from as int,
        to as int,
    ));
    s
}

/// A `String` holding all of `v`.
pub fn string_of(v: &Vec<char>) -> (s: String)
    ensures
        s@ == v@,
{
    let s = string_of_range(v, 0, v.len());
    assert(v@.subrange(0, v.len() as int) =~= v@);
    s
}

/// Appends a string slice.
pub fn push_str(s: &mut String, t: &str)
    ensures
        final(s)@ == old(s)@ + t@,
{
    s.append(t);
}

// ---------------------------------------------------------------------------
// Trimming
// ---------------------------------------------------------------------------
/// Index of the first non-whitespace character at or after `i` (or `s.len()`).
pub open spec fn skip_ws(s: Seq<char>, i: int) -> int
    decreases s.len() - i,
{
    if i >= s.len() || i < 0 {
        if i < 0 { 0 } else { s.len() as int }
    } else if is_ws(s[i]) {
        skip_ws(s, i + 1)
    } else {
        i
    }
}

/// One past the last non-whitespace character before `j` (or `0`).
pub open spec fn back_ws(s: Seq<char>, j: int) -> int
    decreases j,
{
    if j <= 0 {
        0
    } else if j > s.len() {
        back_ws(s, s.len() as int)
    } else if is_ws(s[j - 1]) {
        back_ws(s, j - 1)
    } else {
        j
    }
}

pub open spec fn trim_start_idx(s: Seq<char>) -> int {
    skip_ws(s, 0)
}

pub open spec fn trim_end_idx(s: Seq<char>) -> int {
    let a = skip_ws(s, 0);
    let b = back_ws(s, s.len() as int);
    if b < a {
        a
    } else {
        b
    }
}

/// `str::trim`: the text without leading and trailing whitespace.
pub open spec fn trim(s: Seq<char>) -> Seq<char> {
    s.subrange(trim_start_idx(s), trim_end_idx(s))
}

/// `str::trim_start`.
pub open spec fn trim_start(s: Seq<char>) -> Seq<char> {
    s.skip(trim_start_idx(s))
}

/// `str::trim_end`.
pub open spec fn trim_end(s: Seq<char>) -> Seq<char> {
    s.take(back_ws(s, s.len() as int))
}

pub proof fn lemma_skip_ws_bounds(s: Seq<char>, i: int)
    requires
        0 <= i <= s.len(),
    ensures
        i <= skip_ws(s, i) <= s.len(),
        forall|k: int| i <= k < skip_ws(s, i) ==> is_ws(#[trigger] s[k]),
        skip_ws(s, i) < s.len() ==> !is_ws(s[skip_ws(s, i)]),
    decreases s.len() - i,
{
    if i < s.len() && is_ws(s[i]) {
        lemma_skip_ws_bounds(s, i + 1);
    }
}

pub proof fn lemma_back_ws_bounds(s: Seq<char>, j: int)
    requires
        0 <= j <= s.len(),
    ensures
        0 <= back_ws(s, j) <= j,
        forall|k: int| back_ws(s, j) <= k < j ==> is_ws(#[trigger] s[k]),
        back_ws(s, j) > 0 ==> !is_ws(s[back_ws(s, j) - 1]),
    decreases j,
{
    if j > 0 && is_ws(s[j - 1]) {
        lemma_back_ws_bounds(s, j - 1);
    }
}

pub proof fn lemma_trim_bounds(s: Seq<char>)
    ensures
        0 <= trim_start_idx(s) <= trim_end_idx(s) <= s.len(),
{
    lemma_skip_ws_bounds(s, 0);
    lemma_back_ws_bounds(s, s.len() as int);
}

/// A text with no whitespace at either end is its own trim.
pub proof fn lemma_trim_unchanged(s: Seq<char>)
    requires
        s.len() == 0 || (!is_ws(s[0]) && !is_ws(s[s.len() - 1])),
    ensures
        trim(s) == s,
{
    assert(trim(s) =~= s);
}

/// Trimming twice is trimming once.
pub proof fn lemma_trim_idempotent(s: Seq<char>)
    ensures
        trim(trim(s)) == trim(s),
{
    lemma_trim_bounds(s);
    lemma_skip_ws_bounds(s, 0);
    lemma_back_ws_bounds(s, s.len() as int);
    let t = trim(s);
    if t.len() > 0 {
        assert(t[0] == s[trim_start_idx(s)]);
        assert(t[t.len() - 1] == s[trim_end_idx(s) - 1]);
    }
    lemma_trim_unchanged(t);
}

/// Start index of `trim(v)`.
pub fn trim_start_index(v: &Vec<char>, from: usize) -> (i: usize)
    requires
        from <= v.len(),
    ensures
        i == skip_ws(v@, from as int),
        from <= i <= v.len(),
{
    proof {
        lemma_skip_ws_bounds(v@, from as int);
    }
    let mut i = from;
    while i < v.len() && is_whitespace(v[i])
        invariant
            from <= i <= v.len(),
            skip_ws(v@, i as int) == skip_ws(v@, from as int),
        decreases v.len() - i,
    {
        i += 1;
    }
    i
}

/// End index of `trim_end(v[..to])`.
pub fn trim_end_index(v: &Vec<char>, to: usize) -> (j: usize)
    requires
        to <= v.len(),
    ensures
        j == back_ws(v@, to as int),
        j <= to,
{
    proof {
        lemma_back_ws_bounds(v@, to as int);
    }
    let mut j = to;
    while j > 0 && is_whitespace(v[j - 1])
        invariant
            j <= to <= v.len(),
            back_ws(v@, j as int) == back_ws(v@, to as int),
        decreases j,
    {
        j -= 1;
    }
    j
}

/// Bounds `(a, b)` with `v@.subrange(a, b) == trim(v@)`.
pub fn trim_bounds(v: &Vec<char>) -> (r: (usize, usize))
    ensures
        r.0 == trim_start_idx(v@),
        r.1 == trim_end_idx(v@),
        r.0 <= r.1 <= v.len(),
{
    let a = trim_start_index(v, 0);
    let b = trim_end_index(v, v.len());
    proof {
        lemma_trim_bounds(v@);
    }
    if b < a {
        (a, a)
    } else {
        (a, b)
    }
}

/// `s.trim()` as a new character vector.
pub fn trim_chars(v: &Vec<char>) -> (r: Vec<char>)
    ensures
        r@ == trim(v@),
{
    let (a, b) = trim_bounds(v);
    slice_vec(v, a, b)
}

/// `v[from..to]` as a new vector.
pub fn slice_vec(v: &Vec<char>, from: usize, to: usize) -> (r: Vec<char>)
    requires
        from <= to <= v.len(),
    ensures
        r@ == v@.subrange(from as int, to as int),
{
    let mut r: Vec<char> = Vec::new();
    let mut i = from;
    while i < to
        invariant
            from <= i <= to <= v.len(),
            r@ == v@.subrange(from as int, i as int),
        decreases to - i,
    {
        r.push(v[i]);
        i += 1;
        assert(v@.subrange(from as int, i as int) =~= v@.subrange(from as int, i - 1).push(v@[i - 1]));
    }
    r
}

/// Appends `w` to the vector `v`.
pub fn extend_chars(v: &mut Vec<char>, w: &Vec<char>)
    ensures
        final(v)@ == old(v)@ + w@,
{
    let mut i: usize = 0;
    while i < w.len()
        invariant
            i <= w.len(),
            v@ == old(v)@ + w@.take(i as int),
        decreases w.len() - i,
    {
        v.push(w[i]);
        i += 1;
        assert(w@.take(i as int) =~= w@.take(i - 1).push(w@[i - 1]));
    }
    assert(w@.take(w.len() as int) =~= w@);
}

/// Appends a string slice to a character vector.
pub fn extend_str(v: &mut Vec<char>, t: &str)
    ensures
        final(v)@ == old(v)@ + t@,
{
    let w = chars_of(t);
    extend_chars(v, &w);
}

// ---------------------------------------------------------------------------
// Prefix tests
// ---------------------------------------------------------------------------
/// `s.starts_with(p)`.
pub open spec fn starts_with(s: Seq<char>, p: Seq<char>) -> bool {
    p.len() <= s.len() && s.take(p.len() as int) == p
}

/// `s[from..].starts_with(p)` on a vector.
pub fn starts_with_at(v: &Vec<char>, from: usize, p: &str) -> (b: bool)
    requires
        from <= v.len(),
    ensures
        b == starts_with(v@.skip(from as int), p@),
{
    let pc = chars_of(p);
    if pc.len() > v.len() - from {
        return false;
    }
    let mut i: usize = 0;
    while i < pc.len()
        invariant
            i <= pc.len(),
            pc.len() <= v.len() - from,
            pc@ == p@,
            forall|k: int| 0 <= k < i ==> v@[from + k] == pc@[k],
        decreases pc.len() - i,
    {
        if v[from + i] != pc[i] {
            assert(v@.skip(from as int).take(pc.len() as int)[i as int] != p@[i as int]);
            return false;
        }
        i += 1;
    }
    assert(v@.skip(from as int).take(pc.len() as int) =~= p@);
    true
}

/// Whole-vector `starts_with`.
pub fn starts_with_str(v: &Vec<char>, p: &str) -> (b: bool)
    ensures
        b == starts_with(v@, p@),
{
    assert(v@.skip(0) =~= v@);
    starts_with_at(v, 0, p)
}

/// Whether `c` occurs in `s`.
pub open spec fn has_char(s: Seq<char>, c: char) -> bool {
    exists|k: int| 0 <= k < s.len() && s[k] == c
}

pub fn contains_char(v: &Vec<char>, c: char) -> (b: bool)
    ensures
        b == has_char(v@, c),
{
    let mut i: usize = 0;
    while i < v.len()
        invariant
            i <= v.len(),
            forall|k: int| 0 <= k < i ==> v@[k] != c,
        decreases v.len() - i,
    {
        if v[i] == c {
            return true;
        }
        i += 1;
    }
    false
}

/// Whether `p` occurs in `s` starting at index `k`.
pub open spec fn occurs_at(s: Seq<char>, p: Seq<char>, k: int) -> bool {
    0 <= k && k + p.len() <= s.len() && s.subrange(k, k + p.len()) == p
}

/// `s.find(p)`: the first index at or after `from` where `p` occurs.
pub open spec fn find_from(s: Seq<char>, p: Seq<char>, from: int) -> Option<int> {
    if exists|k: int| from <= k && occurs_at(s, p, k) {
        Some(choose|k: int| from <= k && occurs_at(s, p, k) && forall|j: int| from <= j < k ==> !occurs_at(s, p, j))
    } else {
        None
    }
}

/// Whether `p` occurs somewhere in `s`.
pub open spec fn contains_seq(s: Seq<char>, p: Seq<char>) -> bool {
    exists|k: int| occurs_at(s, p, k)
}

pub fn occurs_at_exec(v: &Vec<char>, p: &Vec<char>, k: usize) -> (b: bool)
    ensures
        b == occurs_at(v@, p@, k as int),
{
    if p.len() > v.len() || k > v.len() - p.len() {
        return false;
    }
    let mut i: usize = 0;
    while i < p.len()
        invariant
            i <= p.len(),
            k + p.len() <= v.len(),
            forall|j: int| 0 <= j < i ==> v@[k + j] == p@[j],
        decreases p.len() - i,
    {
        if v[k + i] != p[i] {
            assert(v@.subrange(k as int, k + p.len())[i as int] != p@[i as int]);
            return false;
        }
        i += 1;
    }
    assert(v@.subrange(k as int, k + p.len()) =~= p@);
    true
}

/// The first occurrence of `p` in `v` at or after `from`.
pub fn find_exec(v: &Vec<char>, p: &Vec<char>, from: usize) -> (r: Option<usize>)
    ensures
        r is None ==> forall|k: int| from <= k ==> !occurs_at(v@, p@, k),
        r is Some ==> {
            &&& from <= r->0
            &&& occurs_at(v@, p@, r->0 as int)
            &&& forall|j: int| from <= j < r->0 ==> !occurs_at(v@, p@, j)
        },
        r is None <==> find_from(v@, p@, from as int) is None,
        r is Some ==> find_from(v@, p@, from as int) == Some(r->0 as int),
{
    if from > v.len() {
        proof {
            assert forall|j: int| from <= j implies !occurs_at(v@, p@, j) by {}
        }
        return None;
    }
    let mut k = from;
    loop
        invariant
            from <= k <= v.len(),
            forall|j: int| from <= j < k ==> !occurs_at(v@, p@, j),
        decreases v.len() - k,
    {
        if occurs_at_exec(v, p, k) {
            proof {
                let w = choose|q: int| from <= q && occurs_at(v@, p@, q) && forall|j: int| from <= j < q ==> !occurs_at(v@, p@, j);
                assert(from <= k && occurs_at(v@, p@, k as int) && forall|j: int| from <= j < k ==> !occurs_at(v@, p@, j));
                if w < k {
                } else if w > k {
                }
            }
            return Some(k);
        }
        if k == v.len() {
            proof {
                assert forall|j: int| from <= j implies !occurs_at(v@, p@, j) by {
                    if j < k {
                    } else if j > k {
                        assert(j + p@.len() > v@.len());
                    }
                }
            }
            return None;
        }
        k += 1;
    }
}

// ---------------------------------------------------------------------------
// Decimal numbers
// ---------------------------------------------------------------------------
pub open spec fn digit_char(d: nat) -> char {
    (d + 48) as char
}

/// The decimal representation of `n` (`n.to_string()`).
pub open spec fn decimal(n: nat) -> Seq<char>
    decreases n,
{
    if n < 10 {
        seq![digit_char(n)]
    } else {
        decimal(n / 10).push(digit_char(n % 10))
    }
}

/// Appends the decimal representation of `n`.
pub fn push_decimal(s: &mut String, n: u64)
    ensures
        final(s)@ == old(s)@ + decimal(n as nat),
    decreases n,
{
    if n < 10 {
        push_char(s, ((n as u8) + 48) as char);
        assert(old(s)@.push(digit_char(n as nat)) =~= old(s)@ + decimal(n as nat));
    } else {
        push_decimal(s, n / 10);
        push_char(s, (((n % 10) as u8) + 48) as char);
        assert(old(s)@ + decimal((n / 10) as nat) + seq![digit_char((n % 10) as nat)] =~= old(s)@
            + decimal(n as nat));
    }
}

// ---------------------------------------------------------------------------
// Lines
// ---------------------------------------------------------------------------
/// Index of the first `'\n'` at or after `i` (or `s.len()`).
pub open spec fn next_nl(s: Seq<char>, i: int) -> int
    decreases s.len() - i,
{
    if i >= s.len() || i < 0 {
        if i < 0 { 0 } else { s.len() as int }
    } else if s[i] == '\n' {
        i
    } else {
        next_nl(s, i + 1)
    }
}

/// A line without its trailing `'\r'`.
pub open spec fn strip_cr(l: Seq<char>) -> Seq<char> {
    if l.len() > 0 && l.last() == '\r' {
        l.drop_last()
    } else {
        l
    }
}

/// The lines of `s` from index `i` on, as `str::lines` yields them.
pub open spec fn lines_from(s: Seq<char>, i: int) -> Seq<Seq<char>>
    decreases s.len() - i,
{
    if i >= s.len() || i < 0 {
        Seq::empty()
    } else {
        let e = next_nl(s, i);
        if e < i {
            Seq::empty()
        } else if e >= s.len() {
            seq![strip_cr(s.subrange(i, e))]
        } else {
            seq![strip_cr(s.subrange(i, e))] + lines_from(s, e + 1)
        }
    }
}

/// `str::lines`.
pub open spec fn lines(s: Seq<char>) -> Seq<Seq<char>> {
    lines_from(s, 0)
}

pub proof fn lemma_next_nl_bounds(s: Seq<char>, i: int)
    requires
        0 <= i <= s.len(),
    ensures
        i <= next_nl(s, i) <= s.len(),
        next_nl(s, i) < s.len() ==> s[next_nl(s, i)] == '\n',
        forall|k: int| i <= k < next_nl(s, i) ==> s[k] != '\n',
    decreases s.len() - i,
{
    if i < s.len() && s[i] != '\n' {
        lemma_next_nl_bounds(s, i + 1);
    }
}

proof fn lemma_next_nl_prefix(p: Seq<char>, s: Seq<char>, i: int)
    requires
        p.len() <= s.len(),
        forall|j: int| 0 <= j < p.len() ==> s[j] == p[j],
        0 <= i <= p.len(),
    ensures
        next_nl(p, i) < p.len() ==> next_nl(s, i) == next_nl(p, i),
        next_nl(p, i) >= p.len() ==> next_nl(s, i) == next_nl(s, p.len() as int),
    decreases p.len() - i,
{
    if i < p.len() && p[i] != '\n' {
        lemma_next_nl_prefix(p, s, i + 1);
    }
}

/// The lines from `j` on, when no line break follows `j`: one line.
proof fn lemma_last_line(s: Seq<char>, j: int)
    requires
        0 <= j < s.len(),
        forall|k: int| j <= k < s.len() ==> s[k] != '\n',
    ensures
        lines_from(s, j) == seq![strip_cr(s.subrange(j, s.len() as int))],
{
    lemma_next_nl_bounds(s, j);
}

proof fn lemma_lines_from_append(p: Seq<char>, y: Seq<char>, i: int)
    requires
        p.len() > 0,
        p[p.len() - 1] != '\n',
        y.len() > 0,
        forall|k: int| 0 <= k < y.len() ==> y[k] != '\n',
        0 <= i < p.len(),
    ensures
        lines_from(p + "\n"@ + y, i) == lines_from(p, i).push(strip_cr(y)),
    decreases p.len() - i,
{
    reveal_strlit("\n");
    let s = p + "\n"@ + y;
    let n = p.len() as int;
    assert(s[n] == '\n');
    assert forall|j: int| 0 <= j < p.len() implies s[j] == p[j] by {}
    lemma_next_nl_bounds(p, i);
    lemma_next_nl_prefix(p, s, i);
    let e = next_nl(p, i);
    if e < n {
        assert(e < n - 1);
        lemma_lines_from_append(p, y, e + 1);
        assert(s.subrange(i, e) =~= p.subrange(i, e));
        assert(lines_from(p, i) == seq![strip_cr(p.subrange(i, e))] + lines_from(p, e + 1));
        assert(lines_from(s, i) == seq![strip_cr(s.subrange(i, e))] + lines_from(s, e + 1));
        assert((seq![strip_cr(p.subrange(i, e))] + lines_from(p, e + 1)).push(strip_cr(y)) =~= seq![
            strip_cr(p.subrange(i, e)),
        ] + lines_from(p, e + 1).push(strip_cr(y)));
    } else {
        assert(next_nl(s, n) == n);
        assert forall|k: int| n + 1 <= k < s.len() implies s[k] != '\n' by {
            assert(s[k] == y[k - n - 1]);
        }
        lemma_last_line(s, n + 1);
        assert(s.subrange(n + 1, s.len() as int) =~= y);
        assert(s.subrange(i, n) =~= p.subrange(i, n));
        assert(lines_from(p, i) == seq![strip_cr(p.subrange(i, n))]);
    }
}

/// Appending a line break and a last line adds that line to the lines.
pub proof fn lemma_lines_append(p: Seq<char>, y: Seq<char>)
    requires
        p.len() > 0,
        p[p.len() - 1] != '\n',
        y.len() > 0,
        forall|k: int| 0 <= k < y.len() ==> y[k] != '\n',
    ensures
        lines(p + "\n"@ + y) == lines(p).push(strip_cr(y)),
{
    lemma_lines_from_append(p, y, 0);
}

/// A text without line breaks is one line.
pub proof fn lemma_lines_single(y: Seq<char>)
    requires
        y.len() > 0,
        forall|k: int| 0 <= k < y.len() ==> y[k] != '\n',
    ensures
        lines(y) == seq![strip_cr(y)],
{
    lemma_last_line(y, 0);
    assert(y.subrange(0, y.len() as int) =~= y);
}

pub fn next_newline(v: &Vec<char>, i: usize) -> (e: usize)
    requires
        i <= v.len(),
    ensures
        e == next_nl(v@, i as int),
        i <= e <= v.len(),
{
    proof {
        lemma_next_nl_bounds(v@, i as int);
    }
    let mut e = i;
    while e < v.len() && v[e] != '\n'
        invariant
            i <= e <= v.len(),
            next_nl(v@, e as int) == next_nl(v@, i as int),
        decreases v.len() - e,
    {
        e += 1;
    }
    e
}

/// The lines of a character vector.
pub fn split_lines(v: &Vec<char>) -> (r: Vec<Vec<char>>)
    ensures
        r@.len() == lines(v@).len(),
        forall|k: int| 0 <= k < r@.len() ==> #[trigger] r@[k]@ == lines(v@)[k],
{
    let mut r: Vec<Vec<char>> = Vec::new();
    let mut i: usize = 0;
    let ghost mut done: Seq<Seq<char>> = Seq::empty();
    while i < v.len()
        invariant
            i <= v.len(),
            lines(v@) == done + lines_from(v@, i as int),
            r@.len() == done.len(),
            forall|k: int| 0 <= k < r@.len() ==> #[trigger] r@[k]@ == done[k],
        decreases v.len() - i,
    {
        let e = next_newline(v, i);
        let mut line = slice_vec(v, i, e);
        if line.len() > 0 && line[line.len() - 1] == '\r' {
            line.pop();
        }
        proof {
            assert(line@ == strip_cr(v@.subrange(i as int, e as int)));
            let rest = if e >= v@.len() { Seq::<Seq<char>>::empty() } else { lines_from(v@, e + 1) };
            assert(lines_from(v@, i as int) =~= seq![line@] + rest);
            assert(done + lines_from(v@, i as int) =~= done.push(line@) + rest);
            done = done.push(line@);
        }
        r.push(line);
        if e == v.len() {
            i = v.len();
        } else {
            i = e + 1;
        }
    }
    proof {
        assert(lines_from(v@, i as int) == Seq::<Seq<char>>::empty());
        assert(done + Seq::<Seq<char>>::empty() =~= done);
    }
    r
}


// ---------------------------------------------------------------------------
// Splitting at a separator
// ---------------------------------------------------------------------------
pub proof fn lemma_find_from(s: Seq<char>, p: Seq<char>, from: int)
    ensures
        find_from(s, p, from) matches Some(k) ==> from <= k && occurs_at(s, p, k) && forall|j: int|
            from <= j < k ==> !occurs_at(s, p, j),
{
    if exists|k: int| from <= k && occurs_at(s, p, k) {
        let w = choose|k: int| from <= k && occurs_at(s, p, k);
        lemma_first_occurrence(s, p, from, w);
    }
}

proof fn lemma_first_occurrence(s: Seq<char>, p: Seq<char>, from: int, w: int)
    requires
        from <= w,
        occurs_at(s, p, w),
    ensures
        exists|k: int| from <= k && occurs_at(s, p, k) && forall|j: int| from <= j < k ==> !occurs_at(s, p, j),
    decreases w - from,
{
    if forall|j: int| from <= j < w ==> !occurs_at(s, p, j) {
    } else {
        let j = choose|j: int| from <= j < w && occurs_at(s, p, j);
        lemma_first_occurrence(s, p, from, j);
    }
}

/// `s.split(sep)` for a non-empty separator: the pieces between occurrences.
#[verifier::opaque]
pub open spec fn split_on(s: Seq<char>, sep: Seq<char>) -> Seq<Seq<char>>
    decreases s.len(),
{
    if sep.len() == 0 {
        seq![s]
    } else {
        match find_from(s, sep, 0) {
            Some(k) => {
                proof {
                    lemma_find_from(s, sep, 0);
                }
                seq![s.take(k)] + split_on(s.skip(k + sep.len()), sep)
            },
            None => seq![s],
        }
    }
}

proof fn lemma_occurs_shift(v: Seq<char>, sep: Seq<char>, i: int)
    requires
        0 <= i <= v.len(),
    ensures
        forall|j: int| 0 <= j ==> #[trigger] occurs_at(v.skip(i), sep, j) == occurs_at(v, sep, j + i),
{
    assert forall|j: int| 0 <= j implies #[trigger] occurs_at(v.skip(i), sep, j) == occurs_at(v, sep, j + i) by {
        if j + sep.len() <= v.skip(i).len() {
            assert(v.skip(i).subrange(j, j + sep.len()) =~= v.subrange(j + i, j + i + sep.len()));
        }
    }
}

pub proof fn lemma_split_step_some(v: Seq<char>, sep: Seq<char>, i: int, k: int)
    requires
        sep.len() > 0,
        0 <= i <= k,
        occurs_at(v, sep, k),
        forall|j: int| i <= j < k ==> !occurs_at(v, sep, j),
    ensures
        split_on(v.skip(i), sep) == seq![v.subrange(i, k)] + split_on(v.skip(k + sep.len()), sep),
{
    reveal(split_on);
    let rest = v.skip(i);
    lemma_occurs_shift(v, sep, i);
    lemma_find_from(rest, sep, 0);
    assert(occurs_at(rest, sep, k - i));
    let f = find_from(rest, sep, 0);
    assert(f is Some);
    let fk = f->0;
    if fk < k - i {
        assert(occurs_at(v, sep, fk + i));
        assert(!occurs_at(v, sep, fk + i));
    }
    if fk > k - i {
        assert(!occurs_at(rest, sep, k - i));
    }
    assert(rest.take(k - i) =~= v.subrange(i, k));
    assert(rest.skip(k - i + sep.len()) =~= v.skip(k + sep.len()));
}

pub proof fn lemma_split_step_none(v: Seq<char>, sep: Seq<char>, i: int)
    requires
        sep.len() > 0,
        0 <= i <= v.len(),
        forall|k: int| i <= k ==> !occurs_at(v, sep, k),
    ensures
        split_on(v.skip(i), sep) == seq![v.subrange(i, v.len() as int)],
{
    reveal(split_on);
    let rest = v.skip(i);
    lemma_occurs_shift(v, sep, i);
    assert(forall|j: int| 0 <= j ==> !occurs_at(rest, sep, j));
    assert(!(exists|j: int| 0 <= j && occurs_at(rest, sep, j)));
    assert(rest =~= v.subrange(i, v.len() as int));
}

/// The pieces of `v` between occurrences of `sep` (non-empty).
#[verifier::rlimit(40)]
pub fn split_exec(v: &Vec<char>, sep: &Vec<char>) -> (r: Vec<Vec<char>>)
    requires
        sep@.len() > 0,
    ensures
        r@.len() == split_on(v@, sep@).len(),
        forall|k: int| 0 <= k < r@.len() ==> #[trigger] r@[k]@ == split_on(v@, sep@)[k],
{
    let mut r: Vec<Vec<char>> = Vec::new();
    let mut i: usize = 0;
    let ghost mut done: Seq<Seq<char>> = Seq::empty();
    assert(v@.skip(0) =~= v@);
    loop
        invariant
            i <= v.len(),
            sep@.len() > 0,
            split_on(v@, sep@) == done + split_on(v@.skip(i as int), sep@),
            r@.len() == done.len(),
            forall|k: int| 0 <= k < r@.len() ==> #[trigger] r@[k]@ == done[k],
        decreases v.len() - i,
    {
        match find_exec(v, sep, i) {
            Some(k) => {
                proof {
                    lemma_split_step_some(v@, sep@, i as int, k as int);
                }
                let piece = slice_vec(v, i, k);
                proof {
                    assert(done + split_on(v@.skip(i as int), sep@) =~= done.push(piece@) + split_on(
                        v@.skip(k + sep@.len()),
                        sep@,
                    ));
                    done = done.push(piece@);
                }
                r.push(piece);
                i = k + sep.len();
            },
            None => {
                proof {
                    lemma_split_step_none(v@, sep@, i as int);
                }
                let piece = slice_vec(v, i, v.len());
                proof {
                    assert(done + split_on(v@.skip(i as int), sep@) =~= done.push(piece@));
                    done = done.push(piece@);
                }
                r.push(piece);
                return r;
            },
        }
    }
}


// ---------------------------------------------------------------------------
// Joining and replacing
// ---------------------------------------------------------------------------
/// The pieces joined by `sep`.
pub open spec fn join_seqs(parts: Seq<Seq<char>>, sep: Seq<char>) -> Seq<char>
    decreases parts.len(),
{
    if parts.len() == 0 {
        Seq::empty()
    } else if parts.len() == 1 {
        parts[0]
    } else {
        join_seqs(parts.drop_last(), sep) + sep + parts.last()
    }
}

/// `s.replace(p, r)` for a non-empty pattern: every occurrence, left to right.
pub open spec fn replace_all(s: Seq<char>, p: Seq<char>, r: Seq<char>) -> Seq<char> {
    join_seqs(split_on(s, p), r)
}

/// Replaces every occurrence of the non-empty `p` by `r`.
pub fn replace_exec(v: &Vec<char>, p: &str, r: &str) -> (out: Vec<char>)
    requires
        p@.len() > 0,
    ensures
        out@ == replace_all(v@, p@, r@),
{
    let pv = chars_of(p);
    let parts = split_exec(v, &pv);
    let mut out: Vec<char> = Vec::new();
    let ghost ps = split_on(v@, p@);
    let mut i: usize = 0;
    assert(ps.take(0) =~= Seq::<Seq<char>>::empty());
    while i < parts.len()
        invariant
            i <= parts@.len() == ps.len(),
            ps == split_on(v@, p@),
            forall|k: int| 0 <= k < parts@.len() ==> #[trigger] parts@[k]@ == ps[k],
            out@ == join_seqs(ps.take(i as int), r@),
        decreases parts.len() - i,
    {
        assert(ps.take(i + 1).drop_last() =~= ps.take(i as int));
        if i > 0 {
            extend_str(&mut out, r);
        }
        extend_chars(&mut out, &parts[i]);
        i += 1;
        assert(out@ =~= join_seqs(ps.take(i as int), r@));
    }
    assert(ps.take(ps.len() as int) =~= ps);
    out
}

// ---------------------------------------------------------------------------
// Words
// ---------------------------------------------------------------------------
/// Index of the first whitespace character at or after `i` (or `s.len()`).
pub open spec fn word_end(s: Seq<char>, i: int) -> int
    decreases s.len() - i,
{
    if i >= s.len() || i < 0 {
        if i < 0 { 0 } else { s.len() as int }
    } else if is_ws(s[i]) {
        i
    } else {
        word_end(s, i + 1)
    }
}

pub proof fn lemma_word_end_bounds(s: Seq<char>, i: int)
    requires
        0 <= i <= s.len(),
    ensures
        i <= word_end(s, i) <= s.len(),
        word_end(s, i) < s.len() ==> is_ws(s[word_end(s, i)]),
        forall|k: int| i <= k < word_end(s, i) ==> !is_ws(s[k]),
    decreases s.len() - i,
{
    if i < s.len() && !is_ws(s[i]) {
        lemma_word_end_bounds(s, i + 1);
    }
}

/// The words of `s[i..]` (`split_whitespace`).
pub open spec fn words_from(s: Seq<char>, i: int) -> Seq<Seq<char>>
    decreases s.len() - i,
{
    if i < 0 || i >= s.len() {
        Seq::empty()
    } else {
        let a = skip_ws(s, i);
        if a >= s.len() || a < i {
            Seq::empty()
        } else {
            let b = word_end(s, a);
            if b <= a || b > s.len() {
                Seq::empty()
            } else {
                seq![s.subrange(a, b)] + words_from(s, b)
            }
        }
    }
}

/// `str::split_whitespace`.
pub open spec fn words(s: Seq<char>) -> Seq<Seq<char>> {
    words_from(s, 0)
}

/// The words of a character vector.
pub fn split_words(v: &Vec<char>) -> (r: Vec<Vec<char>>)
    ensures
        r@.len() == words(v@).len(),
        forall|k: int| 0 <= k < r@.len() ==> #[trigger] r@[k]@ == words(v@)[k],
{
    let mut r: Vec<Vec<char>> = Vec::new();
    let mut i: usize = 0;
    let ghost mut done: Seq<Seq<char>> = Seq::empty();
    while i < v.len()
        invariant
            i <= v.len(),
            words(v@) == done + words_from(v@, i as int),
            r@.len() == done.len(),
            forall|k: int| 0 <= k < r@.len() ==> #[trigger] r@[k]@ == done[k],
        decreases v.len() - i,
    {
        let a = trim_start_index(v, i);
        if a >= v.len() {
            proof {
                assert(words_from(v@, i as int) == Seq::<Seq<char>>::empty());
                assert(done + Seq::<Seq<char>>::empty() =~= done);
            }
            return r;
        }
        let mut b = a;
        proof {
            lemma_word_end_bounds(v@, a as int);
            lemma_skip_ws_bounds(v@, i as int);
        }
        while b < v.len() && !is_whitespace(v[b])
            invariant
                a <= b <= v.len(),
                word_end(v@, b as int) == word_end(v@, a as int),
            decreases v.len() - b,
        {
            b += 1;
        }
        let w = slice_vec(v, a, b);
        proof {
            assert(!is_ws(v@[a as int]));
            assert(b > a);
            assert(words_from(v@, i as int) =~= seq![w@] + words_from(v@, b as int));
            assert(done + words_from(v@, i as int) =~= done.push(w@) + words_from(v@, b as int));
            done = done.push(w@);
        }
        r.push(w);
        i = b;
    }
    proof {
        assert(words_from(v@, i as int) == Seq::<Seq<char>>::empty());
        assert(done + Seq::<Seq<char>>::empty() =~= done);
    }
    r
}

} // verus!
