//! Footnote numbering shared by the renderers.
//!
//! Footnote definitions are numbered 1, 2, ... in document order, one number
//! per distinct key (a definition whose key was already numbered, or that has
//! no key, gets none).  A footnote reference takes the number of the definition
//! with its key; a reference to a key without a definition has no number.
use vstd::prelude::*;
use crate::document::{ElementKind, InternalElement};

verus! {

/// Whether element `e` numbers a new footnote, given the keys numbered so far.
pub open spec fn is_new_definition(e: InternalElement, keys: Seq<Seq<char>>) -> bool {
    &&& e.kind == ElementKind::FootnoteDefinition
    &&& e.anchor is Some
    &&& !keys.contains(e.anchor->0@)
}

/// The keys of the numbered footnote definitions, in document order.
pub open spec fn footnote_keys(elems: Seq<InternalElement>) -> Seq<Seq<char>>
    decreases elems.len(),
{
    if elems.len() == 0 {
        Seq::empty()
    } else {
        let ks = footnote_keys(elems.drop_last());
        if is_new_definition(elems.last(), ks) {
            ks.push(elems.last().anchor->0@)
        } else {
            ks
        }
    }
}

/// The texts of the numbered footnote definitions, in document order.
pub open spec fn footnote_texts(elems: Seq<InternalElement>) -> Seq<Seq<char>>
    decreases elems.len(),
{
    if elems.len() == 0 {
        Seq::empty()
    } else {
        let ts = footnote_texts(elems.drop_last());
        if is_new_definition(elems.last(), footnote_keys(elems.drop_last())) {
            ts.push(elems.last().text@)
        } else {
            ts
        }
    }
}

/// The first position of `k` in `ks`.
pub open spec fn key_position(ks: Seq<Seq<char>>, k: Seq<char>) -> Option<int>
    decreases ks.len(),
{
    if ks.len() == 0 {
        None
    } else {
        match key_position(ks.drop_last(), k) {
            Some(p) => Some(p),
            None => if ks.last() == k {
                Some(ks.len() - 1)
            } else {
                None
            },
        }
    }
}

/// The number shown for the footnote reference at element `i`.
pub open spec fn ref_number(elems: Seq<InternalElement>, i: int) -> Option<nat> {
    if 0 <= i < elems.len() && elems[i].kind == ElementKind::FootnoteRef && elems[i].anchor is Some {
        match key_position(footnote_keys(elems), elems[i].anchor->0@) {
            Some(p) => Some((p + 1) as nat),
            None => None,
        }
    } else {
        None
    }
}

pub proof fn lemma_footnote_lens(elems: Seq<InternalElement>)
    ensures
        footnote_keys(elems).len() == footnote_texts(elems).len(),
        footnote_keys(elems).len() <= elems.len(),
    decreases elems.len(),
{
    if elems.len() > 0 {
        lemma_footnote_lens(elems.drop_last());
    }
}

/// Each footnote number stands for one key: no key is numbered twice, and
/// every reference to a numbered key shows a number between 1 and the
/// number of footnotes.
pub proof fn footnote_numbers_distinct(elems: Seq<InternalElement>, i: int)
    ensures
        footnote_keys(elems).no_duplicates(),
        ref_number(elems, i) matches Some(n) ==> 1 <= n <= footnote_keys(elems).len(),
    decreases elems.len(),
{
    if elems.len() > 0 {
        footnote_numbers_distinct(elems.drop_last(), i);
        let ks = footnote_keys(elems.drop_last());
        if is_new_definition(elems.last(), ks) {
            let k = elems.last().anchor->0@;
            assert forall|a: int, b: int|
                0 <= a < ks.push(k).len() && 0 <= b < ks.push(k).len() && a != b implies ks.push(k)[a]
                != ks.push(k)[b] by {
                if a == ks.len() {
                    assert(ks[b] == ks.push(k)[b]);
                } else if b == ks.len() {
                    assert(ks[a] == ks.push(k)[a]);
                }
            }
        }
    }
    if ref_number(elems, i) is Some {
        lemma_key_position(footnote_keys(elems), elems[i].anchor->0@);
    }
}

pub proof fn lemma_key_position(ks: Seq<Seq<char>>, k: Seq<char>)
    ensures
        key_position(ks, k) matches Some(p) ==> 0 <= p < ks.len() && ks[p] == k,
        key_position(ks, k) is None <==> !ks.contains(k),
    decreases ks.len(),
{
    if ks.len() > 0 {
        lemma_key_position(ks.drop_last(), k);
        if ks.drop_last().contains(k) {
            let j = choose|j: int| 0 <= j < ks.drop_last().len() && ks.drop_last()[j] == k;
            assert(ks[j] == k);
        }
        if ks.contains(k) && !ks.drop_last().contains(k) {
            let j = choose|j: int| 0 <= j < ks.len() && ks[j] == k;
            if j < ks.len() - 1 {
                assert(ks.drop_last()[j] == k);
            }
        }
        if let Some(p) = key_position(ks.drop_last(), k) {
            assert(ks.drop_last()[p] == ks[p]);
        }
        if key_position(ks, k) is Some {
            assert(ks.contains(k)) by {
                let p = key_position(ks, k)->0;
                assert(ks[p] == k);
            }
        }
    }
}

/// The numbered footnote definitions of a document.
pub struct FootnoteCollector {
    pub keys: Vec<String>,
    pub texts: Vec<String>,
}

impl FootnoteCollector {
    /// The collector's contents are those of the document's elements.
    pub open spec fn describes(&self, elems: Seq<InternalElement>) -> bool {
        &&& self.keys@.len() == footnote_keys(elems).len()
        &&& self.texts@.len() == footnote_texts(elems).len()
        &&& forall|k: int| 0 <= k < self.keys@.len() ==> #[trigger] self.keys@[k]@ == footnote_keys(elems)[k]
        &&& forall|k: int| 0 <= k < self.texts@.len() ==> #[trigger] self.texts@[k]@ == footnote_texts(elems)[k]
    }

    fn find_key(&self, key: &String) -> (r: Option<usize>)
        ensures
            match r {
                Some(p) => p < usize::MAX && key_position(self.keys@.map_values(|s: String| s@), key@) == Some(
                    p as int,
                ),
                None => key_position(self.keys@.map_values(|s: String| s@), key@) is None,
            },
    {
        let ghost ks = self.keys@.map_values(|s: String| s@);
        let mut i: usize = 0;
        assert(ks.take(0) =~= Seq::<Seq<char>>::empty());
        while i < self.keys.len()
            invariant
                i <= self.keys@.len(),
                ks == self.keys@.map_values(|s: String| s@),
                key_position(ks.take(i as int), key@) is None,
            decreases self.keys.len() - i,
        {
            assert(ks.take(i + 1).drop_last() =~= ks.take(i as int));
            if self.keys[i] == *key {
                assert(ks.take(i + 1).last() == key@);
                proof {
                    lemma_prefix_position(ks, i + 1, key@);
                }
                return Some(i);
            }
            i += 1;
        }
        assert(ks.take(ks.len() as int) =~= ks);
        None
    }

    /// Numbers the footnote definitions of the given elements.
    pub fn new(elems: &Vec<InternalElement>) -> (c: Self)
        ensures
            c.describes(elems@),
    {
        let mut c = FootnoteCollector { keys: Vec::new(), texts: Vec::new() };
        let mut i: usize = 0;
        assert(elems@.take(0) =~= Seq::<InternalElement>::empty());
        while i < elems.len()
            invariant
                i <= elems@.len(),
                c.describes(elems@.take(i as int)),
            decreases elems.len() - i,
        {
            let ghost pre = elems@.take(i as int);
            assert(elems@.take(i + 1).drop_last() =~= pre);
            assert(elems@.take(i + 1).last() == elems@[i as int]);
            let e = &elems[i];
            if e.kind == ElementKind::FootnoteDefinition {
                match &e.anchor {
                    Some(a) => {
                        proof {
                            assert(c.keys@.map_values(|s: String| s@) =~= footnote_keys(pre));
                            lemma_key_position(footnote_keys(pre), a@);
                        }
                        if c.find_key(a).is_none() {
                            c.keys.push(a.clone());
                            c.texts.push(e.text.clone());
                        }
                    },
                    None => {},
                }
            }
            i += 1;
        }
        assert(elems@.take(elems@.len() as int) =~= elems@);
        c
    }

    /// The number of the footnote reference at element `i`, if it has one.
    pub fn ref_number(&self, elems: &Vec<InternalElement>, i: usize) -> (r: Option<u64>)
        requires
            self.describes(elems@),
        ensures
            match r {
                Some(n) => ref_number(elems@, i as int) == Some(n as nat),
                None => ref_number(elems@, i as int) is None,
            },
    {
        if i >= elems.len() {
            return None;
        }
        let e = &elems[i];
        if e.kind != ElementKind::FootnoteRef {
            return None;
        }
        match &e.anchor {
            Some(a) => {
                proof {
                    assert(self.keys@.map_values(|s: String| s@) =~= footnote_keys(elems@));
                    lemma_key_position(footnote_keys(elems@), a@);
                    lemma_footnote_lens(elems@);
                }
                match self.find_key(a) {
                    Some(p) => Some(p as u64 + 1),
                    None => None,
                }
            },
            None => None,
        }
    }
}

proof fn lemma_prefix_position(ks: Seq<Seq<char>>, n: int, k: Seq<char>)
    requires
        0 < n <= ks.len(),
        key_position(ks.take(n - 1), k) is None,
        ks[n - 1] == k,
    ensures
        key_position(ks, k) == Some(n - 1),
    decreases ks.len() - n,
{
    assert(ks.take(n).drop_last() =~= ks.take(n - 1));
    if n < ks.len() {
        assert(ks.take(n + 1).drop_last() =~= ks.take(n));
        lemma_prefix_extends(ks, n + 1, k, n - 1);
    } else {
        assert(ks.take(n) =~= ks);
    }
}

proof fn lemma_prefix_extends(ks: Seq<Seq<char>>, n: int, k: Seq<char>, p: int)
    requires
        0 < n <= ks.len(),
        key_position(ks.take(n - 1), k) == Some(p),
    ensures
        key_position(ks, k) == Some(p),
    decreases ks.len() - n,
{
    assert(ks.take(n).drop_last() =~= ks.take(n - 1));
    if n < ks.len() {
        lemma_prefix_extends(ks, n + 1, k, p);
    } else {
        assert(ks.take(n) =~= ks);
    }
}

} // verus!
