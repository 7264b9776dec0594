//! The distinct reducer: at most one document per value of the configured
//! distinct attribute may reach the result list.
//!
//! The reducer reads a table from document id to the id of the document's
//! distinct value. Given a candidate set it keeps, per value, the candidate
//! with the smallest id, and reports as excluded every other document of
//! the table that shares a kept candidate's value.

use vstd::prelude::*;
use roaring::RoaringBitmap;
use crate::docset::docset_new;
use crate::docset::docset_view;
use crate::docset::docset_to_vec;
use crate::docset::docset_contains;
use crate::docset::docset_insert;
use crate::docset::strictly_sorted;
use crate::docset::lemma_sorted_len;

verus! {

/// The distinct table: `(docid, value id)` pairs, at most one per document.
pub struct DistinctIndex {
    /// Sorted by strictly increasing document id.
    pub pairs: Vec<(u32, u64)>,
}

/// Well-formed table: document ids strictly increasing, hence unique.
pub open spec fn pairs_wf(s: Seq<(u32, u64)>) -> bool {
    forall|i: int, j: int| 0 <= i < j < s.len() ==> s[i].0 < s[j].0
}

/// Whether document `d` has a distinct value in the table.
pub open spec fn has_val(s: Seq<(u32, u64)>, d: u32) -> bool {
    exists|i: int| 0 <= i < s.len() && s[i].0 == d
}

/// The distinct value of document `d`, when it has one.
pub open spec fn val_of(s: Seq<(u32, u64)>, d: u32) -> u64 {
    s[choose|i: int| 0 <= i < s.len() && s[i].0 == d].1
}

/// Documents `a` and `b` are different but share a distinct value.
pub open spec fn same_value(s: Seq<(u32, u64)>, a: u32, b: u32) -> bool {
    a != b && has_val(s, a) && has_val(s, b) && val_of(s, a) == val_of(s, b)
}

/// The documents of the table, other than `d`, sharing `d`'s value.
pub open spec fn mates_of(s: Seq<(u32, u64)>, d: u32) -> Set<u32> {
    Set::new(|e: u32| same_value(s, d, e))
}

/// In a well-formed table, the pair at any index gives its document's value.
pub proof fn lemma_val_at(s: Seq<(u32, u64)>, i: int)
    requires
        pairs_wf(s),
        0 <= i < s.len(),
    ensures
        has_val(s, s[i].0),
        val_of(s, s[i].0) == s[i].1,
{
    let d = s[i].0;
    assert(has_val(s, d));
    let j = choose|j: int| 0 <= j < s.len() && s[j].0 == d;
    assert(j == i) by {
        if j < i {
            assert(s[j].0 < s[i].0);
        } else if j > i {
            assert(s[i].0 < s[j].0);
        }
    }
}

impl DistinctIndex {
    pub open spec fn wf(&self) -> bool {
        pairs_wf(self.pairs@)
    }

    pub fn from_pairs(pairs: Vec<(u32, u64)>) -> (r: DistinctIndex)
        requires
            pairs_wf(pairs@),
        ensures
            r.pairs@ == pairs@,
            r.wf(),
    {
        DistinctIndex { pairs }
    }

    /// The distinct value of `d`, if the table has one for it.
    pub fn value_of(&self, d: u32) -> (r: Option<u64>)
        requires
            self.wf(),
        ensures
            r is Some <==> has_val(self.pairs@, d),
            r is Some ==> r->Some_0 == val_of(self.pairs@, d),
    {
        let n = self.pairs.len();
        let mut i: usize = 0;
        while i < n
            invariant
                self.wf(),
                n == self.pairs@.len(),
                0 <= i <= n,
                forall|j: int| 0 <= j < i ==> (#[trigger] self.pairs@[j]).0 != d,
            decreases n - i,
        {
            let (id, v) = self.pairs[i];
            if id == d {
                proof {
                    lemma_val_at(self.pairs@, i as int);
                }
                return Some(v);
            }
            i += 1;
        }
        None
    }

    /// Extend `excluded` with every other document sharing `d`'s distinct
    /// value.
    pub fn distinct_single_docid(&self, d: u32, excluded: &mut RoaringBitmap)
        requires
            self.wf(),
        ensures
            docset_view(*final(excluded)) == docset_view(*old(excluded)).union(
                mates_of(self.pairs@, d),
            ),
    {
        let ghost s = self.pairs@;
        let v_opt = self.value_of(d);
        match v_opt {
            None => {
                proof {
                    assert(docset_view(*excluded) =~= docset_view(*old(excluded)).union(
                        mates_of(s, d),
                    ));
                }
            },
            Some(v) => {
                let n = self.pairs.len();
                let mut i: usize = 0;
                while i < n
                    invariant
                        self.wf(),
                        s == self.pairs@,
                        has_val(s, d),
                        v == val_of(s, d),
                        n == s.len(),
                        0 <= i <= n,
                        docset_view(*excluded) == docset_view(*old(excluded)).union(
                            Set::new(
                                |e: u32|
                                    exists|j: int|
                                        0 <= j < i && #[trigger] s[j] == (e, v) && e != d,
                            ),
                        ),
                    decreases n - i,
                {
                    let (id, w) = self.pairs[i];
                    if w == v && id != d {
                        docset_insert(excluded, id);
                    }
                    proof {
                        lemma_val_at(s, i as int);
                        assert(docset_view(*excluded) =~= docset_view(*old(excluded)).union(
                            Set::new(
                                |e: u32|
                                    exists|j: int|
                                        0 <= j < i + 1 && #[trigger] s[j] == (e, v) && e != d,
                            ),
                        ));
                    }
                    i += 1;
                }
                proof {
                    assert(docset_view(*excluded) =~= docset_view(*old(excluded)).union(
                        mates_of(s, d),
                    )) by {
                        assert forall|e: u32| mates_of(s, d).contains(e) implies Set::new(
                            |e: u32|
                                exists|j: int| 0 <= j < n && #[trigger] s[j] == (e, v) && e != d,
                        ).contains(e) by {
                            let j = choose|j: int| 0 <= j < s.len() && s[j].0 == e;
                            lemma_val_at(s, j);
                            assert(s[j] == (e, v));
                        }
                        assert forall|e: u32|
                            Set::new(
                                |e: u32|
                                    exists|j: int|
                                        0 <= j < n && #[trigger] s[j] == (e, v) && e != d,
                            ).contains(e) implies mates_of(s, d).contains(e) by {
                            let j = choose|j: int| 0 <= j < n && s[j] == (e, v) && e != d;
                            lemma_val_at(s, j);
                        }
                    }
                }
            },
        }
    }

    /// Split `candidates` into the kept representatives (per distinct
    /// value, the candidate with the smallest id) and the excluded
    /// documents (every other document of the table sharing a kept value).
    pub fn apply_distinct_rule(&self, candidates: &RoaringBitmap) -> (r: (
        RoaringBitmap,
        RoaringBitmap,
    ))
        requires
            self.wf(),
        ensures
            ({
                let remaining = docset_view(r.0);
                let excluded = docset_view(r.1);
                let cands = docset_view(*candidates);
                let s = self.pairs@;
                &&& remaining.subset_of(cands)
                &&& cands.subset_of(remaining.union(excluded))
                &&& remaining.disjoint(excluded)
                &&& forall|a: u32, b: u32|
                    remaining.contains(a) && remaining.contains(b) ==> !same_value(s, a, b)
                &&& forall|e: u32|
                    excluded.contains(e) ==> exists|w: u32|
                        remaining.contains(w) && #[trigger] same_value(s, w, e)
                &&& forall|w: u32, e: u32|
                    remaining.contains(w) && #[trigger] same_value(s, w, e) ==> excluded.contains(
                        e,
                    )
                &&& forall|c: u32|
                    cands.contains(c) && !has_val(s, c) ==> remaining.contains(c)
                &&& forall|c: u32|
                    cands.contains(c) && !remaining.contains(c) ==> exists|w: u32|
                        remaining.contains(w) && w < c && #[trigger] same_value(s, w, c)
            }),
    {
        let ghost s = self.pairs@;
        let cand_vec = docset_to_vec(candidates);
        proof {
            lemma_sorted_len(cand_vec@);
        }
        let ghost cands = docset_view(*candidates);
        let n = cand_vec.len();
        let mut remaining = docset_new();
        let mut excluded = docset_new();
        let mut i: usize = 0;
        while i < n
            invariant
                self.wf(),
                s == self.pairs@,
                n == cand_vec@.len(),
                strictly_sorted(cand_vec@),
                cand_vec@.to_set() == cands,
                0 <= i <= n,
                docset_view(remaining).subset_of(cands),
                forall|c: u32| docset_view(remaining).contains(c) ==> cand_vec@.take(i as int).contains(c),
                forall|j: int|
                    0 <= j < i ==> docset_view(remaining).contains(#[trigger] cand_vec@[j])
                        || docset_view(excluded).contains(cand_vec@[j]),
                docset_view(remaining).disjoint(docset_view(excluded)),
                forall|w: u32, e: u32|
                    docset_view(remaining).contains(w) && #[trigger] same_value(s, w, e)
                        ==> docset_view(excluded).contains(e),
                forall|e: u32|
                    docset_view(excluded).contains(e) ==> exists|w: u32|
                        docset_view(remaining).contains(w) && #[trigger] same_value(s, w, e),
                forall|c: u32|
                    cand_vec@.take(i as int).contains(c) && !docset_view(remaining).contains(c)
                        ==> exists|w: u32|
                        docset_view(remaining).contains(w) && w < c && #[trigger] same_value(
                            s,
                            w,
                            c,
                        ),
            decreases n - i,
        {
            let c = cand_vec[i];
            let ghost rem0 = docset_view(remaining);
            let ghost exc0 = docset_view(excluded);
            if !docset_contains(&excluded, c) {
                docset_insert(&mut remaining, c);
                self.distinct_single_docid(c, &mut excluded);
                proof {
                    // a freshly excluded mate cannot already be a kept
                    // representative: its own mates would then include `c`
                    assert forall|e: u32| docset_view(excluded).contains(e) implies !docset_view(
                        remaining,
                    ).contains(e) by {
                        if rem0.contains(e) {
                            if mates_of(s, c).contains(e) {
                                assert(same_value(s, e, c));
                                assert(exc0.contains(c));
                            }
                        }
                    }
                }
            }
            proof {
                assert(cand_vec@.take(i + 1)[i as int] == cand_vec@[i as int]);
                assert(cand_vec@.take(i + 1).contains(cand_vec@[i as int]));
                assert forall|x: u32| cand_vec@.take(i + 1).contains(x) && x != cand_vec@[i as int]
                    implies cand_vec@.take(i as int).contains(x) by {
                    let j = choose|j: int| 0 <= j < i + 1 && #[trigger] cand_vec@.take(i + 1)[j] == x;
                    assert(cand_vec@.take(i as int)[j] == x);
                }
                assert forall|x: u32| cand_vec@.take(i as int).contains(x) implies cand_vec@.take(
                    i + 1,
                ).contains(x) by {
                    let j = choose|j: int| 0 <= j < i && #[trigger] cand_vec@.take(i as int)[j] == x;
                    assert(cand_vec@.take(i + 1)[j] == x);
                }
                assert forall|x: u32|
                    cand_vec@.take(i + 1).contains(x) && !docset_view(remaining).contains(x)
                        implies exists|w: u32|
                        docset_view(remaining).contains(w) && w < x && #[trigger] same_value(
                            s,
                            w,
                            x,
                        ) by {
                    if x == cand_vec@[i as int] {
                        // x was skipped because some earlier kept
                        // representative already excluded it
                        assert(exc0.contains(x));
                        let w = choose|w: u32| rem0.contains(w) && #[trigger] same_value(s, w, x);
                        let jw = choose|j: int| 0 <= j < i && #[trigger] cand_vec@.take(i as int)[j] == w;
                        assert(cand_vec@[jw] == w);
                        assert(cand_vec@[jw] < cand_vec@[i as int]);
                        assert(docset_view(remaining).contains(w) && w < x && same_value(s, w, x));
                    }
                }
            }
            i += 1;
        }
        proof {
            assert(cand_vec@.take(n as int) =~= cand_vec@);
            assert forall|c: u32| cands.contains(c) implies docset_view(remaining).contains(c)
                || docset_view(excluded).contains(c) by {
                let j = choose|j: int| 0 <= j < cand_vec@.len() && #[trigger] cand_vec@[j] == c;
            }
            assert forall|c: u32| cands.contains(c) && !has_val(s, c) implies docset_view(
                remaining,
            ).contains(c) by {
                if docset_view(excluded).contains(c) {
                    let w = choose|w: u32|
                        docset_view(remaining).contains(w) && #[trigger] same_value(s, w, c);
                }
            }
            assert forall|c: u32| cands.contains(c) && !docset_view(remaining).contains(c)
                implies exists|w: u32|
                docset_view(remaining).contains(w) && w < c && #[trigger] same_value(s, w, c) by {
                let j = choose|j: int| 0 <= j < cand_vec@.len() && #[trigger] cand_vec@[j] == c;
                assert(cand_vec@.take(n as int).contains(c));
            }
            assert forall|a: u32, b: u32|
                docset_view(remaining).contains(a) && docset_view(remaining).contains(b)
                    implies !same_value(s, a, b) by {
                if same_value(s, a, b) {
                    assert(docset_view(excluded).contains(b));
                }
            }
        }
        (remaining, excluded)
    }
}

} // verus!
