//! The query value carried alongside buckets.
//!
//! The driver never inspects a query; the Words rule reads it as a graph of
//! terms that is progressively relaxed. The graph is modelled by what those
//! readers observe of it: `levels[k]` holds the ids of the documents that
//! match the graph once `k` relaxation steps (removals of optional terms)
//! have been applied, so `levels[0]` is the strictest graph and the last
//! level the most permissive one.

use vstd::prelude::*;
use roaring::RoaringBitmap;
use crate::docset::docset_seq;
use crate::docset::docset_view;
use crate::docset::docset_clone;

verus! {

pub struct QueryGraph {
    /// `levels[k]`: the ids matching the graph after `k` relaxation steps.
    pub levels: Vec<RoaringBitmap>,
}

/// The mathematical view of a graph: the match set of each relaxation
/// state, strictest first.
pub open spec fn graph_view(g: QueryGraph) -> Seq<Set<u32>> {
    g.levels@.map(|i: int, b: RoaringBitmap| docset_view(b))
}

impl QueryGraph {
    pub fn new(levels: Vec<RoaringBitmap>) -> (r: QueryGraph)
        ensures
            r.levels@ == levels@,
    {
        QueryGraph { levels }
    }

    /// An exact copy; each level bitmap is cloned.
    pub fn duplicate(&self) -> (r: QueryGraph)
        ensures
            r.levels@.len() == self.levels@.len(),
            forall|i: int|
                0 <= i < self.levels@.len() ==> docset_seq(#[trigger] r.levels@[i]) == docset_seq(
                    self.levels@[i],
                ),
            graph_view(r) == graph_view(*self),
    {
        let r = self.suffix_from(0);
        proof {
            assert(graph_view(*self).subrange(0, self.levels@.len() as int) =~= graph_view(*self));
        }
        r
    }

    /// The graph as it stands after `k` relaxation steps: the copy keeps
    /// the levels from `k` on.
    pub fn suffix_from(&self, k: usize) -> (r: QueryGraph)
        requires
            k <= self.levels@.len(),
        ensures
            r.levels@.len() == self.levels@.len() - k,
            forall|i: int|
                0 <= i < r.levels@.len() ==> docset_seq(#[trigger] r.levels@[i]) == docset_seq(
                    self.levels@[k + i],
                ),
            graph_view(r) == graph_view(*self).subrange(k as int, self.levels@.len() as int),
    {
        let ghost n = self.levels@.len() as int;
        let mut levels: Vec<RoaringBitmap> = Vec::new();
        let mut i: usize = k;
        while i < self.levels.len()
            invariant
                k <= i <= n,
                n == self.levels@.len(),
                levels@.len() == i - k,
                forall|j: int|
                    0 <= j < levels@.len() ==> docset_seq(#[trigger] levels@[j]) == docset_seq(
                        self.levels@[k + j],
                    ),
            decreases n - i,
        {
            levels.push(docset_clone(&self.levels[i]));
            i += 1;
        }
        let r = QueryGraph { levels };
        proof {
            assert(graph_view(r) =~= graph_view(*self).subrange(k as int, n));
        }
        r
    }
}

} // verus!
