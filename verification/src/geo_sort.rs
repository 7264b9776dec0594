//! The geo-sort ranking rule: order candidates by distance to a reference
//! point, one singleton bucket per document.
//!
//! The geometric work — reading each document's latitude and longitude,
//! walking an R-tree of points, computing distances — happens outside the
//! rule, which receives its result as data: `docs`, the geo-faceted
//! documents sorted by ascending distance rank key (ties by ascending id).
//! The rule's own logic, verified here, is the bounded cache of presorted
//! ids it streams buckets from: how it is filled under each strategy, how
//! stale entries are skipped, and when it is refilled.

use vstd::prelude::*;
use roaring::RoaringBitmap;
use crate::docset::docset_view;
use crate::docset::docset_len;
use crate::docset::docset_new;
use crate::docset::docset_clone;
use crate::docset::docset_insert;
use crate::docset::docset_contains;
use crate::docset::docset_is_empty;
use crate::docset::docset_and_assign;
use crate::query::QueryGraph;
use crate::query::graph_view;
use crate::ranking_rules::RankingRuleOutput;
use crate::ranking_rules::TotalBucketCount;

verus! {

/// The strategy used by the geo sort. The parameter is the cache size,
/// and, for `Dynamic`, also the candidate count at which the rule moves
/// from the iterative strategy to the R-tree.
#[derive(Clone, Copy, Debug)]
pub enum Strategy {
    AlwaysIterative(usize),
    AlwaysRtree(usize),
    Dynamic(usize),
}

pub open spec fn use_rtree_spec(s: Strategy, candidates: nat) -> bool {
    match s {
        Strategy::AlwaysIterative(_) => false,
        Strategy::AlwaysRtree(_) => true,
        Strategy::Dynamic(i) => candidates >= i,
    }
}

pub open spec fn cache_size_spec(s: Strategy) -> nat {
    match s {
        Strategy::AlwaysIterative(i) => i as nat,
        Strategy::AlwaysRtree(i) => i as nat,
        Strategy::Dynamic(i) => i as nat,
    }
}

/// The cache capacity the fill actually uses: the original pushes one
/// entry before checking the bound, so a configured size of 0 behaves as 1.
pub open spec fn effective_cache(s: Strategy) -> nat {
    if cache_size_spec(s) == 0 {
        1
    } else {
        cache_size_spec(s)
    }
}

impl Default for Strategy {
    fn default() -> (r: Self)
        ensures
            r == Strategy::Dynamic(1000),
    {
        Strategy::Dynamic(1000)
    }
}

impl Strategy {
    pub fn use_rtree(&self, candidates: usize) -> (r: bool)
        ensures
            r == use_rtree_spec(*self, candidates as nat),
    {
        match self {
            Strategy::AlwaysIterative(_) => false,
            Strategy::AlwaysRtree(_) => true,
            Strategy::Dynamic(i) => candidates >= *i,
        }
    }

    pub fn cache_size(&self) -> (r: usize)
        ensures
            r as nat == cache_size_spec(*self),
    {
        match self {
            Strategy::AlwaysIterative(i) => *i,
            Strategy::AlwaysRtree(i) => *i,
            Strategy::Dynamic(i) => *i,
        }
    }
}

/// A geo-faceted document: its id and its distance rank key, the distance
/// to the reference point mapped to an integer as the facet reader
/// computes it.
#[derive(Clone, Copy, Debug, PartialEq, Eq, Structural)]
pub struct GeoDoc {
    pub id: u32,
    pub key: u64,
}

/// The document list is sorted by ascending (key, id), and ids are unique.
pub open spec fn geo_docs_wf(s: Seq<GeoDoc>) -> bool {
    &&& forall|i: int, j: int|
        0 <= i < j < s.len() ==> (#[trigger] s[i]).key < (#[trigger] s[j]).key || (s[i].key
            == s[j].key && s[i].id < s[j].id)
    &&& forall|i: int, j: int| 0 <= i < j < s.len() ==> (#[trigger] s[i]).id != (#[trigger] s[j]).id
}

pub open spec fn doc_contains(s: Seq<GeoDoc>, id: u32) -> bool {
    exists|i: int| 0 <= i < s.len() && (#[trigger] s[i]).id == id
}

/// The position of document `id` in the distance order.
pub open spec fn doc_pos(s: Seq<GeoDoc>, id: u32) -> int {
    choose|i: int| 0 <= i < s.len() && (#[trigger] s[i]).id == id
}

pub proof fn lemma_pos_at(s: Seq<GeoDoc>, i: int)
    requires
        geo_docs_wf(s),
        0 <= i < s.len(),
    ensures
        doc_contains(s, s[i].id),
        doc_pos(s, s[i].id) == i,
{
    let d = s[i].id;
    assert(doc_contains(s, d));
    let j = choose|j: int| 0 <= j < s.len() && (#[trigger] s[j]).id == d;
    assert(j == i) by {
        if j < i {
            assert(s[j].id != s[i].id);
        } else if j > i {
            assert(s[i].id != s[j].id);
        }
    }
}

/// The standing relation between the cache of presorted ids and the
/// current geo candidates: cache entries are documents in ascending
/// distance-order position, and a candidate absent from a non-empty cache
/// lies wholly beyond it — after its last entry when ascending, before its
/// first when descending.
pub open spec fn cache_wf(
    docs: Seq<GeoDoc>,
    cands: Set<u32>,
    cache: Seq<u32>,
    ascending: bool,
) -> bool {
    &&& forall|k: int| 0 <= k < cache.len() ==> doc_contains(docs, #[trigger] cache[k])
    &&& forall|k1: int, k2: int|
        0 <= k1 < k2 < cache.len() ==> doc_pos(docs, #[trigger] cache[k1]) < doc_pos(
            docs,
            #[trigger] cache[k2],
        )
    &&& if ascending {
        forall|c: u32|
            #[trigger] cands.contains(c) && !cache.contains(c) && cache.len() > 0 ==> doc_pos(
                docs,
                c,
            ) > doc_pos(docs, cache[cache.len() - 1])
    } else {
        forall|c: u32|
            #[trigger] cands.contains(c) && !cache.contains(c) && cache.len() > 0 ==> doc_pos(
                docs,
                c,
            ) < doc_pos(docs, cache[0])
    }
}

/// `id` is the best-placed member of `s` in the distance order: nearest
/// when ascending, farthest when descending.
pub open spec fn is_geo_first(docs: Seq<GeoDoc>, s: Set<u32>, ascending: bool, id: u32) -> bool {
    &&& s.contains(id)
    &&& forall|c: u32|
        #[trigger] s.contains(c) && c != id ==> if ascending {
            doc_pos(docs, id) < doc_pos(docs, c)
        } else {
            doc_pos(docs, id) > doc_pos(docs, c)
        }
}

/// The cache relation is preserved when the candidate set shrinks.
proof fn lemma_cache_wf_shrink(
    docs: Seq<GeoDoc>,
    big: Set<u32>,
    small: Set<u32>,
    cache: Seq<u32>,
    ascending: bool,
)
    requires
        cache_wf(docs, big, cache, ascending),
        small.subset_of(big),
    ensures
        cache_wf(docs, small, cache, ascending),
{
}

/// Cache entries at strictly increasing positions are pairwise distinct.
proof fn lemma_cache_nodup(docs: Seq<GeoDoc>, cache: Seq<u32>)
    requires
        forall|k1: int, k2: int|
            0 <= k1 < k2 < cache.len() ==> doc_pos(docs, #[trigger] cache[k1]) < doc_pos(
                docs,
                #[trigger] cache[k2],
            ),
    ensures
        cache.no_duplicates(),
{
    assert forall|i: int, j: int|
        0 <= i < cache.len() && 0 <= j < cache.len() && i != j implies cache[i] != cache[j] by {
        if i < j {
            assert(doc_pos(docs, cache[i]) < doc_pos(docs, cache[j]));
        } else {
            assert(doc_pos(docs, cache[j]) < doc_pos(docs, cache[i]));
        }
    }
}

pub struct GeoSort {
    pub query: Option<QueryGraph>,
    pub strategy: Strategy,
    pub ascending: bool,
    /// The geo-faceted documents, sorted by ascending distance rank.
    pub docs: Vec<GeoDoc>,
    /// Presorted ids not yet streamed out, bounded by the cache size.
    pub cached_sorted_docids: Vec<u32>,
    pub geo_candidates: RoaringBitmap,
    /// Ids already emitted in this iteration. They stay in
    /// `geo_candidates` until the next call's re-intersection with the
    /// caller's shrunken sub-universe removes them.
    pub emitted: Ghost<Set<u32>>,
}

pub open spec fn geo_inv(g: GeoSort) -> bool {
    &&& geo_docs_wf(g.docs@)
    &&& forall|c: u32|
        docset_view(g.geo_candidates).contains(c) ==> doc_contains(g.docs@, c)
    &&& cache_wf(
        g.docs@,
        docset_view(g.geo_candidates).difference(g.emitted@),
        g.cached_sorted_docids@,
        g.ascending,
    )
}

pub open spec fn geo_qlen(g: GeoSort) -> nat {
    match g.query {
        None => 0,
        Some(q) => q.levels@.len() as nat,
    }
}

/// Exact behaviour of one `next_bucket` call on sub-universe `u`: either
/// the geo candidates are disjoint from `u` and the whole of `u` comes
/// back as one bucket, or the best-placed remaining candidate comes back
/// as a singleton bucket.
pub open spec fn geo_next_ok(pre: GeoSort, post: GeoSort, u: Set<u32>, out: RankingRuleOutput) -> bool {
    let inter = docset_view(pre.geo_candidates).intersect(u);
    &&& post.docs@ == pre.docs@
    &&& post.strategy == pre.strategy
    &&& post.ascending == pre.ascending
    &&& pre.query is Some
    &&& post.query is Some
    &&& graph_view(out.query) == graph_view(pre.query->Some_0)
    &&& graph_view(post.query->Some_0) == graph_view(pre.query->Some_0)
    &&& out.remaining_buckets == 1
    &&& docset_view(post.geo_candidates) == inter
    &&& if inter.is_empty() {
        docset_view(out.candidates) == u && post.emitted@ == pre.emitted@
    } else {
        exists|id: u32|
            docset_view(out.candidates) == Set::<u32>::empty().insert(id) && #[trigger] is_geo_first(
                pre.docs@,
                inter,
                pre.ascending,
                id,
            ) && post.emitted@ == pre.emitted@.insert(id)
    }
}

impl GeoSort {
    /// Build the rule. `geo_faceted_docids` are the documents carrying geo
    /// facets; `docs` gives the same documents sorted by ascending
    /// distance rank key, ties by ascending id.
    pub fn new(
        strategy: Strategy,
        geo_faceted_docids: RoaringBitmap,
        docs: Vec<GeoDoc>,
        ascending: bool,
    ) -> (r: Self)
        requires
            geo_docs_wf(docs@),
            forall|c: u32|
                docset_view(geo_faceted_docids).contains(c) ==> doc_contains(docs@, c),
        ensures
            geo_inv(r),
            r.query is None,
            r.cached_sorted_docids@.len() == 0,
            r.strategy == strategy,
            r.ascending == ascending,
            r.docs@ == docs@,
            docset_view(r.geo_candidates) == docset_view(geo_faceted_docids),
            r.emitted@ == Set::<u32>::empty(),
    {
        Self {
            query: None,
            strategy,
            ascending,
            docs,
            cached_sorted_docids: Vec::new(),
            geo_candidates: geo_faceted_docids,
            emitted: Ghost(Set::empty()),
        }
    }

    pub fn id(&self) -> (r: &'static str)
        ensures
            r@ == "geo_sort"@,
    {
        "geo_sort"
    }

    /// Refill the internal buffer of cached docids based on the strategy.
    fn fill_buffer(&mut self)
        requires
            geo_inv(*old(self)),
            old(self).cached_sorted_docids@.len() == 0,
        ensures
            geo_inv(*final(self)),
            final(self).query == old(self).query,
            final(self).docs@ == old(self).docs@,
            final(self).strategy == old(self).strategy,
            final(self).ascending == old(self).ascending,
            docset_view(final(self).geo_candidates) == docset_view(old(self).geo_candidates),
            !docset_view(old(self).geo_candidates).is_empty()
                ==> final(self).cached_sorted_docids@.len() > 0,
            forall|k: int|
                0 <= k < final(self).cached_sorted_docids@.len() ==> docset_view(
                    old(self).geo_candidates,
                ).contains(#[trigger] final(self).cached_sorted_docids@[k]),
            final(self).cached_sorted_docids@.no_duplicates(),
            use_rtree_spec(old(self).strategy, docset_view(old(self).geo_candidates).len())
                ==> final(self).cached_sorted_docids@.len() <= effective_cache(
                old(self).strategy,
            ),
            (!use_rtree_spec(old(self).strategy, docset_view(old(self).geo_candidates).len())
                || final(self).cached_sorted_docids@.len() < effective_cache(old(self).strategy))
                ==> forall|c: u32|
                docset_view(old(self).geo_candidates).contains(c)
                    ==> final(self).cached_sorted_docids@.contains(c),
            final(self).emitted@ == old(self).emitted@,
            cache_wf(
                final(self).docs@,
                docset_view(final(self).geo_candidates),
                final(self).cached_sorted_docids@,
                final(self).ascending,
            ),
    {
        let ghost docs = self.docs@;
        let ghost cands = docset_view(self.geo_candidates);
        let ghost q0 = self.query;
        let ghost strat0 = self.strategy;
        let ghost asc0 = self.ascending;
        let ghost em0 = self.emitted@;
        let count_u64 = docset_len(&self.geo_candidates);
        let count: usize = if count_u64 >= (usize::MAX as u64) {
            usize::MAX
        } else {
            count_u64 as usize
        };
        let use_rtree = self.strategy.use_rtree(count);
        proof {
            assert(use_rtree == use_rtree_spec(strat0, cands.len())) by {
                match strat0 {
                    Strategy::Dynamic(i) => {},
                    Strategy::AlwaysIterative(_) => {},
                    Strategy::AlwaysRtree(_) => {},
                }
            }
        }
        let cache_size0 = self.strategy.cache_size();
        let cache_size = if cache_size0 == 0 {
            1
        } else {
            cache_size0
        };
        let n = self.docs.len();
        if use_rtree && self.ascending {
            // walk the distance order outwards, keep candidates, stop at
            // the cache size
            let mut i: usize = 0;
            while i < n && self.cached_sorted_docids.len() < cache_size
                invariant
                    geo_docs_wf(docs),
                    docs == self.docs@,
                    cands == docset_view(self.geo_candidates),
                    forall|c: u32| cands.contains(c) ==> doc_contains(docs, c),
                    n == docs.len(),
                    0 <= i <= n,
                    self.query == q0,
                    self.strategy == strat0,
                    self.ascending == asc0,
                    self.emitted@ == em0,
                    cache_size as nat == effective_cache(strat0),
                    cache_size >= 1,
                    self.cached_sorted_docids@.len() <= cache_size,
                    forall|k: int|
                        0 <= k < self.cached_sorted_docids@.len() ==> cands.contains(
                            #[trigger] self.cached_sorted_docids@[k],
                        ),
                    forall|k: int|
                        0 <= k < self.cached_sorted_docids@.len() ==> doc_contains(
                            docs,
                            #[trigger] self.cached_sorted_docids@[k],
                        ) && doc_pos(docs, self.cached_sorted_docids@[k]) < i,
                    forall|k1: int, k2: int|
                        0 <= k1 < k2 < self.cached_sorted_docids@.len() ==> doc_pos(
                            docs,
                            #[trigger] self.cached_sorted_docids@[k1],
                        ) < doc_pos(docs, #[trigger] self.cached_sorted_docids@[k2]),
                    forall|c: u32|
                        #[trigger] cands.contains(c) && doc_pos(docs, c) < i
                            ==> self.cached_sorted_docids@.contains(c),
                decreases n - i,
            {
                let d = self.docs[i].id;
                proof {
                    lemma_pos_at(docs, i as int);
                }
                if docset_contains(&self.geo_candidates, d) {
                    let ghost cache_pre = self.cached_sorted_docids@;
                    self.cached_sorted_docids.push(d);
                    proof {
                        assert(self.cached_sorted_docids@.last() == d);
                        assert forall|c: u32|
                            #[trigger] cands.contains(c) && doc_pos(docs, c) < i + 1
                                implies self.cached_sorted_docids@.contains(c) by {
                            assert(doc_contains(docs, c));
                            assert(docs[doc_pos(docs, c)].id == c);
                            if doc_pos(docs, c) < i {
                                let k = choose|k: int|
                                    0 <= k < cache_pre.len() && #[trigger] cache_pre[k] == c;
                                assert(self.cached_sorted_docids@[k] == c);
                            } else {
                                assert(doc_pos(docs, c) == i);
                                assert(c == d);
                                assert(self.cached_sorted_docids@[cache_pre.len() as int] == c);
                            }
                        }
                    }
                }
                i += 1;
            }
            proof {
                lemma_fill_post(docs, cands, self.cached_sorted_docids@, i as int, n as int);
                lemma_cache_nodup(docs, self.cached_sorted_docids@);
                if !cands.is_empty() && self.cached_sorted_docids@.len() == 0 {
                    assert(i == n);
                    let c = cands.choose();
                    assert(cands.contains(c));
                    assert(doc_contains(docs, c));
                    assert(self.cached_sorted_docids@.contains(c));
                }
                if self.cached_sorted_docids@.len() < cache_size as nat {
                    assert(i == n);
                    assert forall|c: u32| cands.contains(c)
                        implies self.cached_sorted_docids@.contains(c) by {
                        assert(doc_contains(docs, c));
                    }
                }
            }
        } else if use_rtree {
            // walk the distance order from the far end, push to the front,
            // so popping from the back yields the true descending order
            let mut i: usize = n;
            while i > 0 && self.cached_sorted_docids.len() < cache_size
                invariant
                    geo_docs_wf(docs),
                    docs == self.docs@,
                    cands == docset_view(self.geo_candidates),
                    forall|c: u32| cands.contains(c) ==> doc_contains(docs, c),
                    n == docs.len(),
                    0 <= i <= n,
                    self.query == q0,
                    self.strategy == strat0,
                    self.ascending == asc0,
                    self.emitted@ == em0,
                    cache_size as nat == effective_cache(strat0),
                    cache_size >= 1,
                    self.cached_sorted_docids@.len() <= cache_size,
                    forall|k: int|
                        0 <= k < self.cached_sorted_docids@.len() ==> cands.contains(
                            #[trigger] self.cached_sorted_docids@[k],
                        ),
                    forall|k: int|
                        0 <= k < self.cached_sorted_docids@.len() ==> doc_contains(
                            docs,
                            #[trigger] self.cached_sorted_docids@[k],
                        ) && doc_pos(docs, self.cached_sorted_docids@[k]) >= i,
                    forall|k1: int, k2: int|
                        0 <= k1 < k2 < self.cached_sorted_docids@.len() ==> doc_pos(
                            docs,
                            #[trigger] self.cached_sorted_docids@[k1],
                        ) < doc_pos(docs, #[trigger] self.cached_sorted_docids@[k2]),
                    forall|c: u32|
                        #[trigger] cands.contains(c) && doc_pos(docs, c) >= i
                            ==> self.cached_sorted_docids@.contains(c),
                decreases i,
            {
                let j = i - 1;
                let d = self.docs[j].id;
                proof {
                    lemma_pos_at(docs, j as int);
                }
                if docset_contains(&self.geo_candidates, d) {
                    let ghost cache_pre = self.cached_sorted_docids@;
                    self.cached_sorted_docids.insert(0, d);
                    proof {
                        assert(self.cached_sorted_docids@[0] == d);
                        assert forall|c: u32|
                            #[trigger] cands.contains(c) && doc_pos(docs, c) >= j
                                implies self.cached_sorted_docids@.contains(c) by {
                            assert(doc_contains(docs, c));
                            assert(docs[doc_pos(docs, c)].id == c);
                            if doc_pos(docs, c) >= i {
                                let k = choose|k: int|
                                    0 <= k < cache_pre.len() && #[trigger] cache_pre[k] == c;
                                assert(self.cached_sorted_docids@[k + 1] == c);
                            } else {
                                assert(doc_pos(docs, c) == j);
                                assert(c == d);
                                assert(self.cached_sorted_docids@[0] == c);
                            }
                        }
                    }
                }
                i = j;
            }
            proof {
                lemma_fill_post_desc(docs, cands, self.cached_sorted_docids@, i as int);
                lemma_cache_nodup(docs, self.cached_sorted_docids@);
                if !cands.is_empty() && self.cached_sorted_docids@.len() == 0 {
                    assert(i == 0);
                    let c = cands.choose();
                    assert(cands.contains(c));
                    assert(doc_contains(docs, c));
                    assert(self.cached_sorted_docids@.contains(c));
                }
                if self.cached_sorted_docids@.len() < cache_size as nat {
                    assert(i == 0);
                    assert forall|c: u32| cands.contains(c)
                        implies self.cached_sorted_docids@.contains(c) by {
                        assert(doc_contains(docs, c));
                    }
                }
            }
        } else {
            // the iterative version: every candidate, in distance order
            let mut i: usize = 0;
            while i < n
                invariant
                    geo_docs_wf(docs),
                    docs == self.docs@,
                    cands == docset_view(self.geo_candidates),
                    forall|c: u32| cands.contains(c) ==> doc_contains(docs, c),
                    n == docs.len(),
                    0 <= i <= n,
                    self.query == q0,
                    self.strategy == strat0,
                    self.ascending == asc0,
                    self.emitted@ == em0,
                    cache_size as nat == effective_cache(strat0),
                    cache_size >= 1,
                    forall|k: int|
                        0 <= k < self.cached_sorted_docids@.len() ==> cands.contains(
                            #[trigger] self.cached_sorted_docids@[k],
                        ),
                    forall|k: int|
                        0 <= k < self.cached_sorted_docids@.len() ==> doc_contains(
                            docs,
                            #[trigger] self.cached_sorted_docids@[k],
                        ) && doc_pos(docs, self.cached_sorted_docids@[k]) < i,
                    forall|k1: int, k2: int|
                        0 <= k1 < k2 < self.cached_sorted_docids@.len() ==> doc_pos(
                            docs,
                            #[trigger] self.cached_sorted_docids@[k1],
                        ) < doc_pos(docs, #[trigger] self.cached_sorted_docids@[k2]),
                    forall|c: u32|
                        #[trigger] cands.contains(c) && doc_pos(docs, c) < i
                            ==> self.cached_sorted_docids@.contains(c),
                decreases n - i,
            {
                let d = self.docs[i].id;
                proof {
                    lemma_pos_at(docs, i as int);
                }
                if docset_contains(&self.geo_candidates, d) {
                    let ghost cache_pre = self.cached_sorted_docids@;
                    self.cached_sorted_docids.push(d);
                    proof {
                        assert forall|c: u32|
                            #[trigger] cands.contains(c) && doc_pos(docs, c) < i + 1
                                implies self.cached_sorted_docids@.contains(c) by {
                            assert(doc_contains(docs, c));
                            assert(docs[doc_pos(docs, c)].id == c);
                            if doc_pos(docs, c) < i {
                                let k = choose|k: int|
                                    0 <= k < cache_pre.len() && #[trigger] cache_pre[k] == c;
                                assert(self.cached_sorted_docids@[k] == c);
                            } else {
                                assert(doc_pos(docs, c) == i);
                                assert(c == d);
                                assert(self.cached_sorted_docids@[cache_pre.len() as int] == c);
                            }
                        }
                    }
                }
                i += 1;
            }
            proof {
                lemma_fill_post(docs, cands, self.cached_sorted_docids@, i as int, n as int);
                lemma_cache_nodup(docs, self.cached_sorted_docids@);
                if !cands.is_empty() && self.cached_sorted_docids@.len() == 0 {
                    let c = cands.choose();
                    assert(cands.contains(c));
                    assert(doc_contains(docs, c));
                    assert(self.cached_sorted_docids@.contains(c));
                }
                assert forall|c: u32| cands.contains(c)
                    implies self.cached_sorted_docids@.contains(c) by {
                    assert(doc_contains(docs, c));
                }
            }
        }
        proof {
            lemma_cache_wf_shrink(
                docs,
                cands,
                cands.difference(self.emitted@),
                self.cached_sorted_docids@,
                asc0,
            );
        }
    }

    /// Begin partitioning `universe`; the rule models itself as one
    /// logical bucket-yielding stage.
    pub fn start_iteration(&mut self, universe: &RoaringBitmap, query: &QueryGraph) -> (tc:
        TotalBucketCount)
        requires
            geo_inv(*old(self)),
            old(self).query is None,
            old(self).cached_sorted_docids@.len() == 0,
            old(self).emitted@ == Set::<u32>::empty(),
        ensures
            tc == 1,
            geo_inv(*final(self)),
            final(self).query is Some,
            graph_view(final(self).query->Some_0) == graph_view(*query),
            geo_qlen(*final(self)) == query.levels@.len(),
            final(self).docs@ == old(self).docs@,
            final(self).strategy == old(self).strategy,
            final(self).ascending == old(self).ascending,
            docset_view(final(self).geo_candidates) == docset_view(
                old(self).geo_candidates,
            ).intersect(docset_view(*universe)),
            !docset_view(final(self).geo_candidates).is_empty()
                ==> final(self).cached_sorted_docids@.len() > 0,
            final(self).emitted@ == Set::<u32>::empty(),
    {
        self.query = Some(query.duplicate());
        self.emitted = Ghost(Set::empty());
        docset_and_assign(&mut self.geo_candidates, universe);
        proof {
            lemma_cache_wf_shrink(
                self.docs@,
                docset_view(old(self).geo_candidates).difference(old(self).emitted@),
                docset_view(self.geo_candidates).difference(self.emitted@),
                self.cached_sorted_docids@,
                self.ascending,
            );
        }
        if docset_is_empty(&self.geo_candidates) {
            return 1;
        }
        self.fill_buffer();
        1
    }

    /// Emit the next bucket: the best-placed remaining candidate as a
    /// singleton, or the whole sub-universe once no candidate is left in
    /// it.
    #[verifier::loop_isolation(false)]
    pub fn next_bucket(&mut self, universe: &RoaringBitmap) -> (r: Option<RankingRuleOutput>)
        requires
            geo_inv(*old(self)),
            old(self).query is Some,
            docset_view(*universe).len() > 1,
            docset_view(*universe).disjoint(old(self).emitted@),
        ensures
            geo_inv(*final(self)),
            final(self).query is Some,
            geo_qlen(*final(self)) == geo_qlen(*old(self)),
            r is Some,
            geo_next_ok(*old(self), *final(self), docset_view(*universe), r->Some_0),
            docset_view(r->Some_0.candidates).subset_of(docset_view(*universe)),
            r->Some_0.query.levels@.len() == geo_qlen(*old(self)),
    {
        let ghost docs = self.docs@;
        let ghost q0 = self.query;
        let ghost strat0 = self.strategy;
        let ghost asc = self.ascending;
        let query = match &self.query {
            Some(q) => q.duplicate(),
            None => {
                proof {
                    assert(false);
                }
                unreached()
            },
        };
        let ghost em0 = self.emitted@;
        docset_and_assign(&mut self.geo_candidates, universe);
        let ghost inter = docset_view(self.geo_candidates);
        proof {
            // previously emitted ids are outside the caller's shrunken
            // sub-universe, so the intersection holds none of them
            assert(inter.disjoint(em0));
            assert(inter.subset_of(
                docset_view(old(self).geo_candidates).difference(em0),
            ));
            lemma_cache_wf_shrink(
                docs,
                docset_view(old(self).geo_candidates).difference(em0),
                inter,
                self.cached_sorted_docids@,
                self.ascending,
            );
        }
        if docset_is_empty(&self.geo_candidates) {
            proof {
                lemma_cache_wf_shrink(
                    docs,
                    inter,
                    inter.difference(em0),
                    self.cached_sorted_docids@,
                    self.ascending,
                );
            }
            return Some(
                RankingRuleOutput {
                    query,
                    candidates: docset_clone(universe),
                    remaining_buckets: 1,
                },
            );
        }
        proof {
            assert(forall|c: u32| inter.contains(c) ==> doc_contains(docs, c));
        }
        while self.cached_sorted_docids.len() > 0
            invariant
                geo_docs_wf(docs),
                docs == self.docs@,
                inter == docset_view(self.geo_candidates),
                !inter.is_empty(),
                forall|c: u32| inter.contains(c) ==> doc_contains(docs, c),
                cache_wf(docs, inter, self.cached_sorted_docids@, self.ascending),
                self.query == q0,
                self.strategy == strat0,
                self.ascending == asc,
                self.emitted@ == em0,
            decreases self.cached_sorted_docids@.len(),
        {
            let ghost cache0 = self.cached_sorted_docids@;
            let id = if self.ascending {
                self.cached_sorted_docids.remove(0)
            } else {
                match self.cached_sorted_docids.pop() {
                    Some(x) => x,
                    None => {
                        proof {
                            assert(false);
                        }
                        unreached()
                    },
                }
            };
            proof {
                if asc {
                    assert(self.cached_sorted_docids@ =~= cache0.subrange(
                        1,
                        cache0.len() as int,
                    ));
                }
            }
            if docset_contains(&self.geo_candidates, id) {
                self.emitted = Ghost(em0.insert(id));
                proof {
                    lemma_emitted_first(docs, inter, cache0, asc, id);
                    assert(cache_wf(docs, inter.remove(id), cache0, asc));
                    lemma_pop_stale(docs, inter.remove(id), cache0, asc, id);
                    assert(inter.difference(self.emitted@) =~= inter.remove(id));
                }
                let mut c = docset_new();
                docset_insert(&mut c, id);
                proof {
                    assert(docset_view(c) =~= Set::<u32>::empty().insert(id));
                }
                return Some(RankingRuleOutput { query, candidates: c, remaining_buckets: 1 });
            }
            proof {
                lemma_pop_stale(docs, inter, cache0, asc, id);
            }
        }
        self.fill_buffer();
        let ghost cache0 = self.cached_sorted_docids@;
        let id = if self.ascending {
            self.cached_sorted_docids.remove(0)
        } else {
            match self.cached_sorted_docids.pop() {
                Some(x) => x,
                None => {
                    proof {
                        assert(false);
                    }
                    unreached()
                },
            }
        };
        self.emitted = Ghost(em0.insert(id));
        proof {
            if asc {
                assert(self.cached_sorted_docids@ =~= cache0.subrange(1, cache0.len() as int));
            }
            assert(inter.contains(id));
            lemma_emitted_first(docs, inter, cache0, asc, id);
            assert(cache_wf(docs, inter.remove(id), cache0, asc));
            lemma_pop_stale(docs, inter.remove(id), cache0, asc, id);
            assert(inter.difference(self.emitted@) =~= inter.remove(id));
        }
        let mut c = docset_new();
        docset_insert(&mut c, id);
        proof {
            assert(docset_view(c) =~= Set::<u32>::empty().insert(id));
        }
        Some(RankingRuleOutput { query, candidates: c, remaining_buckets: 1 })
    }

    /// Release the per-iteration state; the document list is kept, being
    /// amortised across iterations.
    pub fn end_iteration(&mut self)
        requires
            geo_inv(*old(self)),
        ensures
            geo_inv(*final(self)),
            final(self).query is None,
            final(self).cached_sorted_docids@.len() == 0,
            final(self).docs@ == old(self).docs@,
            final(self).strategy == old(self).strategy,
            final(self).ascending == old(self).ascending,
            docset_view(final(self).geo_candidates) == docset_view(old(self).geo_candidates),
            final(self).emitted@ == Set::<u32>::empty(),
    {
        self.query = None;
        self.cached_sorted_docids = Vec::new();
        self.emitted = Ghost(Set::empty());
    }
}

/// After a fill pass that scanned positions `[0, i)` (ascending) and kept
/// candidates in position order, the cache relation holds: the pass either
/// scanned everything or stopped with a full cache, so any candidate left
/// out lies beyond the last entry.
proof fn lemma_fill_post(docs: Seq<GeoDoc>, cands: Set<u32>, cache: Seq<u32>, i: int, n: int)
    requires
        geo_docs_wf(docs),
        n == docs.len(),
        0 <= i <= n,
        forall|k: int| 0 <= k < cache.len() ==> cands.contains(#[trigger] cache[k]),
        forall|k: int|
            0 <= k < cache.len() ==> doc_contains(docs, #[trigger] cache[k]) && doc_pos(
                docs,
                cache[k],
            ) < i,
        forall|k1: int, k2: int|
            0 <= k1 < k2 < cache.len() ==> doc_pos(docs, #[trigger] cache[k1]) < doc_pos(
                docs,
                #[trigger] cache[k2],
            ),
        forall|c: u32|
            #[trigger] cands.contains(c) && doc_pos(docs, c) < i ==> cache.contains(c),
        forall|c: u32| cands.contains(c) ==> doc_contains(docs, c),
    ensures
        cache_wf(docs, cands, cache, true),
{
    assert forall|c: u32|
        #[trigger] cands.contains(c) && !cache.contains(c) && cache.len() > 0 implies doc_pos(
        docs,
        c,
    ) > doc_pos(docs, cache[cache.len() - 1]) by {
        assert(doc_pos(docs, c) >= i);
        assert(doc_pos(docs, cache[cache.len() - 1]) < i);
    }
}

/// Symmetric relation for a descending fill pass that scanned positions
/// `[i, n)` from the far end.
proof fn lemma_fill_post_desc(docs: Seq<GeoDoc>, cands: Set<u32>, cache: Seq<u32>, i: int)
    requires
        geo_docs_wf(docs),
        0 <= i <= docs.len(),
        forall|k: int| 0 <= k < cache.len() ==> cands.contains(#[trigger] cache[k]),
        forall|k: int|
            0 <= k < cache.len() ==> doc_contains(docs, #[trigger] cache[k]) && doc_pos(
                docs,
                cache[k],
            ) >= i,
        forall|k1: int, k2: int|
            0 <= k1 < k2 < cache.len() ==> doc_pos(docs, #[trigger] cache[k1]) < doc_pos(
                docs,
                #[trigger] cache[k2],
            ),
        forall|c: u32|
            #[trigger] cands.contains(c) && doc_pos(docs, c) >= i ==> cache.contains(c),
        forall|c: u32| cands.contains(c) ==> doc_contains(docs, c),
    ensures
        cache_wf(docs, cands, cache, false),
{
    assert forall|c: u32|
        #[trigger] cands.contains(c) && !cache.contains(c) && cache.len() > 0 implies doc_pos(
        docs,
        c,
    ) < doc_pos(docs, cache[0]) by {
        assert(doc_pos(docs, c) < i);
        assert(doc_pos(docs, cache[0]) >= i);
    }
}

/// Popping a cache entry that is no longer a candidate preserves the
/// cache relation.
proof fn lemma_pop_stale(
    docs: Seq<GeoDoc>,
    cands: Set<u32>,
    cache: Seq<u32>,
    ascending: bool,
    id: u32,
)
    requires
        geo_docs_wf(docs),
        cache_wf(docs, cands, cache, ascending),
        cache.len() > 0,
        id == if ascending {
            cache[0]
        } else {
            cache[cache.len() - 1]
        },
        !cands.contains(id),
    ensures
        ascending ==> cache_wf(docs, cands, cache.subrange(1, cache.len() as int), ascending),
        !ascending ==> cache_wf(docs, cands, cache.subrange(0, cache.len() - 1), ascending),
{
    if ascending {
        let rest = cache.subrange(1, cache.len() as int);
        assert forall|c: u32|
            #[trigger] cands.contains(c) && !rest.contains(c) && rest.len() > 0 implies doc_pos(
            docs,
            c,
        ) > doc_pos(docs, rest[rest.len() - 1]) by {
            assert(rest[rest.len() - 1] == cache[cache.len() - 1]);
            if cache.contains(c) {
                let k = choose|k: int| 0 <= k < cache.len() && #[trigger] cache[k] == c;
                assert(k != 0);
                assert(rest[k - 1] == c);
            }
        }
    } else {
        let rest = cache.subrange(0, cache.len() - 1);
        assert forall|c: u32|
            #[trigger] cands.contains(c) && !rest.contains(c) && rest.len() > 0 implies doc_pos(
            docs,
            c,
        ) < doc_pos(docs, rest[0]) by {
            assert(rest[0] == cache[0]);
            if cache.contains(c) {
                let k = choose|k: int| 0 <= k < cache.len() && #[trigger] cache[k] == c;
                assert(k != cache.len() - 1);
                assert(rest[k] == c);
            }
        }
    }
}

/// The entry popped from a well-formed cache, when it is still a
/// candidate, is the best-placed remaining candidate.
proof fn lemma_emitted_first(
    docs: Seq<GeoDoc>,
    cands: Set<u32>,
    cache: Seq<u32>,
    ascending: bool,
    id: u32,
)
    requires
        geo_docs_wf(docs),
        cache_wf(docs, cands, cache, ascending),
        cache.len() > 0,
        id == if ascending {
            cache[0]
        } else {
            cache[cache.len() - 1]
        },
        cands.contains(id),
        forall|c: u32| cands.contains(c) ==> doc_contains(docs, c),
    ensures
        is_geo_first(docs, cands, ascending, id),
{
    assert forall|c: u32| #[trigger] cands.contains(c) && c != id implies (if ascending {
        doc_pos(docs, id) < doc_pos(docs, c)
    } else {
        doc_pos(docs, id) > doc_pos(docs, c)
    }) by {
        if cache.contains(c) {
            let k = choose|k: int| 0 <= k < cache.len() && #[trigger] cache[k] == c;
            if ascending {
                assert(k != 0);
                assert(doc_pos(docs, cache[0]) < doc_pos(docs, cache[k]));
            } else {
                assert(k != cache.len() - 1);
                assert(doc_pos(docs, cache[k]) < doc_pos(docs, cache[cache.len() - 1]));
            }
        }
    }
}

} // verus!
