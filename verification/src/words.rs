//! The Words ranking rule: progressive relaxation of a query graph.
//!
//! Under the `All` strategy the rule emits a single bucket, the documents
//! matching the graph as given. Under the `Last` strategy it walks the
//! graph's relaxation levels in order, so each bucket holds the documents
//! matching one more-permissive graph; the driver subtracts what earlier
//! buckets already emitted.

use vstd::prelude::*;
use roaring::RoaringBitmap;
use crate::docset::docset_view;
use crate::docset::docset_clone;
use crate::docset::docset_and_assign;
use crate::query::QueryGraph;
use crate::query::graph_view;
use crate::ranking_rules::RankingRuleOutput;
use crate::ranking_rules::TotalBucketCount;

verus! {

/// How strictly the query's optional terms must match.
#[derive(Clone, Copy, Debug, PartialEq, Eq, Structural)]
pub enum TermsMatchingStrategy {
    /// Remove optional terms from the end, one bucket per relaxation step.
    Last,
    /// No relaxation: all terms must match.
    All,
}

pub struct Words {
    pub exhausted: bool,
    pub query_graph: Option<QueryGraph>,
    /// Relaxation steps applied so far in this iteration.
    pub cur_level: usize,
    /// The bucket count declared at the start of this iteration.
    pub total: u64,
    pub terms_matching_strategy: TermsMatchingStrategy,
}

/// The bucket count the rule declares for a graph of `n` levels: one bucket
/// per level under `Last`, plus a notional trailing slot for the no-match
/// boundary; a single bucket under `All`.
pub open spec fn words_total_spec(strat: TermsMatchingStrategy, n: nat) -> nat {
    match strat {
        TermsMatchingStrategy::All => 1,
        TermsMatchingStrategy::Last => n + 1,
    }
}

/// Internal consistency of the rule's state.
pub open spec fn words_wf(w: Words) -> bool {
    match w.query_graph {
        None => true,
        Some(g) => {
            &&& 1 <= g.levels@.len()
            &&& w.cur_level < g.levels@.len()
            &&& w.total == words_total_spec(w.terms_matching_strategy, g.levels@.len() as nat)
        },
    }
}

/// The levels of the stored graph, 0 when no iteration is under way.
pub open spec fn words_qlen(w: Words) -> nat {
    match w.query_graph {
        None => 0,
        Some(g) => g.levels@.len() as nat,
    }
}

/// Exact behaviour of one `next_bucket` call on sub-universe `u`.
pub open spec fn words_next_ok(
    pre: Words,
    post: Words,
    u: Set<u32>,
    r: Option<RankingRuleOutput>,
) -> bool {
    if pre.exhausted {
        r is None && post == pre
    } else {
        match (pre.query_graph, r) {
            (Some(g), Some(out)) => {
                let n = g.levels@.len() as int;
                let cur = pre.cur_level as int;
                &&& docset_view(out.candidates) == graph_view(g)[cur].intersect(u)
                &&& graph_view(out.query) == graph_view(g).subrange(cur, n)
                &&& out.remaining_buckets == (match pre.terms_matching_strategy {
                    TermsMatchingStrategy::All => 1 as int,
                    TermsMatchingStrategy::Last => n - cur,
                })
                &&& post.query_graph is Some
                &&& graph_view(post.query_graph->Some_0) == graph_view(g)
                &&& post.total == pre.total
                &&& post.terms_matching_strategy == pre.terms_matching_strategy
                &&& if pre.terms_matching_strategy == TermsMatchingStrategy::All || cur == n - 1 {
                    post.exhausted && post.cur_level == pre.cur_level
                } else {
                    !post.exhausted && post.cur_level == pre.cur_level + 1
                }
            },
            _ => false,
        }
    }
}

impl Words {
    pub fn new(terms_matching_strategy: TermsMatchingStrategy) -> (r: Self)
        ensures
            r.exhausted,
            r.query_graph is None,
            r.terms_matching_strategy == terms_matching_strategy,
            words_wf(r),
    {
        Self {
            exhausted: true,
            query_graph: None,
            cur_level: 0,
            total: 0,
            terms_matching_strategy,
        }
    }

    pub fn id(&self) -> (r: &'static str)
        ensures
            r@ == "words"@,
    {
        "words"
    }

    /// Begin partitioning `_universe`; declares how many buckets will come.
    pub fn start_iteration(&mut self, _universe: &RoaringBitmap, query: &QueryGraph) -> (tc:
        TotalBucketCount)
        requires
            1 <= query.levels@.len(),
            query.levels@.len() + 1 <= u64::MAX,
        ensures
            tc == words_total_spec(old(self).terms_matching_strategy, query.levels@.len() as nat),
            1 <= tc,
            old(self).terms_matching_strategy != TermsMatchingStrategy::Last ==> tc == 1,
            words_wf(*final(self)),
            !final(self).exhausted,
            final(self).query_graph is Some,
            graph_view(final(self).query_graph->Some_0) == graph_view(*query),
            words_qlen(*final(self)) == query.levels@.len(),
            final(self).cur_level == 0,
            final(self).total == tc,
            final(self).terms_matching_strategy == old(self).terms_matching_strategy,
    {
        self.exhausted = false;
        self.query_graph = Some(query.duplicate());
        self.cur_level = 0;
        self.total = match self.terms_matching_strategy {
            TermsMatchingStrategy::All => 1,
            TermsMatchingStrategy::Last => (query.levels.len() as u64) + 1,
        };
        self.total
    }

    /// Emit the next bucket: the documents of `universe` matching the
    /// current graph, with the graph one step further relaxed for the
    /// following bucket.
    pub fn next_bucket(&mut self, universe: &RoaringBitmap) -> (r: Option<RankingRuleOutput>)
        requires
            words_wf(*old(self)),
            !old(self).exhausted ==> old(self).query_graph is Some,
        ensures
            words_wf(*final(self)),
            words_next_ok(*old(self), *final(self), docset_view(*universe), r),
            final(self).total == old(self).total,
            final(self).terms_matching_strategy == old(self).terms_matching_strategy,
            words_qlen(*final(self)) == words_qlen(*old(self)),
            r is Some ==> {
                let out = r->Some_0;
                &&& docset_view(out.candidates).subset_of(docset_view(*universe))
                &&& 1 <= out.remaining_buckets <= old(self).total
                &&& out.query.levels@.len() <= words_qlen(*old(self))
                &&& out.query.levels@.len() >= 1
                &&& (old(self).terms_matching_strategy != TermsMatchingStrategy::Last
                    ==> out.remaining_buckets == 1)
            },
    {
        if self.exhausted {
            return None;
        }
        let cur = self.cur_level;
        let (bucket, child_query, n) = match &self.query_graph {
            Some(g) => {
                let mut bucket = docset_clone(&g.levels[cur]);
                docset_and_assign(&mut bucket, universe);
                let child_query = g.suffix_from(cur);
                (bucket, child_query, g.levels.len())
            },
            None => {
                proof {
                    assert(false);
                }
                unreached()
            },
        };
        let remaining_buckets: u64 = match self.terms_matching_strategy {
            TermsMatchingStrategy::All => 1,
            TermsMatchingStrategy::Last => (n - cur) as u64,
        };
        let is_last = match self.terms_matching_strategy {
            TermsMatchingStrategy::All => true,
            TermsMatchingStrategy::Last => cur == n - 1,
        };
        if is_last {
            self.exhausted = true;
        } else {
            self.cur_level = cur + 1;
        }
        proof {
            let g = old(self).query_graph->Some_0;
            assert(docset_view(bucket) =~= graph_view(g)[cur as int].intersect(
                docset_view(*universe),
            ));
        }
        Some(RankingRuleOutput { query: child_query, candidates: bucket, remaining_buckets })
    }

    /// Release the per-iteration state.
    pub fn end_iteration(&mut self)
        ensures
            final(self).exhausted,
            final(self).query_graph is None,
            final(self).terms_matching_strategy == old(self).terms_matching_strategy,
            final(self).total == old(self).total,
            words_wf(*final(self)),
    {
        self.exhausted = true;
        self.query_graph = None;
        self.cur_level = 0;
    }
}

} // verus!
