//! The ranking-rule contract and the closed set of rules the driver runs.
//!
//! A rule partitions its current sub-universe into buckets, best first.
//! `start_iteration` declares how many buckets will come, `next_bucket`
//! streams them, `end_iteration` releases per-iteration state.

use vstd::prelude::*;
use roaring::RoaringBitmap;
use crate::docset::docset_view;
use crate::query::QueryGraph;
use crate::query::graph_view;
use crate::words::Words;
use crate::words::TermsMatchingStrategy;
use crate::words::words_wf;
use crate::words::words_qlen;
use crate::words::words_next_ok;
use crate::geo_sort::GeoSort;
use crate::geo_sort::geo_inv;
use crate::geo_sort::geo_qlen;
use crate::geo_sort::geo_next_ok;

verus! {

/// How many buckets a rule will emit over the sub-universe it was just
/// started on.
pub type TotalBucketCount = u64;

/// The bucket produced by a rule: a subset of its current sub-universe,
/// the query refined for the next stage, and the rule's local count of the
/// buckets still to come after this one.
pub struct RankingRuleOutput {
    pub query: QueryGraph,
    pub candidates: RoaringBitmap,
    pub remaining_buckets: u64,
}

/// A ranking rule of the chain.
pub enum RankingRule {
    Words(Words),
    Geo(GeoSort),
}

/// Internal consistency of a rule's state.
pub open spec fn rr_inv(r: RankingRule) -> bool {
    match r {
        RankingRule::Words(w) => words_wf(w),
        RankingRule::Geo(g) => geo_inv(g),
    }
}

/// The rule may begin a fresh iteration.
pub open spec fn rr_ready(r: RankingRule) -> bool {
    match r {
        RankingRule::Words(w) => w.exhausted && w.query_graph is None,
        RankingRule::Geo(g) => g.query is None && g.cached_sorted_docids@.len() == 0
            && g.emitted@ == Set::<u32>::empty(),
    }
}

/// The ids the rule has emitted in its current iteration and not yet seen
/// removed from the sub-universe it is handed.
pub open spec fn rr_emitted(r: RankingRule) -> Set<u32> {
    match r {
        RankingRule::Words(_) => Set::empty(),
        RankingRule::Geo(g) => g.emitted@,
    }
}

/// The stable identifier of each rule kind.
pub open spec fn rr_id_spec(r: RankingRule) -> Seq<char> {
    match r {
        RankingRule::Words(_) => "words"@,
        RankingRule::Geo(_) => "geo_sort"@,
    }
}

/// Whether the rule is the geo sort.
pub open spec fn rr_is_geo(r: RankingRule) -> bool {
    match r {
        RankingRule::Words(_) => false,
        RankingRule::Geo(_) => true,
    }
}

/// Whether the rule has emitted every bucket of its current iteration.
pub open spec fn rr_exhausted(r: RankingRule) -> bool {
    match r {
        RankingRule::Words(w) => w.exhausted,
        RankingRule::Geo(_) => false,
    }
}

/// The level sets of the query graph the rule holds, empty when none.
pub open spec fn rr_graph_view(r: RankingRule) -> Seq<Set<u32>> {
    match r {
        RankingRule::Words(w) => match w.query_graph {
            Some(g) => graph_view(g),
            None => Seq::empty(),
        },
        RankingRule::Geo(g) => match g.query {
            Some(q) => graph_view(q),
            None => Seq::empty(),
        },
    }
}

/// Every level of `ls` contains all of `s`: a graph whose every relaxation
/// state matches every document of `s`.
pub open spec fn levels_cover(ls: Seq<Set<u32>>, s: Set<u32>) -> bool {
    forall|k: int| 0 <= k < ls.len() ==> s.subset_of(#[trigger] ls[k])
}

/// The relaxation steps a Words rule still owes in its current iteration;
/// the geo sort's remaining work is measured by its sub-universe instead.
pub open spec fn rr_pending(r: RankingRule) -> nat {
    match r {
        RankingRule::Words(w) => if w.exhausted {
            0
        } else {
            match w.query_graph {
                Some(g) => (g.levels@.len() - w.cur_level) as nat,
                None => 0,
            }
        },
        RankingRule::Geo(_) => 0,
    }
}

/// The rule holds the state of a running iteration.
pub open spec fn rr_active(r: RankingRule) -> bool {
    match r {
        RankingRule::Words(w) => !w.exhausted ==> w.query_graph is Some,
        RankingRule::Geo(g) => g.query is Some,
    }
}

/// The bucket count the rule declared at its last `start_iteration`.
pub open spec fn rr_total(r: RankingRule) -> nat {
    match r {
        RankingRule::Words(w) => w.total as nat,
        RankingRule::Geo(_) => 1,
    }
}

/// The number of levels of the query graph the rule holds.
pub open spec fn rr_qlen(r: RankingRule) -> nat {
    match r {
        RankingRule::Words(w) => words_qlen(w),
        RankingRule::Geo(g) => geo_qlen(g),
    }
}

/// Whether the rule is a Words rule under the `Last` strategy — the only
/// rule kind that declares more than one bucket.
pub open spec fn rr_is_last_words(r: RankingRule) -> bool {
    match r {
        RankingRule::Words(w) => w.terms_matching_strategy == TermsMatchingStrategy::Last,
        RankingRule::Geo(_) => false,
    }
}

/// An upper bound on the bucket count the rule can declare for any query
/// of at most `qcap` levels.
pub open spec fn rr_cap(r: RankingRule, qcap: nat) -> nat {
    if rr_is_last_words(r) {
        qcap + 1
    } else {
        1
    }
}

/// Exact behaviour of one `next_bucket` call on sub-universe `u`.
pub open spec fn rr_next_rel(
    pre: RankingRule,
    post: RankingRule,
    u: Set<u32>,
    r: Option<RankingRuleOutput>,
) -> bool {
    match (pre, post) {
        (RankingRule::Words(w0), RankingRule::Words(w1)) => words_next_ok(w0, w1, u, r),
        (RankingRule::Geo(g0), RankingRule::Geo(g1)) => r is Some && geo_next_ok(
            g0,
            g1,
            u,
            r->Some_0,
        ),
        _ => false,
    }
}

impl RankingRule {
    /// Stable identifier of the rule.
    pub fn id(&self) -> (r: &'static str)
        ensures
            r@ == rr_id_spec(*self),
    {
        match self {
            RankingRule::Words(w) => w.id(),
            RankingRule::Geo(g) => g.id(),
        }
    }

    /// Begin partitioning `universe` under `query`; returns the declared
    /// bucket count.
    pub fn start_iteration(&mut self, universe: &RoaringBitmap, query: &QueryGraph) -> (tc:
        TotalBucketCount)
        requires
            rr_inv(*old(self)),
            rr_ready(*old(self)),
            1 <= query.levels@.len(),
            query.levels@.len() + 1 <= u64::MAX,
        ensures
            rr_inv(*final(self)),
            rr_active(*final(self)),
            1 <= tc,
            tc as nat <= rr_cap(*old(self), query.levels@.len() as nat),
            rr_total(*final(self)) == tc,
            rr_qlen(*final(self)) == query.levels@.len(),
            rr_is_last_words(*final(self)) == rr_is_last_words(*old(self)),
            !rr_is_last_words(*old(self)) ==> tc == 1,
            rr_pending(*final(self)) <= query.levels@.len(),
            rr_is_geo(*final(self)) == rr_is_geo(*old(self)),
            rr_graph_view(*final(self)) == graph_view(*query),
            !rr_exhausted(*final(self)),
            rr_emitted(*final(self)) == Set::<u32>::empty(),
    {
        match self {
            RankingRule::Words(w) => w.start_iteration(universe, query),
            RankingRule::Geo(g) => g.start_iteration(universe, query),
        }
    }

    /// Emit the next bucket of the current iteration, a subset of
    /// `universe`; `None` means the rule is exhausted.
    pub fn next_bucket(&mut self, universe: &RoaringBitmap) -> (r: Option<RankingRuleOutput>)
        requires
            rr_inv(*old(self)),
            rr_active(*old(self)),
            docset_view(*universe).len() > 1,
            docset_view(*universe).disjoint(rr_emitted(*old(self))),
        ensures
            rr_inv(*final(self)),
            rr_active(*final(self)),
            rr_next_rel(*old(self), *final(self), docset_view(*universe), r),
            r is None ==> rr_emitted(*final(self)) == rr_emitted(*old(self)),
            r is Some ==> rr_emitted(*final(self)).subset_of(
                rr_emitted(*old(self)).union(docset_view(r->Some_0.candidates)),
            ),
            rr_total(*final(self)) == rr_total(*old(self)),
            rr_qlen(*final(self)) == rr_qlen(*old(self)),
            rr_is_last_words(*final(self)) == rr_is_last_words(*old(self)),
            rr_is_geo(*final(self)) == rr_is_geo(*old(self)),
            rr_pending(*final(self)) <= rr_pending(*old(self)),
            r is Some && !rr_is_geo(*old(self)) ==> rr_pending(*final(self)) < rr_pending(
                *old(self),
            ),
            rr_graph_view(*final(self)) == rr_graph_view(*old(self)),
            r is None ==> rr_exhausted(*old(self)),
            r is Some ==> {
                let out = r->Some_0;
                &&& docset_view(out.candidates).subset_of(docset_view(*universe))
                &&& 1 <= out.remaining_buckets
                &&& out.remaining_buckets as nat <= rr_total(*old(self))
                &&& out.query.levels@.len() <= rr_qlen(*old(self))
                &&& (rr_qlen(*old(self)) >= 1 ==> out.query.levels@.len() >= 1)
                &&& (!rr_is_last_words(*old(self)) ==> out.remaining_buckets == 1)
                &&& forall|s: Set<u32>|
                    #[trigger] levels_cover(rr_graph_view(*old(self)), s) ==> levels_cover(
                        graph_view(out.query),
                        s,
                    )
                &&& (!rr_is_geo(*old(self)) && rr_exhausted(*final(self)) ==> forall|s: Set<u32>|
                    #[trigger] levels_cover(rr_graph_view(*old(self)), s) ==> s.intersect(
                        docset_view(*universe),
                    ).subset_of(docset_view(out.candidates)))
            },
    {
        match self {
            RankingRule::Words(w) => {
                let ghost g0 = w.query_graph;
                let r = w.next_bucket(universe);
                proof {
                    if r is Some {
                        let g = g0->Some_0;
                        let cur = old(self)->Words_0.cur_level as int;
                        let out = r->Some_0;
                        assert forall|s: Set<u32>|
                            #[trigger] levels_cover(graph_view(g), s) implies levels_cover(
                            graph_view(out.query),
                            s,
                        ) by {
                            assert forall|k: int|
                                0 <= k < graph_view(out.query).len() implies s.subset_of(
                                #[trigger] graph_view(out.query)[k],
                            ) by {
                                assert(graph_view(out.query)[k] == graph_view(g)[cur + k]);
                            }
                        }
                        assert forall|s: Set<u32>|
                            #[trigger] levels_cover(graph_view(g), s) implies s.intersect(
                            docset_view(*universe),
                        ).subset_of(docset_view(out.candidates)) by {
                            assert(s.subset_of(graph_view(g)[cur]));
                        }
                    }
                }
                r
            },
            RankingRule::Geo(g) => g.next_bucket(universe),
        }
    }

    /// Finish the current iteration, releasing per-iteration state; caches
    /// that span iterations are kept.
    pub fn end_iteration(&mut self)
        requires
            rr_inv(*old(self)),
        ensures
            rr_inv(*final(self)),
            rr_ready(*final(self)),
            rr_is_last_words(*final(self)) == rr_is_last_words(*old(self)),
            rr_is_geo(*final(self)) == rr_is_geo(*old(self)),
            rr_total(*final(self)) == rr_total(*old(self)),
            rr_emitted(*final(self)) == Set::<u32>::empty(),
    {
        match self {
            RankingRule::Words(w) => w.end_iteration(),
            RankingRule::Geo(g) => g.end_iteration(),
        }
    }
}

} // verus!
