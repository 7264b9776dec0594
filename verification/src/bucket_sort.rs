//! The bucket-sort driver: a depth-first scheduler over the rule chain.
//!
//! Starting from the caller's universe, each rule partitions its
//! sub-universe into buckets; non-terminal buckets with more than one
//! candidate are refined by the next rule, the rest are flushed into the
//! paginated result list, scored by their global bucket-position fraction.

use vstd::prelude::*;
use vstd::set_lib::lemma_len_subset;
use roaring::RoaringBitmap;
use crate::docset::docset_view;
use crate::docset::docset_seq;
use crate::docset::docset_new;
use crate::docset::docset_len;
use crate::docset::docset_clone;
use crate::docset::docset_insert;
use crate::docset::docset_contains;
use crate::docset::docset_is_empty;
use crate::docset::docset_to_vec;
use crate::docset::docset_take;
use crate::docset::docset_clear;
use crate::docset::docset_sub_assign;
use crate::docset::docset_or_assign;
use crate::docset::strictly_sorted;
use crate::docset::lemma_sorted_len;
use crate::docset::lemma_view_finite;
use crate::score::Score;
use crate::score::score_wf;
use crate::score::score_le;
use crate::score::scores_non_increasing;
use crate::query::QueryGraph;
use crate::distinct::DistinctIndex;
use crate::distinct::same_value;
use crate::distinct::has_val;
use crate::distinct::mates_of;
use crate::ranking_rules::RankingRule;
use crate::ranking_rules::RankingRuleOutput;
use crate::ranking_rules::rr_inv;
use crate::ranking_rules::rr_ready;
use crate::ranking_rules::rr_active;
use crate::ranking_rules::rr_total;
use crate::ranking_rules::rr_qlen;
use crate::ranking_rules::rr_cap;
use crate::ranking_rules::rr_is_last_words;
use crate::ranking_rules::rr_next_rel;
use crate::ranking_rules::rr_pending;
use crate::ranking_rules::rr_is_geo;
use crate::ranking_rules::rr_exhausted;
use crate::ranking_rules::rr_emitted;
use crate::ranking_rules::rr_graph_view;
use crate::ranking_rules::levels_cover;
use crate::query::graph_view;
use crate::words::Words;
use crate::words::words_next_ok;
use crate::geo_sort::GeoSort;
use crate::geo_sort::geo_next_ok;

verus! {

/// The driver's result: the paginated document ids with their scores, and
/// every document that survived as a candidate at any depth.
pub struct BucketSortOutput {
    pub docids: Vec<u32>,
    pub scores: Vec<Score>,
    pub all_candidates: RoaringBitmap,
}

/// How many documents of the result window are filled once `off`
/// documents have been flushed or skipped: the part of `[from, from +
/// length)` that `[0, off)` covers.
pub open spec fn window(length: int, off: int, from: int) -> int {
    if off <= from {
        0
    } else if off - from >= length {
        length
    } else {
        off - from
    }
}

/// The distinct table in force, empty when no distinct field is
/// configured (no document then has a value, so no two share one).
pub open spec fn dpairs(distinct: Option<&DistinctIndex>) -> Seq<(u32, u64)> {
    match distinct {
        None => Seq::empty(),
        Some(d) => d.pairs@,
    }
}

/// No entry of `docs` shares a distinct value with any member of `s`.
pub open spec fn no_clash(
    distinct: Option<&DistinctIndex>,
    docs: Seq<u32>,
    s: Set<u32>,
) -> bool {
    forall|i: int, c: u32|
        0 <= i < docs.len() && #[trigger] s.contains(c) ==> !same_value(
            dpairs(distinct),
            #[trigger] docs[i],
            c,
        )
}

/// No two entries of `docs` share a distinct value.
pub open spec fn docs_distinct_ok(distinct: Option<&DistinctIndex>, docs: Seq<u32>) -> bool {
    forall|i: int, j: int|
        0 <= i < docs.len() && 0 <= j < docs.len() && i != j ==> !same_value(
            dpairs(distinct),
            #[trigger] docs[i],
            #[trigger] docs[j],
        )
}

/// Every entry of `docs` lies in `u0`.
pub open spec fn in_u0(docs: Seq<u32>, u0: Set<u32>) -> bool {
    forall|i: int| 0 <= i < docs.len() ==> u0.contains(#[trigger] docs[i])
}

/// Lexicographic tail of the driver's termination measure: 1 while the
/// search is running, 0 once the root rule has finished.
pub open spec fn run_flag(b: bool) -> int {
    if b {
        1
    } else {
        0
    }
}

/// The union of the rules' remaining sub-universes.
pub open spec fn univ_union(univs: Seq<RoaringBitmap>) -> Set<u32> {
    Set::new(
        |c: u32|
            exists|j: int|
                0 <= j < univs.len() && #[trigger] docset_view(univs[j]).contains(c),
    )
}

/// The documents sharing a distinct value with some member of `kept`:
/// what the reducer excludes when `kept` are the representatives.
pub open spec fn value_mates(s: Seq<(u32, u64)>, kept: Set<u32>) -> Set<u32> {
    Set::new(|e: u32| exists|w: u32| kept.contains(w) && #[trigger] same_value(s, w, e))
}

/// Disjoint finite sets add their cardinalities under union.
proof fn lemma_disjoint_union_len<A>(s1: Set<A>, s2: Set<A>)
    requires
        s1.finite(),
        s2.finite(),
        s1.disjoint(s2),
    ensures
        s1.union(s2).finite(),
        s1.union(s2).len() == s1.len() + s2.len(),
    decreases s2.len(),
{
    if s2.len() == 0 {
        assert forall|x: A| !s2.contains(x) by {
            if s2.contains(x) {
                assert(s2.remove(x).len() == s2.len() - 1);
            }
        }
        assert(s1.union(s2) =~= s1);
    } else {
        let y = s2.choose();
        assert(s2.contains(y));
        assert(s1.union(s2).remove(y) =~= s1.union(s2.remove(y)));
        assert(s1.disjoint(s2.remove(y)));
        lemma_disjoint_union_len(s1, s2.remove(y));
        assert(s1.union(s2).contains(y));
        assert(s1.union(s2) == s1.union(s2.remove(y)).insert(y));
        assert(s1.union(s2).len() == s1.union(s2.remove(y)).len() + 1) by {
            assert(!s1.union(s2.remove(y)).contains(y));
        }
    }
}

/// Add the candidates to the results, taking the distinct rule, `from`,
/// `length` and `cur_offset` into account.
///
/// The ghost `u0` is the original universe, `processed` the documents
/// already counted against `cur_offset`, `no_last` whether the chain is
/// free of Last-strategy Words rules (in which case every score is 1/1).
/// Returns the updated processed set.
#[verifier::loop_isolation(false)]
fn maybe_add_to_results(
    from: usize,
    length: usize,
    valid_docids: &mut Vec<u32>,
    valid_scores: &mut Vec<Score>,
    all_candidates: &mut RoaringBitmap,
    ranking_rule_universes: &mut Vec<RoaringBitmap>,
    cur_offset: &mut u64,
    distinct: Option<&DistinctIndex>,
    candidates: RoaringBitmap,
    score: Score,
    Ghost(u0): Ghost<Set<u32>>,
    Ghost(processed): Ghost<Set<u32>>,
    Ghost(no_last): Ghost<bool>,
) -> (res: (Ghost<Set<u32>>, Ghost<Seq<u32>>))
    requires
        match distinct {
            Some(d) => d.wf(),
            None => true,
        },
        u0.finite(),
        u0.len() <= u64::MAX,
        docset_view(candidates).subset_of(u0),
        processed.subset_of(u0),
        processed.disjoint(docset_view(candidates)),
        *old(cur_offset) <= processed.len(),
        old(valid_docids)@.len() == old(valid_scores)@.len(),
        old(valid_docids)@.len() <= length,
        old(valid_docids)@.len() as int == window(
            length as int,
            *old(cur_offset) as int,
            from as int,
        ),
        old(valid_docids)@.no_duplicates(),
        in_u0(old(valid_docids)@, u0),
        forall|i: int|
            0 <= i < old(valid_docids)@.len() ==> !docset_view(candidates).contains(
                #[trigger] old(valid_docids)@[i],
            ),
        forall|j: int|
            0 <= j < old(ranking_rule_universes)@.len() ==> docset_view(
                #[trigger] old(ranking_rule_universes)@[j],
            ).subset_of(u0),
        forall|j: int|
            0 <= j < old(ranking_rule_universes)@.len() ==> processed.disjoint(
                docset_view(#[trigger] old(ranking_rule_universes)@[j]),
            ),
        forall|j: int|
            0 <= j < old(ranking_rule_universes)@.len() ==> docset_view(candidates).disjoint(
                docset_view(#[trigger] old(ranking_rule_universes)@[j]),
            ),
        forall|j: int, i: int|
            0 <= j < old(ranking_rule_universes)@.len() && 0 <= i < old(valid_docids)@.len()
                ==> !docset_view(#[trigger] old(ranking_rule_universes)@[j]).contains(
                #[trigger] old(valid_docids)@[i],
            ),
        docs_distinct_ok(distinct, old(valid_docids)@),
        no_clash(distinct, old(valid_docids)@, docset_view(candidates)),
        forall|j: int|
            0 <= j < old(ranking_rule_universes)@.len() ==> no_clash(
                distinct,
                old(valid_docids)@,
                docset_view(#[trigger] old(ranking_rule_universes)@[j]),
            ),
        forall|i: int|
            0 <= i < old(valid_docids)@.len() ==> docset_view(*old(all_candidates)).contains(
                #[trigger] old(valid_docids)@[i],
            ),
        docset_view(*old(all_candidates)).subset_of(u0),
        score_wf(score),
        forall|i: int| 0 <= i < old(valid_scores)@.len() ==> score_wf(#[trigger] old(valid_scores)@[i]),
        no_last ==> score == (Score { num: 1, den: 1 }),
        no_last ==> forall|i: int|
            0 <= i < old(valid_scores)@.len() ==> #[trigger] old(valid_scores)@[i] == (Score {
                num: 1,
                den: 1,
            }),
    ensures
        ({
            let nv = final(valid_docids)@;
            let ns = final(valid_scores)@;
            let pv = old(valid_docids)@;
            &&& nv.len() == ns.len()
            &&& nv.len() <= length
            &&& pv.len() <= nv.len()
            &&& nv.subrange(0, pv.len() as int) == pv
            &&& ns.subrange(0, pv.len() as int) == old(valid_scores)@
            &&& forall|i: int|
                pv.len() <= i < nv.len() ==> docset_view(candidates).contains(#[trigger] nv[i])
                    && ns[i] == score
            &&& nv.len() as int == window(length as int, *final(cur_offset) as int, from as int)
            &&& *final(cur_offset) >= *old(cur_offset)
            &&& nv.no_duplicates()
            &&& in_u0(nv, u0)
            &&& res.0@.subset_of(u0)
            &&& processed.subset_of(res.0@)
            &&& *final(cur_offset) <= res.0@.len()
            &&& final(ranking_rule_universes)@.len() == old(ranking_rule_universes)@.len()
            &&& forall|j: int|
                0 <= j < final(ranking_rule_universes)@.len() ==> docset_view(
                    #[trigger] final(ranking_rule_universes)@[j],
                ).subset_of(docset_view(old(ranking_rule_universes)@[j]))
            &&& forall|j: int|
                0 <= j < final(ranking_rule_universes)@.len() ==> res.0@.disjoint(
                    docset_view(#[trigger] final(ranking_rule_universes)@[j]),
                )
            &&& forall|j: int, i: int|
                0 <= j < final(ranking_rule_universes)@.len() && 0 <= i < nv.len()
                    ==> !docset_view(#[trigger] final(ranking_rule_universes)@[j]).contains(
                    #[trigger] nv[i],
                )
            &&& docs_distinct_ok(distinct, nv)
            &&& forall|j: int|
                0 <= j < final(ranking_rule_universes)@.len() ==> no_clash(
                    distinct,
                    nv,
                    docset_view(#[trigger] final(ranking_rule_universes)@[j]),
                )
            &&& forall|i: int|
                0 <= i < nv.len() ==> docset_view(*final(all_candidates)).contains(
                    #[trigger] nv[i],
                )
            &&& docset_view(*final(all_candidates)).subset_of(u0)
            &&& (distinct is None ==> docset_view(*final(all_candidates)) == docset_view(
                *old(all_candidates),
            ).union(docset_view(candidates)))
            &&& forall|i: int| 0 <= i < ns.len() ==> score_wf(#[trigger] ns[i])
            &&& (no_last ==> forall|i: int|
                0 <= i < ns.len() ==> #[trigger] ns[i] == (Score { num: 1, den: 1 }))
            &&& ({
                // `rs` is the reduced candidate sequence: the post-distinct
                // candidates in ascending id order. The bucket's exact
                // effect is stated over it.
                let rs = res.1@;
                let ofs = *old(cur_offset) as int;
                let kk = if ofs >= from as int {
                    0
                } else if from as int - ofs <= rs.len() as int {
                    from as int - ofs
                } else {
                    rs.len() as int
                };
                let mm = if rs.len() - kk <= length - pv.len() {
                    rs.len() - kk
                } else {
                    length as int - pv.len() as int
                };
                &&& strictly_sorted(rs)
                &&& rs.to_set().subset_of(docset_view(candidates))
                &&& (distinct is None ==> rs == docset_seq(candidates))
                &&& *final(cur_offset) == *old(cur_offset) + rs.len()
                &&& nv == pv + rs.subrange(kk, kk + mm)
                &&& ns == old(valid_scores)@ + Seq::new(mm as nat, |i: int| score)
                &&& res.0@ == processed.union(rs.to_set())
                &&& (distinct is None ==> forall|j: int|
                    0 <= j < final(ranking_rule_universes)@.len() ==> docset_view(
                        #[trigger] final(ranking_rule_universes)@[j],
                    ) == docset_view(old(ranking_rule_universes)@[j]))
                &&& (match distinct {
                    None => true,
                    Some(d) => {
                        let tbl = d.pairs@;
                        let excl = value_mates(tbl, rs.to_set());
                        &&& forall|c: u32|
                            #[trigger] docset_view(candidates).contains(c) && !has_val(tbl, c)
                                ==> rs.to_set().contains(c)
                        &&& forall|a: u32, b: u32|
                            rs.to_set().contains(a) && rs.to_set().contains(b) ==> !same_value(
                                tbl,
                                a,
                                b,
                            )
                        &&& forall|c: u32|
                            #[trigger] docset_view(candidates).contains(c) && !rs.to_set().contains(
                                c,
                            ) ==> exists|w: u32|
                                rs.to_set().contains(w) && w < c && #[trigger] same_value(
                                    tbl,
                                    w,
                                    c,
                                )
                        &&& forall|j: int|
                            0 <= j < final(ranking_rule_universes)@.len() ==> docset_view(
                                #[trigger] final(ranking_rule_universes)@[j],
                            ) == docset_view(old(ranking_rule_universes)@[j]).difference(excl)
                        &&& docset_view(*final(all_candidates)) == docset_view(
                            *old(all_candidates),
                        ).difference(excl).union(rs.to_set())
                    },
                })
            })
        }),
{
    let ghost pre_cand = docset_view(candidates);
    let ghost pv = valid_docids@;
    // 1. distinct reduction, shrinking the universes if necessary
    let (candidates, exc_g): (RoaringBitmap, Ghost<Set<u32>>) = match distinct {
        Some(d) => {
            let (remaining, excluded) = d.apply_distinct_rule(&candidates);
            let ghost exc = docset_view(excluded);
            let mut j: usize = 0;
            while j < ranking_rule_universes.len()
                invariant
                    0 <= j <= ranking_rule_universes@.len(),
                    ranking_rule_universes@.len() == old(ranking_rule_universes)@.len(),
                    forall|k: int|
                        j <= k < ranking_rule_universes@.len()
                            ==> #[trigger] ranking_rule_universes@[k] == old(
                            ranking_rule_universes,
                        )@[k],
                    forall|k: int|
                        0 <= k < j ==> docset_view(#[trigger] ranking_rule_universes@[k])
                            == docset_view(old(ranking_rule_universes)@[k]).difference(exc),
                decreases ranking_rule_universes@.len() - j,
            {
                let u = &mut ranking_rule_universes[j];
                docset_sub_assign(u, &excluded);
                j += 1;
            }
            docset_sub_assign(all_candidates, &excluded);
            proof {
                // nothing already emitted is excluded: an excluded document
                // shares its value with a kept representative, which is a
                // candidate, and emitted documents clash with no candidate
                assert forall|i: int| 0 <= i < pv.len() implies !exc.contains(
                    #[trigger] pv[i],
                ) by {
                    if exc.contains(pv[i]) {
                        let w = choose|w: u32|
                            docset_view(remaining).contains(w) && #[trigger] same_value(
                                d.pairs@,
                                w,
                                pv[i],
                            );
                        assert(pre_cand.contains(w));
                        assert(same_value(d.pairs@, pv[i], w));
                    }
                }
            }
            proof {
                assert forall|i: int| 0 <= i < pv.len() implies docset_view(
                    *all_candidates,
                ).contains(#[trigger] pv[i]) by {
                    assert(!exc.contains(pv[i]));
                }
            }
            proof {
                // the reducer's exclusion set is exactly the value mates of
                // the kept representatives
                assert(exc =~= value_mates(d.pairs@, docset_view(remaining))) by {
                    assert forall|e: u32| exc.contains(e) implies value_mates(
                        d.pairs@,
                        docset_view(remaining),
                    ).contains(e) by {}
                    assert forall|e: u32|
                        value_mates(d.pairs@, docset_view(remaining)).contains(e)
                        implies exc.contains(e) by {
                        let w = choose|w: u32|
                            docset_view(remaining).contains(w) && #[trigger] same_value(
                                d.pairs@,
                                w,
                                e,
                            );
                    }
                }
            }
            (remaining, Ghost(exc))
        },
        None => (candidates, Ghost(Set::empty())),
    };
    let ghost exc = exc_g@;
    let ghost cand = docset_view(candidates);
    let ghost rs = docset_seq(candidates);
    proof {
        assert(cand.subset_of(pre_cand));
    }
    docset_or_assign(all_candidates, &candidates);
    proof {
        lemma_view_finite(candidates);
        lemma_len_subset(cand, u0);
        assert forall|i: int| 0 <= i < pv.len() implies docset_view(*all_candidates).contains(
            #[trigger] pv[i],
        ) by {}
    }
    // 2. if the candidates are empty, there is nothing to do
    if docset_is_empty(&candidates) {
        proof {
            assert(final(valid_docids)@.subrange(0, pv.len() as int) =~= pv);
            assert(final(valid_scores)@.subrange(0, pv.len() as int) =~= old(valid_scores)@);
            assert(final(valid_docids)@ =~= pv + rs.subrange(0, 0));
            assert(final(valid_scores)@ =~= old(valid_scores)@ + Seq::new(
                0,
                |i: int| score,
            ));
            assert(processed =~= processed.union(rs.to_set())) by {
                assert forall|c: u32| rs.to_set().contains(c) implies processed.contains(c) by {
                    let j = choose|j: int| 0 <= j < rs.len() && rs[j] == c;
                }
            }
        }
        return (Ghost(processed), Ghost(rs));
    }
    // 3. pagination accounting
    let clen = docset_len(&candidates);
    proof {
        lemma_disjoint_union_len(processed, cand);
        lemma_len_subset(processed.union(cand), u0);
    }
    let skip64: u64 = if *cur_offset < from as u64 {
        from as u64 - *cur_offset
    } else {
        0
    };
    let cand_vec = docset_to_vec(&candidates);
    proof {
        lemma_sorted_len(cand_vec@);
    }
    let k0: usize = if skip64 >= cand_vec.len() as u64 {
        cand_vec.len()
    } else {
        skip64 as usize
    };
    let mut k: usize = k0;
    let ghost n0 = pv.len() as int;
    while k < cand_vec.len() && valid_docids.len() < length
        invariant
            k0 <= k <= cand_vec@.len(),
            valid_docids@.len() == valid_scores@.len(),
            valid_docids@.len() <= length,
            valid_docids@.len() as int == n0 + (k - k0),
            valid_docids@.subrange(0, n0) == pv,
            valid_scores@.subrange(0, n0) == old(valid_scores)@,
            forall|i: int|
                n0 <= i < valid_docids@.len() ==> #[trigger] valid_docids@[i] == cand_vec@[k0 + (i
                    - n0)],
            forall|i: int|
                n0 <= i < valid_docids@.len() ==> #[trigger] valid_scores@[i] == score,
            valid_docids@.no_duplicates(),
        decreases cand_vec@.len() - k,
    {
        let d = cand_vec[k];
        proof {
            assert(cand.contains(d));
            assert forall|i: int| 0 <= i < valid_docids@.len() implies #[trigger] valid_docids@[i]
                != d by {
                if i < n0 {
                    assert(pre_cand.contains(d));
                    assert(valid_docids@[i] == pv[i]);
                } else {
                    assert(valid_docids@[i] == cand_vec@[k0 + (i - n0)]);
                    assert(k0 + (i - n0) < k);
                }
            }
        }
        valid_docids.push(d);
        valid_scores.push(score);
        proof {
            assert(valid_docids@.subrange(0, n0) =~= pv);
            assert(valid_scores@.subrange(0, n0) =~= old(valid_scores)@);
            assert(valid_docids@[valid_docids@.len() - 1] == d);
            assert(valid_scores@[valid_scores@.len() - 1] == score);
        }
        k += 1;
    }
    *cur_offset = *cur_offset + clen;
    let ghost new_p = processed.union(cand);
    proof {
        // the window equation advances exactly by the candidate count
        let offi = *old(cur_offset) as int;
        let c = clen as int;
        let fr = from as int;
        let le = length as int;
        assert(cand_vec@.len() as int == c);
        if offi >= fr {
            assert(skip64 == 0);
        } else {
            assert(skip64 as int == fr - offi);
        }
        assert(valid_docids@.len() as int == window(le, offi + c, fr));
        assert forall|j: int|
            0 <= j < final(ranking_rule_universes)@.len() implies new_p.disjoint(
            docset_view(#[trigger] final(ranking_rule_universes)@[j]),
        ) by {
            assert(docset_view(final(ranking_rule_universes)@[j]).subset_of(
                docset_view(old(ranking_rule_universes)@[j]),
            ));
        }
        let nv = final(valid_docids)@;
        assert forall|i: int| 0 <= i < n0 implies #[trigger] nv[i] == pv[i] by {
            assert(nv[i] == nv.subrange(0, n0)[i]);
        }
        assert forall|i: int| 0 <= i < n0 implies #[trigger] final(valid_scores)@[i] == old(
            valid_scores,
        )@[i] by {
            assert(final(valid_scores)@[i] == final(valid_scores)@.subrange(0, n0)[i]);
        }
        assert forall|i: int| n0 <= i < nv.len() implies cand.contains(#[trigger] nv[i]) by {
            assert(nv[i] == cand_vec@[k0 + (i - n0)]);
            assert(cand_vec@.to_set().contains(cand_vec@[k0 + (i - n0)]));
        }
        // every appended document is a kept candidate, so it clashes with
        // no remaining universe member and with no other result entry
        assert forall|j: int, i: int|
            0 <= j < final(ranking_rule_universes)@.len() && 0 <= i < nv.len()
            implies !docset_view(#[trigger] final(ranking_rule_universes)@[j]).contains(
            #[trigger] nv[i],
        ) by {
            let uj = docset_view(final(ranking_rule_universes)@[j]);
            assert(uj.subset_of(docset_view(old(ranking_rule_universes)@[j])));
            if i < n0 {
                assert(nv[i] == pv[i]);
            } else {
                assert(cand.contains(nv[i]));
                assert(pre_cand.contains(nv[i]));
            }
        }
        assert(docs_distinct_ok(distinct, nv)) by {
            assert forall|i: int, j: int|
                0 <= i < nv.len() && 0 <= j < nv.len() && i != j implies !same_value(
                dpairs(distinct),
                #[trigger] nv[i],
                #[trigger] nv[j],
            ) by {
                match distinct {
                    Some(d) => {
                        if i < n0 && j < n0 {
                        } else if i < n0 {
                            assert(pre_cand.contains(nv[j]));
                            assert(!same_value(d.pairs@, nv[i], nv[j]));
                        } else if j < n0 {
                            assert(pre_cand.contains(nv[i]));
                            assert(!same_value(d.pairs@, nv[j], nv[i]));
                        } else {
                            assert(cand.contains(nv[i]) && cand.contains(nv[j]));
                        }
                    },
                    None => {},
                }
            }
        }
        assert forall|j: int|
            0 <= j < final(ranking_rule_universes)@.len() implies no_clash(
            distinct,
            nv,
            docset_view(#[trigger] final(ranking_rule_universes)@[j]),
        ) by {
            let uj = docset_view(final(ranking_rule_universes)@[j]);
            assert forall|i: int, c: u32|
                0 <= i < nv.len() && #[trigger] uj.contains(c) implies !same_value(
                dpairs(distinct),
                #[trigger] nv[i],
                c,
            ) by {
                assert(docset_view(old(ranking_rule_universes)@[j]).contains(c));
                match distinct {
                    Some(d) => {
                        if i < n0 {
                            assert(nv[i] == pv[i]);
                        } else {
                            // c survived the exclusion, so it cannot share
                            // a value with the kept candidate nv[i]
                            assert(cand.contains(nv[i]));
                            if same_value(d.pairs@, nv[i], c) {
                                assert(exc.contains(c));
                                assert(docset_view(final(ranking_rule_universes)@[j])
                                    == docset_view(old(ranking_rule_universes)@[j]).difference(
                                    exc,
                                ));
                            }
                        }
                    },
                    None => {},
                }
            }
        }
    }
    proof {
        assert(rs == cand_vec@);
        assert(final(valid_docids)@ =~= pv + rs.subrange(k0 as int, k as int));
        assert(final(valid_scores)@ =~= old(valid_scores)@ + Seq::new(
            (k - k0) as nat,
            |i: int| score,
        ));
        assert(new_p =~= processed.union(rs.to_set()));
    }
    (Ghost(new_p), Ghost(rs))
}

/// The bound a rule can declare for a query of at most `qcap` levels,
/// keyed by whether it is a Last-strategy Words rule.
pub open spec fn cap_of(last: bool, qcap: nat) -> nat {
    if last {
        qcap + 1
    } else {
        1
    }
}

/// The product of the bucket-count bounds of the rules from `j` on.
pub open spec fn caps_from(flags: Seq<bool>, j: int, qcap: nat) -> nat
    decreases flags.len() - j,
{
    if j < 0 || j >= flags.len() {
        1
    } else {
        cap_of(flags[j], qcap) * caps_from(flags, j + 1, qcap)
    }
}

/// The product of the bucket-count bounds of the whole chain: when it fits
/// in `u64`, every global bucket count of the search does.
pub open spec fn chain_cap(rules: Seq<RankingRule>, qcap: nat) -> nat {
    caps_from(rules.map(|i: int, r: RankingRule| rr_is_last_words(r)), 0, qcap)
}

proof fn lemma_caps_pos(flags: Seq<bool>, j: int, qcap: nat)
    ensures
        caps_from(flags, j, qcap) >= 1,
    decreases flags.len() - j,
{
    if 0 <= j < flags.len() {
        lemma_caps_pos(flags, j + 1, qcap);
        assert(cap_of(flags[j], qcap) * caps_from(flags, j + 1, qcap) >= 1) by (nonlinear_arith)
            requires
                cap_of(flags[j], qcap) >= 1,
                caps_from(flags, j + 1, qcap) >= 1,
        ;
    }
}

/// The work a rule may still do on its sub-universe: pending relaxation
/// steps for Words, remaining sub-universe members for geo-sort.
pub open spec fn rr_measure(r: RankingRule, u: Set<u32>) -> nat {
    match r {
        RankingRule::Words(_) => rr_pending(r),
        RankingRule::Geo(_) => u.len(),
    }
}

pub open spec fn powb(b: nat, e: nat) -> nat
    decreases e,
{
    if e == 0 {
        1
    } else {
        b * powb(b, (e - 1) as nat)
    }
}

proof fn lemma_powb_pos(b: nat, e: nat)
    requires
        b >= 1,
    ensures
        powb(b, e) >= 1,
    decreases e,
{
    if e > 0 {
        lemma_powb_pos(b, (e - 1) as nat);
        assert(b * powb(b, (e - 1) as nat) >= 1) by (nonlinear_arith)
            requires
                b >= 1,
                powb(b, (e - 1) as nat) >= 1,
        ;
    }
}

/// The driver's termination potential: the rules' remaining work, weighted
/// so that one step of a rule outweighs everything its descendants can do.
pub open spec fn phi(rules: Seq<RankingRule>, univs: Seq<RoaringBitmap>, j: int, b: nat) -> nat
    decreases rules.len() - j,
{
    if j < 0 || j >= rules.len() {
        0
    } else {
        rr_measure(rules[j], docset_view(univs[j])) * powb(b, (rules.len() - 1 - j) as nat) + phi(
            rules,
            univs,
            j + 1,
            b,
        )
    }
}

proof fn lemma_phi_le(
    r1: Seq<RankingRule>,
    u1: Seq<RoaringBitmap>,
    r2: Seq<RankingRule>,
    u2: Seq<RoaringBitmap>,
    j: int,
    b: nat,
)
    requires
        r1.len() == r2.len(),
        u1.len() == r1.len(),
        u2.len() == r2.len(),
        b >= 1,
        forall|i: int|
            j <= i < r1.len() ==> rr_measure(#[trigger] r2[i], docset_view(u2[i])) <= rr_measure(
                r1[i],
                docset_view(u1[i]),
            ),
    ensures
        phi(r2, u2, j, b) <= phi(r1, u1, j, b),
    decreases r1.len() - j,
{
    if 0 <= j < r1.len() {
        lemma_phi_le(r1, u1, r2, u2, j + 1, b);
        let p = powb(b, (r1.len() - 1 - j) as nat);
        assert(rr_measure(r2[j], docset_view(u2[j])) * p <= rr_measure(r1[j], docset_view(u1[j]))
            * p) by (nonlinear_arith)
            requires
                rr_measure(r2[j], docset_view(u2[j])) <= rr_measure(r1[j], docset_view(u1[j])),
                p >= 0,
        ;
    } else if j < 0 {
        lemma_phi_le(r1, u1, r2, u2, 0, b);
    }
}

/// The potential drops when the active rule's work strictly decreases and
/// no rule's work grows.
proof fn lemma_phi_dec(
    r1: Seq<RankingRule>,
    u1: Seq<RoaringBitmap>,
    r2: Seq<RankingRule>,
    u2: Seq<RoaringBitmap>,
    j: int,
    cur: int,
    b: nat,
)
    requires
        r1.len() == r2.len(),
        u1.len() == r1.len(),
        u2.len() == r2.len(),
        b >= 1,
        0 <= j <= cur < r1.len(),
        forall|i: int|
            j <= i < r1.len() ==> rr_measure(#[trigger] r2[i], docset_view(u2[i])) <= rr_measure(
                r1[i],
                docset_view(u1[i]),
            ),
        rr_measure(r2[cur], docset_view(u2[cur])) < rr_measure(r1[cur], docset_view(u1[cur])),
    ensures
        phi(r2, u2, j, b) < phi(r1, u1, j, b),
    decreases cur - j,
{
    let p = powb(b, (r1.len() - 1 - j) as nat);
    lemma_powb_pos(b, (r1.len() - 1 - j) as nat);
    if j == cur {
        lemma_phi_le(r1, u1, r2, u2, j + 1, b);
        assert(rr_measure(r2[j], docset_view(u2[j])) * p + p <= rr_measure(
            r1[j],
            docset_view(u1[j]),
        ) * p) by (nonlinear_arith)
            requires
                rr_measure(r2[j], docset_view(u2[j])) < rr_measure(r1[j], docset_view(u1[j])),
                p >= 1,
        ;
    } else {
        lemma_phi_dec(r1, u1, r2, u2, j + 1, cur, b);
        assert(rr_measure(r2[j], docset_view(u2[j])) * p <= rr_measure(r1[j], docset_view(u1[j]))
            * p) by (nonlinear_arith)
            requires
                rr_measure(r2[j], docset_view(u2[j])) <= rr_measure(r1[j], docset_view(u1[j])),
                p >= 0,
        ;
    }
}

/// The potential drops on descent: the parent gives up one unit of work,
/// which outweighs whatever the child's fresh iteration can do.
proof fn lemma_phi_desc(
    r1: Seq<RankingRule>,
    u1: Seq<RoaringBitmap>,
    r2: Seq<RankingRule>,
    u2: Seq<RoaringBitmap>,
    j: int,
    cur: int,
    b: nat,
)
    requires
        r1.len() == r2.len(),
        u1.len() == r1.len(),
        u2.len() == r2.len(),
        b >= 1,
        0 <= j <= cur,
        cur + 1 < r1.len(),
        forall|i: int|
            j <= i < r1.len() && i != cur + 1 ==> rr_measure(
                #[trigger] r2[i],
                docset_view(u2[i]),
            ) <= rr_measure(r1[i], docset_view(u1[i])),
        rr_measure(r2[cur], docset_view(u2[cur])) < rr_measure(r1[cur], docset_view(u1[cur])),
        rr_measure(r2[cur + 1], docset_view(u2[cur + 1])) <= b - 1,
    ensures
        phi(r2, u2, j, b) < phi(r1, u1, j, b),
    decreases cur - j,
{
    if j == cur {
        let e1 = (r1.len() - 2 - cur) as nat;
        let p1 = powb(b, e1);
        let p = powb(b, (e1 + 1) as nat);
        lemma_powb_pos(b, e1);
        assert(p == b * p1);
        lemma_phi_le(r1, u1, r2, u2, cur + 2, b);
        let m1 = rr_measure(r1[cur], docset_view(u1[cur]));
        let m2 = rr_measure(r2[cur], docset_view(u2[cur]));
        let mc = rr_measure(r2[cur + 1], docset_view(u2[cur + 1]));
        assert(phi(r2, u2, cur + 1, b) == mc * p1 + phi(r2, u2, cur + 2, b));
        assert(phi(r1, u1, cur, b) == m1 * p + phi(r1, u1, cur + 1, b));
        assert(phi(r1, u1, cur + 1, b) >= phi(r1, u1, cur + 2, b)) by {
            assert(rr_measure(r1[cur + 1], docset_view(u1[cur + 1])) * p1 >= 0);
        }
        assert(m2 * p + mc * p1 < m1 * p) by (nonlinear_arith)
            requires
                m2 < m1,
                mc <= b - 1,
                p == b * p1,
                p1 >= 1,
        ;
    } else {
        let p = powb(b, (r1.len() - 1 - j) as nat);
        lemma_phi_desc(r1, u1, r2, u2, j + 1, cur, b);
        assert(rr_measure(r2[j], docset_view(u2[j])) * p <= rr_measure(r1[j], docset_view(u1[j]))
            * p) by (nonlinear_arith)
            requires
                rr_measure(r2[j], docset_view(u2[j])) <= rr_measure(r1[j], docset_view(u1[j])),
                p >= 0,
        ;
    }
}

/// Removing a non-empty subset strictly shrinks a finite set.
proof fn lemma_diff_strict<A>(u: Set<A>, a: Set<A>)
    requires
        u.finite(),
        a.subset_of(u),
        !a.is_empty(),
    ensures
        u.difference(a).len() < u.len(),
{
    let x = a.choose();
    assert(a.contains(x));
    assert(u.difference(a).subset_of(u.remove(x)));
    lemma_len_subset(u.difference(a), u.remove(x));
    assert(u.remove(x).len() == u.len() - 1);
}

/// With no rules and no distinct field: the universe in ascending id
/// order, sliced to the window `[from, from + length)`, every document at
/// score 1/1.
fn sort_no_rules(universe: &RoaringBitmap, from: usize, length: usize) -> (out: BucketSortOutput)
    ensures
        ({
            let u = docset_seq(*universe);
            let n = u.len() as int;
            let lo = if from as int <= n { from as int } else { n };
            let hi = if from as int + length as int <= n { from as int + length as int } else { n };
            &&& out.docids@ == u.subrange(lo, hi)
            &&& out.scores@.len() == out.docids@.len()
            &&& forall|i: int|
                0 <= i < out.scores@.len() ==> #[trigger] out.scores@[i] == (Score {
                    num: 1,
                    den: 1,
                })
            &&& docset_view(out.all_candidates) == docset_view(*universe)
            &&& out.docids@.no_duplicates()
            &&& in_u0(out.docids@, docset_view(*universe))
            &&& out.docids@.len() as int == window(length as int, n, from as int)
        }),
{
    let all = docset_to_vec(universe);
    proof {
        lemma_sorted_len(all@);
    }
    let n = all.len();
    let mut docids: Vec<u32> = Vec::new();
    let mut scores: Vec<Score> = Vec::new();
    let mut i: usize = from;
    if i > n {
        i = n;
    }
    let ghost lo = i as int;
    while i < n && docids.len() < length
        invariant
            0 <= lo <= i <= n,
            n == all@.len(),
            strictly_sorted(all@),
            all@.to_set() == docset_view(*universe),
            docids@.len() == i - lo,
            docids@.len() == scores@.len(),
            docids@.len() <= length,
            docids@ == all@.subrange(lo, i as int),
            forall|k: int| 0 <= k < scores@.len() ==> #[trigger] scores@[k] == (Score { num: 1, den: 1 }),
        decreases n - i,
    {
        docids.push(all[i]);
        scores.push(Score::one());
        proof {
            assert(docids@ =~= all@.subrange(lo, i + 1));
        }
        i += 1;
    }
    proof {
        let u = all@;
        assert(docids@.no_duplicates()) by {
            assert(forall|k1: int, k2: int|
                0 <= k1 < k2 < docids@.len() ==> #[trigger] docids@[k1] != #[trigger] docids@[k2]);
        }
        assert forall|k: int| 0 <= k < docids@.len() implies docset_view(*universe).contains(
            #[trigger] docids@[k],
        ) by {
            assert(docids@[k] == u[lo + k]);
            assert(u.to_set().contains(u[lo + k]));
        }
        let fromi = from as int;
        let ni = u.len() as int;
        let hi = if fromi + length as int <= ni {
            fromi + length as int
        } else {
            ni
        };
        assert(docids@ =~= u.subrange(if fromi <= ni { fromi } else { ni }, hi));
    }
    BucketSortOutput { docids, scores, all_candidates: docset_clone(universe) }
}

/// With no rules and a distinct field: walk the universe in ascending id
/// order, keep each document not yet excluded and exclude every other
/// document sharing its distinct value, until `from + length` documents
/// are kept. Every kept document scores 1/1.
fn sort_no_rules_distinct(
    universe: &RoaringBitmap,
    from: usize,
    length: usize,
    d: &DistinctIndex,
) -> (out: BucketSortOutput)
    requires
        d.wf(),
    ensures
        ({
            let u0 = docset_view(*universe);
            let r = out.docids@;
            &&& out.scores@.len() == r.len()
            &&& forall|i: int|
                0 <= i < out.scores@.len() ==> #[trigger] out.scores@[i] == (Score {
                    num: 1,
                    den: 1,
                })
            &&& r.len() as int <= from as int + length as int
            &&& r.no_duplicates()
            &&& in_u0(r, u0)
            &&& docs_distinct_ok(Some(d), r)
            &&& forall|i: int|
                0 <= i < r.len() ==> docset_view(out.all_candidates).contains(#[trigger] r[i])
            &&& docset_view(out.all_candidates).subset_of(u0)
            &&& strictly_sorted(r)
            &&& forall|c: u32|
                #[trigger] u0.contains(c) && !r.to_set().contains(c) ==> (exists|w: u32|
                    r.to_set().contains(w) && w < c && #[trigger] same_value(d.pairs@, w, c)) || (
                r.len() as int == from as int + length as int && (r.len() == 0 || c > r[r.len()
                    - 1]))
            &&& docset_view(out.all_candidates) == u0.difference(
                value_mates(d.pairs@, r.to_set()),
            ).union(r.to_set())
        }),
{
    let ghost s = d.pairs@;
    let ghost u0 = docset_view(*universe);
    let all = docset_to_vec(universe);
    proof {
        lemma_sorted_len(all@);
    }
    let n = all.len();
    let mut excluded = docset_new();
    let mut results: Vec<u32> = Vec::new();
    let mut scores: Vec<Score> = Vec::new();
    let mut i: usize = 0;
    while i < n && (results.len() as u128) < from as u128 + length as u128
        invariant
            0 <= i <= n,
            n == all@.len(),
            strictly_sorted(all@),
            all@.to_set() == u0,
            d.wf(),
            s == d.pairs@,
            results@.len() == scores@.len(),
            results@.len() as int <= from as int + length as int,
            forall|k: int| 0 <= k < scores@.len() ==> #[trigger] scores@[k] == (Score { num: 1, den: 1 }),
            strictly_sorted(results@),
            results@.len() > 0 && i < n ==> results@[results@.len() - 1] < all@[i as int],
            results@.no_duplicates(),
            in_u0(results@, u0),
            docs_distinct_ok(Some(d), results@),
            forall|j: int|
                0 <= j < i && !results@.to_set().contains(#[trigger] all@[j]) ==> exists|w: u32|
                    results@.to_set().contains(w) && w < all@[j] && #[trigger] same_value(
                        s,
                        w,
                        all@[j],
                    ),
            forall|k: int|
                0 <= k < results@.len() ==> !docset_view(excluded).contains(#[trigger] results@[k]),
            forall|e: u32|
                docset_view(excluded).contains(e) ==> exists|k: int|
                    0 <= k < results@.len() && mates_of(s, #[trigger] results@[k]).contains(e),
            forall|k: int|
                0 <= k < results@.len() ==> mates_of(s, #[trigger] results@[k]).subset_of(
                    docset_view(excluded),
                ),
        decreases n - i,
    {
        let docid = all[i];
        let ghost exc0 = docset_view(excluded);
        let ghost res0 = results@;
        if !docset_contains(&excluded, docid) {
            d.distinct_single_docid(docid, &mut excluded);
            results.push(docid);
            scores.push(Score::one());
            proof {
                assert(all@.to_set().contains(all@[i as int]));
                assert forall|k: int| 0 <= k < results@.len()
                    implies !docset_view(excluded).contains(#[trigger] results@[k]) by {
                    if k < res0.len() {
                        assert(results@[k] == res0[k]);
                        if mates_of(s, docid).contains(res0[k]) {
                            assert(same_value(s, docid, res0[k]));
                            assert(mates_of(s, res0[k]).contains(docid));
                            assert(exc0.contains(docid));
                        }
                    } else {
                        assert(results@[k] == docid);
                        if mates_of(s, docid).contains(docid) {
                        }
                    }
                }
                assert(docs_distinct_ok(Some(d), results@)) by {
                    assert forall|a: int, bb: int|
                        0 <= a < results@.len() && 0 <= bb < results@.len() && a != bb
                        implies !same_value(s, #[trigger] results@[a], #[trigger] results@[bb]) by {
                        if a < res0.len() && bb < res0.len() {
                        } else if a < res0.len() {
                            if same_value(s, results@[a], docid) {
                                assert(mates_of(s, res0[a]).contains(docid));
                                assert(exc0.contains(docid));
                            }
                        } else if bb < res0.len() {
                            if same_value(s, docid, results@[bb]) {
                                assert(mates_of(s, res0[bb]).contains(docid));
                                assert(exc0.contains(docid));
                            }
                        }
                    }
                }
                assert(strictly_sorted(results@)) by {
                    assert forall|k1: int, k2: int|
                        0 <= k1 < k2 < results@.len() implies results@[k1] < results@[k2] by {
                        if k2 == results@.len() - 1 {
                            assert(results@[k1] == res0[k1]);
                            if res0.len() > 1 && k1 < res0.len() - 1 {
                                assert(res0[k1] < res0[res0.len() - 1]);
                            }
                        }
                    }
                }
                assert(results@.no_duplicates());
                if i + 1 < n {
                    assert(all@[i as int] < all@[i + 1]);
                }
                assert forall|e: u32| docset_view(excluded).contains(e) implies exists|k: int|
                    0 <= k < results@.len() && mates_of(s, #[trigger] results@[k]).contains(e) by {
                    if exc0.contains(e) {
                        let k = choose|k: int|
                            0 <= k < res0.len() && mates_of(s, #[trigger] res0[k]).contains(e);
                        assert(results@[k] == res0[k]);
                        assert(mates_of(s, results@[k]).contains(e));
                    } else {
                        assert(mates_of(s, docid).contains(e));
                        assert(results@[results@.len() - 1] == docid);
                        assert(mates_of(s, results@[results@.len() - 1]).contains(e));
                    }
                }
                assert(results@.to_set().contains(all@[i as int])) by {
                    assert(results@[results@.len() - 1] == docid);
                }
            }
        } else {
            proof {
                // the skipped document was excluded by an earlier, hence
                // smaller, kept representative
                let k = choose|k: int|
                    0 <= k < results@.len() && mates_of(s, #[trigger] results@[k]).contains(docid);
                assert(results@.to_set().contains(results@[k]));
                assert(results@[k] <= results@[results@.len() - 1]);
                assert(results@[results@.len() - 1] < all@[i as int]);
                assert(same_value(s, results@[k], docid));
                assert(exists|w: u32|
                    results@.to_set().contains(w) && w < all@[i as int] && #[trigger] same_value(
                        s,
                        w,
                        all@[i as int],
                    ));
            }
        }
        proof {
            assert forall|j: int|
                0 <= j < i + 1 && !results@.to_set().contains(#[trigger] all@[j])
                implies exists|w: u32|
                results@.to_set().contains(w) && w < all@[j] && #[trigger] same_value(
                    s,
                    w,
                    all@[j],
                ) by {
                if j < i {
                    assert forall|w: u32| res0.to_set().contains(w)
                        implies results@.to_set().contains(w) by {
                        let k = choose|k: int| 0 <= k < res0.len() && #[trigger] res0[k] == w;
                        assert(results@[k] == res0[k]);
                        assert(results@.to_set().contains(results@[k]));
                    }
                }
            }
        }
        i += 1;
    }
    let ghost iend = i as int;
    let ghost excv = docset_view(excluded);
    let mut all_candidates = docset_clone(universe);
    docset_sub_assign(&mut all_candidates, &excluded);
    let mut k: usize = 0;
    proof {
        assert(docset_view(all_candidates) =~= u0.difference(excv).union(
            results@.take(0).to_set(),
        ));
    }
    while k < results.len()
        invariant
            0 <= k <= results@.len(),
            excv == docset_view(excluded),
            docset_view(all_candidates) == u0.difference(excv).union(
                results@.take(k as int).to_set(),
            ),
        decreases results@.len() - k,
    {
        let r = results[k];
        docset_insert(&mut all_candidates, r);
        proof {
            assert(docset_view(all_candidates) =~= u0.difference(excv).union(
                results@.take(k + 1).to_set(),
            )) by {
                assert(results@.take(k + 1)[k as int] == results@[k as int]);
                assert(results@.take(k + 1).to_set().contains(results@[k as int]));
                assert forall|x: u32| results@.take(k + 1).to_set().contains(x)
                    && x != results@[k as int] implies results@.take(k as int).to_set().contains(
                    x,
                ) by {
                    let j = choose|j: int|
                        0 <= j < k + 1 && #[trigger] results@.take(k + 1)[j] == x;
                    assert(results@.take(k as int)[j] == x);
                }
                assert forall|x: u32| results@.take(k as int).to_set().contains(x)
                    implies results@.take(k + 1).to_set().contains(x) by {
                    let j = choose|j: int|
                        0 <= j < k && #[trigger] results@.take(k as int)[j] == x;
                    assert(results@.take(k + 1)[j] == x);
                }
            }
        }
        k += 1;
    }
    proof {
        assert(results@.take(results@.len() as int) =~= results@);
        // the accumulated exclusions are exactly the value mates of the
        // kept representatives
        assert(excv =~= value_mates(s, results@.to_set())) by {
            assert forall|e: u32| excv.contains(e) implies value_mates(
                s,
                results@.to_set(),
            ).contains(e) by {
                let k2 = choose|k2: int|
                    0 <= k2 < results@.len() && mates_of(s, #[trigger] results@[k2]).contains(e);
                assert(results@.to_set().contains(results@[k2]));
                assert(same_value(s, results@[k2], e));
            }
            assert forall|e: u32| value_mates(s, results@.to_set()).contains(e)
                implies excv.contains(e) by {
                let w = choose|w: u32|
                    results@.to_set().contains(w) && #[trigger] same_value(s, w, e);
                let k2 = choose|k2: int| 0 <= k2 < results@.len() && #[trigger] results@[k2] == w;
                assert(mates_of(s, results@[k2]).contains(e));
            }
        }
        assert forall|i2: int| 0 <= i2 < results@.len() implies docset_view(
            all_candidates,
        ).contains(#[trigger] results@[i2]) by {
            assert(results@.to_set().contains(results@[i2]));
        }
        assert forall|c: u32| docset_view(all_candidates).contains(c) implies u0.contains(c) by {
            if results@.to_set().contains(c) {
                let j = choose|j: int| 0 <= j < results@.len() && #[trigger] results@[j] == c;
            }
        }
        // completeness of the greedy walk over the whole universe
        assert forall|c: u32|
            u0.contains(c) && !results@.to_set().contains(c) implies (exists|w: u32|
            results@.to_set().contains(w) && w < c && #[trigger] same_value(s, w, c)) || (
        results@.len() as int == from as int + length as int && (results@.len() == 0 || c
            > results@[results@.len() - 1])) by {
            let j = choose|j: int| 0 <= j < all@.len() && #[trigger] all@[j] == c;
            if j < iend {
            } else {
                assert(iend < n);
                assert(results@.len() as int == from as int + length as int);
                if results@.len() > 0 {
                    assert(results@[results@.len() - 1] < all@[iend]);
                    assert(all@[iend] <= all@[j]);
                }
            }
        }
    }
    BucketSortOutput { docids: results, scores, all_candidates }
}

/// Sort the documents of `universe` by the rule chain, returning the ids
/// of the window `[from, from + length)` in relevance order, each with its
/// global bucket-position fraction as score, and the set of all documents
/// that survived as candidates at any depth.
///
/// With rules and no distinct field the result list never exceeds
/// `length`, holds no duplicate, stays within the universe, and carries
/// only scores in (0, 1]; when a distinct field is configured no two
/// returned documents share a distinct value. A rule that reports itself
/// exhausted while its sub-universe still holds documents drops those
/// documents from ranking — they are never emitted but remain in
/// `all_candidates`; when every Words rule's graph matches the whole
/// universe at each relaxation level, nothing is dropped and the result
/// fills the window `[from, from + length)` exactly.
///
/// A non-empty chain requires a query graph with at least one level: the
/// driver never inspects the query, but it hands it to every rule it
/// starts, and a Words rule resolves its first level. Rules that ignore
/// the query, such as the geo sort, merely carry it to their successors,
/// so a single empty level satisfies the bound for chains without Words.
#[verifier::loop_isolation(false)]
#[verifier::rlimit(60)]
pub fn bucket_sort(
    rules: Vec<RankingRule>,
    query: &QueryGraph,
    universe: &RoaringBitmap,
    from: usize,
    length: usize,
    distinct: Option<&DistinctIndex>,
) -> (out: BucketSortOutput)
    requires
        forall|i: int|
            0 <= i < rules@.len() ==> rr_inv(#[trigger] rules@[i]) && rr_ready(rules@[i]),
        rules@.len() > 0 ==> 1 <= query.levels@.len(),
        query.levels@.len() + 1 <= u64::MAX,
        chain_cap(rules@, query.levels@.len() as nat) <= u64::MAX,
        match distinct {
            Some(d) => d.wf(),
            None => true,
        },
    ensures
        ({
            let u0 = docset_view(*universe);
            let r = out.docids@;
            &&& out.scores@.len() == r.len()
            &&& r.no_duplicates()
            &&& in_u0(r, u0)
            &&& forall|i: int|
                0 <= i < r.len() ==> docset_view(out.all_candidates).contains(#[trigger] r[i])
            &&& docset_view(out.all_candidates).subset_of(u0)
            &&& forall|i: int| 0 <= i < out.scores@.len() ==> score_wf(#[trigger] out.scores@[i])
            &&& docs_distinct_ok(distinct, r)
            &&& ((rules@.len() > 0 || distinct is None) ==> r.len() <= length)
            &&& ((forall|i: int| 0 <= i < rules@.len() ==> !rr_is_last_words(#[trigger] rules@[i]))
                ==> (forall|i: int|
                0 <= i < out.scores@.len() ==> #[trigger] out.scores@[i] == (Score {
                    num: 1,
                    den: 1,
                })))
            &&& ((forall|i: int| 0 <= i < rules@.len() ==> !rr_is_last_words(#[trigger] rules@[i]))
                ==> scores_non_increasing(out.scores@))
            &&& (distinct is None ==> docset_view(out.all_candidates) == u0)
            &&& (u0.len() < from ==> r.len() == 0)
            &&& (rules@.len() == 0 && distinct is None ==> {
                let u = docset_seq(*universe);
                let n = u.len() as int;
                let lo = if from as int <= n { from as int } else { n };
                let hi = if from as int + length as int <= n { from as int + length as int } else { n };
                r == u.subrange(lo, hi) && r.len() as int == window(length as int, n, from as int)
            })
            &&& (rules@.len() == 0 && distinct is Some ==> r.len() as int <= from as int
                + length as int)
            &&& ((distinct is None && ((exists|i: int|
                0 <= i < rules@.len() && !rr_is_geo(#[trigger] rules@[i])) ==> levels_cover(
                graph_view(*query),
                u0,
            ))) ==> r.len() as int == window(length as int, u0.len() as int, from as int))
            &&& (u0.len() < from ==> docset_view(out.all_candidates) == u0)
        }),
{
    let mut rules = rules;
    let ghost u0 = docset_view(*universe);
    let ghost qcap = query.levels@.len() as nat;
    let ghost flags = rules@.map(|i: int, r: RankingRule| rr_is_last_words(r));
    let ghost no_last: bool = forall|i: int| 0 <= i < flags.len() ==> !flags[i];
    let ghost geos = rules@.map(|i: int, r: RankingRule| rr_is_geo(r));
    let ghost haswords0: bool = exists|i: int| 0 <= i < geos.len() && !geos[i];
    let ghost cov: bool = distinct is None && (haswords0 ==> levels_cover(graph_view(*query), u0));
    proof {
        lemma_view_finite(*universe);
    }
    let ulen = docset_len(universe);
    let ghost b: nat = qcap + u0.len() + 2;

    if ulen < from as u64 {
        proof {
            let u = docset_seq(*universe);
            let n = u.len() as int;
            assert(Seq::<u32>::empty() =~= u.subrange(n, n));
            let e: Seq<u32> = Seq::empty();
            assert(e.no_duplicates());
        }
        return BucketSortOutput {
            docids: Vec::new(),
            scores: Vec::new(),
            all_candidates: docset_clone(universe),
        };
    }
    if rules.len() == 0 {
        match distinct {
            Some(d) => {
                return sort_no_rules_distinct(universe, from, length, d);
            },
            None => {
                let out = sort_no_rules(universe, from, length);
                proof {
                    assert(docset_seq(*universe).len() == u0.len());
                }
                return out;
            },
        }
    }

    let rules_len = rules.len();
    let mut ranking_rule_total_bucket_counts: Vec<u64> = Vec::new();
    let mut ranking_rule_bucket_counts: Vec<(u64, u64)> = Vec::new();
    let mut ranking_rule_universes: Vec<RoaringBitmap> = Vec::new();
    let mut ii: usize = 0;
    while ii < rules_len
        invariant
            0 <= ii <= rules_len,
            ranking_rule_total_bucket_counts@.len() == ii,
            ranking_rule_bucket_counts@.len() == ii,
            ranking_rule_universes@.len() == ii,
            forall|j: int| 0 <= j < ii ==> #[trigger] ranking_rule_total_bucket_counts@[j] == 1,
            forall|j: int| 0 <= j < ii ==> #[trigger] ranking_rule_bucket_counts@[j] == (1u64, 1u64),
            forall|j: int|
                0 <= j < ii ==> docset_view(#[trigger] ranking_rule_universes@[j])
                    == Set::<u32>::empty(),
        decreases rules_len - ii,
    {
        ranking_rule_total_bucket_counts.push(1);
        ranking_rule_bucket_counts.push((1, 1));
        let e = docset_new();
        proof {
            assert(docset_view(e) =~= Set::<u32>::empty());
        }
        ranking_rule_universes.push(e);
        ii += 1;
    }
    ranking_rule_universes.set(0, docset_clone(universe));
    let tc0 = rules[0].start_iteration(universe, query);
    ranking_rule_total_bucket_counts.set(0, tc0);

    let mut cur_ranking_rule_index: usize = 0;
    let mut running: bool = true;
    let mut all_candidates = docset_clone(universe);
    let mut valid_docids: Vec<u32> = Vec::new();
    let mut valid_scores: Vec<Score> = Vec::new();
    let mut cur_offset: u64 = 0;
    let ghost mut processed: Set<u32> = Set::empty();

    proof {
        lemma_caps_pos(flags, 1, qcap);
        assert(1 * caps_from(flags, 0, qcap) == caps_from(flags, 0, qcap)) by (nonlinear_arith);
        assert(tc0 as nat <= cap_of(flags[0], qcap)) by {
            assert(rr_cap(rules@[0], qcap) == cap_of(flags[0], qcap));
        }
        assert(processed.union(univ_union(ranking_rule_universes@)) =~= u0) by {
            assert(docset_view(ranking_rule_universes@[0]) == u0);
            assert forall|c: u32| u0.contains(c) implies univ_union(
                ranking_rule_universes@,
            ).contains(c) by {
                assert(docset_view(ranking_rule_universes@[0]).contains(c));
            }
        }
    }

    while running && valid_docids.len() < length
        invariant
            rules@.len() == rules_len,
            ranking_rule_universes@.len() == rules_len,
            ranking_rule_bucket_counts@.len() == rules_len,
            ranking_rule_total_bucket_counts@.len() == rules_len,
            0 <= cur_ranking_rule_index < rules_len,
            forall|i: int| 0 <= i < rules_len ==> rr_is_last_words(#[trigger] rules@[i]) == flags[i],
            forall|j: int| 0 <= j < rules_len ==> rr_inv(#[trigger] rules@[j]),
            running ==> forall|j: int|
                0 <= j <= cur_ranking_rule_index ==> rr_active(#[trigger] rules@[j]),
            forall|j: int|
                cur_ranking_rule_index < j < rules_len ==> rr_ready(#[trigger] rules@[j]),
            running ==> forall|j: int|
                0 <= j <= cur_ranking_rule_index ==> 1 <= rr_qlen(#[trigger] rules@[j]) <= qcap,
            forall|j: int|
                cur_ranking_rule_index < j < rules_len ==> docset_view(
                    #[trigger] ranking_rule_universes@[j],
                ).is_empty(),
            forall|j: int|
                0 <= j < rules_len ==> docset_view(
                    #[trigger] ranking_rule_universes@[j],
                ).subset_of(u0),
            forall|i: int, j: int|
                0 <= i < j < rules_len ==> docset_view(
                    #[trigger] ranking_rule_universes@[i],
                ).disjoint(docset_view(#[trigger] ranking_rule_universes@[j])),
            valid_docids@.no_duplicates(),
            in_u0(valid_docids@, u0),
            forall|j: int, i: int|
                0 <= j < rules_len && 0 <= i < valid_docids@.len() ==> !docset_view(
                    #[trigger] ranking_rule_universes@[j],
                ).contains(#[trigger] valid_docids@[i]),
            forall|i: int|
                0 <= i < valid_docids@.len() ==> docset_view(all_candidates).contains(
                    #[trigger] valid_docids@[i],
                ),
            docset_view(all_candidates).subset_of(u0),
            distinct is None ==> docset_view(all_candidates) == u0,
            docs_distinct_ok(distinct, valid_docids@),
            forall|j: int|
                0 <= j < rules_len ==> no_clash(
                    distinct,
                    valid_docids@,
                    docset_view(#[trigger] ranking_rule_universes@[j]),
                ),
            valid_docids@.len() == valid_scores@.len(),
            valid_docids@.len() <= length,
            valid_docids@.len() as int == window(length as int, cur_offset as int, from as int),
            processed.subset_of(u0),
            forall|j: int|
                0 <= j < rules_len ==> processed.disjoint(
                    docset_view(#[trigger] ranking_rule_universes@[j]),
                ),
            cur_offset <= processed.len(),
            forall|i: int| 0 <= i < valid_scores@.len() ==> score_wf(#[trigger] valid_scores@[i]),
            no_last ==> forall|i: int|
                0 <= i < valid_scores@.len() ==> #[trigger] valid_scores@[i] == (Score {
                    num: 1,
                    den: 1,
                }),
            forall|j: int|
                0 <= j <= cur_ranking_rule_index ==> 1 <= (
                #[trigger] ranking_rule_bucket_counts@[j]).0
                    <= ranking_rule_bucket_counts@[j].1,
            forall|j: int|
                0 <= j <= cur_ranking_rule_index ==> (#[trigger] ranking_rule_bucket_counts@[j]).1
                    as nat * caps_from(flags, j, qcap) <= u64::MAX,
            forall|j: int|
                0 <= j <= cur_ranking_rule_index ==> (#[trigger] ranking_rule_total_bucket_counts@[j])
                    as nat == rr_total(rules@[j]),
            forall|j: int|
                0 <= j <= cur_ranking_rule_index ==> 1 <= (
                #[trigger] ranking_rule_total_bucket_counts@[j]) && (
                ranking_rule_total_bucket_counts@[j]) as nat <= cap_of(flags[j], qcap),
            no_last ==> forall|j: int|
                0 <= j <= cur_ranking_rule_index ==> (#[trigger] ranking_rule_bucket_counts@[j])
                    == (1u64, 1u64) && ranking_rule_total_bucket_counts@[j] == 1,
            forall|j: int|
                0 <= j < rules_len ==> rr_measure(
                    #[trigger] rules@[j],
                    docset_view(ranking_rule_universes@[j]),
                ) <= b - 1,
            forall|i: int| 0 <= i < rules_len ==> rr_is_geo(#[trigger] rules@[i]) == geos[i],
            forall|j: int|
                0 <= j < rules_len ==> docset_view(
                    #[trigger] ranking_rule_universes@[j],
                ).disjoint(rr_emitted(rules@[j])),
            cov ==> processed.union(univ_union(ranking_rule_universes@)) == u0,
            cov ==> cur_offset as int == processed.len(),
            cov && haswords0 ==> forall|j: int|
                0 <= j <= cur_ranking_rule_index ==> levels_cover(
                    rr_graph_view(#[trigger] rules@[j]),
                    u0,
                ),
            cov ==> forall|j: int|
                0 <= j <= cur_ranking_rule_index && !rr_is_geo(#[trigger] rules@[j])
                    && rr_exhausted(rules@[j]) ==> docset_view(
                    ranking_rule_universes@[j],
                ).is_empty(),
            cov && !running ==> forall|j: int|
                0 <= j < rules_len ==> docset_view(
                    #[trigger] ranking_rule_universes@[j],
                ).is_empty(),
        decreases
            phi(rules@, ranking_rule_universes@, 0, b),
            cur_ranking_rule_index,
            run_flag(running),
    {
        let ghost rules0 = rules@;
        let ghost univs0 = ranking_rule_universes@;
        let ghost cur0 = cur_ranking_rule_index as int;
        let cur = cur_ranking_rule_index;
        let (leftover_buckets, total_buckets) = ranking_rule_bucket_counts[cur];
        let ulen_cur = docset_len(&ranking_rule_universes[cur]);
        if ulen_cur <= 1 {
            // the sub-universe needs no sorting: flush it and give control
            // back to the parent rule
            let bucket = docset_take(&mut ranking_rule_universes[cur]);
            let ghost bview = docset_view(bucket);
            let ghost p0 = processed;
            proof {
                assert(docset_view(ranking_rule_universes@[cur0]) =~= Set::<u32>::empty());
            }
            let score = Score { num: leftover_buckets, den: total_buckets };
            let gpr = maybe_add_to_results(
                from,
                length,
                &mut valid_docids,
                &mut valid_scores,
                &mut all_candidates,
                &mut ranking_rule_universes,
                &mut cur_offset,
                distinct,
                bucket,
                score,
                Ghost(u0),
                Ghost(processed),
                Ghost(no_last),
            );
            proof {
                processed = gpr.0@;
                if cov {
                    let rs = gpr.1@;
                    lemma_sorted_len(rs);
                    assert(rs.to_set() == bview);
                    lemma_view_finite(bucket);
                    lemma_disjoint_union_len(p0, bview);
                    assert(processed.union(univ_union(ranking_rule_universes@)) =~= u0) by {
                        assert forall|c: u32| u0.contains(c) implies processed.union(
                            univ_union(ranking_rule_universes@),
                        ).contains(c) by {
                            if !p0.contains(c) {
                                assert(univ_union(univs0).contains(c));
                                let j = choose|j: int|
                                    0 <= j < univs0.len() && #[trigger] docset_view(
                                        univs0[j],
                                    ).contains(c);
                                if j == cur0 {
                                    assert(bview.contains(c));
                                } else {
                                    assert(docset_view(ranking_rule_universes@[j]).contains(c));
                                }
                            }
                        }
                    }
                }
            }
            rules[cur].end_iteration();
            proof {
                assert forall|j: int|
                    0 <= j < rules_len implies rr_measure(
                    #[trigger] rules@[j],
                    docset_view(ranking_rule_universes@[j]),
                ) <= rr_measure(rules0[j], docset_view(univs0[j])) by {
                    lemma_len_subset(
                        docset_view(ranking_rule_universes@[j]),
                        docset_view(univs0[j]),
                    );
                    lemma_view_finite(univs0[j]);
                }
                lemma_phi_le(rules0, univs0, rules@, ranking_rule_universes@, 0, b);
            }
            if cur == 0 {
                proof {
                    if cov {
                        assert forall|j: int| 0 <= j < rules_len implies docset_view(
                            #[trigger] ranking_rule_universes@[j],
                        ).is_empty() by {
                            if j != 0 {
                                assert(docset_view(univs0[j]).is_empty());
                            }
                        }
                    }
                }
                running = false;
            } else {
                cur_ranking_rule_index = cur - 1;
            }
            continue;
        }
        let tc = ranking_rule_total_bucket_counts[cur];
        proof {
            lemma_caps_pos(flags, cur0 + 1, qcap);
            assert(caps_from(flags, cur0, qcap) == cap_of(flags[cur0], qcap) * caps_from(
                flags,
                cur0 + 1,
                qcap,
            ));
            assert(total_buckets as nat * tc as nat <= u64::MAX) by (nonlinear_arith)
                requires
                    tc as nat <= cap_of(flags[cur0], qcap),
                    caps_from(flags, cur0 + 1, qcap) >= 1,
                    total_buckets as nat * (cap_of(flags[cur0], qcap) * caps_from(
                        flags,
                        cur0 + 1,
                        qcap,
                    )) <= u64::MAX,
                    total_buckets >= 1,
                    tc >= 1,
            ;
            assert((leftover_buckets - 1) as nat * tc as nat <= total_buckets as nat * tc as nat)
                by (nonlinear_arith)
                requires
                    1 <= leftover_buckets <= total_buckets,
                    tc >= 1,
            ;
        }
        let rem0 = (leftover_buckets - 1) * tc;
        let total_global = total_buckets * tc;
        let next = rules[cur].next_bucket(&ranking_rule_universes[cur]);
        match next {
            None => {
                // the rule cannot partition what is left of its
                // sub-universe; those documents drop out of ranking but
                // stay in all_candidates. With a covering query this
                // cannot happen: an exhausted Words rule has emptied its
                // sub-universe.
                proof {
                    if cov {
                        assert(rr_exhausted(rules0[cur0]));
                        assert(!rr_is_geo(rules0[cur0]));
                        assert(docset_view(univs0[cur0]).is_empty());
                        assert(docset_view(univs0[cur0]).len() > 1);
                        assert(false);
                    }
                }
                docset_clear(&mut ranking_rule_universes[cur]);
                proof {
                    assert(docset_view(ranking_rule_universes@[cur0]) =~= Set::<u32>::empty());
                    assert forall|j: int|
                        0 <= j < rules_len implies rr_measure(
                        #[trigger] rules@[j],
                        docset_view(ranking_rule_universes@[j]),
                    ) <= rr_measure(rules0[j], docset_view(univs0[j])) by {
                        if j != cur0 {
                            assert(rules@[j] == rules0[j]);
                            assert(ranking_rule_universes@[j] == univs0[j]);
                        }
                    }
                }
                rules[cur].end_iteration();
                proof {
                    assert forall|j: int|
                        0 <= j < rules_len implies rr_measure(
                        #[trigger] rules@[j],
                        docset_view(ranking_rule_universes@[j]),
                    ) <= rr_measure(rules0[j], docset_view(univs0[j])) by {
                        if j != cur0 {
                            assert(rules@[j] == rules0[j]);
                        }
                    }
                    lemma_phi_le(rules0, univs0, rules@, ranking_rule_universes@, 0, b);
                }
                if cur == 0 {
                    running = false;
                } else {
                    cur_ranking_rule_index = cur - 1;
                }
            },
            Some(next_bucket) => {
                let ghost pre_univ = docset_view(ranking_rule_universes@[cur0]);
                let ghost bucket_view = docset_view(next_bucket.candidates);
                let bucket_len = docset_len(&next_bucket.candidates);
                {
                    let u = &mut ranking_rule_universes[cur];
                    docset_sub_assign(u, &next_bucket.candidates);
                }
                proof {
                    // one bucket of work is done at this level
                    assert(rr_measure(rules@[cur0], docset_view(ranking_rule_universes@[cur0]))
                        < rr_measure(rules0[cur0], pre_univ)) by {
                        lemma_view_finite(univs0[cur0]);
                        match rules0[cur0] {
                            RankingRule::Geo(g0) => {
                                assert(!bucket_view.is_empty()) by {
                                    assert(pre_univ.len() > 1);
                                }
                                lemma_diff_strict(pre_univ, bucket_view);
                            },
                            RankingRule::Words(w0) => {},
                        }
                    }
                    assert forall|j: int|
                        0 <= j < rules_len implies rr_measure(
                        #[trigger] rules@[j],
                        docset_view(ranking_rule_universes@[j]),
                    ) <= rr_measure(rules0[j], docset_view(univs0[j])) by {
                        if j != cur0 {
                            assert(rules@[j] == rules0[j]);
                            assert(ranking_rule_universes@[j] == univs0[j]);
                        } else {
                        }
                    }
                }
                proof {
                    assert(next_bucket.remaining_buckets as nat <= tc as nat);
                    assert((leftover_buckets - 1) as nat * tc as nat + tc as nat <= total_buckets
                        as nat * tc as nat) by (nonlinear_arith)
                        requires
                            1 <= leftover_buckets <= total_buckets,
                            tc >= 1,
                    ;
                }
                let remaining_buckets = rem0 + next_bucket.remaining_buckets;
                let score = Score { num: remaining_buckets, den: total_global };
                if cur == rules_len - 1 || bucket_len <= 1 || (cur_offset as u128) + (bucket_len
                    as u128) < (from as u128) {
                    let ghost rules_now = rules@;
                    let ghost univs_now = ranking_rule_universes@;
                    let ghost p0 = processed;
                    let gpr = maybe_add_to_results(
                        from,
                        length,
                        &mut valid_docids,
                        &mut valid_scores,
                        &mut all_candidates,
                        &mut ranking_rule_universes,
                        &mut cur_offset,
                        distinct,
                        next_bucket.candidates,
                        score,
                        Ghost(u0),
                        Ghost(processed),
                        Ghost(no_last),
                    );
                    proof {
                        processed = gpr.0@;
                        assert forall|j: int|
                            0 <= j < rules_len implies rr_measure(
                            #[trigger] rules@[j],
                            docset_view(ranking_rule_universes@[j]),
                        ) <= rr_measure(rules0[j], docset_view(univs0[j])) by {
                            lemma_view_finite(univs_now[j]);
                            lemma_len_subset(
                                docset_view(ranking_rule_universes@[j]),
                                docset_view(univs_now[j]),
                            );
                            lemma_view_finite(univs0[j]);
                            lemma_len_subset(
                                docset_view(univs_now[j]),
                                docset_view(univs0[j]),
                            );
                        }
                        assert(rr_measure(
                            rules@[cur0],
                            docset_view(ranking_rule_universes@[cur0]),
                        ) < rr_measure(rules0[cur0], docset_view(univs0[cur0]))) by {
                            lemma_view_finite(univs_now[cur0]);
                            lemma_len_subset(
                                docset_view(ranking_rule_universes@[cur0]),
                                docset_view(univs_now[cur0]),
                            );
                        }
                        lemma_phi_dec(
                            rules0,
                            univs0,
                            rules@,
                            ranking_rule_universes@,
                            0,
                            cur0,
                            b,
                        );
                        if cov {
                            let rs = gpr.1@;
                            lemma_sorted_len(rs);
                            assert(rs.to_set() == bucket_view);
                            lemma_disjoint_union_len(p0, bucket_view);
                            assert(processed.union(univ_union(ranking_rule_universes@))
                                =~= u0) by {
                                assert forall|c: u32| u0.contains(c) implies processed.union(
                                    univ_union(ranking_rule_universes@),
                                ).contains(c) by {
                                    if !p0.contains(c) {
                                        assert(univ_union(univs0).contains(c));
                                        let j = choose|j: int|
                                            0 <= j < univs0.len() && #[trigger] docset_view(
                                                univs0[j],
                                            ).contains(c);
                                        if j == cur0 {
                                            if !bucket_view.contains(c) {
                                                assert(docset_view(
                                                    ranking_rule_universes@[j],
                                                ).contains(c));
                                            }
                                        } else {
                                            assert(docset_view(
                                                ranking_rule_universes@[j],
                                            ).contains(c));
                                        }
                                    }
                                }
                                assert forall|c: u32|
                                    univ_union(ranking_rule_universes@).contains(c)
                                    implies u0.contains(c) by {
                                    let j = choose|j: int|
                                        0 <= j < ranking_rule_universes@.len()
                                            && #[trigger] docset_view(
                                            ranking_rule_universes@[j],
                                        ).contains(c);
                                }
                            }
                            if !rr_is_geo(rules@[cur0]) && rr_exhausted(rules@[cur0]) {
                                assert(!geos[cur0]);
                                assert(haswords0);
                                assert(levels_cover(rr_graph_view(rules0[cur0]), u0));
                                assert(u0.intersect(pre_univ).subset_of(bucket_view));
                                assert(docset_view(ranking_rule_universes@[cur0])
                                    =~= Set::<u32>::empty()) by {
                                    assert forall|c: u32|
                                        docset_view(ranking_rule_universes@[cur0]).contains(c)
                                        implies false by {
                                        assert(docset_view(univs_now[cur0]).contains(c));
                                        assert(pre_univ.contains(c));
                                        assert(u0.contains(c));
                                        assert(u0.intersect(pre_univ).contains(c));
                                    }
                                }
                            }
                        }
                    }
                } else {
                    cur_ranking_rule_index = cur + 1;
                    let child = cur_ranking_rule_index;
                    ranking_rule_universes.set(child, docset_clone(&next_bucket.candidates));
                    let tc_child = rules[child].start_iteration(
                        &next_bucket.candidates,
                        &next_bucket.query,
                    );
                    ranking_rule_total_bucket_counts.set(child, tc_child);
                    ranking_rule_bucket_counts.set(child, (remaining_buckets, total_global));
                    proof {
                        let childi = child as int;
                        lemma_view_finite(next_bucket.candidates);
                        lemma_len_subset(bucket_view, u0);
                        assert(caps_from(flags, cur0, qcap) == cap_of(flags[cur0], qcap)
                            * caps_from(flags, cur0 + 1, qcap));
                        assert(total_global as nat * caps_from(flags, childi, qcap)
                            <= u64::MAX) by (nonlinear_arith)
                            requires
                                total_global as nat == total_buckets as nat * tc as nat,
                                tc as nat <= cap_of(flags[cur0], qcap),
                                caps_from(flags, cur0, qcap) == cap_of(flags[cur0], qcap)
                                    * caps_from(flags, cur0 + 1, qcap),
                                caps_from(flags, childi, qcap) == caps_from(flags, cur0 + 1, qcap),
                                total_buckets as nat * caps_from(flags, cur0, qcap) <= u64::MAX,
                                total_buckets >= 1,
                                tc >= 1,
                                caps_from(flags, cur0 + 1, qcap) >= 1,
                        ;
                        assert(tc_child as nat <= cap_of(flags[childi], qcap)) by {
                            assert(rr_cap(rules0[childi], qcap) == cap_of(flags[childi], qcap));
                        }
                        // the fresh child iteration cannot outweigh the
                        // parent bucket it came from
                        assert(rr_measure(
                            rules@[childi],
                            docset_view(ranking_rule_universes@[childi]),
                        ) <= b - 1) by {
                            match rules@[childi] {
                                RankingRule::Words(w) => {},
                                RankingRule::Geo(g) => {},
                            }
                        }
                        assert forall|j: int|
                            0 <= j < rules_len && j != childi implies rr_measure(
                            #[trigger] rules@[j],
                            docset_view(ranking_rule_universes@[j]),
                        ) <= rr_measure(rules0[j], docset_view(univs0[j])) by {
                            if j != cur0 {
                                assert(rules@[j] == rules0[j]);
                                assert(ranking_rule_universes@[j] == univs0[j]);
                            }
                        }
                        lemma_phi_desc(
                            rules0,
                            univs0,
                            rules@,
                            ranking_rule_universes@,
                            0,
                            cur0,
                            b,
                        );
                        if cov {
                            assert(docset_view(ranking_rule_universes@[childi]) == bucket_view);
                            assert(processed.union(univ_union(ranking_rule_universes@))
                                =~= u0) by {
                                assert forall|c: u32| u0.contains(c) implies processed.union(
                                    univ_union(ranking_rule_universes@),
                                ).contains(c) by {
                                    if !processed.contains(c) {
                                        assert(univ_union(univs0).contains(c));
                                        let j = choose|j: int|
                                            0 <= j < univs0.len() && #[trigger] docset_view(
                                                univs0[j],
                                            ).contains(c);
                                        if j == cur0 {
                                            if bucket_view.contains(c) {
                                                assert(docset_view(
                                                    ranking_rule_universes@[childi],
                                                ).contains(c));
                                            } else {
                                                assert(docset_view(
                                                    ranking_rule_universes@[cur0],
                                                ).contains(c));
                                            }
                                        } else {
                                            assert(!docset_view(univs0[childi]).contains(c));
                                            assert(docset_view(
                                                ranking_rule_universes@[j],
                                            ).contains(c));
                                        }
                                    }
                                }
                                assert forall|c: u32|
                                    univ_union(ranking_rule_universes@).contains(c)
                                    implies u0.contains(c) by {
                                    let j = choose|j: int|
                                        0 <= j < ranking_rule_universes@.len()
                                            && #[trigger] docset_view(
                                            ranking_rule_universes@[j],
                                        ).contains(c);
                                    if j != cur0 && j != childi {
                                        assert(docset_view(univs0[j]).contains(c));
                                    }
                                }
                            }
                            if !rr_is_geo(rules@[cur0]) && rr_exhausted(rules@[cur0]) {
                                assert(!geos[cur0]);
                                assert(haswords0);
                                assert(levels_cover(rr_graph_view(rules0[cur0]), u0));
                                assert(u0.intersect(pre_univ).subset_of(bucket_view));
                                assert(docset_view(ranking_rule_universes@[cur0])
                                    =~= Set::<u32>::empty()) by {
                                    assert forall|c: u32|
                                        docset_view(ranking_rule_universes@[cur0]).contains(c)
                                        implies false by {
                                        assert(pre_univ.contains(c));
                                        assert(u0.contains(c));
                                        assert(u0.intersect(pre_univ).contains(c));
                                    }
                                }
                            }
                            if haswords0 {
                                assert(levels_cover(rr_graph_view(rules0[cur0]), u0));
                                assert(levels_cover(graph_view(next_bucket.query), u0));
                                assert(rr_graph_view(rules@[childi]) == graph_view(
                                    next_bucket.query,
                                ));
                            }
                        }
                    }
                }
            },
        }
    }
    proof {
        if cov {
            lemma_len_subset(processed, u0);
            if valid_docids@.len() < length {
                assert(!running);
                assert(processed =~= u0) by {
                    assert forall|c: u32| u0.contains(c) implies processed.contains(c) by {
                        if univ_union(ranking_rule_universes@).contains(c) {
                            let j = choose|j: int|
                                0 <= j < ranking_rule_universes@.len() && #[trigger] docset_view(
                                    ranking_rule_universes@[j],
                                ).contains(c);
                            assert(docset_view(ranking_rule_universes@[j]).is_empty());
                        }
                    }
                }
            }
            assert(valid_docids@.len() as int == window(
                length as int,
                u0.len() as int,
                from as int,
            ));
        }
        if no_last {
            assert(scores_non_increasing(valid_scores@)) by {
                assert forall|i: int, j: int|
                    0 <= i < j < valid_scores@.len() implies score_le(
                    #[trigger] valid_scores@[j],
                    #[trigger] valid_scores@[i],
                ) by {
                    assert(valid_scores@[i] == (Score { num: 1, den: 1 }));
                    assert(valid_scores@[j] == (Score { num: 1, den: 1 }));
                }
            }
        }
    }
    BucketSortOutput { docids: valid_docids, scores: valid_scores, all_candidates }
}

} // verus!
