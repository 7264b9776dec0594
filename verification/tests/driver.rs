use bucket_rank::bucket_sort::bucket_sort;
use bucket_rank::bucket_sort::BucketSortOutput;
use bucket_rank::distinct::DistinctIndex;
use bucket_rank::geo_sort::GeoDoc;
use bucket_rank::geo_sort::GeoSort;
use bucket_rank::geo_sort::Strategy;
use bucket_rank::query::QueryGraph;
use bucket_rank::ranking_rules::RankingRule;
use bucket_rank::words::TermsMatchingStrategy;
use bucket_rank::words::Words;
use roaring::RoaringBitmap;

fn bm(ids: &[u32]) -> RoaringBitmap {
    ids.iter().copied().collect()
}

fn ids(out: &BucketSortOutput) -> Vec<u32> {
    out.docids.clone()
}

fn assert_all_ones(out: &BucketSortOutput) {
    for s in &out.scores {
        assert_eq!(s.num, 1);
        assert_eq!(s.den, 1);
    }
}

fn trivial_query() -> QueryGraph {
    QueryGraph::new(vec![RoaringBitmap::new()])
}

#[test]
fn no_rules_window() {
    // universe {1..5}, no rules, no distinct, from=1 length=2
    let universe = bm(&[1, 2, 3, 4, 5]);
    let out = bucket_sort(vec![], &trivial_query(), &universe, 1, 2, None);
    assert_eq!(ids(&out), vec![2, 3]);
    assert_eq!(out.scores.len(), 2);
    assert_all_ones(&out);
    assert_eq!(out.all_candidates, universe);
}

#[test]
fn words_all_single_bucket() {
    // universe {1..10}, one Words rule under All matching {2,4,6,8}
    let universe: RoaringBitmap = (1..=10).collect();
    let graph = QueryGraph::new(vec![bm(&[2, 4, 6, 8])]);
    let rules = vec![RankingRule::Words(Words::new(TermsMatchingStrategy::All))];
    let out = bucket_sort(rules, &graph, &universe, 0, 100, None);
    assert_eq!(ids(&out), vec![2, 4, 6, 8]);
    assert_eq!(out.scores.len(), 4);
    assert_all_ones(&out);
    assert_eq!(out.all_candidates, universe);
}

#[test]
fn from_past_universe() {
    // from beyond the universe is not an error: empty results
    let universe = bm(&[1, 2, 3]);
    let out = bucket_sort(vec![], &trivial_query(), &universe, 10, 5, None);
    assert_eq!(ids(&out), Vec::<u32>::new());
    assert_eq!(out.scores.len(), 0);
    assert_eq!(out.all_candidates, universe);
}

fn geo_rule(ascending: bool, strategy: Strategy) -> RankingRule {
    // three documents at distances 10, 5, 20 with ids 1, 2, 3
    let docs = vec![
        GeoDoc { id: 2, key: 5 },
        GeoDoc { id: 1, key: 10 },
        GeoDoc { id: 3, key: 20 },
    ];
    RankingRule::Geo(GeoSort::new(strategy, bm(&[1, 2, 3]), docs, ascending))
}

#[test]
fn geo_ascending() {
    let universe = bm(&[1, 2, 3]);
    let rules = vec![geo_rule(true, Strategy::AlwaysIterative(10))];
    let out = bucket_sort(rules, &trivial_query(), &universe, 0, 10, None);
    assert_eq!(ids(&out), vec![2, 1, 3]);
    assert_all_ones(&out);
    assert_eq!(out.all_candidates, universe);
}

#[test]
fn geo_descending() {
    let universe = bm(&[1, 2, 3]);
    let rules = vec![geo_rule(false, Strategy::AlwaysIterative(10))];
    let out = bucket_sort(rules, &trivial_query(), &universe, 0, 10, None);
    assert_eq!(ids(&out), vec![3, 1, 2]);
    assert_all_ones(&out);
}

#[test]
fn geo_rtree_small_cache_refills() {
    // a cache of one forces a refill before every bucket
    let universe = bm(&[1, 2, 3]);
    let rules = vec![geo_rule(true, Strategy::AlwaysRtree(1))];
    let out = bucket_sort(rules, &trivial_query(), &universe, 0, 10, None);
    assert_eq!(ids(&out), vec![2, 1, 3]);
}

#[test]
fn geo_rtree_small_cache_descending() {
    let universe = bm(&[1, 2, 3]);
    let rules = vec![geo_rule(false, Strategy::AlwaysRtree(1))];
    let out = bucket_sort(rules, &trivial_query(), &universe, 0, 10, None);
    assert_eq!(ids(&out), vec![3, 1, 2]);
}

#[test]
fn geo_without_candidates_keeps_id_order() {
    // no geo-faceted document: the whole universe comes as one bucket
    let universe = bm(&[4, 5, 6]);
    let rules = vec![RankingRule::Geo(GeoSort::new(
        Strategy::AlwaysIterative(10),
        RoaringBitmap::new(),
        vec![],
        true,
    ))];
    let out = bucket_sort(rules, &trivial_query(), &universe, 0, 10, None);
    assert_eq!(ids(&out), vec![4, 5, 6]);
    assert_all_ones(&out);
}

#[test]
fn words_last_two_levels() {
    // strict graph matches {5,6}, relaxed graph matches {5,6,7,8}
    let universe = bm(&[5, 6, 7, 8]);
    let graph = QueryGraph::new(vec![bm(&[5, 6]), bm(&[5, 6, 7, 8])]);
    let rules = vec![RankingRule::Words(Words::new(TermsMatchingStrategy::Last))];
    let out = bucket_sort(rules, &graph, &universe, 0, 4, None);
    assert_eq!(ids(&out), vec![5, 6, 7, 8]);
    let fr: Vec<(u64, u64)> = out.scores.iter().map(|s| (s.num, s.den)).collect();
    assert_eq!(fr, vec![(2, 3), (2, 3), (1, 3), (1, 3)]);
    assert_eq!(out.all_candidates, universe);
}

#[test]
fn words_last_scores_non_increasing() {
    let universe: RoaringBitmap = (1..=8).collect();
    let graph = QueryGraph::new(vec![bm(&[1, 2]), bm(&[1, 2, 3, 4]), bm(&[1, 2, 3, 4, 5, 6, 7, 8])]);
    let rules = vec![RankingRule::Words(Words::new(TermsMatchingStrategy::Last))];
    let out = bucket_sort(rules, &graph, &universe, 0, 100, None);
    assert_eq!(ids(&out), vec![1, 2, 3, 4, 5, 6, 7, 8]);
    for w in out.scores.windows(2) {
        // w[0] >= w[1] as fractions
        assert!((w[0].num as u128) * (w[1].den as u128) >= (w[1].num as u128) * (w[0].den as u128));
        assert!(w[0].num >= 1 && w[0].num <= w[0].den);
    }
}

#[test]
fn words_then_geo_chain() {
    // the Words bucket is refined by the geo rule
    let universe: RoaringBitmap = (1..=6).collect();
    let graph = QueryGraph::new(vec![bm(&[1, 2, 3, 4])]);
    let docs = vec![
        GeoDoc { id: 3, key: 1 },
        GeoDoc { id: 1, key: 2 },
        GeoDoc { id: 4, key: 3 },
        GeoDoc { id: 2, key: 4 },
    ];
    let rules = vec![
        RankingRule::Words(Words::new(TermsMatchingStrategy::All)),
        RankingRule::Geo(GeoSort::new(Strategy::AlwaysIterative(10), bm(&[1, 2, 3, 4]), docs, true)),
    ];
    let out = bucket_sort(rules, &graph, &universe, 0, 10, None);
    assert_eq!(ids(&out), vec![3, 1, 4, 2]);
    assert_all_ones(&out);
    assert_eq!(out.all_candidates, universe);
}

#[test]
fn pagination_within_buckets() {
    // from=1 length=2 over the geo order [2,1,3]
    let universe = bm(&[1, 2, 3]);
    let rules = vec![geo_rule(true, Strategy::AlwaysIterative(10))];
    let out = bucket_sort(rules, &trivial_query(), &universe, 1, 2, None);
    assert_eq!(ids(&out), vec![1, 3]);
}

#[test]
fn distinct_no_rules() {
    // documents 1 and 2 share a distinct value; 4 has none
    let universe = bm(&[1, 2, 3, 4]);
    let d = DistinctIndex::from_pairs(vec![(1, 7), (2, 7), (3, 8)]);
    let out = bucket_sort(vec![], &trivial_query(), &universe, 0, 10, Some(&d));
    assert_eq!(ids(&out), vec![1, 3, 4]);
    assert_all_ones(&out);
    assert_eq!(out.all_candidates, bm(&[1, 3, 4]));
}

#[test]
fn distinct_no_rules_emits_from_plus_length() {
    // this fast path stops only once from + length documents are kept
    let universe = bm(&[1, 2, 3, 4, 5]);
    let d = DistinctIndex::from_pairs(vec![]);
    let out = bucket_sort(vec![], &trivial_query(), &universe, 1, 2, Some(&d));
    assert_eq!(ids(&out), vec![1, 2, 3]);
}

#[test]
fn distinct_with_rules() {
    // inside the rule-driven path the distinct reducer drops value twins
    let universe = bm(&[1, 2, 3]);
    let graph = QueryGraph::new(vec![bm(&[1, 2, 3])]);
    let d = DistinctIndex::from_pairs(vec![(1, 5), (2, 5)]);
    let rules = vec![RankingRule::Words(Words::new(TermsMatchingStrategy::All))];
    let out = bucket_sort(rules, &graph, &universe, 0, 10, Some(&d));
    assert_eq!(ids(&out), vec![1, 3]);
    assert!(!out.all_candidates.contains(2));
}

#[test]
fn strategy_use_rtree() {
    assert!(!Strategy::AlwaysIterative(5).use_rtree(1_000_000));
    assert!(Strategy::AlwaysRtree(5).use_rtree(0));
    assert!(Strategy::Dynamic(1000).use_rtree(1000));
    assert!(!Strategy::Dynamic(1000).use_rtree(999));
}

#[test]
fn strategy_cache_size() {
    assert_eq!(Strategy::AlwaysIterative(7).cache_size(), 7);
    assert_eq!(Strategy::AlwaysRtree(9).cache_size(), 9);
    assert_eq!(Strategy::Dynamic(11).cache_size(), 11);
}

#[test]
fn strategy_default() {
    assert!(matches!(Strategy::default(), Strategy::Dynamic(1000)));
}

#[test]
fn rule_ids() {
    let w = RankingRule::Words(Words::new(TermsMatchingStrategy::All));
    assert_eq!(w.id(), "words");
    let g = geo_rule(true, Strategy::AlwaysIterative(10));
    assert_eq!(g.id(), "geo_sort");
}

#[test]
fn no_duplicates_and_universe_subset() {
    let universe: RoaringBitmap = (1..=9).collect();
    let graph = QueryGraph::new(vec![bm(&[2, 3]), bm(&[2, 3, 5, 7, 9])]);
    let rules = vec![RankingRule::Words(Words::new(TermsMatchingStrategy::Last))];
    let out = bucket_sort(rules, &graph, &universe, 0, 100, None);
    let mut seen = RoaringBitmap::new();
    for id in &out.docids {
        assert!(seen.insert(*id), "duplicate id in results");
        assert!(universe.contains(*id), "id outside the universe");
        assert!(out.all_candidates.contains(*id), "id missing from all_candidates");
    }
}

#[test]
fn geo_rtree_zero_cache() {
    // a configured cache size of 0 behaves as a cache of one entry
    let universe = bm(&[1, 2, 3]);
    let rules = vec![geo_rule(true, Strategy::AlwaysRtree(0))];
    let out = bucket_sort(rules, &trivial_query(), &universe, 0, 10, None);
    assert_eq!(ids(&out), vec![2, 1, 3]);
}
