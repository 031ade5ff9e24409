use std::rc::Rc;
use roaring::RoaringBitmap;
use search_core::bucket_sort::bucket_sort;
use search_core::criterion::{Criterion, GraphRankingRule};
use search_core::db_cache::DatabaseCache;
use search_core::error::Error;
use search_core::graph_based_ranking_rule::GraphBasedRankingRule;
use search_core::index::MemoryIndex;
use search_core::logger::DefaultSearchLogger;
use search_core::query_graph::QueryGraph;
use search_core::query_term::{LocatedQueryTerm, QueryTerm, WordDerivations};
use search_core::ranking_rule::RankingRule;
use search_core::ranking_rule_graph::typo::TypoGraph;

fn bitmap(ids: &[u32]) -> RoaringBitmap {
    ids.iter().copied().collect()
}

fn strings(words: &[&str]) -> Vec<String> {
    words.iter().map(|w| w.to_string()).collect()
}

fn term(original: &str, zero: &[&str], one: &[&str], two: &[&str], prefix: bool, slot: u16) -> LocatedQueryTerm {
    LocatedQueryTerm {
        value: QueryTerm::Word {
            derivations: WordDerivations {
                original: original.to_string(),
                zero_typo: strings(zero),
                one_typo: strings(one),
                two_typos: strings(two),
                use_prefix_db: prefix,
            },
        },
        start: slot,
        end: slot,
    }
}

#[test]
fn fewer_typos_come_first() {
    let mut index = MemoryIndex::new();
    index.add_word("quick".to_string(), vec![1, 2]);
    index.add_word("quilt".to_string(), vec![3]);
    index.add_word("quack".to_string(), vec![4]);
    let mut db_cache = DatabaseCache::new();
    let mut logger = DefaultSearchLogger;
    let universe = bitmap(&[1, 2, 3, 4, 5]);
    let terms = vec![term("quikc", &[], &["quick"], &["quilt", "quack"], false, 0)];
    let query = QueryGraph::from_terms(&terms).unwrap();

    let mut rule = GraphBasedRankingRule::<TypoGraph>::new("typo".to_string());
    assert_eq!(rule.id(), "typo");
    rule.start_iteration(&index, &mut db_cache, &mut logger, &universe, Rc::new(query)).unwrap();
    let one = rule.next_bucket(&index, &mut db_cache, &mut logger, &universe).unwrap().unwrap();
    assert_eq!(one.candidates, bitmap(&[1, 2]));
    let two = rule.next_bucket(&index, &mut db_cache, &mut logger, &universe).unwrap().unwrap();
    assert_eq!(two.candidates, bitmap(&[3, 4]));
    assert!(rule.next_bucket(&index, &mut db_cache, &mut logger, &universe).unwrap().is_none());
    assert!(rule.state.is_none());
    rule.end_iteration(&index, &mut db_cache, &mut logger);
    assert!(rule.state.is_none());
}

#[test]
fn prefix_database_counts_as_exact() {
    let mut index = MemoryIndex::new();
    index.add_word("qui".to_string(), vec![7]);
    index.add_prefix("qui".to_string(), vec![1, 3]);
    index.add_word("quit".to_string(), vec![9]);
    let mut db_cache = DatabaseCache::new();
    let mut logger = DefaultSearchLogger;
    let universe = bitmap(&[1, 3, 7, 9, 11]);
    let terms = vec![term("qui", &["qui"], &["quit"], &[], true, 0)];
    let query = QueryGraph::from_terms(&terms).unwrap();
    let mut rule = GraphBasedRankingRule::<TypoGraph>::new("typo".to_string());
    rule.start_iteration(&index, &mut db_cache, &mut logger, &universe, Rc::new(query)).unwrap();
    let exact = rule.next_bucket(&index, &mut db_cache, &mut logger, &universe).unwrap().unwrap();
    assert_eq!(exact.candidates, bitmap(&[1, 3, 7]));
    let one = rule.next_bucket(&index, &mut db_cache, &mut logger, &universe).unwrap().unwrap();
    assert_eq!(one.candidates, bitmap(&[9]));
}

#[test]
fn buckets_stay_within_the_universe() {
    let mut index = MemoryIndex::new();
    index.add_word("foo".to_string(), vec![10, 30, 40]);
    let mut db_cache = DatabaseCache::new();
    let mut logger = DefaultSearchLogger;
    let universe = bitmap(&[10, 20, 30]);
    let terms = vec![term("foo", &["foo"], &[], &[], false, 0)];

    let mut rule = GraphBasedRankingRule::<TypoGraph>::new("typo".to_string());
    let query = QueryGraph::from_terms(&terms).unwrap();
    rule.start_iteration(&index, &mut db_cache, &mut logger, &universe, Rc::new(query)).unwrap();
    let first = rule.next_bucket(&index, &mut db_cache, &mut logger, &universe).unwrap().unwrap();
    assert_eq!(first.candidates, bitmap(&[10, 30]));
    assert!(first.candidates.is_subset(&universe));

    let mut rules = vec![GraphRankingRule::new(Criterion::Typo).unwrap()];
    let query = QueryGraph::from_terms(&terms).unwrap();
    let results =
        bucket_sort(&index, &mut db_cache, &mut logger, &mut rules, &universe, Rc::new(query), 0, 10)
            .unwrap();
    assert_eq!(results, vec![10, 30, 20]);
    assert!(!results.contains(&40));
}

#[test]
fn word_without_variant_matches_nothing() {
    let index = MemoryIndex::new();
    let mut db_cache = DatabaseCache::new();
    let mut logger = DefaultSearchLogger;
    let universe = bitmap(&[1, 2]);
    let terms = vec![term("zzz", &[], &[], &[], false, 0)];
    let query = QueryGraph::from_terms(&terms).unwrap();
    let mut rule = GraphBasedRankingRule::<TypoGraph>::new("typo".to_string());
    rule.start_iteration(&index, &mut db_cache, &mut logger, &universe, Rc::new(query)).unwrap();
    // no edge leads to the word: the graph has no path at all
    assert!(rule.state.as_ref().unwrap().cheapest_paths_state.is_none());
    assert!(rule.next_bucket(&index, &mut db_cache, &mut logger, &universe).unwrap().is_none());
}

#[test]
fn criterion_names() {
    for (name, criterion) in [
        ("words", Criterion::Words),
        ("typo", Criterion::Typo),
        ("proximity", Criterion::Proximity),
        ("attribute", Criterion::Attribute),
        ("exactness", Criterion::Exactness),
    ] {
        assert_eq!(Criterion::parse(&name.to_string()).unwrap(), criterion);
        assert_eq!(criterion.name(), name);
    }
    match Criterion::parse(&"sort".to_string()) {
        Err(e @ Error::InvalidQuery { .. }) => {
            assert_eq!(e.code(), "invalid_settings_ranking_rules");
            match e {
                Error::InvalidQuery { value, .. } => assert_eq!(value, "sort"),
                _ => unreachable!(),
            }
        }
        other => panic!("{other:?}"),
    }
    assert!(GraphRankingRule::new(Criterion::Words).is_none());
    assert!(GraphRankingRule::new(Criterion::Attribute).is_none());
    assert!(GraphRankingRule::new(Criterion::Exactness).is_none());
    assert_eq!(GraphRankingRule::new(Criterion::Proximity).unwrap().id(), "proximity");
}
