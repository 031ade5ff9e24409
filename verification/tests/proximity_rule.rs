use std::rc::Rc;
use roaring::RoaringBitmap;
use search_core::bucket_sort::bucket_sort;
use search_core::criterion::{Criterion, GraphRankingRule};
use search_core::db_cache::DatabaseCache;
use search_core::graph_based_ranking_rule::GraphBasedRankingRule;
use search_core::index::MemoryIndex;
use search_core::logger::DefaultSearchLogger;
use search_core::query_graph::QueryGraph;
use search_core::query_term::{LocatedQueryTerm, QueryTerm, WordDerivations};
use search_core::ranking_rule::RankingRule;
use search_core::ranking_rule_graph::proximity::ProximityGraph;

fn word(text: &str, slot: u16) -> LocatedQueryTerm {
    LocatedQueryTerm {
        value: QueryTerm::Word {
            derivations: WordDerivations {
                original: text.to_string(),
                zero_typo: vec![text.to_string()],
                one_typo: vec![],
                two_typos: vec![],
                use_prefix_db: false,
            },
        },
        start: slot,
        end: slot,
    }
}

fn bitmap(ids: &[u32]) -> RoaringBitmap {
    let mut b = RoaringBitmap::new();
    for id in ids {
        b.insert(*id);
    }
    b
}

/// D1 = "quick brown fox", D2 = "quick lazy brown fox".
fn two_documents() -> MemoryIndex {
    let mut index = MemoryIndex::new();
    index.add_word_pair(1, "quick".to_string(), "brown".to_string(), vec![1]);
    index.add_word_pair(1, "brown".to_string(), "fox".to_string(), vec![1, 2]);
    index.add_word_pair(2, "quick".to_string(), "fox".to_string(), vec![1]);
    index.add_word_pair(1, "quick".to_string(), "lazy".to_string(), vec![2]);
    index.add_word_pair(1, "lazy".to_string(), "brown".to_string(), vec![2]);
    index.add_word_pair(2, "quick".to_string(), "brown".to_string(), vec![2]);
    index.add_word_pair(2, "lazy".to_string(), "fox".to_string(), vec![2]);
    index.add_word_pair(3, "quick".to_string(), "fox".to_string(), vec![2]);
    index
}

#[test]
fn proximity_orders_buckets_by_distance() {
    let index = two_documents();
    let mut db_cache = DatabaseCache::new();
    let mut logger = DefaultSearchLogger;
    let universe = bitmap(&[1, 2]);
    let query = QueryGraph::from_terms(&vec![word("quick", 0), word("brown", 1)]).unwrap();
    let mut rule = GraphBasedRankingRule::<ProximityGraph>::new("proximity".to_string());
    rule.start_iteration(&index, &mut db_cache, &mut logger, &universe, Rc::new(query)).unwrap();

    let first = rule.next_bucket(&index, &mut db_cache, &mut logger, &universe).unwrap().unwrap();
    assert_eq!(first.candidates, bitmap(&[1]));
    let second = rule.next_bucket(&index, &mut db_cache, &mut logger, &universe).unwrap().unwrap();
    assert_eq!(second.candidates, bitmap(&[2]));
    // at the distances 3 to 7 there is a path each time, which matches nothing
    for _ in 3..8 {
        let none =
            rule.next_bucket(&index, &mut db_cache, &mut logger, &universe).unwrap().unwrap();
        assert!(none.candidates.is_empty());
    }
    // the fallback edge admits every document
    let last = rule.next_bucket(&index, &mut db_cache, &mut logger, &universe).unwrap().unwrap();
    assert_eq!(last.candidates, universe);
    assert!(rule.next_bucket(&index, &mut db_cache, &mut logger, &universe).unwrap().is_none());
}

#[test]
fn pipeline_returns_closest_document_first() {
    let index = two_documents();
    let mut db_cache = DatabaseCache::new();
    let mut logger = DefaultSearchLogger;
    let universe = bitmap(&[1, 2]);
    let query = QueryGraph::from_terms(&vec![word("quick", 0), word("brown", 1)]).unwrap();
    let mut rules = vec![GraphBasedRankingRule::<ProximityGraph>::new("proximity".to_string())];
    let results =
        bucket_sort(&index, &mut db_cache, &mut logger, &mut rules, &universe, Rc::new(query), 0, 20)
            .unwrap();
    assert_eq!(results, vec![1, 2]);
}

#[test]
fn empty_intersection_is_remembered() {
    // "a b" only in document 1, "b c" only in document 2
    let mut index = MemoryIndex::new();
    index.add_word_pair(1, "a".to_string(), "b".to_string(), vec![1]);
    index.add_word_pair(1, "b".to_string(), "c".to_string(), vec![2]);
    let mut db_cache = DatabaseCache::new();
    let mut logger = DefaultSearchLogger;
    let universe = bitmap(&[1, 2, 3]);
    let query =
        QueryGraph::from_terms(&vec![word("a", 0), word("b", 1), word("c", 2)]).unwrap();
    let mut rule = GraphBasedRankingRule::<ProximityGraph>::new("proximity".to_string());
    rule.start_iteration(&index, &mut db_cache, &mut logger, &universe, Rc::new(query)).unwrap();
    {
        let state = rule.state.as_ref().unwrap();
        // start -> a, seven distances and the fallback twice, c -> end
        assert_eq!(state.graph.all_edges.len(), 18);
        assert_eq!(state.graph.node_edges[1], (1..=8).collect::<Vec<u32>>());
        assert_eq!(state.cheapest_paths_state.as_ref().unwrap().next_cost, 2);
        assert_eq!(state.cheapest_paths_state.as_ref().unwrap().distances_to_end, vec![2, 2, 1, 0, 0]);
    }

    // the only path of cost 2 takes both edges at distance 1
    let first = rule.next_bucket(&index, &mut db_cache, &mut logger, &universe).unwrap().unwrap();
    assert!(first.candidates.is_empty());
    let state = rule.state.as_ref().unwrap();
    let prefixes: Vec<Vec<u32>> =
        state.empty_paths_cache.empty_prefixes.entries().into_iter().map(|e| e.path).collect();
    assert_eq!(prefixes, vec![vec![0, 1, 9]]);
    assert!(state.empty_paths_cache.empty_edges.is_empty());
    assert!(state.empty_paths_cache.path_is_empty(&vec![0, 1, 9, 17]));
    assert!(!state.empty_paths_cache.path_is_empty(&vec![0, 1, 10, 17]));
    assert_eq!(state.cheapest_paths_state.as_ref().unwrap().next_cost, 3);

    // at cost 3 the edges at distance 2 are found to match nothing at all
    let second = rule.next_bucket(&index, &mut db_cache, &mut logger, &universe).unwrap().unwrap();
    assert!(second.candidates.is_empty());
    let state = rule.state.as_ref().unwrap();
    assert!(state.empty_paths_cache.empty_edges.contains(2));
    assert!(state.empty_paths_cache.empty_edges.contains(10));
    // what was known is still known
    assert!(state.empty_paths_cache.path_is_empty(&vec![0, 1, 9, 17]));

    // the cheapest path that matches: "a b" at distance 1, then the fallback
    let mut found = Vec::new();
    while let Some(bucket) =
        rule.next_bucket(&index, &mut db_cache, &mut logger, &universe).unwrap()
    {
        found.push(bucket.candidates);
    }
    let matching: Vec<&RoaringBitmap> = found.iter().filter(|b| !b.is_empty()).collect();
    // cost 9 is paid with either pair: documents 1 and 2; cost 16 with the two fallbacks
    assert_eq!(matching, vec![&bitmap(&[1, 2]), &universe]);
}

#[test]
fn phrase_only_gets_the_fallback() {
    let index = two_documents();
    let mut db_cache = DatabaseCache::new();
    let mut logger = DefaultSearchLogger;
    let universe = bitmap(&[1, 2]);
    let phrase = LocatedQueryTerm {
        value: QueryTerm::Phrase { words: vec!["lazy".to_string(), "brown".to_string()] },
        start: 1,
        end: 2,
    };
    let query = QueryGraph::from_terms(&vec![word("quick", 0), phrase]).unwrap();
    let mut rule = GraphBasedRankingRule::<ProximityGraph>::new("proximity".to_string());
    rule.start_iteration(&index, &mut db_cache, &mut logger, &universe, Rc::new(query)).unwrap();
    assert_eq!(rule.state.as_ref().unwrap().graph.all_edges.len(), 3);
    let only = rule.next_bucket(&index, &mut db_cache, &mut logger, &universe).unwrap().unwrap();
    assert_eq!(only.candidates, universe);
    assert!(rule.next_bucket(&index, &mut db_cache, &mut logger, &universe).unwrap().is_none());
}

#[test]
fn a_rule_by_its_name_runs_the_rule_inside() {
    let index = two_documents();
    let mut db_cache = DatabaseCache::new();
    let mut logger = DefaultSearchLogger;
    let universe = bitmap(&[1, 2]);
    let query = QueryGraph::from_terms(&vec![word("quick", 0), word("brown", 1)]).unwrap();
    let mut rule = GraphRankingRule::new(Criterion::Proximity).unwrap();
    assert_eq!(rule.id(), "proximity");
    assert!(matches!(&rule, GraphRankingRule::Proximity(inner) if inner.state.is_none()));

    rule.start_iteration(&index, &mut db_cache, &mut logger, &universe, Rc::new(query)).unwrap();
    assert!(matches!(&rule, GraphRankingRule::Proximity(inner) if inner.state.is_some()));
    let first = rule.next_bucket(&index, &mut db_cache, &mut logger, &universe).unwrap().unwrap();
    assert_eq!(first.candidates, bitmap(&[1]));
    assert_eq!(first.query.nodes.len(), 4);
    let second = rule.next_bucket(&index, &mut db_cache, &mut logger, &universe).unwrap().unwrap();
    assert_eq!(second.candidates, bitmap(&[2]));

    rule.end_iteration(&index, &mut db_cache, &mut logger);
    assert_eq!(rule.id(), "proximity");
    assert!(matches!(&rule, GraphRankingRule::Proximity(inner) if inner.state.is_none()));
}

#[test]
fn the_detailed_logger_is_shown_the_state_of_the_proximity_rule() {
    let index = two_documents();
    let mut db_cache = DatabaseCache::new();
    let mut logger = search_core::logger::detailed::DetailedSearchLogger::new("");
    let universe = bitmap(&[1, 2]);
    let query = QueryGraph::from_terms(&vec![word("quick", 0), word("brown", 1)]).unwrap();
    let mut rule = GraphBasedRankingRule::<ProximityGraph>::new("proximity".to_string());
    rule.start_iteration(&index, &mut db_cache, &mut logger, &universe, Rc::new(query)).unwrap();
    assert!(logger.events.is_empty());
    rule.next_bucket(&index, &mut db_cache, &mut logger, &universe).unwrap().unwrap();
    assert_eq!(logger.events.len(), 1);
    match &logger.events[0] {
        search_core::logger::detailed::SearchEvents::ProximityState {
            graph,
            paths,
            empty_paths_cache,
        } => {
            assert_eq!(graph.all_edges.len(), 10);
            let shown: Vec<Vec<u32>> = paths.entries().into_iter().map(|e| e.path).collect();
            assert_eq!(shown, vec![vec![0, 1, 9]]);
            assert!(empty_paths_cache.empty_edges.is_empty());
        }
        _ => panic!("the state of the proximity rule was expected"),
    }
}
