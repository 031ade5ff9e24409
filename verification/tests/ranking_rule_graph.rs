use std::rc::Rc;
use roaring::RoaringBitmap;
use search_core::db_cache::DatabaseCache;
use search_core::error::Error;
use search_core::index::MemoryIndex;
use search_core::query_graph::QueryGraph;
use search_core::query_term::{LocatedQueryTerm, QueryTerm, WordDerivations};
use search_core::ranking_rule_graph::cheapest_paths::{KCheapestPathsState, UNREACHABLE};
use search_core::ranking_rule_graph::edge_docids_cache::{EdgeDocids, EdgeDocidsCache};
use search_core::ranking_rule_graph::empty_paths_cache::EmptyPathsCache;
use search_core::ranking_rule_graph::paths_map::PathsMap;
use search_core::ranking_rule_graph::proximity::{ProximityGraph, FALLBACK_COST};
use search_core::ranking_rule_graph::typo::TypoGraph;
use search_core::ranking_rule_graph::{EdgeDetails, RankingRuleGraph, RankingRuleGraphTrait};

fn bitmap(ids: &[u32]) -> RoaringBitmap {
    ids.iter().copied().collect()
}

fn word(text: &str, typos: &[&str], slot: u16) -> LocatedQueryTerm {
    LocatedQueryTerm {
        value: QueryTerm::Word {
            derivations: WordDerivations {
                original: text.to_string(),
                zero_typo: vec![text.to_string()],
                one_typo: typos.iter().map(|w| w.to_string()).collect(),
                two_typos: vec![],
                use_prefix_db: false,
            },
        },
        start: slot,
        end: slot,
    }
}

fn paths(map: &PathsMap<u64>) -> Vec<(Vec<u32>, u64)> {
    let mut found: Vec<(Vec<u32>, u64)> =
        map.entries().into_iter().map(|e| (e.path, e.value)).collect();
    found.sort();
    found
}

fn two_words() -> RankingRuleGraph<ProximityGraph> {
    let query = QueryGraph::from_terms(&vec![word("a", &["b"], 0), word("c", &[], 1)]).unwrap();
    RankingRuleGraph::build(Rc::new(query)).unwrap()
}

#[test]
fn proximity_edges_between_two_words() {
    let graph = two_words();
    // start -> a, then for each of the 7 distances the pairs (a, c) and (b, c), then the
    // fallback, then c -> end
    assert_eq!(graph.all_edges.len(), 1 + 7 * 2 + 1 + 1);
    assert_eq!(graph.node_edges, vec![vec![0], (1..=15).collect(), vec![16], vec![]]);
    let shown: Vec<String> = graph.all_edges[1..6]
        .iter()
        .map(|edge| {
            let edge = edge.as_ref().unwrap();
            assert_eq!((edge.from_node, edge.to_node), (1, 2));
            match &edge.details {
                EdgeDetails::Data(pair) => {
                    assert_eq!(edge.cost, pair.proximity);
                    format!("{} {} {}", pair.left, pair.right, pair.proximity)
                }
                EdgeDetails::Unconditional => "always".to_string(),
            }
        })
        .collect();
    assert_eq!(shown, vec!["a c 1", "b c 1", "a c 2", "b c 2", "a c 3"]);
    let fallback = graph.all_edges[15].as_ref().unwrap();
    assert_eq!(fallback.cost, FALLBACK_COST);
    assert!(matches!(fallback.details, EdgeDetails::Unconditional));
    for edge in [&graph.all_edges[0], &graph.all_edges[16]] {
        let edge = edge.as_ref().unwrap();
        assert_eq!(edge.cost, 0);
        assert!(matches!(edge.details, EdgeDetails::Unconditional));
    }
    // no distance 0, and none from the fallback cost on
    for edge in graph.all_edges.iter().flatten() {
        if let EdgeDetails::Data(pair) = &edge.details {
            assert!(1 <= pair.proximity && pair.proximity < FALLBACK_COST);
        }
    }
}

#[test]
fn paths_come_cheapest_first_and_all_of_one_cost_together() {
    let graph = two_words();
    let cache = EmptyPathsCache::new();
    let mut state = KCheapestPathsState::new(&graph).unwrap();
    assert_eq!(state.distances_to_end, vec![1, 1, 0, 0]);
    assert_eq!(state.next_cost, 1);
    for cost in 1..8u64 {
        let mut out = PathsMap::new();
        let next = state.compute_paths_of_next_lowest_cost(&graph, &cache, &mut out).unwrap();
        let first = 2 * cost as u32 - 1;
        assert_eq!(paths(&out), vec![(vec![0, first, 16], cost), (vec![0, first + 1, 16], cost)]);
        assert_eq!(next.next_cost, cost + 1);
        state = next;
    }
    let mut out = PathsMap::new();
    let next = state.compute_paths_of_next_lowest_cost(&graph, &cache, &mut out);
    assert_eq!(paths(&out), vec![(vec![0, 15, 16], 8)]);
    assert!(next.is_none());
}

#[test]
fn enumeration_passes_over_what_is_known_to_be_empty() {
    let mut graph = two_words();
    let mut cache = EmptyPathsCache::new();
    cache.forbid_edge(1);
    cache.forbid_prefix(vec![0, 2]);
    assert!(cache.path_is_empty(&vec![0, 1, 16]));
    assert!(cache.path_is_empty(&vec![0, 2, 16]));
    assert!(!cache.path_is_empty(&vec![0, 3, 16]));
    let state = KCheapestPathsState::new(&graph).unwrap();
    let mut out = PathsMap::new();
    // every path of cost 1 is ruled out: the batch is empty, and the enumeration goes on
    let state = state.compute_paths_of_next_lowest_cost(&graph, &cache, &mut out).unwrap();
    assert!(out.is_empty());
    assert_eq!(state.next_cost, 2);
    // a removed edge is not walked either
    graph.remove_edge(3);
    graph.remove_edge(1000);
    assert!(graph.all_edges[3].is_none());
    assert_eq!(graph.all_edges.len(), 17);
    let state = state.compute_paths_of_next_lowest_cost(&graph, &cache, &mut out).unwrap();
    assert_eq!(paths(&out), vec![(vec![0, 4, 16], 2)]);
    assert_eq!(state.next_cost, 3);
    // the batch is added to what the collection held
    let state = state.compute_paths_of_next_lowest_cost(&graph, &cache, &mut out).unwrap();
    assert_eq!(out.entries().len(), 3);
    assert_eq!(state.next_cost, 4);
    // with the empty path ruled out, nothing is left at all
    cache.forbid_prefix(vec![]);
    let mut out = PathsMap::new();
    assert!(state.compute_paths_of_next_lowest_cost(&graph, &cache, &mut out).is_none());
    assert!(out.is_empty());
}

#[test]
fn graph_without_path_has_nothing_to_enumerate() {
    let mut graph = two_words();
    graph.remove_edge(16);
    assert!(KCheapestPathsState::new(&graph).is_none());
    let graph = two_words();
    let state = KCheapestPathsState::new(&graph).unwrap();
    assert!(state.distances_to_end.iter().all(|d| *d != UNREACHABLE));
}

#[test]
fn edge_cache_gives_what_the_rule_resolves() {
    let mut index = MemoryIndex::new();
    index.add_word_pair(1, "a".to_string(), "c".to_string(), vec![1, 2]);
    index.add_word_pair(1, "a".to_string(), "c".to_string(), vec![2, 5]);
    index.add_word_pair(2, "b".to_string(), "c".to_string(), vec![3]);
    let graph = two_words();
    let mut db_cache = DatabaseCache::new();
    let mut edge_cache = EdgeDocidsCache::new();
    for e in 0..graph.all_edges.len() as u32 {
        let edge = graph.all_edges[e as usize].as_ref().unwrap();
        let cached = edge_cache.get_or_compute(e, &graph, &index, &mut db_cache).unwrap();
        let again = edge_cache.get_or_compute(e, &graph, &index, &mut db_cache).unwrap();
        match (&edge.details, cached, again) {
            (EdgeDetails::Unconditional, EdgeDocids::All, EdgeDocids::All) => {}
            (EdgeDetails::Data(pair), EdgeDocids::Bitmap(first), EdgeDocids::Bitmap(second)) => {
                let resolved =
                    ProximityGraph::resolve_edge(pair, &index, &mut DatabaseCache::new()).unwrap();
                assert_eq!(first, resolved);
                assert_eq!(second, resolved);
            }
            other => panic!("{other:?}"),
        }
    }
    assert_eq!(edge_cache.cache.len(), 14);
    assert_eq!(edge_cache.cache[0].docids, bitmap(&[1, 2, 5]));
    assert_eq!(edge_cache.cache[3].docids, bitmap(&[3]));
}

#[test]
fn resolved_paths_are_union_of_intersections() {
    let mut index = MemoryIndex::new();
    index.add_word_pair(1, "a".to_string(), "c".to_string(), vec![1, 2, 9]);
    index.add_word_pair(1, "b".to_string(), "c".to_string(), vec![3, 9]);
    index.add_word_pair(2, "a".to_string(), "c".to_string(), vec![4]);
    let graph = two_words();
    let mut db_cache = DatabaseCache::new();
    let mut edge_cache = EdgeDocidsCache::new();
    let mut empty_cache = EmptyPathsCache::new();
    let universe = bitmap(&[1, 2, 3, 4, 5]);
    let mut chosen = PathsMap::new();
    chosen.insert(vec![0, 1, 16], 1);
    chosen.insert(vec![0, 2, 16], 1);
    chosen.insert(vec![0, 4, 16], 2);
    let bucket = graph
        .resolve_paths(&index, &mut db_cache, &mut edge_cache, &mut empty_cache, &universe, chosen)
        .unwrap();
    assert_eq!(bucket, bitmap(&[1, 2, 3]));
    // the edge (b, c, 2) matches nothing at all
    assert!(empty_cache.empty_edges.contains(4));
    assert!(empty_cache.empty_prefixes.is_empty());

    // no path at all: no document
    let none = graph
        .resolve_paths(
            &index,
            &mut db_cache,
            &mut edge_cache,
            &mut empty_cache,
            &universe,
            PathsMap::new(),
        )
        .unwrap();
    assert!(none.is_empty());

    // an empty universe rules out every path
    let mut chosen = PathsMap::new();
    chosen.insert(vec![0, 1, 16], 1);
    let none = graph
        .resolve_paths(
            &index,
            &mut db_cache,
            &mut edge_cache,
            &mut empty_cache,
            &RoaringBitmap::new(),
            chosen,
        )
        .unwrap();
    assert!(none.is_empty());
    assert!(empty_cache.path_is_empty(&vec![0, 3, 16]));
}

#[test]
fn too_many_edges_cannot_happen_in_small_graphs() {
    let query = QueryGraph::from_terms(&vec![word("a", &[], 0)]).unwrap();
    let built: Result<RankingRuleGraph<TypoGraph>, Error> = RankingRuleGraph::build(Rc::new(query));
    let graph = built.unwrap();
    assert_eq!(graph.all_edges.len(), 2);
    assert_eq!(graph.all_edges[0].as_ref().unwrap().cost, 0);
}
