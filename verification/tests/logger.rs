use std::rc::Rc;
use roaring::RoaringBitmap;
use search_core::bucket_sort::bucket_sort;
use search_core::criterion::{Criterion, GraphRankingRule};
use search_core::db_cache::DatabaseCache;
use search_core::error::Error;
use search_core::index::MemoryIndex;
use search_core::logger::detailed::{DetailedSearchLogger, SearchEvents};
use search_core::logger::SearchLogger;
use search_core::query_graph::QueryGraph;
use search_core::query_term::{LocatedQueryTerm, QueryTerm, WordDerivations};

fn bitmap(ids: &[u32]) -> RoaringBitmap {
    ids.iter().copied().collect()
}

fn word(text: &str, slot: u16) -> LocatedQueryTerm {
    LocatedQueryTerm {
        value: QueryTerm::Word {
            derivations: WordDerivations {
                original: text.to_string(),
                zero_typo: vec![text.to_string()],
                one_typo: vec![],
                two_typos: vec![],
                use_prefix_db: false,
            },
        },
        start: slot,
        end: slot,
    }
}

fn name(event: &SearchEvents) -> String {
    match event {
        SearchEvents::RankingRuleStartIteration { ranking_rule_idx, .. } => {
            format!("start {ranking_rule_idx}")
        }
        SearchEvents::RankingRuleNextBucket { ranking_rule_idx, .. } => {
            format!("next {ranking_rule_idx}")
        }
        SearchEvents::RankingRuleEndIteration { ranking_rule_idx, .. } => {
            format!("end {ranking_rule_idx}")
        }
        SearchEvents::RankingRuleSkipBucket { ranking_rule_idx, candidates } => {
            format!("skip {ranking_rule_idx} {:?}", candidates.iter().collect::<Vec<_>>())
        }
        SearchEvents::ExtendResults { new } => format!("results {new:?}"),
        SearchEvents::WordsState { .. } => "words".to_string(),
        SearchEvents::ProximityState { paths, .. } => format!("proximity {}", paths.entries().len()),
    }
}

#[test]
fn search_is_recorded_step_by_step() {
    let mut index = MemoryIndex::new();
    index.add_word_pair(1, "quick".to_string(), "brown".to_string(), vec![1]);
    index.add_word_pair(2, "quick".to_string(), "brown".to_string(), vec![2, 3]);
    let mut db_cache = DatabaseCache::new();
    let mut logger = DetailedSearchLogger::new("log");
    assert_eq!(logger.folder_path, "log");
    let universe = bitmap(&[1, 2, 3, 4]);
    let query = QueryGraph::from_terms(&vec![word("quick", 0), word("brown", 1)]).unwrap();
    let mut rules = vec![GraphRankingRule::new(Criterion::Proximity).unwrap()];
    logger.ranking_rules(&vec!["proximity".to_string()]);
    let results =
        bucket_sort(&index, &mut db_cache, &mut logger, &mut rules, &universe, Rc::new(query), 0, 10)
            .unwrap();
    assert_eq!(results, vec![1, 2, 3, 4]);

    assert_eq!(logger.ranking_rules_ids, Some(vec!["proximity".to_string()]));
    assert_eq!(logger.initial_universe, Some(universe));
    assert_eq!(logger.initial_query.as_ref().unwrap().nodes.len(), 4);
    let names: Vec<String> = logger.events.iter().map(name).collect();
    assert_eq!(
        names,
        vec![
            "start 0",
            "next 0",
            "proximity 1",
            "results [1]",
            "next 0",
            "proximity 1",
            "results [2, 3]",
            "skip 0 [4]",
            "results [4]",
            "end 0",
        ]
    );

    let steps = logger.activations().unwrap();
    let counters: Vec<(Vec<usize>, Vec<usize>)> =
        steps.iter().map(|s| (s.before.clone(), s.after.clone())).collect();
    assert_eq!(counters[0], (vec![], vec![0]));
    assert_eq!(counters[1], (vec![0], vec![1]));
    assert_eq!(counters[3], (vec![1], vec![1]));
    assert_eq!(counters[4], (vec![1], vec![2]));
    assert_eq!(counters[7], (vec![2], vec![3]));
    assert_eq!(counters[9], (vec![3], vec![]));
}

#[test]
fn nested_iterations_have_nested_counters() {
    let mut logger = DetailedSearchLogger::new("");
    let universe = bitmap(&[1, 2]);
    let query = QueryGraph::from_terms(&vec![]).unwrap();
    logger.start_iteration_ranking_rule(0, &query, &universe);
    logger.next_bucket_ranking_rule(0, &universe);
    logger.next_bucket_ranking_rule(0, &universe);
    logger.start_iteration_ranking_rule(1, &query, &universe);
    logger.skip_bucket_ranking_rule(1, &universe);
    logger.log_words_state(&query);
    logger.add_to_results(&vec![]);
    logger.end_iteration_ranking_rule(1, &universe);
    logger.end_iteration_ranking_rule(0, &universe);
    logger.end_iteration_ranking_rule(0, &universe);
    logger.add_to_results(&vec![]);
    let afters: Vec<Vec<usize>> =
        logger.activations().unwrap().into_iter().map(|s| s.after).collect();
    assert_eq!(
        afters,
        vec![
            vec![0],
            vec![1],
            vec![2],
            vec![2, 0],
            vec![2, 1],
            vec![2, 1],
            vec![2, 1],
            vec![2],
            vec![],
            vec![],
            vec![],
        ]
    );
}

#[test]
fn impossible_events_are_reported() {
    let universe = bitmap(&[1, 2]);
    let query = QueryGraph::from_terms(&vec![]).unwrap();

    let mut logger = DetailedSearchLogger::new("");
    logger.next_bucket_ranking_rule(0, &universe);
    assert!(matches!(logger.activations(), Err(Error::Internal)));

    let mut logger = DetailedSearchLogger::new("");
    logger.start_iteration_ranking_rule(0, &query, &universe);
    logger.end_iteration_ranking_rule(0, &universe);
    logger.add_to_results(&vec![3]);
    assert!(matches!(logger.activations(), Err(Error::Internal)));

    let mut logger = DetailedSearchLogger::new("");
    logger.log_words_state(&query);
    assert!(matches!(logger.activations(), Err(Error::Internal)));

    let logger = DetailedSearchLogger::new("");
    assert!(logger.activations().unwrap().is_empty());
}
