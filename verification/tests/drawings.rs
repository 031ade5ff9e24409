use std::rc::Rc;
use roaring::RoaringBitmap;
use search_core::bucket_sort::bucket_sort;
use search_core::criterion::{Criterion, GraphRankingRule};
use search_core::db_cache::DatabaseCache;
use search_core::error::Error;
use search_core::index::MemoryIndex;
use search_core::logger::d2::{
    activated_id_text, edge_d2_description, joined_text, paths_d2_description,
    proximity_graph_d2_description, query_graph_d2_description, query_node_d2_desc, D2File,
};
use search_core::logger::detailed::DetailedSearchLogger;
use search_core::logger::SearchLogger;
use search_core::query_graph::{QueryGraph, QueryNode};
use search_core::query_term::{LocatedQueryTerm, QueryTerm, WordDerivations};
use search_core::ranking_rule_graph::empty_paths_cache::EmptyPathsCache;
use search_core::ranking_rule_graph::paths_map::PathsMap;
use search_core::ranking_rule_graph::proximity::ProximityGraph;
use search_core::ranking_rule_graph::RankingRuleGraph;

const ACTIVATION: &str = " {\n    style {\n        fill: \"#D8A7B1\"\n    }\n}\n";
const BOX: &str = "\" {\n            shape: class\n        }\n";

fn ids(ids: &[u32]) -> RoaringBitmap {
    ids.iter().copied().collect()
}

fn term(text: &str, one_typo: &[&str], use_prefix_db: bool, slot: u16) -> LocatedQueryTerm {
    LocatedQueryTerm {
        value: QueryTerm::Word {
            derivations: WordDerivations {
                original: text.to_string(),
                zero_typo: vec![text.to_string()],
                one_typo: one_typo.iter().map(|w| w.to_string()).collect(),
                two_typos: vec![],
                use_prefix_db,
            },
        },
        start: slot,
        end: slot,
    }
}

fn shown(files: &[D2File]) -> Vec<(&str, &str)> {
    files.iter().map(|f| (f.name.as_str(), f.content.as_str())).collect()
}

fn quick_brown() -> RankingRuleGraph<ProximityGraph> {
    let query =
        QueryGraph::from_terms(&vec![term("quick", &[], false, 0), term("brown", &[], false, 1)])
            .unwrap();
    RankingRuleGraph::<ProximityGraph>::build(Rc::new(query)).unwrap()
}

const QUICK_BROWN_GRAPH: &str = "direction: right\nProximity Graph {\n\
0 : START\n\
1 : \"quick\" {\nshape: class\n\"quick\" : 0\n}\n\
2 : \"brown\" {\nshape: class\n\"brown\" : 0\n}\n\
3 : END\n\
0 -> 1 : \"always cost 0\"\n\
1 -> 2 : \"cost 1 quick brown 1\"\n\
1 -> 2 : \"cost 2 quick brown 2\"\n\
1 -> 2 : \"cost 3 quick brown 3\"\n\
1 -> 2 : \"cost 4 quick brown 4\"\n\
1 -> 2 : \"cost 5 quick brown 5\"\n\
1 -> 2 : \"cost 6 quick brown 6\"\n\
1 -> 2 : \"cost 7 quick brown 7\"\n\
1 -> 2 : \"always cost 8\"\n\
2 -> 3 : \"always cost 0\"\n\
}\n";

#[test]
fn activations_are_named_by_their_counters() {
    assert_eq!(activated_id_text(&vec![]), "0");
    assert_eq!(activated_id_text(&vec![0]), "00");
    assert_eq!(activated_id_text(&vec![2, 0, 13]), "02013");
}

#[test]
fn words_are_joined_by_spaces() {
    assert_eq!(joined_text(&vec![]), "");
    assert_eq!(joined_text(&vec!["new".to_string()]), "new");
    assert_eq!(joined_text(&vec!["new".to_string(), "york".to_string()]), "new york");
}

#[test]
fn a_word_is_drawn_with_its_variants() {
    let node = QueryNode::Term(term("sun", &["son", "sum"], true, 0));
    assert_eq!(
        query_node_d2_desc(4, &node),
        "4 : \"sun\" {\nshape: class\n\"sun\" : 0\n\"son\" : 1\n\"sum\" : 1\nuse prefix DB : true\n}\n"
    );
    assert_eq!(query_node_d2_desc(0, &QueryNode::Start), "0 : START\n");
    assert_eq!(query_node_d2_desc(12, &QueryNode::End), "12 : END\n");
}

#[test]
fn a_query_graph_is_drawn_from_left_to_right() {
    let graph =
        QueryGraph::from_terms(&vec![term("quick", &[], false, 0), term("brown", &[], false, 1)])
            .unwrap();
    assert_eq!(
        query_graph_d2_description(&graph),
        "direction: right\n\
0 : START\n0 -> 1;\n\n\
1 : \"quick\" {\nshape: class\n\"quick\" : 0\n}\n1 -> 2;\n\n\
2 : \"brown\" {\nshape: class\n\"brown\" : 0\n}\n2 -> 3;\n\n\
3 : END\n"
    );
}

#[test]
fn an_edge_is_drawn_as_a_box() {
    let mut graph = quick_brown();
    assert_eq!(
        edge_d2_description(&graph, &"7".to_string(), 2).unwrap(),
        format!("7: \"quick->brown [2]{BOX}")
    );
    assert_eq!(
        edge_d2_description(&graph, &String::new(), 9).unwrap(),
        format!(": \"brown->END [0]{BOX}")
    );
    assert!(matches!(edge_d2_description(&graph, &String::new(), 10), Err(Error::Internal)));
    graph.remove_edge(2);
    assert!(matches!(edge_d2_description(&graph, &String::new(), 2), Err(Error::Internal)));
}

#[test]
fn paths_are_drawn_edge_after_edge() {
    let graph = quick_brown();
    let mut paths: PathsMap<u64> = PathsMap::new();
    paths.insert(vec![0, 1, 9], 1);
    paths.insert(vec![0, 8, 9], 8);
    let expected = format!(
        "0: \"START->quick [0]{BOX}0 -> 01\n0 -> 08\n\
01: \"quick->brown [1]{BOX}01 -> 019\n\
019: \"brown->END [0]{BOX}\
08: \"quick->brown [8]{BOX}08 -> 089\n\
089: \"brown->END [0]{BOX}"
    );
    assert_eq!(paths_d2_description(&graph, &String::new(), &paths).unwrap(), expected);

    let mut wrong: PathsMap<u64> = PathsMap::new();
    wrong.insert(vec![0, 44], 1);
    assert!(matches!(
        paths_d2_description(&graph, &String::new(), &wrong),
        Err(Error::Internal)
    ));
}

#[test]
fn a_state_of_the_proximity_rule_is_drawn() {
    let graph = quick_brown();
    let mut paths: PathsMap<u64> = PathsMap::new();
    paths.insert(vec![0, 2, 9], 2);
    let mut cache = EmptyPathsCache::new();
    cache.forbid_edge(5);
    cache.forbid_edge(3);
    cache.forbid_prefix(vec![0, 1]);
    let expected = format!(
        "{QUICK_BROWN_GRAPH}Shortest Paths {{\n\
0: \"START->quick [0]{BOX}0 -> 02\n\
02: \"quick->brown [2]{BOX}02 -> 029\n\
029: \"brown->END [0]{BOX}\
}}\nEmpty Path Prefixes {{\n\
0: \"START->quick [0]{BOX}0 -> 01\n\
01: \"quick->brown [1]{BOX}\
}}\nRemoved Edges {{\n3\n5\n}}\n"
    );
    assert_eq!(proximity_graph_d2_description(&graph, &paths, &cache).unwrap(), expected);
}

#[test]
fn the_course_of_a_search_is_drawn() {
    let mut logger = DetailedSearchLogger::new("drawings");
    logger.ranking_rules(&vec!["words".to_string(), "proximity".to_string()]);
    let universe = ids(&[1, 2]);
    let query = QueryGraph::from_terms(&vec![]).unwrap();
    logger.start_iteration_ranking_rule(0, &query, &universe);
    logger.next_bucket_ranking_rule(0, &universe);
    logger.start_iteration_ranking_rule(1, &query, &universe);
    logger.skip_bucket_ranking_rule(1, &universe);
    logger.log_words_state(&query);
    logger.add_to_results(&vec![7, 9]);
    logger.add_to_results(&vec![]);
    logger.end_iteration_ranking_rule(1, &universe);
    logger.end_iteration_ranking_rule(0, &universe);

    let files = logger.d2_description(&vec![0, 0, 0, 0, 0, 42, 43, 0, 0]).unwrap();
    let diagram = format!(
        "Control Flow Between Ranking Rules: {{\nshape: sequence_diagram\n\
0: words\n1: proximity\nresults\n\
0.00{ACTIVATION}\
0.00 -> 0.01 : next bucket\n\
0.01 -> 1.010 : start iteration\n\
1.010{ACTIVATION}\
1.010 -> 1.011 : skip bucket (2)\n\
1.011 {{\n    link: \"1.011.d2.svg\"\n}}\n\
1.011 -> results.42 : \"add 2\"\n\
results.42 {{\n    tooltip: \"[7, 9]\"\n    style {{\n        fill: \"#B6E2D3\"\n    }}\n}}\n\n\
1.011 -> 0.01 : end iteration\n\
0.01 -> start : end iteration\n\
}}\n"
    );
    assert_eq!(
        shown(&files),
        vec![
            ("index.d2", diagram.as_str()),
            ("1.011.d2", "direction: right\n0 : START\n0 -> 1;\n\n1 : END\n"),
        ]
    );
}

#[test]
fn results_get_a_name_of_their_own() {
    let mut logger = DetailedSearchLogger::new("drawings");
    logger.ranking_rules(&vec!["words".to_string()]);
    let universe = ids(&[1, 2]);
    let query = QueryGraph::from_terms(&vec![]).unwrap();
    logger.start_iteration_ranking_rule(0, &query, &universe);
    logger.add_to_results(&vec![5]);
    logger.end_iteration_ranking_rule(0, &universe);

    let files = logger.write_d2_description().unwrap();
    assert_eq!(files.len(), 1);
    assert_eq!(files[0].name, "index.d2");
    let content = files[0].content.as_str();
    let head = format!(
        "Control Flow Between Ranking Rules: {{\nshape: sequence_diagram\n0: words\nresults\n\
0.00{ACTIVATION}0.00 -> results."
    );
    let rest = content.strip_prefix(head.as_str()).unwrap();
    let (id, rest) = rest.split_once(' ').unwrap();
    let id: u64 = id.parse().unwrap();
    assert_eq!(
        rest,
        format!(
            ": \"add 1\"\nresults.{id} {{\n    tooltip: \"[5]\"\n    style {{\n        \
fill: \"#B6E2D3\"\n    }}\n}}\n\n0.00 -> start : end iteration\n}}\n"
        )
    );
    let same = logger.d2_description(&vec![0, id, 0]).unwrap();
    assert_eq!(shown(&same), shown(&files));
}

#[test]
fn a_search_with_the_proximity_rule_draws_its_states() {
    let mut index = MemoryIndex::new();
    index.add_word_pair(1, "quick".to_string(), "brown".to_string(), vec![1]);
    index.add_word_pair(2, "quick".to_string(), "brown".to_string(), vec![2, 3]);
    let mut db_cache = DatabaseCache::new();
    let mut logger = DetailedSearchLogger::new("drawings");
    let universe = ids(&[1, 2, 3, 4]);
    let query =
        QueryGraph::from_terms(&vec![term("quick", &[], false, 0), term("brown", &[], false, 1)])
            .unwrap();
    let mut rules = vec![GraphRankingRule::new(Criterion::Proximity).unwrap()];
    logger.ranking_rules(&vec!["proximity".to_string()]);
    bucket_sort(&index, &mut db_cache, &mut logger, &mut rules, &universe, Rc::new(query), 0, 10).unwrap();

    let files = logger.write_d2_description().unwrap();
    let names: Vec<&str> = files.iter().map(|f| f.name.as_str()).collect();
    assert_eq!(names, vec!["index.d2", "0.01.d2", "0.02.d2"]);
    assert_eq!(
        files[1].content,
        format!(
            "{QUICK_BROWN_GRAPH}Shortest Paths {{\n\
0: \"START->quick [0]{BOX}0 -> 01\n\
01: \"quick->brown [1]{BOX}01 -> 019\n\
019: \"brown->END [0]{BOX}\
}}\nEmpty Path Prefixes {{\n}}\nRemoved Edges {{\n}}\n"
        )
    );
    assert!(files[2].content.contains("02: \"quick->brown [2]"));
    assert!(files[0].content.contains("0.02 -> 0.03 : skip bucket (1)\n"));
}

#[test]
fn what_cannot_be_drawn_is_reported() {
    let universe = ids(&[1]);
    let query = QueryGraph::from_terms(&vec![]).unwrap();

    // the ranking rules were never told
    let logger = DetailedSearchLogger::new("drawings");
    assert!(matches!(logger.write_d2_description(), Err(Error::Internal)));

    // a bucket asked while no iteration is under way
    let mut logger = DetailedSearchLogger::new("drawings");
    logger.ranking_rules(&vec!["words".to_string()]);
    logger.next_bucket_ranking_rule(0, &universe);
    assert!(matches!(logger.write_d2_description(), Err(Error::Internal)));

    // a path through an edge that the graph does not have
    let mut logger = DetailedSearchLogger::new("drawings");
    logger.ranking_rules(&vec!["proximity".to_string()]);
    logger.start_iteration_ranking_rule(0, &query, &universe);
    let mut paths: PathsMap<u64> = PathsMap::new();
    paths.insert(vec![99], 1);
    logger.log_proximity_state(&quick_brown(), &paths, &EmptyPathsCache::new());
    assert!(matches!(logger.write_d2_description(), Err(Error::Internal)));

    // no event at all
    let mut logger = DetailedSearchLogger::new("drawings");
    logger.ranking_rules(&vec![]);
    let files = logger.write_d2_description().unwrap();
    assert_eq!(
        shown(&files),
        vec![("index.d2", "Control Flow Between Ranking Rules: {\nshape: sequence_diagram\nresults\n}\n")]
    );
}
