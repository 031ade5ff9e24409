use search_core::error::Error;
use search_core::query_graph::{QueryGraph, QueryNode};
use search_core::query_term::{LocatedQueryTerm, QueryTerm, WordDerivations};

fn word(text: &str, start: u16, end: u16) -> LocatedQueryTerm {
    LocatedQueryTerm {
        value: QueryTerm::Word {
            derivations: WordDerivations {
                original: text.to_string(),
                zero_typo: vec![text.to_string()],
                one_typo: vec![],
                two_typos: vec![],
                use_prefix_db: false,
            },
        },
        start,
        end,
    }
}

fn original(node: &QueryNode) -> &str {
    match node {
        QueryNode::Term(term) => match &term.value {
            QueryTerm::Word { derivations } => &derivations.original,
            QueryTerm::Phrase { .. } => "<phrase>",
        },
        QueryNode::Deleted => "<deleted>",
        QueryNode::Start => "<start>",
        QueryNode::End => "<end>",
    }
}

fn successors(graph: &QueryGraph) -> Vec<Vec<u32>> {
    graph.edges.iter().map(|e| e.successors.clone()).collect()
}

fn predecessors(graph: &QueryGraph) -> Vec<Vec<u32>> {
    graph.edges.iter().map(|e| e.predecessors.clone()).collect()
}

#[test]
fn empty_query_joins_start_to_end() {
    let graph = QueryGraph::from_terms(&vec![]).unwrap();
    assert_eq!(graph.nodes.len(), 2);
    assert!(matches!(graph.nodes[0], QueryNode::Start));
    assert!(matches!(graph.nodes[1], QueryNode::End));
    assert_eq!(graph.root_node, 0);
    assert_eq!(graph.end_node, 1);
    assert_eq!(successors(&graph), vec![vec![1], vec![]]);
    assert_eq!(predecessors(&graph), vec![vec![], vec![0]]);
}

#[test]
fn words_in_a_row_form_a_chain() {
    let graph =
        QueryGraph::from_terms(&vec![word("the", 0, 0), word("sun", 1, 1), word("flower", 2, 2)])
            .unwrap();
    let names: Vec<&str> = graph.nodes.iter().map(original).collect();
    assert_eq!(names, vec!["<start>", "the", "sun", "flower", "<end>"]);
    assert_eq!(successors(&graph), vec![vec![1], vec![2], vec![3], vec![4], vec![]]);
    assert_eq!(predecessors(&graph), vec![vec![], vec![0], vec![1], vec![2], vec![3]]);
    assert_eq!(graph.end_node, 4);
}

#[test]
fn fused_words_open_a_second_way() {
    // "sun flower" can also be read as "sunflower", which covers two slots
    let terms = vec![
        word("the", 0, 0),
        word("sun", 1, 1),
        word("sunflower", 1, 2),
        word("flower", 2, 2),
    ];
    let graph = QueryGraph::from_terms(&terms).unwrap();
    assert_eq!(successors(&graph), vec![vec![1], vec![2, 3], vec![4], vec![5], vec![5], vec![]]);
    assert_eq!(
        predecessors(&graph),
        vec![vec![], vec![0], vec![1], vec![1], vec![2], vec![3, 4]]
    );
    let copy = graph.clone_graph();
    assert_eq!(successors(&copy), successors(&graph));
    assert_eq!(predecessors(&copy), predecessors(&graph));
    assert_eq!(copy.nodes.iter().map(original).collect::<Vec<_>>().len(), 6);
    assert_eq!(original(&copy.nodes[3]), "sunflower");
}

#[test]
fn terms_off_every_chain_become_tombstones() {
    // "gap" begins at slot 3, which follows no term; "end" covers the last slot but
    // nothing leads to it
    let terms = vec![word("a", 0, 0), word("b", 1, 1), word("gap", 3, 3), word("late", 3, 4)];
    let outcome = QueryGraph::from_terms(&terms);
    // the last slot is 4 and no chain reaches it from slot 0
    assert!(matches!(outcome, Err(Error::InvalidQuery { .. })));

    // a term that leads nowhere is removed, and the others keep their places
    let terms = vec![word("a", 0, 0), word("ab", 0, 1), word("b", 1, 1), word("stray", 1, 1)];
    let graph = QueryGraph::from_terms(&terms).unwrap();
    assert_eq!(graph.nodes.len(), 6);
    assert_eq!(successors(&graph), vec![vec![1, 2], vec![3, 4], vec![5], vec![5], vec![5], vec![]]);

    let terms = vec![word("a", 0, 0), word("dead", 0, 0), word("b", 1, 1), word("c", 2, 2)];
    let graph = QueryGraph::from_terms(&terms).unwrap();
    assert_eq!(successors(&graph), vec![vec![1, 2], vec![3], vec![3], vec![4], vec![5], vec![]]);

    let terms = vec![word("a", 0, 0), word("far", 5, 6), word("b", 1, 6)];
    let outcome = QueryGraph::from_terms(&terms);
    assert!(matches!(outcome, Err(Error::InvalidQuery { .. })));

    let terms = vec![word("a", 0, 0), word("b", 1, 6), word("far", 5, 6)];
    let graph = QueryGraph::from_terms(&terms).unwrap();
    let names: Vec<&str> = graph.nodes.iter().map(original).collect();
    assert_eq!(names, vec!["<start>", "a", "b", "<deleted>", "<end>"]);
    assert_eq!(successors(&graph), vec![vec![1], vec![2], vec![4], vec![], vec![]]);
    assert_eq!(predecessors(&graph), vec![vec![], vec![0], vec![1], vec![], vec![2]]);
}

#[test]
fn ill_formed_terms_are_refused() {
    // a span that ends before it begins
    let outcome = QueryGraph::from_terms(&vec![word("a", 1, 0)]);
    assert!(matches!(outcome, Err(Error::InvalidQuery { .. })));
    // terms out of order
    let outcome = QueryGraph::from_terms(&vec![word("b", 1, 1), word("a", 0, 0)]);
    assert!(matches!(outcome, Err(Error::InvalidQuery { .. })));
    // the input may begin at any slot
    let graph = QueryGraph::from_terms(&vec![word("a", 3, 3), word("b", 4, 4)]).unwrap();
    assert_eq!(successors(&graph), vec![vec![1], vec![2], vec![3], vec![]]);
}

#[test]
fn derivations_come_exact_first() {
    let derivations = WordDerivations {
        original: "quikc".to_string(),
        zero_typo: vec!["quikc".to_string()],
        one_typo: vec!["quick".to_string()],
        two_typos: vec!["quilt".to_string(), "quack".to_string()],
        use_prefix_db: true,
    };
    assert_eq!(derivations.all_derivations(), vec!["quikc", "quick", "quilt", "quack"]);
    let copy = derivations.clone_derivations();
    assert_eq!(copy.original, "quikc");
    assert_eq!(copy.two_typos, derivations.two_typos);
    assert!(copy.use_prefix_db);
}

#[test]
fn refusal_of_terms_names_the_field() {
    match QueryGraph::from_terms(&vec![word("a", 1, 0)]) {
        Err(e @ Error::InvalidQuery { .. }) => {
            assert_eq!(e.code(), "invalid_search_q");
            match e {
                Error::InvalidQuery { parameter, field, value } => {
                    assert_eq!(parameter.as_deref(), Some("terms"));
                    assert_eq!(field, "terms");
                    assert_eq!(value, "");
                }
                _ => unreachable!(),
            }
        }
        other => panic!("unexpected outcome: {other:?}"),
    }
    // a gap between the terms: no chain covers the input
    match QueryGraph::from_terms(&vec![word("a", 0, 0), word("b", 2, 2)]) {
        Err(Error::InvalidQuery { field, value, .. }) => {
            assert_eq!(field, "terms");
            assert_eq!(value, "");
        }
        other => panic!("unexpected outcome: {other:?}"),
    }
}
