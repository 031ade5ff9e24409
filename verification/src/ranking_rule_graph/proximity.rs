//! The proximity ranking rule: a query matches a document better when the
//! words of the query stand closer to each other in the document.

use vstd::prelude::*;
use std::rc::Rc;
use roaring::RoaringBitmap;
use crate::bitmap::members;
use crate::db_cache::DatabaseCache;
use crate::error::Error;
use crate::index::{IndexModel, IndexSnapshot};
use crate::query_graph::QueryNode;
use crate::query_term::QueryTerm;
use crate::logger::d2::proximity_graph_text;
use crate::logger::{EventKind, SearchLogger};
use crate::ranking_rule_graph::empty_paths_cache::EmptyPathsCache;
use crate::ranking_rule_graph::paths_map::{clone_path, PathsMap};
use crate::ranking_rule_graph::{Edge, EdgeDetails, RankingRuleGraph, RankingRuleGraphTrait};

verus! {

/// The cost of the edge that asks nothing of the two words: the first
/// distance that the index no longer tells apart.
pub const FALLBACK_COST: u8 = 8;

/// The condition of a proximity edge: `right` follows `left` at the distance
/// `proximity`.
#[derive(Debug)]
pub struct WordPair {
    pub left: String,
    pub right: String,
    pub proximity: u8,
}

/// The graph of the proximity rule.
#[derive(Debug)]
pub struct ProximityGraph;

/// The edge that asks for `left` and `right` at the distance `proximity`;
/// its cost is this distance.
pub open spec fn pair_edge(left: String, right: String, proximity: u8) -> (
    u8,
    EdgeDetails<WordPair>,
) {
    (proximity, EdgeDetails::Data(WordPair { left, right, proximity }))
}

/// The edges at one distance for one variant of the left word and the first
/// `k` variants of the right word.
pub open spec fn edges_for_left(left: String, rights: Seq<String>, proximity: u8, k: int) -> Seq<
    (u8, EdgeDetails<WordPair>),
>
    decreases k,
{
    if k <= 0 {
        Seq::empty()
    } else {
        edges_for_left(left, rights, proximity, k - 1).push(
            pair_edge(left, rights[k - 1], proximity),
        )
    }
}

/// The edges at one distance for the first `j` variants of the left word and
/// all the variants of the right word.
pub open spec fn edges_at(lefts: Seq<String>, rights: Seq<String>, proximity: u8, j: int) -> Seq<
    (u8, EdgeDetails<WordPair>),
>
    decreases j,
{
    if j <= 0 {
        Seq::empty()
    } else {
        edges_at(lefts, rights, proximity, j - 1) + edges_for_left(
            lefts[j - 1],
            rights,
            proximity,
            rights.len() as int,
        )
    }
}

/// The edges at the distances from 1 to `p - 1`, nearest first.
pub open spec fn edges_below(lefts: Seq<String>, rights: Seq<String>, p: int) -> Seq<
    (u8, EdgeDetails<WordPair>),
>
    decreases p,
{
    if p <= 1 {
        Seq::empty()
    } else {
        edges_below(lefts, rights, p - 1) + edges_at(
            lefts,
            rights,
            (p - 1) as u8,
            lefts.len() as int,
        )
    }
}

/// The edges of the proximity rule between two nodes of the query graph.
///
/// Between two words: for each distance from 1 to `FALLBACK_COST - 1` and
/// each pair of variants of the two words, an edge at the cost of the
/// distance; then one unconditional edge at `FALLBACK_COST`. Between two
/// terms of which one is a phrase, this last edge alone. From the start node
/// or to the end node, one unconditional edge at no cost. No edge from or to
/// a removed node.
pub open spec fn proximity_edges(from: QueryNode, to: QueryNode) -> Seq<
    (u8, EdgeDetails<WordPair>),
> {
    match (from, to) {
        (QueryNode::Deleted, _) => Seq::empty(),
        (_, QueryNode::Deleted) => Seq::empty(),
        (QueryNode::Term(left), QueryNode::Term(right)) => match (left.value, right.value) {
            (QueryTerm::Word { derivations: a }, QueryTerm::Word { derivations: b }) => edges_below(
                a.spec_all(),
                b.spec_all(),
                FALLBACK_COST as int,
            ).push((FALLBACK_COST, EdgeDetails::Unconditional)),
            _ => seq![(FALLBACK_COST, EdgeDetails::Unconditional)],
        },
        _ => seq![(0u8, EdgeDetails::Unconditional)],
    }
}

/// Every edge that the rule builds on data asks for a distance from 1 to
/// `FALLBACK_COST - 1` and costs this distance; an unconditional edge costs
/// nothing or `FALLBACK_COST`.
pub proof fn lemma_proximity_edges_in_range(from: QueryNode, to: QueryNode, i: int)
    requires
        0 <= i < proximity_edges(from, to).len(),
    ensures
        match proximity_edges(from, to)[i].1 {
            EdgeDetails::Data(pair) => 1 <= pair.proximity < FALLBACK_COST && proximity_edges(
                from,
                to,
            )[i].0 == pair.proximity,
            EdgeDetails::Unconditional => proximity_edges(from, to)[i].0 == 0 || proximity_edges(
                from,
                to,
            )[i].0 == FALLBACK_COST,
        },
{
    match (from, to) {
        (QueryNode::Term(left), QueryNode::Term(right)) => match (left.value, right.value) {
            (QueryTerm::Word { derivations: a }, QueryTerm::Word { derivations: b }) => {
                let below = edges_below(a.spec_all(), b.spec_all(), FALLBACK_COST as int);
                if i < below.len() {
                    lemma_edges_below_in_range(a.spec_all(), b.spec_all(), FALLBACK_COST as int, i);
                }
            },
            _ => {},
        },
        _ => {},
    }
}

proof fn lemma_edges_for_left_in_range(
    left: String,
    rights: Seq<String>,
    proximity: u8,
    k: int,
    i: int,
)
    requires
        0 <= i < edges_for_left(left, rights, proximity, k).len(),
    ensures
        edges_for_left(left, rights, proximity, k)[i].0 == proximity,
        edges_for_left(left, rights, proximity, k)[i].1 matches EdgeDetails::Data(pair)
            && pair.proximity == proximity,
    decreases k,
{
    if k > 0 && i < edges_for_left(left, rights, proximity, k - 1).len() {
        lemma_edges_for_left_in_range(left, rights, proximity, k - 1, i);
    }
}

proof fn lemma_edges_at_in_range(
    lefts: Seq<String>,
    rights: Seq<String>,
    proximity: u8,
    j: int,
    i: int,
)
    requires
        0 <= i < edges_at(lefts, rights, proximity, j).len(),
    ensures
        edges_at(lefts, rights, proximity, j)[i].0 == proximity,
        edges_at(lefts, rights, proximity, j)[i].1 matches EdgeDetails::Data(pair)
            && pair.proximity == proximity,
    decreases j,
{
    if j > 0 {
        let before = edges_at(lefts, rights, proximity, j - 1);
        if i < before.len() {
            lemma_edges_at_in_range(lefts, rights, proximity, j - 1, i);
        } else {
            lemma_edges_for_left_in_range(
                lefts[j - 1],
                rights,
                proximity,
                rights.len() as int,
                i - before.len(),
            );
        }
    }
}

proof fn lemma_edges_below_in_range(lefts: Seq<String>, rights: Seq<String>, p: int, i: int)
    requires
        1 <= p <= FALLBACK_COST,
        0 <= i < edges_below(lefts, rights, p).len(),
    ensures
        1 <= edges_below(lefts, rights, p)[i].0 < p,
        edges_below(lefts, rights, p)[i].1 matches EdgeDetails::Data(pair) && pair.proximity
            == edges_below(lefts, rights, p)[i].0,
    decreases p,
{
    if p > 1 {
        let before = edges_below(lefts, rights, p - 1);
        if i < before.len() {
            lemma_edges_below_in_range(lefts, rights, p - 1, i);
        } else {
            lemma_edges_at_in_range(
                lefts,
                rights,
                (p - 1) as u8,
                lefts.len() as int,
                i - before.len(),
            );
        }
    }
}

fn build_word_edges(lefts: &Vec<String>, rights: &Vec<String>) -> (edges: Vec<
    (u8, EdgeDetails<WordPair>),
>)
    ensures
        edges@ == edges_below(lefts@, rights@, FALLBACK_COST as int).push(
            (FALLBACK_COST, EdgeDetails::Unconditional),
        ),
{
    let mut edges: Vec<(u8, EdgeDetails<WordPair>)> = Vec::new();
    let mut proximity: u8 = 1;
    while proximity < FALLBACK_COST
        invariant
            1 <= proximity <= FALLBACK_COST,
            edges@ == edges_below(lefts@, rights@, proximity as int),
        decreases FALLBACK_COST - proximity,
    {
        let ghost done = edges@;
        let mut j: usize = 0;
        while j < lefts.len()
            invariant
                1 <= proximity < FALLBACK_COST,
                j <= lefts@.len(),
                edges@ == done + edges_at(lefts@, rights@, proximity, j as int),
            decreases lefts@.len() - j,
        {
            let ghost row = edges@;
            let mut k: usize = 0;
            while k < rights.len()
                invariant
                    j < lefts@.len(),
                    k <= rights@.len(),
                    edges@ == row + edges_for_left(lefts@[j as int], rights@, proximity, k as int),
                decreases rights@.len() - k,
            {
                let left = lefts[j].clone();
                let right = rights[k].clone();
                edges.push((proximity, EdgeDetails::Data(WordPair { left, right, proximity })));
                k += 1;
            }
            j += 1;
        }
        proximity += 1;
    }
    edges.push((FALLBACK_COST, EdgeDetails::Unconditional));
    edges
}

impl RankingRuleGraphTrait for ProximityGraph {
    type EdgeDetails = WordPair;

    open spec fn edges_between(from: QueryNode, to: QueryNode) -> Seq<
        (u8, EdgeDetails<WordPair>),
    > {
        proximity_edges(from, to)
    }

    open spec fn edge_docids(details: WordPair, index: IndexModel) -> Set<u32> {
        (index.word_pair_proximity_docids)(details.left@, details.right@, details.proximity)
    }

    fn build_edges(from: &QueryNode, to: &QueryNode) -> (edges: Vec<(u8, EdgeDetails<WordPair>)>) {
        match (from, to) {
            (QueryNode::Deleted, _) => Vec::new(),
            (_, QueryNode::Deleted) => Vec::new(),
            (QueryNode::Term(left), QueryNode::Term(right)) => match (&left.value, &right.value) {
                (QueryTerm::Word { derivations: a }, QueryTerm::Word { derivations: b }) => {
                    let lefts = a.all_derivations();
                    let rights = b.all_derivations();
                    build_word_edges(&lefts, &rights)
                },
                _ => {
                    let mut edges: Vec<(u8, EdgeDetails<WordPair>)> = Vec::new();
                    edges.push((FALLBACK_COST, EdgeDetails::Unconditional));
                    assert(edges@ =~= seq![(FALLBACK_COST, EdgeDetails::Unconditional)]);
                    edges
                },
            },
            _ => {
                let mut edges: Vec<(u8, EdgeDetails<WordPair>)> = Vec::new();
                edges.push((0u8, EdgeDetails::Unconditional));
                assert(edges@ =~= seq![(0u8, EdgeDetails::Unconditional)]);
                edges
            },
        }
    }

    fn resolve_edge<I: IndexSnapshot>(
        details: &WordPair,
        index: &I,
        db_cache: &mut DatabaseCache,
    ) -> (r: Result<RoaringBitmap, Error>) {
        db_cache.get_word_pair_proximity_docids(
            index,
            &details.left,
            &details.right,
            details.proximity,
        )
    }

    fn log_state<L: SearchLogger>(
        graph: &RankingRuleGraph<ProximityGraph>,
        paths: &PathsMap<u64>,
        empty_paths_cache: &EmptyPathsCache,
        logger: &mut L,
    )
        ensures
            old(logger).hears(
                EventKind::Proximity {
                    drawing: proximity_graph_text(*graph, *paths, *empty_paths_cache),
                },
                final(logger),
            ),
    {
        logger.log_proximity_state(graph, paths, empty_paths_cache);
    }
}

/// Copies a proximity graph.
pub fn clone_proximity_graph(graph: &RankingRuleGraph<ProximityGraph>) -> (copy: RankingRuleGraph<
    ProximityGraph,
>)
    ensures
        copy.query_graph.deep_view() == graph.query_graph.deep_view(),
        copy.all_edges@ == graph.all_edges@,
        copy.node_edges@.len() == graph.node_edges@.len(),
        forall|a: int|
            0 <= a < graph.node_edges@.len() ==> (#[trigger] copy.node_edges@[a])@
                == graph.node_edges@[a]@,
{
    let mut all_edges: Vec<Option<Edge<WordPair>>> = Vec::new();
    let mut e: usize = 0;
    while e < graph.all_edges.len()
        invariant
            e <= graph.all_edges@.len(),
            all_edges@ == graph.all_edges@.take(e as int),
        decreases graph.all_edges@.len() - e,
    {
        let copy = match &graph.all_edges[e] {
            Some(edge) => Some(
                Edge {
                    from_node: edge.from_node,
                    to_node: edge.to_node,
                    cost: edge.cost,
                    details: match &edge.details {
                        EdgeDetails::Unconditional => EdgeDetails::Unconditional,
                        EdgeDetails::Data(pair) => EdgeDetails::Data(
                            WordPair {
                                left: pair.left.clone(),
                                right: pair.right.clone(),
                                proximity: pair.proximity,
                            },
                        ),
                    },
                },
            ),
            None => None,
        };
        all_edges.push(copy);
        assert(graph.all_edges@.take(e + 1) == graph.all_edges@.take(e as int).push(
            graph.all_edges@[e as int],
        ));
        e += 1;
    }
    assert(graph.all_edges@.take(graph.all_edges@.len() as int) == graph.all_edges@);
    let mut node_edges: Vec<Vec<u32>> = Vec::new();
    let mut a: usize = 0;
    while a < graph.node_edges.len()
        invariant
            a <= graph.node_edges@.len(),
            node_edges@.len() == a,
            forall|k: int| 0 <= k < a ==> (#[trigger] node_edges@[k])@ == graph.node_edges@[k]@,
        decreases graph.node_edges@.len() - a,
    {
        node_edges.push(clone_path(&graph.node_edges[a]));
        a += 1;
    }
    RankingRuleGraph { query_graph: Rc::new(graph.query_graph.clone_graph()), all_edges, node_edges }
}

} // verus!
