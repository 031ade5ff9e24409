//! Observation of a search: what the ranking rules were asked and what they
//! answered.

use vstd::prelude::*;
use roaring::RoaringBitmap;
use crate::bitmap::members;
use crate::logger::d2::{proximity_graph_text, words_drawing};
use crate::query_graph::QueryGraph;
use crate::ranking_rule_graph::empty_paths_cache::EmptyPathsCache;
use crate::ranking_rule_graph::paths_map::PathsMap;
use crate::ranking_rule_graph::proximity::ProximityGraph;
use crate::ranking_rule_graph::RankingRuleGraph;

pub mod detailed;
pub mod d2;

verus! {

/// What a logger is told of the course of a search, as plain values: which
/// rule an event concerns, which documents, and how a state that a rule
/// shows is drawn.
pub enum EventKind {
    Start { rule: usize },
    Next { rule: usize },
    Skip { rule: usize, candidates: nat },
    End { rule: usize },
    Results { new: Seq<u32> },
    Words { drawing: Option<Seq<char>> },
    Proximity { drawing: Option<Seq<char>> },
}

/// Receives the events of a search. A logger only listens: nothing that it
/// does changes what the search returns.
pub trait SearchLogger {
    /// What the logger makes of an event: whether it is as `after` once it
    /// was told of `event`.
    spec fn hears(&self, event: EventKind, after: &Self) -> bool;

    /// The query that the search starts from.
    fn initial_query(&mut self, query: &QueryGraph);

    /// The documents that the search starts from.
    fn initial_universe(&mut self, universe: &RoaringBitmap);

    /// The identifiers of the ranking rules, in their order.
    fn ranking_rules(&mut self, ids: &Vec<String>);

    /// The rule at `ranking_rule_idx` starts to iterate over `universe`.
    fn start_iteration_ranking_rule(
        &mut self,
        ranking_rule_idx: usize,
        query: &QueryGraph,
        universe: &RoaringBitmap,
    )
        ensures
            old(self).hears(EventKind::Start { rule: ranking_rule_idx }, final(self)),
    ;

    /// The rule at `ranking_rule_idx` is asked for its next bucket.
    fn next_bucket_ranking_rule(&mut self, ranking_rule_idx: usize, universe: &RoaringBitmap)
        ensures
            old(self).hears(EventKind::Next { rule: ranking_rule_idx }, final(self)),
    ;

    /// The candidates of the rule at `ranking_rule_idx` go to the results
    /// without being ranked any further.
    fn skip_bucket_ranking_rule(&mut self, ranking_rule_idx: usize, candidates: &RoaringBitmap)
        ensures
            old(self).hears(
                EventKind::Skip { rule: ranking_rule_idx, candidates: members(*candidates).len() },
                final(self),
            ),
    ;

    /// The rule at `ranking_rule_idx` has no more bucket.
    fn end_iteration_ranking_rule(&mut self, ranking_rule_idx: usize, universe: &RoaringBitmap)
        ensures
            old(self).hears(EventKind::End { rule: ranking_rule_idx }, final(self)),
    ;

    /// These documents join the results.
    fn add_to_results(&mut self, docids: &Vec<u32>)
        ensures
            old(self).hears(EventKind::Results { new: docids@ }, final(self)),
    ;

    /// The query graph of the words rule.
    fn log_words_state(&mut self, query_graph: &QueryGraph)
        ensures
            old(self).hears(EventKind::Words { drawing: words_drawing(*query_graph) }, final(self)),
    ;

    /// The graph of the proximity rule, the paths that it is about to
    /// resolve, and what it knows of empty paths.
    fn log_proximity_state(
        &mut self,
        graph: &RankingRuleGraph<ProximityGraph>,
        paths: &PathsMap<u64>,
        empty_paths_cache: &EmptyPathsCache,
    )
        ensures
            old(self).hears(
                EventKind::Proximity {
                    drawing: proximity_graph_text(*graph, *paths, *empty_paths_cache),
                },
                final(self),
            ),
    ;
}

/// A logger that keeps nothing.
#[derive(Debug)]
pub struct DefaultSearchLogger;

impl SearchLogger for DefaultSearchLogger {
    /// This logger makes nothing of what it is told.
    open spec fn hears(&self, event: EventKind, after: &Self) -> bool {
        true
    }

    fn initial_query(&mut self, query: &QueryGraph) {
    }

    fn initial_universe(&mut self, universe: &RoaringBitmap) {
    }

    fn ranking_rules(&mut self, ids: &Vec<String>) {
    }

    fn start_iteration_ranking_rule(
        &mut self,
        ranking_rule_idx: usize,
        query: &QueryGraph,
        universe: &RoaringBitmap,
    ) {
    }

    fn next_bucket_ranking_rule(&mut self, ranking_rule_idx: usize, universe: &RoaringBitmap) {
    }

    fn skip_bucket_ranking_rule(&mut self, ranking_rule_idx: usize, candidates: &RoaringBitmap) {
    }

    fn end_iteration_ranking_rule(&mut self, ranking_rule_idx: usize, universe: &RoaringBitmap) {
    }

    fn add_to_results(&mut self, docids: &Vec<u32>) {
    }

    fn log_words_state(&mut self, query_graph: &QueryGraph) {
    }

    fn log_proximity_state(
        &mut self,
        graph: &RankingRuleGraph<ProximityGraph>,
        paths: &PathsMap<u64>,
        empty_paths_cache: &EmptyPathsCache,
    ) {
    }
}

} // verus!
