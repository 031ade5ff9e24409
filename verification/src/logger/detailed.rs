//! A logger that keeps every event of a search, from which the course of
//! the search can be drawn afterwards.

use vstd::prelude::*;
use roaring::RoaringBitmap;
use crate::bitmap::{bitmap_clone, bitmap_len, members};
use crate::error::Error;
use crate::logger::d2::{
    lemma_same_proximity_drawing, lemma_same_words_drawing, proximity_graph_text, words_drawing,
};
use crate::logger::{EventKind, SearchLogger};
use crate::query_graph::QueryGraph;
use crate::ranking_rule_graph::empty_paths_cache::EmptyPathsCache;
use crate::ranking_rule_graph::paths_map::{clone_path, PathsMap};
use crate::ranking_rule_graph::proximity::{clone_proximity_graph, ProximityGraph};
use crate::ranking_rule_graph::RankingRuleGraph;

verus! {

/// One event of a search.
pub enum SearchEvents {
    RankingRuleStartIteration { ranking_rule_idx: usize, query: QueryGraph, universe: RoaringBitmap },
    RankingRuleNextBucket { ranking_rule_idx: usize, universe: RoaringBitmap },
    RankingRuleEndIteration { ranking_rule_idx: usize, universe: RoaringBitmap },
    ExtendResults { new: Vec<u32> },
    WordsState { query_graph: QueryGraph },
    ProximityState {
        graph: RankingRuleGraph<ProximityGraph>,
        paths: PathsMap<u64>,
        empty_paths_cache: EmptyPathsCache,
    },
    RankingRuleSkipBucket { ranking_rule_idx: usize, candidates: RoaringBitmap },
}

/// Keeps the events of a search in the order in which they happen.
pub struct DetailedSearchLogger {
    pub folder_path: String,
    pub initial_query: Option<QueryGraph>,
    pub initial_universe: Option<RoaringBitmap>,
    pub ranking_rules_ids: Option<Vec<String>>,
    pub events: Vec<SearchEvents>,
}

impl SearchEvents {
    /// What the event says, as plain values.
    pub open spec fn kind(self) -> EventKind {
        match self {
            SearchEvents::RankingRuleStartIteration { ranking_rule_idx, .. } => EventKind::Start {
                rule: ranking_rule_idx,
            },
            SearchEvents::RankingRuleNextBucket { ranking_rule_idx, .. } => EventKind::Next {
                rule: ranking_rule_idx,
            },
            SearchEvents::RankingRuleSkipBucket { ranking_rule_idx, candidates } => EventKind::Skip {
                rule: ranking_rule_idx,
                candidates: members(candidates).len(),
            },
            SearchEvents::RankingRuleEndIteration { ranking_rule_idx, .. } => EventKind::End {
                rule: ranking_rule_idx,
            },
            SearchEvents::ExtendResults { new } => EventKind::Results { new: new@ },
            SearchEvents::WordsState { query_graph } => EventKind::Words {
                drawing: words_drawing(query_graph),
            },
            SearchEvents::ProximityState { graph, paths, empty_paths_cache } => EventKind::Proximity {
                drawing: proximity_graph_text(graph, paths, empty_paths_cache),
            },
        }
    }
}

impl DetailedSearchLogger {
    /// What the events say, one after the other.
    pub open spec fn kinds(self) -> Seq<EventKind> {
        self.events@.map_values(|event: SearchEvents| event.kind())
    }

    /// Creates a logger without any event, whose drawings are meant for the
    /// folder `folder_path`.
    pub fn new(folder_path: &str) -> (logger: DetailedSearchLogger)
        ensures
            logger.folder_path@ == folder_path@,
            logger.initial_query is None,
            logger.initial_universe is None,
            logger.ranking_rules_ids is None,
            logger.events@.len() == 0,
    {
        DetailedSearchLogger {
            folder_path: folder_path.to_owned(),
            initial_query: None,
            initial_universe: None,
            ranking_rules_ids: None,
            events: Vec::new(),
        }
    }
}

impl SearchLogger for DetailedSearchLogger {
    /// This logger keeps the event after those that it has.
    open spec fn hears(&self, event: EventKind, after: &Self) -> bool {
        after.kinds() == self.kinds().push(event)
    }

    fn initial_query(&mut self, query: &QueryGraph)
        ensures
            final(self).initial_query matches Some(kept) && kept.deep_view() == query.deep_view(),
            final(self).events == old(self).events,
    {
        self.initial_query = Some(query.clone_graph());
    }

    fn initial_universe(&mut self, universe: &RoaringBitmap)
        ensures
            final(self).initial_universe matches Some(kept) && members(kept) == members(*universe),
            final(self).events == old(self).events,
    {
        self.initial_universe = Some(bitmap_clone(universe));
    }

    fn ranking_rules(&mut self, ids: &Vec<String>)
        ensures
            final(self).ranking_rules_ids matches Some(kept) && kept@ == ids@,
            final(self).events == old(self).events,
    {
        self.ranking_rules_ids = Some(crate::query_term::clone_words(ids));
    }

    fn start_iteration_ranking_rule(
        &mut self,
        ranking_rule_idx: usize,
        query: &QueryGraph,
        universe: &RoaringBitmap,
    ) {
        let ghost before = self.kinds();
        self.events.push(
            SearchEvents::RankingRuleStartIteration {
                ranking_rule_idx,
                query: query.clone_graph(),
                universe: bitmap_clone(universe),
            },
        );
        assert(self.kinds() =~= before.push(EventKind::Start { rule: ranking_rule_idx }));
    }

    fn next_bucket_ranking_rule(&mut self, ranking_rule_idx: usize, universe: &RoaringBitmap) {
        let ghost before = self.kinds();
        self.events.push(
            SearchEvents::RankingRuleNextBucket {
                ranking_rule_idx,
                universe: bitmap_clone(universe),
            },
        );
        assert(self.kinds() =~= before.push(EventKind::Next { rule: ranking_rule_idx }));
    }

    fn skip_bucket_ranking_rule(&mut self, ranking_rule_idx: usize, candidates: &RoaringBitmap) {
        let ghost before = self.kinds();
        self.events.push(
            SearchEvents::RankingRuleSkipBucket {
                ranking_rule_idx,
                candidates: bitmap_clone(candidates),
            },
        );
        assert(self.kinds() =~= before.push(
            EventKind::Skip { rule: ranking_rule_idx, candidates: members(*candidates).len() },
        ));
    }

    fn end_iteration_ranking_rule(&mut self, ranking_rule_idx: usize, universe: &RoaringBitmap) {
        let ghost before = self.kinds();
        self.events.push(
            SearchEvents::RankingRuleEndIteration {
                ranking_rule_idx,
                universe: bitmap_clone(universe),
            },
        );
        assert(self.kinds() =~= before.push(EventKind::End { rule: ranking_rule_idx }));
    }

    fn add_to_results(&mut self, docids: &Vec<u32>) {
        let ghost before = self.kinds();
        self.events.push(SearchEvents::ExtendResults { new: clone_path(docids) });
        assert(self.kinds() =~= before.push(EventKind::Results { new: docids@ }));
    }

    fn log_words_state(&mut self, query_graph: &QueryGraph) {
        let ghost before = self.kinds();
        let copy = query_graph.clone_graph();
        proof {
            lemma_same_words_drawing(copy, *query_graph);
        }
        self.events.push(SearchEvents::WordsState { query_graph: copy });
        assert(self.kinds() =~= before.push(
            EventKind::Words { drawing: words_drawing(*query_graph) },
        ));
    }

    fn log_proximity_state(
        &mut self,
        graph: &RankingRuleGraph<ProximityGraph>,
        paths: &PathsMap<u64>,
        empty_paths_cache: &EmptyPathsCache,
    ) {
        let ghost before = self.kinds();
        let graph_copy = clone_proximity_graph(graph);
        let paths_copy = paths.clone_map();
        let cache_copy = empty_paths_cache.clone_cache();
        proof {
            lemma_same_proximity_drawing(
                graph_copy,
                paths_copy,
                cache_copy,
                *graph,
                *paths,
                *empty_paths_cache,
            );
        }
        self.events.push(
            SearchEvents::ProximityState {
                graph: graph_copy,
                paths: paths_copy,
                empty_paths_cache: cache_copy,
            },
        );
        assert(self.kinds() =~= before.push(
            EventKind::Proximity {
                drawing: proximity_graph_text(*graph, *paths, *empty_paths_cache),
            },
        ));
    }
}

/// Where the drawing of the search stands around one event: the counters
/// of the iterations under way, outermost first, before the event and
/// after it. The counter of an iteration counts the buckets that were
/// asked of it.
#[derive(Debug)]
pub struct Activation {
    pub before: Vec<usize>,
    pub after: Vec<usize>,
}

/// The counters after an event, given the counters before it; `None` if
/// the event cannot happen there. An iteration that starts gets a counter
/// at zero. A bucket asked, or skipped, adds one to the innermost counter,
/// which must exist. An iteration that ends loses its counter. Results,
/// unless they are empty, and states of rules need an iteration under way.
pub open spec fn counters_after(counters: Seq<usize>, kind: EventKind) -> Option<Seq<usize>> {
    match kind {
        EventKind::Start { .. } => Some(counters.push(0)),
        EventKind::Next { .. } | EventKind::Skip { .. } => if counters.len() > 0 && counters.last()
            < usize::MAX {
            Some(counters.update(counters.len() - 1, (counters.last() + 1) as usize))
        } else {
            None
        },
        EventKind::End { .. } => if counters.len() > 0 {
            Some(counters.drop_last())
        } else {
            Some(counters)
        },
        EventKind::Results { new } => if new.len() == 0 || counters.len() > 0 {
            Some(counters)
        } else {
            None
        },
        EventKind::Words { .. } | EventKind::Proximity { .. } => if counters.len() > 0 {
            Some(counters)
        } else {
            None
        },
    }
}

/// The counters after the first `n` events; `None` if one of them cannot
/// happen where it stands.
pub open spec fn counters_upto(kinds: Seq<EventKind>, n: int) -> Option<Seq<usize>>
    decreases n,
{
    if n <= 0 {
        Some(Seq::empty())
    } else {
        match counters_upto(kinds, n - 1) {
            Some(counters) => counters_after(counters, kinds[n - 1]),
            None => None,
        }
    }
}

impl DetailedSearchLogger {
    /// Follows the events and tells, for each of them, where the drawing of
    /// the search stands before and after it. Events that cannot have
    /// happened in their order, such as a bucket asked while no iteration
    /// is under way, are reported as `Internal`.
    pub fn activations(&self) -> (r: Result<Vec<Activation>, Error>)
        ensures
            r is Ok <==> counters_upto(self.kinds(), self.events@.len() as int) is Some,
            r matches Ok(steps) ==> steps@.len() == self.events@.len() && forall|i: int|
                0 <= i < steps@.len() ==> Some((#[trigger] steps@[i]).before@) == counters_upto(
                    self.kinds(),
                    i,
                ) && Some(steps@[i].after@) == counters_upto(self.kinds(), i + 1),
            r matches Err(e) ==> e is Internal,
    {
        let mut counters: Vec<usize> = Vec::new();
        let mut steps: Vec<Activation> = Vec::new();
        let mut i: usize = 0;
        let ghost kinds = self.kinds();
        while i < self.events.len()
            invariant
                i <= self.events@.len(),
                kinds == self.kinds(),
                kinds.len() == self.events@.len(),
                steps@.len() == i,
                Some(counters@) == counters_upto(kinds, i as int),
                forall|k: int|
                    0 <= k < i ==> Some((#[trigger] steps@[k]).before@) == counters_upto(kinds, k)
                        && Some(steps@[k].after@) == counters_upto(kinds, k + 1),
            decreases self.events@.len() - i,
        {
            let before = clone_counters(&counters);
            assert(kinds[i as int] == self.events@[i as int].kind());
            let possible = match &self.events[i] {
                SearchEvents::RankingRuleStartIteration { .. } => {
                    counters.push(0);
                    true
                },
                SearchEvents::RankingRuleNextBucket { .. }
                | SearchEvents::RankingRuleSkipBucket { .. } => {
                    let n = counters.len();
                    if n > 0 && counters[n - 1] < usize::MAX {
                        let count = counters[n - 1];
                        counters.set(n - 1, count + 1);
                        true
                    } else {
                        false
                    }
                },
                SearchEvents::RankingRuleEndIteration { .. } => {
                    if counters.len() > 0 {
                        counters.pop();
                    }
                    true
                },
                SearchEvents::ExtendResults { new } => new.len() == 0 || counters.len() > 0,
                SearchEvents::WordsState { .. } => counters.len() > 0,
                SearchEvents::ProximityState { .. } => counters.len() > 0,
            };
            if !possible {
                proof {
                    lemma_counters_stay_none(kinds, i + 1, self.events@.len() as int);
                }
                return Err(Error::Internal);
            }
            steps.push(Activation { before, after: clone_counters(&counters) });
            i += 1;
        }
        Ok(steps)
    }
}

/// Once an event cannot happen, no later one can.
proof fn lemma_counters_stay_none(kinds: Seq<EventKind>, n: int, m: int)
    requires
        0 <= n <= m,
        counters_upto(kinds, n) is None,
    ensures
        counters_upto(kinds, m) is None,
    decreases m - n,
{
    if n < m {
        lemma_counters_stay_none(kinds, n, m - 1);
    }
}

fn clone_counters(counters: &Vec<usize>) -> (copy: Vec<usize>)
    ensures
        copy@ == counters@,
{
    let mut copy: Vec<usize> = Vec::new();
    let mut i: usize = 0;
    while i < counters.len()
        invariant
            i <= counters@.len(),
            copy@ == counters@.take(i as int),
        decreases counters@.len() - i,
    {
        copy.push(counters[i]);
        assert(counters@.take(i + 1) == counters@.take(i as int).push(counters@[i as int]));
        i += 1;
    }
    assert(counters@.take(counters@.len() as int) == counters@);
    copy
}

} // verus!
