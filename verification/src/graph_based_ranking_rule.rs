//! A ranking rule that works on a ranking-rule graph: its buckets are the
//! documents matched by the paths of the graph, cheapest paths first.

use vstd::prelude::*;
use std::rc::Rc;
use roaring::RoaringBitmap;
use crate::bitmap::members;
use crate::db_cache::DatabaseCache;
use crate::error::Error;
use crate::index::{IndexModel, IndexSnapshot};
use crate::logger::SearchLogger;
use crate::query_graph::{graph_of, share_graph, QueryGraph};
use crate::ranking_rule::{bucket_at, class_of, RankingRule, RankingRuleOutput, RuleModel};
use crate::ranking_rule_graph::cheapest_paths::{candidate, holds_costs, KCheapestPathsState};
use crate::ranking_rule_graph::edge_docids_cache::EdgeDocidsCache;
use crate::ranking_rule_graph::empty_paths_cache::EmptyPathsCache;
use crate::ranking_rule_graph::paths_map::PathsMap;
use crate::ranking_rule_graph::resolve_paths::{
    empty_cache_sound, learnt_of, lemma_pruned_path_is_empty, lemma_sound_in_smaller_universe,
    paths_docids,
};
use crate::ranking_rule_graph::{edges_upto, RankingRuleGraph, RankingRuleGraphTrait};

verus! {

/// A ranking rule made of the graph that `G` derives from the query.
pub struct GraphBasedRankingRule<G: RankingRuleGraphTrait> {
    pub id: String,
    pub state: Option<GraphBasedRankingRuleState<G>>,
}

/// What the rule keeps during one iteration.
pub struct GraphBasedRankingRuleState<G: RankingRuleGraphTrait> {
    pub graph: RankingRuleGraph<G>,
    pub cheapest_paths_state: Option<KCheapestPathsState>,
    pub edge_docids_cache: EdgeDocidsCache,
    pub empty_paths_cache: EmptyPathsCache,
}

/// Whether the collection holds no path.
pub open spec fn no_path(paths: PathsMap<u64>) -> bool {
    forall|path: Seq<u32>| !paths.contains(path)
}

/// The documents that match a path from the start node to the end node
/// whose cost is at least `low` and less than `high`.
pub open spec fn docids_in_cost_range<G: RankingRuleGraphTrait>(
    graph: RankingRuleGraph<G>,
    index: IndexModel,
    low: int,
    high: int,
) -> Set<u32> {
    Set::new(
        |d: u32|
            exists|path: Seq<u32>|
                #[trigger] graph.is_complete_path(path) && low <= graph.path_cost(path) < high
                    && graph.path_docids(path, index).contains(d),
    )
}

impl<G: RankingRuleGraphTrait> GraphBasedRankingRuleState<G> {
    /// A cost above that of every path of the graph.
    pub open spec fn ceiling(self) -> int {
        255 * (self.graph.query_graph.nodes@.len() as int) + 1
    }

    /// The cost from which the paths have not been handed out yet; the
    /// ceiling when none is left.
    pub open spec fn floor(self) -> int {
        match self.cheapest_paths_state {
            Some(state) => state.next_cost as int,
            None => self.ceiling(),
        }
    }

    /// The graph is the one that the rule builds over its query graph; the
    /// graph, the enumeration and the caches fit together, and what the
    /// cache of empty paths tells is true of `universe`.
    pub open spec fn wf(self, index: IndexModel, universe: Set<u32>) -> bool {
        &&& self.graph.wf()
        &&& self.graph.built_from(*self.graph.query_graph)
        &&& self.cheapest_paths_state matches Some(state) ==> state.wf(self.graph)
        &&& self.edge_docids_cache.wf(self.graph, index)
        &&& self.empty_paths_cache.wf()
        &&& empty_cache_sound(self.graph, self.empty_paths_cache, index, universe)
    }
}

/// What the rule does when it hands out a bucket: it goes from `before` to
/// `after` on the same graph, and hands out the documents of the universe
/// that match a path of the cost `cost`. This is the least cost, from the
/// floor at which the rule stood, of a path that the cache of empty paths
/// did not rule out. It is below the floor at which the rule stands now,
/// and no document of the universe matches a path of another cost between
/// the two floors. Of each path of this cost that no document of the
/// universe matches, the cache of empty paths has learnt the shortest
/// beginning of which this is true, or the empty edge that ends it.
pub open spec fn hands_out<G: RankingRuleGraphTrait>(
    before: GraphBasedRankingRuleState<G>,
    after: GraphBasedRankingRuleState<G>,
    index: IndexModel,
    universe: Set<u32>,
    candidates: Set<u32>,
    cost: int,
) -> bool {
    &&& after.graph == before.graph
    &&& before.floor() <= cost < after.floor()
    &&& exists|path: Seq<u32>| #[trigger]
        candidate(before.graph, before.empty_paths_cache, path) && before.graph.path_cost(path)
            == cost
    &&& forall|path: Seq<u32>| #[trigger]
        candidate(before.graph, before.empty_paths_cache, path) && before.floor()
            <= before.graph.path_cost(path) ==> cost <= before.graph.path_cost(path)
    &&& candidates == universe.intersect(
        docids_in_cost_range(before.graph, index, cost, cost + 1),
    )
    &&& candidates == universe.intersect(
        docids_in_cost_range(before.graph, index, before.floor(), after.floor()),
    )
    &&& forall|path: Seq<u32>| #[trigger]
        candidate(before.graph, before.empty_paths_cache, path) && before.graph.path_cost(path)
            == cost ==> learnt_of(before.graph, after.empty_paths_cache, index, universe, path)
}

/// Of two buckets that a rule hands out one after the other, the second
/// one costs more.
pub proof fn lemma_buckets_cost_more_and_more<G: RankingRuleGraphTrait>(
    first: GraphBasedRankingRuleState<G>,
    second: GraphBasedRankingRuleState<G>,
    third: GraphBasedRankingRuleState<G>,
    index: IndexModel,
    universes: (Set<u32>, Set<u32>),
    buckets: (Set<u32>, Set<u32>),
    costs: (int, int),
)
    requires
        hands_out(first, second, index, universes.0, buckets.0, costs.0),
        hands_out(second, third, index, universes.1, buckets.1, costs.1),
    ensures
        costs.0 < costs.1,
        third.graph == first.graph,
{
}

/// A bucket holds documents of its universe only.
pub proof fn lemma_bucket_within_universe<G: RankingRuleGraphTrait>(
    before: GraphBasedRankingRuleState<G>,
    after: GraphBasedRankingRuleState<G>,
    index: IndexModel,
    universe: Set<u32>,
    candidates: Set<u32>,
    cost: int,
)
    requires
        hands_out(before, after, index, universe, candidates, cost),
    ensures
        candidates.subset_of(universe),
{
}

/// A graph that the rule `G` builds over a query graph. Every such graph
/// has the same edges.
pub open spec fn built_graph<G: RankingRuleGraphTrait>(query_graph: QueryGraph) -> RankingRuleGraph<
    G,
> {
    choose|graph: RankingRuleGraph<G>| graph.built_from(query_graph)
}

/// How a rule ranks that works on the graph of `G`: it starts for a query
/// graph whose edges 32 bits can number; it ranks at a cost the documents
/// that match a path of this cost from the start node to the end node of
/// the graph over the query; and it hands the query down as it is.
pub open spec fn graph_rule_model<G: RankingRuleGraphTrait>() -> RuleModel<Rc<QueryGraph>> {
    RuleModel {
        starts: |query: Rc<QueryGraph>|
            edges_upto::<G>(*query, query.nodes@.len() as int).len() <= u32::MAX,
        ceiling: |query: Rc<QueryGraph>| 255 * (query.nodes@.len() as int) + 1,
        class_docids: |query: Rc<QueryGraph>, index: IndexModel, cost: int|
            docids_in_cost_range(built_graph::<G>(*query), index, cost, cost + 1),
        refined: |query: Rc<QueryGraph>, cost: int| query,
    }
}

/// Graphs with the same edges have the same paths, at the same costs.
pub proof fn lemma_same_edges_same_paths<G: RankingRuleGraphTrait>(
    a: RankingRuleGraph<G>,
    b: RankingRuleGraph<G>,
    path: Seq<u32>,
    from: int,
    to: int,
)
    requires
        a.all_edges@ == b.all_edges@,
    ensures
        a.is_path(path, from, to) == b.is_path(path, from, to),
        a.path_cost(path) == b.path_cost(path),
    decreases path.len(),
{
    if path.len() > 0 {
        let e = path.last() as int;
        assert(a.live(e) == b.live(e));
        assert(a.edge(e) == b.edge(e));
        lemma_same_edges_same_paths(a, b, path.drop_last(), from, a.edge(e).from_node as int);
    }
}

/// Graphs with the same edges over as many nodes rank the same documents
/// at each cost.
pub proof fn lemma_same_edges_same_docids<G: RankingRuleGraphTrait>(
    a: RankingRuleGraph<G>,
    b: RankingRuleGraph<G>,
    index: IndexModel,
    low: int,
    high: int,
)
    requires
        a.all_edges@ == b.all_edges@,
        a.query_graph.nodes@.len() == b.query_graph.nodes@.len(),
    ensures
        docids_in_cost_range(a, index, low, high) == docids_in_cost_range(b, index, low, high),
{
    assert forall|path: Seq<u32>|
        a.is_complete_path(path) == b.is_complete_path(path) && a.path_cost(path) == b.path_cost(
            path,
        ) && a.path_docids(path, index) == b.path_docids(path, index) by {
        lemma_same_edges_same_paths(a, b, path, 0, a.query_graph.nodes@.len() - 1);
        assert forall|i: int| 0 <= i < path.len() implies a.edge_set(path[i] as int, index)
            == b.edge_set(path[i] as int, index) by {
            assert(a.edge(path[i] as int) == b.edge(path[i] as int));
        }
        assert(a.path_docids(path, index) =~= b.path_docids(path, index));
    }
    assert forall|d: u32|
        docids_in_cost_range(a, index, low, high).contains(d) == docids_in_cost_range(
            b,
            index,
            low,
            high,
        ).contains(d) by {
        if docids_in_cost_range(a, index, low, high).contains(d) {
            let path = choose|path: Seq<u32>|
                #[trigger] a.is_complete_path(path) && low <= a.path_cost(path) < high
                    && a.path_docids(path, index).contains(d);
            assert(b.is_complete_path(path) && low <= b.path_cost(path) < high && b.path_docids(
                path,
                index,
            ).contains(d));
        }
        if docids_in_cost_range(b, index, low, high).contains(d) {
            let path = choose|path: Seq<u32>|
                #[trigger] b.is_complete_path(path) && low <= b.path_cost(path) < high
                    && b.path_docids(path, index).contains(d);
            assert(a.is_complete_path(path) && low <= a.path_cost(path) < high && a.path_docids(
                path,
                index,
            ).contains(d));
        }
    }
    assert(docids_in_cost_range(a, index, low, high) =~= docids_in_cost_range(b, index, low, high));
}

/// The documents that the rule ranks at a cost are those that match a path
/// of this cost in the graph that the rule holds.
pub proof fn lemma_class_of_graph<G: RankingRuleGraphTrait>(
    graph: RankingRuleGraph<G>,
    index: IndexModel,
    cost: int,
)
    requires
        graph.built_from(*graph.query_graph),
    ensures
        class_of(graph_rule_model::<G>(), graph.query_graph, index, cost) == docids_in_cost_range(
            graph,
            index,
            cost,
            cost + 1,
        ),
{
    let chosen = built_graph::<G>(graph_of(graph.query_graph));
    assert(chosen.built_from(graph_of(graph.query_graph)));
    lemma_same_edges_same_docids(chosen, graph, index, cost, cost + 1);
}

/// What `hands_out` tells is a bucket of the rule in the sense of
/// `bucket_at`.
pub proof fn lemma_hands_out_bucket<G: RankingRuleGraphTrait>(
    before: GraphBasedRankingRuleState<G>,
    after: GraphBasedRankingRuleState<G>,
    index: IndexModel,
    universe: Set<u32>,
    output: RankingRuleOutput<Rc<QueryGraph>>,
    cost: int,
)
    requires
        before.wf(index, universe),
        after.wf(index, universe),
        hands_out(before, after, index, universe, members(output.candidates), cost),
        output.query == before.graph.query_graph,
    ensures
        bucket_at(
            graph_rule_model::<G>(),
            before.graph.query_graph,
            index,
            universe,
            (before.floor(), after.floor()),
            output,
            cost,
        ),
{
    let model = graph_rule_model::<G>();
    let query = before.graph.query_graph;
    lemma_class_of_graph(before.graph, index, cost);
    assert forall|c: int| before.floor() <= c < cost implies universe.intersect(
        #[trigger] class_of(model, query, index, c),
    ) == Set::<u32>::empty() by {
        lemma_class_of_graph(before.graph, index, c);
        let class = docids_in_cost_range(before.graph, index, c, c + 1);
        assert forall|d: u32| !(universe.contains(d) && class.contains(d)) by {
            if universe.contains(d) && class.contains(d) {
                let path = choose|path: Seq<u32>|
                    #[trigger] before.graph.is_complete_path(path) && c <= before.graph.path_cost(
                        path,
                    ) < c + 1 && before.graph.path_docids(path, index).contains(d);
                lemma_no_document(before, index, universe, path, d);
            }
        }
        assert(universe.intersect(class) =~= Set::<u32>::empty());
    }
    assert forall|c: int| cost < c < after.floor() implies universe.intersect(
        #[trigger] class_of(model, query, index, c),
    ).subset_of(members(output.candidates)) by {
        lemma_class_of_graph(before.graph, index, c);
        let class = docids_in_cost_range(before.graph, index, c, c + 1);
        let whole = docids_in_cost_range(before.graph, index, before.floor(), after.floor());
        assert forall|d: u32| universe.contains(d) && class.contains(d) implies whole.contains(
            d,
        ) by {
            let path = choose|path: Seq<u32>|
                #[trigger] before.graph.is_complete_path(path) && c <= before.graph.path_cost(path)
                    < c + 1 && before.graph.path_docids(path, index).contains(d);
            assert(before.graph.is_complete_path(path) && before.floor()
                <= before.graph.path_cost(path) < after.floor() && before.graph.path_docids(
                path,
                index,
            ).contains(d));
        }
    }
}

impl<G: RankingRuleGraphTrait> GraphBasedRankingRule<G> {
    /// Creates the rule, which is not iterating yet.
    pub fn new(id: String) -> (rule: GraphBasedRankingRule<G>)
        ensures
            rule.id == id,
            rule.state is None,
    {
        GraphBasedRankingRule { id, state: None }
    }

    /// What the start of an iteration over `query_graph` makes of the rule.
    ///
    /// It succeeds exactly when the edges of the graph over `query_graph`
    /// can be numbered with 32 bits. The rule then keeps this graph and
    /// nothing of an earlier iteration: its caches are empty, and so sound
    /// for every universe, and it stands at the cost of the cheapest path,
    /// if the graph has a path. Otherwise the answer is `Internal` and the
    /// rule is left as it was.
    pub open spec fn starts(
        self,
        after: Self,
        index: IndexModel,
        query_graph: QueryGraph,
        r: Result<(), Error>,
    ) -> bool {
        &&& after.id == self.id
        &&& r is Ok <==> edges_upto::<G>(query_graph, query_graph.nodes@.len() as int).len()
            <= u32::MAX
        &&& r is Ok ==> {
            &&& after.state matches Some(state)
            &&& state.graph.built_from(query_graph)
            &&& forall|u: Set<u32>| state.wf(index, u)
            &&& state.edge_docids_cache.cache@.len() == 0
            &&& members(state.empty_paths_cache.empty_edges) == Set::<u32>::empty()
            &&& forall|path: Seq<u32>| !state.empty_paths_cache.empty_prefixes.contains(path)
            &&& forall|path: Seq<u32>| !state.empty_paths_cache.prunes(path)
            &&& forall|path: Seq<u32>| #[trigger]
                state.graph.is_complete_path(path) ==> state.floor() <= state.graph.path_cost(path)
            &&& state.cheapest_paths_state is Some ==> exists|path: Seq<u32>| #[trigger]
                state.graph.is_complete_path(path) && state.graph.path_cost(path) == state.floor()
            &&& state.cheapest_paths_state is None <==> forall|path: Seq<u32>|
                !state.graph.is_complete_path(path)
        }
        &&& r matches Err(e) ==> e is Internal && after.state == self.state
    }

    /// What a bucket asked of the rule over `universe` makes of the rule,
    /// and what it answers.
    ///
    /// With an index that can be read the answer is `Ok`. A bucket is what
    /// `hands_out` tells, for some cost; it comes with the query graph of
    /// the rule, and the cache of empty paths has forgotten nothing: no
    /// empty edge, and no path that its prefixes cover. `None`
    /// comes when no path at or above the floor is left that the cache of
    /// empty paths does not rule out, so that no document of the universe
    /// matches one; the rule then has no state any more. Nor has it after a
    /// failure of the index, the only error.
    pub open spec fn gives(
        self,
        after: Self,
        index: IndexModel,
        universe: Set<u32>,
        r: Result<Option<RankingRuleOutput<Rc<QueryGraph>>>, Error>,
    ) -> bool {
        &&& after.id == self.id
        &&& index.reliable ==> r is Ok
        &&& r matches Ok(Some(output)) ==> {
            let before = self.state->Some_0;
            let now = after.state->Some_0;
            &&& after.state is Some
            &&& output.query == before.graph.query_graph
            &&& exists|cost: int| #[trigger]
                hands_out(before, now, index, universe, members(output.candidates), cost)
            &&& forall|path: Seq<u32>|
                before.empty_paths_cache.prunes(path) ==> now.empty_paths_cache.prunes(path)
            &&& forall|path: Seq<u32>|
                before.empty_paths_cache.empty_prefixes.covers(path)
                    ==> now.empty_paths_cache.empty_prefixes.covers(path)
            &&& forall|e: u32|
                members(before.empty_paths_cache.empty_edges).contains(e) ==> members(
                    now.empty_paths_cache.empty_edges,
                ).contains(e)
        }
        &&& r matches Ok(None) ==> {
            let before = self.state->Some_0;
            &&& after.state is None
            &&& forall|path: Seq<u32>| #[trigger]
                candidate(before.graph, before.empty_paths_cache, path) ==> before.graph.path_cost(
                    path,
                ) < before.floor()
            &&& universe.intersect(
                docids_in_cost_range(before.graph, index, before.floor(), before.ceiling()),
            ) == Set::<u32>::empty()
        }
        &&& r matches Err(e) ==> e is StorageFailure && after.state is None
    }

    /// What the end of an iteration makes of the rule: it keeps its name
    /// and has no state any more.
    pub open spec fn ends(self, after: Self) -> bool {
        after.state is None && after.id == self.id
    }
}

/// Every complete path has live edges only.
pub proof fn lemma_complete_path_is_live<G: RankingRuleGraphTrait>(
    graph: RankingRuleGraph<G>,
    path: Seq<u32>,
    m: int,
)
    requires
        graph.is_complete_path(path),
        0 <= m < path.len(),
    ensures
        graph.live(path[m] as int),
{
    graph.lemma_path_take(path, 0, graph.query_graph.nodes@.len() - 1, m);
}

impl<G: RankingRuleGraphTrait> RankingRule<Rc<QueryGraph>> for GraphBasedRankingRule<G> {
    open spec fn accepts(query: &Rc<QueryGraph>) -> bool {
        query.wf()
    }

    open spec fn iterating(&self, index: IndexModel, universe: Set<u32>) -> bool {
        self.state matches Some(state) && state.wf(index, universe)
    }

    open spec fn model(&self) -> RuleModel<Rc<QueryGraph>> {
        graph_rule_model::<G>()
    }

    open spec fn query(&self) -> Rc<QueryGraph> {
        self.state->Some_0.graph.query_graph
    }

    open spec fn floor(&self) -> int {
        self.state->Some_0.floor()
    }

    open spec fn remaining(&self) -> nat {
        match self.state {
            Some(state) => if state.floor() <= state.ceiling() {
                (state.ceiling() - state.floor()) as nat
            } else {
                0
            },
            None => 0,
        }
    }

    proof fn lemma_iterating_in_smaller_universe(
        &self,
        index: IndexModel,
        universe: Set<u32>,
        smaller: Set<u32>,
    ) {
        let state = self.state->Some_0;
        lemma_sound_in_smaller_universe(
            state.graph,
            state.empty_paths_cache,
            index,
            universe,
            smaller,
        );
    }

    fn id(&self) -> (id: String)
        ensures
            id == self.id,
    {
        self.id.clone()
    }

    /// Builds the graph of the rule over `query_graph` and gets ready to
    /// enumerate its paths from the cheapest on, with empty caches. A graph
    /// with more edges than 32 bits can number is refused with `Internal`,
    /// and the rule is then left as it was.
    fn start_iteration<I: IndexSnapshot, L: SearchLogger>(
        &mut self,
        index: &I,
        db_cache: &mut DatabaseCache,
        logger: &mut L,
        universe: &RoaringBitmap,
        query_graph: Rc<QueryGraph>,
    ) -> (r: Result<(), Error>)
        ensures
            *final(db_cache) == *old(db_cache),
            old(self).starts(*final(self), index.model(), *query_graph, r),
    {
        let graph = match RankingRuleGraph::<G>::build(query_graph) {
            Ok(graph) => graph,
            Err(e) => {
                return Err(e);
            },
        };
        let cheapest_paths_state = KCheapestPathsState::new(&graph);
        let state = GraphBasedRankingRuleState {
            graph,
            cheapest_paths_state,
            edge_docids_cache: EdgeDocidsCache::new(),
            empty_paths_cache: EmptyPathsCache::new(),
        };
        proof {
            assert forall|path: Seq<u32>| #[trigger]
                state.graph.is_complete_path(path) implies state.floor() <= state.graph.path_cost(
                path,
            ) by {
                state.graph.lemma_path_cost_bound(path, 0, state.graph.query_graph.nodes@.len() - 1);
            }
        }
        proof {
            assert forall|c: int| 0 <= c < state.floor() implies members(*universe).intersect(
                #[trigger] class_of(graph_rule_model::<G>(), query_graph, index.model(), c),
            ) == Set::<u32>::empty() by {
                lemma_class_of_graph(state.graph, index.model(), c);
                assert(docids_in_cost_range(state.graph, index.model(), c, c + 1)
                    =~= Set::<u32>::empty());
                assert(members(*universe).intersect(Set::<u32>::empty()) =~= Set::<u32>::empty());
            }
        }
        self.state = Some(state);
        Ok(())
    }

    /// Hands out the documents of `universe` that match the cheapest paths
    /// not handed out yet.
    ///
    /// The rule takes the costs in increasing order from where it stands.
    /// It passes over a cost at which every path is known to match no
    /// document of the universe, and stops at the first cost at which some
    /// path is not known to. The bucket holds exactly the documents of the
    /// universe that match a path of this cost; it comes with a copy of the
    /// query graph. No document of the universe matches a path of a cost
    /// that was passed over. After a bucket the rule stands at a higher
    /// cost, and its cache of empty paths has forgotten nothing.
    ///
    /// There is a bucket whenever a path of a cost not yet handed out is
    /// not ruled out by the cache of empty paths, even if in the end no
    /// document matches it. When no such path remains, the answer is `None`
    /// and the rule drops the state of the iteration, as it does when the
    /// index fails.
    #[verifier::rlimit(40)]
    fn next_bucket<I: IndexSnapshot, L: SearchLogger>(
        &mut self,
        index: &I,
        db_cache: &mut DatabaseCache,
        logger: &mut L,
        universe: &RoaringBitmap,
    ) -> (r: Result<Option<RankingRuleOutput<Rc<QueryGraph>>>, Error>)
        ensures
            old(self).gives(*final(self), index.model(), members(*universe), r),
    {
        let mut state = self.state.take().unwrap();
        let ghost before = state;
        let ghost model = index.model();
        let ghost uni = members(*universe);
        let mut current = state.cheapest_paths_state.take();
        let mut paths: PathsMap<u64> = PathsMap::new();
        let ghost mut found_at: int = before.floor();
        let mut searching = current.is_some();
        proof {
            assert forall|path: Seq<u32>| #[trigger]
                candidate(
                    state.graph,
                    state.empty_paths_cache,
                    path,
                ) implies state.graph.path_cost(path) < before.ceiling() by {
                state.graph.lemma_path_cost_bound(path, 0, state.graph.query_graph.nodes@.len() - 1);
            }
        }
        while searching
            invariant
                state.graph == before.graph,
                state.empty_paths_cache == before.empty_paths_cache,
                state.edge_docids_cache == before.edge_docids_cache,
                before.wf(model, uni),
                paths.wf(),
                holds_costs(state.graph, paths),
                searching ==> current is Some && no_path(paths),
                current matches Some(c) ==> c.wf(state.graph),
                before.floor() <= found_at,
                searching ==> current->Some_0.next_cost == found_at,
                !searching && !no_path(paths) ==> {
                    &&& found_at < (match current {
                        Some(c) => c.next_cost as int,
                        None => before.ceiling(),
                    })
                    &&& forall|path: Seq<u32>|
                        paths.contains(path) <==> #[trigger] candidate(
                            state.graph,
                            state.empty_paths_cache,
                            path,
                        ) && state.graph.path_cost(path) == found_at
                    &&& forall|path: Seq<u32>| #[trigger]
                        candidate(state.graph, state.empty_paths_cache, path)
                            && state.graph.path_cost(path) > found_at ==> state.graph.path_cost(
                            path,
                        ) >= (match current {
                            Some(c) => c.next_cost as int,
                            None => before.ceiling(),
                        })
                },
                !searching && no_path(paths) ==> current is None && forall|
                    path: Seq<u32>,
                | #[trigger]
                    candidate(state.graph, state.empty_paths_cache, path) ==> state.graph.path_cost(
                        path,
                    ) < before.floor(),
                forall|path: Seq<u32>| #[trigger]
                    candidate(state.graph, state.empty_paths_cache, path) && before.floor()
                        <= state.graph.path_cost(path) ==> found_at <= state.graph.path_cost(path),
                before.cheapest_paths_state is None ==> !searching && no_path(paths),
            decreases
                    (if searching {
                        before.ceiling() - current->Some_0.next_cost
                    } else {
                        0
                    }),
        {
            let stand = current.take().unwrap();
            let ghost budget = stand.next_cost as int;
            current = stand.compute_paths_of_next_lowest_cost(
                &state.graph,
                &state.empty_paths_cache,
                &mut paths,
            );
            if paths.is_empty() {
                searching = current.is_some();
                proof {
                    if current is Some {
                        found_at = current->Some_0.next_cost as int;
                    } else {
                        assert forall|path: Seq<u32>| #[trigger]
                            candidate(
                                state.graph,
                                state.empty_paths_cache,
                                path,
                            ) implies state.graph.path_cost(path) < before.floor() by {
                            assert(!paths.contains(path));
                        }
                    }
                    assert forall|path: Seq<u32>| #[trigger]
                        candidate(state.graph, state.empty_paths_cache, path) && before.floor()
                            <= state.graph.path_cost(path) implies found_at
                        <= state.graph.path_cost(path) by {
                        assert(!paths.contains(path));
                    }
                }
            } else {
                searching = false;
                proof {
                    if current is None {
                        assert forall|path: Seq<u32>| #[trigger]
                            candidate(state.graph, state.empty_paths_cache, path)
                                && state.graph.path_cost(path)
                                > found_at implies state.graph.path_cost(path)
                            >= before.ceiling() by {}
                    }
                }
            }
        }
        if paths.is_empty() {
            proof {
                assert forall|d: u32|
                    !(uni.contains(d) && docids_in_cost_range(
                        before.graph,
                        model,
                        before.floor(),
                        before.ceiling(),
                    ).contains(d)) by {
                    if uni.contains(d) && docids_in_cost_range(
                        before.graph,
                        model,
                        before.floor(),
                        before.ceiling(),
                    ).contains(d) {
                        let path = choose|path: Seq<u32>|
                            #[trigger] before.graph.is_complete_path(path) && before.floor()
                                <= before.graph.path_cost(path) < before.ceiling()
                                && before.graph.path_docids(path, model).contains(d);
                        lemma_no_document(before, model, uni, path, d);
                        if before.cheapest_paths_state is Some {
                            assert(!candidate(state.graph, state.empty_paths_cache, path));
                        }
                    }
                }
                assert(uni.intersect(
                    docids_in_cost_range(before.graph, model, before.floor(), before.ceiling()),
                ) =~= Set::<u32>::empty());
                assert forall|c: int| before.floor() <= c < before.ceiling() implies uni.intersect(
                    #[trigger] class_of(
                        graph_rule_model::<G>(),
                        before.graph.query_graph,
                        model,
                        c,
                    ),
                ) == Set::<u32>::empty() by {
                    lemma_class_of_graph(before.graph, model, c);
                    let class = docids_in_cost_range(before.graph, model, c, c + 1);
                    assert forall|d: u32| !(uni.contains(d) && class.contains(d)) by {
                        if uni.contains(d) && class.contains(d) {
                            let path = choose|path: Seq<u32>|
                                #[trigger] before.graph.is_complete_path(path) && c
                                    <= before.graph.path_cost(path) < c + 1
                                    && before.graph.path_docids(path, model).contains(d);
                            assert(docids_in_cost_range(
                                before.graph,
                                model,
                                before.floor(),
                                before.ceiling(),
                            ).contains(d));
                        }
                    }
                    assert(uni.intersect(class) =~= Set::<u32>::empty());
                }
            }
            return Ok(None);
        }
        state.cheapest_paths_state = current;
        G::log_state(&state.graph, &paths, &state.empty_paths_cache, logger);
        proof {
            assert forall|path: Seq<u32>, m: int|
                paths.contains(path) && 0 <= m < path.len() implies state.graph.live(
                #[trigger] path[m] as int,
            ) by {
                lemma_complete_path_is_live(state.graph, path, m);
            }
        }
        let ghost found = paths;
        proof {
            assert forall|path: Seq<u32>|
                found.contains(path) <==> #[trigger] candidate(
                    before.graph,
                    before.empty_paths_cache,
                    path,
                ) && before.graph.path_cost(path) == found_at by {}
            assert forall|path: Seq<u32>| #[trigger]
                candidate(before.graph, before.empty_paths_cache, path) && before.floor()
                    <= before.graph.path_cost(path) < state.floor() implies before.graph.path_cost(
                path,
            ) == found_at by {}
        }
        let bucket = match state.graph.resolve_paths(
            index,
            db_cache,
            &mut state.edge_docids_cache,
            &mut state.empty_paths_cache,
            universe,
            paths,
        ) {
            Ok(bucket) => bucket,
            Err(e) => {
                return Err(e);
            },
        };
        let next_query_graph = share_graph(&state.graph.query_graph);
        proof {
            lemma_bucket_of_cost_class(before, state, model, uni, found, found_at, members(bucket));
        }
        self.state = Some(state);
        let r = Ok(Some(RankingRuleOutput { query: next_query_graph, candidates: bucket }));
        proof {
            let now = self.state->Some_0;
            assert(hands_out(before, now, model, uni, members(bucket), found_at));
            assert(forall|path: Seq<u32>|
                before.empty_paths_cache.prunes(path) ==> now.empty_paths_cache.prunes(path));
            assert(forall|path: Seq<u32>|
                before.empty_paths_cache.empty_prefixes.covers(path)
                    ==> now.empty_paths_cache.empty_prefixes.covers(path));
            assert(forall|e: u32|
                members(before.empty_paths_cache.empty_edges).contains(e) ==> members(
                    now.empty_paths_cache.empty_edges,
                ).contains(e));
            assert(self.id == old(self).id);
            assert(old(self).state->Some_0 == before);
            assert(r->Ok_0->Some_0.query == before.graph.query_graph);
            assert(members(r->Ok_0->Some_0.candidates) == members(bucket));
            assert(old(self).gives(*self, model, uni, r));
            lemma_hands_out_bucket(before, now, model, uni, r->Ok_0->Some_0, found_at);
            assert(self.query() == old(self).query());
            assert(bucket_at(
                old(self).model(),
                old(self).query(),
                model,
                uni,
                (old(self).floor(), self.floor()),
                r->Ok_0->Some_0,
                found_at,
            ));
        }
        r
    }

    /// Drops the state of the iteration.
    fn end_iteration<I: IndexSnapshot, L: SearchLogger>(
        &mut self,
        index: &I,
        db_cache: &mut DatabaseCache,
        logger: &mut L,
    )
        ensures
            old(self).ends(*final(self)),
            *final(db_cache) == *old(db_cache),
    {
        self.state = None;
    }
}

/// The documents of the paths found at a cost are what the rule hands out
/// at this cost.
#[verifier::rlimit(40)]
proof fn lemma_bucket_of_cost_class<G: RankingRuleGraphTrait>(
    before: GraphBasedRankingRuleState<G>,
    after: GraphBasedRankingRuleState<G>,
    index: IndexModel,
    universe: Set<u32>,
    found: PathsMap<u64>,
    cost: int,
    bucket: Set<u32>,
)
    requires
        before.wf(index, universe),
        after.graph == before.graph,
        before.floor() <= cost < after.floor(),
        !no_path(found),
        forall|path: Seq<u32>|
            found.contains(path) <==> #[trigger] candidate(
                before.graph,
                before.empty_paths_cache,
                path,
            ) && before.graph.path_cost(path) == cost,
        forall|path: Seq<u32>| #[trigger]
            candidate(before.graph, before.empty_paths_cache, path) && before.floor()
                <= before.graph.path_cost(path) < after.floor() ==> before.graph.path_cost(path)
                == cost,
        bucket == paths_docids(before.graph, found, index, universe),
        forall|path: Seq<u32>| #[trigger]
            found.contains(path) ==> learnt_of(
                before.graph,
                after.empty_paths_cache,
                index,
                universe,
                path,
            ),
    ensures
        hands_out(before, after, index, universe, bucket, cost),
{
    let whole = docids_in_cost_range(before.graph, index, before.floor(), after.floor());
    let class = docids_in_cost_range(before.graph, index, cost, cost + 1);
    let witness = choose|path: Seq<u32>| found.contains(path);
    assert(found.contains(witness));
    assert(candidate(before.graph, before.empty_paths_cache, witness));
    assert forall|d: u32| universe.contains(d) implies (bucket.contains(d) <==> whole.contains(d))
        && (bucket.contains(d) <==> class.contains(d)) by {
        if bucket.contains(d) {
            let path = choose|path: Seq<u32>|
                found.contains(path) && #[trigger] before.graph.path_docids(path, index).contains(
                    d,
                );
            assert(candidate(before.graph, before.empty_paths_cache, path));
            assert(before.graph.is_complete_path(path));
            assert(whole.contains(d));
            assert(class.contains(d));
        }
        if whole.contains(d) || class.contains(d) {
            let path = if whole.contains(d) {
                choose|path: Seq<u32>|
                    #[trigger] before.graph.is_complete_path(path) && before.floor()
                        <= before.graph.path_cost(path) < after.floor()
                        && before.graph.path_docids(path, index).contains(d)
            } else {
                choose|path: Seq<u32>|
                    #[trigger] before.graph.is_complete_path(path) && cost
                        <= before.graph.path_cost(path) < cost + 1 && before.graph.path_docids(
                        path,
                        index,
                    ).contains(d)
            };
            lemma_no_document(before, index, universe, path, d);
            assert(candidate(before.graph, before.empty_paths_cache, path));
            assert(before.graph.path_cost(path) == cost);
            assert(found.contains(path));
            assert(before.graph.path_docids(path, index).contains(d));
        }
    }
    assert(bucket =~= universe.intersect(whole));
    assert(bucket =~= universe.intersect(class));
    assert forall|path: Seq<u32>| #[trigger]
        candidate(before.graph, before.empty_paths_cache, path) && before.floor()
            <= before.graph.path_cost(path) implies cost <= before.graph.path_cost(path) by {
        if before.graph.path_cost(path) < after.floor() {
            assert(before.graph.path_cost(path) == cost);
        }
    }
}

/// A path that the cache rules out matches no document of the universe.
pub proof fn lemma_no_document<G: RankingRuleGraphTrait>(
    state: GraphBasedRankingRuleState<G>,
    index: IndexModel,
    universe: Set<u32>,
    path: Seq<u32>,
    d: u32,
)
    requires
        state.wf(index, universe),
        state.graph.is_complete_path(path),
        universe.contains(d),
        state.graph.path_docids(path, index).contains(d),
    ensures
        candidate(state.graph, state.empty_paths_cache, path),
{
    if state.empty_paths_cache.prunes(path) {
        assert forall|m: int| 0 <= m < path.len() implies state.graph.live(
            #[trigger] path[m] as int,
        ) by {
            lemma_complete_path_is_live(state.graph, path, m);
        }
        lemma_pruned_path_is_empty(
            state.graph,
            state.empty_paths_cache,
            index,
            universe,
            path,
            d,
        );
    }
}

} // verus!
