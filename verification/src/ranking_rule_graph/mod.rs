//! Ranking-rule graphs: a query graph whose edges carry the cost that one
//! ranking criterion gives them, and the documents that pay this cost.

use vstd::prelude::*;
use std::rc::Rc;
use roaring::RoaringBitmap;
use crate::bitmap::members;
use crate::db_cache::DatabaseCache;
use crate::error::Error;
use crate::index::{IndexModel, IndexSnapshot};
use crate::logger::SearchLogger;
use crate::ranking_rule_graph::empty_paths_cache::EmptyPathsCache;
use crate::ranking_rule_graph::paths_map::PathsMap;
use crate::query_graph::{graph_of, strictly_increasing, QueryGraph, QueryNode};

pub mod paths_map;
pub mod empty_paths_cache;
pub mod edge_docids_cache;
pub mod cheapest_paths;
pub mod resolve_paths;
pub mod proximity;
pub mod typo;

verus! {

/// What an edge asks of a document: nothing, or what the ranking rule says
/// of its data.
#[derive(Debug)]
pub enum EdgeDetails<E> {
    Unconditional,
    Data(E),
}

/// An edge of a ranking-rule graph, between two nodes of the query graph.
#[derive(Debug)]
pub struct Edge<E> {
    pub from_node: u32,
    pub to_node: u32,
    pub cost: u8,
    pub details: EdgeDetails<E>,
}

/// One ranking criterion, as a way to derive a graph with costs from a query
/// graph.
pub trait RankingRuleGraphTrait: Sized {
    /// The condition that an edge of this rule puts on documents.
    type EdgeDetails;

    /// The edges that the rule places between two nodes of the query graph,
    /// none if the two nodes cannot follow each other under this rule.
    spec fn edges_between(from: QueryNode, to: QueryNode) -> Seq<(u8, EdgeDetails<Self::EdgeDetails>)>;

    /// The documents that meet the condition of an edge.
    spec fn edge_docids(details: Self::EdgeDetails, index: IndexModel) -> Set<u32>;

    /// Returns all the edges between two nodes of the query graph.
    fn build_edges(from: &QueryNode, to: &QueryNode) -> (edges: Vec<(u8, EdgeDetails<Self::EdgeDetails>)>)
        ensures
            edges@ == Self::edges_between(*from, *to),
    ;

    /// Reads from the index the documents that meet the condition of an
    /// edge.
    fn resolve_edge<I: IndexSnapshot>(
        details: &Self::EdgeDetails,
        index: &I,
        db_cache: &mut DatabaseCache,
    ) -> (r: Result<RoaringBitmap, Error>)
        requires
            old(db_cache).wf(index.model()),
        ensures
            final(db_cache).wf(index.model()),
            index.model().reliable ==> r is Ok,
            r matches Ok(bitmap) ==> members(bitmap) == Self::edge_docids(*details, index.model()),
            r matches Err(e) ==> e is StorageFailure,
    ;

    /// Shows to the logger the graph, the paths that are about to be
    /// resolved and what is known of empty paths.
    fn log_state<L: SearchLogger>(
        graph: &RankingRuleGraph<Self>,
        paths: &PathsMap<u64>,
        empty_paths_cache: &EmptyPathsCache,
        logger: &mut L,
    );
}

/// A query graph with the edges of one ranking rule. An edge is known by its
/// position in `all_edges`; a removed edge leaves `None` there. For each
/// node, `node_edges` lists the edges that leave it.
pub struct RankingRuleGraph<G: RankingRuleGraphTrait> {
    pub query_graph: Rc<QueryGraph>,
    pub all_edges: Vec<Option<Edge<G::EdgeDetails>>>,
    pub node_edges: Vec<Vec<u32>>,
}

/// The edges that a rule proposed, placed between node `a` and node `b`.
pub open spec fn placed<E>(built: Seq<(u8, EdgeDetails<E>)>, a: u32, b: u32) -> Seq<Edge<E>> {
    Seq::new(
        built.len(),
        |i: int| Edge { from_node: a, to_node: b, cost: built[i].0, details: built[i].1 },
    )
}

/// The same edges, none of them removed.
pub open spec fn all_live<E>(edges: Seq<Edge<E>>) -> Seq<Option<Edge<E>>> {
    Seq::new(edges.len(), |i: int| Some(edges[i]))
}

/// The ids `start`, `start + 1`, and so on, `count` of them.
pub open spec fn id_range(start: int, count: int) -> Seq<u32> {
    Seq::new(count as nat, |j: int| (start + j) as u32)
}

/// The edges that a rule places from node `a` to its first `k` successors.
pub open spec fn edges_leaving<G: RankingRuleGraphTrait>(
    query_graph: QueryGraph,
    a: int,
    k: int,
) -> Seq<Edge<G::EdgeDetails>>
    decreases k,
{
    if k <= 0 {
        Seq::empty()
    } else {
        let b = query_graph.edges@[a].successors@[k - 1];
        edges_leaving::<G>(query_graph, a, k - 1) + placed(
            G::edges_between(query_graph.nodes@[a], query_graph.nodes@[b as int]),
            a as u32,
            b,
        )
    }
}

/// The edges that a rule places from the first `n` nodes, node after node.
pub open spec fn edges_upto<G: RankingRuleGraphTrait>(query_graph: QueryGraph, n: int) -> Seq<
    Edge<G::EdgeDetails>,
>
    decreases n,
{
    if n <= 0 {
        Seq::empty()
    } else {
        edges_upto::<G>(query_graph, n - 1) + edges_leaving::<G>(
            query_graph,
            n - 1,
            query_graph.edges@[n - 1].successors@.len() as int,
        )
    }
}

impl<G: RankingRuleGraphTrait> RankingRuleGraph<G> {
    /// Whether `e` is the id of an edge that was not removed.
    pub open spec fn live(self, e: int) -> bool {
        0 <= e < self.all_edges@.len() && self.all_edges@[e] is Some
    }

    /// The edge with id `e`.
    pub open spec fn edge(self, e: int) -> Edge<G::EdgeDetails> {
        self.all_edges@[e]->Some_0
    }

    /// The structure that every ranking-rule graph has: each live edge joins
    /// two live nodes of the query graph and leads forward, and is listed
    /// once among the edges that leave its first node.
    pub open spec fn wf(self) -> bool {
        let len = self.query_graph.nodes@.len();
        &&& self.query_graph.wf()
        &&& self.node_edges@.len() == len
        &&& self.all_edges@.len() <= u32::MAX
        &&& forall|e: int| #[trigger]
            self.live(e) ==> {
                let edge = self.edge(e);
                &&& edge.from_node < edge.to_node < len
                &&& !(self.query_graph.nodes@[edge.from_node as int] is Deleted)
                &&& !(self.query_graph.nodes@[edge.to_node as int] is Deleted)
                &&& self.node_edges@[edge.from_node as int]@.contains(e as u32)
            }
        &&& forall|a: int, k: int|
            0 <= a < len && 0 <= k < self.node_edges@[a]@.len() ==> {
                let e = #[trigger] self.node_edges@[a]@[k];
                &&& e < self.all_edges@.len()
                &&& self.live(e as int) ==> self.edge(e as int).from_node == a
            }
        &&& forall|a: int, k: int, l: int|
            0 <= a < len && 0 <= k < l < self.node_edges@[a]@.len() ==> #[trigger] self.node_edges@[a]@[k]
                != #[trigger] self.node_edges@[a]@[l]
    }

    /// The documents that an edge admits: all of them if the edge is
    /// unconditional, those that the rule finds in the index otherwise.
    pub open spec fn edge_set(self, e: int, index: IndexModel) -> Set<u32> {
        match self.edge(e).details {
            EdgeDetails::Unconditional => Set::full(),
            EdgeDetails::Data(details) => G::edge_docids(details, index),
        }
    }

    /// Whether the edges of `path`, one after the other, lead from node
    /// `from` to node `to`.
    pub open spec fn is_path(self, path: Seq<u32>, from: int, to: int) -> bool
        decreases path.len(),
    {
        if path.len() == 0 {
            from == to
        } else {
            let e = path.last() as int;
            &&& self.live(e)
            &&& self.edge(e).to_node == to
            &&& self.is_path(path.drop_last(), from, self.edge(e).from_node as int)
        }
    }

    /// Whether `path` leads from the start node to the end node.
    pub open spec fn is_complete_path(self, path: Seq<u32>) -> bool {
        self.is_path(path, 0, self.query_graph.nodes@.len() - 1)
    }

    /// The sum of the costs of the edges of `path`.
    pub open spec fn path_cost(self, path: Seq<u32>) -> int
        decreases path.len(),
    {
        if path.len() == 0 {
            0
        } else {
            self.path_cost(path.drop_last()) + self.edge(path.last() as int).cost
        }
    }

    /// The documents that every edge of `path` admits.
    pub open spec fn path_docids(self, path: Seq<u32>, index: IndexModel) -> Set<u32> {
        Set::new(
            |d: u32|
                forall|i: int|
                    0 <= i < path.len() ==> self.edge_set(#[trigger] path[i] as int, index).contains(d),
        )
    }
}

/// The number of edges placed grows with the number of successors taken.
pub proof fn lemma_edges_leaving_grows<G: RankingRuleGraphTrait>(
    query_graph: QueryGraph,
    a: int,
    k: int,
    l: int,
)
    requires
        0 <= k <= l,
    ensures
        edges_leaving::<G>(query_graph, a, k).len() <= edges_leaving::<G>(query_graph, a, l).len(),
    decreases l - k,
{
    if k < l {
        lemma_edges_leaving_grows::<G>(query_graph, a, k, l - 1);
    }
}

/// The number of edges placed grows with the number of nodes taken.
pub proof fn lemma_edges_upto_grows<G: RankingRuleGraphTrait>(
    query_graph: QueryGraph,
    m: int,
    n: int,
)
    requires
        0 <= m <= n,
    ensures
        edges_upto::<G>(query_graph, m).len() <= edges_upto::<G>(query_graph, n).len(),
    decreases n - m,
{
    if m < n {
        lemma_edges_upto_grows::<G>(query_graph, m, n - 1);
    }
}

fn reversed<T>(list: Vec<T>) -> (r: Vec<T>)
    ensures
        r@.len() == list@.len(),
        forall|i: int| 0 <= i < list@.len() ==> r@[i] == list@[list@.len() - 1 - i],
{
    let mut list = list;
    let ghost whole = list@;
    let mut r: Vec<T> = Vec::new();
    while list.len() > 0
        invariant
            list@.len() + r@.len() == whole.len(),
            list@ == whole.take(list@.len() as int),
            forall|i: int| 0 <= i < r@.len() ==> r@[i] == whole[whole.len() - 1 - i],
        decreases list@.len(),
    {
        let item = list.pop().unwrap();
        r.push(item);
    }
    r
}

impl<G: RankingRuleGraphTrait> RankingRuleGraph<G> {
    /// The graph holds the edges that the rule places on `query_graph`, in
    /// the order of the nodes they leave and of the successors they lead
    /// to, none of them removed.
    pub open spec fn built_from(self, query_graph: QueryGraph) -> bool {
        let len = query_graph.nodes@.len() as int;
        &&& *self.query_graph == query_graph
        &&& self.all_edges@ == all_live(edges_upto::<G>(query_graph, len))
        &&& self.node_edges@.len() == len
        &&& forall|a: int|
            0 <= a < len ==> (#[trigger] self.node_edges@[a])@ == id_range(
                edges_upto::<G>(query_graph, a).len() as int,
                edges_leaving::<G>(
                    query_graph,
                    a,
                    query_graph.edges@[a].successors@.len() as int,
                ).len() as int,
            )
    }

    fn place(
        all_edges: &mut Vec<Option<Edge<G::EdgeDetails>>>,
        leaving: &mut Vec<u32>,
        built: Vec<(u8, EdgeDetails<G::EdgeDetails>)>,
        a: u32,
        b: u32,
    ) -> (done: bool)
        requires
            old(all_edges)@.len() <= u32::MAX,
        ensures
            done <==> old(all_edges)@.len() + built@.len() <= u32::MAX,
            done ==> final(all_edges)@ == old(all_edges)@ + all_live(placed(built@, a, b)),
            done ==> final(leaving)@ == old(leaving)@ + id_range(
                old(all_edges)@.len() as int,
                built@.len() as int,
            ),
    {
        let ghost wanted = built@;
        let ghost base = all_edges@;
        let ghost base_ids = leaving@;
        let mut rest = reversed(built);
        let mut j: usize = 0;
        while rest.len() > 0
            invariant
                j + rest@.len() == wanted.len(),
                forall|i: int| 0 <= i < rest@.len() ==> rest@[i] == wanted[wanted.len() - 1 - i],
                wanted == built@,
                base == old(all_edges)@,
                all_edges@.len() == base.len() + j,
                all_edges@.len() <= u32::MAX,
                all_edges@ == base + all_live(placed(wanted.take(j as int), a, b)),
                leaving@ == base_ids + id_range(base.len() as int, j as int),
            decreases rest@.len(),
        {
            if all_edges.len() >= 0xFFFF_FFFF {
                return false;
            }
            let item = rest.pop().unwrap();
            assert(item == wanted[j as int]);
            let id = all_edges.len() as u32;
            all_edges.push(Some(Edge { from_node: a, to_node: b, cost: item.0, details: item.1 }));
            leaving.push(id);
            proof {
                assert(wanted.take(j + 1) == wanted.take(j as int).push(wanted[j as int]));
                assert(all_edges@ =~= base + all_live(placed(wanted.take(j + 1), a, b)));
                assert(leaving@ =~= base_ids + id_range(base.len() as int, j + 1));
            }
            j += 1;
        }
        assert(wanted.take(wanted.len() as int) == wanted);
        true
    }
}

/// Every edge placed so far joins two live nodes and leads forward.
pub open spec fn edges_sound<E>(query_graph: QueryGraph, all: Seq<Option<Edge<E>>>) -> bool {
    forall|e: int|
        0 <= e < all.len() ==> {
            let edge = (#[trigger] all[e])->Some_0;
            &&& all[e] is Some
            &&& edge.from_node < edge.to_node < query_graph.nodes@.len()
            &&& !(query_graph.nodes@[edge.from_node as int] is Deleted)
            &&& !(query_graph.nodes@[edge.to_node as int] is Deleted)
        }
}

/// Every edge placed so far is listed once under the node that it leaves:
/// in `lists` if the node is finished, in `current` if it is the node at
/// hand.
pub open spec fn edges_listed<E>(
    all: Seq<Option<Edge<E>>>,
    lists: Seq<Vec<u32>>,
    current: Seq<u32>,
) -> bool {
    &&& forall|e: int|
        0 <= e < all.len() ==> {
            let f = (#[trigger] all[e])->Some_0.from_node as int;
            &&& f <= lists.len()
            &&& f < lists.len() ==> lists[f]@.contains(e as u32)
            &&& f == lists.len() ==> current.contains(e as u32)
        }
    &&& forall|a: int, k: int|
        0 <= a < lists.len() && 0 <= k < lists[a]@.len() ==> {
            let e = #[trigger] lists[a]@[k];
            e < all.len() && all[e as int]->Some_0.from_node == a
        }
    &&& forall|k: int|
        0 <= k < current.len() ==> {
            let e = #[trigger] current[k];
            e < all.len() && all[e as int]->Some_0.from_node == lists.len()
        }
    &&& forall|a: int| 0 <= a < lists.len() ==> strictly_increasing((#[trigger] lists[a])@)
    &&& strictly_increasing(current)
}

impl<G: RankingRuleGraphTrait> RankingRuleGraph<G> {
    /// Builds the graph of the rule `G` over a query graph: between each
    /// node and each of its successors, the edges that `G::build_edges`
    /// returns for the two nodes. Edge ids are 32 bits wide: a graph with
    /// more edges than that is refused with `Internal`.
    #[verifier::rlimit(40)]
    pub fn build(query_graph: Rc<QueryGraph>) -> (r: Result<RankingRuleGraph<G>, Error>)
        requires
            query_graph.wf(),
        ensures
            r is Ok <==> edges_upto::<G>(*query_graph, query_graph.nodes@.len() as int).len()
                <= u32::MAX,
            r matches Ok(graph) ==> graph.wf() && graph.built_from(*query_graph),
            r matches Err(e) ==> e is Internal,
    {
        let n = query_graph.nodes.len();
        let mut all_edges: Vec<Option<Edge<G::EdgeDetails>>> = Vec::new();
        let mut node_edges: Vec<Vec<u32>> = Vec::new();
        let mut a: usize = 0;
        while a < n
            invariant
                query_graph.wf(),
                n == query_graph.nodes@.len(),
                a <= n,
                node_edges@.len() == a,
                all_edges@.len() <= u32::MAX,
                all_edges@ == all_live(edges_upto::<G>(graph_of(query_graph), a as int)),
                edges_sound(graph_of(query_graph), all_edges@),
                edges_listed(all_edges@, node_edges@, Seq::<u32>::empty()),
                forall|c: int|
                    0 <= c < a ==> (#[trigger] node_edges@[c])@ == id_range(
                        edges_upto::<G>(graph_of(query_graph), c).len() as int,
                        edges_leaving::<G>(
                            graph_of(query_graph),
                            c,
                            query_graph.edges@[c].successors@.len() as int,
                        ).len() as int,
                    ),
            decreases n - a,
        {
            let mut leaving: Vec<u32> = Vec::new();
            let ghost start = all_edges@.len() as int;
            let mut k: usize = 0;
            while k < query_graph.edges[a].successors.len()
                invariant
                    query_graph.wf(),
                    n == query_graph.nodes@.len(),
                    a < n,
                    node_edges@.len() == a,
                    k <= query_graph.edges@[a as int].successors@.len(),
                    all_edges@.len() <= u32::MAX,
                    start == edges_upto::<G>(graph_of(query_graph), a as int).len(),
                    all_edges@ == all_live(
                        edges_upto::<G>(graph_of(query_graph), a as int) + edges_leaving::<G>(
                            graph_of(query_graph),
                            a as int,
                            k as int,
                        ),
                    ),
                    leaving@ == id_range(
                        start,
                        edges_leaving::<G>(graph_of(query_graph), a as int, k as int).len() as int,
                    ),
                    edges_sound(graph_of(query_graph), all_edges@),
                    edges_listed(all_edges@, node_edges@, leaving@),
                decreases query_graph.edges@[a as int].successors@.len() - k,
            {
                let b = query_graph.edges[a].successors[k];
                assert(a < b < n && !(query_graph.nodes@[a as int] is Deleted) && !(
                query_graph.nodes@[b as int] is Deleted)) by {
                    assert(query_graph.edges@[a as int].successors@[k as int] == b);
                }
                let built = G::build_edges(&query_graph.nodes[a], &query_graph.nodes[b as usize]);
                let ghost before = all_edges@;
                let ghost ids_before = leaving@;
                let ghost fresh = placed(built@, a as u32, b);
                let done = Self::place(&mut all_edges, &mut leaving, built, a as u32, b);
                proof {
                    let full = query_graph.edges@[a as int].successors@.len() as int;
                    let upto = edges_upto::<G>(graph_of(query_graph), a as int);
                    let left = edges_leaving::<G>(graph_of(query_graph), a as int, k as int);
                    assert(edges_leaving::<G>(graph_of(query_graph), a as int, k + 1) == left + fresh);
                    if !done {
                        lemma_edges_leaving_grows::<G>(graph_of(query_graph), a as int, k + 1, full);
                        lemma_edges_upto_grows::<G>(graph_of(query_graph), a + 1, n as int);
                    } else {
                        assert(all_edges@ =~= all_live(upto + (left + fresh)));
                        assert(leaving@ =~= id_range(start, (left + fresh).len() as int));
                        assert forall|e: int| 0 <= e < all_edges@.len() implies {
                            let edge = (#[trigger] all_edges@[e])->Some_0;
                            &&& all_edges@[e] is Some
                            &&& edge.from_node < edge.to_node < query_graph.nodes@.len()
                            &&& !(query_graph.nodes@[edge.from_node as int] is Deleted)
                            &&& !(query_graph.nodes@[edge.to_node as int] is Deleted)
                        } by {
                            if e < before.len() {
                                assert(all_edges@[e] == before[e]);
                            } else {
                                assert(all_edges@[e] == Some(fresh[e - before.len()]));
                            }
                        }
                        assert forall|e: int| 0 <= e < all_edges@.len() implies {
                            let f = (#[trigger] all_edges@[e])->Some_0.from_node as int;
                            &&& f <= node_edges@.len()
                            &&& f < node_edges@.len() ==> node_edges@[f]@.contains(e as u32)
                            &&& f == node_edges@.len() ==> leaving@.contains(e as u32)
                        } by {
                            if e < before.len() {
                                assert(all_edges@[e] == before[e]);
                                let f = before[e]->Some_0.from_node as int;
                                if f == node_edges@.len() {
                                    let i = choose|i: int|
                                        0 <= i < ids_before.len() && ids_before[i] == e as u32;
                                    assert(leaving@[i] == e as u32);
                                }
                            } else {
                                assert(all_edges@[e] == Some(fresh[e - before.len()]));
                                assert(leaving@[ids_before.len() + (e - before.len())] == e as u32);
                            }
                        }
                        assert forall|i: int| 0 <= i < leaving@.len() implies {
                            let e = #[trigger] leaving@[i];
                            e < all_edges@.len() && all_edges@[e as int]->Some_0.from_node
                                == node_edges@.len()
                        } by {
                            if i < ids_before.len() {
                                assert(leaving@[i] == ids_before[i]);
                                assert(all_edges@[ids_before[i] as int] == before[ids_before[i] as int]);
                            } else {
                                let e = leaving@[i] as int;
                                assert(e == before.len() + (i - ids_before.len()));
                                assert(all_edges@[e] == Some(fresh[e - before.len()]));
                            }
                        }
                        assert forall|c: int, i: int|
                            0 <= c < node_edges@.len() && 0 <= i < node_edges@[c]@.len() implies {
                            let e = #[trigger] node_edges@[c]@[i];
                            e < all_edges@.len() && all_edges@[e as int]->Some_0.from_node == c
                        } by {
                            let e = node_edges@[c]@[i];
                            assert(all_edges@[e as int] == before[e as int]);
                        }
                        assert(strictly_increasing(leaving@));
                    }
                }
                if !done {
                    return Err(Error::Internal);
                }
                k += 1;
            }
            node_edges.push(leaving);
            proof {
                let full = query_graph.edges@[a as int].successors@.len() as int;
                assert(edges_upto::<G>(graph_of(query_graph), a + 1) == edges_upto::<G>(graph_of(query_graph), a as int)
                    + edges_leaving::<G>(graph_of(query_graph), a as int, full));
                assert forall|e: int| 0 <= e < all_edges@.len() implies {
                    let f = (#[trigger] all_edges@[e])->Some_0.from_node as int;
                    &&& f <= node_edges@.len()
                    &&& f < node_edges@.len() ==> node_edges@[f]@.contains(e as u32)
                    &&& f == node_edges@.len() ==> Seq::<u32>::empty().contains(e as u32)
                } by {
                    let f = all_edges@[e]->Some_0.from_node as int;
                    if f < a {
                        assert(node_edges@[f] == node_edges@.drop_last()[f]);
                    }
                }
            }
            a += 1;
        }
        let graph = RankingRuleGraph { query_graph, all_edges, node_edges };
        proof {
            assert forall|e: int| #[trigger] graph.live(e) implies {
                let edge = graph.edge(e);
                &&& edge.from_node < edge.to_node < n
                &&& !(graph.query_graph.nodes@[edge.from_node as int] is Deleted)
                &&& !(graph.query_graph.nodes@[edge.to_node as int] is Deleted)
                &&& graph.node_edges@[edge.from_node as int]@.contains(e as u32)
            } by {
                assert(graph.all_edges@[e] is Some);
            }
            assert(graph.wf());
        }
        Ok(graph)
    }
}

impl<G: RankingRuleGraphTrait> RankingRuleGraph<G> {
    /// The node at which `path` arrives when it leaves from `from`.
    pub open spec fn path_end(self, path: Seq<u32>, from: int) -> int {
        if path.len() == 0 {
            from
        } else {
            self.edge(path.last() as int).to_node as int
        }
    }

    /// A path arrives at one node only.
    pub proof fn lemma_path_end(self, path: Seq<u32>, from: int, to: int)
        requires
            self.is_path(path, from, to),
        ensures
            to == self.path_end(path, from),
    {
    }

    /// Every beginning of a path is a path, and the edge that follows it
    /// leaves the node at which it arrives.
    pub proof fn lemma_path_take(self, path: Seq<u32>, from: int, to: int, j: int)
        requires
            self.is_path(path, from, to),
            0 <= j <= path.len(),
        ensures
            self.is_path(path.take(j), from, self.path_end(path.take(j), from)),
            j < path.len() ==> self.live(path[j] as int) && self.edge(path[j] as int).from_node
                == self.path_end(path.take(j), from),
            j < path.len() ==> self.path_cost(path.take(j + 1)) == self.path_cost(path.take(j))
                + self.edge(path[j] as int).cost,
        decreases path.len() - j,
    {
        if j == path.len() {
            assert(path.take(j) == path);
        } else {
            let init = path.drop_last();
            let e = path.last() as int;
            assert(path.take(j + 1).drop_last() == path.take(j));
            assert(path.take(j + 1).last() == path[j]);
            if j == path.len() - 1 {
                assert(path.take(j) == init);
                assert(path.take(j + 1) == path);
                self.lemma_path_end(init, from, self.edge(e).from_node as int);
            } else {
                self.lemma_path_take(init, from, self.edge(e).from_node as int, j);
                assert(init.take(j) == path.take(j));
                assert(init.take(j + 1) == path.take(j + 1));
                assert(init[j] == path[j]);
            }
        }
    }

    /// A path that is not empty leads to a node of higher index.
    pub proof fn lemma_path_forward(self, path: Seq<u32>, from: int, to: int)
        requires
            self.wf(),
            self.is_path(path, from, to),
        ensures
            from <= to,
            path.len() > 0 ==> from < to,
        decreases path.len(),
    {
        if path.len() > 0 {
            let e = path.last() as int;
            self.lemma_path_forward(path.drop_last(), from, self.edge(e).from_node as int);
        }
    }

    /// Of two paths from the start node to the end node, neither is the
    /// beginning of the other unless they are the same path.
    pub proof fn lemma_complete_paths_prefix_free(self, a: Seq<u32>, b: Seq<u32>)
        requires
            self.wf(),
            self.is_complete_path(a),
            self.is_complete_path(b),
            a.is_prefix_of(b),
        ensures
            a == b,
    {
        let end = self.query_graph.nodes@.len() - 1;
        if a.len() < b.len() {
            let j = a.len() as int;
            self.lemma_path_take(b, 0, end, j);
            assert(b.take(j) == a);
            self.lemma_path_end(a, 0, end);
            let e = b[j] as int;
            assert(self.edge(e).from_node == end);
            assert(false);
        } else {
            assert(b.take(a.len() as int) == b);
        }
    }

    /// A path followed by an edge that leaves its last node is a path.
    pub proof fn lemma_path_push(self, path: Seq<u32>, from: int, to: int, e: u32)
        requires
            self.is_path(path, from, to),
            self.live(e as int),
            self.edge(e as int).from_node == to,
        ensures
            self.is_path(path.push(e), from, self.edge(e as int).to_node as int),
            self.path_cost(path.push(e)) == self.path_cost(path) + self.edge(e as int).cost,
    {
        assert(path.push(e).drop_last() == path);
        assert(path.push(e).last() == e);
    }

    /// An edge followed by a path that leaves the node that the edge reaches
    /// is a path, which costs the edge and the path.
    pub proof fn lemma_path_prepend(self, e: u32, path: Seq<u32>, to: int)
        requires
            self.live(e as int),
            self.is_path(path, self.edge(e as int).to_node as int, to),
        ensures
            self.is_path(seq![e] + path, self.edge(e as int).from_node as int, to),
            self.path_cost(seq![e] + path) == self.edge(e as int).cost + self.path_cost(path),
        decreases path.len(),
    {
        let whole = seq![e] + path;
        let from = self.edge(e as int).from_node as int;
        if path.len() == 0 {
            assert(whole.len() == 1);
            assert(whole.drop_last() =~= Seq::<u32>::empty());
            assert(whole.last() == e);
            assert(self.is_path(whole.drop_last(), from, from));
            assert(self.path_cost(whole.drop_last()) == 0);
        } else {
            let last = path.last() as int;
            self.lemma_path_prepend(e, path.drop_last(), self.edge(last).from_node as int);
            assert(whole.len() == path.len() + 1);
            assert(whole.drop_last() =~= seq![e] + path.drop_last());
            assert(whole.last() == path.last());
            assert(self.is_path(whole.drop_last(), from, self.edge(last).from_node as int));
        }
    }

    /// The cost of a path over `len` nodes is at most 255 for each step.
    pub proof fn lemma_path_cost_bound(self, path: Seq<u32>, from: int, to: int)
        requires
            self.wf(),
            self.is_path(path, from, to),
        ensures
            0 <= self.path_cost(path) <= 255 * (to - from),
        decreases path.len(),
    {
        if path.len() > 0 {
            let e = path.last() as int;
            self.lemma_path_cost_bound(path.drop_last(), from, self.edge(e).from_node as int);
        }
    }

    /// Removes the edge `e`, if there is such an edge, leaving `None` at its
    /// place.
    pub fn remove_edge(&mut self, e: u32)
        requires
            old(self).wf(),
        ensures
            final(self).wf(),
            final(self).query_graph == old(self).query_graph,
            final(self).node_edges == old(self).node_edges,
            e < old(self).all_edges@.len() ==> final(self).all_edges@ == old(
                self,
            ).all_edges@.update(e as int, None),
            e >= old(self).all_edges@.len() ==> final(self).all_edges@ == old(self).all_edges@,
    {
        if (e as usize) < self.all_edges.len() {
            self.all_edges.set(e as usize, None);
            proof {
                assert forall|x: int| #[trigger] self.live(x) implies old(self).live(x)
                    && self.edge(x) == old(self).edge(x) by {}
            }
        }
    }
}

} // verus!
