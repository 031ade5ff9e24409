//! Enumeration of the paths of a ranking-rule graph, cheapest first, all the
//! paths of one cost at a time.

use vstd::prelude::*;
use crate::bitmap::{bitmap_contains, members};
use crate::ranking_rule_graph::empty_paths_cache::EmptyPathsCache;
use crate::ranking_rule_graph::paths_map::{clone_path, PathsMap};
use crate::ranking_rule_graph::{RankingRuleGraph, RankingRuleGraphTrait};

verus! {

/// The distance of a node from which the end node cannot be reached.
pub const UNREACHABLE: u64 = 0xFFFF_FFFF_FFFF_FFFF;

/// Where the enumeration stands: for each node a lower bound of what it
/// costs to go from it to the end node, and the cost of the paths that come
/// next.
#[derive(Debug)]
pub struct KCheapestPathsState {
    pub distances_to_end: Vec<u64>,
    pub next_cost: u64,
}

/// `dist` gives for each node a lower bound of the cost of the paths from it
/// to the end node: nothing for the end node itself, and along every edge
/// no more than the cost of the edge and what remains after it. A node marked
/// `UNREACHABLE` has no edge to a node that is not.
pub open spec fn admissible<G: RankingRuleGraphTrait>(
    graph: RankingRuleGraph<G>,
    dist: Seq<u64>,
) -> bool {
    let len = graph.query_graph.nodes@.len() as int;
    &&& dist.len() == len
    &&& dist[len - 1] == 0
    &&& forall|n: int|
        0 <= n < len ==> #[trigger] dist[n] == UNREACHABLE || dist[n] <= 255 * (len - 1 - n)
    &&& forall|e: int| #[trigger]
        graph.live(e) && dist[graph.edge(e).to_node as int] != UNREACHABLE ==> dist[graph.edge(
            e,
        ).from_node as int] <= graph.edge(e).cost + dist[graph.edge(e).to_node as int]
}

/// A path that leads from the start node to the end node and of which the
/// cache does not tell that it matches no document.
pub open spec fn candidate<G: RankingRuleGraphTrait>(
    graph: RankingRuleGraph<G>,
    cache: EmptyPathsCache,
    path: Seq<u32>,
) -> bool {
    graph.is_complete_path(path) && !cache.prunes(path)
}

/// Every path of the collection leads from the start node to the end node
/// and is held with its cost.
pub open spec fn holds_costs<G: RankingRuleGraphTrait>(
    graph: RankingRuleGraph<G>,
    paths: PathsMap<u64>,
) -> bool {
    forall|path: Seq<u32>| #[trigger]
        paths.contains(path) ==> graph.is_complete_path(path) && paths.get(path)->0
            == graph.path_cost(path)
}

/// From the node that the first `j` edges of a complete path reach, the end
/// node can be reached, and the bound that `dist` gives for this node is
/// not more than what the rest of the path costs.
pub proof fn lemma_remaining_cost<G: RankingRuleGraphTrait>(
    graph: RankingRuleGraph<G>,
    dist: Seq<u64>,
    path: Seq<u32>,
    j: int,
)
    requires
        graph.wf(),
        admissible(graph, dist),
        graph.is_complete_path(path),
        0 <= j <= path.len(),
    ensures
        0 <= graph.path_end(path.take(j), 0) < dist.len(),
        dist[graph.path_end(path.take(j), 0)] != UNREACHABLE,
        graph.path_cost(path.take(j)) + dist[graph.path_end(path.take(j), 0)] <= graph.path_cost(
            path,
        ),
    decreases path.len() - j,
{
    let end = graph.query_graph.nodes@.len() - 1;
    if j == path.len() {
        assert(path.take(j) == path);
        graph.lemma_path_end(path, 0, end);
    } else {
        lemma_remaining_cost(graph, dist, path, j + 1);
        graph.lemma_path_take(path, 0, end, j);
        assert(path.take(j + 1).last() == path[j]);
        let e = path[j] as int;
        assert(graph.live(e));
        assert(graph.path_end(path.take(j + 1), 0) == graph.edge(e).to_node);
    }
}

/// `path` begins with `prefix` followed by the edge `e`.
pub open spec fn through(prefix: Seq<u32>, e: u32, path: Seq<u32>) -> bool {
    prefix.push(e).is_prefix_of(path)
}

/// `path` begins with `prefix` followed by one of the first `k` edges that
/// leave `node`.
pub open spec fn leads_on<G: RankingRuleGraphTrait>(
    graph: RankingRuleGraph<G>,
    node: int,
    prefix: Seq<u32>,
    k: int,
    path: Seq<u32>,
) -> bool {
    exists|j: int| 0 <= j < k && #[trigger] through(prefix, graph.node_edges@[node]@[j], path)
}

/// What holds of a complete path that begins with `prefix` and goes on
/// with the edge `e`: the edge is live and leaves the node at which
/// `prefix` arrives, the end node can be reached after it, and the path
/// costs at least the prefix, the edge and the bound of the node that the
/// edge reaches.
pub proof fn lemma_through<G: RankingRuleGraphTrait>(
    graph: RankingRuleGraph<G>,
    dist: Seq<u64>,
    prefix: Seq<u32>,
    node: int,
    e: u32,
    path: Seq<u32>,
)
    requires
        graph.wf(),
        admissible(graph, dist),
        graph.is_path(prefix, 0, node),
        through(prefix, e, path),
        graph.is_complete_path(path),
    ensures
        prefix.len() < path.len(),
        path[prefix.len() as int] == e,
        prefix.is_prefix_of(path),
        graph.live(e as int),
        graph.edge(e as int).from_node == node,
        dist[graph.edge(e as int).to_node as int] != UNREACHABLE,
        graph.path_cost(prefix) + graph.edge(e as int).cost + dist[graph.edge(
            e as int,
        ).to_node as int] <= graph.path_cost(path),
{
    let j = prefix.len() as int;
    let end = graph.query_graph.nodes@.len() - 1;
    assert(path.subrange(0, j + 1) == prefix.push(e));
    assert(path.take(j + 1) == prefix.push(e));
    assert(path[j] == path.take(j + 1)[j]);
    assert(path.take(j) =~= prefix);
    graph.lemma_path_take(path, 0, end, j);
    graph.lemma_path_end(prefix, 0, node);
    lemma_remaining_cost(graph, dist, path, j + 1);
    assert(path.take(j + 1).last() == e);
}

/// A complete path that begins with a path to a node other than the end
/// node goes on with one of the edges that leave this node.
pub proof fn lemma_extension_goes_through<G: RankingRuleGraphTrait>(
    graph: RankingRuleGraph<G>,
    prefix: Seq<u32>,
    node: int,
    path: Seq<u32>,
)
    requires
        graph.wf(),
        graph.is_path(prefix, 0, node),
        0 <= node < graph.query_graph.nodes@.len() - 1,
        prefix.is_prefix_of(path),
        graph.is_complete_path(path),
    ensures
        leads_on(graph, node, prefix, graph.node_edges@[node]@.len() as int, path),
{
    let j = prefix.len() as int;
    let end = graph.query_graph.nodes@.len() - 1;
    assert(path.take(j) =~= prefix);
    graph.lemma_path_end(prefix, 0, node);
    if j == path.len() {
        assert(path.take(j) == path);
        graph.lemma_path_end(path, 0, end);
        assert(false);
    }
    graph.lemma_path_take(path, 0, end, j);
    let e = path[j];
    assert(graph.live(e as int));
    let list = graph.node_edges@[node]@;
    assert(list.contains(e));
    let i = choose|i: int| 0 <= i < list.len() && list[i] == e;
    assert(path.take(j + 1) =~= prefix.push(e));
    assert(through(prefix, graph.node_edges@[node]@[i], path));
}

/// The step from `before` to `after` has added the wanted paths among those
/// that `chosen` picks, and `next` is a lower bound of the cost of the
/// dearer ones among them. The wanted paths are the candidates that cost
/// `budget`.
pub open spec fn added_wanted<G: RankingRuleGraphTrait>(
    graph: RankingRuleGraph<G>,
    cache: EmptyPathsCache,
    budget: u64,
    chosen: spec_fn(Seq<u32>) -> bool,
    before: PathsMap<u64>,
    after: PathsMap<u64>,
    next: u64,
) -> bool {
    &&& forall|path: Seq<u32>|
        #![trigger after.contains(path)]
        #![trigger before.contains(path)]
        #![trigger candidate(graph, cache, path)]
        after.contains(path) <==> before.contains(path) || (chosen(path) && candidate(
            graph,
            cache,
            path,
        ) && graph.path_cost(path) == budget)
    &&& forall|path: Seq<u32>|
        chosen(path) && #[trigger] candidate(graph, cache, path) && graph.path_cost(path) > budget
            ==> next <= graph.path_cost(path)
}

/// The paths that begin with `prefix`.
pub open spec fn extensions(prefix: Seq<u32>) -> spec_fn(Seq<u32>) -> bool {
    |path: Seq<u32>| prefix.is_prefix_of(path)
}

/// The paths that begin with `prefix` followed by one of the first `k`
/// edges that leave `node`.
pub open spec fn branches<G: RankingRuleGraphTrait>(
    graph: RankingRuleGraph<G>,
    node: int,
    prefix: Seq<u32>,
    k: int,
) -> spec_fn(Seq<u32>) -> bool {
    |path: Seq<u32>| leads_on(graph, node, prefix, k, path)
}

/// Once the first `k` branches are dealt with and then the branch of edge
/// `k`, the first `k + 1` branches are dealt with.
#[verifier::rlimit(40)]
proof fn lemma_next_branch<G: RankingRuleGraphTrait>(
    graph: RankingRuleGraph<G>,
    cache: EmptyPathsCache,
    budget: u64,
    node: int,
    prefix: Seq<u32>,
    k: int,
    out0: PathsMap<u64>,
    out1: PathsMap<u64>,
    out2: PathsMap<u64>,
    next1: u64,
    next2: u64,
)
    requires
        0 <= node < graph.node_edges@.len(),
        0 <= k < graph.node_edges@[node]@.len(),
        added_wanted(graph, cache, budget, branches(graph, node, prefix, k), out0, out1, next1),
        added_wanted(
            graph,
            cache,
            budget,
            extensions(prefix.push(graph.node_edges@[node]@[k])),
            out1,
            out2,
            next2,
        ),
        next2 <= next1,
    ensures
        added_wanted(graph, cache, budget, branches(graph, node, prefix, k + 1), out0, out2, next2),
{
    let e = graph.node_edges@[node]@[k];
    let k1 = k + 1;
    let now = branches(graph, node, prefix, k1);
    let was = branches(graph, node, prefix, k);
    let step = extensions(prefix.push(e));
    assert forall|path: Seq<u32>| #[trigger] now(path) == (was(path) || step(path)) by {
        assert(now(path) == leads_on(graph, node, prefix, k1, path));
        assert(was(path) == leads_on(graph, node, prefix, k, path));
        assert(step(path) == through(prefix, e, path));
        if leads_on(graph, node, prefix, k1, path) {
            let j = choose|j: int|
                0 <= j < k1 && #[trigger] through(prefix, graph.node_edges@[node]@[j], path);
            if j < k {
                assert(leads_on(graph, node, prefix, k, path));
            }
        }
        if leads_on(graph, node, prefix, k, path) {
            let j = choose|j: int|
                0 <= j < k && #[trigger] through(prefix, graph.node_edges@[node]@[j], path);
            assert(through(prefix, graph.node_edges@[node]@[j], path));
        }
        if through(prefix, e, path) {
            assert(through(prefix, graph.node_edges@[node]@[k], path));
        }
    }
    assert forall|path: Seq<u32>|
        #![trigger out2.contains(path)]
        #![trigger out0.contains(path)]
        #![trigger candidate(graph, cache, path)]
        out2.contains(path) <==> out0.contains(path) || (now(path) && candidate(
            graph,
            cache,
            path,
        ) && graph.path_cost(path) == budget) by {
        assert(now(path) == (was(path) || step(path)));
        assert(out2.contains(path) <==> out1.contains(path) || (step(path) && candidate(
            graph,
            cache,
            path,
        ) && graph.path_cost(path) == budget));
        assert(out1.contains(path) <==> out0.contains(path) || (was(path) && candidate(
            graph,
            cache,
            path,
        ) && graph.path_cost(path) == budget));
    }
    assert forall|path: Seq<u32>|
        now(path) && #[trigger] candidate(graph, cache, path) && graph.path_cost(path)
            > budget implies next2 <= graph.path_cost(path) by {
        assert(now(path) == (was(path) || step(path)));
    }
}

/// A branch in which no candidate costs `budget` leaves the collection as
/// it is.
proof fn lemma_idle_branch<G: RankingRuleGraphTrait>(
    graph: RankingRuleGraph<G>,
    cache: EmptyPathsCache,
    budget: u64,
    prefix: Seq<u32>,
    out: PathsMap<u64>,
    next: u64,
    floor: int,
)
    requires
        next <= floor || floor > 255 * graph.query_graph.nodes@.len(),
        graph.wf(),
        budget < floor,
        forall|path: Seq<u32>|
            prefix.is_prefix_of(path) && #[trigger] candidate(graph, cache, path)
                ==> graph.path_cost(path) >= floor,
    ensures
        added_wanted(graph, cache, budget, extensions(prefix), out, out, next),
{
    let chosen = extensions(prefix);
    assert forall|path: Seq<u32>|
        chosen(path) && #[trigger] candidate(graph, cache, path) && graph.path_cost(path)
            > budget implies next <= graph.path_cost(path) by {
        graph.lemma_path_cost_bound(path, 0, graph.query_graph.nodes@.len() - 1);
    }
}

/// Walks the graph depth first from `node`, which `prefix` has reached at
/// the cost `cost`, and adds to `out` each path to the end node that costs
/// `budget` and that the cache does not rule out. A branch is left as soon
/// as the bound of its node shows that it costs more than `budget`; the
/// least such bound is kept in `next`.
#[verifier::rlimit(40)]
fn visit<G: RankingRuleGraphTrait>(
    graph: &RankingRuleGraph<G>,
    cache: &EmptyPathsCache,
    dist: &Vec<u64>,
    budget: u64,
    node: u32,
    prefix: &mut Vec<u32>,
    cost: u64,
    out: &mut PathsMap<u64>,
    next: &mut u64,
)
    requires
        graph.wf(),
        admissible(*graph, dist@),
        cache.wf(),
        holds_costs(*graph, *old(out)),
        node < graph.query_graph.nodes@.len(),
        graph.is_path(old(prefix)@, 0, node as int),
        cost == graph.path_cost(old(prefix)@),
        dist@[node as int] != UNREACHABLE,
        cost + dist@[node as int] <= budget,
        budget <= 255 * graph.query_graph.nodes@.len(),
        !cache.prunes(old(prefix)@),
        *old(next) > budget,
        *old(next) == UNREACHABLE || *old(next) <= 255 * graph.query_graph.nodes@.len(),
    ensures
        final(prefix)@ == old(prefix)@,
        old(out).wf() ==> final(out).wf(),
        holds_costs(*graph, *final(out)),
        added_wanted(
            *graph,
            *cache,
            budget,
            extensions(old(prefix)@),
            *old(out),
            *final(out),
            *final(next),
        ),
        budget < *final(next) <= *old(next),
        *final(next) == UNREACHABLE || *final(next) <= 255 * graph.query_graph.nodes@.len(),
    decreases graph.query_graph.nodes@.len() - node,
{
    let ghost prefix0 = prefix@;
    let ghost out0 = *out;
    let len = graph.query_graph.nodes.len();
    if node as usize == len - 1 {
        proof {
            assert forall|path: Seq<u32>|
                prefix0.is_prefix_of(path) && graph.is_complete_path(path) implies path
                == prefix0 by {
                graph.lemma_complete_paths_prefix_free(prefix0, path);
            }
            assert(prefix0.is_prefix_of(prefix0));
        }
        if cost == budget {
            out.insert(clone_path(prefix), cost);
            proof {
                let chosen = extensions(prefix0);
                if out0.covers(prefix0) {
                    let k = choose|k: int|
                        0 <= k <= prefix0.len() && #[trigger] out0.contains(prefix0.take(k));
                    assert(prefix0.take(k).is_prefix_of(prefix0)) by {
                        assert(prefix0.subrange(0, k) =~= prefix0.take(k));
                    }
                    graph.lemma_complete_paths_prefix_free(prefix0.take(k), prefix0);
                    assert(out0.contains(prefix0));
                    assert forall|path: Seq<u32>| out.contains(path) <==> out0.contains(path) by {
                        assert(out.get(path) == out0.get(path));
                    }
                } else {
                    assert forall|path: Seq<u32>| out.contains(path) <==> out0.contains(path)
                        || path == prefix0 by {
                        assert(out.get(path) == (if path == prefix0 {
                            Some(cost)
                        } else if prefix0.is_prefix_of(path) {
                            None
                        } else {
                            out0.get(path)
                        }));
                        if out0.contains(path) && prefix0.is_prefix_of(path) {
                            graph.lemma_complete_paths_prefix_free(prefix0, path);
                        }
                    }
                }
                assert forall|path: Seq<u32>| #[trigger]
                    out.contains(path) implies graph.is_complete_path(path) && out.get(path)->0
                    == graph.path_cost(path) by {
                    assert(out.get(path) == (if out0.covers(prefix0) {
                        out0.get(path)
                    } else if path == prefix0 {
                        Some(cost)
                    } else if prefix0.is_prefix_of(path) {
                        None
                    } else {
                        out0.get(path)
                    }));
                    if !(path == prefix0) {
                        assert(out0.contains(path));
                    }
                }
                assert forall|path: Seq<u32>|
                    #![trigger out.contains(path)]
                    #![trigger out0.contains(path)]
                    #![trigger candidate(*graph, *cache, path)]
                    out.contains(path) <==> out0.contains(path) || (chosen(path) && candidate(
                        *graph,
                        *cache,
                        path,
                    ) && graph.path_cost(path) == budget) by {}
                assert(added_wanted(*graph, *cache, budget, chosen, out0, *out, *next));
            }
        } else {
            proof {
                let chosen = extensions(prefix0);
                assert(added_wanted(*graph, *cache, budget, chosen, out0, *out, *next));
            }
        }
        return ;
    }
    let ghost full = graph.node_edges@[node as int]@.len() as int;
    let mut k: usize = 0;
    proof {
        assert forall|path: Seq<u32>| !leads_on(*graph, node as int, prefix0, 0, path) by {}
        assert(added_wanted(
            *graph,
            *cache,
            budget,
            branches(*graph, node as int, prefix0, 0),
            out0,
            *out,
            *next,
        ));
    }
    while k < graph.node_edges[node as usize].len()
        invariant
            graph.wf(),
            admissible(*graph, dist@),
            cache.wf(),
            len == graph.query_graph.nodes@.len(),
            node < len - 1,
            graph.is_path(prefix0, 0, node as int),
            cost == graph.path_cost(prefix0),
            dist@[node as int] != UNREACHABLE,
            cost + dist@[node as int] <= budget,
            budget <= 255 * len,
            !cache.prunes(prefix0),
            full == graph.node_edges@[node as int]@.len(),
            k <= full,
            prefix@ == prefix0,
            old(out).wf() ==> out.wf(),
            holds_costs(*graph, *out),
            budget < *next <= *old(next),
            *next == UNREACHABLE || *next <= 255 * len,
            added_wanted(
                *graph,
                *cache,
                budget,
                branches(*graph, node as int, prefix0, k as int),
                out0,
                *out,
                *next,
            ),
        decreases full - k,
    {
        let e = graph.node_edges[node as usize][k];
        let ghost out1 = *out;
        let ghost next1 = *next;
        let ghost longer = prefix0.push(e);
        assert(e == graph.node_edges@[node as int]@[k as int]);
        assert(e < graph.all_edges@.len());
        match &graph.all_edges[e as usize] {
            None => {
                proof {
                    assert forall|path: Seq<u32>|
                        longer.is_prefix_of(path) && #[trigger] candidate(
                            *graph,
                            *cache,
                            path,
                        ) implies graph.path_cost(path) >= UNREACHABLE by {
                        lemma_through(*graph, dist@, prefix0, node as int, e, path);
                    }
                    lemma_idle_branch(*graph, *cache, budget, longer, *out, *next, UNREACHABLE as int);
                }
            },
            Some(edge) => {
                assert(graph.live(e as int));
                assert(graph.edge(e as int) == *edge);
                let to = edge.to_node;
                let d = dist[to as usize];
                if bitmap_contains(&cache.empty_edges, e) {
                    proof {
                        assert forall|path: Seq<u32>|
                            longer.is_prefix_of(path) && #[trigger] candidate(
                                *graph,
                                *cache,
                                path,
                            ) implies graph.path_cost(path) >= UNREACHABLE by {
                            let j = prefix0.len() as int;
                            assert(path.subrange(0, j + 1)[j] == path[j]);
                            assert(path[j] == e);
                            assert(members(cache.empty_edges).contains(path[j]));
                        }
                        lemma_idle_branch(
                            *graph,
                            *cache,
                            budget,
                            longer,
                            *out,
                            *next,
                            UNREACHABLE as int,
                        );
                    }
                } else if d == UNREACHABLE {
                    proof {
                        assert forall|path: Seq<u32>|
                            longer.is_prefix_of(path) && #[trigger] candidate(
                                *graph,
                                *cache,
                                path,
                            ) implies graph.path_cost(path) >= UNREACHABLE by {
                            lemma_through(*graph, dist@, prefix0, node as int, e, path);
                        }
                        lemma_idle_branch(
                            *graph,
                            *cache,
                            budget,
                            longer,
                            *out,
                            *next,
                            UNREACHABLE as int,
                        );
                    }
                } else {
                    proof {
                        graph.lemma_path_cost_bound(prefix0, 0, node as int);
                    }
                    let reached = cost + edge.cost as u64;
                    let bound = reached + d;
                    if bound > budget {
                        if bound < *next {
                            *next = bound;
                        }
                        proof {
                            assert forall|path: Seq<u32>|
                                longer.is_prefix_of(path) && #[trigger] candidate(
                                    *graph,
                                    *cache,
                                    path,
                                ) implies graph.path_cost(path) >= bound by {
                                lemma_through(*graph, dist@, prefix0, node as int, e, path);
                            }
                            lemma_idle_branch(
                                *graph,
                                *cache,
                                budget,
                                longer,
                                *out,
                                *next,
                                bound as int,
                            );
                        }
                    } else {
                        prefix.push(e);
                        proof {
                            graph.lemma_path_push(prefix0, 0, node as int, e);
                        }
                        if cache.empty_prefixes.contains_prefix_of_path(prefix) {
                            proof {
                                assert forall|path: Seq<u32>|
                                    longer.is_prefix_of(path) && #[trigger] candidate(
                                        *graph,
                                        *cache,
                                        path,
                                    ) implies graph.path_cost(path) >= UNREACHABLE by {
                                    cache.lemma_prunes_extensions(longer, path);
                                }
                                lemma_idle_branch(
                                    *graph,
                                    *cache,
                                    budget,
                                    longer,
                                    *out,
                                    *next,
                                    UNREACHABLE as int,
                                );
                            }
                        } else {
                            proof {
                                if cache.prunes(longer) {
                                    let i = choose|i: int|
                                        0 <= i < longer.len() && members(
                                            cache.empty_edges,
                                        ).contains(#[trigger] longer[i]);
                                    if i < prefix0.len() {
                                        assert(longer[i] == prefix0[i]);
                                        assert(members(cache.empty_edges).contains(prefix0[i]));
                                    }
                                    assert(false);
                                }
                            }
                            visit(graph, cache, dist, budget, to, prefix, reached, out, next);
                        }
                        prefix.pop();
                        assert(prefix@ =~= prefix0);
                    }
                }
            },
        }
        proof {
            lemma_next_branch(
                *graph,
                *cache,
                budget,
                node as int,
                prefix0,
                k as int,
                out0,
                out1,
                *out,
                next1,
                *next,
            );
        }
        k += 1;
    }
    proof {
        let chosen = extensions(prefix0);
        let done = branches(*graph, node as int, prefix0, full);
        assert forall|path: Seq<u32>| graph.is_complete_path(path) implies (chosen(path) <==> done(
            path,
        )) by {
            if chosen(path) {
                lemma_extension_goes_through(*graph, prefix0, node as int, path);
            }
            if done(path) {
                let j = choose|j: int|
                    0 <= j < full && #[trigger] through(
                        prefix0,
                        graph.node_edges@[node as int]@[j],
                        path,
                    );
                lemma_through(
                    *graph,
                    dist@,
                    prefix0,
                    node as int,
                    graph.node_edges@[node as int]@[j],
                    path,
                );
            }
        }
        assert forall|path: Seq<u32>|
            #![trigger out.contains(path)]
            #![trigger out0.contains(path)]
            #![trigger candidate(*graph, *cache, path)]
            out.contains(path) <==> out0.contains(path) || (chosen(path) && candidate(
                *graph,
                *cache,
                path,
            ) && graph.path_cost(path) == budget) by {
            assert(out.contains(path) <==> out0.contains(path) || (done(path) && candidate(
                *graph,
                *cache,
                path,
            ) && graph.path_cost(path) == budget));
        }
        assert forall|path: Seq<u32>|
            chosen(path) && #[trigger] candidate(*graph, *cache, path) && graph.path_cost(path)
                > budget implies *next <= graph.path_cost(path) by {
            assert(done(path));
        }
    }
}

impl KCheapestPathsState {
    /// The distances are lower bounds and the next cost is within what a
    /// path can cost.
    pub open spec fn wf<G: RankingRuleGraphTrait>(self, graph: RankingRuleGraph<G>) -> bool {
        &&& admissible(graph, self.distances_to_end@)
        &&& self.distances_to_end@[0] <= self.next_cost <= 255 * graph.query_graph.nodes@.len()
    }

    fn distances<G: RankingRuleGraphTrait>(graph: &RankingRuleGraph<G>) -> (dist: Vec<u64>)
        requires
            graph.wf(),
        ensures
            admissible(*graph, dist@),
            forall|n: int|
                0 <= n < dist@.len() && #[trigger] dist@[n] != UNREACHABLE ==> exists|
                    path: Seq<u32>,
                |
                    #[trigger] graph.is_path(path, n, dist@.len() - 1) && graph.path_cost(path)
                        == dist@[n],
    {
        let len = graph.query_graph.nodes.len();
        let mut dist: Vec<u64> = Vec::new();
        let mut c: usize = 0;
        while c < len
            invariant
                c <= len,
                dist@.len() == c,
                forall|i: int| 0 <= i < c ==> dist@[i] == UNREACHABLE,
            decreases len - c,
        {
            dist.push(UNREACHABLE);
            c += 1;
        }
        dist.set(len - 1, 0);
        proof {
            assert(graph.is_path(Seq::<u32>::empty(), len - 1, len - 1));
        }
        let mut n: usize = len - 1;
        while n > 0
            invariant
                graph.wf(),
                len == graph.query_graph.nodes@.len(),
                n < len,
                dist@.len() == len,
                dist@[len - 1] == 0,
                forall|m: int|
                    n <= m < len && #[trigger] dist@[m] != UNREACHABLE ==> exists|path: Seq<u32>|
                        #[trigger] graph.is_path(path, m, len - 1) && graph.path_cost(path)
                            == dist@[m],
                forall|m: int| 0 <= m < n ==> #[trigger] dist@[m] == UNREACHABLE,
                forall|m: int|
                    0 <= m < len ==> #[trigger] dist@[m] == UNREACHABLE || dist@[m] <= 255 * (len
                        - 1 - m),
                forall|e: int| #[trigger]
                    graph.live(e) && graph.edge(e).from_node >= n && dist@[graph.edge(
                        e,
                    ).to_node as int] != UNREACHABLE ==> dist@[graph.edge(e).from_node as int]
                        <= graph.edge(e).cost + dist@[graph.edge(e).to_node as int],
            decreases n,
        {
            let node = n - 1;
            let mut best: u64 = UNREACHABLE;
            let mut k: usize = 0;
            while k < graph.node_edges[node].len()
                invariant
                    graph.wf(),
                    len == graph.query_graph.nodes@.len(),
                    node + 1 == n,
                    n < len,
                    dist@.len() == len,
                    k <= graph.node_edges@[node as int]@.len(),
                    forall|m: int|
                        0 <= m < len ==> #[trigger] dist@[m] == UNREACHABLE || dist@[m] <= 255 * (
                        len - 1 - m),
                    best == UNREACHABLE || best <= 255 * (len - 1 - node),
                    forall|m: int|
                        node < m < len && #[trigger] dist@[m] != UNREACHABLE ==> exists|
                            path: Seq<u32>,
                        |
                            #[trigger] graph.is_path(path, m, len - 1) && graph.path_cost(path)
                                == dist@[m],
                    best != UNREACHABLE ==> exists|path: Seq<u32>|
                        #[trigger] graph.is_path(path, node as int, len - 1) && graph.path_cost(
                            path,
                        ) == best,
                    forall|i: int|
                        0 <= i < k && graph.live(
                            #[trigger] graph.node_edges@[node as int]@[i] as int,
                        ) && dist@[graph.edge(
                            graph.node_edges@[node as int]@[i] as int,
                        ).to_node as int] != UNREACHABLE ==> best <= graph.edge(
                            graph.node_edges@[node as int]@[i] as int,
                        ).cost + dist@[graph.edge(
                            graph.node_edges@[node as int]@[i] as int,
                        ).to_node as int],
                decreases graph.node_edges@[node as int]@.len() - k,
            {
                let e = graph.node_edges[node][k];
                assert(e == graph.node_edges@[node as int]@[k as int]);
                assert(e < graph.all_edges@.len());
                match &graph.all_edges[e as usize] {
                    Some(edge) => {
                        assert(graph.live(e as int));
                        assert(graph.edge(e as int) == *edge);
                        let d = dist[edge.to_node as usize];
                        if d != UNREACHABLE {
                            let through = edge.cost as u64 + d;
                            if through < best {
                                best = through;
                                proof {
                                    let rest = choose|path: Seq<u32>|
                                        #[trigger] graph.is_path(
                                            path,
                                            edge.to_node as int,
                                            len - 1,
                                        ) && graph.path_cost(path) == d;
                                    graph.lemma_path_prepend(e, rest, len - 1);
                                    assert(graph.is_path(seq![e] + rest, node as int, len - 1));
                                }
                            }
                        }
                    },
                    None => {},
                }
                k += 1;
            }
            let ghost before = dist@;
            dist.set(node, best);
            proof {
                assert forall|m: int|
                    node <= m < len && #[trigger] dist@[m] != UNREACHABLE implies exists|
                    path: Seq<u32>,
                |
                    #[trigger] graph.is_path(path, m, len - 1) && graph.path_cost(path)
                        == dist@[m] by {
                    if m > node {
                        assert(before[m] != UNREACHABLE);
                    }
                }
                assert forall|e: int| #[trigger]
                    graph.live(e) && graph.edge(e).from_node >= node && dist@[graph.edge(
                        e,
                    ).to_node as int] != UNREACHABLE implies dist@[graph.edge(e).from_node as int]
                    <= graph.edge(e).cost + dist@[graph.edge(e).to_node as int] by {
                    if graph.edge(e).from_node == node {
                        let i = choose|i: int|
                            0 <= i < graph.node_edges@[node as int]@.len()
                                && graph.node_edges@[node as int]@[i] == e as u32;
                        assert(graph.live(graph.node_edges@[node as int]@[i] as int));
                    }
                }
            }
            n = node;
        }
        dist
    }

    /// Prepares the enumeration of the paths of `graph`. The result is
    /// `None` exactly when the graph has no path from the start node to the
    /// end node. Otherwise the enumeration begins at the cost of the
    /// cheapest of these paths.
    pub fn new<G: RankingRuleGraphTrait>(graph: &RankingRuleGraph<G>) -> (state: Option<
        KCheapestPathsState,
    >)
        requires
            graph.wf(),
        ensures
            state matches Some(s) ==> s.wf(*graph) && s.next_cost == s.distances_to_end@[0]
                && forall|path: Seq<u32>|
                graph.is_complete_path(path) ==> s.next_cost <= graph.path_cost(path),
            state matches Some(s) ==> exists|path: Seq<u32>|
                #[trigger] graph.is_complete_path(path) && graph.path_cost(path) == s.next_cost,
            state is None <==> forall|path: Seq<u32>| !graph.is_complete_path(path),
    {
        let distances_to_end = Self::distances(graph);
        let first = distances_to_end[0];
        proof {
            assert forall|path: Seq<u32>| graph.is_complete_path(path) implies first
                != UNREACHABLE && first <= graph.path_cost(path) by {
                lemma_remaining_cost(*graph, distances_to_end@, path, 0);
                assert(path.take(0) =~= Seq::<u32>::empty());
            }
        }
        proof {
            if first != UNREACHABLE {
                assert(distances_to_end@[0] != UNREACHABLE);
                let cheapest = choose|path: Seq<u32>|
                    #[trigger] graph.is_path(path, 0, distances_to_end@.len() - 1)
                        && graph.path_cost(path) == distances_to_end@[0];
                assert(graph.is_complete_path(cheapest));
            }
        }
        if first == UNREACHABLE {
            None
        } else {
            Some(KCheapestPathsState { distances_to_end, next_cost: first })
        }
    }
}

impl KCheapestPathsState {
    /// Adds to `out`, each with its cost, the paths from the start node to
    /// the end node that cost exactly `next_cost` and that the cache does
    /// not rule out: those that hold no edge of `empty_edges` and begin with
    /// no path of `empty_prefixes`. Nothing else changes in `out`.
    ///
    /// Returns the state from which the enumeration goes on, whose
    /// `next_cost` is higher and is not above the cost of any remaining
    /// candidate; or `None` when no candidate costs more than `next_cost`.
    #[verifier::rlimit(40)]
    pub fn compute_paths_of_next_lowest_cost<G: RankingRuleGraphTrait>(
        self,
        graph: &RankingRuleGraph<G>,
        empty_paths_cache: &EmptyPathsCache,
        out: &mut PathsMap<u64>,
    ) -> (next: Option<KCheapestPathsState>)
        requires
            graph.wf(),
            self.wf(*graph),
            empty_paths_cache.wf(),
            holds_costs(*graph, *old(out)),
        ensures
            old(out).wf() ==> final(out).wf(),
            holds_costs(*graph, *final(out)),
            forall|path: Seq<u32>|
                #![trigger final(out).contains(path)]
                #![trigger candidate(*graph, *empty_paths_cache, path)]
                final(out).contains(path) <==> old(out).contains(path) || (candidate(
                    *graph,
                    *empty_paths_cache,
                    path,
                ) && graph.path_cost(path) == self.next_cost),
            next matches Some(state) ==> {
                &&& state.wf(*graph)
                &&& state.distances_to_end@ == self.distances_to_end@
                &&& state.next_cost > self.next_cost
                &&& forall|path: Seq<u32>| #[trigger]
                    candidate(*graph, *empty_paths_cache, path) && graph.path_cost(path)
                        > self.next_cost ==> graph.path_cost(path) >= state.next_cost
            },
            next is None ==> forall|path: Seq<u32>| #[trigger]
                candidate(*graph, *empty_paths_cache, path) ==> graph.path_cost(path)
                    <= self.next_cost,
    {
        let mut prefix: Vec<u32> = Vec::new();
        if empty_paths_cache.path_is_empty(&prefix) {
            proof {
                assert forall|path: Seq<u32>| !#[trigger] candidate(
                    *graph,
                    *empty_paths_cache,
                    path,
                ) by {
                    assert(prefix@.is_prefix_of(path));
                    empty_paths_cache.lemma_prunes_extensions(prefix@, path);
                }
            }
            return None;
        }
        let budget = self.next_cost;
        let mut bound: u64 = UNREACHABLE;
        let ghost out0 = *out;
        visit(
            graph,
            empty_paths_cache,
            &self.distances_to_end,
            budget,
            0,
            &mut prefix,
            0,
            out,
            &mut bound,
        );
        proof {
            let chosen = extensions(Seq::<u32>::empty());
            assert forall|path: Seq<u32>|
                #![trigger out.contains(path)]
                #![trigger candidate(*graph, *empty_paths_cache, path)]
                out.contains(path) <==> out0.contains(path) || (candidate(
                    *graph,
                    *empty_paths_cache,
                    path,
                ) && graph.path_cost(path) == budget) by {
                assert(Seq::<u32>::empty().is_prefix_of(path));
                assert(chosen(path));
            }
            assert forall|path: Seq<u32>| #[trigger]
                candidate(*graph, *empty_paths_cache, path) && graph.path_cost(path)
                    > budget implies graph.path_cost(path) >= bound && bound != UNREACHABLE by {
                assert(Seq::<u32>::empty().is_prefix_of(path));
                assert(chosen(path));
                graph.lemma_path_cost_bound(path, 0, graph.query_graph.nodes@.len() - 1);
            }
        }
        if bound == UNREACHABLE {
            None
        } else {
            Some(KCheapestPathsState { distances_to_end: self.distances_to_end, next_cost: bound })
        }
    }
}

} // verus!
