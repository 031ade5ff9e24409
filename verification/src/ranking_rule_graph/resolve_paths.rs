//! From paths to documents: the documents of the universe that match one of
//! a set of paths.

use vstd::prelude::*;
use roaring::RoaringBitmap;
use crate::bitmap::{
    bitmap_clone, bitmap_intersect_with, bitmap_is_empty, bitmap_new, bitmap_union_with, members,
};
use crate::db_cache::DatabaseCache;
use crate::error::Error;
use crate::index::{IndexModel, IndexSnapshot};
use crate::ranking_rule_graph::edge_docids_cache::{EdgeDocids, EdgeDocidsCache};
use crate::ranking_rule_graph::empty_paths_cache::EmptyPathsCache;
use crate::ranking_rule_graph::paths_map::{listed, PathsMap};
use crate::ranking_rule_graph::{RankingRuleGraph, RankingRuleGraphTrait};

verus! {

/// Every edge of every path of the collection is a live edge of the graph.
pub open spec fn paths_live<G: RankingRuleGraphTrait, V>(
    graph: RankingRuleGraph<G>,
    paths: PathsMap<V>,
) -> bool {
    forall|path: Seq<u32>, m: int|
        paths.contains(path) && 0 <= m < path.len() ==> graph.live(#[trigger] path[m] as int)
}

/// The documents of `universe` that match at least one path of the
/// collection, that is, that every edge of this path admits.
pub open spec fn paths_docids<G: RankingRuleGraphTrait, V>(
    graph: RankingRuleGraph<G>,
    paths: PathsMap<V>,
    index: IndexModel,
    universe: Set<u32>,
) -> Set<u32> {
    Set::new(
        |d: u32|
            universe.contains(d) && exists|path: Seq<u32>|
                paths.contains(path) && #[trigger] graph.path_docids(path, index).contains(d),
    )
}

/// What the cache tells is true of `universe`: an edge that it calls empty
/// admits no document, and no document of `universe` matches a path that
/// it calls an empty prefix.
pub open spec fn empty_cache_sound<G: RankingRuleGraphTrait>(
    graph: RankingRuleGraph<G>,
    cache: EmptyPathsCache,
    index: IndexModel,
    universe: Set<u32>,
) -> bool {
    &&& forall|e: u32, d: u32|
        members(cache.empty_edges).contains(e) && graph.live(e as int) ==> !(
        #[trigger] graph.edge_set(e as int, index).contains(d))
    &&& forall|path: Seq<u32>, d: u32|
        cache.empty_prefixes.contains(path) && universe.contains(d) ==> !(
        #[trigger] graph.path_docids(path, index).contains(d))
}

/// What is true of a universe is true of every part of it.
pub proof fn lemma_sound_in_smaller_universe<G: RankingRuleGraphTrait>(
    graph: RankingRuleGraph<G>,
    cache: EmptyPathsCache,
    index: IndexModel,
    universe: Set<u32>,
    smaller: Set<u32>,
)
    requires
        empty_cache_sound(graph, cache, index, universe),
        smaller.subset_of(universe),
    ensures
        empty_cache_sound(graph, cache, index, smaller),
{
}

/// No document of the universe matches a path that a sound cache rules out.
pub proof fn lemma_pruned_path_is_empty<G: RankingRuleGraphTrait>(
    graph: RankingRuleGraph<G>,
    cache: EmptyPathsCache,
    index: IndexModel,
    universe: Set<u32>,
    path: Seq<u32>,
    d: u32,
)
    requires
        empty_cache_sound(graph, cache, index, universe),
        forall|m: int| 0 <= m < path.len() ==> graph.live(#[trigger] path[m] as int),
        cache.prunes(path),
        universe.contains(d),
    ensures
        !graph.path_docids(path, index).contains(d),
{
    if cache.empty_prefixes.covers(path) {
        let k = choose|k: int|
            0 <= k <= path.len() && #[trigger] cache.empty_prefixes.contains(path.take(k));
        let q = path.take(k);
        assert(!graph.path_docids(q, index).contains(d));
        let m = choose|m: int|
            0 <= m < q.len() && !graph.edge_set(#[trigger] q[m] as int, index).contains(d);
        assert(q[m] == path[m]);
        assert(!graph.edge_set(path[m] as int, index).contains(d));
    } else {
        let m = choose|m: int|
            0 <= m < path.len() && members(cache.empty_edges).contains(#[trigger] path[m]);
        assert(graph.live(path[m] as int));
        assert(!graph.edge_set(path[m] as int, index).contains(d));
    }
}

/// Whether `k` is the length of the shortest beginning of `path` that no
/// document of `universe` matches.
pub open spec fn collapses_at<G: RankingRuleGraphTrait>(
    graph: RankingRuleGraph<G>,
    index: IndexModel,
    universe: Set<u32>,
    path: Seq<u32>,
    k: int,
) -> bool {
    &&& 0 <= k <= path.len()
    &&& universe.intersect(graph.path_docids(path.take(k), index)) == Set::<u32>::empty()
    &&& forall|j: int|
        0 <= j < k ==> universe.intersect(#[trigger] graph.path_docids(path.take(j), index))
            != Set::<u32>::empty()
}

/// What the cache of empty paths knows of a path whose shortest beginning
/// without document has `k` edges: if the last of these edges admits no
/// document at all, that this edge is empty; otherwise this beginning,
/// as a prefix that it covers.
pub open spec fn learnt<G: RankingRuleGraphTrait>(
    graph: RankingRuleGraph<G>,
    cache: EmptyPathsCache,
    index: IndexModel,
    path: Seq<u32>,
    k: int,
) -> bool {
    if k > 0 && graph.edge_set(path[k - 1] as int, index) == Set::<u32>::empty() {
        members(cache.empty_edges).contains(path[k - 1])
    } else {
        cache.empty_prefixes.covers(path.take(k))
    }
}

/// If no document of `universe` matches `path`, the cache knows the
/// shortest beginning of the path of which this is true, or the empty edge
/// that ends it.
pub open spec fn learnt_of<G: RankingRuleGraphTrait>(
    graph: RankingRuleGraph<G>,
    cache: EmptyPathsCache,
    index: IndexModel,
    universe: Set<u32>,
    path: Seq<u32>,
) -> bool {
    forall|k: int| #[trigger]
        collapses_at(graph, index, universe, path, k) ==> learnt(graph, cache, index, path, k)
}

/// A longer beginning of a path matches no more documents than a shorter
/// one.
pub proof fn lemma_docids_shrink<G: RankingRuleGraphTrait>(
    graph: RankingRuleGraph<G>,
    index: IndexModel,
    path: Seq<u32>,
    j: int,
    k: int,
)
    requires
        0 <= j <= k <= path.len(),
    ensures
        graph.path_docids(path.take(k), index).subset_of(graph.path_docids(path.take(j), index)),
{
    assert forall|d: u32| graph.path_docids(path.take(k), index).contains(d) implies graph.path_docids(
        path.take(j),
        index,
    ).contains(d) by {
        assert forall|i: int| 0 <= i < path.take(j).len() implies graph.edge_set(
            #[trigger] path.take(j)[i] as int,
            index,
        ).contains(d) by {
            assert(path.take(k)[i] == path.take(j)[i]);
        }
    }
}

/// What the cache has learnt of a path that collapses after `n` edges is
/// all that there is to learn of the path.
pub proof fn lemma_collapse_found<G: RankingRuleGraphTrait>(
    graph: RankingRuleGraph<G>,
    cache: EmptyPathsCache,
    index: IndexModel,
    universe: Set<u32>,
    path: Seq<u32>,
    n: int,
)
    requires
        0 <= n <= path.len(),
        n > 0 ==> exists|d: u32|
            universe.contains(d) && graph.path_docids(path.take(n - 1), index).contains(d),
        forall|d: u32| !(universe.contains(d) && graph.path_docids(path.take(n), index).contains(d)),
        learnt(graph, cache, index, path, n),
    ensures
        learnt_of(graph, cache, index, universe, path),
{
    assert forall|k: int| #[trigger] collapses_at(graph, index, universe, path, k) implies learnt(
        graph,
        cache,
        index,
        path,
        k,
    ) by {
        if k < n {
            let d = choose|d: u32|
                universe.contains(d) && graph.path_docids(path.take(n - 1), index).contains(d);
            lemma_docids_shrink(graph, index, path, k, n - 1);
            assert(universe.intersect(graph.path_docids(path.take(k), index)).contains(d));
        } else if k > n {
            assert(universe.intersect(graph.path_docids(path.take(n), index)) =~= Set::<
                u32,
            >::empty());
        }
    }
}

/// Nothing is to be learnt of a path that a document of the universe
/// matches.
pub proof fn lemma_matched_never_collapses<G: RankingRuleGraphTrait>(
    graph: RankingRuleGraph<G>,
    cache: EmptyPathsCache,
    index: IndexModel,
    universe: Set<u32>,
    path: Seq<u32>,
    d: u32,
)
    requires
        universe.contains(d),
        graph.path_docids(path, index).contains(d),
    ensures
        learnt_of(graph, cache, index, universe, path),
{
    assert forall|k: int| !#[trigger] collapses_at(graph, index, universe, path, k) by {
        if 0 <= k <= path.len() {
            lemma_docids_shrink(graph, index, path, k, path.len() as int);
            assert(path.take(path.len() as int) =~= path);
            assert(universe.intersect(graph.path_docids(path.take(k), index)).contains(d));
        }
    }
}

/// What the cache has learnt, it still knows when it has grown.
pub proof fn lemma_learnt_stays<G: RankingRuleGraphTrait>(
    graph: RankingRuleGraph<G>,
    before: EmptyPathsCache,
    after: EmptyPathsCache,
    index: IndexModel,
    universe: Set<u32>,
    path: Seq<u32>,
)
    requires
        learnt_of(graph, before, index, universe, path),
        forall|e: u32|
            members(before.empty_edges).contains(e) ==> members(after.empty_edges).contains(e),
        forall|other: Seq<u32>|
            before.empty_prefixes.covers(other) ==> after.empty_prefixes.covers(other),
    ensures
        learnt_of(graph, after, index, universe, path),
{
    assert forall|k: int| #[trigger] collapses_at(graph, index, universe, path, k) implies learnt(
        graph,
        after,
        index,
        path,
        k,
    ) by {
        assert(learnt(graph, before, index, path, k));
    }
}

/// In a sound cache, the prefix that covers the shortest beginning without
/// document of a path is this beginning itself.
pub proof fn lemma_collapsed_prefix_is_held<G: RankingRuleGraphTrait>(
    graph: RankingRuleGraph<G>,
    cache: EmptyPathsCache,
    index: IndexModel,
    universe: Set<u32>,
    path: Seq<u32>,
    k: int,
)
    requires
        empty_cache_sound(graph, cache, index, universe),
        collapses_at(graph, index, universe, path, k),
        cache.empty_prefixes.covers(path.take(k)),
    ensures
        cache.empty_prefixes.contains(path.take(k)),
{
    let whole = path.take(k);
    let j = choose|j: int| 0 <= j <= whole.len() && #[trigger] cache.empty_prefixes.contains(
        whole.take(j),
    );
    if j < k {
        assert(whole.take(j) =~= path.take(j));
        let held = path.take(j);
        assert(universe.intersect(graph.path_docids(held, index)) != Set::<u32>::empty());
        assert forall|d: u32| !(universe.intersect(graph.path_docids(held, index)).contains(d)) by {
            if universe.contains(d) {
                assert(!graph.path_docids(held, index).contains(d));
            }
        }
        assert(universe.intersect(graph.path_docids(held, index)) =~= Set::<u32>::empty());
    } else {
        assert(whole.take(j) =~= whole);
    }
}

fn path_prefix(path: &Vec<u32>, n: usize) -> (prefix: Vec<u32>)
    requires
        n <= path@.len(),
    ensures
        prefix@ == path@.take(n as int),
{
    let mut prefix: Vec<u32> = Vec::new();
    let mut i: usize = 0;
    while i < n
        invariant
            i <= n <= path@.len(),
            prefix@ == path@.take(i as int),
        decreases n - i,
    {
        prefix.push(path[i]);
        assert(path@.take(i + 1) == path@.take(i as int).push(path@[i as int]));
        i += 1;
    }
    prefix
}

impl<G: RankingRuleGraphTrait> RankingRuleGraph<G> {
    /// The documents of `universe` that match the path, or `None` as soon
    /// as the edges read so far leave no document: the cache then learns
    /// the edge that admits nothing, or else the beginning of the path
    /// that no document of the universe matches.
    #[verifier::rlimit(40)]
    fn resolve_path<I: IndexSnapshot>(
        &self,
        index: &I,
        db_cache: &mut DatabaseCache,
        edge_docids_cache: &mut EdgeDocidsCache,
        empty_paths_cache: &mut EmptyPathsCache,
        universe: &RoaringBitmap,
        path: &Vec<u32>,
    ) -> (r: Result<Option<RoaringBitmap>, Error>)
        requires
            forall|m: int| 0 <= m < path@.len() ==> self.live(#[trigger] path@[m] as int),
            old(db_cache).wf(index.model()),
            old(edge_docids_cache).wf(*self, index.model()),
            old(empty_paths_cache).wf(),
            empty_cache_sound(*self, *old(empty_paths_cache), index.model(), members(*universe)),
        ensures
            final(db_cache).wf(index.model()),
            final(edge_docids_cache).wf(*self, index.model()),
            final(empty_paths_cache).wf(),
            empty_cache_sound(*self, *final(empty_paths_cache), index.model(), members(*universe)),
            forall|other: Seq<u32>|
                old(empty_paths_cache).prunes(other) ==> final(empty_paths_cache).prunes(other),
            forall|e: u32|
                members(old(empty_paths_cache).empty_edges).contains(e) ==> members(
                    final(empty_paths_cache).empty_edges,
                ).contains(e),
            forall|other: Seq<u32>|
                old(empty_paths_cache).empty_prefixes.covers(other)
                    ==> final(empty_paths_cache).empty_prefixes.covers(other),
            r matches Ok(None) ==> learnt_of(
                *self,
                *final(empty_paths_cache),
                index.model(),
                members(*universe),
                path@,
            ),
            index.model().reliable ==> r is Ok,
            r matches Ok(Some(bitmap)) ==> members(bitmap) == members(*universe).intersect(
                self.path_docids(path@, index.model()),
            ) && members(bitmap) != Set::<u32>::empty(),
            r matches Ok(None) ==> members(*universe).intersect(self.path_docids(path@, index.model()))
                == Set::<u32>::empty() && final(empty_paths_cache).prunes(path@),
            r matches Err(e) ==> e is StorageFailure,
    {
        let mut path_bitmap = bitmap_clone(universe);
        if bitmap_is_empty(&path_bitmap) {
            empty_paths_cache.forbid_prefix(Vec::new());
            proof {
                assert(Seq::<u32>::empty().is_prefix_of(path@));
                assert(members(*universe).intersect(self.path_docids(path@, index.model()))
                    =~= Set::<u32>::empty());
                assert(path@.take(0) =~= Seq::<u32>::empty());
                lemma_collapse_found(
                    *self,
                    *empty_paths_cache,
                    index.model(),
                    members(*universe),
                    path@,
                    0,
                );
            }
            return Ok(None);
        }
        proof {
            assert(members(path_bitmap) =~= members(*universe).intersect(
                self.path_docids(path@.take(0), index.model()),
            ));
        }
        let mut k: usize = 0;
        while k < path.len()
            invariant
                k <= path@.len(),
                exists|d: u32| members(path_bitmap).contains(d),
                forall|m: int| 0 <= m < path@.len() ==> self.live(#[trigger] path@[m] as int),
                db_cache.wf(index.model()),
                edge_docids_cache.wf(*self, index.model()),
                empty_paths_cache.wf(),
                empty_cache_sound(*self, *empty_paths_cache, index.model(), members(*universe)),
                forall|other: Seq<u32>|
                    old(empty_paths_cache).prunes(other) ==> empty_paths_cache.prunes(other),
                forall|e: u32|
                    members(old(empty_paths_cache).empty_edges).contains(e) ==> members(
                        empty_paths_cache.empty_edges,
                    ).contains(e),
                forall|other: Seq<u32>|
                    old(empty_paths_cache).empty_prefixes.covers(other)
                        ==> empty_paths_cache.empty_prefixes.covers(other),
                members(path_bitmap) == members(*universe).intersect(
                    self.path_docids(path@.take(k as int), index.model()),
                ),
            decreases path@.len() - k,
        {
            let e = path[k];
            let found = match edge_docids_cache.get_or_compute(e, self, index, db_cache) {
                Ok(found) => found,
                Err(err) => {
                    return Err(err);
                },
            };
            let ghost before = members(path_bitmap);
            let ghost head = path@.take(k as int);
            let ghost next = path@.take(k + 1);
            let ghost survivor = choose|d: u32| members(path_bitmap).contains(d);
            let mut edge_is_empty = false;
            match &found {
                EdgeDocids::All => {},
                EdgeDocids::Bitmap(bitmap) => {
                    edge_is_empty = bitmap_is_empty(bitmap);
                    bitmap_intersect_with(&mut path_bitmap, bitmap);
                },
            }
            proof {
                assert(next == head.push(e));
                assert forall|d: u32|
                    members(path_bitmap).contains(d) <==> members(*universe).contains(d)
                        && self.path_docids(next, index.model()).contains(d) by {
                    if self.path_docids(next, index.model()).contains(d) {
                        assert forall|m: int| 0 <= m < head.len() implies self.edge_set(
                            #[trigger] head[m] as int, index.model(),
                        ).contains(d) by {
                            assert(next[m] == head[m]);
                        }
                        assert(next[k as int] == e);
                    }
                    if before.contains(d) && self.edge_set(e as int, index.model()).contains(d) {
                        assert forall|m: int| 0 <= m < next.len() implies self.edge_set(
                            #[trigger] next[m] as int, index.model(),
                        ).contains(d) by {
                            if m < k {
                                assert(next[m] == head[m]);
                            }
                        }
                    }
                }
                assert(members(path_bitmap) =~= members(*universe).intersect(
                    self.path_docids(next, index.model()),
                ));
            }
            if edge_is_empty || bitmap_is_empty(&path_bitmap) {
                proof {
                    // no document of the universe matches the path
                    assert forall|d: u32|
                        members(*universe).contains(d) implies !self.path_docids(
                        path@, index.model(),
                    ).contains(d) by {
                        if self.path_docids(path@, index.model()).contains(d) {
                            assert forall|m: int| 0 <= m < next.len() implies self.edge_set(
                                #[trigger] next[m] as int, index.model(),
                            ).contains(d) by {
                                assert(next[m] == path@[m]);
                            }
                            assert(members(path_bitmap).contains(d));
                        }
                    }
                    assert(members(*universe).intersect(self.path_docids(path@, index.model()))
                        =~= Set::<u32>::empty());
                }
                proof {
                    assert(found.set() == self.edge_set(e as int, index.model()));
                    if edge_is_empty {
                        assert(self.edge_set(e as int, index.model()) =~= Set::<u32>::empty());
                    } else {
                        match found {
                            EdgeDocids::All => {
                                assert(Set::<u32>::full().contains(0u32));
                            },
                            EdgeDocids::Bitmap(bitmap) => {
                                let d = choose|d: u32| members(bitmap).contains(d);
                                assert(self.edge_set(e as int, index.model()).contains(d));
                            },
                        }
                        assert(self.edge_set(e as int, index.model()) != Set::<u32>::empty());
                    }
                    assert(before.contains(survivor));
                }
                if edge_is_empty {
                    empty_paths_cache.forbid_edge(e);
                    proof {
                        assert(path@.contains(e)) by {
                            assert(path@[k as int] == e);
                        }
                        lemma_collapse_found(
                            *self,
                            *empty_paths_cache,
                            index.model(),
                            members(*universe),
                            path@,
                            k + 1,
                        );
                    }
                } else {
                    let prefix = path_prefix(path, k + 1);
                    let ghost before_cache = *empty_paths_cache;
                    empty_paths_cache.forbid_prefix(prefix);
                    proof {
                        assert(next.is_prefix_of(path@));
                        assert forall|other: Seq<u32>, d: u32|
                            empty_paths_cache.empty_prefixes.contains(other) && members(
                                *universe,
                            ).contains(d) implies !(#[trigger] self.path_docids(
                            other,
                            index.model(),
                        ).contains(d)) by {
                            if other == next {
                                assert(!members(path_bitmap).contains(d));
                            } else {
                                assert(before_cache.empty_prefixes.contains(other));
                            }
                        }
                        lemma_collapse_found(
                            *self,
                            *empty_paths_cache,
                            index.model(),
                            members(*universe),
                            path@,
                            k + 1,
                        );
                    }
                }
                return Ok(None);
            }
            k += 1;
        }
        assert(path@.take(path@.len() as int) == path@);
        Ok(Some(path_bitmap))
    }

    /// Returns the documents of `universe` that match at least one of the
    /// paths: the union, over the paths, of the intersection of the
    /// documents of their edges, within `universe`. The result is always a
    /// part of `universe`.
    ///
    /// The documents of an edge come from the edge cache, which reads each
    /// edge once. When the edges of a path leave no document, the path is
    /// abandoned and the cache of empty paths learns why: the edge that
    /// admits nothing, or the beginning of the path that no document of the
    /// universe matches. The cache never forgets. A failure of the index
    /// ends the work and is handed on.
    #[verifier::rlimit(40)]
    pub fn resolve_paths<I: IndexSnapshot>(
        &self,
        index: &I,
        db_cache: &mut DatabaseCache,
        edge_docids_cache: &mut EdgeDocidsCache,
        empty_paths_cache: &mut EmptyPathsCache,
        universe: &RoaringBitmap,
        paths: PathsMap<u64>,
    ) -> (r: Result<RoaringBitmap, Error>)
        requires
            paths_live(*self, paths),
            old(db_cache).wf(index.model()),
            old(edge_docids_cache).wf(*self, index.model()),
            old(empty_paths_cache).wf(),
            empty_cache_sound(*self, *old(empty_paths_cache), index.model(), members(*universe)),
        ensures
            final(db_cache).wf(index.model()),
            final(edge_docids_cache).wf(*self, index.model()),
            final(empty_paths_cache).wf(),
            empty_cache_sound(*self, *final(empty_paths_cache), index.model(), members(*universe)),
            forall|other: Seq<u32>|
                old(empty_paths_cache).prunes(other) ==> final(empty_paths_cache).prunes(other),
            forall|e: u32|
                members(old(empty_paths_cache).empty_edges).contains(e) ==> members(
                    final(empty_paths_cache).empty_edges,
                ).contains(e),
            index.model().reliable ==> r is Ok,
            r matches Ok(bucket) ==> members(bucket) == paths_docids(
                *self,
                paths,
                index.model(),
                members(*universe),
            ) && members(bucket).subset_of(members(*universe)),
            r matches Ok(bucket) ==> forall|path: Seq<u32>| #[trigger]
                paths.contains(path) && members(*universe).intersect(
                    self.path_docids(path, index.model()),
                ) == Set::<u32>::empty() ==> final(empty_paths_cache).prunes(path),
            forall|other: Seq<u32>|
                old(empty_paths_cache).empty_prefixes.covers(other)
                    ==> final(empty_paths_cache).empty_prefixes.covers(other),
            r is Ok ==> forall|path: Seq<u32>| #[trigger]
                paths.contains(path) ==> learnt_of(
                    *self,
                    *final(empty_paths_cache),
                    index.model(),
                    members(*universe),
                    path,
                ),
            r matches Err(e) ==> e is StorageFailure,
    {
        let entries = paths.entries();
        proof {
            assert forall|i: int| 0 <= i < entries@.len() implies paths.contains(
                (#[trigger] entries@[i]).path@,
            ) by {
                assert(listed(entries@, entries@[i].path@, entries@[i].value));
                assert(paths.holds(entries@[i].path@, entries@[i].value));
            }
        }
        let mut bucket = bitmap_new();
        let mut i: usize = 0;
        while i < entries.len()
            invariant
                i <= entries@.len(),
                paths_live(*self, paths),
                forall|k: int| 0 <= k < entries@.len() ==> paths.contains((#[trigger] entries@[k]).path@),
                db_cache.wf(index.model()),
                edge_docids_cache.wf(*self, index.model()),
                empty_paths_cache.wf(),
                empty_cache_sound(*self, *empty_paths_cache, index.model(), members(*universe)),
                forall|other: Seq<u32>|
                    old(empty_paths_cache).prunes(other) ==> empty_paths_cache.prunes(other),
                forall|e: u32|
                    members(old(empty_paths_cache).empty_edges).contains(e) ==> members(
                        empty_paths_cache.empty_edges,
                    ).contains(e),
                forall|d: u32|
                    members(bucket).contains(d) <==> members(*universe).contains(d) && exists|
                        j: int,
                    |
                        0 <= j < i && #[trigger] self.path_docids(
                            entries@[j].path@,
                            index.model(),
                        ).contains(d),
                forall|j: int|
                    0 <= j < i && members(*universe).intersect(
                        self.path_docids((#[trigger] entries@[j]).path@, index.model()),
                    ) == Set::<u32>::empty() ==> empty_paths_cache.prunes(entries@[j].path@),
                forall|other: Seq<u32>|
                    old(empty_paths_cache).empty_prefixes.covers(other)
                        ==> empty_paths_cache.empty_prefixes.covers(other),
                forall|j: int|
                    0 <= j < i ==> learnt_of(
                        *self,
                        *empty_paths_cache,
                        index.model(),
                        members(*universe),
                        (#[trigger] entries@[j]).path@,
                    ),
            decreases entries@.len() - i,
        {
            let path = &entries[i].path;
            assert forall|m: int| 0 <= m < path@.len() implies self.live(
                #[trigger] path@[m] as int,
            ) by {
                assert(paths.contains(entries@[i as int].path@));
            }
            let ghost before = members(bucket);
            let ghost before_cache = *empty_paths_cache;
            let resolved = match self.resolve_path(
                index,
                db_cache,
                edge_docids_cache,
                empty_paths_cache,
                universe,
                path,
            ) {
                Ok(resolved) => resolved,
                Err(err) => {
                    return Err(err);
                },
            };
            match &resolved {
                Some(path_bitmap) => {
                    proof {
                        let d = choose|d: u32| members(*path_bitmap).contains(d);
                        assert(members(*path_bitmap).contains(d)) by {
                            if forall|x: u32| !members(*path_bitmap).contains(x) {
                                assert(members(*path_bitmap) =~= Set::<u32>::empty());
                            }
                        }
                        lemma_matched_never_collapses(
                            *self,
                            *empty_paths_cache,
                            index.model(),
                            members(*universe),
                            path@,
                            d,
                        );
                    }
                    bitmap_union_with(&mut bucket, path_bitmap);
                },
                None => {},
            }
            proof {
                assert forall|j: int| 0 <= j < i + 1 implies learnt_of(
                    *self,
                    *empty_paths_cache,
                    index.model(),
                    members(*universe),
                    (#[trigger] entries@[j]).path@,
                ) by {
                    if j < i {
                        lemma_learnt_stays(
                            *self,
                            before_cache,
                            *empty_paths_cache,
                            index.model(),
                            members(*universe),
                            entries@[j].path@,
                        );
                    }
                }
                let here = members(*universe).intersect(self.path_docids(path@, index.model()));
                assert forall|j: int|
                    0 <= j < i + 1 && members(*universe).intersect(
                        self.path_docids((#[trigger] entries@[j]).path@, index.model()),
                    ) == Set::<u32>::empty() implies empty_paths_cache.prunes(
                    entries@[j].path@,
                ) by {
                    if j < i {
                        assert(before_cache.prunes(entries@[j].path@));
                    }
                }
                assert forall|d: u32|
                    members(bucket).contains(d) <==> members(*universe).contains(d) && exists|
                        j: int,
                    |
                        0 <= j < i + 1 && #[trigger] self.path_docids(
                            entries@[j].path@,
                            index.model(),
                        ).contains(d) by {
                    if members(bucket).contains(d) {
                        if before.contains(d) {
                            let j = choose|j: int|
                                0 <= j < i && #[trigger] self.path_docids(
                                    entries@[j].path@,
                                    index.model(),
                                ).contains(d);
                            assert(self.path_docids(entries@[j].path@, index.model()).contains(d));
                        } else {
                            assert(here.contains(d));
                            assert(self.path_docids(entries@[i as int].path@, index.model()).contains(
                                d,
                            ));
                        }
                    }
                    if members(*universe).contains(d) && exists|j: int|
                        0 <= j < i + 1 && #[trigger] self.path_docids(
                            entries@[j].path@,
                            index.model(),
                        ).contains(d) {
                        let j = choose|j: int|
                            0 <= j < i + 1 && #[trigger] self.path_docids(
                                entries@[j].path@,
                                index.model(),
                            ).contains(d);
                        if j < i {
                            assert(before.contains(d));
                        } else {
                            assert(here.contains(d));
                        }
                    }
                }
            }
            i += 1;
        }
        proof {
            let wanted = paths_docids(*self, paths, index.model(), members(*universe));
            assert forall|d: u32| members(bucket).contains(d) <==> wanted.contains(d) by {
                if members(bucket).contains(d) {
                    let j = choose|j: int|
                        0 <= j < entries@.len() && #[trigger] self.path_docids(
                            entries@[j].path@,
                            index.model(),
                        ).contains(d);
                    assert(paths.contains(entries@[j].path@));
                }
                if wanted.contains(d) {
                    let path = choose|path: Seq<u32>|
                        paths.contains(path) && #[trigger] self.path_docids(
                            path,
                            index.model(),
                        ).contains(d);
                    let value = paths.get(path)->0;
                    assert(paths.holds(path, value));
                    assert(listed(entries@, path, value));
                    let j = choose|j: int|
                        0 <= j < entries@.len() && (#[trigger] entries@[j]).path@ == path
                            && entries@[j].value == value;
                    assert(self.path_docids(entries@[j].path@, index.model()).contains(d));
                }
            }
            assert(members(bucket) =~= wanted);
            assert forall|path: Seq<u32>| #[trigger]
                paths.contains(path) && members(*universe).intersect(
                    self.path_docids(path, index.model()),
                ) == Set::<u32>::empty() implies empty_paths_cache.prunes(path) by {
                let value = paths.get(path)->0;
                assert(paths.holds(path, value));
                assert(listed(entries@, path, value));
                let j = choose|j: int|
                    0 <= j < entries@.len() && (#[trigger] entries@[j]).path@ == path
                        && entries@[j].value == value;
                assert(empty_paths_cache.prunes(entries@[j].path@));
            }
            assert forall|path: Seq<u32>| #[trigger] paths.contains(path) implies learnt_of(
                *self,
                *empty_paths_cache,
                index.model(),
                members(*universe),
                path,
            ) by {
                let value = paths.get(path)->0;
                assert(paths.holds(path, value));
                assert(listed(entries@, path, value));
                let j = choose|j: int|
                    0 <= j < entries@.len() && (#[trigger] entries@[j]).path@ == path
                        && entries@[j].value == value;
                assert(learnt_of(
                    *self,
                    *empty_paths_cache,
                    index.model(),
                    members(*universe),
                    entries@[j].path@,
                ));
            }
        }
        Ok(bucket)
    }
}

} // verus!
