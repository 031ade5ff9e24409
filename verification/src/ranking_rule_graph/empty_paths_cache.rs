//! What a ranking rule has learnt about paths that match no document.

use vstd::prelude::*;
use roaring::RoaringBitmap;
use crate::bitmap::{bitmap_clone, bitmap_contains, bitmap_insert, bitmap_new, members};
use crate::ranking_rule_graph::paths_map::{same_edges, PathsMap};

verus! {

/// The edges that match no document at all, and the beginnings of paths
/// that match no document of the universe. A path that holds such an edge,
/// or begins with such a beginning, need not be tried again.
#[derive(Debug)]
pub struct EmptyPathsCache {
    pub empty_edges: RoaringBitmap,
    pub empty_prefixes: PathsMap<()>,
}

impl EmptyPathsCache {
    /// The collection of prefixes is free of prefixes.
    pub open spec fn wf(self) -> bool {
        self.empty_prefixes.wf()
    }

    /// Whether the cache tells that `path` matches no document.
    pub open spec fn prunes(self, path: Seq<u32>) -> bool {
        ||| exists|i: int| 0 <= i < path.len() && members(self.empty_edges).contains(#[trigger] path[i])
        ||| self.empty_prefixes.covers(path)
    }

    /// What the cache tells of a path, it tells of every path that begins
    /// with it.
    pub proof fn lemma_prunes_extensions(self, path: Seq<u32>, longer: Seq<u32>)
        requires
            self.prunes(path),
            path.is_prefix_of(longer),
        ensures
            self.prunes(longer),
    {
        if self.empty_prefixes.covers(path) {
            self.empty_prefixes.lemma_covers_extensions(path, longer);
        } else {
            let i = choose|i: int|
                0 <= i < path.len() && members(self.empty_edges).contains(#[trigger] path[i]);
            assert(longer.subrange(0, path.len() as int)[i] == longer[i]);
            assert(members(self.empty_edges).contains(longer[i]));
        }
    }

    /// Creates a cache that knows of no empty edge or prefix.
    pub fn new() -> (cache: EmptyPathsCache)
        ensures
            cache.wf(),
            forall|path: Seq<u32>| !cache.prunes(path),
            members(cache.empty_edges) == Set::<u32>::empty(),
            forall|path: Seq<u32>| !cache.empty_prefixes.contains(path),
    {
        EmptyPathsCache { empty_edges: bitmap_new(), empty_prefixes: PathsMap::new() }
    }

    /// Records that the edge matches no document. Nothing that the cache
    /// told before is lost.
    pub fn forbid_edge(&mut self, edge: u32)
        requires
            old(self).wf(),
        ensures
            final(self).wf(),
            members(final(self).empty_edges) == members(old(self).empty_edges).insert(edge),
            final(self).empty_prefixes == old(self).empty_prefixes,
            forall|path: Seq<u32>| old(self).prunes(path) ==> final(self).prunes(path),
            forall|path: Seq<u32>|
                final(self).prunes(path) <==> old(self).prunes(path) || path.contains(edge),
    {
        bitmap_insert(&mut self.empty_edges, edge);
        proof {
            assert forall|path: Seq<u32>| self.prunes(path) <==> old(self).prunes(path)
                || path.contains(edge) by {
                if old(self).prunes(path) && !old(self).empty_prefixes.covers(path) {
                    let i = choose|i: int|
                        0 <= i < path.len() && members(old(self).empty_edges).contains(
                            #[trigger] path[i],
                        );
                    assert(members(self.empty_edges).contains(path[i]));
                }
                if path.contains(edge) {
                    let i = choose|i: int| 0 <= i < path.len() && path[i] == edge;
                    assert(members(self.empty_edges).contains(path[i]));
                }
                if self.prunes(path) && !self.empty_prefixes.covers(path) {
                    let i = choose|i: int|
                        0 <= i < path.len() && members(self.empty_edges).contains(
                            #[trigger] path[i],
                        );
                    if path[i] != edge {
                        assert(members(old(self).empty_edges).contains(path[i]));
                    }
                }
            }
        }
    }

    /// Records that the paths that begin with `prefix` match no document of
    /// the universe. Nothing that the cache told before is lost.
    pub fn forbid_prefix(&mut self, prefix: Vec<u32>)
        requires
            old(self).wf(),
        ensures
            final(self).wf(),
            final(self).empty_edges == old(self).empty_edges,
            forall|path: Seq<u32>| old(self).prunes(path) ==> final(self).prunes(path),
            forall|path: Seq<u32>|
                final(self).prunes(path) <==> old(self).prunes(path) || prefix@.is_prefix_of(path),
            forall|path: Seq<u32>| #[trigger]
                final(self).empty_prefixes.contains(path) ==> path == prefix@ || old(
                    self,
                ).empty_prefixes.contains(path),
            forall|path: Seq<u32>|
                old(self).empty_prefixes.covers(path) ==> final(self).empty_prefixes.covers(path),
            final(self).empty_prefixes.covers(prefix@),
    {
        let ghost wanted = prefix@;
        self.empty_prefixes.insert(prefix, ());
        proof {
            assert forall|path: Seq<u32>| #[trigger]
                self.empty_prefixes.contains(path) implies path == wanted || old(
                self,
            ).empty_prefixes.contains(path) by {
                assert(self.empty_prefixes.get(path) is Some);
            }
            assert(wanted.is_prefix_of(wanted));
        }
    }

    /// Tells whether the cache knows that `path` matches no document.
    pub fn path_is_empty(&self, path: &Vec<u32>) -> (empty: bool)
        ensures
            empty == self.prunes(path@),
    {
        let mut i: usize = 0;
        while i < path.len()
            invariant
                i <= path@.len(),
                forall|k: int| 0 <= k < i ==> !members(self.empty_edges).contains(#[trigger] path@[k]),
            decreases path@.len() - i,
        {
            if bitmap_contains(&self.empty_edges, path[i]) {
                return true;
            }
            i += 1;
        }
        self.empty_prefixes.contains_prefix_of_path(path)
    }
}

impl EmptyPathsCache {
    /// Copies the cache.
    pub fn clone_cache(&self) -> (copy: EmptyPathsCache)
        ensures
            members(copy.empty_edges) == members(self.empty_edges),
            forall|path: Seq<u32>|
                #[trigger] copy.empty_prefixes.get(path) == self.empty_prefixes.get(path),
            same_edges(copy.empty_prefixes, self.empty_prefixes),
    {
        EmptyPathsCache {
            empty_edges: bitmap_clone(&self.empty_edges),
            empty_prefixes: self.empty_prefixes.clone_map(),
        }
    }
}

} // verus!
