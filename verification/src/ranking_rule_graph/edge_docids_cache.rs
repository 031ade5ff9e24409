//! A memo of the documents of the edges of a ranking-rule graph.

use vstd::prelude::*;
use roaring::RoaringBitmap;
use crate::bitmap::{bitmap_clone, members};
use crate::db_cache::DatabaseCache;
use crate::error::Error;
use crate::index::{IndexModel, IndexSnapshot};
use crate::ranking_rule_graph::{EdgeDetails, RankingRuleGraph, RankingRuleGraphTrait};

verus! {

/// The documents that an edge admits: every document, or those of a bitmap.
#[derive(Debug)]
pub enum EdgeDocids {
    All,
    Bitmap(RoaringBitmap),
}

impl EdgeDocids {
    /// The documents, as a set.
    pub open spec fn set(self) -> Set<u32> {
        match self {
            EdgeDocids::All => Set::full(),
            EdgeDocids::Bitmap(bitmap) => members(bitmap),
        }
    }
}

/// The documents of one edge, as the index gave them.
#[derive(Debug)]
pub struct CachedEdge {
    pub edge: u32,
    pub docids: RoaringBitmap,
}

/// Remembers, edge by edge, the documents that the ranking rule read from the
/// index, so that each edge is resolved once.
#[derive(Debug)]
pub struct EdgeDocidsCache {
    pub cache: Vec<CachedEdge>,
}

impl EdgeDocidsCache {
    /// Every remembered bitmap is what the rule finds in `index` for its
    /// edge.
    pub open spec fn wf<G: RankingRuleGraphTrait>(
        self,
        graph: RankingRuleGraph<G>,
        index: IndexModel,
    ) -> bool {
        forall|i: int|
            0 <= i < self.cache@.len() && graph.live((#[trigger] self.cache@[i]).edge as int)
                ==> members(self.cache@[i].docids) == graph.edge_set(
                self.cache@[i].edge as int,
                index,
            )
    }

    /// Creates a cache that remembers nothing yet.
    pub fn new() -> (cache: EdgeDocidsCache)
        ensures
            cache.cache@.len() == 0,
    {
        EdgeDocidsCache { cache: Vec::new() }
    }

    /// The documents of the edge `e`: every document if the edge is
    /// unconditional; otherwise what `G::resolve_edge` reads from the index,
    /// which is read once and remembered. What comes back is always what
    /// the rule finds in the index for this edge, whether it was remembered
    /// or not. A failure of the index is handed on.
    pub fn get_or_compute<G: RankingRuleGraphTrait, I: IndexSnapshot>(
        &mut self,
        e: u32,
        graph: &RankingRuleGraph<G>,
        index: &I,
        db_cache: &mut DatabaseCache,
    ) -> (r: Result<EdgeDocids, Error>)
        requires
            graph.live(e as int),
            old(self).wf(*graph, index.model()),
            old(db_cache).wf(index.model()),
        ensures
            final(self).wf(*graph, index.model()),
            final(db_cache).wf(index.model()),
            index.model().reliable ==> r is Ok,
            r matches Ok(found) ==> found.set() == graph.edge_set(e as int, index.model()),
            r matches Err(e) ==> e is StorageFailure,
    {
        let mut i: usize = 0;
        while i < self.cache.len()
            invariant
                i <= self.cache@.len(),
                self.cache@ == old(self).cache@,
                *db_cache == *old(db_cache),
                graph.live(e as int),
                self.wf(*graph, index.model()),
                db_cache.wf(index.model()),
            decreases self.cache@.len() - i,
        {
            if self.cache[i].edge == e {
                return Ok(EdgeDocids::Bitmap(bitmap_clone(&self.cache[i].docids)));
            }
            i += 1;
        }
        match &graph.all_edges[e as usize] {
            Some(edge) => match &edge.details {
                EdgeDetails::Unconditional => Ok(EdgeDocids::All),
                EdgeDetails::Data(details) => {
                    match G::resolve_edge(details, index, db_cache) {
                        Ok(bitmap) => {
                            let copy = bitmap_clone(&bitmap);
                            self.cache.push(CachedEdge { edge: e, docids: bitmap });
                            Ok(EdgeDocids::Bitmap(copy))
                        },
                        Err(err) => Err(err),
                    }
                },
            },
            None => Ok(EdgeDocids::All),
        }
    }
}

} // verus!
