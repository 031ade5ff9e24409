//! What a ranking rule is: a way to cut a set of documents into buckets, the
//! best documents first.

use vstd::prelude::*;
use roaring::RoaringBitmap;
use crate::bitmap::members;
use crate::db_cache::DatabaseCache;
use crate::error::Error;
use crate::index::{IndexModel, IndexSnapshot};
use crate::logger::SearchLogger;

verus! {

/// One bucket of a ranking rule: documents that the rule holds for equally
/// good, and the query that the next rule is to rank them by.
#[derive(Debug)]
pub struct RankingRuleOutput<Q> {
    pub query: Q,
    pub candidates: RoaringBitmap,
}

/// How a ranking rule ranks, as plain functions: for a query, the rule
/// gives each cost from zero up to a ceiling a class of documents, and the
/// smaller the cost the better the documents of the class.
#[verifier::reject_recursive_types(Q)]
pub struct RuleModel<Q> {
    /// Whether the rule can start an iteration for the query.
    pub starts: spec_fn(Q) -> bool,
    /// A cost above every cost at which the rule ranks documents.
    pub ceiling: spec_fn(Q) -> int,
    /// The documents that the rule ranks at a cost.
    pub class_docids: spec_fn(Q, IndexModel, int) -> Set<u32>,
    /// The query by which the next rule ranks the documents of a cost.
    pub refined: spec_fn(Q, int) -> Q,
}

/// The documents that a rule ranks at `cost` for `query`.
pub open spec fn class_of<Q>(model: RuleModel<Q>, query: Q, index: IndexModel, cost: int) -> Set<
    u32,
> {
    (model.class_docids)(query, index, cost)
}

/// What a bucket is, when a rule that stood at the cost `floor` hands it
/// out for `universe` and then stands at `next_floor`: the documents of the
/// universe that the rule ranks at `cost`, with the query refined for this
/// cost. The rule ranks no document of the universe at a cost that it
/// passed over before `cost`, and none but those of the bucket at a cost
/// that it passed over after it.
pub open spec fn bucket_at<Q>(
    model: RuleModel<Q>,
    query: Q,
    index: IndexModel,
    universe: Set<u32>,
    floors: (int, int),
    output: RankingRuleOutput<Q>,
    cost: int,
) -> bool {
    &&& floors.0 <= cost < floors.1 <= (model.ceiling)(query)
    &&& members(output.candidates) == universe.intersect(class_of(model, query, index, cost))
    &&& output.query == (model.refined)(query, cost)
    &&& forall|c: int|
        floors.0 <= c < cost ==> universe.intersect(#[trigger] class_of(model, query, index, c))
            == Set::<u32>::empty()
    &&& forall|c: int|
        cost < c < floors.1 ==> universe.intersect(
            #[trigger] class_of(model, query, index, c),
        ).subset_of(members(output.candidates))
}

/// A ranking rule over queries of type `Q`. Between `start_iteration` and
/// `end_iteration` the rule hands out its buckets one by one, best first.
pub trait RankingRule<Q>: Sized {
    /// Whether the query is one that the rule can rank by.
    spec fn accepts(query: &Q) -> bool;

    /// How the rule ranks. This is the same whatever the rule is doing.
    spec fn model(&self) -> RuleModel<Q>;

    /// The query of the iteration under way.
    spec fn query(&self) -> Q;

    /// The cost from which the rule has not handed out its buckets yet.
    spec fn floor(&self) -> int;

    /// Whether the rule is in the middle of an iteration over documents of
    /// `universe`, read from `index`.
    spec fn iterating(&self, index: IndexModel, universe: Set<u32>) -> bool;

    /// A bound on the number of buckets that the rule can still hand out.
    spec fn remaining(&self) -> nat;

    /// An iteration over a universe is also one over any part of it.
    proof fn lemma_iterating_in_smaller_universe(
        &self,
        index: IndexModel,
        universe: Set<u32>,
        smaller: Set<u32>,
    )
        requires
            self.iterating(index, universe),
            smaller.subset_of(universe),
        ensures
            self.iterating(index, smaller),
    ;

    /// The identifier of the rule.
    fn id(&self) -> String;

    /// Prepares the rule to hand out the buckets of `universe` for `query`.
    /// This succeeds for a query for which the rule can start. The rule
    /// then stands at a cost below which it ranks no document.
    fn start_iteration<I: IndexSnapshot, L: SearchLogger>(
        &mut self,
        index: &I,
        db_cache: &mut DatabaseCache,
        logger: &mut L,
        universe: &RoaringBitmap,
        query: Q,
    ) -> (r: Result<(), Error>)
        requires
            old(db_cache).wf(index.model()),
            Self::accepts(&query),
        ensures
            final(db_cache).wf(index.model()),
            final(self).model() == old(self).model(),
            (old(self).model().starts)(query) ==> r is Ok,
            r is Ok ==> {
                &&& final(self).iterating(index.model(), members(*universe))
                &&& final(self).query() == query
                &&& 0 <= final(self).floor() <= (old(self).model().ceiling)(query)
                &&& forall|c: int|
                    0 <= c < final(self).floor() ==> members(*universe).intersect(
                        #[trigger] class_of(old(self).model(), query, index.model(), c),
                    ) == Set::<u32>::empty()
            },
    ;

    /// Hands out the next bucket, or `None` when the rule has no more
    /// bucket: then it ranks no document of the universe at a cost from
    /// its floor on. With an index that can be read the rule answers. The
    /// universe holds more than one document: there is nothing to rank in
    /// less.
    fn next_bucket<I: IndexSnapshot, L: SearchLogger>(
        &mut self,
        index: &I,
        db_cache: &mut DatabaseCache,
        logger: &mut L,
        universe: &RoaringBitmap,
    ) -> (r: Result<Option<RankingRuleOutput<Q>>, Error>)
        requires
            old(self).iterating(index.model(), members(*universe)),
            old(db_cache).wf(index.model()),
            members(*universe).len() > 1,
        ensures
            final(db_cache).wf(index.model()),
            final(self).model() == old(self).model(),
            index.model().reliable ==> r is Ok,
            r matches Ok(Some(output)) ==> {
                &&& members(output.candidates).subset_of(members(*universe))
                &&& Self::accepts(&output.query)
                &&& final(self).iterating(index.model(), members(*universe))
                &&& final(self).remaining() < old(self).remaining()
                &&& final(self).query() == old(self).query()
                &&& exists|cost: int| #[trigger]
                    bucket_at(
                        old(self).model(),
                        old(self).query(),
                        index.model(),
                        members(*universe),
                        (old(self).floor(), final(self).floor()),
                        output,
                        cost,
                    )
            },
            r matches Ok(None) ==> forall|c: int|
                old(self).floor() <= c < (old(self).model().ceiling)(old(self).query())
                    ==> members(*universe).intersect(
                    #[trigger] class_of(old(self).model(), old(self).query(), index.model(), c),
                ) == Set::<u32>::empty(),
    ;

    /// Ends the iteration and releases what the rule kept for it.
    fn end_iteration<I: IndexSnapshot, L: SearchLogger>(
        &mut self,
        index: &I,
        db_cache: &mut DatabaseCache,
        logger: &mut L,
    )
        requires
            old(db_cache).wf(index.model()),
        ensures
            final(db_cache).wf(index.model()),
            final(self).model() == old(self).model(),
    ;
}

} // verus!
