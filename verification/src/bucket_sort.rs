//! The pipeline of the ranking rules: the documents of the universe, sorted
//! by the first rule, then within each of its buckets by the second, and so
//! on.

use vstd::prelude::*;
use std::rc::Rc;
use roaring::RoaringBitmap;
use crate::bitmap::{
    bitmap_clone, bitmap_len, bitmap_subtract, in_order, lemma_docid_sets_finite,
    lemma_in_order_empty, lemma_in_order_lists, members, sorted_ids,
};
use crate::db_cache::DatabaseCache;
use crate::error::Error;
use crate::index::{IndexModel, IndexSnapshot};
use crate::logger::SearchLogger;
use crate::query_graph::QueryGraph;
use crate::ranking_rule::{bucket_at, class_of, RankingRule, RuleModel};

verus! {

/// The first `count` rules are the same in both lists.
pub open spec fn same_rules_below<R>(a: Seq<R>, b: Seq<R>, count: int) -> bool {
    &&& a.len() == b.len()
    &&& forall|j: int| 0 <= j < count && j < a.len() ==> a[j] == b[j]
}

/// `longer` is `results` followed by documents of `universe`, and holds no
/// document twice.
pub open spec fn extended_within(results: Seq<u32>, longer: Seq<u32>, universe: Set<u32>) -> bool {
    &&& results.is_prefix_of(longer)
    &&& longer.no_duplicates()
    &&& forall|k: int| results.len() <= k < longer.len() ==> universe.contains(#[trigger] longer[k])
}

/// `results` holds no document twice and no document of `universe`.
pub open spec fn apart_from(results: Seq<u32>, universe: Set<u32>) -> bool {
    &&& results.no_duplicates()
    &&& forall|k: int| 0 <= k < results.len() ==> !universe.contains(#[trigger] results[k])
}

/// The results once the documents of `universe` have come in, in
/// increasing order, as far as `wanted` documents allow.
pub open spec fn filled(results: Seq<u32>, universe: Set<u32>, wanted: int) -> Seq<u32> {
    let ids = in_order(universe);
    if wanted - results.len() < ids.len() {
        results + ids.take(wanted - results.len())
    } else {
        results + ids
    }
}

/// The part of a ranked list that is returned: without its first `from`
/// documents, and `length` documents at most.
pub open spec fn page(ranked: Seq<u32>, from: int, length: int) -> Seq<u32> {
    if from >= ranked.len() {
        Seq::empty()
    } else if from + length < ranked.len() {
        ranked.subrange(from, from + length)
    } else {
        ranked.subrange(from, ranked.len() as int)
    }
}

/// How each of the rules ranks.
pub open spec fn models<Q, R: RankingRule<Q>>(rules: Seq<R>) -> Seq<RuleModel<Q>> {
    rules.map_values(|rule: R| rule.model())
}

/// Whether the rule can start an iteration for the query.
pub open spec fn starts_for<Q>(model: RuleModel<Q>, query: Q) -> bool {
    (model.starts)(query)
}

/// The query by which a rule refines `query` for a cost.
pub open spec fn refined_for<Q>(model: RuleModel<Q>, query: Q, cost: int) -> Q {
    (model.refined)(query, cost)
}

/// The query that reaches the rule standing `costs.len()` places after
/// `depth`, when the rules before it refine `query` for these costs, one
/// after the other.
pub open spec fn refined_by<Q>(models: Seq<RuleModel<Q>>, depth: int, query: Q, costs: Seq<int>) -> Q
    decreases costs.len(),
{
    if costs.len() == 0 {
        query
    } else {
        refined_by(
            models,
            depth + 1,
            refined_for(models[depth], query, costs[0]),
            costs.drop_first(),
        )
    }
}

/// Every rule from `depth` on can start for every query that can reach it
/// when the rule at `depth` starts with `query`.
pub open spec fn can_start<Q>(models: Seq<RuleModel<Q>>, depth: int, query: Q) -> bool {
    forall|costs: Seq<int>|
        depth + costs.len() < models.len() ==> starts_for(
            models[depth + costs.len()],
            #[trigger] refined_by(models, depth, query, costs),
        )
}

/// If the rules can start from `depth` on, the rule at `depth` can start,
/// and so can those after it with the query refined for any cost.
pub proof fn lemma_can_start_step<Q>(models: Seq<RuleModel<Q>>, depth: int, query: Q, cost: int)
    requires
        0 <= depth < models.len(),
        can_start(models, depth, query),
    ensures
        starts_for(models[depth], query),
        can_start(models, depth + 1, refined_for(models[depth], query, cost)),
{
    let none = Seq::<int>::empty();
    assert(refined_by(models, depth, query, none) == query);
    assert(starts_for(models[depth + none.len()], refined_by(models, depth, query, none)));
    let next = refined_for(models[depth], query, cost);
    assert forall|costs: Seq<int>| depth + 1 + costs.len() < models.len() implies starts_for(
        models[depth + 1 + costs.len()],
        #[trigger] refined_by(models, depth + 1, next, costs),
    ) by {
        let longer = seq![cost] + costs;
        assert(longer.drop_first() =~= costs);
        assert(refined_by(models, depth, query, longer) == refined_by(
            models,
            depth + 1,
            next,
            costs,
        ));
        assert(starts_for(
            models[depth + longer.len()],
            refined_by(models, depth, query, longer),
        ));
    }
}

/// Rules that hand the query down as it is can start if each of them can
/// start with this query.
pub proof fn lemma_can_start_unrefined<Q>(models: Seq<RuleModel<Q>>, depth: int, query: Q)
    requires
        0 <= depth,
        forall|j: int, q: Q, c: int|
            0 <= j < models.len() ==> #[trigger] refined_for(models[j], q, c) == q,
        forall|j: int| depth <= j < models.len() ==> starts_for(#[trigger] models[j], query),
    ensures
        can_start(models, depth, query),
{
    assert forall|costs: Seq<int>| depth + costs.len() < models.len() implies starts_for(
        models[depth + costs.len()],
        #[trigger] refined_by(models, depth, query, costs),
    ) by {
        lemma_unrefined(models, depth, query, costs);
    }
}

proof fn lemma_unrefined<Q>(models: Seq<RuleModel<Q>>, depth: int, query: Q, costs: Seq<int>)
    requires
        0 <= depth,
        depth + costs.len() <= models.len(),
        forall|j: int, q: Q, c: int|
            0 <= j < models.len() ==> #[trigger] refined_for(models[j], q, c) == q,
    ensures
        refined_by(models, depth, query, costs) == query,
    decreases costs.len(),
{
    if costs.len() > 0 {
        assert(refined_for(models[depth], query, costs[0]) == query);
        lemma_unrefined(models, depth + 1, query, costs.drop_first());
    }
}

/// The documents of `universe` as the rules from `depth` on rank them, the
/// rule at `depth` standing at `cost`.
///
/// Without a rule left, or with one document at most, there is nothing to
/// rank: the documents come in increasing order. Otherwise the documents
/// that the rule ranks at `cost` come first, ranked by the rules that
/// follow, with the query refined for this cost; then the other documents
/// of the universe, ranked from the next cost on. Documents that the rule
/// ranks at no cost below its ceiling do not come at all, unless a single
/// one is left.
pub open spec fn ranking<Q>(
    models: Seq<RuleModel<Q>>,
    depth: int,
    query: Q,
    index: IndexModel,
    universe: Set<u32>,
    cost: int,
) -> Seq<u32>
    decreases models.len() - depth, (models[depth].ceiling)(query) - cost,
{
    if depth < 0 || depth >= models.len() || universe.len() <= 1 {
        in_order(universe)
    } else if cost >= (models[depth].ceiling)(query) {
        Seq::empty()
    } else {
        let bucket = universe.intersect(class_of(models[depth], query, index, cost));
        ranking(models, depth + 1, (models[depth].refined)(query, cost), index, bucket, 0)
            + ranking(models, depth, query, index, universe.difference(bucket), cost + 1)
    }
}

/// A list cut to `wanted` documents.
pub open spec fn cut(results: Seq<u32>, wanted: int) -> Seq<u32> {
    if results.len() > wanted {
        results.take(wanted)
    } else {
        results
    }
}

/// The number of documents to rank for a page: those before the page and
/// those of the page, as far as the machine counts.
pub open spec fn wanted_for(from: usize, length: usize) -> int {
    if from + length <= usize::MAX {
        from + length
    } else {
        usize::MAX as int
    }
}

/// A page does not feel a cut behind its end.
pub proof fn lemma_page_of_cut(ranked: Seq<u32>, from: int, length: int, wanted: int)
    requires
        0 <= from,
        0 <= length,
        from + length <= wanted,
    ensures
        page(cut(ranked, wanted), from, length) == page(ranked, from, length),
{
    if ranked.len() > wanted {
        let short = ranked.take(wanted);
        if from < short.len() {
            if from + length < short.len() {
                assert(short.subrange(from, from + length) =~= ranked.subrange(
                    from,
                    from + length,
                ));
            } else {
                assert(short.subrange(from, short.len() as int) =~= ranked.subrange(
                    from,
                    from + length,
                ));
            }
        } else {
            assert(length == 0);
            assert(page(ranked, from, length) =~= Seq::<u32>::empty());
        }
    }
}

/// To cut a list that was cut before it grew is to cut the whole.
pub proof fn lemma_cut_twice(a: Seq<u32>, b: Seq<u32>, wanted: int)
    requires
        0 <= wanted,
    ensures
        cut(cut(a, wanted) + b, wanted) == cut(a + b, wanted),
{
    if a.len() > wanted {
        assert(cut(a, wanted) + b =~= a.take(wanted) + b);
        if b.len() > 0 {
            assert((a.take(wanted) + b).take(wanted) =~= a.take(wanted));
        }
        assert((a + b).take(wanted) =~= a.take(wanted));
    }
}

/// A rule passes over the costs at which it ranks no document of the
/// universe without any effect on the ranking.
pub proof fn lemma_ranking_skips<Q>(
    models: Seq<RuleModel<Q>>,
    depth: int,
    query: Q,
    index: IndexModel,
    universe: Set<u32>,
    from: int,
    to: int,
)
    requires
        0 <= depth < models.len(),
        from <= to,
        forall|c: int|
            from <= c < to ==> universe.intersect(#[trigger] class_of(models[depth], query, index, c))
                == Set::<u32>::empty(),
    ensures
        ranking(models, depth, query, index, universe, from) == ranking(
            models,
            depth,
            query,
            index,
            universe,
            to,
        ),
    decreases to - from,
{
    if from < to && universe.len() > 1 && from < (models[depth].ceiling)(query) {
        let bucket = universe.intersect(class_of(models[depth], query, index, from));
        assert(bucket == Set::<u32>::empty());
        lemma_docid_sets_finite(bucket);
        assert(bucket.len() == 0);
        lemma_in_order_empty();
        assert(ranking(
            models,
            depth + 1,
            (models[depth].refined)(query, from),
            index,
            bucket,
            0,
        ) == Seq::<u32>::empty());
        assert(universe.difference(bucket) =~= universe);
        lemma_ranking_skips(models, depth, query, index, universe, from + 1, to);
        assert(Seq::<u32>::empty() + ranking(models, depth, query, index, universe, from + 1)
            =~= ranking(models, depth, query, index, universe, from + 1));
    }
}

/// A universe of one document at most is not ranked: no rule is asked,
/// and the document, if there is one, is the ranking.
pub proof fn lemma_small_universe_is_not_ranked<Q>(
    models: Seq<RuleModel<Q>>,
    depth: int,
    query: Q,
    index: IndexModel,
    universe: Set<u32>,
    cost: int,
)
    requires
        universe.len() <= 1,
    ensures
        ranking(models, depth, query, index, universe, cost) == in_order(universe),
        ranking(models, depth, query, index, universe, cost).len() == universe.len(),
{
    lemma_in_order_lists(universe);
}

/// The ranking holds documents of the universe only, and none twice: a
/// document that a filter left out of the universe never comes.
pub proof fn lemma_ranking_within<Q>(
    models: Seq<RuleModel<Q>>,
    depth: int,
    query: Q,
    index: IndexModel,
    universe: Set<u32>,
    cost: int,
)
    ensures
        forall|k: int|
            0 <= k < ranking(models, depth, query, index, universe, cost).len()
                ==> universe.contains(
                #[trigger] ranking(models, depth, query, index, universe, cost)[k],
            ),
        ranking(models, depth, query, index, universe, cost).no_duplicates(),
    decreases models.len() - depth, (models[depth].ceiling)(query) - cost,
{
    let ranked = ranking(models, depth, query, index, universe, cost);
    if depth < 0 || depth >= models.len() || universe.len() <= 1 {
        lemma_in_order_lists(universe);
        assert forall|k: int| 0 <= k < ranked.len() implies universe.contains(
            #[trigger] ranked[k],
        ) by {
            assert(ranked.contains(ranked[k]));
        }
    } else if cost < (models[depth].ceiling)(query) {
        let bucket = universe.intersect(class_of(models[depth], query, index, cost));
        let rest = universe.difference(bucket);
        let first = ranking(
            models,
            depth + 1,
            (models[depth].refined)(query, cost),
            index,
            bucket,
            0,
        );
        let second = ranking(models, depth, query, index, rest, cost + 1);
        lemma_ranking_within(
            models,
            depth + 1,
            (models[depth].refined)(query, cost),
            index,
            bucket,
            0,
        );
        lemma_ranking_within(models, depth, query, index, rest, cost + 1);
        assert(ranked == first + second);
        assert forall|k: int| 0 <= k < ranked.len() implies universe.contains(
            #[trigger] ranked[k],
        ) by {
            if k < first.len() {
                assert(bucket.contains(first[k]));
            } else {
                assert(rest.contains(second[k - first.len()]));
            }
        }
        assert forall|k: int, l: int| 0 <= k < l < ranked.len() implies ranked[k]
            != ranked[l] by {
            if l < first.len() {
            } else if k < first.len() {
                assert(bucket.contains(first[k]));
                assert(rest.contains(second[l - first.len()]));
            } else {
                assert(second[k - first.len()] != second[l - first.len()]);
            }
        }
    }
}

/// Documents that a rule ranks at a smaller cost come first: if the rule
/// ranks `near` at the cost `at`, and ranks `far` at no cost from `cost` to
/// `at`, then `near` comes before `far` wherever both come.
pub proof fn lemma_cheaper_first<Q>(
    models: Seq<RuleModel<Q>>,
    depth: int,
    query: Q,
    index: IndexModel,
    universe: Set<u32>,
    cost: int,
    at: int,
    near: u32,
    far: u32,
)
    requires
        0 <= depth < models.len(),
        cost <= at,
        class_of(models[depth], query, index, at).contains(near),
        forall|c: int|
            cost <= c <= at ==> !(#[trigger] class_of(models[depth], query, index, c)).contains(far),
    ensures
        forall|i: int, j: int|
            #![trigger
                ranking(models, depth, query, index, universe, cost)[i],
                ranking(models, depth, query, index, universe, cost)[j]
            ]
            0 <= i < ranking(models, depth, query, index, universe, cost).len() && 0 <= j
                < ranking(models, depth, query, index, universe, cost).len() && ranking(
                models,
                depth,
                query,
                index,
                universe,
                cost,
            )[i] == near && ranking(models, depth, query, index, universe, cost)[j] == far ==> i
                < j,
    decreases at - cost,
{
    let ranked = ranking(models, depth, query, index, universe, cost);
    assert(near != far);
    if universe.len() <= 1 {
        lemma_small_universe_is_not_ranked(models, depth, query, index, universe, cost);
        lemma_ranking_within(models, depth, query, index, universe, cost);
    } else if cost < (models[depth].ceiling)(query) {
        let bucket = universe.intersect(class_of(models[depth], query, index, cost));
        let rest = universe.difference(bucket);
        let first = ranking(
            models,
            depth + 1,
            (models[depth].refined)(query, cost),
            index,
            bucket,
            0,
        );
        let second = ranking(models, depth, query, index, rest, cost + 1);
        lemma_ranking_within(
            models,
            depth + 1,
            (models[depth].refined)(query, cost),
            index,
            bucket,
            0,
        );
        lemma_ranking_within(models, depth, query, index, rest, cost + 1);
        assert(ranked == first + second);
        if cost < at {
            lemma_cheaper_first(models, depth, query, index, rest, cost + 1, at, near, far);
        }
        assert forall|i: int, j: int|
            0 <= i < ranked.len() && 0 <= j < ranked.len() && ranked[i] == near && ranked[j]
                == far implies i < j by {
            if j < first.len() {
                assert(bucket.contains(first[j]));
                assert(class_of(models[depth], query, index, cost).contains(far));
            } else if i >= first.len() {
                assert(rest.contains(second[i - first.len()]));
                assert(second[i - first.len()] == near);
                assert(second[j - first.len()] == far);
                if cost == at {
                    assert(universe.contains(near));
                    assert(bucket.contains(near));
                }
            }
        }
    }
}

/// Appends the documents of `candidates` to the results, in increasing
/// order, until the results hold `wanted` documents.
fn add_to_results<L: SearchLogger>(
    logger: &mut L,
    candidates: &RoaringBitmap,
    wanted: usize,
    results: &mut Vec<u32>,
)
    requires
        apart_from(old(results)@, members(*candidates)),
        old(results)@.len() <= wanted,
    ensures
        extended_within(old(results)@, final(results)@, members(*candidates)),
        final(results)@.len() <= wanted,
        final(results)@ == filled(old(results)@, members(*candidates), wanted as int),
        final(results)@ == cut(old(results)@ + in_order(members(*candidates)), wanted as int),
        in_order(members(*candidates)).len() <= usize::MAX,
{
    let ids = sorted_ids(candidates);
    let mut added: Vec<u32> = Vec::new();
    let mut i: usize = 0;
    while i < ids.len() && results.len() < wanted
        invariant
            i <= ids@.len(),
            results@.len() <= wanted,
            results@ == old(results)@ + ids@.take(i as int),
            added@ == ids@.take(i as int),
        decreases ids@.len() - i,
    {
        results.push(ids[i]);
        added.push(ids[i]);
        assert(ids@.take(i + 1) == ids@.take(i as int).push(ids@[i as int]));
        assert(results@ =~= old(results)@ + ids@.take(i + 1));
        i += 1;
    }
    logger.add_to_results(&added);
    proof {
        let taken = ids@.take(i as int);
        assert(ids@.no_duplicates());
        assert forall|k: int| 0 <= k < ids@.len() implies members(*candidates).contains(
            #[trigger] ids@[k],
        ) by {
            assert(ids@.contains(ids@[k]));
        }
        assert(old(results)@.is_prefix_of(results@)) by {
            assert(results@.subrange(0, old(results)@.len() as int) =~= old(results)@);
        }
        assert forall|k: int, l: int| 0 <= k < l < results@.len() implies results@[k]
            != results@[l] by {
            let n = old(results)@.len() as int;
            if l < n {
            } else if k < n {
                assert(results@[l] == ids@[l - n]);
                assert(results@[k] == old(results)@[k]);
            } else {
                assert(results@[l] == ids@[l - n]);
                assert(results@[k] == ids@[k - n]);
            }
        }
        assert forall|k: int| old(results)@.len() <= k < results@.len() implies members(
            *candidates,
        ).contains(#[trigger] results@[k]) by {
            assert(results@[k] == ids@[k - old(results)@.len()]);
        }
        if i == ids@.len() {
            assert(ids@.take(i as int) =~= ids@);
        }
        assert(results@ =~= cut(old(results)@ + ids@, wanted as int));
    }
}

/// Ranks the documents of `universe` by the rules from `depth` on and
/// appends them to the results, best first, until the results hold `wanted`
/// documents.
#[verifier::rlimit(40)]
fn rank<R: RankingRule<Rc<QueryGraph>>, I: IndexSnapshot, L: SearchLogger>(
    index: &I,
    db_cache: &mut DatabaseCache,
    logger: &mut L,
    ranking_rules: &mut Vec<R>,
    depth: usize,
    universe: RoaringBitmap,
    query: Rc<QueryGraph>,
    wanted: usize,
    results: &mut Vec<u32>,
) -> (r: Result<(), Error>)
    requires
        depth <= old(ranking_rules)@.len(),
        old(db_cache).wf(index.model()),
        R::accepts(&query),
        apart_from(old(results)@, members(universe)),
        old(results)@.len() <= wanted,
    ensures
        final(db_cache).wf(index.model()),
        same_rules_below(old(ranking_rules)@, final(ranking_rules)@, depth as int),
        extended_within(old(results)@, final(results)@, members(universe)),
        final(results)@.len() <= wanted,
        depth == old(ranking_rules)@.len() || members(universe).len() <= 1 ==> r is Ok
            && final(results)@ == filled(old(results)@, members(universe), wanted as int)
            && in_order(members(universe)).len() <= usize::MAX,
        models(final(ranking_rules)@) == models(old(ranking_rules)@),
        r is Ok ==> final(results)@ == cut(
            old(results)@ + ranking(
                models(old(ranking_rules)@),
                depth as int,
                query,
                index.model(),
                members(universe),
                0,
            ),
            wanted as int,
        ),
        index.model().reliable && can_start(models(old(ranking_rules)@), depth as int, query)
            ==> r is Ok,
    decreases old(ranking_rules)@.len() - depth,
{
    proof {
        lemma_docid_sets_finite(members(universe));
    }
    if depth == ranking_rules.len() {
        add_to_results(logger, &universe, wanted, results);
        return Ok(());
    }
    if bitmap_len(&universe) <= 1 {
        logger.skip_bucket_ranking_rule(depth, &universe);
        add_to_results(logger, &universe, wanted, results);
        return Ok(());
    }
    let ghost rules0 = ranking_rules@;
    let ghost results0 = results@;
    let ghost whole = members(universe);
    let ghost ms = models(ranking_rules@);
    let ghost q0 = query;
    let ghost idx = index.model();
    let ghost target = cut(
        results0 + ranking(ms, depth as int, q0, idx, whole, 0),
        wanted as int,
    );
    let mut universe = universe;
    logger.start_iteration_ranking_rule(depth, &query, &universe);
    proof {
        assert(ms[depth as int] == ranking_rules@[depth as int].model());
        if can_start(ms, depth as int, q0) {
            lemma_can_start_step(ms, depth as int, q0, 0);
        }
    }
    match ranking_rules[depth].start_iteration(index, db_cache, logger, &universe, query) {
        Ok(()) => {},
        Err(e) => {
            assert(results@.subrange(0, results@.len() as int) =~= results@);
            assert(models(ranking_rules@) =~= ms);
            return Err(e);
        },
    }
    proof {
        assert(models(ranking_rules@) =~= ms);
        lemma_ranking_skips(
            ms,
            depth as int,
            q0,
            idx,
            whole,
            0,
            ranking_rules@[depth as int].floor(),
        );
    }
    let mut outcome: Result<(), Error> = Ok(());
    let mut looking = true;
    let count = ranking_rules.len();
    while looking
        invariant
            depth < ranking_rules@.len(),
            count == ranking_rules@.len(),
            ranking_rules@.len() == old(ranking_rules)@.len(),
            rules0 == old(ranking_rules)@,
            same_rules_below(rules0, ranking_rules@, depth as int),
            db_cache.wf(index.model()),
            looking ==> ranking_rules@[depth as int].iterating(index.model(), members(universe)),
            idx == index.model(),
            ms.len() == ranking_rules@.len(),
            models(ranking_rules@) == ms,
            looking ==> ranking_rules@[depth as int].query() == q0,
            idx.reliable && can_start(ms, depth as int, q0) ==> outcome is Ok,
            outcome is Err ==> !looking,
            looking ==> target == cut(
                results@ + ranking(
                    ms,
                    depth as int,
                    q0,
                    idx,
                    members(universe),
                    ranking_rules@[depth as int].floor(),
                ),
                wanted as int,
            ),
            !looking && outcome is Ok ==> results@ == target,
            members(universe).subset_of(whole),
            extended_within(results0, results@, whole),
            apart_from(results@, members(universe)),
            results@.len() <= wanted,
        decreases
                (if looking {
                    ranking_rules@[depth as int].remaining() + 1
                } else {
                    0
                }),
    {
        proof {
            lemma_docid_sets_finite(members(universe));
        }
        let ghost floor = ranking_rules@[depth as int].floor();
        let ghost left = members(universe);
        if results.len() >= wanted {
            proof {
                let rest = ranking(ms, depth as int, q0, idx, left, floor);
                if rest.len() > 0 {
                    assert((results@ + rest).take(wanted as int) =~= results@);
                } else {
                    assert(results@ + rest =~= results@);
                }
            }
            looking = false;
        } else if bitmap_len(&universe) <= 1 {
            logger.skip_bucket_ranking_rule(depth, &universe);
            let ghost before = results@;
            add_to_results(logger, &universe, wanted, results);
            proof {
                lemma_extended_twice(results0, before, results@, whole, members(universe));
                assert(apart_from(results@, Set::<u32>::empty()));
            }
            universe = crate::bitmap::bitmap_new();
            looking = false;
        } else {
            logger.next_bucket_ranking_rule(depth, &universe);
            let ghost rules1 = ranking_rules@;
            match ranking_rules[depth].next_bucket(index, db_cache, logger, &universe) {
                Ok(Some(output)) => {
                    let ghost rules2 = ranking_rules@;
                    assert(rules2.len() == rules1.len());
                    let ghost universe1 = members(universe);
                    let ghost before = results@;
                    let ghost next_floor = ranking_rules@[depth as int].floor();
                    let ghost bucket = members(output.candidates);
                    let ghost refined = output.query;
                    let ghost at = choose|cost: int| #[trigger]
                        bucket_at(
                            ms[depth as int],
                            q0,
                            idx,
                            left,
                            (floor, next_floor),
                            output,
                            cost,
                        );
                    proof {
                        assert(rules1[depth as int].model() == ms[depth as int]);
                        assert(models(ranking_rules@) =~= ms);
                        assert(bucket_at(
                            ms[depth as int],
                            q0,
                            idx,
                            left,
                            (floor, next_floor),
                            output,
                            at,
                        ));
                        lemma_ranking_skips(ms, depth as int, q0, idx, left, floor, at);
                        if can_start(ms, depth as int, q0) {
                            lemma_can_start_step(ms, depth as int, q0, at);
                        }
                        let rest = left.difference(bucket);
                        assert forall|c: int| at + 1 <= c < next_floor implies rest.intersect(
                            #[trigger] class_of(ms[depth as int], q0, idx, c),
                        ) == Set::<u32>::empty() by {
                            assert(left.intersect(class_of(ms[depth as int], q0, idx, c)).subset_of(
                                bucket,
                            ));
                            assert(rest.intersect(class_of(ms[depth as int], q0, idx, c))
                                =~= Set::<u32>::empty());
                        }
                        lemma_ranking_skips(ms, depth as int, q0, idx, rest, at + 1, next_floor);
                        assert(ranking(ms, depth as int, q0, idx, left, at) == ranking(
                            ms,
                            depth + 1,
                            refined,
                            idx,
                            bucket,
                            0,
                        ) + ranking(ms, depth as int, q0, idx, rest, at + 1));
                    }
                    bitmap_subtract(&mut universe, &output.candidates);
                    proof {
                        ranking_rules@[depth as int].lemma_iterating_in_smaller_universe(
                            index.model(),
                            universe1,
                            members(universe),
                        );
                        assert(apart_from(before, members(output.candidates)));
                    }
                    let candidates = output.candidates;
                    let ghost bucket = members(candidates);
                    match rank(
                        index,
                        db_cache,
                        logger,
                        ranking_rules,
                        depth + 1,
                        candidates,
                        output.query,
                        wanted,
                        results,
                    ) {
                        Ok(()) => {},
                        Err(e) => {
                            outcome = Err(e);
                            looking = false;
                        },
                    }
                    proof {
                        assert(ranking_rules@[depth as int] == rules2[depth as int]);
                        if outcome is Ok {
                            let first = ranking(ms, depth + 1, refined, idx, bucket, 0);
                            let rest = ranking(
                                ms,
                                depth as int,
                                q0,
                                idx,
                                left.difference(bucket),
                                next_floor,
                            );
                            lemma_cut_twice(before + first, rest, wanted as int);
                            assert(before + (first + rest) =~= (before + first) + rest);
                        }
                        lemma_extended_twice(results0, before, results@, whole, bucket);
                        assert forall|k: int| 0 <= k < results@.len() implies !members(
                            universe,
                        ).contains(#[trigger] results@[k]) by {
                            if k < before.len() {
                                assert(results@.subrange(0, before.len() as int)[k] == results@[k]);
                                assert(results@[k] == before[k]);
                            }
                        }
                    }
                },
                Ok(None) => {
                    proof {
                        assert(rules1[depth as int].model() == ms[depth as int]);
                        assert(models(ranking_rules@) =~= ms);
                        let ceiling = (ms[depth as int].ceiling)(q0);
                        if floor <= ceiling {
                            lemma_ranking_skips(ms, depth as int, q0, idx, left, floor, ceiling);
                        }
                        assert(results@ + Seq::<u32>::empty() =~= results@);
                    }
                    looking = false;
                },
                Err(e) => {
                    proof {
                        assert(models(ranking_rules@) =~= ms);
                    }
                    outcome = Err(e);
                    looking = false;
                },
            }
        }
    }
    logger.end_iteration_ranking_rule(depth, &universe);
    ranking_rules[depth].end_iteration(index, db_cache, logger);
    outcome
}

/// Documents of a part of the universe, added after documents of the
/// universe, are still documents of the universe.
proof fn lemma_extended_twice(
    first: Seq<u32>,
    second: Seq<u32>,
    third: Seq<u32>,
    universe: Set<u32>,
    part: Set<u32>,
)
    requires
        extended_within(first, second, universe),
        extended_within(second, third, part),
        part.subset_of(universe),
    ensures
        extended_within(first, third, universe),
{
    assert(third.subrange(0, first.len() as int) =~= first) by {
        assert forall|k: int| 0 <= k < first.len() implies third[k] == first[k] by {
            assert(second.subrange(0, first.len() as int)[k] == second[k]);
            assert(third.subrange(0, second.len() as int)[k] == third[k]);
        }
    }
    assert forall|k: int| first.len() <= k < third.len() implies universe.contains(
        #[trigger] third[k],
    ) by {
        if k < second.len() {
            assert(third.subrange(0, second.len() as int)[k] == third[k]);
            assert(universe.contains(second[k]));
        }
    }
}

/// Returns the documents of `universe` in the order of the ranking rules:
/// the buckets of the first rule one after the other, each sorted by the
/// second rule, and so on; the documents that the last rule leaves
/// together come in increasing order. Of this list, the first `from`
/// documents are left out and at most `length` are returned.
///
/// A rule is asked for buckets only while more than one document is left
/// to it: a single document goes to the results as it is. The documents of
/// a bucket leave the universe of the rule that gave it, so that no
/// document is returned twice. A rule that has no more bucket ends the
/// ranking of its universe. An error of a rule ends the search.
///
/// Without any rule, the result is the documents of the universe in
/// increasing order, less the first `from`, and cut to `length`.
///
/// The search succeeds when the index can be read and every rule can
/// start with the queries that can reach it. When it succeeds, the result
/// is the page of the `ranking` of the universe by the rules.
pub fn bucket_sort<R: RankingRule<Rc<QueryGraph>>, I: IndexSnapshot, L: SearchLogger>(
    index: &I,
    db_cache: &mut DatabaseCache,
    logger: &mut L,
    ranking_rules: &mut Vec<R>,
    universe: &RoaringBitmap,
    query: Rc<QueryGraph>,
    from: usize,
    length: usize,
) -> (r: Result<Vec<u32>, Error>)
    requires
        old(db_cache).wf(index.model()),
        R::accepts(&query),
    ensures
        final(db_cache).wf(index.model()),
        final(ranking_rules)@.len() == old(ranking_rules)@.len(),
        r matches Ok(results) ==> {
            &&& results@.len() <= length
            &&& results@.no_duplicates()
            &&& forall|k: int|
                0 <= k < results@.len() ==> members(*universe).contains(#[trigger] results@[k])
        },
        old(ranking_rules)@.len() == 0 || members(*universe).len() <= 1 ==> (r matches Ok(results)
            && results@ == page(in_order(members(*universe)), from as int, length as int)),
        models(final(ranking_rules)@) == models(old(ranking_rules)@),
        index.model().reliable && can_start(models(old(ranking_rules)@), 0, query) ==> r is Ok,
        r matches Ok(results) ==> results@ == page(
            cut(
                ranking(
                    models(old(ranking_rules)@),
                    0,
                    query,
                    index.model(),
                    members(*universe),
                    0,
                ),
                wanted_for(from, length),
            ),
            from as int,
            length as int,
        ),
        r matches Ok(results) ==> (from + length <= usize::MAX ==> results@ == page(
            ranking(models(old(ranking_rules)@), 0, query, index.model(), members(*universe), 0),
            from as int,
            length as int,
        )),
{
    let ghost whole_ranking = ranking(
        models(ranking_rules@),
        0,
        query,
        index.model(),
        members(*universe),
        0,
    );
    logger.initial_query(&query);
    logger.initial_universe(universe);
    let wanted = match from.checked_add(length) {
        Some(sum) => sum,
        None => usize::MAX,
    };
    let mut ranked: Vec<u32> = Vec::new();
    let outcome = rank(
        index,
        db_cache,
        logger,
        ranking_rules,
        0,
        bitmap_clone(universe),
        query,
        wanted,
        &mut ranked,
    );
    match outcome {
        Ok(()) => {},
        Err(e) => {
            return Err(e);
        },
    }
    let ghost exact = ranking_rules@.len() == 0 || members(*universe).len() <= 1;
    let ghost all = in_order(members(*universe));
    proof {
        if exact {
            assert(ranked@ == filled(Seq::empty(), members(*universe), wanted as int));
            assert(Seq::<u32>::empty() + all =~= all);
            assert(Seq::<u32>::empty() + all.take(wanted as int) =~= all.take(wanted as int));
        }
    }
    proof {
        assert(Seq::<u32>::empty() + whole_ranking =~= whole_ranking);
        assert(ranked@ == cut(whole_ranking, wanted as int));
        assert(wanted == wanted_for(from, length));
        if from + length <= usize::MAX {
            lemma_page_of_cut(whole_ranking, from as int, length as int, wanted as int);
        }
    }
    let mut results: Vec<u32> = Vec::new();
    if from >= ranked.len() {
        assert(exact ==> results@ =~= page(all, from as int, length as int));
        assert(results@ =~= page(ranked@, from as int, length as int));
        return Ok(results);
    }
    let mut i: usize = from;
    while i < ranked.len() && results.len() < length
        invariant
            from <= i <= ranked@.len(),
            results@.len() <= length,
            results@ == ranked@.subrange(from as int, i as int),
        decreases ranked@.len() - i,
    {
        results.push(ranked[i]);
        assert(ranked@.subrange(from as int, i + 1) == ranked@.subrange(
            from as int,
            i as int,
        ).push(ranked@[i as int]));
        i += 1;
    }
    proof {
        assert forall|k: int, l: int| 0 <= k < l < results@.len() implies results@[k]
            != results@[l] by {
            assert(results@[k] == ranked@[from + k]);
            assert(results@[l] == ranked@[from + l]);
        }
        assert forall|k: int| 0 <= k < results@.len() implies members(*universe).contains(
            #[trigger] results@[k],
        ) by {
            assert(results@[k] == ranked@[from + k]);
        }
        if exact {
            assert(results@ =~= page(all, from as int, length as int));
        }
        assert(results@ =~= page(ranked@, from as int, length as int));
    }
    Ok(results)
}

} // verus!
