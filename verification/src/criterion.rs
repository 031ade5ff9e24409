//! The ranking rules that a search can be configured with.

use vstd::prelude::*;
use std::rc::Rc;
use roaring::RoaringBitmap;
use crate::bitmap::members;
use crate::bucket_sort::{
    can_start, lemma_can_start_unrefined, models, refined_for, starts_for,
};
use crate::db_cache::DatabaseCache;
use crate::error::Error;
use crate::graph_based_ranking_rule::GraphBasedRankingRule;
use crate::index::{IndexModel, IndexSnapshot};
use crate::logger::SearchLogger;
use crate::query_graph::QueryGraph;
use crate::ranking_rule::{bucket_at, RankingRule, RankingRuleOutput, RuleModel};
use crate::ranking_rule_graph::proximity::ProximityGraph;
use crate::ranking_rule_graph::typo::TypoGraph;

verus! {

/// The name of a ranking rule.
#[derive(Debug, Clone, Copy, PartialEq, Eq, Structural)]
pub enum Criterion {
    Words,
    Typo,
    Proximity,
    Attribute,
    Exactness,
}

impl Criterion {
    /// The rule that a name stands for, if the name is known.
    pub open spec fn spec_parse(name: Seq<char>) -> Option<Criterion> {
        if name == "words"@ {
            Some(Criterion::Words)
        } else if name == "typo"@ {
            Some(Criterion::Typo)
        } else if name == "proximity"@ {
            Some(Criterion::Proximity)
        } else if name == "attribute"@ {
            Some(Criterion::Attribute)
        } else if name == "exactness"@ {
            Some(Criterion::Exactness)
        } else {
            None
        }
    }

    /// Reads the name of a ranking rule. A name that is not known is
    /// refused with `InvalidQuery`, which holds the name.
    pub fn parse(name: &String) -> (r: Result<Criterion, Error>)
        ensures
            match Self::spec_parse(name@) {
                Some(criterion) => r == Ok::<Criterion, Error>(criterion),
                None => (r matches Err(
                    Error::InvalidQuery { parameter: Some(parameter), field, value },
                ) && parameter@ == "rankingRules"@ && field@ == "rankingRules"@ && value@
                    == name@),
            },
    {
        if *name == "words".to_owned() {
            Ok(Criterion::Words)
        } else if *name == "typo".to_owned() {
            Ok(Criterion::Typo)
        } else if *name == "proximity".to_owned() {
            Ok(Criterion::Proximity)
        } else if *name == "attribute".to_owned() {
            Ok(Criterion::Attribute)
        } else if *name == "exactness".to_owned() {
            Ok(Criterion::Exactness)
        } else {
            Err(
                Error::InvalidQuery {
                    parameter: Some("rankingRules".to_owned()),
                    field: "rankingRules".to_owned(),
                    value: name.clone(),
                },
            )
        }
    }

    /// The name of the rule.
    pub fn name(&self) -> (name: &'static str)
        ensures
            Self::spec_parse(name@) == Some(*self),
    {
        proof {
            reveal_strlit("words");
            reveal_strlit("typo");
            reveal_strlit("proximity");
            reveal_strlit("attribute");
            reveal_strlit("exactness");
            assert("typo"@.len() != "words"@.len());
            assert("proximity"@.len() != "words"@.len());
            assert("proximity"@.len() != "typo"@.len());
            assert("attribute"@[0] != "proximity"@[0]);
            assert("attribute"@.len() != "words"@.len());
            assert("attribute"@.len() != "typo"@.len());
            assert("exactness"@[0] != "proximity"@[0]);
            assert("exactness"@[0] != "attribute"@[0]);
            assert("exactness"@.len() != "words"@.len());
            assert("exactness"@.len() != "typo"@.len());
        }
        match self {
            Criterion::Words => "words",
            Criterion::Typo => "typo",
            Criterion::Proximity => "proximity",
            Criterion::Attribute => "attribute",
            Criterion::Exactness => "exactness",
        }
    }
}

/// A ranking rule of one of the kinds that work on a graph.
pub enum GraphRankingRule {
    Typo(GraphBasedRankingRule<TypoGraph>),
    Proximity(GraphBasedRankingRule<ProximityGraph>),
}

impl GraphRankingRule {
    /// The rule of the given name, idle, if the rule is one that works on a
    /// graph: `typo` or `proximity`.
    pub fn new(criterion: Criterion) -> (rule: Option<GraphRankingRule>)
        ensures
            match criterion {
                Criterion::Typo => rule matches Some(GraphRankingRule::Typo(inner))
                    && inner.state is None && inner.id@ == "typo"@,
                Criterion::Proximity => rule matches Some(GraphRankingRule::Proximity(inner))
                    && inner.state is None && inner.id@ == "proximity"@,
                _ => rule is None,
            },
    {
        match criterion {
            Criterion::Typo => Some(
                GraphRankingRule::Typo(GraphBasedRankingRule::new("typo".to_owned())),
            ),
            Criterion::Proximity => Some(
                GraphRankingRule::Proximity(GraphBasedRankingRule::new("proximity".to_owned())),
            ),
            _ => None,
        }
    }
}

impl GraphRankingRule {
    /// What the start of an iteration over `query` makes of the rule: the
    /// rule stays of its kind, and the rule inside starts its iteration.
    pub open spec fn starts(
        self,
        after: Self,
        index: IndexModel,
        query: QueryGraph,
        r: Result<(), Error>,
    ) -> bool {
        match (self, after) {
            (GraphRankingRule::Typo(before), GraphRankingRule::Typo(now)) => before.starts(
                now,
                index,
                query,
                r,
            ),
            (
                GraphRankingRule::Proximity(before),
                GraphRankingRule::Proximity(now),
            ) => before.starts(now, index, query, r),
            _ => false,
        }
    }

    /// What a bucket asked of the rule over `universe` makes of the rule,
    /// and what it answers: the rule stays of its kind, and the answer is
    /// that of the rule inside.
    pub open spec fn gives(
        self,
        after: Self,
        index: IndexModel,
        universe: Set<u32>,
        r: Result<Option<RankingRuleOutput<Rc<QueryGraph>>>, Error>,
    ) -> bool {
        match (self, after) {
            (GraphRankingRule::Typo(before), GraphRankingRule::Typo(now)) => before.gives(
                now,
                index,
                universe,
                r,
            ),
            (
                GraphRankingRule::Proximity(before),
                GraphRankingRule::Proximity(now),
            ) => before.gives(now, index, universe, r),
            _ => false,
        }
    }

    /// What the end of an iteration makes of the rule: the rule stays of
    /// its kind, and the rule inside has no state any more.
    pub open spec fn ends(self, after: Self) -> bool {
        match (self, after) {
            (GraphRankingRule::Typo(before), GraphRankingRule::Typo(now)) => before.ends(now),
            (GraphRankingRule::Proximity(before), GraphRankingRule::Proximity(now)) => before.ends(
                now,
            ),
            _ => false,
        }
    }
}

/// Rules that work on a graph hand the query down as it is: they can all
/// start if each of them can start with the query of the search.
pub proof fn lemma_graph_rules_can_start(rules: Seq<GraphRankingRule>, query: Rc<QueryGraph>)
    requires
        forall|j: int| 0 <= j < rules.len() ==> starts_for((#[trigger] rules[j]).model(), query),
    ensures
        can_start(models(rules), 0, query),
{
    let ms = models(rules);
    assert forall|j: int, q: Rc<QueryGraph>, c: int| 0 <= j < ms.len() implies #[trigger] refined_for(
        ms[j],
        q,
        c,
    ) == q by {
        assert(ms[j] == rules[j].model());
    }
    assert forall|j: int| 0 <= j < ms.len() implies starts_for(#[trigger] ms[j], query) by {
        assert(ms[j] == rules[j].model());
    }
    lemma_can_start_unrefined(ms, 0, query);
}

impl RankingRule<Rc<QueryGraph>> for GraphRankingRule {
    open spec fn accepts(query: &Rc<QueryGraph>) -> bool {
        query.wf()
    }

    open spec fn iterating(&self, index: IndexModel, universe: Set<u32>) -> bool {
        match self {
            GraphRankingRule::Typo(rule) => rule.iterating(index, universe),
            GraphRankingRule::Proximity(rule) => rule.iterating(index, universe),
        }
    }

    open spec fn model(&self) -> RuleModel<Rc<QueryGraph>> {
        match self {
            GraphRankingRule::Typo(rule) => rule.model(),
            GraphRankingRule::Proximity(rule) => rule.model(),
        }
    }

    open spec fn query(&self) -> Rc<QueryGraph> {
        match self {
            GraphRankingRule::Typo(rule) => rule.query(),
            GraphRankingRule::Proximity(rule) => rule.query(),
        }
    }

    open spec fn floor(&self) -> int {
        match self {
            GraphRankingRule::Typo(rule) => rule.floor(),
            GraphRankingRule::Proximity(rule) => rule.floor(),
        }
    }

    open spec fn remaining(&self) -> nat {
        match self {
            GraphRankingRule::Typo(rule) => rule.remaining(),
            GraphRankingRule::Proximity(rule) => rule.remaining(),
        }
    }

    proof fn lemma_iterating_in_smaller_universe(
        &self,
        index: IndexModel,
        universe: Set<u32>,
        smaller: Set<u32>,
    ) {
        match self {
            GraphRankingRule::Typo(rule) => rule.lemma_iterating_in_smaller_universe(
                index,
                universe,
                smaller,
            ),
            GraphRankingRule::Proximity(rule) => rule.lemma_iterating_in_smaller_universe(
                index,
                universe,
                smaller,
            ),
        }
    }

    fn id(&self) -> (id: String)
        ensures
            id == (match self {
                GraphRankingRule::Typo(rule) => rule.id,
                GraphRankingRule::Proximity(rule) => rule.id,
            }),
    {
        match self {
            GraphRankingRule::Typo(rule) => rule.id(),
            GraphRankingRule::Proximity(rule) => rule.id(),
        }
    }

    fn start_iteration<I: IndexSnapshot, L: SearchLogger>(
        &mut self,
        index: &I,
        db_cache: &mut DatabaseCache,
        logger: &mut L,
        universe: &RoaringBitmap,
        query: Rc<QueryGraph>,
    ) -> (r: Result<(), Error>)
        ensures
            *final(db_cache) == *old(db_cache),
            old(self).starts(*final(self), index.model(), *query, r),
    {
        match self {
            GraphRankingRule::Typo(rule) => rule.start_iteration(
                index,
                db_cache,
                logger,
                universe,
                query,
            ),
            GraphRankingRule::Proximity(rule) => rule.start_iteration(
                index,
                db_cache,
                logger,
                universe,
                query,
            ),
        }
    }

    fn next_bucket<I: IndexSnapshot, L: SearchLogger>(
        &mut self,
        index: &I,
        db_cache: &mut DatabaseCache,
        logger: &mut L,
        universe: &RoaringBitmap,
    ) -> (r: Result<Option<RankingRuleOutput<Rc<QueryGraph>>>, Error>)
        ensures
            old(self).gives(*final(self), index.model(), members(*universe), r),
    {
        let ghost mut at: int = 0;
        let r = match self {
            GraphRankingRule::Typo(rule) => {
                let ghost inner = *rule;
                let r = rule.next_bucket(index, db_cache, logger, universe);
                proof {
                    if r matches Ok(Some(_)) {
                        let output = r->Ok_0->Some_0;
                        let cost = choose|cost: int| #[trigger]
                            bucket_at(
                                inner.model(),
                                inner.query(),
                                index.model(),
                                members(*universe),
                                (inner.floor(), rule.floor()),
                                output,
                                cost,
                            );
                        assert(bucket_at(
                            inner.model(),
                            inner.query(),
                            index.model(),
                            members(*universe),
                            (inner.floor(), rule.floor()),
                            output,
                            cost,
                        ));
                        at = cost;
                    }
                }
                r
            },
            GraphRankingRule::Proximity(rule) => {
                let ghost inner = *rule;
                let r = rule.next_bucket(index, db_cache, logger, universe);
                proof {
                    if r matches Ok(Some(_)) {
                        let output = r->Ok_0->Some_0;
                        let cost = choose|cost: int| #[trigger]
                            bucket_at(
                                inner.model(),
                                inner.query(),
                                index.model(),
                                members(*universe),
                                (inner.floor(), rule.floor()),
                                output,
                                cost,
                            );
                        assert(bucket_at(
                            inner.model(),
                            inner.query(),
                            index.model(),
                            members(*universe),
                            (inner.floor(), rule.floor()),
                            output,
                            cost,
                        ));
                        at = cost;
                    }
                }
                r
            },
        };
        proof {
            if r matches Ok(Some(_)) {
                assert(bucket_at(
                    old(self).model(),
                    old(self).query(),
                    index.model(),
                    members(*universe),
                    (old(self).floor(), self.floor()),
                    r->Ok_0->Some_0,
                    at,
                ));
            }
        }
        r
    }

    fn end_iteration<I: IndexSnapshot, L: SearchLogger>(
        &mut self,
        index: &I,
        db_cache: &mut DatabaseCache,
        logger: &mut L,
    )
        ensures
            *final(db_cache) == *old(db_cache),
            old(self).ends(*final(self)),
    {
        match self {
            GraphRankingRule::Typo(rule) => rule.end_iteration(index, db_cache, logger),
            GraphRankingRule::Proximity(rule) => rule.end_iteration(index, db_cache, logger),
        }
    }
}

} // verus!
