//! The typo ranking rule: a query matches a document better when the
//! document holds the words of the query with fewer typos.

use vstd::prelude::*;
use roaring::RoaringBitmap;
use crate::bitmap::members;
use crate::db_cache::DatabaseCache;
use crate::error::Error;
use crate::index::{IndexModel, IndexSnapshot};
use crate::logger::SearchLogger;
use crate::query_graph::QueryNode;
use crate::query_term::QueryTerm;
use crate::ranking_rule_graph::empty_paths_cache::EmptyPathsCache;
use crate::ranking_rule_graph::paths_map::PathsMap;
use crate::ranking_rule_graph::{EdgeDetails, RankingRuleGraph, RankingRuleGraphTrait};

verus! {

/// The condition of a typo edge: the document holds `word`, or a word that
/// begins with it if `is_prefix`. The word is a variant of a word of the
/// query with `nbr_typos` typos.
#[derive(Debug)]
pub struct TypoWord {
    pub word: String,
    pub is_prefix: bool,
    pub nbr_typos: u8,
}

/// The graph of the typo rule.
#[derive(Debug)]
pub struct TypoGraph;

/// One edge for each of the first `k` words, at the cost of the number of
/// typos.
pub open spec fn word_edges(words: Seq<String>, nbr_typos: u8, k: int) -> Seq<
    (u8, EdgeDetails<TypoWord>),
>
    decreases k,
{
    if k <= 0 {
        Seq::empty()
    } else {
        word_edges(words, nbr_typos, k - 1).push(
            (
                nbr_typos,
                EdgeDetails::Data(TypoWord { word: words[k - 1], is_prefix: false, nbr_typos }),
            ),
        )
    }
}

/// The edge for the words that begin with `word`, at no cost.
pub open spec fn prefix_edge(word: String) -> (u8, EdgeDetails<TypoWord>) {
    (0u8, EdgeDetails::Data(TypoWord { word, is_prefix: true, nbr_typos: 0 }))
}

/// The edges of the typo rule that lead to a node of the query graph.
///
/// To a word: one edge for each variant of the word, at the cost of its
/// number of typos, the exact variants first; after the exact variants,
/// if the word is looked up in the prefix database, one edge at no cost
/// for the words that begin with the word as typed. To a phrase or to the
/// end node, one unconditional edge at no cost. No edge to the start node,
/// nor from or to a removed node.
pub open spec fn typo_edges(from: QueryNode, to: QueryNode) -> Seq<(u8, EdgeDetails<TypoWord>)> {
    match (from, to) {
        (QueryNode::Deleted, _) => Seq::empty(),
        (_, QueryNode::Deleted) => Seq::empty(),
        (_, QueryNode::Start) => Seq::empty(),
        (_, QueryNode::End) => seq![(0u8, EdgeDetails::Unconditional)],
        (_, QueryNode::Term(term)) => match term.value {
            QueryTerm::Phrase { .. } => seq![(0u8, EdgeDetails::Unconditional)],
            QueryTerm::Word { derivations } => {
                let exact = word_edges(derivations.zero_typo@, 0, derivations.zero_typo@.len() as int);
                let prefixed = if derivations.use_prefix_db {
                    exact.push(prefix_edge(derivations.original))
                } else {
                    exact
                };
                prefixed + word_edges(derivations.one_typo@, 1, derivations.one_typo@.len() as int)
                    + word_edges(derivations.two_typos@, 2, derivations.two_typos@.len() as int)
            },
        },
    }
}

fn push_word_edges(edges: &mut Vec<(u8, EdgeDetails<TypoWord>)>, words: &Vec<String>, nbr_typos: u8)
    ensures
        final(edges)@ == old(edges)@ + word_edges(words@, nbr_typos, words@.len() as int),
{
    let mut k: usize = 0;
    assert(edges@ =~= old(edges)@ + word_edges(words@, nbr_typos, 0));
    while k < words.len()
        invariant
            k <= words@.len(),
            edges@ == old(edges)@ + word_edges(words@, nbr_typos, k as int),
        decreases words@.len() - k,
    {
        let word = words[k].clone();
        edges.push((nbr_typos, EdgeDetails::Data(TypoWord { word, is_prefix: false, nbr_typos })));
        assert(edges@ =~= old(edges)@ + word_edges(words@, nbr_typos, k + 1));
        k += 1;
    }
}

impl RankingRuleGraphTrait for TypoGraph {
    type EdgeDetails = TypoWord;

    open spec fn edges_between(from: QueryNode, to: QueryNode) -> Seq<
        (u8, EdgeDetails<TypoWord>),
    > {
        typo_edges(from, to)
    }

    open spec fn edge_docids(details: TypoWord, index: IndexModel) -> Set<u32> {
        if details.is_prefix {
            (index.word_prefix_docids)(details.word@)
        } else {
            (index.word_docids)(details.word@)
        }
    }

    fn build_edges(from: &QueryNode, to: &QueryNode) -> (edges: Vec<(u8, EdgeDetails<TypoWord>)>) {
        let mut edges: Vec<(u8, EdgeDetails<TypoWord>)> = Vec::new();
        match (from, to) {
            (QueryNode::Deleted, _) => {},
            (_, QueryNode::Deleted) => {},
            (_, QueryNode::Start) => {},
            (_, QueryNode::End) => {
                edges.push((0u8, EdgeDetails::Unconditional));
                assert(edges@ =~= seq![(0u8, EdgeDetails::Unconditional)]);
            },
            (_, QueryNode::Term(term)) => match &term.value {
                QueryTerm::Phrase { .. } => {
                    edges.push((0u8, EdgeDetails::Unconditional));
                    assert(edges@ =~= seq![(0u8, EdgeDetails::Unconditional)]);
                },
                QueryTerm::Word { derivations } => {
                    push_word_edges(&mut edges, &derivations.zero_typo, 0);
                    assert(edges@ =~= word_edges(
                        derivations.zero_typo@,
                        0,
                        derivations.zero_typo@.len() as int,
                    ));
                    if derivations.use_prefix_db {
                        let word = derivations.original.clone();
                        edges.push(
                            (
                                0u8,
                                EdgeDetails::Data(TypoWord { word, is_prefix: true, nbr_typos: 0 }),
                            ),
                        );
                    }
                    push_word_edges(&mut edges, &derivations.one_typo, 1);
                    push_word_edges(&mut edges, &derivations.two_typos, 2);
                },
            },
        }
        edges
    }

    fn resolve_edge<I: IndexSnapshot>(
        details: &TypoWord,
        index: &I,
        db_cache: &mut DatabaseCache,
    ) -> (r: Result<RoaringBitmap, Error>) {
        if details.is_prefix {
            db_cache.get_word_prefix_docids(index, &details.word)
        } else {
            db_cache.get_word_docids(index, &details.word)
        }
    }

    fn log_state<L: SearchLogger>(
        graph: &RankingRuleGraph<TypoGraph>,
        paths: &PathsMap<u64>,
        empty_paths_cache: &EmptyPathsCache,
        logger: &mut L,
    ) {
    }
}

/// An edge of the typo rule costs the number of typos of its word, which
/// is at most two; an edge for a prefix costs nothing.
pub proof fn lemma_typo_edge_costs(from: QueryNode, to: QueryNode, i: int)
    requires
        0 <= i < typo_edges(from, to).len(),
    ensures
        typo_edges(from, to)[i].0 <= 2,
        typo_edges(from, to)[i].1 matches EdgeDetails::Data(word) ==> word.nbr_typos == typo_edges(
            from,
            to,
        )[i].0 && (word.is_prefix ==> word.nbr_typos == 0),
        typo_edges(from, to)[i].1 is Unconditional ==> typo_edges(from, to)[i].0 == 0,
{
    match (from, to) {
        (QueryNode::Deleted, _) => {},
        (_, QueryNode::Deleted) => {},
        (_, QueryNode::Term(term)) => match term.value {
            QueryTerm::Word { derivations } => {
                let n0 = derivations.zero_typo@.len() as int;
                let n1 = derivations.one_typo@.len() as int;
                let n2 = derivations.two_typos@.len() as int;
                let exact = word_edges(derivations.zero_typo@, 0, n0);
                let prefixed = if derivations.use_prefix_db {
                    exact.push(prefix_edge(derivations.original))
                } else {
                    exact
                };
                let one = word_edges(derivations.one_typo@, 1, n1);
                let two = word_edges(derivations.two_typos@, 2, n2);
                if i < exact.len() {
                    lemma_word_edges(derivations.zero_typo@, 0, n0, i);
                } else if i < prefixed.len() {
                } else if i < prefixed.len() + one.len() {
                    lemma_word_edges(derivations.one_typo@, 1, n1, i - prefixed.len());
                } else {
                    lemma_word_edges(derivations.two_typos@, 2, n2, i - prefixed.len() - one.len());
                }
            },
            _ => {},
        },
        _ => {},
    }
}

proof fn lemma_word_edges(words: Seq<String>, nbr_typos: u8, k: int, i: int)
    requires
        0 <= i < word_edges(words, nbr_typos, k).len(),
    ensures
        word_edges(words, nbr_typos, k)[i].0 == nbr_typos,
        word_edges(words, nbr_typos, k)[i].1 matches EdgeDetails::Data(word) && word.nbr_typos
            == nbr_typos && !word.is_prefix,
    decreases k,
{
    if k > 0 && i < word_edges(words, nbr_typos, k - 1).len() {
        lemma_word_edges(words, nbr_typos, k - 1, i);
    }
}

} // verus!
