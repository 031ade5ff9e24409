//! The ranking core of a search engine.
//!
//! A query becomes a graph of terms (`query_graph`). Each ranking rule
//! derives from it a graph whose edges have a cost and match documents
//! (`ranking_rule_graph`), and hands out the documents in buckets, those
//! matched by the cheapest paths first (`graph_based_ranking_rule`). The
//! pipeline (`bucket_sort`) sorts the documents by the first rule, then
//! within each bucket by the next one.
//!
//! A search can be observed (`logger`): the detailed logger keeps every
//! event and draws the course of the search afterwards.
//!
//! Around this core stand the keys under which the index stores its data,
//! the extraction of word pairs from documents, and the filters of the task
//! routes.

use vstd::prelude::*;

pub mod bitmap;
pub mod error;
pub mod proximity;
pub mod text;
pub mod query_term;
pub mod query_graph;
pub mod index;
pub mod db_cache;
pub mod ranking_rule_graph;
pub mod logger;
pub mod ranking_rule;
pub mod graph_based_ranking_rule;
pub mod bucket_sort;
pub mod criterion;
pub mod extract_word_pair_proximity_docids;
pub mod store;
pub mod star_or;
pub mod datetime;
pub mod routes;

verus! {

/// Identifier of a document in the index.
pub type DocumentId = u32;

/// Identifier of an attribute of the documents.
pub type AttributeId = u16;

} // verus!
