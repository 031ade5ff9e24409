//! The course of a search drawn in the D2 language: a sequence diagram of
//! the calls between the ranking rules, and a drawing of each state that a
//! rule showed.

use vstd::prelude::*;
use vstd::string::StringExecFns;
use roaring::RoaringBitmap;
use crate::logger::detailed::{
    counters_after, counters_upto, Activation, DetailedSearchLogger, SearchEvents,
};
use crate::logger::EventKind;
use crate::bitmap::{bitmap_len, in_order, members, sorted_ids};
use crate::error::Error;
use crate::query_graph::{graph_of, QueryGraph, QueryNode};
use crate::query_term::QueryTerm;
use crate::ranking_rule_graph::empty_paths_cache::EmptyPathsCache;
use crate::ranking_rule_graph::paths_map::{
    lemma_same_edges_child, same_edges, same_edges_upto, PathsMap,
};
use crate::ranking_rule_graph::proximity::{ProximityGraph, WordPair};
use crate::ranking_rule_graph::{Edge, EdgeDetails, RankingRuleGraph};
use crate::text::{decimal, decimal_text, numbers_text, numbers_text_of};

verus! {

/// The name of an activation in the sequence diagram: a zero, then the
/// counters of the iterations under way, outermost first.
pub open spec fn activated_id(counters: Seq<usize>) -> Seq<char>
    decreases counters.len(),
{
    if counters.len() == 0 {
        "0"@
    } else {
        activated_id(counters.drop_last()) + decimal(counters.last() as nat)
    }
}

/// Writes the name of an activation.
pub fn activated_id_text(counters: &Vec<usize>) -> (text: String)
    ensures
        text@ == activated_id(counters@),
{
    let mut text = "0".to_owned();
    let mut i: usize = 0;
    assert(counters@.take(0) =~= Seq::<usize>::empty());
    while i < counters.len()
        invariant
            i <= counters@.len(),
            text@ == activated_id(counters@.take(i as int)),
        decreases counters@.len() - i,
    {
        text.append(decimal_text(counters[i] as u64).as_str());
        proof {
            assert(counters@.take(i + 1).drop_last() == counters@.take(i as int));
            assert(counters@.take(i + 1).last() == counters@[i as int]);
        }
        i += 1;
    }
    assert(counters@.take(counters@.len() as int) == counters@);
    text
}

/// An actor of the sequence diagram: a ranking rule at one of its
/// activations.
pub open spec fn actor(rule: nat, counters: Seq<usize>) -> Seq<char> {
    decimal(rule) + "."@ + activated_id(counters)
}

/// Writes an actor of the sequence diagram.
pub fn actor_text(rule: usize, counters: &Vec<usize>) -> (text: String)
    ensures
        text@ == actor(rule as nat, counters@),
{
    let mut text = decimal_text(rule as u64);
    text.append(".");
    text.append(activated_id_text(counters).as_str());
    text
}

/// An arrow of the sequence diagram, with its label and the end of the
/// line.
pub open spec fn arrow(from: Seq<char>, to: Seq<char>, label: Seq<char>) -> Seq<char> {
    from + " -> "@ + to + label
}

fn arrow_text(from: String, to: &String, label: &str) -> (text: String)
    ensures
        text@ == arrow(from@, to@, label@),
{
    let mut text = from;
    text.append(" -> ");
    text.append(to.as_str());
    text.append(label);
    text
}

/// What the start of an iteration draws: for a rule other than the first,
/// an arrow from the rule before; then the new activation, coloured.
pub open spec fn start_text(rule: nat, before: Seq<usize>, after: Seq<usize>) -> Seq<char> {
    let activation = actor(rule, after) + " {\n    style {\n        fill: \"#D8A7B1\"\n    }\n}\n"@;
    if rule != 0 {
        arrow(actor((rule - 1) as nat, before), actor(rule, after), " : start iteration\n"@)
            + activation
    } else {
        activation
    }
}

/// What a bucket asked draws: an arrow from the activation to the next
/// one.
pub open spec fn next_text(rule: nat, before: Seq<usize>, after: Seq<usize>) -> Seq<char> {
    arrow(actor(rule, before), actor(rule, after), " : next bucket\n"@)
}

/// What a bucket skipped draws: an arrow that tells the number of its
/// candidates.
pub open spec fn skip_text(
    rule: nat,
    before: Seq<usize>,
    after: Seq<usize>,
    candidates: nat,
) -> Seq<char> {
    arrow(actor(rule, before), actor(rule, after), " : skip bucket ("@) + decimal(candidates)
        + ")\n"@
}

/// What the end of an iteration draws: an arrow back to the rule before,
/// or to the start for the first rule.
pub open spec fn end_text(rule: nat, before: Seq<usize>, after: Seq<usize>) -> Seq<char> {
    if rule == 0 {
        arrow(actor(rule, before), "start"@, " : end iteration\n"@)
    } else {
        arrow(actor(rule, before), actor((rule - 1) as nat, after), " : end iteration\n"@)
    }
}

/// The rule at work, given the counters: the innermost one.
pub open spec fn current_rule(counters: Seq<usize>) -> nat {
    (counters.len() - 1) as nat
}

/// What results draw: nothing if they are empty; otherwise an arrow to a
/// box of the results, named with `id`, that tells how many documents come
/// and which.
pub open spec fn results_text(new: Seq<u32>, before: Seq<usize>, id: u64) -> Seq<char> {
    if new.len() == 0 {
        Seq::empty()
    } else {
        actor(current_rule(before), before) + " -> results."@ + decimal(id as nat)
            + " : \"add "@ + decimal(new.len()) + "\"\nresults."@ + decimal(id as nat)
            + " {\n    tooltip: \""@ + numbers_text(new)
            + "\"\n    style {\n        fill: \"#B6E2D3\"\n    }\n}\n\n"@
    }
}

/// What a state of a rule draws: a link to the drawing of the state, which
/// has the name of the actor.
pub open spec fn state_text(before: Seq<usize>) -> Seq<char> {
    actor(current_rule(before), before) + " {\n    link: \""@ + actor(
        current_rule(before),
        before,
    ) + ".d2.svg\"\n}\n"@
}

/// What an event draws in the sequence diagram, given the counters before
/// and after it and, for results, the name of their box.
pub open spec fn event_text(
    kind: EventKind,
    before: Seq<usize>,
    after: Seq<usize>,
    id: u64,
) -> Seq<char> {
    match kind {
        EventKind::Start { rule } => start_text(rule as nat, before, after),
        EventKind::Next { rule } => next_text(rule as nat, before, after),
        EventKind::Skip { rule, candidates } => skip_text(rule as nat, before, after, candidates),
        EventKind::End { rule } => end_text(rule as nat, before, after),
        EventKind::Results { new } => results_text(new, before, id),
        EventKind::Words { .. } => state_text(before),
        EventKind::Proximity { .. } => state_text(before),
    }
}

/// Writes what the start of an iteration draws.
pub fn start_line(rule: usize, before: &Vec<usize>, after: &Vec<usize>) -> (text: String)
    ensures
        text@ == start_text(rule as nat, before@, after@),
{
    let own = actor_text(rule, after);
    if rule != 0 {
        let mut text = arrow_text(actor_text(rule - 1, before), &own, " : start iteration\n");
        text.append(own.as_str());
        text.append(" {\n    style {\n        fill: \"#D8A7B1\"\n    }\n}\n");
        assert(text@ =~= start_text(rule as nat, before@, after@));
        text
    } else {
        let mut text = own;
        text.append(" {\n    style {\n        fill: \"#D8A7B1\"\n    }\n}\n");
        text
    }
}

/// Writes what a bucket asked draws.
pub fn next_line(rule: usize, before: &Vec<usize>, after: &Vec<usize>) -> (text: String)
    ensures
        text@ == next_text(rule as nat, before@, after@),
{
    arrow_text(actor_text(rule, before), &actor_text(rule, after), " : next bucket\n")
}

/// Writes what a bucket skipped draws.
pub fn skip_line(rule: usize, before: &Vec<usize>, after: &Vec<usize>, candidates: u64) -> (text:
    String)
    ensures
        text@ == skip_text(rule as nat, before@, after@, candidates as nat),
{
    let mut text = arrow_text(
        actor_text(rule, before),
        &actor_text(rule, after),
        " : skip bucket (",
    );
    text.append(decimal_text(candidates).as_str());
    text.append(")\n");
    text
}

/// Writes what the end of an iteration draws.
pub fn end_line(rule: usize, before: &Vec<usize>, after: &Vec<usize>) -> (text: String)
    ensures
        text@ == end_text(rule as nat, before@, after@),
{
    if rule == 0 {
        arrow_text(actor_text(rule, before), &"start".to_owned(), " : end iteration\n")
    } else {
        arrow_text(actor_text(rule, before), &actor_text(rule - 1, after), " : end iteration\n")
    }
}

/// Writes what results draw. The counters hold an iteration, unless the
/// results are empty.
pub fn results_line(new: &Vec<u32>, before: &Vec<usize>, id: u64) -> (text: String)
    requires
        new@.len() == 0 || before@.len() > 0,
    ensures
        text@ == results_text(new@, before@, id),
{
    if new.len() == 0 {
        return String::new();
    }
    let mut text = actor_text(before.len() - 1, before);
    text.append(" -> results.");
    text.append(decimal_text(id).as_str());
    text.append(" : \"add ");
    text.append(decimal_text(new.len() as u64).as_str());
    text.append("\"\nresults.");
    text.append(decimal_text(id).as_str());
    text.append(" {\n    tooltip: \"");
    text.append(numbers_text_of(new).as_str());
    text.append("\"\n    style {\n        fill: \"#B6E2D3\"\n    }\n}\n\n");
    text
}

/// Writes what a state of a rule draws. The counters hold an iteration.
pub fn state_line(before: &Vec<usize>) -> (text: String)
    requires
        before@.len() > 0,
    ensures
        text@ == state_text(before@),
{
    let name = actor_text(before.len() - 1, before);
    let mut text = actor_text(before.len() - 1, before);
    text.append(" {\n    link: \"");
    text.append(name.as_str());
    text.append(".d2.svg\"\n}\n");
    text
}

/// The first `n` words of a list, separated by spaces.
pub open spec fn joined(words: Seq<String>, n: int) -> Seq<char>
    decreases n,
{
    if n <= 0 {
        Seq::empty()
    } else if n == 1 {
        words[0]@
    } else {
        joined(words, n - 1) + " "@ + words[n - 1]@
    }
}

/// Writes the words of a list, separated by spaces.
pub fn joined_text(words: &Vec<String>) -> (text: String)
    ensures
        text@ == joined(words@, words@.len() as int),
{
    let mut text = String::new();
    let mut i: usize = 0;
    while i < words.len()
        invariant
            i <= words@.len(),
            text@ == joined(words@, i as int),
        decreases words@.len() - i,
    {
        if i > 0 {
            text.append(" ");
            text.append(words[i].as_str());
        } else {
            text.append(words[i].as_str());
            assert(text@ =~= words@[0]@);
        }
        i += 1;
    }
    text
}

/// The first `n` variants of a word as lines of a class, each with its
/// number of typos.
pub open spec fn variants_text(words: Seq<String>, typos: Seq<char>, n: int) -> Seq<char>
    decreases n,
{
    if n <= 0 {
        Seq::empty()
    } else {
        variants_text(words, typos, n - 1) + "\""@ + words[n - 1]@ + "\" : "@ + typos + "\n"@
    }
}

fn variants_lines(words: &Vec<String>, typos: &str) -> (text: String)
    ensures
        text@ == variants_text(words@, typos@, words@.len() as int),
{
    let mut text = String::new();
    let mut i: usize = 0;
    while i < words.len()
        invariant
            i <= words@.len(),
            text@ == variants_text(words@, typos@, i as int),
        decreases words@.len() - i,
    {
        text.append("\"");
        text.append(words[i].as_str());
        text.append("\" : ");
        text.append(typos);
        text.append("\n");
        i += 1;
    }
    text
}

/// The drawing of a node of the query graph: a word is a class with its
/// variants, each with its number of typos, and with a line that tells
/// whether the prefix database is used; a phrase is its words; the start
/// and the end are named. A removed node has no drawing.
pub open spec fn node_text(node_idx: nat, node: QueryNode) -> Seq<char> {
    match node {
        QueryNode::Term(term) => match term.value {
            QueryTerm::Phrase { words } => decimal(node_idx) + " : \""@ + joined(
                words@,
                words@.len() as int,
            ) + "\"\n"@,
            QueryTerm::Word { derivations } => decimal(node_idx) + " : \""@ + derivations.original@
                + "\" {\nshape: class\n"@ + variants_text(
                derivations.zero_typo@,
                "0"@,
                derivations.zero_typo@.len() as int,
            ) + variants_text(derivations.one_typo@, "1"@, derivations.one_typo@.len() as int)
                + variants_text(derivations.two_typos@, "2"@, derivations.two_typos@.len() as int)
                + (if derivations.use_prefix_db {
                "use prefix DB : true\n"@
            } else {
                Seq::empty()
            }) + "}\n"@,
        },
        QueryNode::Deleted => Seq::empty(),
        QueryNode::Start => decimal(node_idx) + " : START\n"@,
        QueryNode::End => decimal(node_idx) + " : END\n"@,
    }
}

/// Writes the drawing of a node of the query graph.
pub fn query_node_d2_desc(node_idx: usize, node: &QueryNode) -> (text: String)
    ensures
        text@ == node_text(node_idx as nat, *node),
{
    let mut text = decimal_text(node_idx as u64);
    match node {
        QueryNode::Term(term) => match &term.value {
            QueryTerm::Phrase { words } => {
                text.append(" : \"");
                text.append(joined_text(words).as_str());
                text.append("\"\n");
            },
            QueryTerm::Word { derivations } => {
                text.append(" : \"");
                text.append(derivations.original.as_str());
                text.append("\" {\nshape: class\n");
                text.append(variants_lines(&derivations.zero_typo, "0").as_str());
                text.append(variants_lines(&derivations.one_typo, "1").as_str());
                text.append(variants_lines(&derivations.two_typos, "2").as_str());
                let prefix_line = if derivations.use_prefix_db {
                    "use prefix DB : true\n"
                } else {
                    ""
                };
                proof {
                    reveal_strlit("");
                    assert(""@ =~= Seq::<char>::empty());
                }
                text.append(prefix_line);
                text.append("}\n");
            },
        },
        QueryNode::Deleted => {
            return String::new();
        },
        QueryNode::Start => {
            text.append(" : START\n");
        },
        QueryNode::End => {
            text.append(" : END\n");
        },
    }
    text
}

/// The arrows from a node to its first `n` successors.
pub open spec fn successors_text(node: nat, successors: Seq<u32>, n: int) -> Seq<char>
    decreases n,
{
    if n <= 0 {
        Seq::empty()
    } else {
        successors_text(node, successors, n - 1) + decimal(node) + " -> "@ + decimal(
            successors[n - 1] as nat,
        ) + ";\n\n"@
    }
}

/// The drawings of the first `n` nodes of a query graph, each live node
/// with the arrows to its successors.
pub open spec fn nodes_text(graph: QueryGraph, n: int) -> Seq<char>
    decreases n,
{
    if n <= 0 {
        Seq::empty()
    } else if graph.nodes@[n - 1] is Deleted {
        nodes_text(graph, n - 1)
    } else {
        nodes_text(graph, n - 1) + node_text((n - 1) as nat, graph.nodes@[n - 1])
            + successors_text(
            (n - 1) as nat,
            graph.edges@[n - 1].successors@,
            graph.edges@[n - 1].successors@.len() as int,
        )
    }
}

/// The drawing of a query graph: its live nodes, from left to right, each
/// with the arrows to its successors.
pub open spec fn query_graph_text(graph: QueryGraph) -> Seq<char> {
    "direction: right\n"@ + nodes_text(graph, graph.nodes@.len() as int)
}

fn successors_lines(node: usize, successors: &Vec<u32>) -> (text: String)
    ensures
        text@ == successors_text(node as nat, successors@, successors@.len() as int),
{
    let mut text = String::new();
    let mut i: usize = 0;
    while i < successors.len()
        invariant
            i <= successors@.len(),
            text@ == successors_text(node as nat, successors@, i as int),
        decreases successors@.len() - i,
    {
        text.append(decimal_text(node as u64).as_str());
        text.append(" -> ");
        text.append(decimal_text(successors[i] as u64).as_str());
        text.append(";\n\n");
        i += 1;
    }
    text
}

/// Writes the drawing of a query graph. The graph has a list of
/// neighbours for each node.
pub fn query_graph_d2_description(query_graph: &QueryGraph) -> (text: String)
    requires
        query_graph.edges@.len() == query_graph.nodes@.len(),
    ensures
        text@ == query_graph_text(*query_graph),
{
    let mut text = "direction: right\n".to_owned();
    let mut node: usize = 0;
    assert(text@ =~= "direction: right\n"@ + nodes_text(*query_graph, 0));
    while node < query_graph.nodes.len()
        invariant
            node <= query_graph.nodes@.len(),
            query_graph.edges@.len() == query_graph.nodes@.len(),
            text@ == "direction: right\n"@ + nodes_text(*query_graph, node as int),
        decreases query_graph.nodes@.len() - node,
    {
        let deleted = match &query_graph.nodes[node] {
            QueryNode::Deleted => true,
            _ => false,
        };
        if !deleted {
            text.append(query_node_d2_desc(node, &query_graph.nodes[node]).as_str());
            text.append(successors_lines(node, &query_graph.edges[node].successors).as_str());
            assert(text@ =~= "direction: right\n"@ + nodes_text(*query_graph, node + 1));
        }
        node += 1;
    }
    text
}

/// The drawings of the live nodes among the first `n` nodes of a query
/// graph.
pub open spec fn live_nodes_text(graph: QueryGraph, n: int) -> Seq<char>
    decreases n,
{
    if n <= 0 {
        Seq::empty()
    } else if graph.nodes@[n - 1] is Deleted {
        live_nodes_text(graph, n - 1)
    } else {
        live_nodes_text(graph, n - 1) + node_text((n - 1) as nat, graph.nodes@[n - 1])
    }
}

fn live_nodes_lines(query_graph: &QueryGraph) -> (text: String)
    ensures
        text@ == live_nodes_text(*query_graph, query_graph.nodes@.len() as int),
{
    let mut text = String::new();
    let mut node: usize = 0;
    while node < query_graph.nodes.len()
        invariant
            node <= query_graph.nodes@.len(),
            text@ == live_nodes_text(*query_graph, node as int),
        decreases query_graph.nodes@.len() - node,
    {
        let deleted = match &query_graph.nodes[node] {
            QueryNode::Deleted => true,
            _ => false,
        };
        if !deleted {
            text.append(query_node_d2_desc(node, &query_graph.nodes[node]).as_str());
        }
        node += 1;
    }
    text
}

/// What a proximity edge asks, as the label of its arrow.
pub open spec fn edge_label(pair: WordPair) -> Seq<char> {
    pair.left@ + " "@ + pair.right@ + " "@ + decimal(pair.proximity as nat)
}

/// The arrow of an edge of the proximity graph, with its cost and what it
/// asks.
pub open spec fn edge_arrow(edge: Edge<WordPair>) -> Seq<char> {
    match edge.details {
        EdgeDetails::Unconditional => decimal(edge.from_node as nat) + " -> "@ + decimal(
            edge.to_node as nat,
        ) + " : \"always cost "@ + decimal(edge.cost as nat) + "\"\n"@,
        EdgeDetails::Data(pair) => decimal(edge.from_node as nat) + " -> "@ + decimal(
            edge.to_node as nat,
        ) + " : \"cost "@ + decimal(edge.cost as nat) + " "@ + edge_label(pair) + "\"\n"@,
    }
}

/// The arrows of the edges among the first `n` that were not removed.
pub open spec fn edges_text(edges: Seq<Option<Edge<WordPair>>>, n: int) -> Seq<char>
    decreases n,
{
    if n <= 0 {
        Seq::empty()
    } else {
        match edges[n - 1] {
            Some(edge) => edges_text(edges, n - 1) + edge_arrow(edge),
            None => edges_text(edges, n - 1),
        }
    }
}

fn edge_arrow_line(edge: &Edge<WordPair>) -> (text: String)
    ensures
        text@ == edge_arrow(*edge),
{
    let mut text = decimal_text(edge.from_node as u64);
    text.append(" -> ");
    text.append(decimal_text(edge.to_node as u64).as_str());
    match &edge.details {
        EdgeDetails::Unconditional => {
            text.append(" : \"always cost ");
            text.append(decimal_text(edge.cost as u64).as_str());
            text.append("\"\n");
        },
        EdgeDetails::Data(pair) => {
            text.append(" : \"cost ");
            text.append(decimal_text(edge.cost as u64).as_str());
            text.append(" ");
            let mut label = pair.left.clone();
            label.append(" ");
            label.append(pair.right.as_str());
            label.append(" ");
            label.append(decimal_text(pair.proximity as u64).as_str());
            text.append(label.as_str());
            text.append("\"\n");
        },
    }
    text
}

fn edges_lines(edges: &Vec<Option<Edge<WordPair>>>) -> (text: String)
    ensures
        text@ == edges_text(edges@, edges@.len() as int),
{
    let mut text = String::new();
    let mut i: usize = 0;
    while i < edges.len()
        invariant
            i <= edges@.len(),
            text@ == edges_text(edges@, i as int),
        decreases edges@.len() - i,
    {
        match &edges[i] {
            Some(edge) => {
                text.append(edge_arrow_line(edge).as_str());
            },
            None => {},
        }
        i += 1;
    }
    text
}

/// The name of a node at the end of an edge: the word as typed, the words
/// of the phrase, or the name of the start or of the end. A removed node
/// has no name.
pub open spec fn node_name(node: QueryNode) -> Option<Seq<char>> {
    match node {
        QueryNode::Term(term) => match term.value {
            QueryTerm::Phrase { words } => Some(joined(words@, words@.len() as int)),
            QueryTerm::Word { derivations } => Some(derivations.original@),
        },
        QueryNode::Deleted => None,
        QueryNode::Start => Some("START"@),
        QueryNode::End => Some("END"@),
    }
}

fn node_name_text(node: &QueryNode) -> (name: Option<String>)
    ensures
        match node_name(*node) {
            Some(text) => (name matches Some(n) && n@ == text),
            None => name is None,
        },
{
    match node {
        QueryNode::Term(term) => match &term.value {
            QueryTerm::Phrase { words } => Some(joined_text(words)),
            QueryTerm::Word { derivations } => Some(derivations.original.clone()),
        },
        QueryNode::Deleted => None,
        QueryNode::Start => Some("START".to_owned()),
        QueryNode::End => Some("END".to_owned()),
    }
}

/// The box of an edge in a drawing of paths, named `edge_id`: the names of
/// the two nodes of the edge and its cost. There is no box for an edge that
/// was removed or does not exist, or that touches a removed node.
pub open spec fn edge_box(
    graph: RankingRuleGraph<ProximityGraph>,
    edge_id: Seq<char>,
    e: u32,
) -> Option<Seq<char>> {
    let edge = graph.all_edges@[e as int]->Some_0;
    if e < graph.all_edges@.len() && graph.all_edges@[e as int] is Some && edge.from_node
        < graph.query_graph.nodes@.len() && edge.to_node < graph.query_graph.nodes@.len() {
        match (
            node_name(graph.query_graph.nodes@[edge.from_node as int]),
            node_name(graph.query_graph.nodes@[edge.to_node as int]),
        ) {
            (Some(from), Some(to)) => Some(
                edge_id + ": \""@ + from + "->"@ + to + " ["@ + decimal(edge.cost as nat)
                    + "]\" {\n            shape: class\n        }\n"@,
            ),
            _ => None,
        }
    } else {
        None
    }
}

/// Writes the box of an edge in a drawing of paths. An edge without box is
/// reported as `Internal`.
pub fn edge_d2_description(
    graph: &RankingRuleGraph<ProximityGraph>,
    edge_id: &String,
    edge_idx: u32,
) -> (r: Result<String, Error>)
    ensures
        match edge_box(*graph, edge_id@, edge_idx) {
            Some(text) => (r matches Ok(t) && t@ == text),
            None => (r matches Err(e) && e is Internal),
        },
{
    if edge_idx as usize >= graph.all_edges.len() {
        return Err(Error::Internal);
    }
    match &graph.all_edges[edge_idx as usize] {
        None => Err(Error::Internal),
        Some(edge) => {
            if edge.from_node as usize >= graph.query_graph.nodes.len() || edge.to_node as usize
                >= graph.query_graph.nodes.len() {
                return Err(Error::Internal);
            }
            let from = node_name_text(&graph.query_graph.nodes[edge.from_node as usize]);
            let to = node_name_text(&graph.query_graph.nodes[edge.to_node as usize]);
            match (from, to) {
                (Some(from), Some(to)) => {
                    let mut text = edge_id.clone();
                    text.append(": \"");
                    text.append(from.as_str());
                    text.append("->");
                    text.append(to.as_str());
                    text.append(" [");
                    text.append(decimal_text(edge.cost as u64).as_str());
                    text.append("]\" {\n            shape: class\n        }\n");
                    Ok(text)
                },
                _ => Err(Error::Internal),
            }
        },
    }
}

/// The arrows from the box named `edge_id` to the boxes of the first `n`
/// edges that follow it in the trie.
pub open spec fn follow_arrows<T>(
    edge_id: Seq<char>,
    children: Seq<(u32, PathsMap<T>)>,
    n: int,
) -> Seq<char>
    decreases n,
{
    if n <= 0 {
        Seq::empty()
    } else {
        follow_arrows(edge_id, children, n - 1) + edge_id + " -> "@ + edge_id + decimal(
            children[n - 1].0 as nat,
        ) + "\n"@
    }
}

fn follow_arrows_lines<T>(edge_id: &String, children: &Vec<(u32, PathsMap<T>)>) -> (text: String)
    ensures
        text@ == follow_arrows(edge_id@, children@, children@.len() as int),
{
    let mut text = String::new();
    let mut i: usize = 0;
    while i < children.len()
        invariant
            i <= children@.len(),
            text@ == follow_arrows(edge_id@, children@, i as int),
        decreases children@.len() - i,
    {
        text.append(edge_id.as_str());
        text.append(" -> ");
        text.append(edge_id.as_str());
        text.append(decimal_text(children[i].0 as u64).as_str());
        text.append("\n");
        i += 1;
    }
    text
}

/// The drawing of the paths that go on, after the edges that `paths_idx`
/// names, with one of the first `n` children of a node of the trie: for
/// each child the box of its edge, the arrows to the edges that follow, and
/// the drawing of the paths below it. The name of a box is made of the ids
/// of the edges that lead to it. There is no drawing if an edge has no
/// box.
pub open spec fn paths_text<T>(
    graph: RankingRuleGraph<ProximityGraph>,
    paths_idx: Seq<char>,
    paths: PathsMap<T>,
    n: int,
) -> Option<Seq<char>>
    decreases paths, n,
{
    if n <= 0 || n > paths.nodes@.len() {
        Some(Seq::empty())
    } else {
        let child = paths.nodes@[n - 1];
        let edge_id = paths_idx + decimal(child.0 as nat);
        match (
            paths_text(graph, paths_idx, paths, n - 1),
            edge_box(graph, edge_id, child.0),
            paths_text(graph, edge_id, child.1, child.1.nodes@.len() as int),
        ) {
            (Some(before), Some(own), Some(below)) => Some(
                before + own + follow_arrows(edge_id, child.1.nodes@, child.1.nodes@.len() as int)
                    + below,
            ),
            _ => None,
        }
    }
}

/// Once the drawing fails for some children of a node, it fails for more
/// of them.
proof fn lemma_paths_text_stays_none<T>(
    graph: RankingRuleGraph<ProximityGraph>,
    paths_idx: Seq<char>,
    paths: PathsMap<T>,
    n: int,
    m: int,
)
    requires
        0 <= n <= m <= paths.nodes@.len(),
        paths_text(graph, paths_idx, paths, n) is None,
    ensures
        paths_text(graph, paths_idx, paths, m) is None,
    decreases m - n,
{
    if n < m {
        lemma_paths_text_stays_none(graph, paths_idx, paths, n, m - 1);
    }
}

/// Writes the drawing of the paths of a trie. A path through an edge
/// without box is reported as `Internal`.
pub fn paths_d2_description<T>(
    graph: &RankingRuleGraph<ProximityGraph>,
    paths_idx: &String,
    paths: &PathsMap<T>,
) -> (r: Result<String, Error>)
    ensures
        match paths_text(*graph, paths_idx@, *paths, paths.nodes@.len() as int) {
            Some(text) => (r matches Ok(t) && t@ == text),
            None => (r matches Err(e) && e is Internal),
        },
    decreases paths,
{
    let mut text = String::new();
    let mut i: usize = 0;
    while i < paths.nodes.len()
        invariant
            i <= paths.nodes@.len(),
            paths_text(*graph, paths_idx@, *paths, i as int) == Some(text@),
        decreases paths.nodes@.len() - i,
    {
        let mut edge_id = paths_idx.clone();
        edge_id.append(decimal_text(paths.nodes[i].0 as u64).as_str());
        let own = match edge_d2_description(graph, &edge_id, paths.nodes[i].0) {
            Ok(own) => own,
            Err(e) => {
                proof {
                    lemma_paths_text_stays_none(
                        *graph,
                        paths_idx@,
                        *paths,
                        i + 1,
                        paths.nodes@.len() as int,
                    );
                }
                return Err(e);
            },
        };
        let below = match paths_d2_description(graph, &edge_id, &paths.nodes[i].1) {
            Ok(below) => below,
            Err(e) => {
                proof {
                    lemma_paths_text_stays_none(
                        *graph,
                        paths_idx@,
                        *paths,
                        i + 1,
                        paths.nodes@.len() as int,
                    );
                }
                return Err(e);
            },
        };
        text.append(own.as_str());
        text.append(follow_arrows_lines(&edge_id, &paths.nodes[i].1.nodes).as_str());
        text.append(below.as_str());
        i += 1;
    }
    Ok(text)
}

/// The first `n` ids of a list, one on a line.
pub open spec fn ids_text(ids: Seq<u32>, n: int) -> Seq<char>
    decreases n,
{
    if n <= 0 {
        Seq::empty()
    } else {
        ids_text(ids, n - 1) + decimal(ids[n - 1] as nat) + "\n"@
    }
}

fn ids_lines(bitmap: &RoaringBitmap) -> (text: String)
    ensures
        text@ == ids_text(in_order(members(*bitmap)), in_order(members(*bitmap)).len() as int),
{
    let ids = sorted_ids(bitmap);
    let mut text = String::new();
    let mut i: usize = 0;
    while i < ids.len()
        invariant
            i <= ids@.len(),
            text@ == ids_text(ids@, i as int),
        decreases ids@.len() - i,
    {
        text.append(decimal_text(ids[i] as u64).as_str());
        text.append("\n");
        i += 1;
    }
    text
}

/// The drawing of a state of the proximity rule: the graph with the edges
/// that are left, the paths of the cost at hand, the prefixes of paths
/// known to be empty, and the ids of the edges known to be empty, in
/// increasing order. There is no drawing if a path goes through an edge
/// without box.
pub open spec fn proximity_graph_text(
    graph: RankingRuleGraph<ProximityGraph>,
    paths: PathsMap<u64>,
    empty_paths_cache: EmptyPathsCache,
) -> Option<Seq<char>> {
    let removed = in_order(members(empty_paths_cache.empty_edges));
    match (
        paths_text(graph, Seq::empty(), paths, paths.nodes@.len() as int),
        paths_text(
            graph,
            Seq::empty(),
            empty_paths_cache.empty_prefixes,
            empty_paths_cache.empty_prefixes.nodes@.len() as int,
        ),
    ) {
        (Some(shortest), Some(empty)) => Some(
            "direction: right\nProximity Graph {\n"@ + live_nodes_text(
                *graph.query_graph,
                graph.query_graph.nodes@.len() as int,
            ) + edges_text(graph.all_edges@, graph.all_edges@.len() as int)
                + "}\nShortest Paths {\n"@ + shortest + "}\nEmpty Path Prefixes {\n"@ + empty
                + "}\nRemoved Edges {\n"@ + ids_text(removed, removed.len() as int) + "}\n"@,
        ),
        _ => None,
    }
}

/// Writes the drawing of a state of the proximity rule. A path through an
/// edge without box is reported as `Internal`.
pub fn proximity_graph_d2_description(
    graph: &RankingRuleGraph<ProximityGraph>,
    paths: &PathsMap<u64>,
    empty_paths_cache: &EmptyPathsCache,
) -> (r: Result<String, Error>)
    ensures
        match proximity_graph_text(*graph, *paths, *empty_paths_cache) {
            Some(text) => (r matches Ok(t) && t@ == text),
            None => (r matches Err(e) && e is Internal),
        },
{
    let top = String::new();
    let shortest = paths_d2_description(graph, &top, paths)?;
    let empty = paths_d2_description(graph, &top, &empty_paths_cache.empty_prefixes)?;
    let mut text = "direction: right\nProximity Graph {\n".to_owned();
    text.append(live_nodes_lines(&graph.query_graph).as_str());
    text.append(edges_lines(&graph.all_edges).as_str());
    text.append("}\nShortest Paths {\n");
    text.append(shortest.as_str());
    text.append("}\nEmpty Path Prefixes {\n");
    text.append(empty.as_str());
    text.append("}\nRemoved Edges {\n");
    text.append(ids_lines(&empty_paths_cache.empty_edges).as_str());
    text.append("}\n");
    Ok(text)
}

/// The first `n` ranking rules as actors of the sequence diagram: the
/// place of each rule, then its name.
pub open spec fn rules_text(rules: Seq<String>, n: int) -> Seq<char>
    decreases n,
{
    if n <= 0 {
        Seq::empty()
    } else {
        rules_text(rules, n - 1) + decimal((n - 1) as nat) + ": "@ + rules[n - 1]@ + "\n"@
    }
}

/// What the first `n` events draw in the sequence diagram, where
/// `result_ids` gives for each event the name of the box of its results.
pub open spec fn events_text(kinds: Seq<EventKind>, result_ids: Seq<u64>, n: int) -> Seq<char>
    decreases n,
{
    if n <= 0 {
        Seq::empty()
    } else {
        events_text(kinds, result_ids, n - 1) + event_text(
            kinds[n - 1],
            counters_upto(kinds, n - 1)->Some_0,
            counters_upto(kinds, n)->Some_0,
            result_ids[n - 1],
        )
    }
}

/// The sequence diagram of a search: the ranking rules and the results as
/// actors, then what each event draws.
pub open spec fn diagram_text(
    rules: Seq<String>,
    kinds: Seq<EventKind>,
    result_ids: Seq<u64>,
) -> Seq<char> {
    "Control Flow Between Ranking Rules: {\nshape: sequence_diagram\n"@ + rules_text(
        rules,
        rules.len() as int,
    ) + "results\n"@ + events_text(kinds, result_ids, kinds.len() as int) + "}\n"@
}

/// A file of a drawing: its name within the folder of the drawings, and
/// what it holds.
#[derive(Debug)]
pub struct D2File {
    pub name: String,
    pub content: String,
}

impl D2File {
    /// The name of the file and what it holds, as texts.
    pub open spec fn shown(self) -> (Seq<char>, Seq<char>) {
        (self.name@, self.content@)
    }
}

/// The event is a state that a rule showed.
pub open spec fn shows_state(event: SearchEvents) -> bool {
    event is WordsState || event is ProximityState
}

/// The drawing of a query graph as the state of a rule. There is none for
/// a graph whose nodes and lists of successors differ in number.
pub open spec fn words_drawing(query_graph: QueryGraph) -> Option<Seq<char>> {
    if query_graph.edges@.len() == query_graph.nodes@.len() {
        Some(query_graph_text(query_graph))
    } else {
        None
    }
}

/// The drawing of the state that an event shows. There is none for a query
/// graph whose nodes and lists of successors differ in number, nor for a
/// state of the proximity rule that cannot be drawn.
pub open spec fn state_drawing(event: SearchEvents) -> Option<Seq<char>> {
    match event {
        SearchEvents::WordsState { query_graph } => words_drawing(query_graph),
        SearchEvents::ProximityState { graph, paths, empty_paths_cache } => proximity_graph_text(
            graph,
            paths,
            empty_paths_cache,
        ),
        _ => None,
    }
}

/// The files of the states that the first `n` events show, in the order
/// of the events: each has the name of the actor at work, and holds the
/// drawing of the state. `None` if a state cannot be drawn.
pub open spec fn state_files(events: Seq<SearchEvents>, kinds: Seq<EventKind>, n: int) -> Option<
    Seq<(Seq<char>, Seq<char>)>,
>
    decreases n,
{
    if n <= 0 {
        Some(Seq::empty())
    } else {
        match state_files(events, kinds, n - 1) {
            None => None,
            Some(files) => if shows_state(events[n - 1]) {
                let before = counters_upto(kinds, n - 1)->Some_0;
                match state_drawing(events[n - 1]) {
                    Some(content) => Some(
                        files.push((actor(current_rule(before), before) + ".d2"@, content)),
                    ),
                    None => None,
                }
            } else {
                Some(files)
            },
        }
    }
}

impl DetailedSearchLogger {
    /// The files that draw the search, where `result_ids` gives for each
    /// event the name of the box of its results: first `index.d2` with the
    /// sequence diagram, then the files of the states in the order of the
    /// events. There is no drawing if the ranking rules were never told, if
    /// the events cannot have happened in their order, or if a state
    /// cannot be drawn.
    pub open spec fn drawing(self, result_ids: Seq<u64>) -> Option<Seq<(Seq<char>, Seq<char>)>> {
        let kinds = self.kinds();
        let n = self.events@.len() as int;
        if self.ranking_rules_ids is Some && counters_upto(kinds, n) is Some && state_files(
            self.events@,
            kinds,
            n,
        ) is Some {
            Some(
                seq![
                    ("index.d2"@, diagram_text(self.ranking_rules_ids->Some_0@, kinds, result_ids)),
                ] + state_files(self.events@, kinds, n)->Some_0,
            )
        } else {
            None
        }
    }

    /// `r` is the drawing of the search with the given names for the boxes
    /// of the results, or `Internal` where there is no drawing.
    pub open spec fn drawn_as(self, result_ids: Seq<u64>, r: Result<Vec<D2File>, Error>) -> bool {
        match self.drawing(result_ids) {
            Some(files) => (r matches Ok(drawn) && files_shown(drawn@) == files),
            None => (r matches Err(e) && e is Internal),
        }
    }
}

/// The names and contents of a list of files.
pub open spec fn files_shown(files: Seq<D2File>) -> Seq<(Seq<char>, Seq<char>)> {
    files.map_values(|file: D2File| file.shown())
}

fn rules_lines(rules: &Vec<String>) -> (text: String)
    ensures
        text@ == rules_text(rules@, rules@.len() as int),
{
    let mut text = String::new();
    let mut i: usize = 0;
    while i < rules.len()
        invariant
            i <= rules@.len(),
            text@ == rules_text(rules@, i as int),
        decreases rules@.len() - i,
    {
        text.append(decimal_text(i as u64).as_str());
        text.append(": ");
        text.append(rules[i].as_str());
        text.append("\n");
        i += 1;
    }
    text
}

fn event_line(event: &SearchEvents, step: &Activation, id: u64) -> (text: String)
    requires
        counters_after(step.before@, event.kind()) == Some(step.after@),
    ensures
        text@ == event_text(event.kind(), step.before@, step.after@, id),
{
    match event {
        SearchEvents::RankingRuleStartIteration { ranking_rule_idx, .. } => start_line(
            *ranking_rule_idx,
            &step.before,
            &step.after,
        ),
        SearchEvents::RankingRuleNextBucket { ranking_rule_idx, .. } => next_line(
            *ranking_rule_idx,
            &step.before,
            &step.after,
        ),
        SearchEvents::RankingRuleSkipBucket { ranking_rule_idx, candidates } => skip_line(
            *ranking_rule_idx,
            &step.before,
            &step.after,
            bitmap_len(candidates),
        ),
        SearchEvents::RankingRuleEndIteration { ranking_rule_idx, .. } => end_line(
            *ranking_rule_idx,
            &step.before,
            &step.after,
        ),
        SearchEvents::ExtendResults { new } => results_line(new, &step.before, id),
        SearchEvents::WordsState { .. } => state_line(&step.before),
        SearchEvents::ProximityState { .. } => state_line(&step.before),
    }
}

fn state_d2_description(event: &SearchEvents) -> (r: Result<String, Error>)
    requires
        shows_state(*event),
    ensures
        match state_drawing(*event) {
            Some(text) => (r matches Ok(t) && t@ == text),
            None => (r matches Err(e) && e is Internal),
        },
{
    match event {
        SearchEvents::WordsState { query_graph } => {
            if query_graph.edges.len() == query_graph.nodes.len() {
                Ok(query_graph_d2_description(query_graph))
            } else {
                Err(Error::Internal)
            }
        },
        SearchEvents::ProximityState {
            graph,
            paths,
            empty_paths_cache,
        } => proximity_graph_d2_description(graph, paths, empty_paths_cache),
        _ => Err(Error::Internal),
    }
}

/// Once a state cannot be drawn, the files of more events cannot be had.
proof fn lemma_state_files_stay_none(
    events: Seq<SearchEvents>,
    kinds: Seq<EventKind>,
    n: int,
    m: int,
)
    requires
        0 <= n <= m,
        state_files(events, kinds, n) is None,
    ensures
        state_files(events, kinds, m) is None,
    decreases m - n,
{
    if n < m {
        lemma_state_files_stay_none(events, kinds, n, m - 1);
    }
}

impl DetailedSearchLogger {
    /// Draws the search with the given names for the boxes of the results,
    /// one name for each event.
    pub fn d2_description(&self, result_ids: &Vec<u64>) -> (r: Result<Vec<D2File>, Error>)
        requires
            result_ids@.len() == self.events@.len(),
        ensures
            self.drawn_as(result_ids@, r),
    {
        let rules = match &self.ranking_rules_ids {
            Some(rules) => rules,
            None => {
                return Err(Error::Internal);
            },
        };
        let steps = self.activations()?;
        let ghost kinds = self.kinds();
        let mut diagram = "Control Flow Between Ranking Rules: {\nshape: sequence_diagram\n".to_owned();
        diagram.append(rules_lines(rules).as_str());
        diagram.append("results\n");
        let ghost head = diagram@;
        let mut states: Vec<D2File> = Vec::new();
        let mut i: usize = 0;
        proof {
            assert(diagram@ =~= head + events_text(kinds, result_ids@, 0));
            assert(files_shown(states@) =~= Seq::empty());
        }
        while i < self.events.len()
            invariant
                i <= self.events@.len(),
                kinds == self.kinds(),
                kinds.len() == self.events@.len(),
                result_ids@.len() == self.events@.len(),
                steps@.len() == self.events@.len(),
                forall|k: int|
                    0 <= k < steps@.len() ==> Some((#[trigger] steps@[k]).before@) == counters_upto(
                        kinds,
                        k,
                    ) && Some(steps@[k].after@) == counters_upto(kinds, k + 1),
                diagram@ == head + events_text(kinds, result_ids@, i as int),
                state_files(self.events@, kinds, i as int) == Some(files_shown(states@)),
            decreases self.events@.len() - i,
        {
            let event = &self.events[i];
            let step = &steps[i];
            proof {
                assert(kinds[i as int] == self.events@[i as int].kind());
                assert(counters_upto(kinds, i + 1) == counters_after(
                    counters_upto(kinds, i as int)->Some_0,
                    kinds[i as int],
                ));
            }
            let line = event_line(event, step, result_ids[i]);
            let ghost before = diagram@;
            diagram.append(line.as_str());
            assert(diagram@ =~= head + events_text(kinds, result_ids@, i + 1));
            let shows = match event {
                SearchEvents::WordsState { .. } => true,
                SearchEvents::ProximityState { .. } => true,
                _ => false,
            };
            if shows {
                let content = match state_d2_description(event) {
                    Ok(content) => content,
                    Err(e) => {
                        proof {
                            lemma_state_files_stay_none(
                                self.events@,
                                kinds,
                                i + 1,
                                self.events@.len() as int,
                            );
                        }
                        return Err(e);
                    },
                };
                let mut name = actor_text(step.before.len() - 1, &step.before);
                name.append(".d2");
                let ghost drawn = files_shown(states@);
                states.push(D2File { name, content });
                assert(files_shown(states@) =~= drawn.push((name@, content@)));
            }
            i += 1;
        }
        diagram.append("}\n");
        let mut files: Vec<D2File> = Vec::new();
        files.push(D2File { name: "index.d2".to_owned(), content: diagram });
        let ghost first = files_shown(files@);
        let ghost rest = files_shown(states@);
        files.append(&mut states);
        proof {
            assert(first =~= seq![
                ("index.d2"@, diagram_text(rules@, kinds, result_ids@)),
            ]);
            assert(files_shown(files@) =~= first + rest);
        }
        Ok(files)
    }
}

/// `rand::random::<u64>()`: a number drawn at random, of which nothing is
/// claimed.
#[verifier::external_body]
fn random_id() -> (id: u64) {
    rand::random::<u64>()
}

impl DetailedSearchLogger {
    /// Draws the search. The box of each list of results that is not empty
    /// gets a name drawn at random, so the drawing is the one that some
    /// choice of names gives.
    pub fn write_d2_description(&self) -> (r: Result<Vec<D2File>, Error>)
        ensures
            exists|result_ids: Seq<u64>|
                result_ids.len() == self.events@.len() && #[trigger] self.drawn_as(result_ids, r),
    {
        let mut result_ids: Vec<u64> = Vec::new();
        let mut i: usize = 0;
        while i < self.events.len()
            invariant
                i <= self.events@.len(),
                result_ids@.len() == i,
            decreases self.events@.len() - i,
        {
            let named = match &self.events[i] {
                SearchEvents::ExtendResults { new } => new.len() > 0,
                _ => false,
            };
            if named {
                result_ids.push(random_id());
            } else {
                result_ids.push(0);
            }
            i += 1;
        }
        self.d2_description(&result_ids)
    }
}

/// Lists of words with the same deep view have the same words as texts.
proof fn lemma_words_read_same(a: Vec<String>, b: Vec<String>)
    requires
        a.deep_view() == b.deep_view(),
    ensures
        a@.len() == b@.len(),
        forall|i: int| 0 <= i < a@.len() ==> (#[trigger] a@[i])@ == b@[i]@,
{
    assert(a.deep_view().len() == a@.len());
    assert(b.deep_view().len() == b@.len());
    assert forall|i: int| 0 <= i < a@.len() implies (#[trigger] a@[i])@ == b@[i]@ by {
        assert(a.deep_view()[i] == a@[i].deep_view());
        assert(b.deep_view()[i] == b@[i].deep_view());
    }
}

proof fn lemma_joined_same(a: Seq<String>, b: Seq<String>, n: int)
    requires
        a.len() == b.len(),
        0 <= n <= a.len(),
        forall|i: int| 0 <= i < a.len() ==> (#[trigger] a[i])@ == b[i]@,
    ensures
        joined(a, n) == joined(b, n),
    decreases n,
{
    if n > 0 {
        lemma_joined_same(a, b, n - 1);
        assert(a[n - 1]@ == b[n - 1]@);
    }
}

proof fn lemma_variants_same(a: Seq<String>, b: Seq<String>, typos: Seq<char>, n: int)
    requires
        a.len() == b.len(),
        0 <= n <= a.len(),
        forall|i: int| 0 <= i < a.len() ==> (#[trigger] a[i])@ == b[i]@,
    ensures
        variants_text(a, typos, n) == variants_text(b, typos, n),
    decreases n,
{
    if n > 0 {
        lemma_variants_same(a, b, typos, n - 1);
        assert(a[n - 1]@ == b[n - 1]@);
    }
}

/// Nodes with the same deep view are drawn and named alike.
proof fn lemma_node_same(node_idx: nat, a: QueryNode, b: QueryNode)
    requires
        a.deep_view() == b.deep_view(),
    ensures
        node_text(node_idx, a) == node_text(node_idx, b),
        node_name(a) == node_name(b),
        a is Deleted <==> b is Deleted,
{
    match (a, b) {
        (QueryNode::Term(near), QueryNode::Term(far)) => {
            assert(near.deep_view() == far.deep_view());
            match (near.value, far.value) {
                (QueryTerm::Phrase { words: left }, QueryTerm::Phrase { words: right }) => {
                    lemma_words_read_same(left, right);
                    lemma_joined_same(left@, right@, left@.len() as int);
                },
                (
                    QueryTerm::Word { derivations: left },
                    QueryTerm::Word { derivations: right },
                ) => {
                    assert(left.deep_view() == right.deep_view());
                    lemma_words_read_same(left.zero_typo, right.zero_typo);
                    lemma_words_read_same(left.one_typo, right.one_typo);
                    lemma_words_read_same(left.two_typos, right.two_typos);
                    lemma_variants_same(
                        left.zero_typo@,
                        right.zero_typo@,
                        "0"@,
                        left.zero_typo@.len() as int,
                    );
                    lemma_variants_same(
                        left.one_typo@,
                        right.one_typo@,
                        "1"@,
                        left.one_typo@.len() as int,
                    );
                    lemma_variants_same(
                        left.two_typos@,
                        right.two_typos@,
                        "2"@,
                        left.two_typos@.len() as int,
                    );
                },
                _ => {
                    assert(near.value.deep_view() == far.value.deep_view());
                },
            }
        },
        _ => {},
    }
}

/// Query graphs with the same deep view have as many nodes, and their
/// nodes have the same deep views.
proof fn lemma_nodes_read_same(a: QueryGraph, b: QueryGraph)
    requires
        a.deep_view() == b.deep_view(),
    ensures
        a.nodes@.len() == b.nodes@.len(),
        a.edges@.len() == b.edges@.len(),
        forall|i: int|
            0 <= i < a.nodes@.len() ==> (#[trigger] a.nodes@[i]).deep_view()
                == b.nodes@[i].deep_view(),
        forall|i: int|
            0 <= i < a.edges@.len() ==> (#[trigger] a.edges@[i]).successors@
                == b.edges@[i].successors@,
{
    assert(a.nodes.deep_view() == b.nodes.deep_view());
    assert(a.edges.deep_view() == b.edges.deep_view());
    assert(a.nodes.deep_view().len() == a.nodes@.len());
    assert(b.nodes.deep_view().len() == b.nodes@.len());
    assert(a.edges.deep_view().len() == a.edges@.len());
    assert(b.edges.deep_view().len() == b.edges@.len());
    assert forall|i: int| 0 <= i < a.nodes@.len() implies (#[trigger] a.nodes@[i]).deep_view()
        == b.nodes@[i].deep_view() by {
        assert(a.nodes.deep_view()[i] == a.nodes@[i].deep_view());
        assert(b.nodes.deep_view()[i] == b.nodes@[i].deep_view());
    }
    assert forall|i: int| 0 <= i < a.edges@.len() implies (#[trigger] a.edges@[i]).successors@
        == b.edges@[i].successors@ by {
        assert(a.edges.deep_view()[i] == a.edges@[i].deep_view());
        assert(b.edges.deep_view()[i] == b.edges@[i].deep_view());
    }
}

proof fn lemma_nodes_text_same(a: QueryGraph, b: QueryGraph, n: int)
    requires
        a.deep_view() == b.deep_view(),
        0 <= n <= a.nodes@.len(),
        a.edges@.len() == a.nodes@.len(),
    ensures
        nodes_text(a, n) == nodes_text(b, n),
    decreases n,
{
    if n > 0 {
        lemma_nodes_text_same(a, b, n - 1);
        lemma_nodes_read_same(a, b);
        lemma_node_same((n - 1) as nat, a.nodes@[n - 1], b.nodes@[n - 1]);
        assert(a.edges@[n - 1].successors@ == b.edges@[n - 1].successors@);
    }
}

proof fn lemma_live_nodes_text_same(a: QueryGraph, b: QueryGraph, n: int)
    requires
        a.deep_view() == b.deep_view(),
        0 <= n <= a.nodes@.len(),
    ensures
        live_nodes_text(a, n) == live_nodes_text(b, n),
    decreases n,
{
    if n > 0 {
        lemma_live_nodes_text_same(a, b, n - 1);
        lemma_nodes_read_same(a, b);
        lemma_node_same((n - 1) as nat, a.nodes@[n - 1], b.nodes@[n - 1]);
    }
}

/// A query graph and a copy of it have the same drawing.
pub proof fn lemma_same_words_drawing(a: QueryGraph, b: QueryGraph)
    requires
        a.deep_view() == b.deep_view(),
    ensures
        words_drawing(a) == words_drawing(b),
{
    lemma_nodes_read_same(a, b);
    if a.edges@.len() == a.nodes@.len() {
        lemma_nodes_text_same(a, b, a.nodes@.len() as int);
    }
}

/// Both graphs have the same edges over query graphs with the same deep
/// view.
pub open spec fn same_graph(
    a: RankingRuleGraph<ProximityGraph>,
    b: RankingRuleGraph<ProximityGraph>,
) -> bool {
    a.query_graph.deep_view() == b.query_graph.deep_view() && a.all_edges@ == b.all_edges@
}

proof fn lemma_same_box(
    a: RankingRuleGraph<ProximityGraph>,
    b: RankingRuleGraph<ProximityGraph>,
    edge_id: Seq<char>,
    e: u32,
)
    requires
        same_graph(a, b),
    ensures
        edge_box(a, edge_id, e) == edge_box(b, edge_id, e),
{
    lemma_nodes_read_same(graph_of(a.query_graph), graph_of(b.query_graph));
    let edge = a.all_edges@[e as int]->Some_0;
    if e < a.all_edges@.len() && a.all_edges@[e as int] is Some && edge.from_node
        < a.query_graph.nodes@.len() && edge.to_node < a.query_graph.nodes@.len() {
        lemma_node_same(
            0,
            a.query_graph.nodes@[edge.from_node as int],
            b.query_graph.nodes@[edge.from_node as int],
        );
        lemma_node_same(
            0,
            a.query_graph.nodes@[edge.to_node as int],
            b.query_graph.nodes@[edge.to_node as int],
        );
    }
}

proof fn lemma_follow_arrows_same<V, W>(
    edge_id: Seq<char>,
    a: PathsMap<V>,
    b: PathsMap<W>,
    n: int,
)
    requires
        0 <= n <= a.nodes@.len(),
        same_edges_upto(a, b, a.nodes@.len() as int),
    ensures
        follow_arrows(edge_id, a.nodes@, n) == follow_arrows(edge_id, b.nodes@, n),
    decreases n,
{
    if n > 0 {
        lemma_follow_arrows_same(edge_id, a, b, n - 1);
        lemma_same_edges_child(a, b, a.nodes@.len() as int, n - 1);
    }
}

proof fn lemma_paths_text_same<V, W>(
    ga: RankingRuleGraph<ProximityGraph>,
    gb: RankingRuleGraph<ProximityGraph>,
    paths_idx: Seq<char>,
    a: PathsMap<V>,
    b: PathsMap<W>,
    n: int,
)
    requires
        same_graph(ga, gb),
        same_edges(a, b),
        0 <= n <= a.nodes@.len(),
    ensures
        paths_text(ga, paths_idx, a, n) == paths_text(gb, paths_idx, b, n),
    decreases a, n,
{
    if n > 0 {
        lemma_paths_text_same(ga, gb, paths_idx, a, b, n - 1);
        lemma_same_edges_child(a, b, a.nodes@.len() as int, n - 1);
        let near = a.nodes@[n - 1];
        let far = b.nodes@[n - 1];
        let edge_id = paths_idx + decimal(near.0 as nat);
        lemma_same_box(ga, gb, edge_id, near.0);
        lemma_follow_arrows_same(edge_id, near.1, far.1, near.1.nodes@.len() as int);
        lemma_paths_text_same(ga, gb, edge_id, near.1, far.1, near.1.nodes@.len() as int);
    }
}

/// A state of the proximity rule and a copy of it have the same drawing.
pub proof fn lemma_same_proximity_drawing(
    graph: RankingRuleGraph<ProximityGraph>,
    paths: PathsMap<u64>,
    cache: EmptyPathsCache,
    graph_copy: RankingRuleGraph<ProximityGraph>,
    paths_copy: PathsMap<u64>,
    cache_copy: EmptyPathsCache,
)
    requires
        same_graph(graph, graph_copy),
        same_edges(paths, paths_copy),
        same_edges(cache.empty_prefixes, cache_copy.empty_prefixes),
        members(cache.empty_edges) == members(cache_copy.empty_edges),
    ensures
        proximity_graph_text(graph, paths, cache) == proximity_graph_text(
            graph_copy,
            paths_copy,
            cache_copy,
        ),
{
    lemma_nodes_read_same(graph_of(graph.query_graph), graph_of(graph_copy.query_graph));
    lemma_live_nodes_text_same(
        graph_of(graph.query_graph),
        graph_of(graph_copy.query_graph),
        graph.query_graph.nodes@.len() as int,
    );
    lemma_paths_text_same(
        graph,
        graph_copy,
        Seq::empty(),
        paths,
        paths_copy,
        paths.nodes@.len() as int,
    );
    lemma_paths_text_same(
        graph,
        graph_copy,
        Seq::empty(),
        cache.empty_prefixes,
        cache_copy.empty_prefixes,
        cache.empty_prefixes.nodes@.len() as int,
    );
}

} // verus!
