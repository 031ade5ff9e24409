//! The query graph: the ways in which the terms of a query can be chained to
//! cover the whole input, from a start node to an end node.

use vstd::prelude::*;
use std::rc::Rc;
use crate::error::Error;
use crate::query_term::{LocatedQueryTerm, LocatedQueryTermView};

verus! {

/// A node of the query graph. `Deleted` marks a node that was removed: the
/// other nodes keep their indices.
#[derive(Debug)]
pub enum QueryNode {
    Term(LocatedQueryTerm),
    Deleted,
    Start,
    End,
}

/// What a `QueryNode` holds, as plain values.
pub enum QueryNodeView {
    Term(LocatedQueryTermView),
    Deleted,
    Start,
    End,
}

impl DeepView for QueryNode {
    type V = QueryNodeView;

    open spec fn deep_view(&self) -> QueryNodeView {
        match self {
            QueryNode::Term(term) => QueryNodeView::Term(term.deep_view()),
            QueryNode::Deleted => QueryNodeView::Deleted,
            QueryNode::Start => QueryNodeView::Start,
            QueryNode::End => QueryNodeView::End,
        }
    }
}

impl QueryNode {
    /// Copies the node.
    pub fn clone_node(&self) -> (copy: QueryNode)
        ensures
            copy.deep_view() == self.deep_view(),
    {
        match self {
            QueryNode::Term(term) => QueryNode::Term(term.clone_located()),
            QueryNode::Deleted => QueryNode::Deleted,
            QueryNode::Start => QueryNode::Start,
            QueryNode::End => QueryNode::End,
        }
    }
}

/// The neighbours of one node, each list in increasing order.
#[derive(Debug)]
pub struct Edges {
    pub predecessors: Vec<u32>,
    pub successors: Vec<u32>,
}

/// The neighbours of one node, as plain values.
pub struct EdgesView {
    pub predecessors: Seq<u32>,
    pub successors: Seq<u32>,
}

impl DeepView for Edges {
    type V = EdgesView;

    open spec fn deep_view(&self) -> EdgesView {
        EdgesView { predecessors: self.predecessors@, successors: self.successors@ }
    }
}

/// Copies a list of node indices.
pub fn clone_indices(indices: &Vec<u32>) -> (copy: Vec<u32>)
    ensures
        copy@ == indices@,
{
    let mut copy: Vec<u32> = Vec::new();
    let mut i: usize = 0;
    while i < indices.len()
        invariant
            i <= indices@.len(),
            copy@ == indices@.take(i as int),
        decreases indices@.len() - i,
    {
        copy.push(indices[i]);
        assert(indices@.take(i + 1) == indices@.take(i as int).push(indices@[i as int]));
        i += 1;
    }
    assert(indices@.take(indices@.len() as int) == indices@);
    copy
}

/// A directed acyclic graph of query nodes. The start node has index 0, the
/// end node the last index, and every edge leads from a node to one of higher
/// index.
#[derive(Debug)]
pub struct QueryGraph {
    pub root_node: u32,
    pub end_node: u32,
    pub nodes: Vec<QueryNode>,
    pub edges: Vec<Edges>,
}

/// What a `QueryGraph` holds, as plain values.
pub struct QueryGraphView {
    pub root_node: u32,
    pub end_node: u32,
    pub nodes: Seq<QueryNodeView>,
    pub edges: Seq<EdgesView>,
}

impl DeepView for QueryGraph {
    type V = QueryGraphView;

    open spec fn deep_view(&self) -> QueryGraphView {
        QueryGraphView {
            root_node: self.root_node,
            end_node: self.end_node,
            nodes: self.nodes.deep_view(),
            edges: self.edges.deep_view(),
        }
    }
}

/// The query graph behind a shared handle.
pub open spec fn graph_of(shared: Rc<QueryGraph>) -> QueryGraph {
    *shared
}

/// `Rc::clone`: another handle on the same query graph, which is not
/// copied.
#[verifier::external_body]
pub(crate) fn share_graph(query_graph: &Rc<QueryGraph>) -> (shared: Rc<QueryGraph>)
    ensures
        shared == *query_graph,
{
    Rc::clone(query_graph)
}

/// Whether the list is in strictly increasing order.
pub open spec fn strictly_increasing(s: Seq<u32>) -> bool {
    forall|i: int, j: int| 0 <= i < j < s.len() ==> s[i] < s[j]
}

/// The spans are well formed, the terms are in the order of their first
/// slot, and the graph will not have more nodes than a `u32` can index.
pub open spec fn valid_terms(terms: Seq<LocatedQueryTerm>) -> bool {
    &&& terms.len() + 2 <= u32::MAX
    &&& forall|i: int| 0 <= i < terms.len() ==> (#[trigger] terms[i]).start <= terms[i].end
    &&& forall|i: int, j: int|
        0 <= i < j < terms.len() ==> (#[trigger] terms[i]).start <= (#[trigger] terms[j]).start
}

/// Term `j` begins at the slot that follows the last slot of term `i`.
pub open spec fn adjacent(terms: Seq<LocatedQueryTerm>, i: int, j: int) -> bool {
    terms[i].end + 1 == terms[j].start
}

/// No term ends after term `i`: it covers the final input slot.
pub open spec fn ends_last(terms: Seq<LocatedQueryTerm>, i: int) -> bool {
    forall|j: int| 0 <= j < terms.len() ==> (#[trigger] terms[j]).end <= terms[i].end
}

/// Term `i` can be reached from the first input slot by a chain of adjacent
/// terms.
pub open spec fn from_start(terms: Seq<LocatedQueryTerm>, i: int) -> bool
    decreases i,
{
    &&& 0 <= i < terms.len()
    &&& (terms[i].start == terms[0].start || exists|j: int|
        0 <= j < i && from_start(terms, j) && #[trigger] adjacent(terms, j, i))
}

/// A chain of adjacent terms leads from term `i` to the final input slot.
pub open spec fn to_end(terms: Seq<LocatedQueryTerm>, i: int) -> bool
    decreases terms.len() - i,
{
    &&& 0 <= i < terms.len()
    &&& (ends_last(terms, i) || exists|j: int|
        i < j < terms.len() && to_end(terms, j) && #[trigger] adjacent(terms, i, j))
}

/// Term `i` lies on a chain that covers the whole input.
pub open spec fn kept(terms: Seq<LocatedQueryTerm>, i: int) -> bool {
    from_start(terms, i) && to_end(terms, i)
}

/// Whether the graph built from `terms` has an edge from node `a` to node
/// `b`. Node 0 is the start, node `i + 1` stands for term `i`, and the last
/// node is the end.
pub open spec fn term_edge(terms: Seq<LocatedQueryTerm>, a: int, b: int) -> bool {
    let n = terms.len() as int;
    if a == 0 && b == n + 1 {
        n == 0
    } else if a == 0 {
        1 <= b <= n && kept(terms, b - 1) && terms[b - 1].start == terms[0].start
    } else if b == n + 1 {
        1 <= a <= n && kept(terms, a - 1) && ends_last(terms, a - 1)
    } else {
        1 <= a <= n && 1 <= b <= n && kept(terms, a - 1) && kept(terms, b - 1) && adjacent(
            terms,
            a - 1,
            b - 1,
        )
    }
}

/// Some chain of adjacent terms covers the input from its first slot to its
/// last.
pub open spec fn covering(terms: Seq<LocatedQueryTerm>) -> bool {
    let n = terms.len() as int;
    &&& exists|b: int| 0 < b <= n + 1 && #[trigger] term_edge(terms, 0, b)
    &&& exists|a: int| 0 <= a < n + 1 && #[trigger] term_edge(terms, a, n + 1)
}

/// In terms put in order, an adjacent pair is in order too.
pub proof fn lemma_adjacent_forward(terms: Seq<LocatedQueryTerm>, i: int, j: int)
    requires
        valid_terms(terms),
        0 <= i < terms.len(),
        0 <= j < terms.len(),
        adjacent(terms, i, j),
    ensures
        i < j,
{
    if j <= i {
        if j < i {
            assert(terms[j].start <= terms[i].start);
        }
        assert(terms[i].start <= terms[i].end);
    }
}

/// Every edge of the graph built from `terms` leads to a higher index.
pub proof fn lemma_term_edge_forward(terms: Seq<LocatedQueryTerm>, a: int, b: int)
    requires
        valid_terms(terms),
        0 <= a <= terms.len() + 1,
        0 <= b <= terms.len() + 1,
        term_edge(terms, a, b),
    ensures
        a < b,
{
    let n = terms.len() as int;
    if a != 0 && b != n + 1 {
        lemma_adjacent_forward(terms, a - 1, b - 1);
    }
}

impl QueryGraph {
    /// Whether the graph has an edge from node `a` to node `b`.
    pub open spec fn has_edge(self, a: int, b: int) -> bool {
        0 <= a < self.edges@.len() && 0 <= b <= u32::MAX && self.edges@[a].successors@.contains(
            b as u32,
        )
    }

    /// The structure that every query graph has: the start node first, the
    /// end node last, edges between live nodes only, each leading forward,
    /// and the two neighbour lists of the nodes telling the same edges.
    pub open spec fn wf(self) -> bool {
        let len = self.nodes@.len();
        &&& 2 <= len <= u32::MAX
        &&& self.edges@.len() == len
        &&& self.root_node == 0
        &&& self.end_node == len - 1
        &&& forall|i: int| 0 <= i < len ==> ((#[trigger] self.nodes@[i]) is Start <==> i == 0)
        &&& forall|i: int| 0 <= i < len ==> ((#[trigger] self.nodes@[i]) is End <==> i == len - 1)
        &&& forall|a: int|
            0 <= a < len ==> strictly_increasing((#[trigger] self.edges@[a]).successors@)
        &&& forall|a: int|
            0 <= a < len ==> strictly_increasing((#[trigger] self.edges@[a]).predecessors@)
        &&& forall|a: int, k: int|
            0 <= a < len && 0 <= k < self.edges@[a].successors@.len() ==> {
                let b = #[trigger] self.edges@[a].successors@[k];
                &&& a < b < len
                &&& !(self.nodes@[a] is Deleted)
                &&& !(self.nodes@[b as int] is Deleted)
            }
        &&& forall|a: int, b: int|
            0 <= a < len && 0 <= b < len ==> (self.edges@[a].successors@.contains(b as u32)
                <==> #[trigger] self.edges@[b].predecessors@.contains(a as u32))
        &&& forall|b: int, k: int|
            0 <= b < len && 0 <= k < self.edges@[b].predecessors@.len() ==> (
            #[trigger] self.edges@[b].predecessors@[k]) < b
    }

    /// Every live node but the start has a predecessor and every live node
    /// but the end has a successor. In a well-formed graph this means that
    /// every live node lies on a path from the start to the end.
    pub open spec fn connected(self) -> bool {
        let len = self.nodes@.len();
        &&& self.edges@.len() == len
        &&& forall|i: int|
            0 < i < len && !((#[trigger] self.nodes@[i]) is Deleted)
                ==> self.edges@[i].predecessors@.len() > 0
        &&& forall|i: int|
            0 <= i < len - 1 && !((#[trigger] self.nodes@[i]) is Deleted)
                ==> self.edges@[i].successors@.len() > 0
    }

    /// The graph is the one that the construction rules give for `terms`:
    /// node `i + 1` is term `i` if the term lies on a covering chain and a
    /// tombstone otherwise, and the edges are those of `term_edge`.
    pub open spec fn built_from(self, terms: Seq<LocatedQueryTerm>) -> bool {
        let n = terms.len() as int;
        &&& self.nodes@.len() == n + 2
        &&& self.edges@.len() == n + 2
        &&& forall|i: int|
            0 <= i < n ==> (#[trigger] self.nodes@[i + 1]).deep_view() == (if kept(terms, i) {
                QueryNodeView::Term(terms[i].deep_view())
            } else {
                QueryNodeView::Deleted
            })
        &&& forall|a: int, b: int|
            0 <= a < n + 2 && 0 <= b < n + 2 ==> (#[trigger] self.has_edge(a, b) <==> term_edge(
                terms,
                a,
                b,
            ))
    }

    /// Copies the graph.
    pub fn clone_graph(&self) -> (copy: QueryGraph)
        ensures
            copy.deep_view() == self.deep_view(),
            copy.nodes@.len() == self.nodes@.len(),
            copy.edges@.len() == self.edges@.len(),
            self.wf() ==> copy.wf(),
            self.connected() ==> copy.connected(),
    {
        let mut nodes: Vec<QueryNode> = Vec::new();
        let mut i: usize = 0;
        while i < self.nodes.len()
            invariant
                i <= self.nodes@.len(),
                nodes@.len() == i,
                forall|k: int| 0 <= k < i ==> nodes@[k].deep_view() == self.nodes@[k].deep_view(),
            decreases self.nodes@.len() - i,
        {
            nodes.push(self.nodes[i].clone_node());
            i += 1;
        }
        let mut edges: Vec<Edges> = Vec::new();
        let mut j: usize = 0;
        while j < self.edges.len()
            invariant
                j <= self.edges@.len(),
                edges@.len() == j,
                forall|k: int|
                    0 <= k < j ==> edges@[k].successors@ == self.edges@[k].successors@
                        && edges@[k].predecessors@ == self.edges@[k].predecessors@,
            decreases self.edges@.len() - j,
        {
            edges.push(
                Edges {
                    predecessors: clone_indices(&self.edges[j].predecessors),
                    successors: clone_indices(&self.edges[j].successors),
                },
            );
            j += 1;
        }
        let copy = QueryGraph { root_node: self.root_node, end_node: self.end_node, nodes, edges };
        assert(copy.nodes.deep_view() =~= self.nodes.deep_view());
        assert(copy.edges.deep_view() =~= self.edges.deep_view());
        proof {
            assert forall|k: int| 0 <= k < self.nodes@.len() implies (copy.nodes@[k] is Deleted
                <==> self.nodes@[k] is Deleted) && (copy.nodes@[k] is Start
                <==> self.nodes@[k] is Start) && (copy.nodes@[k] is End
                <==> self.nodes@[k] is End) by {
                assert(copy.nodes@[k].deep_view() == self.nodes@[k].deep_view());
            }
            if self.wf() {
                assert(copy.wf());
            }
            if self.connected() {
                assert forall|i: int|
                    0 <= i < copy.nodes@.len() - 1 && !((
                    #[trigger] copy.nodes@[i]) is Deleted) implies copy.edges@[i].successors@.len()
                    > 0 by {
                    assert(!(self.nodes@[i] is Deleted));
                }
                assert forall|i: int|
                    0 < i < copy.nodes@.len() && !((
                    #[trigger] copy.nodes@[i]) is Deleted) implies copy.edges@[i].predecessors@.len()
                    > 0 by {
                    assert(!(self.nodes@[i] is Deleted));
                }
            }
        }
        copy
    }
}

/// `last` is the final input slot of `terms` and `flags` tells, term by term,
/// which of them lie on a covering chain.
pub open spec fn marks_kept(terms: Seq<LocatedQueryTerm>, flags: Seq<bool>, last: u16) -> bool {
    &&& valid_terms(terms)
    &&& flags.len() == terms.len()
    &&& forall|i: int| 0 <= i < terms.len() ==> #[trigger] flags[i] == kept(terms, i)
    &&& forall|j: int| 0 <= j < terms.len() ==> (#[trigger] terms[j]).end <= last
    &&& terms.len() > 0 ==> exists|j: int| 0 <= j < terms.len() && (#[trigger] terms[j]).end == last
}

/// With `last` the final slot, a term ends last exactly when it ends there.
proof fn lemma_ends_last(terms: Seq<LocatedQueryTerm>, flags: Seq<bool>, last: u16, i: int)
    requires
        marks_kept(terms, flags, last),
        0 <= i < terms.len(),
    ensures
        ends_last(terms, i) <==> terms[i].end == last,
{
    let j = choose|j: int| 0 <= j < terms.len() && (#[trigger] terms[j]).end == last;
    if ends_last(terms, i) {
        assert(terms[j].end <= terms[i].end);
    }
}

fn terms_are_valid(terms: &Vec<LocatedQueryTerm>) -> (ok: bool)
    ensures
        ok == valid_terms(terms@),
{
    if terms.len() > 0xFFFF_FFFD {
        return false;
    }
    let mut i: usize = 0;
    while i < terms.len()
        invariant
            i <= terms@.len(),
            terms@.len() + 2 <= u32::MAX,
            forall|k: int| 0 <= k < i ==> (#[trigger] terms@[k]).start <= terms@[k].end,
            forall|k: int, l: int|
                0 <= k < l < i ==> (#[trigger] terms@[k]).start <= (#[trigger] terms@[l]).start,
        decreases terms@.len() - i,
    {
        if terms[i].start > terms[i].end {
            return false;
        }
        if i > 0 && terms[i - 1].start > terms[i].start {
            assert(!(terms@[i - 1].start <= terms@[i as int].start));
            return false;
        }
        assert forall|k: int| 0 <= k < i implies (#[trigger] terms@[k]).start
            <= terms@[i as int].start by {
            if k < i - 1 {
                assert(terms@[k].start <= terms@[i - 1].start);
            }
        }
        i += 1;
    }
    true
}

fn final_slot(terms: &Vec<LocatedQueryTerm>) -> (last: u16)
    ensures
        forall|j: int| 0 <= j < terms@.len() ==> (#[trigger] terms@[j]).end <= last,
        terms@.len() > 0 ==> exists|j: int|
            0 <= j < terms@.len() && (#[trigger] terms@[j]).end == last,
{
    let mut last: u16 = 0;
    let mut i: usize = 0;
    while i < terms.len()
        invariant
            i <= terms@.len(),
            forall|j: int| 0 <= j < i ==> (#[trigger] terms@[j]).end <= last,
            i > 0 ==> exists|j: int| 0 <= j < i && (#[trigger] terms@[j]).end == last,
        decreases terms@.len() - i,
    {
        if i == 0 || terms[i].end > last {
            last = terms[i].end;
        }
        i += 1;
    }
    last
}

fn chained_from_start(terms: &Vec<LocatedQueryTerm>) -> (flags: Vec<bool>)
    requires
        valid_terms(terms@),
    ensures
        flags@.len() == terms@.len(),
        forall|i: int| 0 <= i < terms@.len() ==> #[trigger] flags@[i] == from_start(terms@, i),
{
    let mut flags: Vec<bool> = Vec::new();
    let mut i: usize = 0;
    while i < terms.len()
        invariant
            i <= terms@.len(),
            flags@.len() == i,
            forall|k: int| 0 <= k < i ==> #[trigger] flags@[k] == from_start(terms@, k),
        decreases terms@.len() - i,
    {
        let mut found = terms[i].start == terms[0].start;
        let mut j: usize = 0;
        while j < i
            invariant
                j <= i < terms@.len(),
                flags@.len() == i,
                forall|k: int| 0 <= k < i ==> #[trigger] flags@[k] == from_start(terms@, k),
                found == (terms@[i as int].start == terms@[0].start || exists|k: int|
                    0 <= k < j && from_start(terms@, k) && #[trigger] adjacent(
                        terms@,
                        k,
                        i as int,
                    )),
            decreases i - j,
        {
            if flags[j] && terms[j].end as u32 + 1 == terms[i].start as u32 {
                assert(from_start(terms@, j as int) && adjacent(terms@, j as int, i as int));
                found = true;
            }
            j += 1;
        }
        assert(j == i);
        assert(from_start(terms@, i as int) == (terms@[i as int].start == terms@[0].start
            || exists|k: int|
            0 <= k < i as int && from_start(terms@, k) && #[trigger] adjacent(
                terms@,
                k,
                i as int,
            )));
        assert(found == from_start(terms@, i as int));
        flags.push(found);
        i += 1;
    }
    flags
}

fn chained_to_end(terms: &Vec<LocatedQueryTerm>, last: u16) -> (flags: Vec<bool>)
    requires
        valid_terms(terms@),
        forall|j: int| 0 <= j < terms@.len() ==> (#[trigger] terms@[j]).end <= last,
        terms@.len() > 0 ==> exists|j: int|
            0 <= j < terms@.len() && (#[trigger] terms@[j]).end == last,
    ensures
        flags@.len() == terms@.len(),
        forall|i: int| 0 <= i < terms@.len() ==> #[trigger] flags@[i] == to_end(terms@, i),
{
    let n = terms.len();
    let mut flags: Vec<bool> = Vec::new();
    let mut c: usize = 0;
    while c < n
        invariant
            c <= n,
            flags@.len() == c,
        decreases n - c,
    {
        flags.push(false);
        c += 1;
    }
    let mut i: usize = n;
    while i > 0
        invariant
            n == terms@.len(),
            i <= n,
            flags@.len() == n,
            valid_terms(terms@),
            forall|j: int| 0 <= j < terms@.len() ==> (#[trigger] terms@[j]).end <= last,
            terms@.len() > 0 ==> exists|j: int|
                0 <= j < terms@.len() && (#[trigger] terms@[j]).end == last,
            forall|k: int| i <= k < n ==> #[trigger] flags@[k] == to_end(terms@, k),
        decreases i,
    {
        let idx = i - 1;
        let mut found = terms[idx].end == last;
        proof {
            let w = choose|j: int| 0 <= j < terms@.len() && (#[trigger] terms@[j]).end == last;
            if ends_last(terms@, idx as int) {
                assert(terms@[w].end <= terms@[idx as int].end);
            }
            assert(found == ends_last(terms@, idx as int));
        }
        let mut j: usize = i;
        while j < n
            invariant
                n == terms@.len(),
                idx + 1 == i,
                i <= j <= n,
                flags@.len() == n,
                forall|k: int| i <= k < n ==> #[trigger] flags@[k] == to_end(terms@, k),
                found == (ends_last(terms@, idx as int) || exists|k: int|
                    idx < k < j && to_end(terms@, k) && #[trigger] adjacent(
                        terms@,
                        idx as int,
                        k,
                    )),
            decreases n - j,
        {
            if flags[j] && terms[idx].end as u32 + 1 == terms[j].start as u32 {
                assert(to_end(terms@, j as int) && adjacent(terms@, idx as int, j as int));
                found = true;
            }
            j += 1;
        }
        assert(j == n);
        assert(to_end(terms@, idx as int) == (ends_last(terms@, idx as int) || exists|k: int|
            (idx as int) < k < terms@.len() && to_end(terms@, k) && #[trigger] adjacent(
                terms@,
                idx as int,
                k,
            )));
        assert(found == to_end(terms@, idx as int));
        flags.set(idx, found);
        i = idx;
    }
    flags
}

fn is_term_edge(
    terms: &Vec<LocatedQueryTerm>,
    flags: &Vec<bool>,
    last: u16,
    a: usize,
    b: usize,
) -> (edge: bool)
    requires
        marks_kept(terms@, flags@, last),
        a < terms@.len() + 2,
        b < terms@.len() + 2,
    ensures
        edge == term_edge(terms@, a as int, b as int),
{
    let n = terms.len();
    if a == 0 && b == n + 1 {
        n == 0
    } else if a == 0 {
        1 <= b && flags[b - 1] && terms[b - 1].start == terms[0].start
    } else if b == n + 1 {
        proof {
            if 1 <= a <= n {
                lemma_ends_last(terms@, flags@, last, a - 1);
            }
        }
        a <= n && flags[a - 1] && terms[a - 1].end == last
    } else {
        1 <= b && a <= n && flags[a - 1] && flags[b - 1] && terms[a - 1].end as u32 + 1
            == terms[b - 1].start as u32
    }
}

/// The edge between `node` and `x`, leaving `node` if `forward` and entering
/// it otherwise.
pub open spec fn edge_towards(
    terms: Seq<LocatedQueryTerm>,
    node: int,
    x: int,
    forward: bool,
) -> bool {
    if forward {
        term_edge(terms, node, x)
    } else {
        term_edge(terms, x, node)
    }
}

/// `list` holds, in increasing order, the neighbours of `node` among the
/// nodes below `bound`.
pub open spec fn lists_neighbours(
    list: Seq<u32>,
    terms: Seq<LocatedQueryTerm>,
    node: int,
    forward: bool,
    bound: int,
) -> bool {
    &&& strictly_increasing(list)
    &&& forall|k: int| 0 <= k < list.len() ==> (#[trigger] list[k]) < bound
    &&& forall|x: int|
        0 <= x < bound ==> (list.contains(x as u32) <==> #[trigger] edge_towards(
            terms,
            node,
            x,
            forward,
        ))
}

fn neighbours(
    terms: &Vec<LocatedQueryTerm>,
    flags: &Vec<bool>,
    last: u16,
    node: usize,
    forward: bool,
) -> (list: Vec<u32>)
    requires
        marks_kept(terms@, flags@, last),
        node < terms@.len() + 2,
    ensures
        lists_neighbours(list@, terms@, node as int, forward, terms@.len() as int + 2),
{
    let n2 = terms.len() + 2;
    let mut list: Vec<u32> = Vec::new();
    let mut x: usize = 0;
    while x < n2
        invariant
            marks_kept(terms@, flags@, last),
            n2 == terms@.len() + 2,
            node < n2,
            x <= n2,
            lists_neighbours(list@, terms@, node as int, forward, x as int),
        decreases n2 - x,
    {
        let edge = if forward {
            is_term_edge(terms, flags, last, node, x)
        } else {
            is_term_edge(terms, flags, last, x, node)
        };
        assert(edge == edge_towards(terms@, node as int, x as int, forward));
        let ghost before = list@;
        if edge {
            list.push(x as u32);
            assert(list@[list@.len() - 1] == x as u32);
            assert forall|y: int| 0 <= y < x + 1 implies (list@.contains(y as u32)
                <==> #[trigger] edge_towards(terms@, node as int, y, forward)) by {
                if y < x {
                    if before.contains(y as u32) {
                        let k = choose|k: int| 0 <= k < before.len() && before[k] == y as u32;
                        assert(list@[k] == y as u32);
                    }
                    if list@.contains(y as u32) {
                        let k = choose|k: int| 0 <= k < list@.len() && list@[k] == y as u32;
                        assert(k < before.len());
                        assert(before[k] == y as u32);
                    }
                }
            }
        } else {
            assert forall|y: int| 0 <= y < x + 1 implies (list@.contains(y as u32)
                <==> #[trigger] edge_towards(terms@, node as int, y, forward)) by {
                if y == x && list@.contains(y as u32) {
                    let k = choose|k: int| 0 <= k < list@.len() && list@[k] == y as u32;
                    assert(list@[k] < x);
                }
            }
        }
        x += 1;
    }
    list
}

/// The nodes and neighbour lists of `graph` are those that the construction
/// rules give for `terms`.
pub open spec fn assembled(graph: QueryGraph, terms: Seq<LocatedQueryTerm>) -> bool {
    let n = terms.len() as int;
    &&& valid_terms(terms)
    &&& graph.root_node == 0
    &&& graph.end_node == n + 1
    &&& graph.nodes@.len() == n + 2
    &&& graph.edges@.len() == n + 2
    &&& graph.nodes@[0] is Start
    &&& graph.nodes@[n + 1] is End
    &&& forall|i: int|
        0 <= i < n ==> (#[trigger] graph.nodes@[i + 1]).deep_view() == (if kept(terms, i) {
            QueryNodeView::Term(terms[i].deep_view())
        } else {
            QueryNodeView::Deleted
        })
    &&& forall|a: int|
        0 <= a < n + 2 ==> lists_neighbours(
            (#[trigger] graph.edges@[a]).successors@,
            terms,
            a,
            true,
            n + 2,
        ) && lists_neighbours(graph.edges@[a].predecessors@, terms, a, false, n + 2)
}

/// In an assembled graph the neighbour lists tell the edges of
/// `term_edge`, and a node is a tombstone exactly when its term lies on no
/// covering chain.
#[verifier::rlimit(40)]
pub proof fn lemma_assembled_edges(graph: QueryGraph, terms: Seq<LocatedQueryTerm>)
    requires
        assembled(graph, terms),
    ensures
        forall|a: int, b: int|
            0 <= a < terms.len() + 2 && 0 <= b < terms.len() + 2 ==> (
            #[trigger] graph.edges@[a].successors@.contains(b as u32) <==> term_edge(terms, a, b)),
        forall|a: int, b: int|
            0 <= a < terms.len() + 2 && 0 <= b < terms.len() + 2 ==> (
            #[trigger] graph.edges@[b].predecessors@.contains(a as u32) <==> term_edge(
                terms,
                a,
                b,
            )),
        forall|i: int|
            0 <= i < terms.len() + 2 ==> ((#[trigger] graph.nodes@[i]) is Start <==> i == 0),
        forall|i: int|
            0 <= i < terms.len() + 2 ==> ((#[trigger] graph.nodes@[i]) is End <==> i
                == terms.len() + 1),
        forall|i: int|
            1 <= i <= terms.len() ==> ((#[trigger] graph.nodes@[i]) is Deleted <==> !kept(
                terms,
                i - 1,
            )),
{
    let n = terms.len() as int;
    let len = n + 2;
    assert forall|i: int| 0 <= i < len implies ((#[trigger] graph.nodes@[i]) is Start <==> i
        == 0) && (graph.nodes@[i] is End <==> i == len - 1) && (1 <= i <= n ==> (
    graph.nodes@[i] is Deleted <==> !kept(terms, i - 1))) by {
        if 1 <= i <= n {
            assert(graph.nodes@[(i - 1) + 1].deep_view() == (if kept(terms, i - 1) {
                QueryNodeView::Term(terms[i - 1].deep_view())
            } else {
                QueryNodeView::Deleted
            }));
        }
    }
    assert forall|a: int, b: int| 0 <= a < len && 0 <= b < len implies (
    #[trigger] graph.edges@[a].successors@.contains(b as u32) <==> term_edge(terms, a, b)) by {
        assert(lists_neighbours(graph.edges@[a].successors@, terms, a, true, len));
        assert(edge_towards(terms, a, b, true) == term_edge(terms, a, b));
    }
    assert forall|a: int, b: int| 0 <= a < len && 0 <= b < len implies (
    #[trigger] graph.edges@[b].predecessors@.contains(a as u32) <==> term_edge(terms, a, b)) by {
        assert(lists_neighbours(graph.edges@[b].predecessors@, terms, b, false, len));
        assert(edge_towards(terms, b, a, false) == term_edge(terms, a, b));
    }
}

/// A graph assembled by the construction rules is well formed.
#[verifier::rlimit(40)]
pub proof fn lemma_assembled_wf(graph: QueryGraph, terms: Seq<LocatedQueryTerm>)
    requires
        assembled(graph, terms),
    ensures
        graph.wf(),
        graph.built_from(terms),
{
    let n = terms.len() as int;
    let len = n + 2;
    lemma_assembled_edges(graph, terms);
    assert forall|a: int, k: int|
        0 <= a < len && 0 <= k < graph.edges@[a].successors@.len() implies {
        let b = #[trigger] graph.edges@[a].successors@[k];
        &&& a < b < len
        &&& !(graph.nodes@[a] is Deleted)
        &&& !(graph.nodes@[b as int] is Deleted)
    } by {
        let list = graph.edges@[a].successors@;
        let b = list[k];
        assert(lists_neighbours(list, terms, a, true, len));
        assert(list.contains(b));
        assert(graph.edges@[a].successors@.contains(b as int as u32));
        lemma_term_edge_forward(terms, a, b as int);
    }
    assert forall|b: int, k: int|
        0 <= b < len && 0 <= k < graph.edges@[b].predecessors@.len() implies (
    #[trigger] graph.edges@[b].predecessors@[k]) < b by {
        let list = graph.edges@[b].predecessors@;
        let a = list[k];
        assert(lists_neighbours(list, terms, b, false, len));
        assert(list.contains(a));
        assert(graph.edges@[b].predecessors@.contains(a as int as u32));
        lemma_term_edge_forward(terms, a as int, b);
    }
    assert forall|a: int| 0 <= a < len implies strictly_increasing(
        (#[trigger] graph.edges@[a]).successors@,
    ) && strictly_increasing(graph.edges@[a].predecessors@) by {
        assert(lists_neighbours(graph.edges@[a].successors@, terms, a, true, len));
    }
    assert forall|a: int, b: int| 0 <= a < len && 0 <= b < len implies (
    graph.edges@[a].successors@.contains(b as u32)
        <==> #[trigger] graph.edges@[b].predecessors@.contains(a as u32)) by {}
    assert forall|a: int, b: int| 0 <= a < len && 0 <= b < len implies (#[trigger] graph.has_edge(
        a,
        b,
    ) <==> term_edge(terms, a, b)) by {}
}

/// In an assembled graph the start node has a successor, and the end node
/// a predecessor, exactly when `term_edge` gives one.
pub proof fn lemma_assembled_ends(graph: QueryGraph, terms: Seq<LocatedQueryTerm>)
    requires
        assembled(graph, terms),
    ensures
        graph.edges@[0].successors@.len() > 0 <==> exists|b: int|
            0 < b <= terms.len() + 1 && #[trigger] term_edge(terms, 0, b),
        graph.edges@[terms.len() as int + 1].predecessors@.len() > 0 <==> exists|a: int|
            0 <= a < terms.len() + 1 && #[trigger] term_edge(terms, a, terms.len() as int + 1),
{
    let n = terms.len() as int;
    let len = n + 2;
    lemma_assembled_edges(graph, terms);
    let succ0 = graph.edges@[0].successors@;
    assert(lists_neighbours(succ0, terms, 0, true, len));
    if succ0.len() > 0 {
        let b = succ0[0];
        assert(succ0.contains(b));
        assert(graph.edges@[0].successors@.contains(b as int as u32));
        lemma_term_edge_forward(terms, 0, b as int);
        assert(term_edge(terms, 0, b as int));
    }
    if exists|b: int| 0 < b <= n + 1 && #[trigger] term_edge(terms, 0, b) {
        let b = choose|b: int| 0 < b <= n + 1 && #[trigger] term_edge(terms, 0, b);
        assert(graph.edges@[0].successors@.contains(b as u32));
    }
    let pred_end = graph.edges@[n + 1].predecessors@;
    assert(lists_neighbours(pred_end, terms, n + 1, false, len));
    if pred_end.len() > 0 {
        let a = pred_end[0];
        assert(pred_end.contains(a));
        assert(graph.edges@[n + 1].predecessors@.contains(a as int as u32));
        lemma_term_edge_forward(terms, a as int, n + 1);
        assert(term_edge(terms, a as int, n + 1));
    }
    if exists|a: int| 0 <= a < n + 1 && #[trigger] term_edge(terms, a, n + 1) {
        let a = choose|a: int| 0 <= a < n + 1 && #[trigger] term_edge(terms, a, n + 1);
        assert(graph.edges@[n + 1].predecessors@.contains(a as u32));
    }
}

/// In an assembled graph of which the start node has a successor and the
/// end node a predecessor, every live node has both.
#[verifier::rlimit(40)]
pub proof fn lemma_assembled_connected(graph: QueryGraph, terms: Seq<LocatedQueryTerm>)
    requires
        assembled(graph, terms),
        graph.edges@[0].successors@.len() > 0,
        graph.edges@[terms.len() as int + 1].predecessors@.len() > 0,
    ensures
        graph.connected(),
{
    let n = terms.len() as int;
    let len = n + 2;
    lemma_assembled_edges(graph, terms);
    assert forall|i: int|
        0 < i < len && !((#[trigger] graph.nodes@[i]) is Deleted)
            implies graph.edges@[i].predecessors@.len() > 0 by {
        if i <= n {
            let t = i - 1;
            assert(kept(terms, t));
            if terms[t].start == terms[0].start {
                assert(term_edge(terms, 0, i));
                assert(graph.edges@[i].predecessors@.contains(0int as u32));
            } else {
                let j = choose|j: int|
                    0 <= j < t && from_start(terms, j) && #[trigger] adjacent(terms, j, t);
                assert(to_end(terms, j));
                assert(term_edge(terms, j + 1, i));
                assert(graph.edges@[i].predecessors@.contains((j + 1) as u32));
            }
        }
    }
    assert forall|i: int|
        0 <= i < len - 1 && !((#[trigger] graph.nodes@[i]) is Deleted)
            implies graph.edges@[i].successors@.len() > 0 by {
        if i >= 1 {
            let t = i - 1;
            assert(kept(terms, t));
            if ends_last(terms, t) {
                assert(term_edge(terms, i, n + 1));
                assert(graph.edges@[i].successors@.contains((n + 1) as u32));
            } else {
                let j = choose|j: int|
                    t < j < terms.len() && to_end(terms, j) && #[trigger] adjacent(terms, t, j);
                assert(from_start(terms, j));
                assert(term_edge(terms, i, j + 1));
                assert(graph.edges@[i].successors@.contains((j + 1) as u32));
            }
        }
    }
}

/// The refusal of a sequence of terms: it names the terms as the field at
/// fault, and no value.
fn terms_refused() -> (e: Error)
    ensures
        e matches Error::InvalidQuery { parameter: Some(name), field, value } && name@ == "terms"@
            && field@ == "terms"@ && value@.len() == 0,
{
    Error::InvalidQuery {
        parameter: Some("terms".to_owned()),
        field: "terms".to_owned(),
        value: String::new(),
    }
}

impl QueryGraph {
    /// Builds the query graph of a sequence of located terms.
    ///
    /// The start node comes first, then one node for each term in the order
    /// given, then the end node. The start node leads to the terms that
    /// begin at the first slot, a term leads to each term that begins right
    /// after it, and the terms that reach the final slot lead to the end
    /// node. A term that lies on no chain from the first slot to the last is
    /// replaced by a tombstone and has no edge.
    ///
    /// The terms are refused with `InvalidQuery` when a span is reversed,
    /// when they do not come in the order of their first slot, when they are
    /// too many to index, or when no chain of terms covers the input. The
    /// refusal names the field `terms`, and no value.
    #[verifier::rlimit(40)]
    pub fn from_terms(terms: &Vec<LocatedQueryTerm>) -> (r: Result<QueryGraph, Error>)
        ensures
            r is Ok <==> valid_terms(terms@) && covering(terms@),
            r matches Ok(graph) ==> graph.wf() && graph.connected() && graph.built_from(terms@),
            r matches Err(e) ==> (e matches Error::InvalidQuery {
                parameter: Some(name),
                field,
                value,
            } && name@ == "terms"@ && field@ == "terms"@ && value@.len() == 0),
    {
        if !terms_are_valid(terms) {
            return Err(terms_refused());
        }
        let n = terms.len();
        let last = final_slot(terms);
        let starts = chained_from_start(terms);
        let ends = chained_to_end(terms, last);
        let mut flags: Vec<bool> = Vec::new();
        let mut nodes: Vec<QueryNode> = Vec::new();
        nodes.push(QueryNode::Start);
        let mut i: usize = 0;
        while i < n
            invariant
                n == terms@.len(),
                starts@.len() == n,
                ends@.len() == n,
                i <= n,
                flags@.len() == i,
                nodes@.len() == i + 1,
                nodes@[0] is Start,
                forall|k: int| 0 <= k < n ==> #[trigger] starts@[k] == from_start(terms@, k),
                forall|k: int| 0 <= k < n ==> #[trigger] ends@[k] == to_end(terms@, k),
                forall|k: int| 0 <= k < i ==> #[trigger] flags@[k] == kept(terms@, k),
                forall|k: int|
                    0 <= k < i ==> (#[trigger] nodes@[k + 1]).deep_view() == (if kept(terms@, k) {
                        QueryNodeView::Term(terms@[k].deep_view())
                    } else {
                        QueryNodeView::Deleted
                    }),
            decreases n - i,
        {
            let keep = starts[i] && ends[i];
            flags.push(keep);
            if keep {
                nodes.push(QueryNode::Term(terms[i].clone_located()));
            } else {
                nodes.push(QueryNode::Deleted);
            }
            assert forall|k: int| 0 <= k < i + 1 implies (#[trigger] nodes@[k + 1]).deep_view()
                == (if kept(terms@, k) {
                QueryNodeView::Term(terms@[k].deep_view())
            } else {
                QueryNodeView::Deleted
            }) by {}
            i += 1;
        }
        nodes.push(QueryNode::End);
        let mut edges: Vec<Edges> = Vec::new();
        let mut a: usize = 0;
        while a < n + 2
            invariant
                n == terms@.len(),
                marks_kept(terms@, flags@, last),
                a <= n + 2,
                edges@.len() == a,
                forall|k: int|
                    0 <= k < a ==> lists_neighbours(
                        (#[trigger] edges@[k]).successors@,
                        terms@,
                        k,
                        true,
                        n + 2,
                    ) && lists_neighbours(edges@[k].predecessors@, terms@, k, false, n + 2),
            decreases n + 2 - a,
        {
            let predecessors = neighbours(terms, &flags, last, a, false);
            let successors = neighbours(terms, &flags, last, a, true);
            edges.push(Edges { predecessors, successors });
            a += 1;
        }
        let covered = edges[0].successors.len() > 0 && edges[n + 1].predecessors.len() > 0;
        let graph = QueryGraph { root_node: 0, end_node: (n + 1) as u32, nodes, edges };
        proof {
            assert forall|k: int| 0 <= k < n implies (#[trigger] graph.nodes@[k + 1]).deep_view()
                == (if kept(terms@, k) {
                QueryNodeView::Term(terms@[k].deep_view())
            } else {
                QueryNodeView::Deleted
            }) by {}
            assert(assembled(graph, terms@));
            lemma_assembled_wf(graph, terms@);
            lemma_assembled_ends(graph, terms@);
            if covered {
                lemma_assembled_connected(graph, terms@);
            }
        }
        if !covered {
            return Err(terms_refused());
        }
        Ok(graph)
    }
}

impl QueryGraph {
    /// Whether each node of the chain leads to the next one by an edge of
    /// the graph.
    pub open spec fn is_chain(self, chain: Seq<int>) -> bool {
        forall|i: int| 0 < i < chain.len() ==> #[trigger] self.links(chain, i)
    }

    /// Whether an edge of the graph leads to the node at place `i` of the
    /// chain from the node before it.
    pub open spec fn links(self, chain: Seq<int>, i: int) -> bool {
        self.has_edge(chain[i - 1], chain[i])
    }

    /// In a connected graph, a chain of edges leads from every live node to
    /// the end node.
    pub proof fn lemma_reaches_end(self, node: int)
        requires
            self.wf(),
            self.connected(),
            0 <= node < self.nodes@.len(),
            !(self.nodes@[node] is Deleted),
        ensures
            exists|chain: Seq<int>|
                #[trigger] self.is_chain(chain) && chain.len() > 0 && chain[0] == node
                    && chain.last() == self.nodes@.len() - 1,
        decreases self.nodes@.len() - node,
    {
        let end = self.nodes@.len() - 1;
        if node == end {
            let chain = seq![node];
            assert(self.is_chain(chain));
        } else {
            let next = self.edges@[node].successors@[0];
            assert(self.edges@[node].successors@.contains(next));
            self.lemma_reaches_end(next as int);
            let rest = choose|chain: Seq<int>|
                #[trigger] self.is_chain(chain) && chain.len() > 0 && chain[0] == next as int
                    && chain.last() == end;
            let chain = seq![node] + rest;
            assert forall|i: int| 0 < i < chain.len() implies #[trigger] self.links(chain, i) by {
                if i > 1 {
                    assert(self.links(rest, i - 1));
                } else {
                    assert(chain[1] == next as int);
                    assert(self.has_edge(node, next as int));
                }
            }
            assert(self.is_chain(chain));
            assert(chain.last() == rest.last());
        }
    }

    /// In a connected graph, a chain of edges leads from the start node to
    /// every live node.
    pub proof fn lemma_reached_from_start(self, node: int)
        requires
            self.wf(),
            self.connected(),
            0 <= node < self.nodes@.len(),
            !(self.nodes@[node] is Deleted),
        ensures
            exists|chain: Seq<int>|
                #[trigger] self.is_chain(chain) && chain.len() > 0 && chain[0] == 0
                    && chain.last() == node,
        decreases node,
    {
        if node == 0 {
            let chain = seq![node];
            assert(self.is_chain(chain));
        } else {
            let prev = self.edges@[node].predecessors@[0];
            assert(self.edges@[node].predecessors@.contains(prev));
            assert(self.edges@[node].predecessors@.contains((prev as int) as u32));
            assert(self.edges@[prev as int].successors@.contains(node as u32));
            let k = choose|k: int|
                0 <= k < self.edges@[prev as int].successors@.len()
                    && self.edges@[prev as int].successors@[k] == node as u32;
            assert(!(self.nodes@[prev as int] is Deleted));
            self.lemma_reached_from_start(prev as int);
            let before = choose|chain: Seq<int>|
                #[trigger] self.is_chain(chain) && chain.len() > 0 && chain[0] == 0
                    && chain.last() == prev as int;
            let chain = before.push(node);
            assert forall|i: int| 0 < i < chain.len() implies #[trigger] self.links(chain, i) by {
                if i < before.len() {
                    assert(self.links(before, i));
                } else {
                    assert(self.has_edge(prev as int, node));
                }
            }
            assert(self.is_chain(chain));
        }
    }
}

} // verus!
