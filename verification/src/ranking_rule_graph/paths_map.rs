//! A collection of paths through a ranking-rule graph, each with a value,
//! kept as a trie: the paths that begin alike share their beginning.

use vstd::prelude::*;

verus! {

/// A trie of paths. A node stands for the path that leads to it from the
/// root, edge after edge; `value` is there if this path is in the
/// collection, and `nodes` holds, under the edge that comes next, the node
/// of each longer path. Of two entries of `nodes` under the same edge,
/// only the first counts.
#[derive(Debug)]
pub struct PathsMap<V> {
    pub nodes: Vec<(u32, PathsMap<V>)>,
    pub value: Option<V>,
}

/// A path, as the ids of its edges, and the value kept for it.
#[derive(Debug)]
pub struct PathEntry<V> {
    pub path: Vec<u32>,
    pub value: V,
}

/// Copies a path.
pub fn clone_path(path: &Vec<u32>) -> (copy: Vec<u32>)
    ensures
        copy@ == path@,
{
    let mut copy: Vec<u32> = Vec::new();
    let mut i: usize = 0;
    while i < path.len()
        invariant
            i <= path@.len(),
            copy@ == path@.take(i as int),
        decreases path@.len() - i,
    {
        copy.push(path[i]);
        assert(path@.take(i + 1) == path@.take(i as int).push(path@[i as int]));
        i += 1;
    }
    assert(path@.take(path@.len() as int) == path@);
    copy
}

/// A prefix of a prefix is a prefix.
pub proof fn lemma_prefix_transitive(a: Seq<u32>, b: Seq<u32>, c: Seq<u32>)
    requires
        a.is_prefix_of(b),
        b.is_prefix_of(c),
    ensures
        a.is_prefix_of(c),
{
    assert(c.subrange(0, a.len() as int) =~= a) by {
        assert forall|i: int| 0 <= i < a.len() implies c[i] == a[i] by {
            assert(b.subrange(0, a.len() as int)[i] == b[i]);
            assert(c.subrange(0, b.len() as int)[i] == c[i]);
        }
    }
}

/// The place, among the children of a node, of the first one under the
/// edge `e`.
pub open spec fn child_index<V>(nodes: Seq<(u32, PathsMap<V>)>, e: u32) -> Option<int>
    decreases nodes.len(),
{
    if nodes.len() == 0 {
        None
    } else {
        match child_index(nodes.drop_last(), e) {
            Some(i) => Some(i),
            None => if nodes.last().0 == e {
                Some(nodes.len() - 1)
            } else {
                None
            },
        }
    }
}

/// The place found for an edge holds a child under this edge, and no
/// earlier place does.
pub proof fn lemma_child_index<V>(nodes: Seq<(u32, PathsMap<V>)>, e: u32)
    ensures
        child_index(nodes, e) matches Some(i) ==> 0 <= i < nodes.len() && nodes[i].0 == e
            && forall|j: int| 0 <= j < i ==> (#[trigger] nodes[j]).0 != e,
        child_index(nodes, e) is None ==> forall|j: int|
            0 <= j < nodes.len() ==> (#[trigger] nodes[j]).0 != e,
    decreases nodes.len(),
{
    if nodes.len() > 0 {
        lemma_child_index(nodes.drop_last(), e);
        assert forall|j: int| 0 <= j < nodes.len() - 1 implies nodes[j] == nodes.drop_last()[j] by {}
        if child_index(nodes.drop_last(), e) is None {
            assert forall|j: int| 0 <= j < nodes.len() - 1 implies (#[trigger] nodes[j]).0 != e by {
                assert(nodes.drop_last()[j].0 != e);
            }
        } else {
            let i = child_index(nodes.drop_last(), e)->0;
            assert forall|j: int| 0 <= j < i implies (#[trigger] nodes[j]).0 != e by {
                assert(nodes.drop_last()[j].0 != e);
            }
        }
    }
}

/// The first child under an edge is found by its place.
pub proof fn lemma_child_index_is<V>(nodes: Seq<(u32, PathsMap<V>)>, e: u32, i: int)
    requires
        0 <= i < nodes.len(),
        nodes[i].0 == e,
        forall|j: int| 0 <= j < i ==> (#[trigger] nodes[j]).0 != e,
    ensures
        child_index(nodes, e) == Some(i),
{
    lemma_child_index(nodes, e);
}

impl<V> PathsMap<V> {
    /// The value kept for a path, if the path is in the collection.
    pub open spec fn get(self, path: Seq<u32>) -> Option<V>
        decreases path.len(),
    {
        if path.len() == 0 {
            self.value
        } else {
            match child_index(self.nodes@, path[0]) {
                Some(i) => self.nodes@[i].1.get(path.skip(1)),
                None => None,
            }
        }
    }

    /// Whether `path` is one of the paths of the collection.
    pub open spec fn contains(self, path: Seq<u32>) -> bool {
        self.get(path) is Some
    }

    /// Whether `path` is held with the value `value`.
    pub open spec fn holds(self, path: Seq<u32>, value: V) -> bool {
        self.get(path) == Some(value)
    }

    /// Whether `path` begins with a path of the collection.
    pub open spec fn covers(self, path: Seq<u32>) -> bool {
        exists|k: int| 0 <= k <= path.len() && #[trigger] self.contains(path.take(k))
    }

    /// No path of the collection begins with another one.
    pub open spec fn wf(self) -> bool {
        forall|longer: Seq<u32>, k: int|
            0 <= k < longer.len() && self.contains(longer) ==> !#[trigger] self.contains(
                longer.take(k),
            )
    }

    /// Below a node without value, a path is covered exactly when its rest
    /// is covered below the child under its first edge.
    pub proof fn lemma_covers_step(self, path: Seq<u32>)
        requires
            path.len() > 0,
        ensures
            self.covers(path) <==> self.value is Some || (child_index(self.nodes@, path[0]) matches Some(
                i,
            ) && self.nodes@[i].1.covers(path.skip(1))),
    {
        let rest = path.skip(1);
        assert(path.take(0) =~= Seq::<u32>::empty());
        if self.covers(path) {
            let k = choose|k: int| 0 <= k <= path.len() && #[trigger] self.contains(path.take(k));
            if k > 0 {
                assert(path.take(k)[0] == path[0]);
                assert(path.take(k).skip(1) =~= rest.take(k - 1));
                let i = child_index(self.nodes@, path[0])->0;
                assert(self.nodes@[i].1.contains(rest.take(k - 1)));
            }
        }
        if self.value is Some {
            assert(self.contains(path.take(0)));
        }
        if child_index(self.nodes@, path[0]) matches Some(i) && self.nodes@[i].1.covers(rest) {
            let i = child_index(self.nodes@, path[0])->0;
            let k = choose|k: int|
                0 <= k <= rest.len() && #[trigger] self.nodes@[i].1.contains(rest.take(k));
            assert(path.take(k + 1)[0] == path[0]);
            assert(path.take(k + 1).skip(1) =~= rest.take(k));
            assert(self.contains(path.take(k + 1)));
        }
    }

    /// What covers a path covers every path that begins with it.
    pub proof fn lemma_covers_extensions(self, path: Seq<u32>, longer: Seq<u32>)
        requires
            self.covers(path),
            path.is_prefix_of(longer),
        ensures
            self.covers(longer),
    {
        let k = choose|k: int| 0 <= k <= path.len() && #[trigger] self.contains(path.take(k));
        assert(longer.take(k) =~= path.take(k)) by {
            assert forall|i: int| 0 <= i < k implies longer[i] == path[i] by {
                assert(longer.subrange(0, path.len() as int)[i] == longer[i]);
            }
        }
        assert(self.contains(longer.take(k)));
    }

    /// Creates an empty collection.
    pub fn new() -> (map: PathsMap<V>)
        ensures
            forall|path: Seq<u32>| map.get(path) is None,
            forall|path: Seq<u32>| !map.covers(path),
            map.wf(),
    {
        let map = PathsMap { nodes: Vec::new(), value: None };
        proof {
            assert forall|path: Seq<u32>| map.get(path) is None by {}
        }
        map
    }

    fn first_child(&self, e: u32) -> (found: Option<usize>)
        ensures
            match child_index(self.nodes@, e) {
                Some(i) => (found matches Some(j) && j == i && j < self.nodes@.len()),
                None => found is None,
            },
    {
        let mut i: usize = 0;
        while i < self.nodes.len()
            invariant
                i <= self.nodes@.len(),
                forall|j: int| 0 <= j < i ==> (#[trigger] self.nodes@[j]).0 != e,
            decreases self.nodes@.len() - i,
        {
            if self.nodes[i].0 == e {
                proof {
                    lemma_child_index_is(self.nodes@, e, i as int);
                }
                return Some(i);
            }
            i += 1;
        }
        proof {
            lemma_child_index(self.nodes@, e);
        }
        None
    }

    /// Tells whether `path` begins with one of the paths of the collection.
    pub fn contains_prefix_of_path(&self, path: &Vec<u32>) -> (covered: bool)
        ensures
            covered == self.covers(path@),
    {
        let mut node = self;
        let mut k: usize = 0;
        proof {
            assert(path@.skip(0) =~= path@);
        }
        loop
            invariant
                k <= path@.len(),
                self.covers(path@) == node.covers(path@.skip(k as int)),
            decreases path@.len() - k,
        {
            let ghost rest = path@.skip(k as int);
            if node.value.is_some() {
                proof {
                    assert(rest.take(0) =~= Seq::<u32>::empty());
                    assert(node.contains(rest.take(0)));
                }
                return true;
            }
            if k == path.len() {
                proof {
                    if node.covers(rest) {
                        let j = choose|j: int|
                            0 <= j <= rest.len() && #[trigger] node.contains(rest.take(j));
                        assert(rest.take(j) =~= Seq::<u32>::empty());
                    }
                }
                return false;
            }
            proof {
                node.lemma_covers_step(rest);
                assert(rest[0] == path@[k as int]);
                assert(rest.skip(1) =~= path@.skip(k + 1));
            }
            let e = path[k];
            assert(e == rest[0]);
            match node.first_child(e) {
                Some(i) => {
                    assert(child_index(node.nodes@, e) is Some);
                    assert(child_index(node.nodes@, e)->0 == i as int);
                    assert(child_index(node.nodes@, rest[0]) == Some(i as int));
                    assert(node.covers(rest) == node.nodes@[i as int].1.covers(rest.skip(1)));
                    node = &node.nodes[i].1;
                },
                None => {
                    return false;
                },
            }
            k += 1;
        }
    }
}

/// Children with the same edges at the same places are found at the same
/// places.
pub proof fn lemma_child_index_same_edges<V>(
    a: Seq<(u32, PathsMap<V>)>,
    b: Seq<(u32, PathsMap<V>)>,
    e: u32,
)
    requires
        a.len() == b.len(),
        forall|i: int| 0 <= i < a.len() ==> (#[trigger] a[i]).0 == b[i].0,
    ensures
        child_index(a, e) == child_index(b, e),
    decreases a.len(),
{
    if a.len() > 0 {
        lemma_child_index_same_edges(a.drop_last(), b.drop_last(), e);
        assert(a.last() == a[a.len() - 1]);
        assert(b.last() == b[b.len() - 1]);
    }
}

/// What a collection holds after `path` came in with `value`: if the
/// collection covered the path, what it held; otherwise the path with its
/// value, none of the paths that begin with it, and the others as before.
pub open spec fn inserted<V>(
    before: PathsMap<V>,
    after: PathsMap<V>,
    path: Seq<u32>,
    value: V,
) -> bool {
    if before.covers(path) {
        forall|other: Seq<u32>| #[trigger] after.get(other) == before.get(other)
    } else {
        forall|other: Seq<u32>|
            #[trigger] after.get(other) == (if other == path {
                Some(value)
            } else if path.is_prefix_of(other) {
                None
            } else {
                before.get(other)
            })
    }
}

/// The first edge and the rest of a path tell whether it begins with
/// another one.
proof fn lemma_prefix_by_rest(path: Seq<u32>, other: Seq<u32>)
    requires
        path.len() > 0,
        other.len() > 0,
    ensures
        path.is_prefix_of(other) <==> path[0] == other[0] && path.skip(1).is_prefix_of(
            other.skip(1),
        ),
        path == other <==> path[0] == other[0] && path.skip(1) == other.skip(1),
{
    if path.is_prefix_of(other) {
        assert(other.subrange(0, path.len() as int)[0] == other[0]);
        assert(other.skip(1).subrange(0, path.len() - 1) =~= path.skip(1)) by {
            assert forall|i: int| 0 <= i < path.len() - 1 implies other.skip(1)[i] == path.skip(
                1,
            )[i] by {
                assert(other.subrange(0, path.len() as int)[i + 1] == other[i + 1]);
            }
        }
    }
    if path[0] == other[0] && path.skip(1).is_prefix_of(other.skip(1)) {
        assert(other.subrange(0, path.len() as int) =~= path) by {
            assert forall|i: int| 0 <= i < path.len() implies other[i] == path[i] by {
                if i > 0 {
                    assert(other.skip(1).subrange(0, path.len() - 1)[i - 1] == other.skip(1)[i
                        - 1]);
                    assert(path.skip(1)[i - 1] == path[i]);
                }
            }
        }
    }
    if path[0] == other[0] && path.skip(1) == other.skip(1) {
        assert(path =~= other) by {
            assert(path.len() == other.len());
            assert forall|i: int| 0 <= i < path.len() implies path[i] == other[i] by {
                if i > 0 {
                    assert(path.skip(1)[i - 1] == path[i]);
                    assert(other.skip(1)[i - 1] == other[i]);
                }
            }
        }
    }
}

impl<V> PathsMap<V> {
    /// Adds the rest of `path` from its edge `k` on below this node.
    #[verifier::rlimit(40)]
    fn insert_at(&mut self, path: &Vec<u32>, k: usize, value: V)
        requires
            k <= path@.len(),
        ensures
            inserted(*old(self), *final(self), path@.skip(k as int), value),
        decreases path@.len() - k,
    {
        let ghost before = *self;
        let ghost rest = path@.skip(k as int);
        if self.value.is_some() {
            proof {
                assert(rest.take(0) =~= Seq::<u32>::empty());
                assert(before.contains(rest.take(0)));
            }
            return ;
        }
        if k == path.len() {
            self.value = Some(value);
            self.nodes = Vec::new();
            proof {
                assert(rest =~= Seq::<u32>::empty());
                if before.covers(rest) {
                    let j = choose|j: int|
                        0 <= j <= rest.len() && #[trigger] before.contains(rest.take(j));
                    assert(rest.take(j) =~= Seq::<u32>::empty());
                }
                assert forall|other: Seq<u32>|
                    #[trigger] self.get(other) == (if other == rest {
                        Some(value)
                    } else if rest.is_prefix_of(other) {
                        None
                    } else {
                        before.get(other)
                    }) by {
                    if other.len() == 0 {
                        assert(other =~= rest);
                    } else {
                        assert(other.subrange(0, 0) =~= rest);
                    }
                }
            }
            return ;
        }
        let e = path[k];
        proof {
            assert(rest[0] == e);
            assert(rest.skip(1) =~= path@.skip(k + 1));
            before.lemma_covers_step(rest);
        }
        match self.first_child(e) {
            Some(i) => {
                let ghost child = self.nodes@[i as int].1;
                self.nodes[i].1.insert_at(path, k + 1, value);
                proof {
                    let after = self.nodes@[i as int].1;
                    assert(self.nodes@.len() == before.nodes@.len());
                    assert forall|j: int| 0 <= j < self.nodes@.len() implies (
                    #[trigger] self.nodes@[j]).0 == before.nodes@[j].0 && (j != i
                        ==> self.nodes@[j] == before.nodes@[j]) by {}
                    assert forall|other: Seq<u32>|
                        other.len() > 0 implies #[trigger] self.get(other) == (if other[0] == e {
                        after.get(other.skip(1))
                    } else {
                        before.get(other)
                    }) && child_index(self.nodes@, other[0]) == child_index(
                        before.nodes@,
                        other[0],
                    ) by {
                        lemma_child_index_same_edges(self.nodes@, before.nodes@, other[0]);
                        lemma_child_index(before.nodes@, other[0]);
                        let found = child_index(before.nodes@, other[0]);
                        if other[0] == e {
                            assert(found == Some(i as int));
                            assert(self.nodes@[i as int].1 == after);
                        } else if found is Some {
                            lemma_child_index(before.nodes@, e);
                            assert(before.nodes@[i as int].0 == e);
                            assert(before.nodes@[found->0].0 == other[0]);
                            assert(found->0 != i);
                            assert(self.nodes@[found->0] == before.nodes@[found->0]);
                        }
                    }
                    assert(before.covers(rest) == child.covers(rest.skip(1)));
                    assert forall|other: Seq<u32>|
                        #[trigger] self.get(other) == (if before.covers(rest) {
                            before.get(other)
                        } else if other == rest {
                            Some(value)
                        } else if rest.is_prefix_of(other) {
                            None
                        } else {
                            before.get(other)
                        }) by {
                        if other.len() > 0 {
                            lemma_prefix_by_rest(rest, other);
                            if other[0] == e {
                                assert(before.get(other) == child.get(other.skip(1)));
                                assert(after.get(other.skip(1)) == (if child.covers(rest.skip(1)) {
                                    child.get(other.skip(1))
                                } else if other.skip(1) == rest.skip(1) {
                                    Some(value)
                                } else if rest.skip(1).is_prefix_of(other.skip(1)) {
                                    None
                                } else {
                                    child.get(other.skip(1))
                                }));
                            }
                        }
                    }
                }
            },
            None => {
                let mut fresh = PathsMap { nodes: Vec::new(), value: None };
                let ghost empty = fresh;
                proof {
                    assert forall|other: Seq<u32>| empty.get(other) is None by {}
                    if empty.covers(rest.skip(1)) {
                        let j = choose|j: int|
                            0 <= j <= rest.skip(1).len() && #[trigger] empty.contains(
                                rest.skip(1).take(j),
                            );
                        assert(false);
                    }
                }
                fresh.insert_at(path, k + 1, value);
                let ghost chain = fresh;
                self.nodes.push((e, fresh));
                proof {
                    assert(self.nodes@.drop_last() == before.nodes@);
                    assert(self.nodes@.last() == (e, chain));
                    lemma_child_index(before.nodes@, e);
                    assert(!before.covers(rest));
                    assert forall|other: Seq<u32>|
                        #[trigger] self.get(other) == (if other == rest {
                            Some(value)
                        } else if rest.is_prefix_of(other) {
                            None
                        } else {
                            before.get(other)
                        }) by {
                        if other.len() > 0 {
                            lemma_prefix_by_rest(rest, other);
                            lemma_child_index(before.nodes@, other[0]);
                            if other[0] == e {
                                assert(child_index(self.nodes@, e) == Some(
                                    self.nodes@.len() - 1,
                                ));
                                assert(self.get(other) == chain.get(other.skip(1)));
                                assert(before.get(other) is None);
                                assert(chain.get(other.skip(1)) == (if other.skip(1) == rest.skip(
                                    1,
                                ) {
                                    Some(value)
                                } else if rest.skip(1).is_prefix_of(other.skip(1)) {
                                    None
                                } else {
                                    empty.get(other.skip(1))
                                }));
                            } else {
                                let found = child_index(before.nodes@, other[0]);
                                assert(child_index(self.nodes@, other[0]) == found);
                                if found is Some {
                                    assert(self.nodes@[found->0] == before.nodes@[found->0]);
                                }
                            }
                        } else {
                            assert(self.get(other) == before.get(other));
                        }
                    }
                }
            },
        }
    }

    /// Adds `path` with `value`, keeping the collection free of prefixes:
    /// if the collection already covers `path`, it stays as it is;
    /// otherwise the paths that begin with `path` leave and `path` comes
    /// in.
    pub fn insert(&mut self, path: Vec<u32>, value: V)
        ensures
            inserted(*old(self), *final(self), path@, value),
            old(self).wf() ==> final(self).wf(),
            forall|other: Seq<u32>|
                #![trigger final(self).covers(other)]
                #![trigger old(self).covers(other)]
                final(self).covers(other) <==> old(self).covers(other) || path@.is_prefix_of(other),
    {
        let ghost before = *self;
        proof {
            assert(path@.skip(0) =~= path@);
        }
        self.insert_at(&path, 0, value);
        proof {
            lemma_inserted_covers(before, *self, path@, value);
            if before.wf() {
                lemma_inserted_wf(before, *self, path@, value);
            }
        }
    }
}

/// After a path came in, the collection covers what it covered and what
/// begins with the path.
#[verifier::rlimit(40)]
pub proof fn lemma_inserted_covers<V>(
    before: PathsMap<V>,
    after: PathsMap<V>,
    path: Seq<u32>,
    value: V,
)
    requires
        inserted(before, after, path, value),
    ensures
        forall|other: Seq<u32>|
            #![trigger after.covers(other)]
            #![trigger before.covers(other)]
            after.covers(other) <==> before.covers(other) || path.is_prefix_of(other),
{
    assert forall|other: Seq<u32>|
        #![trigger after.covers(other)]
        #![trigger before.covers(other)]
        after.covers(other) <==> before.covers(other) || path.is_prefix_of(other) by {
        if before.covers(path) {
            if after.covers(other) {
                let k = choose|k: int|
                    0 <= k <= other.len() && #[trigger] after.contains(other.take(k));
                assert(before.contains(other.take(k)));
            }
            if before.covers(other) {
                let k = choose|k: int|
                    0 <= k <= other.len() && #[trigger] before.contains(other.take(k));
                assert(after.contains(other.take(k)));
            }
            if path.is_prefix_of(other) {
                before.lemma_covers_extensions(path, other);
                let k = choose|k: int|
                    0 <= k <= other.len() && #[trigger] before.contains(other.take(k));
                assert(after.contains(other.take(k)));
            }
        } else {
            if after.covers(other) && !path.is_prefix_of(other) {
                let k = choose|k: int|
                    0 <= k <= other.len() && #[trigger] after.contains(other.take(k));
                let part = other.take(k);
                assert(after.get(part) is Some);
                if part == path {
                    assert(other.subrange(0, path.len() as int) =~= path);
                }
                assert(before.contains(part));
            }
            if before.covers(other) {
                let k = choose|k: int|
                    0 <= k <= other.len() && #[trigger] before.contains(other.take(k));
                let part = other.take(k);
                if path.is_prefix_of(part) {
                    if part != path {
                        assert(part.is_prefix_of(other)) by {
                            assert(other.subrange(0, part.len() as int) =~= part);
                        }
                        lemma_prefix_transitive(path, part, other);
                        assert(other.take(path.len() as int) =~= path);
                        assert(after.contains(other.take(path.len() as int)));
                    } else {
                        assert(after.contains(part));
                    }
                } else {
                    assert(after.contains(part));
                }
            }
            if path.is_prefix_of(other) {
                assert(other.take(path.len() as int) =~= path);
                assert(after.contains(other.take(path.len() as int)));
            }
        }
    }
}

/// A collection free of prefixes stays so when a path comes in.
pub proof fn lemma_inserted_wf<V>(
    before: PathsMap<V>,
    after: PathsMap<V>,
    path: Seq<u32>,
    value: V,
)
    requires
        inserted(before, after, path, value),
        before.wf(),
    ensures
        after.wf(),
{
    assert forall|longer: Seq<u32>, k: int|
        0 <= k < longer.len() && after.contains(longer) implies !#[trigger] after.contains(
        longer.take(k),
    ) by {
        let part = longer.take(k);
        assert(part.is_prefix_of(longer)) by {
            assert(longer.subrange(0, part.len() as int) =~= part);
        }
        if before.covers(path) {
            assert(before.contains(longer));
            assert(!before.contains(longer.take(k)));
        } else if after.contains(part) {
            if longer == path {
                // a shorter path was in the collection: it covered the new one
                assert(part != path);
                assert(before.contains(path.take(k)));
                assert(false);
            } else {
                assert(!path.is_prefix_of(longer));
                assert(before.contains(longer));
                if part == path {
                    assert(false);
                }
                assert(before.contains(longer.take(k)));
            }
        }
    }
}

/// Whether the list holds `path` with `value`.
pub open spec fn listed<V>(entries: Seq<PathEntry<V>>, path: Seq<u32>, value: V) -> bool {
    exists|i: int|
        0 <= i < entries.len() && (#[trigger] entries[i]).path@ == path && entries[i].value
            == value
}

/// Whether `path` begins with `prefix` and its rest is held with `value`
/// below `node`.
pub open spec fn held_below<V>(
    node: PathsMap<V>,
    prefix: Seq<u32>,
    path: Seq<u32>,
    value: V,
) -> bool {
    prefix.is_prefix_of(path) && node.get(path.skip(prefix.len() as int)) == Some(value)
}

/// Whether `path` begins with `prefix`, goes on below one of the first
/// `count` children of `node`, and is held there with `value`.
pub open spec fn held_by_child<V>(
    node: PathsMap<V>,
    prefix: Seq<u32>,
    count: int,
    path: Seq<u32>,
    value: V,
) -> bool {
    let n = prefix.len() as int;
    prefix.is_prefix_of(path) && path.len() > n && match child_index(node.nodes@, path[n]) {
        Some(c) => c < count && node.nodes@[c].1.get(path.skip(n + 1)) == Some(value),
        None => false,
    }
}

/// A path begins with a prefix and one more edge exactly when it begins
/// with the prefix and goes on with this edge.
proof fn lemma_prefix_push(prefix: Seq<u32>, e: u32, path: Seq<u32>)
    ensures
        prefix.push(e).is_prefix_of(path) <==> prefix.is_prefix_of(path) && path.len()
            > prefix.len() && path[prefix.len() as int] == e,
{
    let n = prefix.len() as int;
    if prefix.push(e).is_prefix_of(path) {
        assert(path.subrange(0, n + 1)[n] == path[n]);
        assert(prefix.push(e)[n] == e);
        assert(path.subrange(0, n) =~= prefix) by {
            assert forall|i: int| 0 <= i < n implies path[i] == prefix[i] by {
                assert(path.subrange(0, n + 1)[i] == path[i]);
                assert(prefix.push(e)[i] == prefix[i]);
            }
        }
    }
    if prefix.is_prefix_of(path) && path.len() > n && path[n] == e {
        assert(path.subrange(0, n + 1) =~= prefix.push(e)) by {
            assert forall|i: int| 0 <= i < n + 1 implies path[i] == prefix.push(e)[i] by {
                if i < n {
                    assert(path.subrange(0, n)[i] == path[i]);
                }
            }
        }
    }
}

impl<V: Copy> PathsMap<V> {
    /// Appends to `out` the paths below this node, each after `prefix`.
    #[verifier::rlimit(40)]
    fn walk(&self, prefix: &mut Vec<u32>, out: &mut Vec<PathEntry<V>>)
        ensures
            final(prefix)@ == old(prefix)@,
            forall|path: Seq<u32>, value: V|
                #![trigger listed(final(out)@, path, value)]
                listed(final(out)@, path, value) <==> listed(old(out)@, path, value) || held_below(
                    *self,
                    old(prefix)@,
                    path,
                    value,
                ),
        decreases self,
    {
        let ghost prefix0 = prefix@;
        let ghost out0 = out@;
        let ghost n = prefix0.len() as int;
        match &self.value {
            Some(value) => {
                out.push(PathEntry { path: clone_path(prefix), value: *value });
            },
            None => {},
        }
        proof {
            let last = out@.len() - 1;
            assert forall|path: Seq<u32>, value: V|
                #![trigger listed(out@, path, value)]
                listed(out@, path, value) <==> listed(out0, path, value) || (path == prefix0
                    && self.value == Some(value)) by {
                if listed(out@, path, value) {
                    let i = choose|i: int|
                        0 <= i < out@.len() && (#[trigger] out@[i]).path@ == path && out@[i].value
                            == value;
                    if i < out0.len() {
                        assert(out0[i] == out@[i]);
                    }
                }
                if listed(out0, path, value) {
                    let i = choose|i: int|
                        0 <= i < out0.len() && (#[trigger] out0[i]).path@ == path && out0[i].value
                            == value;
                    assert(out@[i] == out0[i]);
                }
                if path == prefix0 && self.value == Some(value) {
                    assert(out@[last].path@ == path && out@[last].value == value);
                }
            }
        }
        proof {
            assert forall|path: Seq<u32>, value: V| !held_by_child(
                *self,
                prefix0,
                0,
                path,
                value,
            ) by {
                if prefix0.is_prefix_of(path) && path.len() > n {
                    lemma_child_index(self.nodes@, path[n]);
                }
            }
        }
        let mut i: usize = 0;
        while i < self.nodes.len()
            invariant
                i <= self.nodes@.len(),
                prefix@ == prefix0,
                n == prefix0.len(),
                forall|path: Seq<u32>, value: V|
                    #![trigger listed(out@, path, value)]
                    listed(out@, path, value) <==> listed(out0, path, value) || (path == prefix0
                        && self.value == Some(value)) || held_by_child(
                        *self,
                        prefix0,
                        i as int,
                        path,
                        value,
                    ),
            decreases self.nodes@.len() - i,
        {
            let e = self.nodes[i].0;
            let ghost out1 = out@;
            let first = self.first_child(e);
            proof {
                lemma_child_index(self.nodes@, e);
            }
            let is_first = match first {
                Some(c) => c == i,
                None => false,
            };
            if is_first {
                prefix.push(e);
                self.nodes[i].1.walk(prefix, out);
                prefix.pop();
                assert(prefix@ =~= prefix0);
            }
            proof {
                let child = self.nodes@[i as int].1;
                assert forall|path: Seq<u32>, value: V|
                    #![trigger listed(out@, path, value)]
                    listed(out@, path, value) <==> listed(out0, path, value) || (path == prefix0
                        && self.value == Some(value)) || held_by_child(
                        *self,
                        prefix0,
                        i + 1,
                        path,
                        value,
                    ) by {
                    lemma_prefix_push(prefix0, e, path);
                    assert(listed(out1, path, value) <==> listed(out0, path, value) || (path
                        == prefix0 && self.value == Some(value)) || held_by_child(
                        *self,
                        prefix0,
                        i as int,
                        path,
                        value,
                    ));
                    if is_first {
                        assert(listed(out@, path, value) <==> listed(out1, path, value) || held_below(
                            child,
                            prefix0.push(e),
                            path,
                            value,
                        ));
                        assert(child_index(self.nodes@, e) == Some(i as int));
                    } else {
                        assert(out@ == out1);
                        assert(child_index(self.nodes@, e) != Some(i as int));
                    }
                    if prefix0.is_prefix_of(path) && path.len() > n {
                        lemma_child_index(self.nodes@, path[n]);
                    }
                }
            }
            i += 1;
        }
        proof {
            assert forall|path: Seq<u32>, value: V|
                #![trigger listed(out@, path, value)]
                listed(out@, path, value) <==> listed(out0, path, value) || held_below(
                    *self,
                    prefix0,
                    path,
                    value,
                ) by {
                if prefix0.is_prefix_of(path) {
                    let rest = path.skip(n);
                    if path.len() == n {
                        assert(path =~= prefix0);
                        assert(rest =~= Seq::<u32>::empty());
                    } else {
                        assert(rest[0] == path[n]);
                        assert(rest.skip(1) =~= path.skip(n + 1));
                        lemma_child_index(self.nodes@, path[n]);
                    }
                } else {
                    assert(prefix0.is_prefix_of(prefix0));
                }
            }
        }
    }

    /// Returns the paths of the collection with their values.
    pub fn entries(&self) -> (entries: Vec<PathEntry<V>>)
        ensures
            forall|path: Seq<u32>, value: V|
                #![trigger listed(entries@, path, value)]
                #![trigger self.holds(path, value)]
                listed(entries@, path, value) <==> self.holds(path, value),
    {
        let mut prefix: Vec<u32> = Vec::new();
        let mut entries: Vec<PathEntry<V>> = Vec::new();
        self.walk(&mut prefix, &mut entries);
        proof {
            assert forall|path: Seq<u32>, value: V|
                #![trigger listed(entries@, path, value)]
                #![trigger self.holds(path, value)]
                listed(entries@, path, value) <==> self.holds(path, value) by {
                assert(Seq::<u32>::empty().is_prefix_of(path));
                assert(path.skip(0) =~= path);
                assert(!listed(Seq::<PathEntry<V>>::empty(), path, value));
            }
        }
        entries
    }

    /// Tells whether the collection holds no path.
    pub fn is_empty(&self) -> (empty: bool)
        ensures
            empty == (forall|path: Seq<u32>| !self.contains(path)),
    {
        let entries = self.entries();
        proof {
            if entries@.len() > 0 {
                assert(listed(entries@, entries@[0].path@, entries@[0].value));
                assert(self.contains(entries@[0].path@));
            } else {
                assert forall|path: Seq<u32>| !self.contains(path) by {
                    if self.contains(path) {
                        let value = self.get(path)->0;
                        assert(self.holds(path, value));
                        assert(listed(entries@, path, value));
                    }
                }
            }
        }
        entries.len() == 0
    }

    /// Copies the collection.
    pub fn clone_map(&self) -> (copy: PathsMap<V>)
        ensures
            forall|path: Seq<u32>| #[trigger] copy.get(path) == self.get(path),
            same_edges(copy, *self),
        decreases self,
    {
        let mut nodes: Vec<(u32, PathsMap<V>)> = Vec::new();
        let mut i: usize = 0;
        while i < self.nodes.len()
            invariant
                i <= self.nodes@.len(),
                nodes@.len() == i,
                forall|j: int| 0 <= j < i ==> (#[trigger] nodes@[j]).0 == self.nodes@[j].0,
                forall|j: int| 0 <= j < i ==> same_edges((#[trigger] nodes@[j]).1, self.nodes@[j].1),
                forall|j: int, path: Seq<u32>|
                    #![trigger nodes@[j].1.get(path)]
                    #![trigger self.nodes@[j].1.get(path)]
                    0 <= j < i ==> nodes@[j].1.get(path) == self.nodes@[j].1.get(path),
            decreases self.nodes@.len() - i,
        {
            let child = self.nodes[i].1.clone_map();
            nodes.push((self.nodes[i].0, child));
            i += 1;
        }
        let value = match &self.value {
            Some(value) => Some(*value),
            None => None,
        };
        let copy = PathsMap { nodes, value };
        proof {
            lemma_same_edges_of_children(copy, *self, copy.nodes@.len() as int);
            assert forall|path: Seq<u32>| #[trigger] copy.get(path) == self.get(path) by {
                if path.len() > 0 {
                    lemma_child_index_same_edges(copy.nodes@, self.nodes@, path[0]);
                    lemma_child_index(self.nodes@, path[0]);
                    let found = child_index(self.nodes@, path[0]);
                    if found is Some {
                        let c = found->0;
                        assert(copy.nodes@[c].1.get(path.skip(1)) == self.nodes@[c].1.get(
                            path.skip(1),
                        ));
                    }
                }
            }
        }
        copy
    }
}

/// The first `n` children of both nodes stand under the same edges, in
/// the same order, and so does all that is below them.
pub open spec fn same_edges_upto<V, W>(a: PathsMap<V>, b: PathsMap<W>, n: int) -> bool
    decreases a, n,
{
    if n <= 0 || n > a.nodes@.len() {
        true
    } else {
        let near = a.nodes@[n - 1];
        let far = b.nodes@[n - 1];
        &&& same_edges_upto(a, b, n - 1)
        &&& near.0 == far.0
        &&& near.1.nodes@.len() == far.1.nodes@.len()
        &&& same_edges_upto(near.1, far.1, near.1.nodes@.len() as int)
    }
}

/// Both tries hold the same edges in the same places, whatever the values
/// of their paths.
pub open spec fn same_edges<V, W>(a: PathsMap<V>, b: PathsMap<W>) -> bool {
    a.nodes@.len() == b.nodes@.len() && same_edges_upto(a, b, a.nodes@.len() as int)
}

/// Two nodes whose children stand under the same edges and hold the same
/// edges below are the same in this respect.
pub proof fn lemma_same_edges_of_children<V, W>(a: PathsMap<V>, b: PathsMap<W>, n: int)
    requires
        0 <= n <= a.nodes@.len(),
        forall|j: int| 0 <= j < n ==> (#[trigger] a.nodes@[j]).0 == b.nodes@[j].0,
        forall|j: int| 0 <= j < n ==> same_edges((#[trigger] a.nodes@[j]).1, b.nodes@[j].1),
    ensures
        same_edges_upto(a, b, n),
    decreases n,
{
    if n > 0 {
        lemma_same_edges_of_children(a, b, n - 1);
        assert(a.nodes@[n - 1].0 == b.nodes@[n - 1].0);
        assert(same_edges(a.nodes@[n - 1].1, b.nodes@[n - 1].1));
    }
}

/// What `same_edges_upto` says of each of the children.
pub proof fn lemma_same_edges_child<V, W>(a: PathsMap<V>, b: PathsMap<W>, n: int, j: int)
    requires
        0 <= j < n <= a.nodes@.len(),
        same_edges_upto(a, b, n),
    ensures
        a.nodes@[j].0 == b.nodes@[j].0,
        same_edges(a.nodes@[j].1, b.nodes@[j].1),
    decreases n,
{
    if j < n - 1 {
        lemma_same_edges_child(a, b, n - 1, j);
    }
}

} // verus!
