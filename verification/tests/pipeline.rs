use std::rc::Rc;
use roaring::RoaringBitmap;
use search_core::bucket_sort::bucket_sort;
use search_core::criterion::{Criterion, GraphRankingRule};
use search_core::db_cache::{DatabaseCache, DocidsKey};
use search_core::error::Error;
use search_core::index::{IndexSnapshot, MemoryIndex};
use search_core::logger::DefaultSearchLogger;
use search_core::query_graph::QueryGraph;
use search_core::query_term::{LocatedQueryTerm, QueryTerm, WordDerivations};
use std::cell::Cell;

fn bitmap(ids: &[u32]) -> RoaringBitmap {
    ids.iter().copied().collect()
}

fn word(text: &str, typos: &[&str], slot: u16) -> LocatedQueryTerm {
    LocatedQueryTerm {
        value: QueryTerm::Word {
            derivations: WordDerivations {
                original: text.to_string(),
                zero_typo: vec![text.to_string()],
                one_typo: typos.iter().map(|w| w.to_string()).collect(),
                two_typos: vec![],
                use_prefix_db: false,
            },
        },
        start: slot,
        end: slot,
    }
}

/// 1: "big house", 2: "big red house", 3: "bag house", 4: "house big", 5: other words.
fn houses() -> MemoryIndex {
    let mut index = MemoryIndex::new();
    index.add_word("big".to_string(), vec![1, 2, 4]);
    index.add_word("bag".to_string(), vec![3]);
    index.add_word("house".to_string(), vec![1, 2, 3, 4]);
    index.add_word("red".to_string(), vec![2]);
    index.add_word_pair(1, "big".to_string(), "house".to_string(), vec![1]);
    index.add_word_pair(2, "big".to_string(), "house".to_string(), vec![2, 4]);
    index.add_word_pair(1, "bag".to_string(), "house".to_string(), vec![3]);
    index.add_word_pair(1, "big".to_string(), "red".to_string(), vec![2]);
    index.add_word_pair(1, "red".to_string(), "house".to_string(), vec![2]);
    index.add_word_pair(1, "house".to_string(), "big".to_string(), vec![4]);
    index
}

fn big_house() -> QueryGraph {
    QueryGraph::from_terms(&vec![word("big", &["bag"], 0), word("house", &[], 1)]).unwrap()
}

fn rules(names: &[Criterion]) -> Vec<GraphRankingRule> {
    names.iter().map(|c| GraphRankingRule::new(*c).unwrap()).collect()
}

fn search(names: &[Criterion], universe: &[u32], from: usize, length: usize) -> Vec<u32> {
    let index = houses();
    let mut db_cache = DatabaseCache::new();
    let mut logger = DefaultSearchLogger;
    let mut rules = rules(names);
    bucket_sort(
        &index,
        &mut db_cache,
        &mut logger,
        &mut rules,
        &bitmap(universe),
        Rc::new(big_house()),
        from,
        length,
    )
    .unwrap()
}

#[test]
fn typo_then_proximity() {
    // no typo: 1, 2, 4, of which 1 has the words next to each other; one typo: 3
    let results = search(&[Criterion::Typo, Criterion::Proximity], &[1, 2, 3, 4], 0, 10);
    assert_eq!(results, vec![1, 2, 4, 3]);
}

#[test]
fn proximity_then_typo() {
    // distance 1: 1 and 3, of which 1 has no typo; distance 2: 2 and 4
    let results = search(&[Criterion::Proximity, Criterion::Typo], &[1, 2, 3, 4], 0, 10);
    assert_eq!(results, vec![1, 3, 2, 4]);
}

#[test]
fn results_hold_no_document_twice() {
    for names in [
        vec![Criterion::Typo],
        vec![Criterion::Proximity],
        vec![Criterion::Typo, Criterion::Proximity],
        vec![Criterion::Proximity, Criterion::Typo],
        vec![Criterion::Proximity, Criterion::Proximity],
    ] {
        let universe = [1, 2, 3, 4, 5, 6];
        let results = search(&names, &universe, 0, 100);
        let mut sorted = results.clone();
        sorted.sort();
        sorted.dedup();
        assert_eq!(sorted.len(), results.len(), "{names:?}: {results:?}");
        assert!(results.iter().all(|d| universe.contains(d)));
    }
}

#[test]
fn offset_and_limit_cut_the_ranking() {
    let all = search(&[Criterion::Typo, Criterion::Proximity], &[1, 2, 3, 4], 0, 10);
    assert_eq!(search(&[Criterion::Typo, Criterion::Proximity], &[1, 2, 3, 4], 0, 2), all[..2]);
    assert_eq!(search(&[Criterion::Typo, Criterion::Proximity], &[1, 2, 3, 4], 1, 2), all[1..3]);
    assert_eq!(search(&[Criterion::Typo, Criterion::Proximity], &[1, 2, 3, 4], 3, 5), all[3..]);
    assert!(search(&[Criterion::Typo, Criterion::Proximity], &[1, 2, 3, 4], 4, 5).is_empty());
    assert!(search(&[Criterion::Typo, Criterion::Proximity], &[1, 2, 3, 4], 0, 0).is_empty());
    assert!(search(&[Criterion::Typo], &[1, 2, 3, 4], usize::MAX, usize::MAX).is_empty());
}

#[test]
fn without_rules_documents_come_in_order() {
    assert_eq!(search(&[], &[9, 3, 7], 0, 10), vec![3, 7, 9]);
    assert_eq!(search(&[], &[9, 3, 7], 1, 1), vec![7]);
    assert!(search(&[], &[], 0, 10).is_empty());
}

#[test]
fn small_universes_are_not_ranked() {
    assert_eq!(search(&[Criterion::Typo], &[5], 0, 10), vec![5]);
    assert!(search(&[Criterion::Typo], &[], 0, 10).is_empty());
}

/// An index that fails on one word and counts its reads.
struct Flaky {
    inner: MemoryIndex,
    broken: &'static str,
    reads: Cell<usize>,
}

impl IndexSnapshot for Flaky {
    fn word_docids(&self, word: &String) -> Result<Option<RoaringBitmap>, Error> {
        self.reads.set(self.reads.get() + 1);
        if word == self.broken {
            Err(Error::StorageFailure { message: "unreadable page".to_string() })
        } else {
            self.inner.word_docids(word)
        }
    }

    fn word_prefix_docids(&self, prefix: &String) -> Result<Option<RoaringBitmap>, Error> {
        self.reads.set(self.reads.get() + 1);
        self.inner.word_prefix_docids(prefix)
    }

    fn word_pair_proximity_docids(
        &self,
        left: &String,
        right: &String,
        proximity: u8,
    ) -> Result<Option<RoaringBitmap>, Error> {
        self.reads.set(self.reads.get() + 1);
        self.inner.word_pair_proximity_docids(left, right, proximity)
    }
}

#[test]
fn storage_failure_ends_the_search() {
    let index = Flaky { inner: houses(), broken: "house", reads: Cell::new(0) };
    let mut db_cache = DatabaseCache::new();
    let mut logger = DefaultSearchLogger;
    let mut rules = rules(&[Criterion::Typo]);
    let outcome = bucket_sort(
        &index,
        &mut db_cache,
        &mut logger,
        &mut rules,
        &bitmap(&[1, 2, 3, 4]),
        Rc::new(big_house()),
        0,
        10,
    );
    match outcome {
        Err(e @ Error::StorageFailure { .. }) => assert_eq!(e.code(), "storage_failure"),
        other => panic!("{other:?}"),
    }
}

#[test]
fn each_key_is_read_once() {
    let index = Flaky { inner: houses(), broken: "", reads: Cell::new(0) };
    let mut db_cache = DatabaseCache::new();
    let big = db_cache.get_word_docids(&index, &"big".to_string()).unwrap();
    assert_eq!(big, bitmap(&[1, 2, 4]));
    assert_eq!(index.reads.get(), 1);
    let again = db_cache.get_word_docids(&index, &"big".to_string()).unwrap();
    assert_eq!(again, big);
    assert_eq!(index.reads.get(), 1);
    // the same text under another kind of key is another key
    let prefix = db_cache.get_word_prefix_docids(&index, &"big".to_string()).unwrap();
    assert!(prefix.is_empty());
    assert_eq!(index.reads.get(), 2);
    let pair = db_cache
        .get_word_pair_proximity_docids(&index, &"big".to_string(), &"house".to_string(), 2)
        .unwrap();
    assert_eq!(pair, bitmap(&[2, 4]));
    let pair = db_cache
        .get_word_pair_proximity_docids(&index, &"big".to_string(), &"house".to_string(), 1)
        .unwrap();
    assert_eq!(pair, bitmap(&[1]));
    assert_eq!(index.reads.get(), 4);
    let missing = db_cache.get(&index, DocidsKey::Word { word: "cat".to_string() }).unwrap();
    assert!(missing.is_empty());
    assert_eq!(db_cache.entries.len(), 5);
    // a failure is not remembered
    let index = Flaky { inner: houses(), broken: "dog", reads: Cell::new(0) };
    assert!(db_cache.get_word_docids(&index, &"dog".to_string()).is_err());
    assert_eq!(db_cache.entries.len(), 5);
}
