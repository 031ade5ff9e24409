//! The inverted index, as the search sees it: a read-only snapshot that
//! answers three lookups.

use vstd::prelude::*;
use roaring::RoaringBitmap;
use crate::bitmap::{bitmap_insert, bitmap_new, members};
use crate::error::Error;

verus! {

/// What a snapshot of an index holds: for each key the set of its documents.
/// A key that the index does not hold has no documents.
pub struct IndexModel {
    /// Whether reading the snapshot never fails.
    pub reliable: bool,
    /// The documents that contain a word.
    pub word_docids: spec_fn(Seq<char>) -> Set<u32>,
    /// The documents that contain a word with a given prefix.
    pub word_prefix_docids: spec_fn(Seq<char>) -> Set<u32>,
    /// The documents in which a second word follows a first one at a given
    /// proximity.
    pub word_pair_proximity_docids: spec_fn(Seq<char>, Seq<char>, u8) -> Set<u32>,
}

/// A read snapshot of an inverted index. Each lookup is a function of the
/// snapshot and the key alone, so asking twice gives the same documents.
/// A lookup may answer `None` for a key that has no documents. An error
/// means that the storage could not be read.
pub trait IndexSnapshot {
    /// What the snapshot holds. A snapshot that does not say what it holds
    /// is taken for one of which nothing is known.
    open spec fn model(&self) -> IndexModel {
        arbitrary()
    }

    /// Looks up the documents that contain `word`.
    fn word_docids(&self, word: &String) -> (r: Result<Option<RoaringBitmap>, Error>)
        ensures
            self.model().reliable ==> r is Ok,
            r matches Ok(Some(bitmap)) ==> members(bitmap) == (self.model().word_docids)(word@),
            r matches Ok(None) ==> (self.model().word_docids)(word@) == Set::<u32>::empty(),
            r matches Err(e) ==> e is StorageFailure,
    ;

    /// Looks up the documents that contain a word beginning with `prefix`.
    fn word_prefix_docids(&self, prefix: &String) -> (r: Result<Option<RoaringBitmap>, Error>)
        ensures
            self.model().reliable ==> r is Ok,
            r matches Ok(Some(bitmap)) ==> members(bitmap) == (self.model().word_prefix_docids)(
                prefix@,
            ),
            r matches Ok(None) ==> (self.model().word_prefix_docids)(prefix@)
                == Set::<u32>::empty(),
            r matches Err(e) ==> e is StorageFailure,
    ;

    /// Looks up the documents in which `right` follows `left` at
    /// `proximity`.
    fn word_pair_proximity_docids(&self, left: &String, right: &String, proximity: u8) -> (r:
        Result<Option<RoaringBitmap>, Error>)
        ensures
            self.model().reliable ==> r is Ok,
            r matches Ok(Some(bitmap)) ==> members(bitmap) == (
            self.model().word_pair_proximity_docids)(left@, right@, proximity),
            r matches Ok(None) ==> (self.model().word_pair_proximity_docids)(
                left@,
                right@,
                proximity,
            ) == Set::<u32>::empty(),
            r matches Err(e) ==> e is StorageFailure,
    ;
}

/// One entry of an index kept in memory: the documents of one word.
#[derive(Debug)]
pub struct WordEntry {
    pub word: String,
    pub docids: Vec<u32>,
}

/// One entry of an index kept in memory: the documents in which `right`
/// follows `left` at `proximity`.
#[derive(Debug)]
pub struct WordPairEntry {
    pub proximity: u8,
    pub left: String,
    pub right: String,
    pub docids: Vec<u32>,
}

/// An index kept in memory. The documents of a key are those of all the
/// entries that have this key.
#[derive(Debug)]
pub struct MemoryIndex {
    pub words: Vec<WordEntry>,
    pub prefixes: Vec<WordEntry>,
    pub word_pairs: Vec<WordPairEntry>,
}

/// The documents that the entries give for a word.
pub open spec fn entries_docids(entries: Seq<WordEntry>, word: Seq<char>) -> Set<u32> {
    Set::new(
        |d: u32|
            exists|i: int|
                0 <= i < entries.len() && (#[trigger] entries[i]).word@ == word
                    && entries[i].docids@.contains(d),
    )
}

/// The documents that the entries give for a word pair at a proximity.
pub open spec fn pair_entries_docids(
    entries: Seq<WordPairEntry>,
    left: Seq<char>,
    right: Seq<char>,
    proximity: u8,
) -> Set<u32> {
    Set::new(
        |d: u32|
            exists|i: int|
                0 <= i < entries.len() && (#[trigger] entries[i]).left@ == left
                    && entries[i].right@ == right && entries[i].proximity == proximity
                    && entries[i].docids@.contains(d),
    )
}

fn insert_all(bitmap: &mut RoaringBitmap, ids: &Vec<u32>)
    ensures
        members(*final(bitmap)) == members(*old(bitmap)).union(ids@.to_set()),
{
    let mut i: usize = 0;
    while i < ids.len()
        invariant
            i <= ids@.len(),
            members(*bitmap) == members(*old(bitmap)).union(ids@.take(i as int).to_set()),
        decreases ids@.len() - i,
    {
        bitmap_insert(bitmap, ids[i]);
        proof {
            let before = ids@.take(i as int);
            let after = ids@.take(i + 1);
            assert(after == before.push(ids@[i as int]));
            assert(after.to_set() =~= before.to_set().insert(ids@[i as int])) by {
                assert forall|d: u32| after.to_set().contains(d) <==> before.to_set().insert(
                    ids@[i as int],
                ).contains(d) by {
                    if after.contains(d) {
                        let k = choose|k: int| 0 <= k < after.len() && after[k] == d;
                        if k < before.len() {
                            assert(before[k] == d);
                        }
                    }
                    if before.contains(d) {
                        let k = choose|k: int| 0 <= k < before.len() && before[k] == d;
                        assert(after[k] == d);
                    }
                    if d == ids@[i as int] {
                        assert(after[i as int] == d);
                    }
                }
            }
            assert(members(*bitmap) =~= members(*old(bitmap)).union(after.to_set()));
        }
        i += 1;
    }
    assert(ids@.take(ids@.len() as int) == ids@);
}

fn lookup_word(entries: &Vec<WordEntry>, word: &String) -> (bitmap: RoaringBitmap)
    ensures
        members(bitmap) == entries_docids(entries@, word@),
{
    let mut bitmap = bitmap_new();
    let mut i: usize = 0;
    while i < entries.len()
        invariant
            i <= entries@.len(),
            members(bitmap) == entries_docids(entries@.take(i as int), word@),
        decreases entries@.len() - i,
    {
        let ghost before = members(bitmap);
        if entries[i].word == *word {
            insert_all(&mut bitmap, &entries[i].docids);
        }
        proof {
            let head = entries@.take(i as int);
            let next = entries@.take(i + 1);
            assert forall|d: u32| members(bitmap).contains(d) <==> entries_docids(
                next,
                word@,
            ).contains(d) by {
                if entries_docids(next, word@).contains(d) {
                    let k = choose|k: int|
                        0 <= k < next.len() && (#[trigger] next[k]).word@ == word@
                            && next[k].docids@.contains(d);
                    if k < i {
                        assert(head[k] == next[k]);
                        assert(entries_docids(head, word@).contains(d));
                    }
                }
                if before.contains(d) {
                    let k = choose|k: int|
                        0 <= k < head.len() && (#[trigger] head[k]).word@ == word@
                            && head[k].docids@.contains(d);
                    assert(next[k] == head[k]);
                }
                if entries@[i as int].word@ == word@ && entries@[i as int].docids@.contains(d) {
                    assert(next[i as int] == entries@[i as int]);
                }
            }
            assert(members(bitmap) =~= entries_docids(next, word@));
        }
        i += 1;
    }
    assert(entries@.take(entries@.len() as int) == entries@);
    bitmap
}

fn lookup_pair(entries: &Vec<WordPairEntry>, left: &String, right: &String, proximity: u8) -> (bitmap:
    RoaringBitmap)
    ensures
        members(bitmap) == pair_entries_docids(entries@, left@, right@, proximity),
{
    let mut bitmap = bitmap_new();
    let mut i: usize = 0;
    while i < entries.len()
        invariant
            i <= entries@.len(),
            members(bitmap) == pair_entries_docids(
                entries@.take(i as int),
                left@,
                right@,
                proximity,
            ),
        decreases entries@.len() - i,
    {
        let ghost before = members(bitmap);
        let entry = &entries[i];
        let matches = entry.proximity == proximity && entry.left == *left && entry.right == *right;
        if matches {
            insert_all(&mut bitmap, &entry.docids);
        }
        proof {
            let head = entries@.take(i as int);
            let next = entries@.take(i + 1);
            assert forall|d: u32| members(bitmap).contains(d) <==> pair_entries_docids(
                next,
                left@,
                right@,
                proximity,
            ).contains(d) by {
                if pair_entries_docids(next, left@, right@, proximity).contains(d) {
                    let k = choose|k: int|
                        0 <= k < next.len() && (#[trigger] next[k]).left@ == left@
                            && next[k].right@ == right@ && next[k].proximity == proximity
                            && next[k].docids@.contains(d);
                    if k < i {
                        assert(head[k] == next[k]);
                        assert(pair_entries_docids(head, left@, right@, proximity).contains(d));
                    }
                }
                if before.contains(d) {
                    let k = choose|k: int|
                        0 <= k < head.len() && (#[trigger] head[k]).left@ == left@
                            && head[k].right@ == right@ && head[k].proximity == proximity
                            && head[k].docids@.contains(d);
                    assert(next[k] == head[k]);
                }
                if matches && entries@[i as int].docids@.contains(d) {
                    assert(next[i as int] == entries@[i as int]);
                }
            }
            assert(members(bitmap) =~= pair_entries_docids(next, left@, right@, proximity));
        }
        i += 1;
    }
    assert(entries@.take(entries@.len() as int) == entries@);
    bitmap
}

impl MemoryIndex {
    /// Creates an index without any entry.
    pub fn new() -> (index: MemoryIndex)
        ensures
            index.words@.len() == 0,
            index.prefixes@.len() == 0,
            index.word_pairs@.len() == 0,
    {
        MemoryIndex { words: Vec::new(), prefixes: Vec::new(), word_pairs: Vec::new() }
    }

    /// Records that the documents `docids` contain `word`.
    pub fn add_word(&mut self, word: String, docids: Vec<u32>)
        ensures
            final(self).words@ == old(self).words@.push(WordEntry { word, docids }),
            final(self).prefixes == old(self).prefixes,
            final(self).word_pairs == old(self).word_pairs,
    {
        self.words.push(WordEntry { word, docids });
    }

    /// Records that the documents `docids` contain a word that starts with
    /// `prefix`.
    pub fn add_prefix(&mut self, prefix: String, docids: Vec<u32>)
        ensures
            final(self).prefixes@ == old(self).prefixes@.push(WordEntry { word: prefix, docids }),
            final(self).words == old(self).words,
            final(self).word_pairs == old(self).word_pairs,
    {
        self.prefixes.push(WordEntry { word: prefix, docids });
    }

    /// Records that in the documents `docids` the word `right` follows
    /// `left` at `proximity`.
    pub fn add_word_pair(&mut self, proximity: u8, left: String, right: String, docids: Vec<u32>)
        ensures
            final(self).word_pairs@ == old(self).word_pairs@.push(
                WordPairEntry { proximity, left, right, docids },
            ),
            final(self).words == old(self).words,
            final(self).prefixes == old(self).prefixes,
    {
        self.word_pairs.push(WordPairEntry { proximity, left, right, docids });
    }
}

impl IndexSnapshot for MemoryIndex {
    open spec fn model(&self) -> IndexModel {
        IndexModel {
            reliable: true,
            word_docids: |word: Seq<char>| entries_docids(self.words@, word),
            word_prefix_docids: |prefix: Seq<char>| entries_docids(self.prefixes@, prefix),
            word_pair_proximity_docids: |left: Seq<char>, right: Seq<char>, proximity: u8|
                pair_entries_docids(self.word_pairs@, left, right, proximity),
        }
    }

    fn word_docids(&self, word: &String) -> (r: Result<Option<RoaringBitmap>, Error>) {
        Ok(Some(lookup_word(&self.words, word)))
    }

    fn word_prefix_docids(&self, prefix: &String) -> (r: Result<Option<RoaringBitmap>, Error>) {
        Ok(Some(lookup_word(&self.prefixes, prefix)))
    }

    fn word_pair_proximity_docids(&self, left: &String, right: &String, proximity: u8) -> (r:
        Result<Option<RoaringBitmap>, Error>) {
        Ok(Some(lookup_pair(&self.word_pairs, left, right, proximity)))
    }
}

} // verus!
