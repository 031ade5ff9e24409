//! A memo of the index lookups made during one search.

use vstd::prelude::*;
use roaring::RoaringBitmap;
use crate::bitmap::{bitmap_clone, bitmap_new, members};
use crate::error::Error;
use crate::index::{IndexModel, IndexSnapshot};

verus! {

/// What a lookup asks for.
#[derive(Debug)]
pub enum DocidsKey {
    Word { word: String },
    WordPrefix { prefix: String },
    WordPair { proximity: u8, left: String, right: String },
}

impl DocidsKey {
    /// Whether two keys ask for the same thing.
    pub open spec fn same(self, other: DocidsKey) -> bool {
        match (self, other) {
            (DocidsKey::Word { word: a }, DocidsKey::Word { word: b }) => a@ == b@,
            (DocidsKey::WordPrefix { prefix: a }, DocidsKey::WordPrefix { prefix: b }) => a@
                == b@,
            (
                DocidsKey::WordPair { proximity: p, left: a, right: b },
                DocidsKey::WordPair { proximity: q, left: c, right: d },
            ) => p == q && a@ == c@ && b@ == d@,
            _ => false,
        }
    }

    fn is_same(&self, other: &DocidsKey) -> (same: bool)
        ensures
            same == self.same(*other),
    {
        match (self, other) {
            (DocidsKey::Word { word: a }, DocidsKey::Word { word: b }) => *a == *b,
            (DocidsKey::WordPrefix { prefix: a }, DocidsKey::WordPrefix { prefix: b }) => *a
                == *b,
            (
                DocidsKey::WordPair { proximity: p, left: a, right: b },
                DocidsKey::WordPair { proximity: q, left: c, right: d },
            ) => *p == *q && *a == *c && *b == *d,
            _ => false,
        }
    }
}

/// The documents that the index holds for a key.
pub open spec fn index_docids(index: IndexModel, key: DocidsKey) -> Set<u32> {
    match key {
        DocidsKey::Word { word } => (index.word_docids)(word@),
        DocidsKey::WordPrefix { prefix } => (index.word_prefix_docids)(prefix@),
        DocidsKey::WordPair { proximity, left, right } => (index.word_pair_proximity_docids)(
            left@,
            right@,
            proximity,
        ),
    }
}

/// An answer of the index that the cache remembers.
#[derive(Debug)]
pub struct CachedDocids {
    pub key: DocidsKey,
    pub bitmap: RoaringBitmap,
}

/// Remembers the answers of the index, so that each key is read once.
#[derive(Debug)]
pub struct DatabaseCache {
    pub entries: Vec<CachedDocids>,
}

impl DatabaseCache {
    /// Every remembered answer is what `index` holds for its key.
    pub open spec fn wf(&self, index: IndexModel) -> bool {
        forall|i: int|
            0 <= i < self.entries@.len() ==> members((#[trigger] self.entries@[i]).bitmap)
                == index_docids(index, self.entries@[i].key)
    }

    /// Creates a cache that remembers nothing yet.
    pub fn new() -> (cache: DatabaseCache)
        ensures
            cache.entries@.len() == 0,
    {
        DatabaseCache { entries: Vec::new() }
    }

    fn read<I: IndexSnapshot>(index: &I, key: &DocidsKey) -> (r: Result<RoaringBitmap, Error>)
        ensures
            index.model().reliable ==> r is Ok,
            r matches Ok(bitmap) ==> members(bitmap) == index_docids(index.model(), *key),
            r matches Err(e) ==> e is StorageFailure,
    {
        let found = match key {
            DocidsKey::Word { word } => index.word_docids(word),
            DocidsKey::WordPrefix { prefix } => index.word_prefix_docids(prefix),
            DocidsKey::WordPair { proximity, left, right } => index.word_pair_proximity_docids(
                left,
                right,
                *proximity,
            ),
        };
        match found {
            Ok(Some(bitmap)) => Ok(bitmap),
            Ok(None) => Ok(bitmap_new()),
            Err(e) => Err(e),
        }
    }

    /// The documents of `key`: from the memo if the key was asked before,
    /// from the index otherwise, in which case the answer is remembered. A
    /// key that the index does not hold has no documents. A failure of the
    /// index is handed on and nothing is remembered.
    pub fn get<I: IndexSnapshot>(&mut self, index: &I, key: DocidsKey) -> (r: Result<
        RoaringBitmap,
        Error,
    >)
        requires
            old(self).wf(index.model()),
        ensures
            final(self).wf(index.model()),
            index.model().reliable ==> r is Ok,
            r matches Ok(bitmap) ==> members(bitmap) == index_docids(index.model(), key),
            r matches Err(e) ==> e is StorageFailure && final(self).entries@ == old(
                self,
            ).entries@,
    {
        let mut i: usize = 0;
        while i < self.entries.len()
            invariant
                i <= self.entries@.len(),
                self.entries@ == old(self).entries@,
                self.wf(index.model()),
            decreases self.entries@.len() - i,
        {
            if self.entries[i].key.is_same(&key) {
                return Ok(bitmap_clone(&self.entries[i].bitmap));
            }
            i += 1;
        }
        match Self::read(index, &key) {
            Ok(bitmap) => {
                let copy = bitmap_clone(&bitmap);
                self.entries.push(CachedDocids { key, bitmap });
                Ok(copy)
            },
            Err(e) => Err(e),
        }
    }

    /// The documents that contain `word`.
    pub fn get_word_docids<I: IndexSnapshot>(&mut self, index: &I, word: &String) -> (r: Result<
        RoaringBitmap,
        Error,
    >)
        requires
            old(self).wf(index.model()),
        ensures
            final(self).wf(index.model()),
            index.model().reliable ==> r is Ok,
            r matches Ok(bitmap) ==> members(bitmap) == (index.model().word_docids)(word@),
            r matches Err(e) ==> e is StorageFailure,
    {
        self.get(index, DocidsKey::Word { word: word.clone() })
    }

    /// The documents that contain a word beginning with `prefix`.
    pub fn get_word_prefix_docids<I: IndexSnapshot>(&mut self, index: &I, prefix: &String) -> (r:
        Result<RoaringBitmap, Error>)
        requires
            old(self).wf(index.model()),
        ensures
            final(self).wf(index.model()),
            index.model().reliable ==> r is Ok,
            r matches Ok(bitmap) ==> members(bitmap) == (index.model().word_prefix_docids)(prefix@),
            r matches Err(e) ==> e is StorageFailure,
    {
        self.get(index, DocidsKey::WordPrefix { prefix: prefix.clone() })
    }

    /// The documents in which `right` follows `left` at `proximity`.
    pub fn get_word_pair_proximity_docids<I: IndexSnapshot>(
        &mut self,
        index: &I,
        left: &String,
        right: &String,
        proximity: u8,
    ) -> (r: Result<RoaringBitmap, Error>)
        requires
            old(self).wf(index.model()),
        ensures
            final(self).wf(index.model()),
            index.model().reliable ==> r is Ok,
            r matches Ok(bitmap) ==> members(bitmap) == (index.model().word_pair_proximity_docids)(
                left@,
                right@,
                proximity,
            ),
            r matches Err(e) ==> e is StorageFailure,
    {
        self.get(
            index,
            DocidsKey::WordPair { proximity, left: left.clone(), right: right.clone() },
        )
    }
}

} // verus!
