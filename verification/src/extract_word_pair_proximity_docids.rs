//! Extraction of the word pairs of a document: for each pair of words that
//! stand close to each other, the smallest distance at which they do.

use vstd::prelude::*;
use vstd::string::StringSliceAdditionalSpecFns;
use vstd::slice::slice_to_vec;
use vstd::utf8::encode_utf8;
use std::collections::VecDeque;
use crate::error::Error;
use crate::proximity::{index_proximity, spec_index_proximity, MAX_DISTANCE};

verus! {

/// The key under which the index stores the documents of a word pair: the
/// proximity, the first word, a zero byte, the second word.
pub open spec fn word_pair_proximity_key(prox: u8, w1: Seq<u8>, w2: Seq<u8>) -> Seq<u8> {
    seq![prox] + w1 + seq![0u8] + w2
}

/// Writes the key of a word pair into `key_buffer`, in place of what the
/// buffer held, and returns it.
pub fn build_key<'a>(prox: u8, w1: &str, w2: &str, key_buffer: &'a mut Vec<u8>) -> (key: &'a [u8])
    ensures
        key@ == word_pair_proximity_key(prox, w1.spec_bytes(), w2.spec_bytes()),
        final(key_buffer)@ == key@,
{
    key_buffer.clear();
    key_buffer.push(prox);
    key_buffer.extend_from_slice(w1.as_bytes());
    key_buffer.push(0);
    key_buffer.extend_from_slice(w2.as_bytes());
    assert(key_buffer@ =~= word_pair_proximity_key(prox, w1.spec_bytes(), w2.spec_bytes()));
    key_buffer.as_slice()
}

/// The smallest distances found for one pair of words: `del` in the
/// version of the document that goes away, `add` in the one that comes.
/// A side on which the pair was not found holds no distance.
#[derive(Debug)]
pub struct PairProximity {
    pub left: String,
    pub right: String,
    pub del: Option<u8>,
    pub add: Option<u8>,
}

/// The pairs of words of a document change, each once, in the order in
/// which they were first found.
#[derive(Debug)]
pub struct WordPairProximities {
    pub entries: Vec<PairProximity>,
}

/// A pair of words found at a distance.
pub type WordPairAt = (String, String, u8);

/// The place of the first entry for the pair, if there is one.
pub open spec fn position(entries: Seq<PairProximity>, left: Seq<char>, right: Seq<char>) -> Option<
    int,
>
    decreases entries.len(),
{
    if entries.len() == 0 {
        None
    } else {
        match position(entries.drop_last(), left, right) {
            Some(i) => Some(i),
            None => if entries.last().left@ == left && entries.last().right@ == right {
                Some(entries.len() - 1)
            } else {
                None
            },
        }
    }
}

/// The distance to keep on a side once the pair is found there at the
/// distance `found`: the smaller of it and the distance kept so far, if
/// there is one.
pub open spec fn nearer(kept: Option<u8>, found: u8) -> u8 {
    match kept {
        Some(distance) if distance <= found => distance,
        _ => found,
    }
}

/// A distance at which a pair of words counts: above zero and below
/// `MAX_DISTANCE`.
pub open spec fn is_distance(prox: u8) -> bool {
    0 < prox < MAX_DISTANCE
}

/// Every distance that the entries hold is one at which a pair counts.
pub open spec fn distances_in_range(entries: Seq<PairProximity>) -> bool {
    forall|i: int|
        0 <= i < entries.len() ==> ((#[trigger] entries[i]).del matches Some(p) ==> is_distance(p))
            && (entries[i].add matches Some(p) ==> is_distance(p))
}

/// The entries after the pair `found` was met on one side: the entry of the
/// pair keeps the smaller distance on this side; a pair met for the first
/// time gets an entry at the end, with no distance on the other side.
pub open spec fn recorded(entries: Seq<PairProximity>, found: WordPairAt, deletion: bool) -> Seq<
    PairProximity,
> {
    match position(entries, found.0@, found.1@) {
        Some(i) => entries.update(
            i,
            if deletion {
                PairProximity {
                    left: entries[i].left,
                    right: entries[i].right,
                    del: Some(nearer(entries[i].del, found.2)),
                    add: entries[i].add,
                }
            } else {
                PairProximity {
                    left: entries[i].left,
                    right: entries[i].right,
                    del: entries[i].del,
                    add: Some(nearer(entries[i].add, found.2)),
                }
            },
        ),
        None => entries.push(
            if deletion {
                PairProximity { left: found.0, right: found.1, del: Some(found.2), add: None }
            } else {
                PairProximity { left: found.0, right: found.1, del: None, add: Some(found.2) }
            },
        ),
    }
}

/// The entries after the pairs `found` were met one after the other.
pub open spec fn recorded_all(
    entries: Seq<PairProximity>,
    found: Seq<WordPairAt>,
    deletion: bool,
) -> Seq<PairProximity>
    decreases found.len(),
{
    if found.len() == 0 {
        entries
    } else {
        recorded(recorded_all(entries, found.drop_last(), deletion), found.last(), deletion)
    }
}

/// To meet two runs of pairs one after the other is to meet them all.
pub proof fn lemma_recorded_all_concat(
    entries: Seq<PairProximity>,
    first: Seq<WordPairAt>,
    second: Seq<WordPairAt>,
    deletion: bool,
)
    ensures
        recorded_all(entries, first + second, deletion) == recorded_all(
            recorded_all(entries, first, deletion),
            second,
            deletion,
        ),
    decreases second.len(),
{
    if second.len() == 0 {
        assert(first + second =~= first);
    } else {
        lemma_recorded_all_concat(entries, first, second.drop_last(), deletion);
        assert((first + second).drop_last() =~= first + second.drop_last());
        assert((first + second).last() == second.last());
    }
}

/// A place found among the first entries is the place among all of them.
proof fn lemma_position_extends(
    entries: Seq<PairProximity>,
    left: Seq<char>,
    right: Seq<char>,
    n: int,
)
    requires
        0 <= n <= entries.len(),
        position(entries.take(n), left, right) is Some,
    ensures
        position(entries, left, right) == position(entries.take(n), left, right),
    decreases entries.len() - n,
{
    if n < entries.len() {
        assert(entries.drop_last().take(n) == entries.take(n));
        lemma_position_extends(entries.drop_last(), left, right, n);
    } else {
        assert(entries.take(n) == entries);
    }
}

impl WordPairProximities {
    /// The distances kept for a pair, if the pair was met.
    pub open spec fn get(self, left: Seq<char>, right: Seq<char>) -> Option<
        (Option<u8>, Option<u8>),
    > {
        match position(self.entries@, left, right) {
            Some(i) => Some((self.entries@[i].del, self.entries@[i].add)),
            None => None,
        }
    }

    /// Creates the collection, without any pair.
    pub fn new() -> (pairs: WordPairProximities)
        ensures
            pairs.entries@.len() == 0,
    {
        WordPairProximities { entries: Vec::new() }
    }

    /// Records that the pair was met at the distance `prox`, in the old
    /// version of the document if `deletion` and in the new one otherwise.
    pub fn record(&mut self, left: String, right: String, prox: u8, deletion: bool)
        ensures
            final(self).entries@ == recorded(old(self).entries@, (left, right, prox), deletion),
            is_distance(prox) && distances_in_range(old(self).entries@) ==> distances_in_range(
                final(self).entries@,
            ),
    {
        let mut i: usize = 0;
        while i < self.entries.len()
            invariant
                i <= self.entries@.len(),
                self.entries@ == old(self).entries@,
                position(self.entries@.take(i as int), left@, right@) is None,
            decreases self.entries@.len() - i,
        {
            let ghost all = self.entries@;
            proof {
                assert(all.take(i + 1).drop_last() == all.take(i as int));
                assert(all.take(i + 1).last() == all[i as int]);
            }
            if self.entries[i].left == left && self.entries[i].right == right {
                proof {
                    lemma_position_extends(all, left@, right@, i + 1);
                }
                let old_del = self.entries[i].del;
                let old_add = self.entries[i].add;
                let entry = if deletion {
                    PairProximity {
                        left: self.entries[i].left.clone(),
                        right: self.entries[i].right.clone(),
                        del: Some(nearer_of(old_del, prox)),
                        add: old_add,
                    }
                } else {
                    PairProximity {
                        left: self.entries[i].left.clone(),
                        right: self.entries[i].right.clone(),
                        del: old_del,
                        add: Some(nearer_of(old_add, prox)),
                    }
                };
                self.entries.set(i, entry);
                proof {
                    if is_distance(prox) && distances_in_range(all) {
                        assert forall|k: int| 0 <= k < self.entries@.len() implies ((
                        #[trigger] self.entries@[k]).del matches Some(p) ==> is_distance(p)) && (
                        self.entries@[k].add matches Some(p) ==> is_distance(p)) by {
                            if k != i {
                                assert(self.entries@[k] == all[k]);
                            }
                        }
                    }
                }
                return ;
            }
            i += 1;
        }
        proof {
            assert(self.entries@.take(i as int) == self.entries@);
        }
        let ghost all = self.entries@;
        if deletion {
            self.entries.push(PairProximity { left, right, del: Some(prox), add: None });
        } else {
            self.entries.push(PairProximity { left, right, del: None, add: Some(prox) });
        }
        proof {
            if is_distance(prox) && distances_in_range(all) {
                assert forall|k: int| 0 <= k < self.entries@.len() implies ((
                #[trigger] self.entries@[k]).del matches Some(p) ==> is_distance(p)) && (
                self.entries@[k].add matches Some(p) ==> is_distance(p)) by {
                    if k < all.len() {
                        assert(self.entries@[k] == all[k]);
                    }
                }
            }
        }
    }
}

/// Returns the distance to keep on a side once the pair is found there at
/// the distance `found`.
fn nearer_of(kept: Option<u8>, found: u8) -> (distance: u8)
    ensures
        distance == nearer(kept, found),
{
    match kept {
        Some(distance) => if distance <= found {
            distance
        } else {
            found
        },
        None => found,
    }
}

/// What a pair keeps once it is met: the smaller distance on the side on
/// which it is met, what it had on the other side, and nothing there when
/// it is new. The other pairs keep what they had.
pub proof fn lemma_record_get(
    pairs: WordPairProximities,
    after: WordPairProximities,
    found: WordPairAt,
    deletion: bool,
    left: Seq<char>,
    right: Seq<char>,
)
    requires
        after.entries@ == recorded(pairs.entries@, found, deletion),
    ensures
        !(left == found.0@ && right == found.1@) ==> after.get(left, right) == pairs.get(
            left,
            right,
        ),
        left == found.0@ && right == found.1@ ==> after.get(left, right) == Some(
            match pairs.get(left, right) {
                Some((del, add)) => if deletion {
                    (Some(nearer(del, found.2)), add)
                } else {
                    (del, Some(nearer(add, found.2)))
                },
                None => if deletion {
                    (Some(found.2), None::<u8>)
                } else {
                    (None::<u8>, Some(found.2))
                },
            },
        ),
{
    let before = pairs.entries@;
    let now = after.entries@;
    match position(before, found.0@, found.1@) {
        Some(i) => {
            lemma_position_in_range(before, found.0@, found.1@);
            assert forall|k: int| 0 <= k < before.len() implies (#[trigger] before[k]).left@
                == now[k].left@ && before[k].right@ == now[k].right@ by {
                if k != i {
                    assert(now[k] == before[k]);
                }
            }
            lemma_position_same_keys(before, now, left, right);
            if position(before, left, right) is Some {
                lemma_position_in_range(before, left, right);
                let j = position(before, left, right)->0;
                if j != i {
                    assert(now[j] == before[j]);
                }
            }
        },
        None => {
            assert(now.drop_last() == before);
            if position(before, left, right) is Some {
                lemma_position_in_range(before, left, right);
                let j = position(before, left, right)->0;
                assert(now[j] == before[j]);
            }
        },
    }
}

/// The place found for a pair holds an entry of this pair.
proof fn lemma_position_in_range(entries: Seq<PairProximity>, left: Seq<char>, right: Seq<char>)
    requires
        position(entries, left, right) is Some,
    ensures
        0 <= position(entries, left, right)->0 < entries.len(),
        entries[position(entries, left, right)->0].left@ == left,
        entries[position(entries, left, right)->0].right@ == right,
    decreases entries.len(),
{
    if entries.len() > 0 && position(entries.drop_last(), left, right) is Some {
        lemma_position_in_range(entries.drop_last(), left, right);
    }
}

/// Entries with the same words at the same places give the same places.
proof fn lemma_position_same_keys(
    a: Seq<PairProximity>,
    b: Seq<PairProximity>,
    left: Seq<char>,
    right: Seq<char>,
)
    requires
        a.len() == b.len(),
        forall|i: int|
            0 <= i < a.len() ==> (#[trigger] a[i]).left@ == b[i].left@ && a[i].right@
                == b[i].right@,
    ensures
        position(a, left, right) == position(b, left, right),
    decreases a.len(),
{
    if a.len() > 0 {
        lemma_position_same_keys(a.drop_last(), b.drop_last(), left, right);
        assert(a.last() == a[a.len() - 1]);
        assert(b.last() == b[b.len() - 1]);
    }
}

/// The pairs that the first word of the window makes with the words that
/// follow it, up to the word at `k - 1`: those at a distance above zero and
/// below `MAX_DISTANCE`.
pub open spec fn head_pairs(window: Seq<(String, u16)>, k: int) -> Seq<WordPairAt>
    decreases k,
{
    if k <= 1 {
        Seq::empty()
    } else {
        let before = head_pairs(window, k - 1);
        let prox = spec_index_proximity(window[0].1 as u32, window[k - 1].1 as u32);
        if 0 < prox < MAX_DISTANCE {
            before.push((window[0].0, window[k - 1].0, prox as u8))
        } else {
            before
        }
    }
}

/// Takes the first word out of the window and records the pairs that it
/// makes with the words that remain, each at the distance between the two
/// positions, if this distance is above zero and below `MAX_DISTANCE`.
/// The window holds at least one word.
pub fn word_positions_into_word_pair_proximity(
    word_positions: &mut VecDeque<(String, u16)>,
    word_pair_proximity: &mut WordPairProximities,
    deletion: bool,
) -> (r: Result<(), Error>)
    requires
        old(word_positions)@.len() > 0,
    ensures
        r is Ok,
        final(word_positions)@ == old(word_positions)@.drop_first(),
        final(word_pair_proximity).entries@ == recorded_all(
            old(word_pair_proximity).entries@,
            head_pairs(old(word_positions)@, old(word_positions)@.len() as int),
            deletion,
        ),
        distances_in_range(old(word_pair_proximity).entries@) ==> distances_in_range(
            final(word_pair_proximity).entries@,
        ),
{
    let ghost window = word_positions@;
    let (head_word, head_position) = word_positions.pop_front().unwrap();
    let mut k: usize = 0;
    while k < word_positions.len()
        invariant
            window.len() > 0,
            word_positions@ == window.drop_first(),
            (head_word, head_position) == window[0],
            k <= word_positions@.len(),
            word_pair_proximity.entries@ == recorded_all(
                old(word_pair_proximity).entries@,
                head_pairs(window, k + 1),
                deletion,
            ),
            distances_in_range(old(word_pair_proximity).entries@) ==> distances_in_range(
                word_pair_proximity.entries@,
            ),
        decreases word_positions@.len() - k,
    {
        assert(word_positions@[k as int] == window[k + 1]);
        let prox = index_proximity(head_position as u32, word_positions[k].1 as u32);
        if prox > 0 && prox < MAX_DISTANCE {
            let left = head_word.clone();
            let right = word_positions[k].0.clone();
            word_pair_proximity.record(left, right, prox as u8, deletion);
            proof {
                let next = head_pairs(window, k + 2);
                assert(next.drop_last() == head_pairs(window, k + 1));
                assert(next.last() == (window[0].0, window[k + 1].0, prox as u8));
            }
        }
        k += 1;
    }
    Ok(())
}

/// The pairs that leave the window while its first word is far from the
/// position `pos`, and the window that remains.
pub open spec fn drained_far(window: Seq<(String, u16)>, pos: u16) -> (
    Seq<WordPairAt>,
    Seq<(String, u16)>,
)
    decreases window.len(),
{
    if window.len() > 0 && spec_index_proximity(window[0].1 as u32, pos as u32) >= MAX_DISTANCE {
        let rest = drained_far(window.drop_first(), pos);
        (head_pairs(window, window.len() as int) + rest.0, rest.1)
    } else {
        (Seq::empty(), window)
    }
}

/// The pairs that leave the window when it is emptied word by word.
pub open spec fn drained_all(window: Seq<(String, u16)>) -> Seq<WordPairAt>
    decreases window.len(),
{
    if window.len() == 0 {
        Seq::empty()
    } else {
        head_pairs(window, window.len() as int) + drained_all(window.drop_first())
    }
}

/// The pairs found while the first `n` tokens pass through the window, and
/// the window after them. Before a token enters, the words that are far
/// from it leave the window from the front.
pub open spec fn passed(tokens: Seq<(String, u16)>, window: Seq<(String, u16)>, n: int) -> (
    Seq<WordPairAt>,
    Seq<(String, u16)>,
)
    decreases n,
{
    if n <= 0 {
        (Seq::empty(), window)
    } else {
        let before = passed(tokens, window, n - 1);
        let drained = drained_far(before.1, tokens[n - 1].1);
        (before.0 + drained.0, drained.1.push(tokens[n - 1]))
    }
}

/// The pairs of words of a document, in the order in which they are found:
/// those found while the tokens pass through the window, then those found
/// when the window is emptied.
pub open spec fn document_pairs(tokens: Seq<(String, u16)>, window: Seq<(String, u16)>) -> Seq<
    WordPairAt,
> {
    let through = passed(tokens, window, tokens.len() as int);
    through.0 + drained_all(through.1)
}

/// Passes the tokens of a document, each a word and its position, through
/// the window and records the pairs of words that are found. The window is
/// empty at the end.
pub fn process_document_tokens(
    tokens: &Vec<(String, u16)>,
    word_positions: &mut VecDeque<(String, u16)>,
    word_pair_proximity: &mut WordPairProximities,
    deletion: bool,
) -> (r: Result<(), Error>)
    ensures
        r is Ok,
        final(word_positions)@.len() == 0,
        final(word_pair_proximity).entries@ == recorded_all(
            old(word_pair_proximity).entries@,
            document_pairs(tokens@, old(word_positions)@),
            deletion,
        ),
        distances_in_range(old(word_pair_proximity).entries@) ==> distances_in_range(
            final(word_pair_proximity).entries@,
        ),
{
    let ghost window0 = word_positions@;
    let ghost entries0 = word_pair_proximity.entries@;
    let mut n: usize = 0;
    while n < tokens.len()
        invariant
            n <= tokens@.len(),
            word_positions@ == passed(tokens@, window0, n as int).1,
            word_pair_proximity.entries@ == recorded_all(
                entries0,
                passed(tokens@, window0, n as int).0,
                deletion,
            ),
            distances_in_range(entries0) ==> distances_in_range(word_pair_proximity.entries@),
        decreases tokens@.len() - n,
    {
        let pos = tokens[n].1;
        let ghost before = passed(tokens@, window0, n as int);
        let ghost mut left: Seq<WordPairAt> = Seq::empty();
        proof {
            assert(before.0 + left =~= before.0);
        }
        while word_positions.len() > 0 && index_proximity(word_positions[0].1 as u32, pos as u32)
            >= MAX_DISTANCE
            invariant
                word_pair_proximity.entries@ == recorded_all(entries0, before.0 + left, deletion),
                distances_in_range(entries0) ==> distances_in_range(word_pair_proximity.entries@),
                drained_far(before.1, pos) == (
                    left + drained_far(word_positions@, pos).0,
                    drained_far(word_positions@, pos).1,
                ),
            decreases word_positions@.len(),
        {
            let ghost window = word_positions@;
            let ghost entries = word_pair_proximity.entries@;
            let _ = word_positions_into_word_pair_proximity(
                word_positions,
                word_pair_proximity,
                deletion,
            );
            proof {
                let gone = head_pairs(window, window.len() as int);
                lemma_recorded_all_concat(entries0, before.0 + left, gone, deletion);
                assert((before.0 + left) + gone =~= before.0 + (left + gone));
                assert(left + (gone + drained_far(window.drop_first(), pos).0) =~= (left + gone)
                    + drained_far(window.drop_first(), pos).0);
                left = left + gone;
            }
        }
        proof {
            assert(left + Seq::<WordPairAt>::empty() =~= left);
        }
        word_positions.push_back((tokens[n].0.clone(), pos));
        n += 1;
    }
    let ghost through = passed(tokens@, window0, tokens@.len() as int);
    let ghost mut left: Seq<WordPairAt> = Seq::empty();
    proof {
        assert(through.0 + left =~= through.0);
    }
    while word_positions.len() > 0
        invariant
            word_pair_proximity.entries@ == recorded_all(entries0, through.0 + left, deletion),
            distances_in_range(entries0) ==> distances_in_range(word_pair_proximity.entries@),
            drained_all(through.1) == left + drained_all(word_positions@),
        decreases word_positions@.len(),
    {
        let ghost window = word_positions@;
        let _ = word_positions_into_word_pair_proximity(
            word_positions,
            word_pair_proximity,
            deletion,
        );
        proof {
            let gone = head_pairs(window, window.len() as int);
            lemma_recorded_all_concat(entries0, through.0 + left, gone, deletion);
            assert((through.0 + left) + gone =~= through.0 + (left + gone));
            assert(left + (gone + drained_all(window.drop_first())) =~= (left + gone)
                + drained_all(window.drop_first()));
            left = left + gone;
        }
    }
    proof {
        assert(left + Seq::<WordPairAt>::empty() =~= left);
    }
    Ok(())
}

/// A change of one document, with the tokens of the version that goes away
/// and of the version that comes. A token is a word and its position.
#[derive(Debug)]
pub enum DocumentChange {
    Deletion { docid: u32, current: Vec<(String, u16)> },
    Update { docid: u32, current: Vec<(String, u16)>, new: Vec<(String, u16)> },
    Insertion { docid: u32, new: Vec<(String, u16)> },
}

/// The side of a change: what goes away or what comes.
#[derive(Debug, Clone, Copy, PartialEq, Eq, Structural)]
pub enum DelAdd {
    Deletion,
    Addition,
}

/// What the extractor hands to the sorter: under `key`, the document
/// `docid` goes away or comes.
#[derive(Debug)]
pub struct SorterEntry {
    pub key: Vec<u8>,
    pub docid: u32,
    pub side: DelAdd,
}

impl DocumentChange {
    /// The document of the change.
    pub open spec fn spec_docid(self) -> u32 {
        match self {
            DocumentChange::Deletion { docid, .. } => docid,
            DocumentChange::Update { docid, .. } => docid,
            DocumentChange::Insertion { docid, .. } => docid,
        }
    }

    /// Returns the document of the change.
    pub fn docid(&self) -> (docid: u32)
        ensures
            docid == self.spec_docid(),
    {
        match self {
            DocumentChange::Deletion { docid, .. } => *docid,
            DocumentChange::Update { docid, .. } => *docid,
            DocumentChange::Insertion { docid, .. } => *docid,
        }
    }

    /// The word pairs of the change: those of the old version on the side
    /// of what goes away, those of the new version on the side of what
    /// comes.
    pub open spec fn pairs(self) -> Seq<PairProximity> {
        let nothing = Seq::<PairProximity>::empty();
        let window = Seq::<(String, u16)>::empty();
        match self {
            DocumentChange::Deletion { current, .. } => recorded_all(
                nothing,
                document_pairs(current@, window),
                true,
            ),
            DocumentChange::Update { current, new, .. } => recorded_all(
                recorded_all(nothing, document_pairs(current@, window), true),
                document_pairs(new@, window),
                false,
            ),
            DocumentChange::Insertion { new, .. } => recorded_all(
                nothing,
                document_pairs(new@, window),
                false,
            ),
        }
    }
}

impl SorterEntry {
    /// The entry as plain values: its key, its document and its side.
    pub open spec fn shown(self) -> (Seq<u8>, u32, DelAdd) {
        (self.key@, self.docid, self.side)
    }
}

/// What goes to the sorter for one side of a pair: the key at the distance
/// found on this side, or nothing if the pair was not found there.
pub open spec fn side_entries(pair: PairProximity, prox: Option<u8>, docid: u32, side: DelAdd) -> Seq<
    (Seq<u8>, u32, DelAdd),
> {
    match prox {
        Some(p) => seq![
            (
                word_pair_proximity_key(p, encode_utf8(pair.left@), encode_utf8(pair.right@)),
                docid,
                side,
            ),
        ],
        None => Seq::empty(),
    }
}

/// What goes to the sorter for one pair: what goes away, if the pair was
/// found in the old version, then what comes, if it was found in the new
/// one.
pub open spec fn pair_entries(pair: PairProximity, docid: u32) -> Seq<(Seq<u8>, u32, DelAdd)> {
    side_entries(pair, pair.del, docid, DelAdd::Deletion) + side_entries(
        pair,
        pair.add,
        docid,
        DelAdd::Addition,
    )
}

/// What goes to the sorter for the first `n` pairs of a document, pair
/// after pair.
pub open spec fn sorter_entries(pairs: Seq<PairProximity>, docid: u32, n: int) -> Seq<
    (Seq<u8>, u32, DelAdd),
>
    decreases n,
{
    if n <= 0 {
        Seq::empty()
    } else {
        sorter_entries(pairs, docid, n - 1) + pair_entries(pairs[n - 1], docid)
    }
}

/// The entries as plain values.
pub open spec fn entries_shown(entries: Seq<SorterEntry>) -> Seq<(Seq<u8>, u32, DelAdd)> {
    entries.map_values(|entry: SorterEntry| entry.shown())
}

/// Extracts from documents the pairs of words that stand close to each
/// other.
#[derive(Debug)]
pub struct WordPairProximityDocidsExtractor;

impl WordPairProximityDocidsExtractor {
    /// The attributes that are never searched for word pairs: none.
    pub fn attributes_to_skip() -> (r: Result<Vec<String>, Error>)
        ensures
            r matches Ok(skipped) && skipped@.len() == 0,
    {
        Ok(Vec::new())
    }

    /// Finds the word pairs of a document change and returns what goes to
    /// the sorter: for each pair, in the order in which the pairs were
    /// first found, its key at the smallest distance of the old version for
    /// the side of what goes away, if the old version holds the pair, and
    /// its key at the smallest distance of the new version for the side of
    /// what comes, if the new version holds the pair. Every key begins with
    /// a distance above zero and below `MAX_DISTANCE`.
    pub fn extract_document_change(document_change: DocumentChange) -> (r: Result<
        Vec<SorterEntry>,
        Error,
    >)
        ensures
            r matches Ok(entries) && entries_shown(entries@) == sorter_entries(
                document_change.pairs(),
                document_change.spec_docid(),
                document_change.pairs().len() as int,
            ) && forall|i: int|
                0 <= i < entries@.len() ==> (#[trigger] entries@[i]).key@.len() > 0 && is_distance(
                    entries@[i].key@[0],
                ),
    {
        let mut key_buffer: Vec<u8> = Vec::new();
        let mut word_pair_proximity = WordPairProximities::new();
        let mut word_positions: VecDeque<(String, u16)> = VecDeque::new();
        let docid = document_change.docid();
        assert(word_positions@ =~= Seq::<(String, u16)>::empty());
        assert(word_pair_proximity.entries@ =~= Seq::<PairProximity>::empty());
        match &document_change {
            DocumentChange::Deletion { current, .. } => {
                let _ = process_document_tokens(
                    current,
                    &mut word_positions,
                    &mut word_pair_proximity,
                    true,
                );
            },
            DocumentChange::Update { current, new, .. } => {
                let _ = process_document_tokens(
                    current,
                    &mut word_positions,
                    &mut word_pair_proximity,
                    true,
                );
                assert(word_positions@ =~= Seq::<(String, u16)>::empty());
                let _ = process_document_tokens(
                    new,
                    &mut word_positions,
                    &mut word_pair_proximity,
                    false,
                );
            },
            DocumentChange::Insertion { new, .. } => {
                let _ = process_document_tokens(
                    new,
                    &mut word_positions,
                    &mut word_pair_proximity,
                    false,
                );
            },
        }
        assert(word_pair_proximity.entries@ == document_change.pairs());
        let ghost pairs = word_pair_proximity.entries@;
        let mut entries: Vec<SorterEntry> = Vec::new();
        let mut i: usize = 0;
        assert(entries_shown(entries@) =~= sorter_entries(pairs, docid, 0));
        while i < word_pair_proximity.entries.len()
            invariant
                i <= word_pair_proximity.entries@.len(),
                pairs == word_pair_proximity.entries@,
                distances_in_range(pairs),
                entries_shown(entries@) == sorter_entries(pairs, docid, i as int),
                forall|k: int|
                    0 <= k < entries@.len() ==> (#[trigger] entries@[k]).key@.len() > 0
                        && is_distance(entries@[k].key@[0]),
            decreases word_pair_proximity.entries@.len() - i,
        {
            let pair = &word_pair_proximity.entries[i];
            let ghost before = entries_shown(entries@);
            if let Some(prox) = pair.del {
                let key = build_key(prox, pair.left.as_str(), pair.right.as_str(), &mut key_buffer);
                let ghost shown = entries_shown(entries@);
                entries.push(SorterEntry { key: slice_to_vec(key), docid, side: DelAdd::Deletion });
                assert(entries_shown(entries@) =~= shown + side_entries(
                    *pair,
                    pair.del,
                    docid,
                    DelAdd::Deletion,
                ));
            }
            let ghost middle = entries_shown(entries@);
            assert(middle =~= before + side_entries(*pair, pair.del, docid, DelAdd::Deletion));
            if let Some(prox) = pair.add {
                let key = build_key(prox, pair.left.as_str(), pair.right.as_str(), &mut key_buffer);
                let ghost shown = entries_shown(entries@);
                entries.push(SorterEntry { key: slice_to_vec(key), docid, side: DelAdd::Addition });
                assert(entries_shown(entries@) =~= shown + side_entries(
                    *pair,
                    pair.add,
                    docid,
                    DelAdd::Addition,
                ));
            }
            assert(entries_shown(entries@) =~= before + pair_entries(*pair, docid));
            i += 1;
        }
        Ok(entries)
    }
}

/// A pair goes to the sorter once for each version of the document that
/// holds it, and to no key but that of its distance there.
pub proof fn lemma_pair_entries(pair: PairProximity, docid: u32)
    ensures
        pair_entries(pair, docid).len() == (if pair.del is Some {
            1int
        } else {
            0int
        }) + (if pair.add is Some {
            1int
        } else {
            0int
        }),
        forall|i: int|
            0 <= i < pair_entries(pair, docid).len() ==> {
                let entry = #[trigger] pair_entries(pair, docid)[i];
                &&& entry.1 == docid
                &&& entry.2 == DelAdd::Deletion ==> (pair.del matches Some(p) && entry.0
                    == word_pair_proximity_key(
                    p,
                    encode_utf8(pair.left@),
                    encode_utf8(pair.right@),
                ))
                &&& entry.2 == DelAdd::Addition ==> (pair.add matches Some(p) && entry.0
                    == word_pair_proximity_key(
                    p,
                    encode_utf8(pair.left@),
                    encode_utf8(pair.right@),
                ))
            },
{
}

/// Pairs met on one side only have nothing on the other side: an insertion
/// takes nothing away, and a deletion brings nothing.
pub proof fn lemma_one_side_only(found: Seq<WordPairAt>, deletion: bool, i: int)
    requires
        0 <= i < recorded_all(Seq::empty(), found, deletion).len(),
    ensures
        deletion ==> recorded_all(Seq::empty(), found, deletion)[i].add is None,
        !deletion ==> recorded_all(Seq::empty(), found, deletion)[i].del is None,
    decreases found.len(),
{
    if found.len() > 0 {
        let before = recorded_all(Seq::empty(), found.drop_last(), deletion);
        let last = found.last();
        if position(before, last.0@, last.1@) is Some {
            lemma_position_in_range(before, last.0@, last.1@);
        }
        if i < before.len() {
            lemma_one_side_only(found.drop_last(), deletion, i);
        }
    }
}

/// Keys are sorted by proximity first: a key at a smaller proximity comes
/// before every key at a larger one, whatever the words.
pub proof fn lemma_key_order_follows_proximity(
    near: u8,
    a1: Seq<u8>,
    b1: Seq<u8>,
    far: u8,
    a2: Seq<u8>,
    b2: Seq<u8>,
)
    requires
        near < far,
    ensures
        word_pair_proximity_key(near, a1, b1)[0] < word_pair_proximity_key(far, a2, b2)[0],
        word_pair_proximity_key(near, a1, b1).len() == 1 + a1.len() + 1 + b1.len(),
{
}

/// A key tells its proximity and its two words, provided that the first
/// word holds no zero byte.
pub proof fn lemma_key_tells_its_parts(
    near: u8,
    a1: Seq<u8>,
    b1: Seq<u8>,
    far: u8,
    a2: Seq<u8>,
    b2: Seq<u8>,
)
    requires
        forall|i: int| 0 <= i < a1.len() ==> a1[i] != 0,
        forall|i: int| 0 <= i < a2.len() ==> a2[i] != 0,
        word_pair_proximity_key(near, a1, b1) == word_pair_proximity_key(far, a2, b2),
    ensures
        near == far,
        a1 == a2,
        b1 == b2,
{
    let k1 = word_pair_proximity_key(near, a1, b1);
    let k2 = word_pair_proximity_key(far, a2, b2);
    let n1 = a1.len() as int;
    let n2 = a2.len() as int;
    assert(k1[0] == near && k2[0] == far);
    assert(k1[1 + n1] == 0);
    assert(k2[1 + n2] == 0);
    if n1 < n2 {
        assert(k2[1 + n1] == a2[n1]);
        assert(false);
    }
    if n2 < n1 {
        assert(k1[1 + n2] == a1[n2]);
        assert(false);
    }
    assert(a1 =~= a2) by {
        assert forall|i: int| 0 <= i < a1.len() implies a1[i] == a2[i] by {
            assert(k1[1 + i] == a1[i]);
            assert(k2[1 + i] == a2[i]);
        }
    }
    assert(k1.len() == 2 + n1 + b1.len());
    assert(k2.len() == 2 + n2 + b2.len());
    assert(b1 =~= b2) by {
        assert(b1.len() == b2.len());
        assert forall|i: int| 0 <= i < b1.len() implies b1[i] == b2[i] by {
            assert(k1[2 + n1 + i] == b1[i]);
            assert(k2[2 + n2 + i] == b2[i]);
        }
    }
}

} // verus!
