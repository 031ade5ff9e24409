//! Query terms: the words of a query, with the spelling variants under which
//! each may be found in the index.

use vstd::prelude::*;

verus! {

/// The spelling variants of one word of the query.
#[derive(Debug)]
pub struct WordDerivations {
    /// The word as the user typed it.
    pub original: String,
    /// Variants that match the word exactly.
    pub zero_typo: Vec<String>,
    /// Variants at edit distance one.
    pub one_typo: Vec<String>,
    /// Variants at edit distance two.
    pub two_typos: Vec<String>,
    /// Whether the word, being the last one typed, is also looked up in the
    /// prefix database.
    pub use_prefix_db: bool,
}

/// What `WordDerivations` holds, as plain text.
pub struct WordDerivationsView {
    pub original: Seq<char>,
    pub zero_typo: Seq<Seq<char>>,
    pub one_typo: Seq<Seq<char>>,
    pub two_typos: Seq<Seq<char>>,
    pub use_prefix_db: bool,
}

impl DeepView for WordDerivations {
    type V = WordDerivationsView;

    open spec fn deep_view(&self) -> WordDerivationsView {
        WordDerivationsView {
            original: self.original@,
            zero_typo: self.zero_typo.deep_view(),
            one_typo: self.one_typo.deep_view(),
            two_typos: self.two_typos.deep_view(),
            use_prefix_db: self.use_prefix_db,
        }
    }
}

/// Copies a list of words.
pub fn clone_words(words: &Vec<String>) -> (copy: Vec<String>)
    ensures
        copy@ == words@,
        copy.deep_view() == words.deep_view(),
{
    let mut copy: Vec<String> = Vec::new();
    let mut i: usize = 0;
    while i < words.len()
        invariant
            i <= words@.len(),
            copy@.len() == i,
            forall|k: int| 0 <= k < i ==> copy@[k] == words@[k],
        decreases words@.len() - i,
    {
        copy.push(words[i].clone());
        i += 1;
    }
    assert(copy@ =~= words@);
    assert(copy.deep_view() =~= words.deep_view());
    copy
}

impl WordDerivations {
    /// All the variants, in the order exact, one typo, two typos.
    pub open spec fn spec_all(self) -> Seq<String> {
        self.zero_typo@ + self.one_typo@ + self.two_typos@
    }

    /// Returns all the variants of the word, the exact ones first, then those
    /// with one typo, then those with two.
    pub fn all_derivations(&self) -> (all: Vec<String>)
        ensures
            all@ == self.spec_all(),
    {
        let mut all = clone_words(&self.zero_typo);
        let mut one = clone_words(&self.one_typo);
        let mut two = clone_words(&self.two_typos);
        all.append(&mut one);
        all.append(&mut two);
        all
    }

    /// Copies the derivations.
    pub fn clone_derivations(&self) -> (copy: WordDerivations)
        ensures
            copy.deep_view() == self.deep_view(),
    {
        WordDerivations {
            original: self.original.clone(),
            zero_typo: clone_words(&self.zero_typo),
            one_typo: clone_words(&self.one_typo),
            two_typos: clone_words(&self.two_typos),
            use_prefix_db: self.use_prefix_db,
        }
    }
}

/// One term of the query: a single word with its variants, or a phrase that
/// must be found word for word.
#[derive(Debug)]
pub enum QueryTerm {
    Phrase { words: Vec<String> },
    Word { derivations: WordDerivations },
}

/// What a `QueryTerm` holds, as plain text.
pub enum QueryTermView {
    Phrase { words: Seq<Seq<char>> },
    Word { derivations: WordDerivationsView },
}

impl DeepView for QueryTerm {
    type V = QueryTermView;

    open spec fn deep_view(&self) -> QueryTermView {
        match self {
            QueryTerm::Phrase { words } => QueryTermView::Phrase { words: words.deep_view() },
            QueryTerm::Word { derivations } => QueryTermView::Word {
                derivations: derivations.deep_view(),
            },
        }
    }
}

impl QueryTerm {
    /// Copies the term.
    pub fn clone_term(&self) -> (copy: QueryTerm)
        ensures
            copy.deep_view() == self.deep_view(),
    {
        match self {
            QueryTerm::Phrase { words } => QueryTerm::Phrase { words: clone_words(words) },
            QueryTerm::Word { derivations } => QueryTerm::Word {
                derivations: derivations.clone_derivations(),
            },
        }
    }
}

/// A term together with the input slots that it covers, `start` to `end`,
/// both included. A term that fuses several typed words covers several slots.
#[derive(Debug)]
pub struct LocatedQueryTerm {
    pub value: QueryTerm,
    pub start: u16,
    pub end: u16,
}

/// What a `LocatedQueryTerm` holds, as plain values.
pub struct LocatedQueryTermView {
    pub value: QueryTermView,
    pub start: u16,
    pub end: u16,
}

impl DeepView for LocatedQueryTerm {
    type V = LocatedQueryTermView;

    open spec fn deep_view(&self) -> LocatedQueryTermView {
        LocatedQueryTermView { value: self.value.deep_view(), start: self.start, end: self.end }
    }
}

impl LocatedQueryTerm {
    /// Copies the term and its span.
    pub fn clone_located(&self) -> (copy: LocatedQueryTerm)
        ensures
            copy.deep_view() == self.deep_view(),
    {
        LocatedQueryTerm { value: self.value.clone_term(), start: self.start, end: self.end }
    }
}

} // verus!
