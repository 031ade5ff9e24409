//! Values of filters: absent, a star that stands for everything, or given.

use vstd::prelude::*;

verus! {

/// A filter with one value: absent, `*`, or the value.
#[derive(Debug)]
pub enum OptionStarOr<T> {
    Absent,
    Star,
    Other(T),
}

/// A filter with a list of values: absent, `*`, or the list.
#[derive(Debug)]
pub enum OptionStarOrList<T> {
    Absent,
    Star,
    List(Vec<T>),
}

impl<T> OptionStarOr<T> {
    /// Whether the filter was given, be it as a star.
    pub open spec fn spec_is_some(self) -> bool {
        !(self is Absent)
    }

    /// Tells whether the filter was given, be it as a star.
    pub fn is_some(&self) -> (given: bool)
        ensures
            given == self.spec_is_some(),
    {
        match self {
            OptionStarOr::Absent => false,
            OptionStarOr::Star => true,
            OptionStarOr::Other(_) => true,
        }
    }

    /// The value that restricts a query: a star restricts nothing, no more
    /// than an absent filter does.
    pub open spec fn spec_merge_star_and_none(self) -> Option<T> {
        match self {
            OptionStarOr::Absent => None,
            OptionStarOr::Star => None,
            OptionStarOr::Other(value) => Some(value),
        }
    }

    /// Returns the value that restricts a query, if any.
    pub fn merge_star_and_none(self) -> (merged: Option<T>)
        ensures
            merged == self.spec_merge_star_and_none(),
    {
        match self {
            OptionStarOr::Absent => None,
            OptionStarOr::Star => None,
            OptionStarOr::Other(value) => Some(value),
        }
    }
}

impl<T> OptionStarOrList<T> {
    /// Whether the filter was given, be it as a star.
    pub open spec fn spec_is_some(self) -> bool {
        !(self is Absent)
    }

    /// Tells whether the filter was given, be it as a star.
    pub fn is_some(&self) -> (given: bool)
        ensures
            given == self.spec_is_some(),
    {
        match self {
            OptionStarOrList::Absent => false,
            OptionStarOrList::Star => true,
            OptionStarOrList::List(_) => true,
        }
    }

    /// The list that restricts a query: a star restricts nothing, no more
    /// than an absent filter does.
    pub open spec fn spec_merge_star_and_none(self) -> Option<Vec<T>> {
        match self {
            OptionStarOrList::Absent => None,
            OptionStarOrList::Star => None,
            OptionStarOrList::List(list) => Some(list),
        }
    }

    /// Returns the list that restricts a query, if any.
    pub fn merge_star_and_none(self) -> (merged: Option<Vec<T>>)
        ensures
            merged == self.spec_merge_star_and_none(),
    {
        match self {
            OptionStarOrList::Absent => None,
            OptionStarOrList::Star => None,
            OptionStarOrList::List(list) => Some(list),
        }
    }
}

} // verus!
