//! What both representations of a set of strings offer, and the operations
//! written once on top of it.
use vstd::prelude::*;
use crate::trie::{Trie, pattern_set};
use crate::dawg::Dawg;
use crate::word::{Word, word_matches};
use crate::order::{enumerates, strings_view};

verus! {

/// A set of strings over `a`..`z`, held in some representation.
pub trait StringSet: Sized {
    /// The representation invariant.
    spec fn valid(&self) -> bool;

    /// The strings of the set.
    spec fn strings_of(&self) -> Set<Seq<char>>;

    /// The empty set.
    fn empty_set() -> (r: Self)
        ensures
            r.valid(),
            r.strings_of() == Set::<Seq<char>>::empty(),
    ;

    /// The set of the strings that the pattern `w` matches.
    fn from_word(w: Word) -> (r: Self)
        ensures
            r.valid(),
            r.strings_of() == pattern_set(w@),
    ;

    /// Whether the set holds no string.
    fn holds_none(&self) -> (r: bool)
        requires
            self.valid(),
        ensures
            r == (self.strings_of() == Set::<Seq<char>>::empty()),
    ;

    /// Whether some string that the pattern `w` matches is in the set.
    fn has_any_word(&self, w: &Word) -> (r: bool)
        requires
            self.valid(),
        ensures
            r == exists|s: Seq<char>| word_matches(w@, s) && self.strings_of().contains(s),
    ;

    /// Whether every string that the pattern `w` matches is in the set.
    fn has_every_word(&self, w: &Word) -> (r: bool)
        requires
            self.valid(),
        ensures
            r == pattern_set(w@).subset_of(self.strings_of()),
    ;

    /// The strings of the set, each once, in dictionary order.
    fn listing(&self) -> (r: Vec<String>)
        requires
            self.valid(),
        ensures
            enumerates(self.strings_of(), strings_view(r@)),
    ;

    /// The strings of this set that are not in `other`.
    fn diff(&self, other: &Self) -> (r: Self)
        requires
            self.valid(),
            other.valid(),
        ensures
            r.valid(),
            r.strings_of() == self.strings_of().difference(other.strings_of()),
    ;

    /// The strings that are in both sets.
    fn and(&self, other: &Self) -> (r: Self)
        requires
            self.valid(),
            other.valid(),
        ensures
            r.valid(),
            r.strings_of() == self.strings_of().intersect(other.strings_of()),
    ;

    /// The strings that are in either set.
    fn or(&self, other: &Self) -> (r: Self)
        requires
            self.valid(),
            other.valid(),
        ensures
            r.valid(),
            r.strings_of() == self.strings_of().union(other.strings_of()),
    ;
}

impl StringSet for Trie {
    open spec fn valid(&self) -> bool {
        self.wf()
    }

    open spec fn strings_of(&self) -> Set<Seq<char>> {
        self@
    }

    fn empty_set() -> (r: Self) {
        Trie::empty()
    }

    fn from_word(w: Word) -> (r: Self) {
        Trie::word(w)
    }

    fn holds_none(&self) -> (r: bool) {
        Trie::is_empty(self)
    }

    fn has_any_word(&self, w: &Word) -> (r: bool) {
        Trie::has_word(self, w)
    }

    fn has_every_word(&self, w: &Word) -> (r: bool) {
        Trie::has_all_word(self, w)
    }

    fn listing(&self) -> (r: Vec<String>) {
        Trie::strings(self)
    }

    fn diff(&self, other: &Self) -> (r: Self) {
        Trie::diff(self, other)
    }

    fn and(&self, other: &Self) -> (r: Self) {
        Trie::and(self, other)
    }

    fn or(&self, other: &Self) -> (r: Self) {
        Trie::or(self, other)
    }
}

impl StringSet for Dawg {
    open spec fn valid(&self) -> bool {
        self.wf()
    }

    open spec fn strings_of(&self) -> Set<Seq<char>> {
        self@
    }

    fn empty_set() -> (r: Self) {
        Dawg::empty()
    }

    fn from_word(w: Word) -> (r: Self) {
        Dawg::word(w)
    }

    fn holds_none(&self) -> (r: bool) {
        Dawg::is_empty(self)
    }

    fn has_any_word(&self, w: &Word) -> (r: bool) {
        Dawg::has_word(self, w)
    }

    fn has_every_word(&self, w: &Word) -> (r: bool) {
        Dawg::has_all_word(self, w)
    }

    fn listing(&self) -> (r: Vec<String>) {
        Dawg::strings(self)
    }

    fn diff(&self, other: &Self) -> (r: Self) {
        Dawg::diff(self, other)
    }

    fn and(&self, other: &Self) -> (r: Self) {
        Dawg::and(self, other)
    }

    fn or(&self, other: &Self) -> (r: Self) {
        Dawg::or(self, other)
    }
}

/// The set with the strings of the pattern `w` added.
pub fn with_word<S: StringSet>(set: &S, w: Word) -> (r: S)
    requires
        set.valid(),
    ensures
        r.valid(),
        r.strings_of() == set.strings_of().union(pattern_set(w@)),
{
    let other = S::from_word(w);
    set.or(&other)
}

/// The set with the strings of the pattern `w` taken away.
pub fn without_word<S: StringSet>(set: &S, w: Word) -> (r: S)
    requires
        set.valid(),
    ensures
        r.valid(),
        r.strings_of() == set.strings_of().difference(pattern_set(w@)),
{
    let other = S::from_word(w);
    set.diff(&other)
}

} // verus!
