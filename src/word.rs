//! A `Word` is a pattern of fixed length: one `Letter` per position.
use vstd::prelude::*;
use crate::trie::{Trie, pattern_set};
use crate::order::{
    enumerates, strings_view, lex_lt, lemma_lex_at, lemma_lex_witness, lemma_lex_pointwise,
};
use crate::pattern::string_of;
use crate::letter::{Letter, is_symbol, index_of, symbol_at, from_index, within_alphabet, lemma_view_within};

verus! {

/// The symbol sets of a pattern, position by position.
pub open spec fn letters_view(ls: Seq<Letter>) -> Seq<Set<int>> {
    ls.map_values(|l: Letter| l@)
}

/// Whether the string `s` is matched by the pattern `w`.
pub open spec fn word_matches(w: Seq<Set<int>>, s: Seq<char>) -> bool {
    &&& s.len() == w.len()
    &&& forall|k: int| 0 <= k < s.len() ==> is_symbol(#[trigger] s[k]) && w[k].contains(index_of(s[k]))
}

/// Whether no position of `w` is a dead one.
pub open spec fn all_nonempty(w: Seq<Set<int>>) -> bool {
    forall|k: int| 0 <= k < w.len() ==> #[trigger] w[k] != Set::<int>::empty()
}

/// Whether every position of `w` holds only indices of the alphabet.
pub open spec fn all_within(w: Seq<Set<int>>) -> bool {
    forall|k: int| 0 <= k < w.len() ==> within_alphabet(#[trigger] w[k])
}

/// An ordered sequence of letters, front to back.
#[derive(Clone, Debug, PartialEq, Eq)]
pub struct Word {
    pub letters: Vec<Letter>,
}

impl View for Word {
    type V = Seq<Set<int>>;

    open spec fn view(&self) -> Seq<Set<int>> {
        letters_view(self.letters@)
    }
}

/// The positions of a pattern hold only indices of the alphabet.
pub proof fn lemma_word_within(w: Word)
    ensures
        all_within(w@),
{
    assert forall|k: int| 0 <= k < w@.len() implies within_alphabet(#[trigger] w@[k]) by {
        lemma_view_within(w.letters@[k]);
    }
}

impl Word {
    /// The pattern of length zero.
    pub fn new() -> (r: Word)
        ensures
            r@ == Seq::<Set<int>>::empty(),
    {
        let r = Word { letters: Vec::new() };
        assert(r@ =~= Seq::<Set<int>>::empty());
        r
    }

    /// The number of positions.
    pub fn len(&self) -> (r: usize)
        ensures
            r == self@.len(),
    {
        self.letters.len()
    }

    /// Appends a letter at the back.
    pub fn push(&mut self, letter: Letter)
        ensures
            final(self)@ == old(self)@.push(letter@),
    {
        self.letters.push(letter);
        assert(self@ =~= old(self)@.push(letter@));
    }

    /// Takes the front letter off.
    pub fn pop(&mut self) -> (r: Option<Letter>)
        ensures
            old(self)@.len() == 0 ==> r is None && final(self)@ == old(self)@,
            old(self)@.len() > 0 ==> (r matches Some(l) && l@ == old(self)@[0]
                && final(self)@ == old(self)@.drop_first()),
    {
        if self.letters.len() == 0 {
            None
        } else {
            let l = self.letters.remove(0);
            assert(self@ =~= old(self)@.drop_first());
            Some(l)
        }
    }

    /// Takes the back letter off.
    pub fn pop_back(&mut self) -> (r: Option<Letter>)
        ensures
            old(self)@.len() == 0 ==> r is None && final(self)@ == old(self)@,
            old(self)@.len() > 0 ==> (r matches Some(l) && l@ == old(self)@.last()
                && final(self)@ == old(self)@.drop_last()),
    {
        let r = self.letters.pop();
        proof {
            if old(self)@.len() > 0 {
                assert(self@ =~= old(self)@.drop_last());
            }
        }
        r
    }

    /// The front letter and the rest of the pattern, if there is a front letter.
    pub fn split(self) -> (r: Option<(Letter, Word)>)
        ensures
            self@.len() == 0 ==> r is None,
            self@.len() > 0 ==> (r matches Some((l, rest)) && l@ == self@[0] && rest@
                == self@.drop_first()),
    {
        let mut w = self;
        match w.pop() {
            None => None,
            Some(l) => Some((l, w)),
        }
    }

    /// The letters, front to back.
    pub fn letters(&self) -> (r: &Vec<Letter>)
        ensures
            letters_view(r@) == self@,
    {
        &self.letters
    }

    /// Whether some position is a dead one (matches no symbol).
    pub fn has_empty_letter(&self) -> (r: bool)
        ensures
            r == !all_nonempty(self@),
    {
        let mut k: usize = 0;
        while k < self.letters.len()
            invariant
                k <= self.letters@.len(),
                forall|m: int| 0 <= m < k ==> #[trigger] self@[m] != Set::<int>::empty(),
            decreases self.letters@.len() - k,
        {
            if self.letters[k].is_empty() {
                assert(self@[k as int] == Set::<int>::empty());
                return true;
            }
            k += 1;
        }
        false
    }
}

/// A non-empty string matches a non-empty pattern when its first symbol is in
/// the first letter and the rest matches the rest.
pub proof fn lemma_word_matches_cons(w: Seq<Set<int>>, s: Seq<char>)
    requires
        w.len() > 0,
        s.len() > 0,
    ensures
        word_matches(w, s) == (is_symbol(s[0]) && w[0].contains(index_of(s[0])) && word_matches(
            w.drop_first(),
            s.drop_first(),
        )),
{
    if is_symbol(s[0]) && w[0].contains(index_of(s[0])) && word_matches(
        w.drop_first(),
        s.drop_first(),
    ) {
        assert forall|k: int| 0 <= k < s.len() implies is_symbol(#[trigger] s[k]) && w[k].contains(
            index_of(s[k]),
        ) by {
            if k > 0 {
                assert(s[k] == s.drop_first()[k - 1]);
                assert(w[k] == w.drop_first()[k - 1]);
            }
        }
    }
    if word_matches(w, s) {
        assert forall|k: int| 0 <= k < s.drop_first().len() implies is_symbol(
            #[trigger] s.drop_first()[k],
        ) && w.drop_first()[k].contains(index_of(s.drop_first()[k])) by {
            assert(s.drop_first()[k] == s[k + 1]);
        }
    }
}

/// A pattern with no dead position matches some string.
pub proof fn lemma_some_match(w: Seq<Set<int>>)
    requires
        all_nonempty(w),
        all_within(w),
    ensures
        exists|s: Seq<char>| word_matches(w, s),
    decreases w.len(),
{
    if w.len() == 0 {
        assert(word_matches(w, Seq::<char>::empty()));
    } else {
        assert forall|k: int| 0 <= k < w.drop_first().len() implies #[trigger] w.drop_first()[k]
            != Set::<int>::empty() && within_alphabet(w.drop_first()[k]) by {
            assert(w.drop_first()[k] == w[k + 1]);
        }
        lemma_some_match(w.drop_first());
        let t = choose|t: Seq<char>| word_matches(w.drop_first(), t);
        assert(w[0] != Set::<int>::empty());
        assert(within_alphabet(w[0]));
        let i = w[0].choose();
        assert(w[0].contains(i)) by {
            if !w[0].contains(i) {
                assert(w[0] =~= Set::<int>::empty());
            }
        }
        let c = symbol_at(i);
        let s = seq![c] + t;
        assert(s.drop_first() =~= t);
        lemma_word_matches_cons(w, s);
    }
}

/// The string that the symbol indices `ds` spell.
pub open spec fn spelled_by(ds: Seq<usize>) -> Seq<char> {
    ds.map_values(|d: usize| symbol_at(d as int))
}

/// `s` is the first string of `set` after `lo` in dictionary order (the
/// first of all where `lo` is `None`).
pub open spec fn least_above(set: Set<Seq<char>>, lo: Option<Seq<char>>, s: Seq<char>) -> bool {
    &&& set.contains(s)
    &&& lo matches Some(x) ==> lex_lt(x, s)
    &&& forall|t: Seq<char>|
        #![trigger set.contains(t)]
        set.contains(t) && (lo matches Some(x) ==> lex_lt(x, t)) ==> !lex_lt(t, s)
}

/// No string of `set` comes after `lo` (`set` is empty where `lo` is `None`).
pub open spec fn none_above(set: Set<Seq<char>>, lo: Option<Seq<char>>) -> bool {
    forall|t: Seq<char>|
        #![trigger set.contains(t)]
        set.contains(t) ==> (lo matches Some(x) && !lex_lt(x, t))
}

/// The strings that a pattern matches, one at a time in dictionary order:
/// an odometer with one digit per position, the last position turning
/// fastest. `digits` holds the symbol index of the string handed out last.
pub struct StringIter {
    pub word: Word,
    pub digits: Vec<usize>,
    pub started: bool,
    pub done: bool,
}

impl StringIter {
    /// The string handed out last, while the walk is under way.
    pub open spec fn last(&self) -> Option<Seq<char>> {
        if self.started && !self.done {
            Some(spelled_by(self.digits@))
        } else {
            None
        }
    }

    /// While the walk is under way, each digit is a symbol of its position.
    pub open spec fn inv(&self) -> bool {
        self.started && !self.done ==> {
            &&& self.digits@.len() == self.word@.len()
            &&& forall|k: int|
                0 <= k < self.digits@.len() ==> #[trigger] self.digits@[k] < 26 && self.word@[k].contains(
                    self.digits@[k] as int,
                )
        }
    }

    /// A walk over the strings that `word` matches, not yet begun.
    pub fn new(word: Word) -> (r: StringIter)
        ensures
            r.inv(),
            r.word@ == word@,
            !r.started,
            !r.done,
    {
        StringIter { word, digits: Vec::new(), started: false, done: false }
    }

    /// Starts the walk again from the first string.
    pub fn restart(&mut self)
        ensures
            final(self).inv(),
            final(self).word == old(self).word,
            !final(self).started,
            !final(self).done,
    {
        self.started = false;
        self.done = false;
    }

    fn render(&self) -> (r: String)
        requires
            self.inv(),
            self.started,
            !self.done,
        ensures
            r@ == spelled_by(self.digits@),
    {
        let mut cs: Vec<char> = Vec::new();
        let mut k: usize = 0;
        while k < self.digits.len()
            invariant
                self.inv(),
                self.started,
                !self.done,
                k <= self.digits@.len(),
                cs@ == spelled_by(self.digits@.subrange(0, k as int)),
            decreases self.digits@.len() - k,
        {
            cs.push(from_index(self.digits[k]));
            assert(cs@ =~= spelled_by(self.digits@.subrange(0, k + 1)));
            k += 1;
        }
        assert(self.digits@.subrange(0, self.digits@.len() as int) =~= self.digits@);
        string_of(&cs)
    }

    /// The next string in dictionary order, or `None` once every string has
    /// been handed out (at once where a position is dead).
    pub fn next(&mut self) -> (r: Option<String>)
        requires
            old(self).inv(),
        ensures
            final(self).inv(),
            final(self).word == old(self).word,
            old(self).done ==> r is None && final(self).done,
            !old(self).done ==> (r matches Some(s) ==> least_above(pattern_set(old(self).word@), old(self).last(), s@)
                && final(self).last() == Some(s@)),
            !old(self).done && r is None ==> none_above(pattern_set(old(self).word@), old(self).last())
                && final(self).done,
    {
        if self.done {
            return None;
        }
        let ghost w = self.word@;
        let ghost set = pattern_set(w);
        let n = self.word.letters.len();
        if !self.started {
            if self.word.has_empty_letter() {
                proof {
                    let k = choose|k: int| 0 <= k < w.len() && w[k] == Set::<int>::empty();
                    assert forall|t: Seq<char>| #![trigger set.contains(t)] set.contains(t) implies false by {
                        assert(w[k].contains(index_of(t[k])));
                    }
                }
                self.done = true;
                return None;
            }
            let mut digits: Vec<usize> = Vec::new();
            let mut k: usize = 0;
            while k < n
                invariant
                    n == w.len(),
                    w == self.word@,
                    all_nonempty(w),
                    k <= n,
                    digits@.len() == k,
                    forall|m: int| 0 <= m < k ==> #[trigger] digits@[m] < 26 && w[m].contains(digits@[m] as int),
                    forall|m: int, v: int| 0 <= m < k && #[trigger] w[m].contains(v) ==> digits@[m] <= v,
                decreases n - k,
            {
                let letter = self.word.letters[k];
                assert(w[k as int] == letter@);
                match letter.peek_idx() {
                    Some(v) => {
                        proof {
                            lemma_view_within(letter);
                        }
                        digits.push(v);
                    },
                    None => {
                        assert(w[k as int] != Set::<int>::empty());
                        digits.push(0);
                    },
                }
                k += 1;
            }
            self.digits = digits;
            self.started = true;
            let r = self.render();
            proof {
                let s = spelled_by(self.digits@);
                lemma_spelled_in(w, self.digits@);
                assert forall|t: Seq<char>| #![trigger set.contains(t)] set.contains(t) implies !lex_lt(t, s) by {
                    assert forall|j: int| 0 <= j < s.len() implies s[j] <= t[j] by {
                        assert(w[j].contains(index_of(t[j])));
                    }
                    lemma_lex_pointwise(s, t);
                }
            }
            return Some(r);
        }
        let ghost dx = self.digits@;
        let ghost x = spelled_by(dx);
        let mut found: Option<(usize, usize)> = None;
        let mut k: usize = n;
        while k > 0 && found.is_none()
            invariant
                n == w.len(),
                w == self.word@,
                dx == self.digits@,
                dx.len() == n,
                k <= n,
                forall|m: int| 0 <= m < n ==> #[trigger] dx[m] < 26 && w[m].contains(dx[m] as int),
                found is None ==> forall|m: int, v: int|
                    k <= m < n && #[trigger] w[m].contains(v) ==> v <= dx[m],
                found matches Some((fk, fj)) ==> fk == k && fk < n && dx[fk as int] < fj < 26 && w[fk as int].contains(fj as int)
                    && (forall|v: int| dx[fk as int] < v < fj ==> !#[trigger] w[fk as int].contains(v))
                    && forall|m: int, v: int| fk < m < n && #[trigger] w[m].contains(v) ==> v <= dx[m],
            decreases k,
        {
            let kk = k - 1;
            let letter = self.word.letters[kk];
            assert(w[kk as int] == letter@);
            proof {
                lemma_view_within(letter);
            }
            match letter.next_after(self.digits[kk]) {
                Some(j) => {
                    found = Some((kk, j));
                },
                None => {},
            }
            k = kk;
        }
        match found {
            None => {
                proof {
                    assert forall|t: Seq<char>| #![trigger set.contains(t)] set.contains(t) implies !lex_lt(x, t) by {
                        if lex_lt(x, t) {
                            lemma_lex_witness(x, t);
                            let m = choose|m: int| 0 <= m < x.len() && x[m] < t[m] && forall|j: int| 0 <= j < m ==> x[j] == t[j];
                            assert(w[m].contains(index_of(t[m])));
                        }
                    }
                }
                self.done = true;
                None
            },
            Some((fk, fj)) => {
                let mut digits: Vec<usize> = Vec::new();
                let mut m: usize = 0;
                while m < n
                    invariant
                        n == w.len(),
                        w == self.word@,
                        dx == self.digits@,
                        dx.len() == n,
                        fk < n,
                        forall|q: int| 0 <= q < n ==> #[trigger] dx[q] < 26 && w[q].contains(dx[q] as int),
                        dx[fk as int] < fj < 26,
                        w[fk as int].contains(fj as int),
                        m <= n,
                        digits@.len() == m,
                        forall|q: int| 0 <= q < m && q < fk ==> #[trigger] digits@[q] == dx[q],
                        fk < m ==> digits@[fk as int] == fj,
                        forall|q: int| 0 <= q < m ==> #[trigger] digits@[q] < 26 && w[q].contains(digits@[q] as int),
                        forall|q: int, v: int| 0 <= q < m && fk < q && #[trigger] w[q].contains(v) ==> digits@[q] <= v,
                    decreases n - m,
                {
                    if m < fk {
                        digits.push(self.digits[m]);
                    } else if m == fk {
                        digits.push(fj);
                    } else {
                        let letter = self.word.letters[m];
                        assert(w[m as int] == letter@);
                        assert(letter@.contains(dx[m as int] as int));
                        match letter.peek_idx() {
                            Some(v) => {
                                proof {
                                    lemma_view_within(letter);
                                }
                                digits.push(v);
                            },
                            None => {
                                digits.push(0);
                            },
                        }
                    }
                    m += 1;
                }
                self.digits = digits;
                let r = self.render();
                proof {
                    let ds = self.digits@;
                    let s = spelled_by(ds);
                    lemma_spelled_in(w, ds);
                    lemma_lex_at(x, s, fk as int);
                    assert forall|t: Seq<char>| #![trigger set.contains(t)] set.contains(t) && lex_lt(x, t) implies !lex_lt(t, s) by {
                        lemma_lex_witness(x, t);
                        let mm = choose|mm: int| 0 <= mm < x.len() && x[mm] < t[mm] && forall|j: int| 0 <= j < mm ==> x[j] == t[j];
                        assert(w[mm].contains(index_of(t[mm])));
                        if lex_lt(t, s) {
                            lemma_lex_witness(t, s);
                            let m2 = choose|m2: int| 0 <= m2 < t.len() && t[m2] < s[m2] && forall|j: int| 0 <= j < m2 ==> t[j] == s[j];
                            assert(w[m2].contains(index_of(t[m2])));
                            if mm < fk {
                                if m2 < mm {
                                    assert(t[m2] == x[m2]);
                                } else if m2 == mm {
                                } else {
                                    assert(t[mm] == s[mm]);
                                }
                            } else if mm == fk {
                                if m2 < fk {
                                    assert(t[m2] == x[m2]);
                                } else if m2 == fk {
                                } else {
                                    assert(t[fk as int] == s[fk as int]);
                                }
                            }
                        }
                    }
                }
                Some(r)
            },
        }
    }
}

/// The string that digits within their positions spell is matched by the
/// pattern.
proof fn lemma_spelled_in(w: Seq<Set<int>>, ds: Seq<usize>)
    requires
        ds.len() == w.len(),
        forall|k: int| 0 <= k < ds.len() ==> #[trigger] ds[k] < 26 && w[k].contains(ds[k] as int),
    ensures
        pattern_set(w).contains(spelled_by(ds)),
        spelled_by(ds).len() == ds.len(),
        forall|k: int| 0 <= k < ds.len() ==> index_of(#[trigger] spelled_by(ds)[k]) == ds[k] && is_symbol(spelled_by(ds)[k]),
{
    let s = spelled_by(ds);
    assert forall|k: int| 0 <= k < s.len() implies is_symbol(#[trigger] s[k]) && w[k].contains(index_of(s[k])) by {
        assert(s[k] == symbol_at(ds[k] as int));
    }
}

impl Word {
    /// The strings that the pattern matches, each once, in dictionary order.
    pub fn strings(self) -> (r: Vec<String>)
        ensures
            enumerates(pattern_set(self@), strings_view(r@)),
    {
        Trie::word(self).strings()
    }
}

} // verus!
