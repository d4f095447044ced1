//! A `Letter` is a set of symbols of the 26-letter alphabet `a`..`z`: the
//! set of symbols accepted at one position of a pattern.
use vstd::prelude::*;

verus! {

/// Whether `c` is one of the symbols `a`..`z`.
pub open spec fn is_symbol(c: char) -> bool {
    'a' <= c <= 'z'
}

/// The index (0..26) of the symbol `c`.
pub open spec fn index_of(c: char) -> int {
    c as int - 'a' as int
}

/// The symbol with index `i`.
pub open spec fn symbol_at(i: int) -> char {
    (i + 'a' as int) as char
}

/// The indices `lo..=hi`, clipped to the alphabet.
pub open spec fn range_set(lo: int, hi: int) -> Set<int> {
    Set::new(|i: int| 0 <= i < 26 && lo <= i <= hi)
}

/// The index of a symbol.
pub fn into_index(c: char) -> (r: usize)
    requires
        is_symbol(c),
    ensures
        r == index_of(c),
        r < 26,
{
    (c as u32 - 'a' as u32) as usize
}

/// The symbol of an index.
pub fn from_index(i: usize) -> (r: char)
    requires
        i < 26,
    ensures
        r == symbol_at(i as int),
        is_symbol(r),
        index_of(r) == i,
{
    let b: u8 = (i as u8) + 97u8;
    b as char
}

/// A set of symbols, one flag per symbol.
#[derive(Clone, Copy, Debug, PartialEq, Eq)]
pub struct Letter {
    pub mask: [bool; 26],
}

impl View for Letter {
    type V = Set<int>;

    /// The indices of the symbols in the set.
    open spec fn view(&self) -> Set<int> {
        Set::new(|i: int| 0 <= i < 26 && self.mask@[i])
    }
}

/// Every index of `s` is an index of the alphabet.
pub open spec fn within_alphabet(s: Set<int>) -> bool {
    forall|i: int| s.contains(i) ==> 0 <= i < 26
}

/// How many of the indices in `0..n` the set `s` holds.
pub open spec fn count_below(s: Set<int>, n: int) -> nat
    decreases n,
{
    if n <= 0 {
        0
    } else {
        count_below(s, n - 1) + if s.contains(n - 1) {
            1nat
        } else {
            0nat
        }
    }
}

/// A letter holds only indices of the alphabet, finitely many.
pub proof fn lemma_view_within(l: Letter)
    ensures
        within_alphabet(l@),
        l@.finite(),
        l@.subset_of(range_set(0, 25)),
{
    assert(l@.subset_of(Set::new(|i: int| 0 <= i < 26)));
    lemma_alphabet_finite();
    vstd::set_lib::lemma_int_range(0, 26);
    assert(Set::new(|i: int| 0 <= i < 26) =~= vstd::set_lib::set_int_range(0, 26));
}

/// The alphabet's indices form a finite set.
proof fn lemma_alphabet_finite()
    ensures
        Set::new(|i: int| 0 <= i < 26).finite(),
{
    vstd::set_lib::lemma_int_range(0, 26);
    assert(Set::new(|i: int| 0 <= i < 26) =~= vstd::set_lib::set_int_range(0, 26));
}

impl Letter {
    /// The letter that holds no symbol.
    pub fn none() -> (r: Letter)
        ensures
            r@ == Set::<int>::empty(),
    {
        let r = Letter { mask: [false; 26] };
        assert(r@ =~= Set::<int>::empty());
        r
    }

    /// The letter that holds every symbol (the pattern `.`).
    pub fn all() -> (r: Letter)
        ensures
            r@ == range_set(0, 25),
    {
        let r = Letter { mask: [true; 26] };
        assert(r@ =~= range_set(0, 25));
        r
    }

    /// The letter that holds the symbols with indices `lo..=hi`.
    pub fn range(lo: usize, hi: usize) -> (r: Letter)
        requires
            lo < 26,
            hi < 26,
        ensures
            r@ == range_set(lo as int, hi as int),
    {
        let mut mask = [false; 26];
        let mut i: usize = lo;
        while i <= hi
            invariant
                lo <= i <= 26,
                i <= hi + 1 || i == lo,
                hi < 26,
                forall|j: int| 0 <= j < 26 ==> mask@[j] == (lo <= j < i),
            decreases 26 - i,
        {
            mask[i] = true;
            i += 1;
        }
        let r = Letter { mask };
        assert(r@ =~= range_set(lo as int, hi as int));
        r
    }

    /// Whether the index `i` is in the set; `false` outside the alphabet.
    pub fn has_idx(&self, i: usize) -> (r: bool)
        ensures
            r == self@.contains(i as int),
    {
        i < 26 && self.mask[i]
    }

    /// Whether the index `i`, which must be in the alphabet, is in the set.
    pub fn has_idx_unchecked(&self, i: usize) -> (r: bool)
        requires
            i < 26,
        ensures
            r == self@.contains(i as int),
    {
        self.mask[i]
    }

    /// The smallest index in the set, if any.
    pub fn peek_idx(&self) -> (r: Option<usize>)
        ensures
            r is None <==> self@ == Set::<int>::empty(),
            r matches Some(i) ==> self@.contains(i as int) && forall|j: int|
                0 <= j < i ==> !self@.contains(j),
    {
        let mut i: usize = 0;
        while i < 26
            invariant
                i <= 26,
                forall|j: int| 0 <= j < i ==> !self.mask@[j],
            decreases 26 - i,
        {
            if self.mask[i] {
                assert(self@.contains(i as int));
                return Some(i);
            }
            i += 1;
        }
        assert(self@ =~= Set::<int>::empty());
        None
    }

    /// The smallest index in the set above `i`, if any.
    pub fn next_after(&self, i: usize) -> (r: Option<usize>)
        ensures
            r matches Some(j) ==> i < j < 26 && self@.contains(j as int) && forall|m: int|
                i < m < j ==> !self@.contains(m),
            r is None ==> forall|m: int| i < m < 26 ==> !self@.contains(m),
    {
        if i >= 25 {
            return None;
        }
        let mut j: usize = i + 1;
        while j < 26
            invariant
                i < j <= 26,
                forall|m: int| i < m < j ==> !self.mask@[m],
            decreases 26 - j,
        {
            if self.mask[j] {
                return Some(j);
            }
            j += 1;
        }
        None
    }

    /// The indices in the set, in ascending order.
    pub fn indices(&self) -> (r: Vec<usize>)
        ensures
            r@.len() == self@.len(),
            forall|k: int| 0 <= k < r@.len() ==> self@.contains(r@[k] as int),
            forall|i: int| #[trigger] self@.contains(i) ==> exists|k: int|
                0 <= k < r@.len() && r@[k] == i,
            forall|k1: int, k2: int| 0 <= k1 < k2 < r@.len() ==> r@[k1] < r@[k2],
    {
        let mut r: Vec<usize> = Vec::new();
        let mut i: usize = 0;
        while i < 26
            invariant
                i <= 26,
                r@.len() == count_below(self@, i as int),
                forall|k: int| 0 <= k < r@.len() ==> self@.contains(r@[k] as int) && r@[k] < i,
                forall|j: int| 0 <= j < i && #[trigger] self@.contains(j) ==> exists|k: int|
                    0 <= k < r@.len() && r@[k] == j,
                forall|k1: int, k2: int| 0 <= k1 < k2 < r@.len() ==> r@[k1] < r@[k2],
            decreases 26 - i,
        {
            if self.mask[i] {
                let ghost old_r = r@;
                r.push(i);
                assert forall|j: int| 0 <= j <= i && #[trigger] self@.contains(j) implies exists|
                    k: int,
                | 0 <= k < r@.len() && r@[k] == j by {
                    if j < i {
                        let k = choose|k: int| 0 <= k < old_r.len() && old_r[k] == j;
                        assert(r@[k] == j);
                    } else {
                        assert(r@[r@.len() - 1] == j);
                    }
                }
            }
            i += 1;
        }
        proof {
            lemma_count_below_len(self@, 26);
            lemma_view_within(*self);
            assert(self@.intersect(range_set(0, 25)) =~= self@);
        }
        r
    }

    /// The symbols in the set, in ascending order.
    pub fn chars(&self) -> (r: Vec<char>)
        ensures
            r@.len() == self@.len(),
            forall|k: int| 0 <= k < r@.len() ==> is_symbol(r@[k]) && self@.contains(
                index_of(r@[k]),
            ),
            forall|i: int| #[trigger] self@.contains(i) ==> exists|k: int|
                0 <= k < r@.len() && index_of(r@[k]) == i,
            forall|k1: int, k2: int| 0 <= k1 < k2 < r@.len() ==> r@[k1] < r@[k2],
    {
        let idx = self.indices();
        let mut r: Vec<char> = Vec::new();
        let mut k: usize = 0;
        while k < idx.len()
            invariant
                k <= idx@.len(),
                r@.len() == k,
                forall|m: int| 0 <= m < idx@.len() ==> idx@[m] < 26,
                forall|m: int| 0 <= m < k ==> r@[m] == symbol_at(idx@[m] as int) && is_symbol(
                    r@[m],
                ) && index_of(r@[m]) == idx@[m],
            decreases idx@.len() - k,
        {
            proof {
                lemma_view_within(*self);
            }
            let c = from_index(idx[k]);
            r.push(c);
            k += 1;
        }
        assert forall|i: int| #[trigger] self@.contains(i) implies exists|k: int|
            0 <= k < r@.len() && index_of(r@[k]) == i by {
            let m = choose|m: int| 0 <= m < idx@.len() && idx@[m] == i;
            assert(index_of(r@[m]) == i);
        }
        r
    }
}


/// A symbol outside `a`..`z` where a letter was to be built.
#[derive(Clone, Copy, Debug, PartialEq, Eq)]
pub struct SymbolError {
    pub symbol: char,
}

impl Letter {
    /// The letter that holds the symbol `c` alone.
    pub fn singleton(c: char) -> (r: Letter)
        requires
            is_symbol(c),
        ensures
            r@ == set![index_of(c)],
    {
        let mut mask = [false; 26];
        mask[into_index(c)] = true;
        let r = Letter { mask };
        assert(r@ =~= set![index_of(c)]);
        r
    }

    /// The letter that holds the symbol `c` alone, or an error where `c` is
    /// not in `a`..`z`.
    pub fn try_from_alpha(c: char) -> (r: Result<Letter, SymbolError>)
        ensures
            is_symbol(c) <==> r is Ok,
            r matches Ok(l) ==> l@ == set![index_of(c)],
            r matches Err(e) ==> e.symbol == c,
    {
        if 'a' <= c && c <= 'z' {
            Ok(Letter::singleton(c))
        } else {
            Err(SymbolError { symbol: c })
        }
    }

    /// The letter that holds the symbols of `cs`, or an error naming the
    /// first of them that is not in `a`..`z`.
    pub fn try_from_iter(cs: &Vec<char>) -> (r: Result<Letter, SymbolError>)
        ensures
            (forall|k: int| 0 <= k < cs@.len() ==> is_symbol(#[trigger] cs@[k])) <==> r is Ok,
            r matches Ok(l) ==> l@ == Set::new(|i: int| exists|k: int|
                0 <= k < cs@.len() && index_of(#[trigger] cs@[k]) == i),
            r matches Err(e) ==> exists|k: int|
                0 <= k < cs@.len() && cs@[k] == e.symbol && !is_symbol(e.symbol) && forall|m: int|
                    0 <= m < k ==> is_symbol(#[trigger] cs@[m]),
    {
        let mut mask = [false; 26];
        let mut k: usize = 0;
        while k < cs.len()
            invariant
                k <= cs@.len(),
                forall|m: int| 0 <= m < k ==> is_symbol(#[trigger] cs@[m]),
                forall|i: int|
                    0 <= i < 26 ==> (mask@[i] <==> exists|m: int|
                        0 <= m < k && index_of(#[trigger] cs@[m]) == i),
            decreases cs@.len() - k,
        {
            let c = cs[k];
            if !('a' <= c && c <= 'z') {
                return Err(SymbolError { symbol: c });
            }
            let ghost old_mask = mask@;
            mask[into_index(c)] = true;
            assert forall|i: int| 0 <= i < 26 implies (mask@[i] <==> exists|m: int|
                0 <= m < k + 1 && index_of(#[trigger] cs@[m]) == i) by {
                if mask@[i] && i != index_of(c) {
                    assert(old_mask[i]);
                }
                if exists|m: int| 0 <= m < k + 1 && index_of(#[trigger] cs@[m]) == i {
                    let m = choose|m: int| 0 <= m < k + 1 && index_of(#[trigger] cs@[m]) == i;
                    if m < k {
                        assert(old_mask[i]);
                    }
                }
            }
            k += 1;
        }
        let r = Letter { mask };
        assert(r@ =~= Set::new(|i: int| exists|k: int|
                0 <= k < cs@.len() && index_of(#[trigger] cs@[k]) == i));
        Ok(r)
    }

    /// The number of symbols in the set.
    pub fn len(&self) -> (r: usize)
        ensures
            r == self@.len(),
    {
        let mut n: usize = 0;
        let mut i: usize = 0;
        while i < 26
            invariant
                i <= 26,
                n == count_below(self@, i as int),
                n <= i,
            decreases 26 - i,
        {
            if self.mask[i] {
                n += 1;
            }
            i += 1;
        }
        proof {
            lemma_count_below_len(self@, 26);
            lemma_view_within(*self);
            assert(self@.intersect(range_set(0, 25)) =~= self@);
        }
        n
    }

    /// Whether the set holds no symbol: a dead pattern position.
    pub fn is_empty(&self) -> (r: bool)
        ensures
            r == (self@ == Set::<int>::empty()),
    {
        self.peek_idx().is_none()
    }

    /// Whether the symbol `c` is in the set; `false` for a `c` outside the
    /// alphabet.
    pub fn contains(&self, c: char) -> (r: bool)
        ensures
            r == (is_symbol(c) && self@.contains(index_of(c))),
    {
        if 'a' <= c && c <= 'z' {
            self.mask[into_index(c)]
        } else {
            false
        }
    }

    /// Whether every symbol of this set is in `other`.
    pub fn subset(&self, other: &Letter) -> (r: bool)
        ensures
            r == self@.subset_of(other@),
    {
        let mut i: usize = 0;
        while i < 26
            invariant
                i <= 26,
                forall|j: int| 0 <= j < i ==> (self.mask@[j] ==> other.mask@[j]),
            decreases 26 - i,
        {
            if self.mask[i] && !other.mask[i] {
                assert(self@.contains(i as int) && !other@.contains(i as int));
                return false;
            }
            i += 1;
        }
        true
    }

    /// Whether every symbol of `other` is in this set.
    pub fn superset(&self, other: &Letter) -> (r: bool)
        ensures
            r == other@.subset_of(self@),
    {
        other.subset(self)
    }

    /// Adds the symbol `c`; returns whether it was in the set before. A `c`
    /// outside `a`..`z` is ignored.
    pub fn insert(&mut self, c: char) -> (r: bool)
        ensures
            r == (is_symbol(c) && old(self)@.contains(index_of(c))),
            is_symbol(c) ==> final(self)@ == old(self)@.insert(index_of(c)),
            !is_symbol(c) ==> final(self)@ == old(self)@,
    {
        if !('a' <= c && c <= 'z') {
            return false;
        }
        let i = into_index(c);
        let prev = self.mask[i];
        self.mask[i] = true;
        assert(self@ =~= old(self)@.insert(index_of(c)));
        prev
    }

    /// Removes the symbol `c`; returns whether it was in the set before. A
    /// `c` outside `a`..`z` is ignored.
    pub fn delete(&mut self, c: char) -> (r: bool)
        ensures
            r == (is_symbol(c) && old(self)@.contains(index_of(c))),
            is_symbol(c) ==> final(self)@ == old(self)@.remove(index_of(c)),
            !is_symbol(c) ==> final(self)@ == old(self)@,
    {
        if !('a' <= c && c <= 'z') {
            return false;
        }
        let i = into_index(c);
        let prev = self.mask[i];
        self.mask[i] = false;
        assert(self@ =~= old(self)@.remove(index_of(c)));
        prev
    }

    /// Removes every symbol.
    pub fn clear(&mut self)
        ensures
            final(self)@ == Set::<int>::empty(),
    {
        self.mask = [false; 26];
        assert(self@ =~= Set::<int>::empty());
    }

    /// Keeps only the symbols that are also in `other`.
    pub fn intersect(&mut self, other: &Letter)
        ensures
            final(self)@ == old(self)@.intersect(other@),
    {
        let mut mask = self.mask;
        let mut i: usize = 0;
        while i < 26
            invariant
                i <= 26,
                forall|j: int|
                    0 <= j < 26 ==> mask@[j] == if j < i {
                        old(self).mask@[j] && other.mask@[j]
                    } else {
                        old(self).mask@[j]
                    },
            decreases 26 - i,
        {
            if !other.mask[i] {
                mask[i] = false;
            }
            i += 1;
        }
        self.mask = mask;
        assert(self@ =~= old(self)@.intersect(other@));
    }

    /// Removes the symbols that are in `other`.
    pub fn remove(&mut self, other: &Letter)
        ensures
            final(self)@ == old(self)@.difference(other@),
    {
        let mut mask = self.mask;
        let mut i: usize = 0;
        while i < 26
            invariant
                i <= 26,
                forall|j: int|
                    0 <= j < 26 ==> mask@[j] == if j < i {
                        old(self).mask@[j] && !other.mask@[j]
                    } else {
                        old(self).mask@[j]
                    },
            decreases 26 - i,
        {
            if other.mask[i] {
                mask[i] = false;
            }
            i += 1;
        }
        self.mask = mask;
        assert(self@ =~= old(self)@.difference(other@));
    }

    /// Adds every symbol of `other`.
    pub fn unite(&mut self, other: &Letter)
        ensures
            final(self)@ == old(self)@.union(other@),
    {
        let mut mask = self.mask;
        let mut i: usize = 0;
        while i < 26
            invariant
                i <= 26,
                forall|j: int|
                    0 <= j < 26 ==> mask@[j] == if j < i {
                        old(self).mask@[j] || other.mask@[j]
                    } else {
                        old(self).mask@[j]
                    },
            decreases 26 - i,
        {
            if other.mask[i] {
                mask[i] = true;
            }
            i += 1;
        }
        self.mask = mask;
        assert(self@ =~= old(self)@.union(other@));
    }

    /// Adds the symbols of `cs`.
    pub fn extend(&mut self, cs: &Vec<char>)
        requires
            forall|k: int| 0 <= k < cs@.len() ==> is_symbol(#[trigger] cs@[k]),
        ensures
            final(self)@ == old(self)@.union(
                Set::new(|i: int| exists|k: int| 0 <= k < cs@.len() && index_of(#[trigger] cs@[k]) == i),
            ),
    {
        let mut k: usize = 0;
        while k < cs.len()
            invariant
                k <= cs@.len(),
                forall|m: int| 0 <= m < cs@.len() ==> is_symbol(#[trigger] cs@[m]),
                self@ == old(self)@.union(
                    Set::new(|i: int| exists|m: int| 0 <= m < k && index_of(#[trigger] cs@[m]) == i),
                ),
            decreases cs@.len() - k,
        {
            let ghost before = self@;
            self.insert(cs[k]);
            assert(self@ =~= old(self)@.union(
                Set::new(|i: int| exists|m: int| 0 <= m < k + 1 && index_of(#[trigger] cs@[m]) == i),
            )) by {
                assert forall|i: int| self@.contains(i) implies old(self)@.union(
                    Set::new(|i: int| exists|m: int| 0 <= m < k + 1 && index_of(#[trigger] cs@[m]) == i),
                ).contains(i) by {
                    if i == index_of(cs@[k as int]) {
                        assert(0 <= k < k + 1 && index_of(cs@[k as int]) == i);
                    } else {
                        assert(before.contains(i));
                        if !old(self)@.contains(i) {
                            let m = choose|m: int| 0 <= m < k && index_of(#[trigger] cs@[m]) == i;
                            assert(0 <= m < k + 1 && index_of(cs@[m]) == i);
                        }
                    }
                }
                assert forall|i: int| old(self)@.union(
                    Set::new(|i: int| exists|m: int| 0 <= m < k + 1 && index_of(#[trigger] cs@[m]) == i),
                ).contains(i) implies self@.contains(i) by {
                    if !old(self)@.contains(i) {
                        let m = choose|m: int| 0 <= m < k + 1 && index_of(#[trigger] cs@[m]) == i;
                        if m < k {
                            assert(0 <= m < k && index_of(cs@[m]) == i);
                            assert(before.contains(i));
                        }
                    }
                }
            }
            k += 1;
        }
    }

    /// Keeps only the symbols for which `f` holds.
    pub fn retain<F: Fn(char) -> bool>(&mut self, f: F)
        requires
            forall|c: char| is_symbol(c) ==> f.requires((c,)),
        ensures
            forall|i: int| #[trigger] final(self)@.contains(i) ==> old(self)@.contains(i) && f.ensures((symbol_at(i),), true),
            forall|i: int| #[trigger] old(self)@.contains(i) && !final(self)@.contains(i) ==> f.ensures((symbol_at(i),), false),
    {
        let mut mask = self.mask;
        let mut i: usize = 0;
        while i < 26
            invariant
                i <= 26,
                forall|c: char| is_symbol(c) ==> f.requires((c,)),
                forall|j: int| i <= j < 26 ==> mask@[j] == old(self).mask@[j],
                forall|j: int| 0 <= j < i && mask@[j] ==> old(self).mask@[j] && f.ensures((symbol_at(j),), true),
                forall|j: int| 0 <= j < i && old(self).mask@[j] && !mask@[j] ==> f.ensures((symbol_at(j),), false),
            decreases 26 - i,
        {
            let c = from_index(i);
            let keep = f(c);
            if !keep {
                mask[i] = false;
            }
            i += 1;
        }
        self.mask = mask;
    }

    /// Takes the smallest symbol out of the set and returns it.
    pub fn next(&mut self) -> (r: Option<char>)
        ensures
            r is None <==> old(self)@ == Set::<int>::empty(),
            r is None ==> final(self)@ == old(self)@,
            r matches Some(c) ==> {
                &&& is_symbol(c)
                &&& old(self)@.contains(index_of(c))
                &&& forall|j: int| 0 <= j < index_of(c) ==> !old(self)@.contains(j)
                &&& final(self)@ == old(self)@.remove(index_of(c))
            },
    {
        match self.peek_idx() {
            None => None,
            Some(i) => {
                self.mask[i] = false;
                assert(self@ =~= old(self)@.remove(i as int));
                Some(from_index(i))
            },
        }
    }
}

/// Counting the indices below `n` gives the size of that part of the set.
proof fn lemma_count_below_len(s: Set<int>, n: int)
    requires
        0 <= n <= 26,
    ensures
        count_below(s, n) == s.intersect(range_set(0, n - 1)).len(),
        s.intersect(range_set(0, n - 1)).finite(),
    decreases n,
{
    if n == 0 {
        assert(s.intersect(range_set(0, -1)) =~= Set::<int>::empty());
    } else {
        lemma_count_below_len(s, n - 1);
        let prev = s.intersect(range_set(0, n - 2));
        if s.contains(n - 1) {
            assert(s.intersect(range_set(0, n - 1)) =~= prev.insert(n - 1));
        } else {
            assert(s.intersect(range_set(0, n - 1)) =~= prev);
        }
    }
}

} // verus!
