//! Laws of the word sets, stated over the views that the operations'
//! contracts speak of.
use vstd::prelude::*;
use crate::letter::{is_symbol, index_of};
use crate::word::{word_matches, all_nonempty, all_within, lemma_some_match};
use crate::pattern::{parse_spec, word_spec, letter_spec, ParseErrorKind};
use crate::trie::pattern_set;
use crate::order::{enumerates, lemma_enumerated_once};

verus! {

/// The set of a pattern holds some string exactly when none of the
/// pattern's positions is dead.
pub proof fn law_word_nonempty(w: Seq<Set<int>>)
    requires
        all_within(w),
    ensures
        (pattern_set(w) != Set::<Seq<char>>::empty()) == all_nonempty(w),
{
    if all_nonempty(w) {
        lemma_some_match(w);
        let s = choose|s: Seq<char>| word_matches(w, s);
        assert(pattern_set(w).contains(s));
    } else {
        let k = choose|k: int| 0 <= k < w.len() && w[k] == Set::<int>::empty();
        assert forall|s: Seq<char>| !pattern_set(w).contains(s) by {
            if word_matches(w, s) {
                assert(w[k].contains(index_of(s[k])));
            }
        }
        assert(pattern_set(w) =~= Set::<Seq<char>>::empty());
    }
}

/// Intersection is commutative and idempotent, the empty set is the
/// identity of union, and a set less itself is empty.
pub proof fn law_set_algebra(x: Set<Seq<char>>, y: Set<Seq<char>>)
    ensures
        x.intersect(y) == y.intersect(x),
        x.intersect(x) == x,
        x.union(Set::<Seq<char>>::empty()) == x,
        Set::<Seq<char>>::empty().union(x) == x,
        x.difference(x) == Set::<Seq<char>>::empty(),
{
    assert(x.intersect(y) =~= y.intersect(x));
    assert(x.intersect(x) =~= x);
    assert(x.union(Set::<Seq<char>>::empty()) =~= x);
    assert(Set::<Seq<char>>::empty().union(x) =~= x);
    assert(x.difference(x) =~= Set::<Seq<char>>::empty());
}

/// The pattern that spells a plain string letter by letter.
pub open spec fn spelled(s: Seq<char>) -> Seq<Set<int>> {
    s.map_values(|c: char| set![index_of(c)])
}

/// A plain string over `a`..`z` parses, from any position, as the pattern
/// that spells the rest of it.
proof fn lemma_parse_plain(s: Seq<char>, i: int)
    requires
        0 <= i <= s.len(),
        forall|k: int| 0 <= k < s.len() ==> is_symbol(#[trigger] s[k]),
    ensures
        word_spec(s, i) == Ok::<Seq<Set<int>>, (int, ParseErrorKind)>(
            spelled(s.subrange(i, s.len() as int)),
        ),
    decreases s.len() - i,
{
    if i >= s.len() {
        assert(spelled(s.subrange(i, s.len() as int)) =~= Seq::<Set<int>>::empty());
    } else {
        assert(letter_spec(s, i) == Ok::<(Set<int>, int), (int, ParseErrorKind)>(
            (set![index_of(s[i])], i + 1),
        ));
        lemma_parse_plain(s, i + 1);
        assert(seq![set![index_of(s[i])]] + spelled(s.subrange(i + 1, s.len() as int))
            =~= spelled(s.subrange(i, s.len() as int)));
    }
}

/// A plain string over `a`..`z` parses as the pattern that spells it, whose
/// set holds that string alone.
pub proof fn lemma_spelled(s: Seq<char>)
    requires
        forall|k: int| 0 <= k < s.len() ==> is_symbol(#[trigger] s[k]),
    ensures
        parse_spec(s) == Ok::<Seq<Set<int>>, (int, ParseErrorKind)>(spelled(s)),
        pattern_set(spelled(s)) == set![s],
{
    lemma_parse_plain(s, 0);
    assert(s.subrange(0, s.len() as int) =~= s);
    assert forall|t: Seq<char>| pattern_set(spelled(s)).contains(t) == (t == s) by {
        if word_matches(spelled(s), t) {
            assert forall|k: int| 0 <= k < t.len() implies t[k] == s[k] by {
                assert(spelled(s)[k].contains(index_of(t[k])));
            }
            assert(t =~= s);
        }
        if t == s {
            assert forall|k: int| 0 <= k < t.len() implies is_symbol(#[trigger] t[k]) && spelled(
                s,
            )[k].contains(index_of(t[k])) by {}
        }
    }
    assert(pattern_set(spelled(s)) =~= set![s]);
}

/// A string that a pattern matches, read as a pattern of its own, names
/// only strings of the pattern's set: the set holds all of it.
pub proof fn law_member_of_pattern(p: Seq<Set<int>>, s: Seq<char>)
    requires
        word_matches(p, s),
    ensures
        parse_spec(s) is Ok,
        pattern_set(parse_spec(s)->Ok_0).subset_of(pattern_set(p)),
        pattern_set(p).contains(s),
{
    lemma_spelled(s);
}

/// A string that a pattern matches is held by the pattern's set even when
/// read as a pattern of its own, and a listing of the set in dictionary order
/// shows it exactly once.
pub proof fn law_member_listed_once(p: Seq<Set<int>>, s: Seq<char>, l: Seq<Seq<char>>)
    requires
        word_matches(p, s),
        enumerates(pattern_set(p), l),
    ensures
        parse_spec(s) is Ok,
        pattern_set(parse_spec(s)->Ok_0).subset_of(pattern_set(p)),
        exists|k: int| 0 <= k < l.len() && l[k] == s && forall|m: int| 0 <= m < l.len() && l[m] == s ==> m == k,
{
    law_member_of_pattern(p, s);
    lemma_enumerated_once(pattern_set(p), l, s);
}

/// Adding the strings of a pattern to a set that holds none of them, then
/// taking them away again, gives the set back.
pub proof fn law_add_then_sub(t: Set<Seq<char>>, w: Seq<Set<int>>)
    requires
        t.disjoint(pattern_set(w)),
    ensures
        t.union(pattern_set(w)).difference(pattern_set(w)) == t,
{
    assert(t.union(pattern_set(w)).difference(pattern_set(w)) =~= t);
}

} // verus!
