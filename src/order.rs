//! Dictionary order on strings, and listings of a set in that order.
use vstd::prelude::*;

verus! {

/// `a` comes before `b` in dictionary order.
pub open spec fn lex_lt(a: Seq<char>, b: Seq<char>) -> bool
    decreases a.len(),
{
    if a.len() == 0 {
        b.len() > 0
    } else if b.len() == 0 {
        false
    } else if a[0] != b[0] {
        a[0] < b[0]
    } else {
        lex_lt(a.drop_first(), b.drop_first())
    }
}

/// `l` lists the strings of `set`, each once, in dictionary order.
pub open spec fn enumerates(set: Set<Seq<char>>, l: Seq<Seq<char>>) -> bool {
    &&& forall|k: int| 0 <= k < l.len() ==> set.contains(#[trigger] l[k])
    &&& forall|s: Seq<char>| #[trigger] set.contains(s) ==> exists|k: int| 0 <= k < l.len() && l[k] == s
    &&& forall|k1: int, k2: int| 0 <= k1 < k2 < l.len() ==> lex_lt(#[trigger] l[k1], #[trigger] l[k2])
}

/// The character sequences of a list of vectors.
pub open spec fn vecs_view(v: Seq<Vec<char>>) -> Seq<Seq<char>> {
    v.map_values(|x: Vec<char>| x@)
}

/// The texts of a list of strings.
pub open spec fn strings_view(v: Seq<String>) -> Seq<Seq<char>> {
    v.map_values(|x: String| x@)
}

/// Each string of `l` with the symbol `c` in front.
pub open spec fn prefix_all(c: char, l: Seq<Seq<char>>) -> Seq<Seq<char>> {
    l.map_values(|x: Seq<char>| seq![c] + x)
}

/// Putting the same symbol in front of two strings keeps their order.
pub proof fn lemma_lex_cons(c: char, a: Seq<char>, b: Seq<char>)
    ensures
        lex_lt(seq![c] + a, seq![c] + b) == lex_lt(a, b),
{
    assert((seq![c] + a).drop_first() =~= a);
    assert((seq![c] + b).drop_first() =~= b);
}

/// No string comes before itself.
pub proof fn lemma_lex_irreflexive(a: Seq<char>)
    ensures
        !lex_lt(a, a),
    decreases a.len(),
{
    if a.len() > 0 {
        lemma_lex_irreflexive(a.drop_first());
    }
}

/// For strings of one length, `a` comes before `b` where they agree up to
/// position `m` and `a` has the smaller symbol there.
pub proof fn lemma_lex_at(a: Seq<char>, b: Seq<char>, m: int)
    requires
        a.len() == b.len(),
        0 <= m < a.len(),
        forall|j: int| 0 <= j < m ==> a[j] == b[j],
        a[m] < b[m],
    ensures
        lex_lt(a, b),
    decreases m,
{
    if m > 0 {
        assert(a[0] == b[0]);
        lemma_lex_at(a.drop_first(), b.drop_first(), m - 1);
    }
}

/// Where `a` comes before `b` and both have one length, they agree up to a
/// position where `a` has the smaller symbol.
pub proof fn lemma_lex_witness(a: Seq<char>, b: Seq<char>)
    requires
        a.len() == b.len(),
        lex_lt(a, b),
    ensures
        exists|m: int| 0 <= m < a.len() && a[m] < b[m] && forall|j: int| 0 <= j < m ==> a[j] == b[j],
    decreases a.len(),
{
    if a[0] == b[0] {
        lemma_lex_witness(a.drop_first(), b.drop_first());
        let m = choose|m: int| 0 <= m < a.len() - 1 && a.drop_first()[m] < b.drop_first()[m] && forall|j: int|
            0 <= j < m ==> a.drop_first()[j] == b.drop_first()[j];
        assert(a[m + 1] < b[m + 1]);
        assert forall|j: int| 0 <= j < m + 1 implies a[j] == b[j] by {
            if j > 0 {
                assert(a.drop_first()[j - 1] == b.drop_first()[j - 1]);
            }
        }
    } else {
        assert(a[0] < b[0]);
    }
}

/// A string whose every symbol is at most the one of another string of the
/// same length does not come after it.
pub proof fn lemma_lex_pointwise(a: Seq<char>, b: Seq<char>)
    requires
        a.len() == b.len(),
        forall|j: int| 0 <= j < a.len() ==> a[j] <= b[j],
    ensures
        !lex_lt(b, a),
    decreases a.len(),
{
    if a.len() > 0 && a[0] == b[0] {
        lemma_lex_pointwise(a.drop_first(), b.drop_first());
    }
}

/// An enumeration lists each string of the set exactly once.
pub proof fn lemma_enumerated_once(set: Set<Seq<char>>, l: Seq<Seq<char>>, s: Seq<char>)
    requires
        enumerates(set, l),
        set.contains(s),
    ensures
        exists|k: int| 0 <= k < l.len() && l[k] == s && forall|m: int| 0 <= m < l.len() && l[m] == s ==> m == k,
{
    let k = choose|k: int| 0 <= k < l.len() && l[k] == s;
    assert forall|m: int| 0 <= m < l.len() && l[m] == s implies m == k by {
        lemma_lex_irreflexive(s);
        if m < k {
            assert(lex_lt(l[m], l[k]));
        } else if m > k {
            assert(lex_lt(l[k], l[m]));
        }
    }
}

} // verus!
