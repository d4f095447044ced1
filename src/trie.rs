//! A prefix tree in which every node owns its children outright: a set of
//! strings over `a`..`z`.
use vstd::prelude::*;
use crate::letter::{Letter, is_symbol, index_of, symbol_at, from_index, into_index, within_alphabet, range_set};
use crate::word::{Word, word_matches, all_nonempty, lemma_word_matches_cons, lemma_some_match, lemma_word_within};
use crate::pattern::{parse_spec, parse_word, string_of, ParseError, word_result_view};
use crate::order::{
    lex_lt, enumerates, vecs_view, strings_view, prefix_all, lemma_lex_cons, lemma_lex_irreflexive,
};

verus! {

broadcast use vstd::std_specs::vec::group_vec_axioms;

/// A node: whether a string ends here, and one optional child per symbol.
#[derive(Debug)]
pub struct Trie {
    pub is_end: bool,
    pub children: Vec<Option<Box<Trie>>>,
}

impl Trie {
    /// Every node has one slot per symbol.
    pub open spec fn wf(&self) -> bool
        decreases self,
    {
        &&& self.children@.len() == 26
        &&& forall|i: int|
            0 <= i < 26 ==> match #[trigger] self.children@[i] {
                Some(c) => c.wf(),
                None => true,
            }
    }

    /// Whether the string `s` leads from this node to one where a string ends.
    pub open spec fn accepts(&self, s: Seq<char>) -> bool
        decreases s.len(),
    {
        if s.len() == 0 {
            self.is_end
        } else {
            is_symbol(s[0]) && 0 <= index_of(s[0]) < self.children@.len() && match self.children@[index_of(s[0])] {
                Some(c) => c.accepts(s.drop_first()),
                None => false,
            }
        }
    }
}

impl View for Trie {
    type V = Set<Seq<char>>;

    /// The strings of the set.
    open spec fn view(&self) -> Set<Seq<char>> {
        Set::new(|s: Seq<char>| self.accepts(s))
    }
}

/// The strings that the pattern `w` matches.
pub open spec fn pattern_set(w: Seq<Set<int>>) -> Set<Seq<char>> {
    Set::new(|s: Seq<char>| word_matches(w, s))
}

impl Trie {
    /// The node of the empty set.
    pub fn empty() -> (r: Trie)
        ensures
            r.wf(),
            r@ == Set::<Seq<char>>::empty(),
            !r.is_end,
            forall|i: int| 0 <= i < 26 ==> r.children@[i] is None,
    {
        let mut children: Vec<Option<Box<Trie>>> = Vec::new();
        let mut i: usize = 0;
        while i < 26
            invariant
                i <= 26,
                children@.len() == i,
                forall|k: int| 0 <= k < i ==> children@[k] is None,
            decreases 26 - i,
        {
            children.push(None);
            i += 1;
        }
        let r = Trie { is_end: false, children };
        assert(r@ =~= Set::<Seq<char>>::empty());
        r
    }

    /// Whether a string ends at this node.
    pub fn is_end(&self) -> (r: bool)
        ensures
            r == self.is_end,
    {
        self.is_end
    }

    /// Marks whether a string ends at this node.
    pub fn set_end(&mut self, end: bool)
        ensures
            final(self).is_end == end,
            final(self).children == old(self).children,
    {
        self.is_end = end;
    }

    /// Whether the node has no children.
    pub fn is_leaf(&self) -> (r: bool)
        ensures
            r == forall|i: int| 0 <= i < self.children@.len() ==> self.children@[i] is None,
    {
        let mut i: usize = 0;
        while i < self.children.len()
            invariant
                i <= self.children@.len(),
                forall|k: int| 0 <= k < i ==> self.children@[k] is None,
            decreases self.children@.len() - i,
        {
            if self.children[i].is_some() {
                return false;
            }
            i += 1;
        }
        true
    }

    /// A copy of the whole tree.
    pub fn copy(&self) -> (r: Trie)
        ensures
            r@ == self@,
            r.is_end == self.is_end,
            r.children@.len() == self.children@.len(),
            self.wf() ==> r.wf(),
            same_shape(r, *self),
        decreases self,
    {
        let mut children: Vec<Option<Box<Trie>>> = Vec::new();
        let mut i: usize = 0;
        while i < self.children.len()
            invariant
                i <= self.children@.len(),
                children@.len() == i,
                forall|k: int| 0 <= k < i ==> same_slot(#[trigger] children@[k], self.children@[k]),
            decreases self.children@.len() - i,
        {
            let c = match &self.children[i] {
                Some(b) => {
                    assert(decreases_to!(self => self.children@[i as int]));
                    Some(Box::new((**b).copy()))
                },
                None => None,
            };
            children.push(c);
            i += 1;
        }
        let r = Trie { is_end: self.is_end, children };
        proof {
            lemma_same_view(r, *self);
            assert forall|i: int| 0 <= i < r.children@.len() implies same_slot_shape(#[trigger] r.children@[i], self.children@[i]) by {
                assert(same_slot(r.children@[i], self.children@[i]));
            }
        }
        r
    }

    /// Whether the set holds no string.
    pub fn is_empty(&self) -> (r: bool)
        requires
            self.wf(),
        ensures
            r == (self@ == Set::<Seq<char>>::empty()),
        decreases self,
    {
        if self.is_end {
            assert(self@.contains(Seq::<char>::empty()));
            return false;
        }
        let mut i: usize = 0;
        while i < 26
            invariant
                self.wf(),
                !self.is_end,
                i <= 26,
                forall|k: int|
                    0 <= k < i ==> match #[trigger] self.children@[k] {
                        Some(c) => c@ == Set::<Seq<char>>::empty(),
                        None => true,
                    },
            decreases 26 - i,
        {
            match &self.children[i] {
                Some(b) => {
                    assert(decreases_to!(self => self.children@[i as int]));
                    if !(**b).is_empty() {
                        proof {
                            let c: Trie = **b;
                            assert(exists|s: Seq<char>| c@.contains(s)) by {
                                if !exists|s: Seq<char>| c@.contains(s) {
                                    assert(c@ =~= Set::<Seq<char>>::empty());
                                }
                            }
                            let s = choose|s: Seq<char>| c@.contains(s);
                            let t = seq![symbol_at(i as int)] + s;
                            assert(t.drop_first() =~= s);
                            assert(self.accepts(t));
                            assert(self@.contains(t));
                        }
                        return false;
                    }
                },
                None => {},
            }
            i += 1;
        }
        assert forall|s: Seq<char>| !self@.contains(s) by {
            if s.len() > 0 && is_symbol(s[0]) {
                let k = index_of(s[0]);
                match self.children@[k] {
                    Some(c) => {
                        assert(!c@.contains(s.drop_first()));
                    },
                    None => {},
                }
            }
        }
        assert(self@ =~= Set::<Seq<char>>::empty());
        true
    }
}

/// Two child slots that are both empty, or hold trees of the same shape and
/// the same strings where the second tree's well-formedness carries over to
/// the first.
pub open spec fn same_slot(a: Option<Box<Trie>>, b: Option<Box<Trie>>) -> bool {
    match (a, b) {
        (Some(x), Some(y)) => x@ == y@ && (y.wf() ==> x.wf()) && same_shape(*x, *y),
        (None, None) => true,
        _ => false,
    }
}

/// `a` and `b` have the same end flags and children at every depth.
pub open spec fn same_shape(a: Trie, b: Trie) -> bool
    decreases a, 1int,
{
    &&& a.is_end == b.is_end
    &&& a.children@.len() == b.children@.len()
    &&& forall|i: int|
        0 <= i < a.children@.len() ==> same_slot_shape(#[trigger] a.children@[i], b.children@[i])
}

/// Two slots that are both empty, or hold trees of the same shape.
pub open spec fn same_slot_shape(a: Option<Box<Trie>>, b: Option<Box<Trie>>) -> bool
    decreases a, 0int,
{
    match a {
        Some(x) => match b {
            Some(y) => same_shape(*x, *y),
            None => false,
        },
        None => b is None,
    }
}

/// Every tree has its own shape.
pub proof fn lemma_same_shape_refl(t: Trie)
    ensures
        same_shape(t, t),
    decreases t,
{
    assert forall|i: int| 0 <= i < t.children@.len() implies same_slot_shape(#[trigger] t.children@[i], t.children@[i]) by {
        match t.children@[i] {
            Some(x) => {
                assert(decreases_to!(t => t.children@[i]));
                lemma_same_shape_refl(*x);
            },
            None => {},
        }
    }
}

/// Having the same shape is transitive.
pub proof fn lemma_same_shape_trans(a: Trie, b: Trie, c: Trie)
    requires
        same_shape(a, b),
        same_shape(b, c),
    ensures
        same_shape(a, c),
    decreases a,
{
    assert forall|i: int| 0 <= i < a.children@.len() implies same_slot_shape(#[trigger] a.children@[i], c.children@[i]) by {
        assert(same_slot_shape(a.children@[i], b.children@[i]));
        assert(same_slot_shape(b.children@[i], c.children@[i]));
        match a.children@[i] {
            Some(x) => {
                assert(decreases_to!(a => a.children@[i]));
                lemma_same_shape_trans(*x, *b.children@[i]->0, *c.children@[i]->0);
            },
            None => {},
        }
    }
}

/// The shape of the tree of a pattern: the last position accepts and has no
/// children; every other position has, under each symbol of its letter and
/// no other, the tree of the rest of the pattern.
pub open spec fn word_shape(t: Trie, w: Seq<Set<int>>) -> bool
    decreases w.len(),
{
    &&& t.children@.len() == 26
    &&& if w.len() == 0 {
        t.is_end && forall|i: int| 0 <= i < 26 ==> #[trigger] t.children@[i] is None
    } else {
        !t.is_end && forall|i: int|
            0 <= i < 26 ==> match #[trigger] t.children@[i] {
                Some(c) => w[0].contains(i) && word_shape(*c, w.drop_first()),
                None => !w[0].contains(i),
            }
    }
}

/// A tree of the same shape as a pattern's tree has the pattern's shape too.
pub proof fn lemma_word_shape_same(a: Trie, b: Trie, w: Seq<Set<int>>)
    requires
        same_shape(a, b),
        word_shape(b, w),
    ensures
        word_shape(a, w),
    decreases w.len(),
{
    if w.len() > 0 {
        assert forall|i: int| 0 <= i < 26 implies match #[trigger] a.children@[i] {
            Some(c) => w[0].contains(i) && word_shape(*c, w.drop_first()),
            None => !w[0].contains(i),
        } by {
            assert(same_slot_shape(a.children@[i], b.children@[i]));
            match a.children@[i] {
                Some(x) => {
                    lemma_word_shape_same(*x, *b.children@[i]->0, w.drop_first());
                },
                None => {},
            }
        }
    } else {
        assert forall|i: int| 0 <= i < 26 implies #[trigger] a.children@[i] is None by {
            assert(same_slot_shape(a.children@[i], b.children@[i]));
        }
    }
}

/// Nodes with the same end flag and slots of the same strings hold the same
/// strings.
pub proof fn lemma_same_view(a: Trie, b: Trie)
    requires
        a.is_end == b.is_end,
        a.children@.len() == b.children@.len(),
        forall|k: int| 0 <= k < a.children@.len() ==> same_slot(#[trigger] a.children@[k], b.children@[k]),
    ensures
        a@ == b@,
        b.wf() ==> a.wf(),
{
    assert forall|s: Seq<char>| a.accepts(s) == b.accepts(s) by {
        if s.len() > 0 && is_symbol(s[0]) && 0 <= index_of(s[0]) < a.children@.len() {
            let k = index_of(s[0]);
            assert(same_slot(a.children@[k], b.children@[k]));
            match (a.children@[k], b.children@[k]) {
                (Some(x), Some(y)) => {
                    assert(x@.contains(s.drop_first()) == y@.contains(s.drop_first()));
                },
                _ => {},
            }
        }
    }
    assert(a@ =~= b@);
    if b.wf() {
        assert forall|i: int| 0 <= i < 26 implies match #[trigger] a.children@[i] {
            Some(c) => c.wf(),
            None => true,
        } by {
            assert(same_slot(a.children@[i], b.children@[i]));
        }
    }
}


/// The strings under a child slot: none where the slot is empty.
pub open spec fn slot_view(o: Option<Box<Trie>>) -> Set<Seq<char>> {
    match o {
        Some(c) => c@,
        None => Set::empty(),
    }
}

/// The tree under a child slot, if any, is well formed.
pub open spec fn slot_wf(o: Option<Box<Trie>>) -> bool {
    match o {
        Some(c) => c.wf(),
        None => true,
    }
}

/// A non-empty string is in a node's set when its first symbol leads to a
/// child whose set holds the rest.
pub proof fn lemma_accepts_slot(t: Trie, s: Seq<char>)
    requires
        t.children@.len() == 26,
        s.len() > 0,
    ensures
        t@.contains(s) == (is_symbol(s[0]) && slot_view(t.children@[index_of(s[0])]).contains(
            s.drop_first(),
        )),
{
}

/// The shape of the union of `a` and `b`: it accepts where either does, and
/// has a child wherever either has one; where both do, the child is their
/// union, and otherwise a copy of the one child.
pub open spec fn or_shape(r: Trie, a: Trie, b: Trie) -> bool
    decreases a, 1int,
{
    &&& r.is_end == (a.is_end || b.is_end)
    &&& r.children@.len() == 26 && a.children@.len() == 26 && b.children@.len() == 26
    &&& forall|i: int|
        0 <= i < 26 && i < a.children@.len() ==> or_slot(#[trigger] r.children@[i], a.children@[i], b.children@[i])
}

/// One slot of [`or_shape`].
pub open spec fn or_slot(r: Option<Box<Trie>>, a: Option<Box<Trie>>, b: Option<Box<Trie>>) -> bool
    decreases a, 0int,
{
    match r {
        None => a is None && b is None,
        Some(x) => match a {
            Some(y) => match b {
                Some(z) => or_shape(*x, *y, *z),
                None => same_shape(*x, *y),
            },
            None => match b {
                Some(z) => same_shape(*x, *z),
                None => false,
            },
        },
    }
}

/// The shape of the intersection of `a` and `b`: it accepts where both do,
/// and has a child exactly where both have one, their intersection.
pub open spec fn and_shape(r: Trie, a: Trie, b: Trie) -> bool
    decreases a, 1int,
{
    &&& r.is_end == (a.is_end && b.is_end)
    &&& r.children@.len() == 26 && a.children@.len() == 26 && b.children@.len() == 26
    &&& forall|i: int|
        0 <= i < 26 && i < a.children@.len() ==> and_slot(#[trigger] r.children@[i], a.children@[i], b.children@[i])
}

/// One slot of [`and_shape`].
pub open spec fn and_slot(r: Option<Box<Trie>>, a: Option<Box<Trie>>, b: Option<Box<Trie>>) -> bool
    decreases a, 0int,
{
    match r {
        None => !(a is Some && b is Some),
        Some(x) => match a {
            Some(y) => match b {
                Some(z) => and_shape(*x, *y, *z),
                None => false,
            },
            None => false,
        },
    }
}

/// The shape of `a` less `b`: it accepts where `a` does and `b` does not,
/// and has a child exactly where `a` has one: `a`'s child less `b`'s where
/// `b` has one, else a copy of `a`'s.
pub open spec fn diff_shape(r: Trie, a: Trie, b: Trie) -> bool
    decreases a, 1int,
{
    &&& r.is_end == (a.is_end && !b.is_end)
    &&& r.children@.len() == 26 && a.children@.len() == 26 && b.children@.len() == 26
    &&& forall|i: int|
        0 <= i < 26 && i < a.children@.len() ==> diff_slot(#[trigger] r.children@[i], a.children@[i], b.children@[i])
}

/// One slot of [`diff_shape`].
pub open spec fn diff_slot(r: Option<Box<Trie>>, a: Option<Box<Trie>>, b: Option<Box<Trie>>) -> bool
    decreases a, 0int,
{
    match r {
        None => a is None,
        Some(x) => match a {
            Some(y) => match b {
                Some(z) => diff_shape(*x, *y, *z),
                None => same_shape(*x, *y),
            },
            None => false,
        },
    }
}

/// The union with a set that has neither an end flag nor children is a tree
/// of the same shape as the first operand: the empty set is the identity of
/// union on trees, not only on sets.
pub proof fn law_or_empty_same_tree(r: Trie, a: Trie, e: Trie)
    requires
        or_shape(r, a, e),
        !e.is_end,
        forall|i: int| 0 <= i < 26 ==> #[trigger] e.children@[i] is None,
    ensures
        same_shape(r, a),
{
    assert forall|i: int| 0 <= i < r.children@.len() implies same_slot_shape(#[trigger] r.children@[i], a.children@[i]) by {
        assert(or_slot(r.children@[i], a.children@[i], e.children@[i]));
        assert(e.children@[i] is None);
    }
}

/// The union shape carries over to a first operand of the same shape.
proof fn lemma_or_shape_congr(r: Trie, a2: Trie, a: Trie, b: Trie)
    requires
        or_shape(r, a2, b),
        same_shape(a2, a),
    ensures
        or_shape(r, a, b),
    decreases a2,
{
    assert forall|i: int| 0 <= i < 26 && i < a.children@.len() implies or_slot(#[trigger] r.children@[i], a.children@[i], b.children@[i]) by {
        assert(or_slot(r.children@[i], a2.children@[i], b.children@[i]));
        assert(same_slot_shape(a2.children@[i], a.children@[i]));
        match r.children@[i] {
            Some(x) => match a2.children@[i] {
                Some(y2) => {
                    assert(decreases_to!(a2 => a2.children@[i]));
                    let y = a.children@[i]->0;
                    match b.children@[i] {
                        Some(z) => lemma_or_shape_congr(*x, *y2, *y, *z),
                        None => lemma_same_shape_trans(*x, *y2, *y),
                    }
                },
                None => {},
            },
            None => {},
        }
    }
}

/// The intersection shape carries over to a first operand of the same shape.
proof fn lemma_and_shape_congr(r: Trie, a2: Trie, a: Trie, b: Trie)
    requires
        and_shape(r, a2, b),
        same_shape(a2, a),
    ensures
        and_shape(r, a, b),
    decreases a2,
{
    assert forall|i: int| 0 <= i < 26 && i < a.children@.len() implies and_slot(#[trigger] r.children@[i], a.children@[i], b.children@[i]) by {
        assert(and_slot(r.children@[i], a2.children@[i], b.children@[i]));
        assert(same_slot_shape(a2.children@[i], a.children@[i]));
        match r.children@[i] {
            Some(x) => match a2.children@[i] {
                Some(y2) => {
                    assert(decreases_to!(a2 => a2.children@[i]));
                    match b.children@[i] {
                        Some(z) => lemma_and_shape_congr(*x, *y2, *a.children@[i]->0, *z),
                        None => {},
                    }
                },
                None => {},
            },
            None => {},
        }
    }
}

/// The difference shape carries over to a first operand of the same shape.
proof fn lemma_diff_shape_congr(r: Trie, a2: Trie, a: Trie, b: Trie)
    requires
        diff_shape(r, a2, b),
        same_shape(a2, a),
    ensures
        diff_shape(r, a, b),
    decreases a2,
{
    assert forall|i: int| 0 <= i < 26 && i < a.children@.len() implies diff_slot(#[trigger] r.children@[i], a.children@[i], b.children@[i]) by {
        assert(diff_slot(r.children@[i], a2.children@[i], b.children@[i]));
        assert(same_slot_shape(a2.children@[i], a.children@[i]));
        match r.children@[i] {
            Some(x) => match a2.children@[i] {
                Some(y2) => {
                    assert(decreases_to!(a2 => a2.children@[i]));
                    let y = a.children@[i]->0;
                    match b.children@[i] {
                        Some(z) => lemma_diff_shape_congr(*x, *y2, *y, *z),
                        None => lemma_same_shape_trans(*x, *y2, *y),
                    }
                },
                None => {},
            },
            None => {},
        }
    }
}

/// A node whose slots are all well formed is well formed.
proof fn lemma_wf_from_slots(t: Trie)
    requires
        t.children@.len() == 26,
        forall|k: int| 0 <= k < 26 ==> slot_wf(#[trigger] t.children@[k]),
    ensures
        t.wf(),
{
    assert forall|i: int| 0 <= i < 26 implies match #[trigger] t.children@[i] {
        Some(c) => c.wf(),
        None => true,
    } by {
        assert(slot_wf(t.children@[i]));
    }
}

impl Trie {
    /// Adds every string of `other` (union, in place).
    pub fn or_assign(&mut self, other: &Trie)
        requires
            old(self).wf(),
            other.wf(),
        ensures
            final(self).wf(),
            final(self)@ == old(self)@.union(other@),
            or_shape(*final(self), *old(self), *other),
        decreases other,
    {
        self.is_end = self.is_end || other.is_end;
        let mut i: usize = 0;
        while i < 26
            invariant
                i <= 26,
                other.wf(),
                old(self).wf(),
                self.children@.len() == 26,
                self.is_end == (old(self).is_end || other.is_end),
                forall|k: int|
                    0 <= k < i ==> slot_view(#[trigger] self.children@[k]) == slot_view(
                        old(self).children@[k],
                    ).union(slot_view(other.children@[k])) && slot_wf(self.children@[k]),
                forall|k: int| 0 <= k < i ==> or_slot(#[trigger] self.children@[k], old(self).children@[k], other.children@[k]),
                forall|k: int| i <= k < 26 ==> #[trigger] self.children@[k] == old(self).children@[k],
            decreases 26 - i,
        {
            assert(slot_wf(old(self).children@[i as int]));
            assert(slot_wf(other.children@[i as int]));
            match &other.children[i] {
                Some(o) => {
                    assert(decreases_to!(other => other.children@[i as int]));
                    let mut slot: Option<Box<Trie>> = None;
                    self.children.set_and_swap(i, &mut slot);
                    let next = match slot {
                        Some(b) => {
                            let mut t: Trie = *b;
                            t.or_assign(&**o);
                            Some(Box::new(t))
                        },
                        None => Some(Box::new((**o).copy())),
                    };
                    self.children.set(i, next);
                    assert(or_slot(next, old(self).children@[i as int], other.children@[i as int]));
                    assert(slot_view(next) =~= slot_view(old(self).children@[i as int]).union(
                        slot_view(other.children@[i as int]),
                    ));
                },
                None => {
                    assert(slot_view(self.children@[i as int]) =~= slot_view(
                        old(self).children@[i as int],
                    ).union(slot_view(other.children@[i as int])));
                    proof {
                        match self.children@[i as int] {
                            Some(x) => lemma_same_shape_refl(*x),
                            None => {},
                        }
                    }
                    assert(or_slot(self.children@[i as int], old(self).children@[i as int], other.children@[i as int]));
                },
            }
            i += 1;
        }
        proof {
            lemma_wf_from_slots(*self);
            assert forall|s: Seq<char>| self@.contains(s) == old(self)@.union(other@).contains(s) by {
                if s.len() > 0 {
                    lemma_accepts_slot(*self, s);
                    lemma_accepts_slot(*old(self), s);
                    lemma_accepts_slot(*other, s);
                    if is_symbol(s[0]) {
                        assert(slot_view(self.children@[index_of(s[0])]) == slot_view(
                            old(self).children@[index_of(s[0])],
                        ).union(slot_view(other.children@[index_of(s[0])])));
                    }
                }
            }
            assert(self@ =~= old(self)@.union(other@));
        }
    }

    /// Keeps only the strings that are also in `other` (intersection, in place).
    pub fn and_assign(&mut self, other: &Trie)
        requires
            old(self).wf(),
            other.wf(),
        ensures
            final(self).wf(),
            final(self)@ == old(self)@.intersect(other@),
            and_shape(*final(self), *old(self), *other),
        decreases other,
    {
        self.is_end = self.is_end && other.is_end;
        let mut i: usize = 0;
        while i < 26
            invariant
                i <= 26,
                other.wf(),
                old(self).wf(),
                self.children@.len() == 26,
                self.is_end == (old(self).is_end && other.is_end),
                forall|k: int|
                    0 <= k < i ==> slot_view(#[trigger] self.children@[k]) == slot_view(
                        old(self).children@[k],
                    ).intersect(slot_view(other.children@[k])) && slot_wf(self.children@[k]),
                forall|k: int| 0 <= k < i ==> and_slot(#[trigger] self.children@[k], old(self).children@[k], other.children@[k]),
                forall|k: int| i <= k < 26 ==> #[trigger] self.children@[k] == old(self).children@[k],
            decreases 26 - i,
        {
            assert(slot_wf(old(self).children@[i as int]));
            assert(slot_wf(other.children@[i as int]));
            let mut slot: Option<Box<Trie>> = None;
            self.children.set_and_swap(i, &mut slot);
            let next = match &other.children[i] {
                Some(o) => {
                    assert(decreases_to!(other => other.children@[i as int]));
                    match slot {
                        Some(b) => {
                            let mut t: Trie = *b;
                            t.and_assign(&**o);
                            Some(Box::new(t))
                        },
                        None => None,
                    }
                },
                None => None,
            };
            self.children.set(i, next);
            assert(and_slot(next, old(self).children@[i as int], other.children@[i as int]));
            assert(slot_view(next) =~= slot_view(old(self).children@[i as int]).intersect(
                slot_view(other.children@[i as int]),
            ));
            i += 1;
        }
        proof {
            lemma_wf_from_slots(*self);
            assert forall|s: Seq<char>|
                self@.contains(s) == old(self)@.intersect(other@).contains(s) by {
                if s.len() > 0 {
                    lemma_accepts_slot(*self, s);
                    lemma_accepts_slot(*old(self), s);
                    lemma_accepts_slot(*other, s);
                    if is_symbol(s[0]) {
                        assert(slot_view(self.children@[index_of(s[0])]) == slot_view(
                            old(self).children@[index_of(s[0])],
                        ).intersect(slot_view(other.children@[index_of(s[0])])));
                    }
                }
            }
            assert(self@ =~= old(self)@.intersect(other@));
        }
    }

    /// Removes the strings that are in `other` (difference, in place).
    pub fn diff_assign(&mut self, other: &Trie)
        requires
            old(self).wf(),
            other.wf(),
        ensures
            final(self).wf(),
            final(self)@ == old(self)@.difference(other@),
            diff_shape(*final(self), *old(self), *other),
        decreases other,
    {
        self.is_end = self.is_end && !other.is_end;
        let mut i: usize = 0;
        while i < 26
            invariant
                i <= 26,
                other.wf(),
                old(self).wf(),
                self.children@.len() == 26,
                self.is_end == (old(self).is_end && !other.is_end),
                forall|k: int|
                    0 <= k < i ==> slot_view(#[trigger] self.children@[k]) == slot_view(
                        old(self).children@[k],
                    ).difference(slot_view(other.children@[k])) && slot_wf(self.children@[k]),
                forall|k: int| 0 <= k < i ==> diff_slot(#[trigger] self.children@[k], old(self).children@[k], other.children@[k]),
                forall|k: int| i <= k < 26 ==> #[trigger] self.children@[k] == old(self).children@[k],
            decreases 26 - i,
        {
            assert(slot_wf(old(self).children@[i as int]));
            assert(slot_wf(other.children@[i as int]));
            match &other.children[i] {
                Some(o) => {
                    assert(decreases_to!(other => other.children@[i as int]));
                    let mut slot: Option<Box<Trie>> = None;
                    self.children.set_and_swap(i, &mut slot);
                    let next = match slot {
                        Some(b) => {
                            let mut t: Trie = *b;
                            t.diff_assign(&**o);
                            Some(Box::new(t))
                        },
                        None => None,
                    };
                    self.children.set(i, next);
                    assert(diff_slot(next, old(self).children@[i as int], other.children@[i as int]));
                    assert(slot_view(next) =~= slot_view(old(self).children@[i as int]).difference(
                        slot_view(other.children@[i as int]),
                    ));
                },
                None => {
                    assert(slot_view(self.children@[i as int]) =~= slot_view(
                        old(self).children@[i as int],
                    ).difference(slot_view(other.children@[i as int])));
                    proof {
                        match self.children@[i as int] {
                            Some(x) => lemma_same_shape_refl(*x),
                            None => {},
                        }
                    }
                    assert(diff_slot(self.children@[i as int], old(self).children@[i as int], other.children@[i as int]));
                },
            }
            i += 1;
        }
        proof {
            lemma_wf_from_slots(*self);
            assert forall|s: Seq<char>|
                self@.contains(s) == old(self)@.difference(other@).contains(s) by {
                if s.len() > 0 {
                    lemma_accepts_slot(*self, s);
                    lemma_accepts_slot(*old(self), s);
                    lemma_accepts_slot(*other, s);
                    if is_symbol(s[0]) {
                        assert(slot_view(self.children@[index_of(s[0])]) == slot_view(
                            old(self).children@[index_of(s[0])],
                        ).difference(slot_view(other.children@[index_of(s[0])])));
                    }
                }
            }
            assert(self@ =~= old(self)@.difference(other@));
        }
    }

    /// The union of two sets.
    pub fn or(&self, other: &Trie) -> (r: Trie)
        requires
            self.wf(),
            other.wf(),
        ensures
            r.wf(),
            r@ == self@.union(other@),
            or_shape(r, *self, *other),
    {
        let mut r = self.copy();
        let ghost c = r;
        r.or_assign(other);
        proof {
            lemma_or_shape_congr(r, c, *self, *other);
        }
        r
    }

    /// The intersection of two sets.
    pub fn and(&self, other: &Trie) -> (r: Trie)
        requires
            self.wf(),
            other.wf(),
        ensures
            r.wf(),
            r@ == self@.intersect(other@),
            and_shape(r, *self, *other),
    {
        let mut r = self.copy();
        let ghost c = r;
        r.and_assign(other);
        proof {
            lemma_and_shape_congr(r, c, *self, *other);
        }
        r
    }

    /// The strings of this set that are not in `other`.
    pub fn diff(&self, other: &Trie) -> (r: Trie)
        requires
            self.wf(),
            other.wf(),
        ensures
            r.wf(),
            r@ == self@.difference(other@),
            diff_shape(r, *self, *other),
    {
        let mut r = self.copy();
        let ghost c = r;
        r.diff_assign(other);
        proof {
            lemma_diff_shape_congr(r, c, *self, *other);
        }
        r
    }
}

impl Trie {
    /// The set of the strings that the pattern `w` matches.
    pub fn word(w: Word) -> (r: Trie)
        ensures
            r.wf(),
            r@ == pattern_set(w@),
            word_shape(r, w@),
        decreases w@.len(),
    {
        let ghost wv = w@;
        match w.split() {
            None => {
                let mut t = Trie::empty();
                t.is_end = true;
                proof {
                    assert forall|s: Seq<char>| t@.contains(s) == pattern_set(wv).contains(s) by {
                        if s.len() > 0 {
                            lemma_accepts_slot(t, s);
                        }
                    }
                    assert(t@ =~= pattern_set(wv));
                }
                t
            },
            Some((letter, rest)) => {
                let sub = Trie::word(rest);
                let mut children: Vec<Option<Box<Trie>>> = Vec::new();
                let mut i: usize = 0;
                while i < 26
                    invariant
                        i <= 26,
                        children@.len() == i,
                        sub.wf(),
                        word_shape(sub, wv.drop_first()),
                        wv.len() > 0 && wv[0] == letter@,
                        forall|k: int|
                            0 <= k < i ==> match #[trigger] children@[k] {
                                Some(c) => letter@.contains(k) && word_shape(*c, wv.drop_first()),
                                None => !letter@.contains(k),
                            },
                        forall|k: int|
                            0 <= k < i ==> slot_wf(#[trigger] children@[k]) && slot_view(children@[k])
                                == if letter@.contains(k) {
                                sub@
                            } else {
                                Set::<Seq<char>>::empty()
                            },
                    decreases 26 - i,
                {
                    if letter.has_idx_unchecked(i) {
                        let c = sub.copy();
                        proof {
                            lemma_word_shape_same(c, sub, wv.drop_first());
                        }
                        children.push(Some(Box::new(c)));
                    } else {
                        children.push(None);
                    }
                    i += 1;
                }
                let t = Trie { is_end: false, children };
                proof {
                    lemma_wf_from_slots(t);
                    assert forall|s: Seq<char>| t@.contains(s) == pattern_set(wv).contains(s) by {
                        if s.len() > 0 {
                            lemma_accepts_slot(t, s);
                            lemma_word_matches_cons(wv, s);
                        }
                    }
                    assert(t@ =~= pattern_set(wv));
                }
                t
            },
        }
    }

    /// The set of the strings that the pattern text `pattern` matches.
    pub fn str(pattern: &str) -> (r: Trie)
        requires
            parse_spec(pattern@) is Ok,
        ensures
            r.wf(),
            r@ == pattern_set(parse_spec(pattern@)->Ok_0),
            word_shape(r, parse_spec(pattern@)->Ok_0),
    {
        match parse_word(pattern) {
            Ok(w) => Trie::word(w),
            Err(_) => Trie::empty(),
        }
    }

    /// The set of all strings of length `len`.
    pub fn all(len: usize) -> (r: Trie)
        ensures
            r.wf(),
            r@ == Set::new(
                |s: Seq<char>| s.len() == len && forall|k: int| 0 <= k < len ==> is_symbol(#[trigger] s[k]),
            ),
    {
        let mut w = Word::new();
        let mut k: usize = 0;
        while k < len
            invariant
                k <= len,
                w@.len() == k,
                forall|m: int| 0 <= m < k ==> #[trigger] w@[m] == range_set(0, 25),
            decreases len - k,
        {
            w.push(Letter::all());
            k += 1;
        }
        let ghost wv = w@;
        let r = Trie::word(w);
        proof {
            assert forall|s: Seq<char>|
                r@.contains(s) == (s.len() == len && forall|k: int|
                    0 <= k < len ==> is_symbol(#[trigger] s[k])) by {
                if s.len() == len && forall|k: int| 0 <= k < len ==> is_symbol(#[trigger] s[k]) {
                    assert forall|k: int| 0 <= k < s.len() implies is_symbol(#[trigger] s[k])
                        && wv[k].contains(index_of(s[k])) by {
                        assert(wv[k] == range_set(0, 25));
                    }
                }
            }
            assert(r@ =~= Set::new(
                |s: Seq<char>| s.len() == len && forall|k: int| 0 <= k < len ==> is_symbol(#[trigger] s[k]),
            ));
        }
        r
    }

    /// Whether some string that the pattern `w` matches from position `k` on
    /// is in the set.
    fn has_from(&self, w: &Word, k: usize) -> (r: bool)
        requires
            self.wf(),
            k <= w@.len(),
        ensures
            r == exists|s: Seq<char>| word_matches(w@.subrange(k as int, w@.len() as int), s) && self@.contains(s),
        decreases w@.len() - k,
    {
        let ghost rest = w@.subrange(k as int, w@.len() as int);
        if k == w.letters.len() {
            proof {
                if self.is_end {
                    assert(word_matches(rest, Seq::<char>::empty()));
                    assert(self@.contains(Seq::<char>::empty()));
                }
                assert forall|s: Seq<char>| word_matches(rest, s) && self@.contains(s) implies self.is_end by {
                    assert(s =~= Seq::<char>::empty());
                }
            }
            return self.is_end;
        }
        let n = w.letters.len();
        let letter = w.letters[k];
        assert(rest.drop_first() =~= w@.subrange(k + 1, w@.len() as int));
        assert(rest[0] == letter@);
        let mut i: usize = 0;
        while i < 26
            invariant
                self.wf(),
                k < w@.len(),
                n == w@.len(),
                i <= 26,
                rest == w@.subrange(k as int, w@.len() as int),
                rest.drop_first() == w@.subrange(k + 1, w@.len() as int),
                rest[0] == letter@,
                forall|s: Seq<char>|
                    #![trigger word_matches(rest, s), self@.contains(s)]
                    s.len() > 0 && is_symbol(s[0]) && index_of(s[0]) < i ==> !(word_matches(rest, s) && self@.contains(s)),
            decreases 26 - i,
        {
            if letter.has_idx_unchecked(i) {
                match &self.children[i] {
                    Some(b) => {
                        assert(decreases_to!(self => self.children@[i as int]));
                        assert(slot_wf(self.children@[i as int]));
                        if (**b).has_from(w, k + 1) {
                            proof {
                                let t = choose|t: Seq<char>| word_matches(rest.drop_first(), t) && b@.contains(t);
                                let s = seq![symbol_at(i as int)] + t;
                                assert(s.drop_first() =~= t);
                                lemma_word_matches_cons(rest, s);
                                lemma_accepts_slot(*self, s);
                            }
                            return true;
                        }
                    },
                    None => {},
                }
            }
            proof {
                assert forall|s: Seq<char>|
                    #![trigger word_matches(rest, s), self@.contains(s)]
                    s.len() > 0 && is_symbol(s[0]) && index_of(s[0]) < i + 1 implies !(word_matches(rest, s) && self@.contains(s)) by {
                    if index_of(s[0]) == i {
                        lemma_word_matches_cons(rest, s);
                        lemma_accepts_slot(*self, s);
                    }
                }
            }
            i += 1;
        }
        proof {
            assert forall|s: Seq<char>| !(word_matches(rest, s) && self@.contains(s)) by {
                if word_matches(rest, s) {
                    assert(s.len() > 0);
                    assert(is_symbol(s[0]));
                }
            }
        }
        false
    }

    /// Whether every string that the pattern `w` matches from position `k`
    /// on is in the set, for a pattern with no dead position.
    fn has_all_from(&self, w: &Word, k: usize) -> (r: bool)
        requires
            self.wf(),
            k <= w@.len(),
            all_nonempty(w@),
        ensures
            r == forall|s: Seq<char>| word_matches(w@.subrange(k as int, w@.len() as int), s) ==> self@.contains(s),
        decreases w@.len() - k,
    {
        let ghost rest = w@.subrange(k as int, w@.len() as int);
        proof {
            lemma_word_within(*w);
        }
        if k == w.letters.len() {
            proof {
                assert(rest =~= Seq::<Set<int>>::empty());
                assert(word_matches(rest, Seq::<char>::empty()));
                assert(self@.contains(Seq::<char>::empty()) == self.is_end);
                assert forall|s: Seq<char>| word_matches(rest, s) && self.is_end implies self@.contains(s) by {
                    assert(s =~= Seq::<char>::empty());
                }
            }
            return self.is_end;
        }
        let n = w.letters.len();
        let letter = w.letters[k];
        assert(rest.drop_first() =~= w@.subrange(k + 1, w@.len() as int));
        assert(rest[0] == letter@);
        proof {
            assert forall|m: int| 0 <= m < rest.drop_first().len() implies #[trigger] rest.drop_first()[m]
                != Set::<int>::empty() && within_alphabet(rest.drop_first()[m]) by {
                assert(rest.drop_first()[m] == w@[k + 1 + m]);
            }
            lemma_some_match(rest.drop_first());
        }
        let mut i: usize = 0;
        while i < 26
            invariant
                self.wf(),
                k < w@.len(),
                n == w@.len(),
                all_nonempty(w@),
                i <= 26,
                rest == w@.subrange(k as int, w@.len() as int),
                rest.drop_first() == w@.subrange(k + 1, w@.len() as int),
                rest[0] == letter@,
                exists|t: Seq<char>| word_matches(rest.drop_first(), t),
                forall|s: Seq<char>|
                    #![trigger word_matches(rest, s), self@.contains(s)]
                    s.len() > 0 && is_symbol(s[0]) && index_of(s[0]) < i && word_matches(rest, s) ==> self@.contains(s),
            decreases 26 - i,
        {
            if letter.has_idx_unchecked(i) {
                match &self.children[i] {
                    Some(b) => {
                        assert(decreases_to!(self => self.children@[i as int]));
                        assert(slot_wf(self.children@[i as int]));
                        if !(**b).has_all_from(w, k + 1) {
                            proof {
                                let t = choose|t: Seq<char>| word_matches(rest.drop_first(), t) && !b@.contains(t);
                                let s = seq![symbol_at(i as int)] + t;
                                assert(s.drop_first() =~= t);
                                lemma_word_matches_cons(rest, s);
                                lemma_accepts_slot(*self, s);
                            }
                            return false;
                        }
                    },
                    None => {
                        proof {
                            let t = choose|t: Seq<char>| word_matches(rest.drop_first(), t);
                            let s = seq![symbol_at(i as int)] + t;
                            assert(s.drop_first() =~= t);
                            lemma_word_matches_cons(rest, s);
                            lemma_accepts_slot(*self, s);
                        }
                        return false;
                    },
                }
            }
            proof {
                assert forall|s: Seq<char>|
                    #![trigger word_matches(rest, s), self@.contains(s)]
                    s.len() > 0 && is_symbol(s[0]) && index_of(s[0]) < i + 1 && word_matches(rest, s) implies self@.contains(s) by {
                    if index_of(s[0]) == i {
                        lemma_word_matches_cons(rest, s);
                        lemma_accepts_slot(*self, s);
                    }
                }
            }
            i += 1;
        }
        proof {
            assert forall|s: Seq<char>| word_matches(rest, s) implies self@.contains(s) by {
                assert(s.len() > 0);
                assert(is_symbol(s[0]));
            }
        }
        true
    }

    /// Whether some string that the pattern `w` matches is in the set.
    pub fn has_word(&self, w: &Word) -> (r: bool)
        requires
            self.wf(),
        ensures
            r == exists|s: Seq<char>| word_matches(w@, s) && self@.contains(s),
    {
        assert(w@.subrange(0, w@.len() as int) =~= w@);
        self.has_from(w, 0)
    }

    /// Whether every string that the pattern `w` matches is in the set.
    pub fn has_all_word(&self, w: &Word) -> (r: bool)
        requires
            self.wf(),
        ensures
            r == pattern_set(w@).subset_of(self@),
    {
        if w.has_empty_letter() {
            proof {
                let k = choose|k: int| 0 <= k < w@.len() && w@[k] == Set::<int>::empty();
                assert forall|s: Seq<char>| !word_matches(w@, s) by {
                    if word_matches(w@, s) {
                        assert(w@[k].contains(index_of(s[k])));
                    }
                }
            }
            return true;
        }
        assert(w@.subrange(0, w@.len() as int) =~= w@);
        self.has_all_from(w, 0)
    }

    /// Whether some string that the pattern text matches is in the set.
    pub fn has(&self, pattern: &str) -> (r: bool)
        requires
            self.wf(),
            parse_spec(pattern@) is Ok,
        ensures
            r == exists|s: Seq<char>| word_matches(parse_spec(pattern@)->Ok_0, s) && self@.contains(s),
    {
        match parse_word(pattern) {
            Ok(w) => self.has_word(&w),
            Err(_) => false,
        }
    }

    /// Whether every string that the pattern text matches is in the set.
    pub fn has_all(&self, pattern: &str) -> (r: bool)
        requires
            self.wf(),
            parse_spec(pattern@) is Ok,
        ensures
            r == pattern_set(parse_spec(pattern@)->Ok_0).subset_of(self@),
    {
        match parse_word(pattern) {
            Ok(w) => self.has_all_word(&w),
            Err(_) => false,
        }
    }
}

/// Appends every string of `sub` with the symbol `c` in front.
fn push_prefixed(c: char, sub: &Vec<Vec<char>>, out: &mut Vec<Vec<char>>)
    ensures
        vecs_view(final(out)@) == vecs_view(old(out)@) + prefix_all(c, vecs_view(sub@)),
{
    let mut j: usize = 0;
    while j < sub.len()
        invariant
            j <= sub@.len(),
            vecs_view(out@) == vecs_view(old(out)@) + prefix_all(c, vecs_view(sub@.subrange(0, j as int))),
        decreases sub@.len() - j,
    {
        let mut e: Vec<char> = Vec::new();
        e.push(c);
        e.extend_from_slice(sub[j].as_slice());
        assert(e@ =~= seq![c] + sub@[j as int]@);
        let ghost prev = vecs_view(out@);
        out.push(e);
        assert(vecs_view(out@) =~= prev.push(seq![c] + sub@[j as int]@));
        assert(prefix_all(c, vecs_view(sub@.subrange(0, j + 1))) =~= prefix_all(
            c,
            vecs_view(sub@.subrange(0, j as int)),
        ).push(seq![c] + sub@[j as int]@));
        assert(vecs_view(out@) =~= vecs_view(old(out)@) + prefix_all(c, vecs_view(sub@.subrange(0, j + 1))));
        j += 1;
    }
    assert(sub@.subrange(0, sub@.len() as int) =~= sub@);
}

impl Trie {
    /// The strings of the set, each once, in dictionary order.
    fn suffixes(&self) -> (r: Vec<Vec<char>>)
        requires
            self.wf(),
        ensures
            enumerates(self@, vecs_view(r@)),
        decreases self,
    {
        let mut out: Vec<Vec<char>> = Vec::new();
        if self.is_end {
            out.push(Vec::new());
        }
        proof {
            assert forall|s: Seq<char>| #[trigger] self@.contains(s) && s.len() == 0 implies exists|k: int|
                0 <= k < vecs_view(out@).len() && vecs_view(out@)[k] == s by {
                assert(vecs_view(out@)[0] =~= s);
            }
        }
        let mut i: usize = 0;
        while i < 26
            invariant
                self.wf(),
                i <= 26,
                forall|k: int| 0 <= k < vecs_view(out@).len() ==> self@.contains(#[trigger] vecs_view(out@)[k]),
                forall|k: int|
                    0 <= k < vecs_view(out@).len() ==> (#[trigger] vecs_view(out@)[k]).len() == 0
                        || index_of(vecs_view(out@)[k][0]) < i,
                forall|k1: int, k2: int|
                    0 <= k1 < k2 < vecs_view(out@).len() ==> lex_lt(#[trigger] vecs_view(out@)[k1], #[trigger] vecs_view(out@)[k2]),
                forall|s: Seq<char>|
                    #[trigger] self@.contains(s) && (s.len() == 0 || index_of(s[0]) < i) ==> exists|k: int|
                        0 <= k < vecs_view(out@).len() && vecs_view(out@)[k] == s,
            decreases 26 - i,
        {
            match &self.children[i] {
                Some(b) => {
                    assert(decreases_to!(self => self.children@[i as int]));
                    assert(slot_wf(self.children@[i as int]));
                    let sub = (**b).suffixes();
                    let c = from_index(i);
                    let ghost before = vecs_view(out@);
                    let ghost block = prefix_all(c, vecs_view(sub@));
                    push_prefixed(c, &sub, &mut out);
                    proof {
                        let l = vecs_view(out@);
                        let sv = vecs_view(sub@);
                        assert(l == before + block);
                        assert forall|k: int| 0 <= k < l.len() implies self@.contains(#[trigger] l[k]) by {
                            if k >= before.len() {
                                let m = k - before.len();
                                assert(l[k] == seq![c] + sv[m]);
                                assert((seq![c] + sv[m]).drop_first() =~= sv[m]);
                                lemma_accepts_slot(*self, l[k]);
                            } else {
                                assert(l[k] == before[k]);
                            }
                        }
                        assert forall|k: int|
                            0 <= k < l.len() implies (#[trigger] l[k]).len() == 0 || index_of(l[k][0]) < i + 1 by {
                            if k >= before.len() {
                                assert(l[k] == seq![c] + sv[k - before.len()]);
                            } else {
                                assert(l[k] == before[k]);
                            }
                        }
                        assert forall|k1: int, k2: int|
                            0 <= k1 < k2 < l.len() implies lex_lt(#[trigger] l[k1], #[trigger] l[k2]) by {
                            if k1 >= before.len() {
                                assert(l[k1] == seq![c] + sv[k1 - before.len()]);
                                assert(l[k2] == seq![c] + sv[k2 - before.len()]);
                                lemma_lex_cons(c, sv[k1 - before.len()], sv[k2 - before.len()]);
                            } else if k2 >= before.len() {
                                assert(l[k1] == before[k1]);
                                assert(l[k2] == seq![c] + sv[k2 - before.len()]);
                                assert(l[k2][0] == c);
                            } else {
                                assert(l[k1] == before[k1]);
                                assert(l[k2] == before[k2]);
                            }
                        }
                        assert forall|s: Seq<char>|
                            #[trigger] self@.contains(s) && (s.len() == 0 || index_of(s[0]) < i + 1) implies exists|k: int|
                                0 <= k < l.len() && l[k] == s by {
                            if s.len() == 0 || index_of(s[0]) < i {
                                let k = choose|k: int| 0 <= k < before.len() && before[k] == s;
                                assert(l[k] == before[k]);
                            } else {
                                lemma_accepts_slot(*self, s);
                                assert(b@.contains(s.drop_first()));
                                let m = choose|m: int| 0 <= m < sv.len() && sv[m] == s.drop_first();
                                assert(l[before.len() + m] == seq![c] + sv[m]);
                                assert(seq![c] + sv[m] =~= s);
                            }
                        }
                    }
                },
                None => {
                    proof {
                        let l = vecs_view(out@);
                        assert forall|s: Seq<char>|
                            #[trigger] self@.contains(s) && (s.len() == 0 || index_of(s[0]) < i + 1) implies exists|k: int|
                                0 <= k < l.len() && l[k] == s by {
                            if s.len() > 0 && index_of(s[0]) == i {
                                lemma_accepts_slot(*self, s);
                            }
                        }
                    }
                },
            }
            i += 1;
        }
        proof {
            assert forall|s: Seq<char>| #[trigger] self@.contains(s) implies exists|k: int|
                0 <= k < vecs_view(out@).len() && vecs_view(out@)[k] == s by {
                if s.len() > 0 {
                    lemma_accepts_slot(*self, s);
                }
            }
        }
        out
    }

    /// The strings of the set, each once, in dictionary order.
    pub fn strings(&self) -> (r: Vec<String>)
        requires
            self.wf(),
        ensures
            enumerates(self@, strings_view(r@)),
    {
        let v = self.suffixes();
        let mut r: Vec<String> = Vec::new();
        let mut k: usize = 0;
        while k < v.len()
            invariant
                k <= v@.len(),
                strings_view(r@) == vecs_view(v@).subrange(0, k as int),
            decreases v@.len() - k,
        {
            let s = string_of(&v[k]);
            assert(s@ == vecs_view(v@)[k as int]);
            let ghost prev = strings_view(r@);
            r.push(s);
            assert(strings_view(r@) =~= prev.push(s@));
            assert(strings_view(r@) =~= vecs_view(v@).subrange(0, k + 1));
            k += 1;
        }
        assert(vecs_view(v@).subrange(0, v@.len() as int) =~= vecs_view(v@));
        r
    }

    /// The number of strings in the set.
    pub fn len(&self) -> (r: usize)
        requires
            self.wf(),
        ensures
            self@.finite(),
            r == self@.len(),
    {
        let v = self.suffixes();
        proof {
            let l = vecs_view(v@);
            assert(l.no_duplicates()) by {
                assert forall|k1: int, k2: int| 0 <= k1 < l.len() && 0 <= k2 < l.len() && k1 != k2 implies l[k1] != l[k2] by {
                    lemma_lex_irreflexive(l[k1]);
                    if k1 < k2 {
                        assert(lex_lt(l[k1], l[k2]));
                    } else {
                        assert(lex_lt(l[k2], l[k1]));
                    }
                }
            }
            l.unique_seq_to_set();
            assert(l.to_set() =~= self@) by {
                assert forall|s: Seq<char>| self@.contains(s) implies l.to_set().contains(s) by {
                    let k = choose|k: int| 0 <= k < l.len() && l[k] == s;
                }
            }
        }
        v.len()
    }
}

/// Every child present at any depth holds some string.
pub open spec fn pruned(t: Trie) -> bool
    decreases t,
{
    forall|i: int|
        0 <= i < t.children@.len() ==> match #[trigger] t.children@[i] {
            Some(c) => c@ != Set::<Seq<char>>::empty() && pruned(*c),
            None => true,
        }
}

/// `a` has the end flags of `b` and a child only where `b` has one, at every
/// depth.
pub open spec fn sub_shape(a: Trie, b: Trie) -> bool
    decreases a, 1int,
{
    &&& a.is_end == b.is_end
    &&& a.children@.len() == b.children@.len()
    &&& forall|i: int| 0 <= i < a.children@.len() ==> sub_slot(#[trigger] a.children@[i], b.children@[i])
}

/// One slot of [`sub_shape`].
pub open spec fn sub_slot(a: Option<Box<Trie>>, b: Option<Box<Trie>>) -> bool
    decreases a, 0int,
{
    match a {
        Some(x) => match b {
            Some(y) => sub_shape(*x, *y),
            None => false,
        },
        None => true,
    }
}

impl Trie {
    /// Drops every child whose set is empty, at every depth.
    pub fn prune(&mut self)
        requires
            old(self).wf(),
        ensures
            final(self).wf(),
            final(self)@ == old(self)@,
            final(self).is_end == old(self).is_end,
            pruned(*final(self)),
            sub_shape(*final(self), *old(self)),
        decreases *old(self),
    {
        let mut i: usize = 0;
        while i < 26
            invariant
                i <= 26,
                old(self).wf(),
                self.is_end == old(self).is_end,
                self.children@.len() == 26,
                forall|k: int|
                    0 <= k < i ==> slot_view(#[trigger] self.children@[k]) == slot_view(old(self).children@[k])
                        && slot_wf(self.children@[k]) && match self.children@[k] {
                        Some(c) => c@ != Set::<Seq<char>>::empty() && pruned(*c),
                        None => true,
                    } && sub_slot(self.children@[k], old(self).children@[k]),
                forall|k: int| i <= k < 26 ==> #[trigger] self.children@[k] == old(self).children@[k],
            decreases 26 - i,
        {
            assert(slot_wf(old(self).children@[i as int]));
            let mut slot: Option<Box<Trie>> = None;
            self.children.set_and_swap(i, &mut slot);
            let next = match slot {
                Some(b) => {
                    let mut t: Trie = *b;
                    assert(decreases_to!(*old(self) => old(self).children@[i as int]));
                    t.prune();
                    if t.is_empty() {
                        None
                    } else {
                        Some(Box::new(t))
                    }
                },
                None => None,
            };
            self.children.set(i, next);
            i += 1;
        }
        proof {
            lemma_wf_from_slots(*self);
            assert forall|s: Seq<char>| self@.contains(s) == old(self)@.contains(s) by {
                if s.len() > 0 {
                    lemma_accepts_slot(*self, s);
                    lemma_accepts_slot(*old(self), s);
                    if is_symbol(s[0]) {
                        assert(slot_view(self.children@[index_of(s[0])]) == slot_view(
                            old(self).children@[index_of(s[0])],
                        ));
                    }
                }
            }
            assert(self@ =~= old(self)@);
        }
    }

    /// Drops every child; the empty string stays in the set if it was there.
    pub fn clear(&mut self)
        requires
            old(self).wf(),
        ensures
            final(self).wf(),
            final(self).is_end == old(self).is_end,
            forall|i: int| 0 <= i < 26 ==> #[trigger] final(self).children@[i] is None,
            final(self)@ == if old(self).is_end {
                set![Seq::<char>::empty()]
            } else {
                Set::<Seq<char>>::empty()
            },
    {
        let e = Trie::empty();
        self.children = e.children;
        proof {
            lemma_wf_from_slots(*self);
            assert forall|s: Seq<char>| self@.contains(s) == (old(self).is_end && s == Seq::<char>::empty()) by {
                if s.len() == 0 {
                    assert(s =~= Seq::<char>::empty());
                } else {
                    lemma_accepts_slot(*self, s);
                }
            }
            if old(self).is_end {
                assert(self@ =~= set![Seq::<char>::empty()]);
            } else {
                assert(self@ =~= Set::<Seq<char>>::empty());
            }
        }
    }

    /// Adds the strings that the pattern text matches.
    pub fn add_assign(&mut self, pattern: &str)
        requires
            old(self).wf(),
            parse_spec(pattern@) is Ok,
        ensures
            final(self).wf(),
            final(self)@ == old(self)@.union(pattern_set(parse_spec(pattern@)->Ok_0)),
            exists|t: Trie| word_shape(t, parse_spec(pattern@)->Ok_0) && or_shape(*final(self), *old(self), t),
    {
        let t = Trie::str(pattern);
        self.or_assign(&t);
        assert(word_shape(t, parse_spec(pattern@)->Ok_0) && or_shape(*self, *old(self), t));
    }

    /// Removes the strings that the pattern text matches.
    pub fn sub_assign(&mut self, pattern: &str)
        requires
            old(self).wf(),
            parse_spec(pattern@) is Ok,
        ensures
            final(self).wf(),
            final(self)@ == old(self)@.difference(pattern_set(parse_spec(pattern@)->Ok_0)),
            exists|t: Trie| word_shape(t, parse_spec(pattern@)->Ok_0) && diff_shape(*final(self), *old(self), t),
    {
        let t = Trie::str(pattern);
        self.diff_assign(&t);
        assert(word_shape(t, parse_spec(pattern@)->Ok_0) && diff_shape(*self, *old(self), t));
    }

    /// This set with the strings that the pattern text matches added.
    pub fn add(&self, pattern: &str) -> (r: Trie)
        requires
            self.wf(),
            parse_spec(pattern@) is Ok,
        ensures
            r.wf(),
            r@ == self@.union(pattern_set(parse_spec(pattern@)->Ok_0)),
            exists|t: Trie| word_shape(t, parse_spec(pattern@)->Ok_0) && or_shape(r, *self, t),
    {
        let t = Trie::str(pattern);
        let r = self.or(&t);
        assert(word_shape(t, parse_spec(pattern@)->Ok_0) && or_shape(r, *self, t));
        r
    }

    /// This set with the strings that the pattern text matches removed.
    pub fn sub(&self, pattern: &str) -> (r: Trie)
        requires
            self.wf(),
            parse_spec(pattern@) is Ok,
        ensures
            r.wf(),
            r@ == self@.difference(pattern_set(parse_spec(pattern@)->Ok_0)),
            exists|t: Trie| word_shape(t, parse_spec(pattern@)->Ok_0) && diff_shape(r, *self, t),
    {
        let t = Trie::str(pattern);
        let r = self.diff(&t);
        assert(word_shape(t, parse_spec(pattern@)->Ok_0) && diff_shape(r, *self, t));
        r
    }

    /// Whether some string of `other` is in this set.
    pub fn has_any_of(&self, other: &Trie) -> (r: bool)
        requires
            self.wf(),
            other.wf(),
        ensures
            r == exists|s: Seq<char>| self@.contains(s) && other@.contains(s),
        decreases other,
    {
        if self.is_end && other.is_end {
            assert(self@.contains(Seq::<char>::empty()) && other@.contains(Seq::<char>::empty()));
            return true;
        }
        let mut i: usize = 0;
        while i < 26
            invariant
                i <= 26,
                self.wf(),
                other.wf(),
                !(self.is_end && other.is_end),
                forall|s: Seq<char>|
                    #![trigger self@.contains(s), other@.contains(s)]
                    s.len() > 0 && is_symbol(s[0]) && index_of(s[0]) < i ==> !(self@.contains(s) && other@.contains(s)),
            decreases 26 - i,
        {
            assert(slot_wf(self.children@[i as int]));
            assert(slot_wf(other.children@[i as int]));
            match (&self.children[i], &other.children[i]) {
                (Some(a), Some(o)) => {
                    assert(decreases_to!(other => other.children@[i as int]));
                    if (**a).has_any_of(&**o) {
                        proof {
                            let t = choose|t: Seq<char>| a@.contains(t) && o@.contains(t);
                            let s = seq![symbol_at(i as int)] + t;
                            assert(s.drop_first() =~= t);
                            lemma_accepts_slot(*self, s);
                            lemma_accepts_slot(*other, s);
                        }
                        return true;
                    }
                },
                _ => {},
            }
            proof {
                assert forall|s: Seq<char>|
                    #![trigger self@.contains(s), other@.contains(s)]
                    s.len() > 0 && is_symbol(s[0]) && index_of(s[0]) < i + 1 implies !(self@.contains(s) && other@.contains(s)) by {
                    if index_of(s[0]) == i {
                        lemma_accepts_slot(*self, s);
                        lemma_accepts_slot(*other, s);
                    }
                }
            }
            i += 1;
        }
        proof {
            assert forall|s: Seq<char>| !(self@.contains(s) && other@.contains(s)) by {
                if s.len() > 0 {
                    lemma_accepts_slot(*self, s);
                }
            }
        }
        false
    }

    /// Whether every string of `other` is in this set.
    pub fn has_all_of(&self, other: &Trie) -> (r: bool)
        requires
            self.wf(),
            other.wf(),
        ensures
            r == other@.subset_of(self@),
        decreases other,
    {
        if other.is_end && !self.is_end {
            assert(other@.contains(Seq::<char>::empty()) && !self@.contains(Seq::<char>::empty()));
            return false;
        }
        let mut i: usize = 0;
        while i < 26
            invariant
                i <= 26,
                self.wf(),
                other.wf(),
                other.is_end ==> self.is_end,
                forall|s: Seq<char>|
                    #![trigger self@.contains(s), other@.contains(s)]
                    s.len() > 0 && is_symbol(s[0]) && index_of(s[0]) < i && other@.contains(s) ==> self@.contains(s),
            decreases 26 - i,
        {
            assert(slot_wf(self.children@[i as int]));
            assert(slot_wf(other.children@[i as int]));
            match &other.children[i] {
                Some(o) => {
                    assert(decreases_to!(other => other.children@[i as int]));
                    let ok = match &self.children[i] {
                        Some(a) => (**a).has_all_of(&**o),
                        None => (**o).is_empty(),
                    };
                    if !ok {
                        proof {
                            let ov: Set<Seq<char>> = o@;
                            let sv = slot_view(self.children@[i as int]);
                            assert(!ov.subset_of(sv)) by {
                                if ov.subset_of(sv) {
                                    match self.children@[i as int] {
                                        Some(a) => {},
                                        None => {
                                            assert(ov =~= Set::<Seq<char>>::empty());
                                        },
                                    }
                                }
                            }
                            let t = choose|t: Seq<char>| ov.contains(t) && !sv.contains(t);
                            let s = seq![symbol_at(i as int)] + t;
                            assert(s.drop_first() =~= t);
                            lemma_accepts_slot(*self, s);
                            lemma_accepts_slot(*other, s);
                        }
                        return false;
                    }
                },
                None => {},
            }
            proof {
                assert forall|s: Seq<char>|
                    #![trigger self@.contains(s), other@.contains(s)]
                    s.len() > 0 && is_symbol(s[0]) && index_of(s[0]) < i + 1 && other@.contains(s) implies self@.contains(s) by {
                    if index_of(s[0]) == i {
                        lemma_accepts_slot(*self, s);
                        lemma_accepts_slot(*other, s);
                        assert(slot_view(other.children@[i as int]).contains(s.drop_first()));
                    }
                }
            }
            i += 1;
        }
        proof {
            assert forall|s: Seq<char>| other@.contains(s) implies self@.contains(s) by {
                if s.len() > 0 {
                    lemma_accepts_slot(*other, s);
                }
            }
        }
        true
    }
}

/// A query asked for a branch that the tree does not have.
#[derive(Clone, Copy, Debug, PartialEq, Eq, Structural)]
pub struct ExtractError {
    /// The symbol of the missing branch.
    pub symbol: char,
}

/// What slicing `t` by the query `q` yields, in pre-order: the set of the
/// node of `t` at each accepting node of `q`, and the index of the symbol
/// wherever `q` has a branch that `t` lacks.
pub open spec fn extract_spec(t: Trie, q: Trie) -> Seq<Result<Set<Seq<char>>, int>>
    decreases q, 28int,
{
    (if q.is_end {
        seq![Ok(t@)]
    } else {
        Seq::empty()
    }) + extract_children(t, q, 0)
}

/// What the children of `q` from slot `i` on yield.
pub open spec fn extract_children(t: Trie, q: Trie, i: int) -> Seq<Result<Set<Seq<char>>, int>>
    decreases q, 27 - i,
{
    if i < 0 || i >= 26 || i >= q.children@.len() {
        Seq::empty()
    } else {
        extract_slot(t, q, i) + extract_children(t, q, i + 1)
    }
}

/// What the child of `q` in slot `i` yields.
pub open spec fn extract_slot(t: Trie, q: Trie, i: int) -> Seq<Result<Set<Seq<char>>, int>>
    decreases q, 0int,
{
    if 0 <= i < q.children@.len() {
        match q.children@[i] {
            Some(qc) => if 0 <= i < t.children@.len() && t.children@[i] is Some {
                extract_spec(*t.children@[i]->0, *qc)
            } else {
                seq![Err(i)]
            },
            None => Seq::empty(),
        }
    } else {
        Seq::empty()
    }
}

/// The view of what the program yields.
pub open spec fn extract_view<'a>(v: Seq<Result<&'a Trie, ExtractError>>) -> Seq<Result<Set<Seq<char>>, int>> {
    v.map_values(|r: Result<&'a Trie, ExtractError>| match r {
        Ok(t) => Ok(t@),
        Err(e) => Err(index_of(e.symbol)),
    })
}

impl Trie {
    fn extract_into<'a>(&'a self, q: &Trie, out: &mut Vec<Result<&'a Trie, ExtractError>>)
        requires
            self.wf(),
            q.wf(),
        ensures
            extract_view(final(out)@) == extract_view(old(out)@) + extract_spec(*self, *q),
        decreases q,
    {
        let ghost start = extract_view(out@);
        if q.is_end {
            out.push(Ok(self));
        }
        assert(extract_view(out@) =~= start + (if q.is_end {
            seq![Ok::<Set<Seq<char>>, int>(self@)]
        } else {
            Seq::empty()
        }));
        let mut i: usize = 0;
        while i < 26
            invariant
                self.wf(),
                q.wf(),
                i <= 26,
                start + extract_spec(*self, *q) == extract_view(out@) + extract_children(*self, *q, i as int),
            decreases 26 - i,
        {
            let ghost before = extract_view(out@);
            assert(slot_wf(q.children@[i as int]));
            assert(slot_wf(self.children@[i as int]));
            assert(extract_children(*self, *q, i as int) == extract_slot(*self, *q, i as int) + extract_children(*self, *q, i + 1));
            match &q.children[i] {
                Some(qc) => {
                    assert(decreases_to!(q => q.children@[i as int]));
                    match &self.children[i] {
                        Some(tc) => {
                            (**tc).extract_into(&**qc, out);
                        },
                        None => {
                            let c = from_index(i);
                            out.push(Err(ExtractError { symbol: c }));
                            assert(extract_view(out@) =~= before + seq![Err::<Set<Seq<char>>, int>(i as int)]);
                        },
                    }
                },
                None => {},
            }
            assert(before + extract_children(*self, *q, i as int) =~= extract_view(out@) + extract_children(*self, *q, i + 1));
            i += 1;
        }
        assert(extract_view(out@) + extract_children(*self, *q, 26) =~= extract_view(out@));
    }

    /// Slices the set by the query `q`: walking both trees along `q`, yields
    /// the node of this tree at every accepting node of `q`, and an error for
    /// every branch of `q` that this tree lacks; in pre-order, symbols in
    /// ascending order.
    pub fn extract<'a>(&'a self, q: &Trie) -> (r: Vec<Result<&'a Trie, ExtractError>>)
        requires
            self.wf(),
            q.wf(),
        ensures
            extract_view(r@) == extract_spec(*self, *q),
    {
        let mut out: Vec<Result<&'a Trie, ExtractError>> = Vec::new();
        self.extract_into(q, &mut out);
        assert(extract_view(out@) =~= Seq::<Result<Set<Seq<char>>, int>>::empty() + extract_spec(*self, *q));
        out
    }
}

/// The strings that the patterns `lines[0..n]` match together, where each
/// of them parses.
pub open spec fn lines_set(lines: Seq<Seq<char>>, n: int) -> Set<Seq<char>>
    decreases n,
{
    if n <= 0 || n > lines.len() {
        Set::empty()
    } else {
        lines_set(lines, n - 1).union(
            match parse_spec(lines[n - 1]) {
                Ok(w) => pattern_set(w),
                Err(_) => Set::empty(),
            },
        )
    }
}

/// The index of the first pattern among `lines` that does not parse, if any.
pub open spec fn first_bad_line(lines: Seq<Seq<char>>, k: int) -> bool {
    0 <= k < lines.len() && parse_spec(lines[k]) is Err && forall|m: int|
        0 <= m < k ==> parse_spec(#[trigger] lines[m]) is Ok
}

impl Trie {
    /// Adds the strings of every pattern in `lines` (one pattern per line of
    /// a word list). Stops at the first line that does not parse and returns
    /// its index and error, having added the lines before it.
    pub fn load_words(&mut self, lines: &Vec<String>) -> (r: Result<(), (usize, ParseError)>)
        requires
            old(self).wf(),
        ensures
            final(self).wf(),
            r is Ok <==> forall|m: int| 0 <= m < lines@.len() ==> parse_spec(#[trigger] lines@[m]@) is Ok,
            r is Ok ==> final(self)@ == old(self)@.union(lines_set(strings_view(lines@), lines@.len() as int)),
            r matches Err((k, e)) ==> first_bad_line(strings_view(lines@), k as int)
                && final(self)@ == old(self)@.union(lines_set(strings_view(lines@), k as int))
                && word_result_view(Err(e), lines@[k as int]@) == parse_spec(lines@[k as int]@),
    {
        let ghost lv = strings_view(lines@);
        let mut k: usize = 0;
        while k < lines.len()
            invariant
                self.wf(),
                k <= lines@.len(),
                lv == strings_view(lines@),
                forall|m: int| 0 <= m < k ==> parse_spec(#[trigger] lines@[m]@) is Ok,
                self@ == old(self)@.union(lines_set(lv, k as int)),
            decreases lines@.len() - k,
        {
            assert(lv[k as int] == lines@[k as int]@);
            match parse_word(lines[k].as_str()) {
                Err(e) => {
                    proof {
                        assert forall|m: int| 0 <= m < k implies parse_spec(#[trigger] lv[m]) is Ok by {
                            assert(lv[m] == lines@[m]@);
                        }
                    }
                    return Err((k, e));
                },
                Ok(w) => {
                    let t = Trie::word(w);
                    self.or_assign(&t);
                    assert(self@ =~= old(self)@.union(lines_set(lv, k + 1)));
                },
            }
            k += 1;
        }
        Ok(())
    }
}

/// The steps of a depth-first walk from `t`: entering each child (with the
/// symbol that leads to it) before its own steps, and leaving `t` last.
pub open spec fn dfs_spec(t: Trie) -> Seq<(Set<Seq<char>>, Option<char>)>
    decreases t, 28int,
{
    dfs_children(t, 0) + seq![(t@, None::<char>)]
}

/// The steps of the walks into the children of `t` from slot `i` on.
pub open spec fn dfs_children(t: Trie, i: int) -> Seq<(Set<Seq<char>>, Option<char>)>
    decreases t, 27 - i,
{
    if i < 0 || i >= 26 || i >= t.children@.len() {
        Seq::empty()
    } else {
        dfs_slot(t, i) + dfs_children(t, i + 1)
    }
}

/// The steps of the walk into the child of `t` in slot `i`, if any.
pub open spec fn dfs_slot(t: Trie, i: int) -> Seq<(Set<Seq<char>>, Option<char>)>
    decreases t, 0int,
{
    if 0 <= i < t.children@.len() {
        match t.children@[i] {
            Some(c) => seq![(c@, Some(symbol_at(i)))] + dfs_spec(*c),
            None => Seq::empty(),
        }
    } else {
        Seq::empty()
    }
}

/// The view of the steps the program lists.
pub open spec fn steps_view<'a>(v: Seq<(&'a Trie, Option<char>)>) -> Seq<(Set<Seq<char>>, Option<char>)> {
    v.map_values(|st: (&'a Trie, Option<char>)| (st.0@, st.1))
}

/// The steps of a depth-first walk, handed out one at a time.
pub struct DepthFirstIterator<'a> {
    pub steps: Vec<(&'a Trie, Option<char>)>,
    pub pos: usize,
}

impl<'a> DepthFirstIterator<'a> {
    /// The next step, if any is left.
    pub fn next(&mut self) -> (r: Option<(&'a Trie, Option<char>)>)
        ensures
            final(self).steps == old(self).steps,
            old(self).pos < old(self).steps@.len() ==> r == Some(old(self).steps@[old(self).pos as int])
                && final(self).pos == old(self).pos + 1,
            old(self).pos >= old(self).steps@.len() ==> r is None && final(self).pos == old(self).pos,
    {
        if self.pos < self.steps.len() {
            let st = self.steps[self.pos];
            self.pos = self.pos + 1;
            Some(st)
        } else {
            None
        }
    }
}

impl Trie {
    fn dfs_into<'a>(&'a self, out: &mut Vec<(&'a Trie, Option<char>)>)
        requires
            self.wf(),
        ensures
            steps_view(final(out)@) == steps_view(old(out)@) + dfs_spec(*self),
        decreases self,
    {
        let ghost start = steps_view(out@);
        let mut i: usize = 0;
        while i < 26
            invariant
                self.wf(),
                i <= 26,
                start + dfs_children(*self, 0) == steps_view(out@) + dfs_children(*self, i as int),
            decreases 26 - i,
        {
            let ghost before = steps_view(out@);
            assert(slot_wf(self.children@[i as int]));
            assert(dfs_children(*self, i as int) == dfs_slot(*self, i as int) + dfs_children(*self, i + 1));
            match &self.children[i] {
                Some(b) => {
                    assert(decreases_to!(self => self.children@[i as int]));
                    let c = from_index(i);
                    out.push((&**b, Some(c)));
                    assert(steps_view(out@) =~= before + seq![(b@, Some(symbol_at(i as int)))]);
                    (**b).dfs_into(out);
                },
                None => {},
            }
            assert(before + dfs_children(*self, i as int) =~= steps_view(out@) + dfs_children(*self, i + 1));
            i += 1;
        }
        let ghost mid = steps_view(out@);
        out.push((self, None));
        assert(steps_view(out@) =~= mid + seq![(self@, None::<char>)]);
        assert(mid + dfs_children(*self, 26) =~= mid);
        assert(steps_view(out@) =~= start + dfs_spec(*self));
    }

    /// A depth-first walk of the tree: for each node, a step into each of
    /// its children in ascending symbol order, then a step out of the node.
    pub fn dfs<'a>(&'a self) -> (r: DepthFirstIterator<'a>)
        requires
            self.wf(),
        ensures
            steps_view(r.steps@) == dfs_spec(*self),
            r.pos == 0,
    {
        let mut steps: Vec<(&'a Trie, Option<char>)> = Vec::new();
        self.dfs_into(&mut steps);
        assert(steps_view(steps@) =~= dfs_spec(*self));
        DepthFirstIterator { steps, pos: 0 }
    }
}

/// The strings of `set` of length `d`.
pub open spec fn of_len(set: Set<Seq<char>>, d: int) -> Set<Seq<char>> {
    set.filter(|s: Seq<char>| s.len() == d)
}

proof fn lemma_of_len_insert(set: Set<Seq<char>>, x: Seq<char>, d: int)
    requires
        set.finite(),
        !set.contains(x),
    ensures
        of_len(set, d).finite(),
        of_len(set.insert(x), d).finite(),
        of_len(set.insert(x), d).len() == of_len(set, d).len() + if x.len() == d {
            1int
        } else {
            0int
        },
{
    set.lemma_len_filter(|s: Seq<char>| s.len() == d);
    set.insert(x).lemma_len_filter(|s: Seq<char>| s.len() == d);
    if x.len() == d {
        assert(of_len(set.insert(x), d) =~= of_len(set, d).insert(x));
    } else {
        assert(of_len(set.insert(x), d) =~= of_len(set, d));
    }
}

impl Trie {
    /// The number of strings of each length: entry `d` counts the strings of
    /// length `d`, with one entry per level of the tree, down to its deepest
    /// node (empty branches included).
    pub fn widths(&self) -> (r: Vec<usize>)
        requires
            self.wf(),
            height(*self) <= usize::MAX,
        ensures
            r@.len() == height(*self),
            forall|d: int| 0 <= d < r@.len() ==> #[trigger] r@[d] == of_len(self@, d).len(),
    {
        let v = self.suffixes();
        let ghost l = vecs_view(v@);
        let mut r: Vec<usize> = Vec::new();
        r.push(0);
        proof {
            assert(l.subrange(0, 0).to_set() =~= Set::<Seq<char>>::empty());
            assert(of_len(l.subrange(0, 0).to_set(), 0) =~= Set::<Seq<char>>::empty());
        }
        let mut k: usize = 0;
        while k < v.len()
            invariant
                l == vecs_view(v@),
                enumerates(self@, l),
                k <= l.len(),
                r@.len() >= 1,
                forall|d: int| 0 <= d < r@.len() ==> #[trigger] r@[d] <= k,
                forall|d: int| 0 <= d < r@.len() ==> #[trigger] r@[d] == of_len(l.subrange(0, k as int).to_set(), d).len(),
                forall|j: int| 0 <= j < k ==> (#[trigger] l[j]).len() < r@.len(),
                r@.len() == 1 || exists|j: int| 0 <= j < k && l[j].len() == r@.len() - 1,
            decreases l.len() - k,
        {
            let m = v[k].len();
            let ghost x = l[k as int];
            let ghost pre = l.subrange(0, k as int).to_set();
            proof {
                assert(x.len() == m);
                assert(!pre.contains(x)) by {
                    if pre.contains(x) {
                        let j = choose|j: int| 0 <= j < k && l.subrange(0, k as int)[j] == x;
                        assert(l[j] == x);
                        assert(lex_lt(l[j], l[k as int]));
                        lemma_lex_irreflexive(x);
                    }
                }
                assert forall|a: Seq<char>| l.subrange(0, k + 1).to_set().contains(a) == pre.insert(x).contains(a) by {
                    if l.subrange(0, k + 1).to_set().contains(a) {
                        let sub = l.subrange(0, k + 1);
                        let j = choose|j: int| 0 <= j < k + 1 && sub[j] == a;
                        if j < k {
                            assert(l.subrange(0, k as int)[j] == a);
                        } else {
                            assert(a == x);
                        }
                    }
                    if pre.contains(a) {
                        let j = choose|j: int| 0 <= j < k && l.subrange(0, k as int)[j] == a;
                        assert(l.subrange(0, k + 1)[j] == a);
                    }
                    if a == x {
                        assert(l.subrange(0, k + 1)[k as int] == a);
                    }
                }
                assert(l.subrange(0, k + 1).to_set() =~= pre.insert(x));
                l.subrange(0, k as int).lemma_cardinality_of_set();
                assert(pre.finite()) by {
                    vstd::seq_lib::seq_to_set_is_finite(l.subrange(0, k as int));
                }
            }
            let ghost old_len = r@.len();
            while r.len() <= m
                invariant
                    k < l.len(),
                    old_len <= r@.len(),
                    r@.len() <= m + 1 || r@.len() == old_len,
                    forall|d: int| 0 <= d < r@.len() ==> #[trigger] r@[d] <= k,
                    forall|d: int| 0 <= d < r@.len() ==> #[trigger] r@[d] == of_len(pre, d).len(),
                    forall|j: int| 0 <= j < k ==> (#[trigger] l[j]).len() < old_len,
                    pre == l.subrange(0, k as int).to_set(),
                    pre.finite(),
                decreases m + 1 - r@.len(),
            {
                proof {
                    let d = r@.len() as int;
                    assert(of_len(pre, d) =~= Set::<Seq<char>>::empty()) by {
                        assert forall|s: Seq<char>| !of_len(pre, d).contains(s) by {
                            if of_len(pre, d).contains(s) {
                                let j = choose|j: int| 0 <= j < k && l.subrange(0, k as int)[j] == s;
                                assert(l.subrange(0, k as int)[j] == l[j]);
                                assert(l[j].len() < old_len);
                            }
                        }
                    }
                }
                r.push(0);
            }
            proof {
                lemma_of_len_insert(pre, x, m as int);
            }
            let cur = r[m];
            r.set(m, cur + 1);
            proof {
                assert forall|d: int| 0 <= d < r@.len() implies #[trigger] r@[d] == of_len(l.subrange(0, k + 1).to_set(), d).len() by {
                    lemma_of_len_insert(pre, x, d);
                }
                if r@.len() > old_len {
                    assert(l[k as int].len() == r@.len() - 1);
                }
            }
            k += 1;
        }
        proof {
            assert(l.subrange(0, l.len() as int) =~= l);
            assert(l.to_set() =~= self@) by {
                assert forall|s: Seq<char>| self@.contains(s) implies l.to_set().contains(s) by {
                    let j = choose|j: int| 0 <= j < l.len() && l[j] == s;
                }
            }
            assert forall|s: Seq<char>| self@.contains(s) implies s.len() < r@.len() by {
                let j = choose|j: int| 0 <= j < l.len() && l[j] == s;
            }
            assert forall|s: Seq<char>| self@.contains(s) implies s.len() < height(*self) by {
                lemma_height_bounds(*self, s);
            }
            if r@.len() > height(*self) {
                assert(r@.len() == 1 || exists|j: int| 0 <= j < l.len() && l[j].len() == r@.len() - 1);
                if r@.len() != 1 {
                    let j = choose|j: int| 0 <= j < l.len() && l[j].len() == r@.len() - 1;
                    assert(self@.contains(l[j]));
                }
                lemma_height_pos(*self);
            }
        }
        let h = self.height();
        while r.len() < h
            invariant
                r@.len() <= h,
                h == height(*self),
                forall|s: Seq<char>| self@.contains(s) ==> s.len() < r@.len(),
                forall|d: int| 0 <= d < r@.len() ==> #[trigger] r@[d] == of_len(self@, d).len(),
            decreases h - r@.len(),
        {
            proof {
                let d = r@.len() as int;
                assert(of_len(self@, d) =~= Set::<Seq<char>>::empty());
            }
            r.push(0);
        }
        r
    }

    /// The number of levels of the tree.
    pub fn height(&self) -> (r: usize)
        requires
            self.wf(),
            height(*self) <= usize::MAX,
        ensures
            r == height(*self),
        decreases self,
    {
        let mut m: usize = 0;
        let mut i: usize = 26;
        while i > 0
            invariant
                self.wf(),
                height(*self) <= usize::MAX,
                i <= 26,
                m == max_height_from(*self, i as int),
            decreases i,
        {
            i -= 1;
            proof {
                lemma_slot_height_le(*self, 0, i as int);
                assert(slot_wf(self.children@[i as int]));
            }
            let sh: usize = match &self.children[i] {
                Some(b) => {
                    assert(decreases_to!(self => self.children@[i as int]));
                    (**b).height()
                },
                None => 0,
            };
            if sh >= m {
                m = sh;
            }
        }
        m + 1
    }
}

/// The number of levels of a tree: its own, and those of its deepest child.
pub open spec fn height(t: Trie) -> nat
    decreases t, 28int,
{
    1 + max_height_from(t, 0)
}

/// The greatest height of the children of `t` in slots `i` and on.
pub open spec fn max_height_from(t: Trie, i: int) -> nat
    decreases t, 27 - i,
{
    if i < 0 || i >= 26 || i >= t.children@.len() {
        0
    } else {
        let a = slot_height(t, i);
        let b = max_height_from(t, i + 1);
        if a >= b {
            a
        } else {
            b
        }
    }
}

/// The height of the child of `t` in slot `i`, or 0 where there is none.
pub open spec fn slot_height(t: Trie, i: int) -> nat
    decreases t, 0int,
{
    if 0 <= i < t.children@.len() {
        match t.children@[i] {
            Some(c) => height(*c),
            None => 0,
        }
    } else {
        0
    }
}

proof fn lemma_height_pos(t: Trie)
    ensures
        height(t) >= 1,
{
}

/// Every child is at most as high as the highest child from slot `i` on.
proof fn lemma_slot_height_le(t: Trie, i: int, j: int)
    requires
        0 <= i <= j < 26,
        t.children@.len() == 26,
    ensures
        slot_height(t, j) <= max_height_from(t, i),
    decreases j - i,
{
    if i < j {
        lemma_slot_height_le(t, i + 1, j);
    }
}

/// Every string of a tree is shorter than its height.
proof fn lemma_height_bounds(t: Trie, s: Seq<char>)
    requires
        t.wf(),
        t@.contains(s),
    ensures
        s.len() < height(t),
    decreases s.len(),
{
    if s.len() > 0 {
        lemma_accepts_slot(t, s);
        let k = index_of(s[0]);
        assert(slot_wf(t.children@[k]));
        let c = t.children@[k]->0;
        lemma_height_bounds(*c, s.drop_first());
        lemma_slot_height_le(t, 0, k);
    }
}

impl Trie {
    /// The child for the symbol `c`, if any.
    pub fn get_child(&self, c: char) -> (r: Option<&Trie>)
        requires
            self.wf(),
            is_symbol(c),
        ensures
            match self.children@[index_of(c)] {
                Some(b) => r == Some(&*b),
                None => r is None,
            },
    {
        match &self.children[into_index(c)] {
            Some(b) => Some(&**b),
            None => None,
        }
    }

    /// Sets the child for the symbol `c`.
    pub fn set_child(&mut self, c: char, child: Option<Trie>)
        requires
            old(self).wf(),
            is_symbol(c),
            child matches Some(t) ==> t.wf(),
        ensures
            final(self).wf(),
            final(self).is_end == old(self).is_end,
            forall|i: int| 0 <= i < 26 && i != index_of(c) ==> #[trigger] final(self).children@[i] == old(self).children@[i],
            slot_view(final(self).children@[index_of(c)]) == match child {
                Some(t) => t@,
                None => Set::<Seq<char>>::empty(),
            },
            final(self).children@[index_of(c)] is Some == child is Some,
    {
        let i = into_index(c);
        let slot = match child {
            Some(t) => Some(Box::new(t)),
            None => None,
        };
        self.children.set(i, slot);
        proof {
            assert forall|k: int| 0 <= k < 26 implies slot_wf(#[trigger] self.children@[k]) by {
                if k != i {
                    assert(self.children@[k] == old(self).children@[k]);
                    assert(slot_wf(old(self).children@[k]));
                }
            }
            lemma_wf_from_slots(*self);
        }
    }

    /// The symbols that have a child, in ascending order.
    pub fn chars(&self) -> (r: Vec<char>)
        requires
            self.wf(),
        ensures
            forall|k: int| 0 <= k < r@.len() ==> is_symbol(#[trigger] r@[k]) && self.children@[index_of(r@[k])] is Some,
            forall|i: int| 0 <= i < 26 && #[trigger] self.children@[i] is Some ==> r@.contains(symbol_at(i)),
            forall|k1: int, k2: int| 0 <= k1 < k2 < r@.len() ==> r@[k1] < r@[k2],
    {
        let mut r: Vec<char> = Vec::new();
        let mut i: usize = 0;
        while i < 26
            invariant
                self.wf(),
                i <= 26,
                forall|k: int| 0 <= k < r@.len() ==> is_symbol(#[trigger] r@[k]) && self.children@[index_of(r@[k])] is Some
                    && index_of(r@[k]) < i,
                forall|j: int| 0 <= j < i && #[trigger] self.children@[j] is Some ==> r@.contains(symbol_at(j)),
                forall|k1: int, k2: int| 0 <= k1 < k2 < r@.len() ==> r@[k1] < r@[k2],
            decreases 26 - i,
        {
            if self.children[i].is_some() {
                let c = from_index(i);
                let ghost before = r@;
                r.push(c);
                proof {
                    assert(r@[r@.len() - 1] == c);
                    assert forall|j: int| 0 <= j < i + 1 && #[trigger] self.children@[j] is Some implies r@.contains(symbol_at(j)) by {
                        if j < i {
                            assert(before.contains(symbol_at(j)));
                            let k = choose|k: int| 0 <= k < before.len() && before[k] == symbol_at(j);
                            assert(r@[k] == symbol_at(j));
                        } else {
                            assert(r@[r@.len() - 1] == symbol_at(j));
                        }
                    }
                }
            }
            i += 1;
        }
        r
    }
}

/// The strings of a set, handed out one at a time in dictionary order.
pub struct StringIterator {
    pub items: Vec<String>,
    pub pos: usize,
}

impl StringIterator {
    /// The next string, if any is left.
    pub fn next(&mut self) -> (r: Option<String>)
        ensures
            final(self).items == old(self).items,
            old(self).pos < old(self).items@.len() ==> r == Some(old(self).items@[old(self).pos as int])
                && final(self).pos == old(self).pos + 1,
            old(self).pos >= old(self).items@.len() ==> r is None && final(self).pos == old(self).pos,
    {
        if self.pos < self.items.len() {
            let s = self.items[self.pos].clone();
            self.pos = self.pos + 1;
            Some(s)
        } else {
            None
        }
    }
}

/// What slicing a set by a query yields, handed out one item at a time.
pub struct ExtractIterator<'a> {
    pub items: Vec<Result<&'a Trie, ExtractError>>,
    pub pos: usize,
}

impl<'a> ExtractIterator<'a> {
    /// The next item, if any is left.
    pub fn next(&mut self) -> (r: Option<Result<&'a Trie, ExtractError>>)
        ensures
            final(self).items == old(self).items,
            old(self).pos < old(self).items@.len() ==> r == Some(old(self).items@[old(self).pos as int])
                && final(self).pos == old(self).pos + 1,
            old(self).pos >= old(self).items@.len() ==> r is None && final(self).pos == old(self).pos,
    {
        if self.pos < self.items.len() {
            let it = self.items[self.pos];
            self.pos = self.pos + 1;
            Some(it)
        } else {
            None
        }
    }
}

impl Trie {
    /// The strings of the set, one at a time, each once, in dictionary order.
    pub fn string_iter(&self) -> (r: StringIterator)
        requires
            self.wf(),
        ensures
            enumerates(self@, strings_view(r.items@)),
            r.pos == 0,
    {
        StringIterator { items: self.strings(), pos: 0 }
    }

    /// What slicing the set by the query `q` yields, one item at a time.
    pub fn extract_iter<'a>(&'a self, q: &Trie) -> (r: ExtractIterator<'a>)
        requires
            self.wf(),
            q.wf(),
        ensures
            extract_view(r.items@) == extract_spec(*self, *q),
            r.pos == 0,
    {
        ExtractIterator { items: self.extract(q), pos: 0 }
    }
}

} // verus!
