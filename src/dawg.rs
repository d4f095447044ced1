//! A minimized word graph: the nodes live in one arena and refer to their
//! children by index, so structurally identical sub-graphs are stored once.
//! Slot 0 is the single accepting node without children that the whole
//! graph shares. Each node keeps the indices of the nodes that point at it;
//! they are only used to find a node's structural twin, and are checked
//! before use.
use vstd::prelude::*;
use crate::letter::{is_symbol, index_of, symbol_at, into_index};
use crate::word::{Word, word_matches, lemma_word_matches_cons};
use crate::trie::{Trie, pattern_set, slot_view, slot_wf, lemma_accepts_slot};
use crate::order::{enumerates, strings_view};
use crate::pattern::{parse_spec, parse_word, chars_of};

verus! {

broadcast use vstd::std_specs::vec::group_vec_axioms;

/// A node of the graph: whether a string ends here, and per symbol the
/// index of the child, if any.
#[derive(Debug)]
pub struct DawgNode {
    pub is_end: bool,
    pub children: Vec<Option<usize>>,
}

/// Every node has one slot per symbol and points only at nodes stored before
/// it; slot 0 is the shared accepting node without children.
pub open spec fn nodes_wf(nodes: Seq<DawgNode>) -> bool {
    &&& nodes.len() >= 1
    &&& nodes[0].is_end
    &&& nodes[0].children@.len() == 26
    &&& forall|i: int| 0 <= i < 26 ==> #[trigger] nodes[0].children@[i] is None
    &&& forall|n: int| 0 <= n < nodes.len() ==> (#[trigger] nodes[n]).children@.len() == 26
    &&& forall|n: int, i: int|
        0 <= n < nodes.len() && 0 <= i < 26 ==> match #[trigger] nodes[n].children@[i] {
            Some(c) => c < n,
            None => true,
        }
}

/// Whether the string `s` leads from node `n` to a node where a string ends.
pub open spec fn accepts_at(nodes: Seq<DawgNode>, n: int, s: Seq<char>) -> bool
    decreases s.len(),
{
    if !(0 <= n < nodes.len()) {
        false
    } else if s.len() == 0 {
        nodes[n].is_end
    } else {
        is_symbol(s[0]) && 0 <= index_of(s[0]) < nodes[n].children@.len() && match nodes[n].children@[index_of(s[0])] {
            Some(c) => accepts_at(nodes, c as int, s.drop_first()),
            None => false,
        }
    }
}

/// The strings of node `n`.
pub open spec fn lang_at(nodes: Seq<DawgNode>, n: int) -> Set<Seq<char>> {
    Set::new(|s: Seq<char>| accepts_at(nodes, n, s))
}

/// The strings under a child slot of the graph.
pub open spec fn slot_lang(nodes: Seq<DawgNode>, o: Option<usize>) -> Set<Seq<char>> {
    match o {
        Some(c) => lang_at(nodes, c as int),
        None => Set::empty(),
    }
}

/// Every node is listed among the back-references of each of its children.
pub open spec fn parents_complete(nodes: Seq<DawgNode>, parents: Seq<Vec<usize>>) -> bool {
    forall|n: int, i: int|
        0 <= n < nodes.len() && 0 <= i < 26 && #[trigger] nodes[n].children@[i] is Some ==> {
            let c = nodes[n].children@[i]->0 as int;
            0 <= c < parents.len() && parents[c]@.contains(n as usize)
        }
}

/// Whether a node has some child.
pub open spec fn has_child(node: DawgNode) -> bool {
    exists|i: int| 0 <= i < node.children@.len() && #[trigger] node.children@[i] is Some
}

/// Two nodes with the same end flag and the same child at every slot.
pub open spec fn twins(a: DawgNode, b: DawgNode) -> bool {
    a.is_end == b.is_end && a.children@ == b.children@
}

/// No two nodes with children are twins: each such sub-graph is stored once.
pub open spec fn no_twins(nodes: Seq<DawgNode>) -> bool {
    forall|a: int, b: int|
        0 <= a < b < nodes.len() && has_child(#[trigger] nodes[b]) ==> !twins(#[trigger] nodes[a], nodes[b])
}

/// Every accepting node without children is the shared one in slot 0.
pub open spec fn shared_terminal(nodes: Seq<DawgNode>) -> bool {
    forall|n: int| 0 < n < nodes.len() && (#[trigger] nodes[n]).is_end ==> has_child(nodes[n])
}

/// A graph: its node arena, the back-references of each node, and its root.
#[derive(Debug)]
pub struct Dawg {
    pub nodes: Vec<DawgNode>,
    pub parents: Vec<Vec<usize>>,
    pub root: usize,
}

impl View for Dawg {
    type V = Set<Seq<char>>;

    /// The strings of the set.
    open spec fn view(&self) -> Set<Seq<char>> {
        lang_at(self.nodes@, self.root as int)
    }
}

/// `a` is `b` with nodes appended.
pub open spec fn extends(b: Seq<DawgNode>, a: Seq<DawgNode>) -> bool {
    a.len() <= b.len() && forall|n: int| 0 <= n < a.len() ==> #[trigger] b[n] == a[n]
}

/// Appending nodes leaves the strings of the nodes already there unchanged.
pub proof fn lemma_frame(a: Seq<DawgNode>, b: Seq<DawgNode>, n: int, s: Seq<char>)
    requires
        nodes_wf(a),
        extends(b, a),
        0 <= n < a.len(),
    ensures
        accepts_at(b, n, s) == accepts_at(a, n, s),
    decreases s.len(),
{
    assert(b[n] == a[n]);
    if s.len() > 0 && is_symbol(s[0]) && 0 <= index_of(s[0]) < 26 {
        match a[n].children@[index_of(s[0])] {
            Some(c) => {
                lemma_frame(a, b, c as int, s.drop_first());
            },
            None => {},
        }
    }
}

/// Appending nodes leaves the set of each node already there unchanged.
pub proof fn lemma_frame_lang(a: Seq<DawgNode>, b: Seq<DawgNode>, n: int)
    requires
        nodes_wf(a),
        extends(b, a),
        0 <= n < a.len(),
    ensures
        lang_at(b, n) == lang_at(a, n),
{
    assert forall|s: Seq<char>| accepts_at(b, n, s) == accepts_at(a, n, s) by {
        lemma_frame(a, b, n, s);
    }
    assert(lang_at(b, n) =~= lang_at(a, n));
}

/// A non-empty string is accepted at a node when its first symbol leads to a
/// child that accepts the rest.
pub proof fn lemma_accepts_at_slot(nodes: Seq<DawgNode>, n: int, s: Seq<char>)
    requires
        nodes_wf(nodes),
        0 <= n < nodes.len(),
        s.len() > 0,
    ensures
        lang_at(nodes, n).contains(s) == (is_symbol(s[0]) && slot_lang(
            nodes,
            nodes[n].children@[index_of(s[0])],
        ).contains(s.drop_first())),
{
    assert(nodes[n].children@.len() == 26);
}

fn terminal() -> (r: DawgNode)
    ensures
        r.is_end,
        r.children@.len() == 26,
        forall|i: int| 0 <= i < 26 ==> #[trigger] r.children@[i] is None,
{
    let mut children: Vec<Option<usize>> = Vec::new();
    let mut i: usize = 0;
    while i < 26
        invariant
            i <= 26,
            children@.len() == i,
            forall|k: int| 0 <= k < i ==> #[trigger] children@[k] is None,
        decreases 26 - i,
    {
        children.push(None);
        i += 1;
    }
    DawgNode { is_end: true, children }
}

/// Whether two nodes have the same end flag and the same child at every slot.
pub fn ptr_eq(a: &DawgNode, b: &DawgNode) -> (r: bool)
    ensures
        r == (a.is_end == b.is_end && a.children@ == b.children@),
{
    if a.is_end != b.is_end || a.children.len() != b.children.len() {
        return false;
    }
    let mut i: usize = 0;
    while i < a.children.len()
        invariant
            a.children@.len() == b.children@.len(),
            i <= a.children@.len(),
            forall|k: int| 0 <= k < i ==> a.children@[k] == b.children@[k],
        decreases a.children@.len() - i,
    {
        let same = match (a.children[i], b.children[i]) {
            (Some(x), Some(y)) => x == y,
            (None, None) => true,
            _ => false,
        };
        if !same {
            return false;
        }
        i += 1;
    }
    assert(a.children@ =~= b.children@);
    true
}

impl Dawg {
    /// The graph invariant.
    pub open spec fn wf(&self) -> bool {
        &&& nodes_wf(self.nodes@)
        &&& self.parents@.len() == self.nodes@.len()
        &&& self.root < self.nodes@.len()
        &&& parents_complete(self.nodes@, self.parents@)
        &&& no_twins(self.nodes@)
        &&& shared_terminal(self.nodes@)
    }

    /// A graph that holds the shared accepting node alone, as its root.
    fn base() -> (r: Dawg)
        ensures
            r.wf(),
            r.nodes@.len() == 1,
            r.root == 0,
    {
        let mut nodes: Vec<DawgNode> = Vec::new();
        nodes.push(terminal());
        let mut parents: Vec<Vec<usize>> = Vec::new();
        parents.push(Vec::new());
        Dawg { nodes, parents, root: 0 }
    }

    /// A node already in the graph with the same end flag and the same child
    /// at every slot as `node`, if one is found. The search follows the
    /// back-references of the node's first child; a node without children
    /// that accepts is the shared accepting node.
    pub fn find_eq(&self, node: &DawgNode) -> (r: Option<usize>)
        requires
            self.wf(),
            node.children@.len() == 26,
        ensures
            r matches Some(k) ==> k < self.nodes@.len() && twins(self.nodes@[k as int], *node),
            r is None && has_child(*node) ==> forall|k: int| 0 <= k < self.nodes@.len() ==> !twins(#[trigger] self.nodes@[k], *node),
            r is None && !has_child(*node) ==> !node.is_end,
            !has_child(*node) ==> ((r is Some) == node.is_end && (r matches Some(k) ==> k == 0)),
    {
        let mut first: Option<usize> = None;
        let ghost mut slot: int = 0;
        let mut i: usize = 0;
        while i < 26
            invariant
                i <= 26,
                node.children@.len() == 26,
                first is None ==> forall|k: int| 0 <= k < i ==> #[trigger] node.children@[k] is None,
                first is Some ==> 0 <= slot < 26 && node.children@[slot] == first,
            decreases 26 - i,
        {
            if first.is_none() {
                first = node.children[i];
                proof {
                    slot = i as int;
                }
            }
            i += 1;
        }
        match first {
            None => {
                assert(!has_child(*node));
                if node.is_end {
                    assert(self.nodes@[0].children@ =~= node.children@);
                    Some(0)
                } else {
                    None
                }
            },
            Some(c) => {
                assert(node.children@[slot] is Some);
                assert(has_child(*node));
                if c >= self.parents.len() {
                    return None;
                }
                let ps = &self.parents[c];
                let mut j: usize = 0;
                while j < ps.len()
                    invariant
                        self.wf(),
                        c < self.parents@.len(),
                        has_child(*node),
                        *ps == self.parents@[c as int],
                        j <= ps@.len(),
                        forall|m: int| 0 <= m < j ==> !(ps@[m] < self.nodes@.len() && twins(#[trigger] self.nodes@[ps@[m] as int], *node)),
                    decreases ps@.len() - j,
                {
                    let p = ps[j];
                    if p < self.nodes.len() && ptr_eq(&self.nodes[p], node) {
                        return Some(p);
                    }
                    j += 1;
                }
                proof {
                    assert forall|k: int| 0 <= k < self.nodes@.len() implies !twins(#[trigger] self.nodes@[k], *node) by {
                        if twins(self.nodes@[k], *node) {
                            assert(self.nodes@[k].children@[slot] is Some);
                            assert(ps@.contains(k as usize));
                            let m = choose|m: int| 0 <= m < ps@.len() && ps@[m] == k as usize;
                        }
                    }
                }
                None
            },
        }
    }

    /// The index of a node equal to `node`: its twin where one is found,
    /// else a new node appended to the arena.
    fn intern(&mut self, node: DawgNode) -> (r: usize)
        requires
            old(self).wf(),
            node.children@.len() == 26,
            forall|i: int| 0 <= i < 26 ==> match #[trigger] node.children@[i] {
                Some(c) => c < old(self).nodes@.len(),
                None => true,
            },
        ensures
            final(self).wf(),
            final(self).root == old(self).root,
            extends(final(self).nodes@, old(self).nodes@),
            r < final(self).nodes@.len(),
            final(self).nodes@[r as int].is_end == node.is_end,
            final(self).nodes@[r as int].children@ == node.children@,
    {
        match self.find_eq(&node) {
            Some(k) => k,
            None => {
                let idx = self.nodes.len();
                let mut i: usize = 0;
                while i < 26
                    invariant
                        i <= 26,
                        idx == self.nodes@.len(),
                        self.nodes@ == old(self).nodes@,
                        self.root == old(self).root,
                        self.parents@.len() == self.nodes@.len(),
                        old(self).parents@.len() == self.parents@.len(),
                        forall|x: int, y: usize| 0 <= x < self.parents@.len() && old(self).parents@[x]@.contains(y) ==> #[trigger] self.parents@[x]@.contains(y),
                        forall|k: int| 0 <= k < i && #[trigger] node.children@[k] is Some ==> self.parents@[node.children@[k]->0 as int]@.contains(idx),
                        node.children@.len() == 26,
                        forall|k: int| 0 <= k < 26 ==> match #[trigger] node.children@[k] {
                            Some(c) => c < idx,
                            None => true,
                        },
                    decreases 26 - i,
                {
                    let ghost before = self.parents@;
                    match node.children[i] {
                        Some(c) => {
                            let mut ps: Vec<usize> = Vec::new();
                            self.parents.set_and_swap(c, &mut ps);
                            ps.push(idx);
                            self.parents.set(c, ps);
                            proof {
                                assert(self.parents@[c as int]@ == before[c as int]@.push(idx));
                                assert(self.parents@[c as int]@[before[c as int]@.len() as int] == idx);
                                assert forall|x: int, y: usize| 0 <= x < self.parents@.len() && before[x]@.contains(y) implies #[trigger] self.parents@[x]@.contains(y) by {
                                    if x == c {
                                        let m = choose|m: int| 0 <= m < before[x]@.len() && before[x]@[m] == y;
                                        assert(self.parents@[x]@[m] == y);
                                    }
                                }
                            }
                        },
                        None => {},
                    }
                    i += 1;
                }
                let ghost old_nodes = self.nodes@;
                let ghost old_parents = self.parents@;
                let ghost nd = node;
                self.nodes.push(node);
                self.parents.push(Vec::new());
                proof {
                    assert(self.nodes@ == old_nodes.push(node));
                    assert forall|n: int, i: int|
                        0 <= n < self.nodes@.len() && 0 <= i < 26 && #[trigger] self.nodes@[n].children@[i] is Some implies {
                            let c = self.nodes@[n].children@[i]->0 as int;
                            0 <= c < self.parents@.len() && self.parents@[c]@.contains(n as usize)
                        } by {
                        let c = self.nodes@[n].children@[i]->0 as int;
                        if n < old_nodes.len() {
                            assert(self.nodes@[n] == old(self).nodes@[n]);
                            assert(old(self).parents@[c]@.contains(n as usize));
                            assert(old_parents[c]@.contains(n as usize));
                            assert(self.parents@[c] == old_parents[c]);
                        } else {
                            assert(self.nodes@[n] == nd);
                            assert(self.parents@[c] == old_parents[c]);
                        }
                    }
                    assert forall|m: int| 0 < m < self.nodes@.len() && (#[trigger] self.nodes@[m]).is_end implies has_child(self.nodes@[m]) by {
                        if m < old_nodes.len() {
                            assert(self.nodes@[m] == old(self).nodes@[m]);
                        } else {
                            assert(self.nodes@[m] == nd);
                        }
                    }
                    assert forall|a: int, b: int|
                        0 <= a < b < self.nodes@.len() && has_child(#[trigger] self.nodes@[b]) implies !twins(#[trigger] self.nodes@[a], self.nodes@[b]) by {
                        assert(self.nodes@[a] == old_nodes[a]);
                        if b < old_nodes.len() {
                            assert(self.nodes@[b] == old_nodes[b]);
                        } else {
                            assert(self.nodes@[b] == nd);
                        }
                    }
                    assert forall|n: int, k: int|
                        0 <= n < self.nodes@.len() && 0 <= k < 26 implies match #[trigger] self.nodes@[n].children@[k] {
                        Some(c) => c < n,
                        None => true,
                    } by {
                        if n < old_nodes.len() {
                            assert(self.nodes@[n] == old_nodes[n]);
                        }
                    }
                    assert forall|n: int| 0 <= n < self.nodes@.len() implies (#[trigger] self.nodes@[n]).children@.len() == 26 by {
                        if n < old_nodes.len() {
                            assert(self.nodes@[n] == old_nodes[n]);
                        }
                    }
                }
                idx
            },
        }
    }

    /// Adds the tree `t` to the graph bottom-up, each node merged with its
    /// structural twin where there is one; returns the node of `t`'s root.
    fn merge_tree(&mut self, t: &Trie) -> (r: usize)
        requires
            old(self).wf(),
            t.wf(),
        ensures
            final(self).wf(),
            final(self).root == old(self).root,
            extends(final(self).nodes@, old(self).nodes@),
            r < final(self).nodes@.len(),
            lang_at(final(self).nodes@, r as int) == t@,
            final(self).nodes@[r as int].is_end == t.is_end,
            forall|i: int| 0 <= i < 26 ==> (#[trigger] final(self).nodes@[r as int].children@[i] is Some) == (t.children@[i] is Some),
        decreases t,
    {
        let mut children: Vec<Option<usize>> = Vec::new();
        let ghost start = self.nodes@;
        let mut i: usize = 0;
        while i < 26
            invariant
                i <= 26,
                t.wf(),
                self.wf(),
                self.root == old(self).root,
                extends(self.nodes@, old(self).nodes@),
                children@.len() == i,
                forall|k: int| 0 <= k < i ==> match #[trigger] children@[k] {
                    Some(c) => c < self.nodes@.len(),
                    None => true,
                },
                forall|k: int| 0 <= k < i ==> #[trigger] slot_lang(self.nodes@, children@[k]) == slot_view(t.children@[k]),
                forall|k: int| 0 <= k < i ==> (#[trigger] children@[k] is Some) == (t.children@[k] is Some),
            decreases 26 - i,
        {
            assert(slot_wf(t.children@[i as int]));
            let ghost before = self.nodes@;
            let c = match &t.children[i] {
                Some(b) => {
                    assert(decreases_to!(t => t.children@[i as int]));
                    let k = self.merge_tree(&**b);
                    Some(k)
                },
                None => None,
            };
            proof {
                assert forall|k: int| 0 <= k < i implies #[trigger] slot_lang(self.nodes@, children@[k]) == slot_view(t.children@[k]) by {
                    assert(slot_lang(before, children@[k]) == slot_view(t.children@[k]));
                    match children@[k] {
                        Some(x) => {
                            lemma_frame_lang(before, self.nodes@, x as int);
                        },
                        None => {},
                    }
                }
                assert forall|n: int| 0 <= n < old(self).nodes@.len() implies #[trigger] self.nodes@[n] == old(self).nodes@[n] by {
                    assert(before[n] == old(self).nodes@[n]);
                }
            }
            children.push(c);
            i += 1;
        }
        let ghost before = self.nodes@;
        let node = DawgNode { is_end: t.is_end, children };
        let ghost cs = node.children@;
        let r = self.intern(node);
        proof {
            let nodes = self.nodes@;
            assert forall|k: int| 0 <= k < 26 implies #[trigger] slot_lang(nodes, cs[k]) == slot_view(t.children@[k]) by {
                assert(slot_lang(before, cs[k]) == slot_view(t.children@[k]));
                match cs[k] {
                    Some(x) => {
                        lemma_frame_lang(before, nodes, x as int);
                    },
                    None => {},
                }
            }
            assert forall|s: Seq<char>| lang_at(nodes, r as int).contains(s) == t@.contains(s) by {
                if s.len() > 0 {
                    lemma_accepts_at_slot(nodes, r as int, s);
                    lemma_accepts_slot(*t, s);
                    if is_symbol(s[0]) {
                        assert(slot_lang(nodes, cs[index_of(s[0])]) == slot_view(t.children@[index_of(s[0])]));
                    }
                }
            }
            assert(lang_at(nodes, r as int) =~= t@);
            assert forall|n: int| 0 <= n < old(self).nodes@.len() implies #[trigger] self.nodes@[n] == old(self).nodes@[n] by {
                assert(before[n] == old(self).nodes@[n]);
            }
        }
        r
    }

    /// The minimized graph of the tree `t`.
    pub fn from_trie(t: &Trie) -> (r: Dawg)
        requires
            t.wf(),
        ensures
            r.wf(),
            r@ == t@,
            r.nodes@[r.root as int].is_end == t.is_end,
            forall|i: int| 0 <= i < 26 ==> (#[trigger] r.nodes@[r.root as int].children@[i] is Some) == (t.children@[i] is Some),
    {
        let mut d = Dawg::base();
        let root = d.merge_tree(t);
        d.root = root;
        d
    }

    /// The tree of the strings of node `n`.
    fn node_to_trie(&self, n: usize) -> (r: Trie)
        requires
            self.wf(),
            n < self.nodes@.len(),
        ensures
            r.wf(),
            r@ == lang_at(self.nodes@, n as int),
            r.is_end == self.nodes@[n as int].is_end,
            forall|i: int| 0 <= i < 26 ==> (#[trigger] r.children@[i] is Some) == (self.nodes@[n as int].children@[i] is Some),
        decreases n,
    {
        let node = &self.nodes[n];
        let mut children: Vec<Option<Box<Trie>>> = Vec::new();
        let mut i: usize = 0;
        while i < 26
            invariant
                self.wf(),
                n < self.nodes@.len(),
                *node == self.nodes@[n as int],
                i <= 26,
                children@.len() == i,
                forall|k: int| 0 <= k < i ==> slot_wf(#[trigger] children@[k]) && slot_view(children@[k])
                    == slot_lang(self.nodes@, node.children@[k]),
                forall|k: int| 0 <= k < i ==> (#[trigger] children@[k] is Some) == (node.children@[k] is Some),
            decreases 26 - i,
        {
            let c = match node.children[i] {
                Some(x) => Some(Box::new(self.node_to_trie(x))),
                None => None,
            };
            children.push(c);
            i += 1;
        }
        let r = Trie { is_end: node.is_end, children };
        proof {
            assert(r.wf()) by {
                assert forall|k: int| 0 <= k < 26 implies match #[trigger] r.children@[k] {
                    Some(c) => c.wf(),
                    None => true,
                } by {
                    assert(slot_wf(r.children@[k]));
                }
            }
            assert forall|s: Seq<char>| r@.contains(s) == lang_at(self.nodes@, n as int).contains(s) by {
                if s.len() > 0 {
                    lemma_accepts_at_slot(self.nodes@, n as int, s);
                    lemma_accepts_slot(r, s);
                }
            }
            assert(r@ =~= lang_at(self.nodes@, n as int));
        }
        r
    }

    /// The tree of the same strings.
    pub fn to_trie(&self) -> (r: Trie)
        requires
            self.wf(),
        ensures
            r.wf(),
            r@ == self@,
    {
        self.node_to_trie(self.root)
    }

    /// Rebuilds the graph with every pair of structurally identical nodes
    /// merged into one; the set is unchanged.
    pub fn merge(&mut self)
        requires
            old(self).wf(),
        ensures
            final(self).wf(),
            final(self)@ == old(self)@,
            final(self).nodes@[final(self).root as int].is_end == old(self).nodes@[old(self).root as int].is_end,
            forall|i: int|
                0 <= i < 26 ==> (#[trigger] final(self).nodes@[final(self).root as int].children@[i] is Some)
                    == (old(self).nodes@[old(self).root as int].children@[i] is Some),
    {
        let t = self.node_to_trie(self.root);
        *self = Dawg::from_trie(&t);
    }

    /// The graph of the empty set.
    pub fn empty() -> (r: Dawg)
        ensures
            r.wf(),
            r@ == Set::<Seq<char>>::empty(),
    {
        Dawg::from_trie(&Trie::empty())
    }

    /// The graph of the strings that the pattern `w` matches, built from the
    /// last position to the first so that each level is one shared node.
    pub fn word(w: Word) -> (r: Dawg)
        ensures
            r.wf(),
            r@ == pattern_set(w@),
    {
        let mut d = Dawg::base();
        let mut cur: usize = 0;
        let mut k: usize = w.letters.len();
        proof {
            assert forall|s: Seq<char>| lang_at(d.nodes@, 0).contains(s) == pattern_set(w@.subrange(k as int, w@.len() as int)).contains(s) by {
                if s.len() > 0 {
                    lemma_accepts_at_slot(d.nodes@, 0, s);
                } else {
                    assert(s =~= Seq::<char>::empty());
                }
            }
            assert(lang_at(d.nodes@, 0) =~= pattern_set(w@.subrange(k as int, w@.len() as int)));
        }
        while k > 0
            invariant
                d.wf(),
                k <= w@.len(),
                w@.len() == w.letters@.len(),
                cur < d.nodes@.len(),
                lang_at(d.nodes@, cur as int) == pattern_set(w@.subrange(k as int, w@.len() as int)),
            decreases k,
        {
            k -= 1;
            let letter = w.letters[k];
            let mut children: Vec<Option<usize>> = Vec::new();
            let mut i: usize = 0;
            while i < 26
                invariant
                    i <= 26,
                    children@.len() == i,
                    forall|m: int| 0 <= m < i ==> #[trigger] children@[m] == if letter@.contains(m) {
                        Some(cur)
                    } else {
                        None::<usize>
                    },
                decreases 26 - i,
            {
                if letter.has_idx_unchecked(i) {
                    children.push(Some(cur));
                } else {
                    children.push(None);
                }
                i += 1;
            }
            let ghost before = d.nodes@;
            let ghost cs = children@;
            let next = d.intern(DawgNode { is_end: false, children });
            proof {
                let nodes = d.nodes@;
                let rest = w@.subrange(k + 1, w@.len() as int);
                let here = w@.subrange(k as int, w@.len() as int);
                assert(here.drop_first() =~= rest);
                assert(here[0] == letter@);
                lemma_frame_lang(before, nodes, cur as int);
                assert forall|s: Seq<char>| lang_at(nodes, next as int).contains(s) == pattern_set(here).contains(s) by {
                    if s.len() > 0 {
                        lemma_accepts_at_slot(nodes, next as int, s);
                        lemma_word_matches_cons(here, s);
                    }
                }
                assert(lang_at(nodes, next as int) =~= pattern_set(here));
            }
            cur = next;
        }
        assert(w@.subrange(0, w@.len() as int) =~= w@);
        d.root = cur;
        d
    }

    /// The graph of the strings that the pattern text matches.
    pub fn str(pattern: &str) -> (r: Dawg)
        requires
            parse_spec(pattern@) is Ok,
        ensures
            r.wf(),
            r@ == pattern_set(parse_spec(pattern@)->Ok_0),
    {
        match parse_word(pattern) {
            Ok(w) => Dawg::word(w),
            Err(_) => Dawg::empty(),
        }
    }

    /// The graph of all strings of length `len`.
    pub fn all(len: usize) -> (r: Dawg)
        ensures
            r.wf(),
            r@ == Set::new(
                |s: Seq<char>| s.len() == len && forall|k: int| 0 <= k < len ==> is_symbol(#[trigger] s[k]),
            ),
    {
        Dawg::from_trie(&Trie::all(len))
    }

    /// For every node, whether it holds some string; computed bottom-up,
    /// each node once.
    pub fn live_nodes(&self) -> (r: Vec<bool>)
        requires
            self.wf(),
        ensures
            r@.len() == self.nodes@.len(),
            forall|n: int| 0 <= n < r@.len() ==> #[trigger] r@[n] == (lang_at(self.nodes@, n) != Set::<Seq<char>>::empty()),
    {
        let mut live: Vec<bool> = Vec::new();
        let mut n: usize = 0;
        while n < self.nodes.len()
            invariant
                self.wf(),
                n <= self.nodes@.len(),
                live@.len() == n,
                forall|m: int| 0 <= m < n ==> #[trigger] live@[m] == (lang_at(self.nodes@, m) != Set::<Seq<char>>::empty()),
            decreases self.nodes@.len() - n,
        {
            let node = &self.nodes[n];
            let mut l = node.is_end;
            let mut i: usize = 0;
            while i < 26
                invariant
                    self.wf(),
                    n < self.nodes@.len(),
                    *node == self.nodes@[n as int],
                    live@.len() == n,
                    forall|m: int| 0 <= m < n ==> #[trigger] live@[m] == (lang_at(self.nodes@, m) != Set::<Seq<char>>::empty()),
                    i <= 26,
                    l == (node.is_end || exists|k: int| 0 <= k < i && #[trigger] node.children@[k] is Some
                        && lang_at(self.nodes@, node.children@[k]->0 as int) != Set::<Seq<char>>::empty()),
                decreases 26 - i,
            {
                match node.children[i] {
                    Some(c) => {
                        assert(c < n);
                        if live[c] {
                            l = true;
                        }
                    },
                    None => {},
                }
                i += 1;
            }
            proof {
                let nodes = self.nodes@;
                let ln = lang_at(nodes, n as int);
                if l {
                    if node.is_end {
                        assert(ln.contains(Seq::<char>::empty()));
                    } else {
                        let k = choose|k: int| 0 <= k < 26 && #[trigger] node.children@[k] is Some
                            && lang_at(nodes, node.children@[k]->0 as int) != Set::<Seq<char>>::empty();
                        let lc = lang_at(nodes, node.children@[k]->0 as int);
                        assert(exists|t: Seq<char>| lc.contains(t)) by {
                            if !exists|t: Seq<char>| lc.contains(t) {
                                assert(lc =~= Set::<Seq<char>>::empty());
                            }
                        }
                        let t = choose|t: Seq<char>| lc.contains(t);
                        let s = seq![symbol_at(k)] + t;
                        assert(s.drop_first() =~= t);
                        lemma_accepts_at_slot(nodes, n as int, s);
                        assert(ln.contains(s));
                    }
                } else {
                    assert forall|s: Seq<char>| !ln.contains(s) by {
                        if s.len() > 0 {
                            lemma_accepts_at_slot(nodes, n as int, s);
                            if is_symbol(s[0]) {
                                let k = index_of(s[0]);
                                if node.children@[k] is Some {
                                    assert(lang_at(nodes, node.children@[k]->0 as int) == Set::<Seq<char>>::empty());
                                }
                            }
                        }
                    }
                    assert(ln =~= Set::<Seq<char>>::empty());
                }
            }
            live.push(l);
            n += 1;
        }
        live
    }

    /// Whether the set holds no string.
    pub fn is_empty(&self) -> (r: bool)
        requires
            self.wf(),
        ensures
            r == (self@ == Set::<Seq<char>>::empty()),
    {
        let live = self.live_nodes();
        !live[self.root]
    }

    /// Whether the root has no children.
    pub fn is_leaf(&self) -> (r: bool)
        requires
            self.wf(),
        ensures
            r == forall|i: int| 0 <= i < 26 ==> self.nodes@[self.root as int].children@[i] is None,
    {
        let node = &self.nodes[self.root];
        let mut i: usize = 0;
        while i < 26
            invariant
                self.wf(),
                *node == self.nodes@[self.root as int],
                i <= 26,
                forall|k: int| 0 <= k < i ==> node.children@[k] is None,
            decreases 26 - i,
        {
            if node.children[i].is_some() {
                return false;
            }
            i += 1;
        }
        true
    }
}

impl Dawg {
    /// Whether some string that the pattern `w` matches is in the set.
    pub fn has_word(&self, w: &Word) -> (r: bool)
        requires
            self.wf(),
        ensures
            r == exists|s: Seq<char>| word_matches(w@, s) && self@.contains(s),
    {
        self.to_trie().has_word(w)
    }

    /// Whether every string that the pattern `w` matches is in the set.
    pub fn has_all_word(&self, w: &Word) -> (r: bool)
        requires
            self.wf(),
        ensures
            r == pattern_set(w@).subset_of(self@),
    {
        self.to_trie().has_all_word(w)
    }

    /// Whether some string that the pattern text matches is in the set.
    pub fn has(&self, pattern: &str) -> (r: bool)
        requires
            self.wf(),
            parse_spec(pattern@) is Ok,
        ensures
            r == exists|s: Seq<char>| word_matches(parse_spec(pattern@)->Ok_0, s) && self@.contains(s),
    {
        self.to_trie().has(pattern)
    }

    /// Whether every string that the pattern text matches is in the set.
    pub fn has_all(&self, pattern: &str) -> (r: bool)
        requires
            self.wf(),
            parse_spec(pattern@) is Ok,
        ensures
            r == pattern_set(parse_spec(pattern@)->Ok_0).subset_of(self@),
    {
        self.to_trie().has_all(pattern)
    }

    /// The strings of the set, each once, in dictionary order.
    pub fn strings(&self) -> (r: Vec<String>)
        requires
            self.wf(),
        ensures
            enumerates(self@, strings_view(r@)),
    {
        self.to_trie().strings()
    }

    /// The number of strings in the set.
    pub fn len(&self) -> (r: usize)
        requires
            self.wf(),
        ensures
            self@.finite(),
            r == self@.len(),
    {
        self.to_trie().len()
    }

    /// The union of two sets, minimized.
    pub fn or(&self, other: &Dawg) -> (r: Dawg)
        requires
            self.wf(),
            other.wf(),
        ensures
            r.wf(),
            r@ == self@.union(other@),
    {
        Dawg::from_trie(&self.to_trie().or(&other.to_trie()))
    }

    /// The intersection of two sets, minimized.
    pub fn and(&self, other: &Dawg) -> (r: Dawg)
        requires
            self.wf(),
            other.wf(),
        ensures
            r.wf(),
            r@ == self@.intersect(other@),
    {
        Dawg::from_trie(&self.to_trie().and(&other.to_trie()))
    }

    /// The strings of this set that are not in `other`, minimized.
    pub fn diff(&self, other: &Dawg) -> (r: Dawg)
        requires
            self.wf(),
            other.wf(),
        ensures
            r.wf(),
            r@ == self@.difference(other@),
    {
        Dawg::from_trie(&self.to_trie().diff(&other.to_trie()))
    }
}

impl Dawg {
    /// Whether the string `text` is in the set: one step down the graph per
    /// symbol.
    pub fn contains(&self, text: &str) -> (r: bool)
        requires
            self.wf(),
        ensures
            r == self@.contains(text@),
    {
        let s = chars_of(text);
        let mut n: usize = self.root;
        let mut k: usize = 0;
        assert(s@.subrange(0, s@.len() as int) =~= s@);
        while k < s.len()
            invariant
                self.wf(),
                s@ == text@,
                k <= s@.len(),
                n < self.nodes@.len(),
                lang_at(self.nodes@, n as int).contains(s@.subrange(k as int, s@.len() as int)) == self@.contains(s@),
            decreases s@.len() - k,
        {
            let ghost rest = s@.subrange(k as int, s@.len() as int);
            proof {
                lemma_accepts_at_slot(self.nodes@, n as int, rest);
                assert(rest.drop_first() =~= s@.subrange(k + 1, s@.len() as int));
            }
            let c = s[k];
            if !('a' <= c && c <= 'z') {
                return false;
            }
            match self.nodes[n].children[into_index(c)] {
                Some(m) => {
                    n = m;
                },
                None => {
                    return false;
                },
            }
            k += 1;
        }
        proof {
            assert(s@.subrange(k as int, s@.len() as int) =~= Seq::<char>::empty());
        }
        self.nodes[n].is_end
    }
}

/// A graph and a tree built from the same pattern hold the same strings, so
/// membership, containment and enumeration give the same answers on both.
pub proof fn law_graph_agrees_with_tree(w: Seq<Set<int>>, d: Dawg, t: Trie)
    requires
        d@ == pattern_set(w),
        t@ == pattern_set(w),
    ensures
        d@ == t@,
        forall|s: Seq<char>| d@.contains(s) == t@.contains(s),
{
}

} // verus!
