//! The binary format of a tree: its nodes in pre-order, one 4-byte
//! big-endian record each (bit 26: a string ends here; bit `i` for `i < 26`:
//! the child for symbol `i` follows), each node followed at once by its
//! children in increasing symbol order.
use vstd::prelude::*;
use crate::letter::{is_symbol, index_of};
use crate::trie::{Trie, slot_view, slot_wf, lemma_accepts_slot};
use crate::pattern::lemma_split_at;

verus! {

broadcast use vstd::std_specs::vec::group_vec_axioms;

/// The flag of a record that says a string ends at the node.
pub const END_BIT: u32 = 0x400_0000;

/// The record bits of a node for its end flag and its first `n` slots.
pub open spec fn mask_upto(t: Trie, n: int) -> u32
    decreases n,
{
    if n <= 0 {
        if t.is_end {
            END_BIT
        } else {
            0
        }
    } else {
        mask_upto(t, n - 1) | if n - 1 < t.children@.len() && t.children@[n - 1] is Some {
            (1u32 << (n - 1) as u32)
        } else {
            0u32
        }
    }
}

/// The record of a node.
pub open spec fn record(t: Trie) -> u32 {
    mask_upto(t, 26)
}

/// The four bytes of `v`, most significant first.
pub open spec fn be_bytes(v: u32) -> Seq<u8> {
    seq![(v >> 24u32) as u8, (v >> 16u32) as u8, (v >> 8u32) as u8, v as u8]
}

/// The value of the four bytes of `b` from position `p`, most significant first.
pub open spec fn be_value(b: Seq<u8>, p: int) -> u32 {
    ((b[p] as u32) << 24u32) | ((b[p + 1] as u32) << 16u32) | ((b[p + 2] as u32) << 8u32) | (b[p + 3] as u32)
}

/// The encoding of a tree.
pub open spec fn encode(t: Trie) -> Seq<u8>
    decreases t, 28int,
{
    be_bytes(record(t)) + encode_children(t, 0)
}

/// The encodings of the children of `t` from slot `i` on.
pub open spec fn encode_children(t: Trie, i: int) -> Seq<u8>
    decreases t, 27 - i,
{
    if i < 0 || i >= 26 || i >= t.children@.len() {
        Seq::empty()
    } else {
        slot_encoding(t, i) + encode_children(t, i + 1)
    }
}

/// The encoding of the child in slot `i` of `t`, if any.
pub open spec fn slot_encoding(t: Trie, i: int) -> Seq<u8>
    decreases t, 0int,
{
    if 0 <= i < t.children@.len() {
        match t.children@[i] {
            Some(c) => encode(*c),
            None => Seq::<u8>::empty(),
        }
    } else {
        Seq::empty()
    }
}

/// The strings of a node with end flag `end` and children sets `kids`.
pub open spec fn node_lang(end: bool, kids: Seq<Set<Seq<char>>>) -> Set<Seq<char>> {
    Set::new(
        |s: Seq<char>|
            if s.len() == 0 {
                end
            } else {
                is_symbol(s[0]) && 0 <= index_of(s[0]) < kids.len() && kids[index_of(s[0])].contains(
                    s.drop_first(),
                )
            },
    )
}

/// The set read from the record at position `pos` and the records after it,
/// with the position after the last one read; `None` where the bytes end
/// before a record that is needed.
pub open spec fn decode_node(b: Seq<u8>, pos: int) -> Option<(Set<Seq<char>>, int)>
    decreases b.len() - pos, 0int,
{
    if pos < 0 || pos + 4 > b.len() {
        None
    } else {
        let v = be_value(b, pos);
        match decode_children(b, pos + 4, v, 0) {
            None => None,
            Some((kids, e)) => Some((node_lang(v & END_BIT != 0, kids), e)),
        }
    }
}

/// The children sets for the slots from `i` on of a record `v`, read from
/// position `p`.
pub open spec fn decode_children(b: Seq<u8>, p: int, v: u32, i: int) -> Option<
    (Seq<Set<Seq<char>>>, int),
>
    decreases b.len() - p, 27 - i,
{
    if i < 0 || i >= 26 || p > b.len() {
        Some((Seq::empty(), p))
    } else if v & (1u32 << i as u32) != 0 {
        match decode_node(b, p) {
            None => None,
            Some((l, q)) => if q <= p || q > b.len() {
                None
            } else {
                match decode_children(b, q, v, i + 1) {
                    None => None,
                    Some((rest, e)) => Some((seq![l] + rest, e)),
                }
            },
        }
    } else {
        match decode_children(b, p, v, i + 1) {
            None => None,
            Some((rest, e)) => Some((seq![Set::<Seq<char>>::empty()] + rest, e)),
        }
    }
}

/// Why bytes could not be read as a tree.
#[derive(Clone, Copy, Debug, PartialEq, Eq, Structural)]
pub enum DecodeError {
    /// The bytes end before a record that the tree needs.
    Truncated,
}

impl Trie {
    fn record_bits(&self) -> (r: u32)
        requires
            self.wf(),
        ensures
            r == record(*self),
    {
        let mut m: u32 = if self.is_end {
            END_BIT
        } else {
            0
        };
        let mut i: usize = 0;
        while i < 26
            invariant
                self.wf(),
                i <= 26,
                m == mask_upto(*self, i as int),
            decreases 26 - i,
        {
            if self.children[i].is_some() {
                m = m | (1u32 << i as u32);
            } else {
                proof {
                    lemma_or_bit(m, 0, 0);
                }
            }
            i += 1;
        }
        m
    }

    fn encode_into(&self, out: &mut Vec<u8>)
        requires
            self.wf(),
        ensures
            final(out)@ == old(out)@ + encode(*self),
        decreases self,
    {
        let m = self.record_bits();
        out.push(#[verifier::truncate] ((m >> 24u32) as u8));
        out.push(#[verifier::truncate] ((m >> 16u32) as u8));
        out.push(#[verifier::truncate] ((m >> 8u32) as u8));
        out.push(#[verifier::truncate] (m as u8));
        assert(out@ =~= old(out)@ + be_bytes(m));
        let mut i: usize = 0;
        while i < 26
            invariant
                self.wf(),
                i <= 26,
                old(out)@ + encode(*self) == out@ + encode_children(*self, i as int),
            decreases 26 - i,
        {
            let ghost before = out@;
            assert(slot_wf(self.children@[i as int]));
            assert(encode_children(*self, i as int) == slot_encoding(*self, i as int) + encode_children(*self, i + 1));
            match &self.children[i] {
                Some(b) => {
                    assert(decreases_to!(self => self.children@[i as int]));
                    (**b).encode_into(out);
                },
                None => {},
            }
            assert(before + encode_children(*self, i as int) =~= out@ + encode_children(*self, i + 1));
            i += 1;
        }
        assert(out@ + encode_children(*self, 26) =~= out@);
    }

    /// The binary encoding of the tree.
    pub fn to_bytes(&self) -> (r: Vec<u8>)
        requires
            self.wf(),
        ensures
            r@ == encode(*self),
    {
        let mut out: Vec<u8> = Vec::new();
        self.encode_into(&mut out);
        assert(out@ =~= encode(*self));
        out
    }
}

fn read_be(b: &Vec<u8>, p: usize) -> (r: u32)
    requires
        p + 4 <= b@.len() <= usize::MAX,
    ensures
        r == be_value(b@, p as int),
{
    ((b[p] as u32) << 24u32) | ((b[p + 1] as u32) << 16u32) | ((b[p + 2] as u32) << 8u32) | (b[p + 3] as u32)
}

fn read_node(b: &Vec<u8>, pos: usize) -> (r: Option<(Trie, usize)>)
    requires
        pos <= b@.len(),
    ensures
        match decode_node(b@, pos as int) {
            None => r is None,
            Some((l, e)) => r matches Some((t, e2)) && t.wf() && t@ == l && e2 == e,
        },
        r matches Some((_, e)) ==> pos + 4 <= e <= b@.len(),
    decreases b@.len() - pos,
{
    let n = b.len();
    if n < 4 || pos > n - 4 {
        return None;
    }
    let v = read_be(b, pos);
    let mut children: Vec<Option<Box<Trie>>> = Vec::new();
    let mut p: usize = pos + 4;
    let mut i: usize = 0;
    while i < 26
        invariant
            n == b@.len(),
            pos + 4 <= p <= n,
            i <= 26,
            children@.len() == i,
            v == be_value(b@, pos as int),
            forall|k: int| 0 <= k < i ==> slot_wf(#[trigger] children@[k]),
            decode_children(b@, pos + 4, v, 0) == match decode_children(b@, p as int, v, i as int) {
                None => None,
                Some((rest, e)) => Some((children@.map_values(|c: Option<Box<Trie>>| slot_view(c)) + rest, e)),
            },
        decreases 26 - i,
    {
        let ghost kids = children@.map_values(|c: Option<Box<Trie>>| slot_view(c));
        if v & (1u32 << i as u32) != 0 {
            match read_node(b, p) {
                None => {
                    return None;
                },
                Some((t, q)) => {
                    let ghost l = t@;
                    children.push(Some(Box::new(t)));
                    proof {
                        let kids2 = children@.map_values(|c: Option<Box<Trie>>| slot_view(c));
                        assert(kids2 =~= kids.push(l));
                        match decode_children(b@, q as int, v, i + 1) {
                            None => {},
                            Some((rest, e)) => {
                                assert(kids + (seq![l] + rest) =~= kids2 + rest);
                            },
                        }
                    }
                    p = q;
                },
            }
        } else {
            children.push(None);
            proof {
                let kids2 = children@.map_values(|c: Option<Box<Trie>>| slot_view(c));
                assert(kids2 =~= kids.push(Set::<Seq<char>>::empty()));
                match decode_children(b@, p as int, v, i + 1) {
                    None => {},
                    Some((rest, e)) => {
                        assert(kids + (seq![Set::<Seq<char>>::empty()] + rest) =~= kids2 + rest);
                    },
                }
            }
        }
        i += 1;
    }
    let t = Trie { is_end: v & END_BIT != 0, children };
    proof {
        let kids = t.children@.map_values(|c: Option<Box<Trie>>| slot_view(c));
        assert(kids + Seq::<Set<Seq<char>>>::empty() =~= kids);
        assert(t.wf()) by {
            assert forall|k: int| 0 <= k < 26 implies match #[trigger] t.children@[k] {
                Some(c) => c.wf(),
                None => true,
            } by {
                assert(slot_wf(t.children@[k]));
            }
        }
        assert forall|s: Seq<char>| t@.contains(s) == node_lang(v & END_BIT != 0, kids).contains(s) by {
            if s.len() > 0 {
                lemma_accepts_slot(t, s);
            }
        }
        assert(t@ =~= node_lang(v & END_BIT != 0, kids));
    }
    Some((t, p))
}

/// Reads a tree from its binary encoding; bytes after the last record of the
/// tree are left unread.
pub fn from_bytes(b: &Vec<u8>) -> (r: Result<Trie, DecodeError>)
    ensures
        match decode_node(b@, 0) {
            None => r is Err,
            Some((l, _)) => r matches Ok(t) && t.wf() && t@ == l,
        },
{
    match read_node(b, 0) {
        None => Err(DecodeError::Truncated),
        Some((t, _)) => Ok(t),
    }
}

/// Splitting a value into its four bytes and joining them gives it back.
proof fn lemma_be_round_trip(v: u32)
    ensures
        ((((v >> 24u32) as u8) as u32) << 24u32) | ((((v >> 16u32) as u8) as u32) << 16u32) | ((((v
            >> 8u32) as u8) as u32) << 8u32) | ((v as u8) as u32) == v,
{
    assert(((((v >> 24u32) as u8) as u32) << 24u32) | ((((v >> 16u32) as u8) as u32) << 16u32) | ((((v
        >> 8u32) as u8) as u32) << 8u32) | ((v as u8) as u32) == v) by (bit_vector);
}

/// Setting bit `k` sets that bit and leaves the others.
proof fn lemma_or_bit(m: u32, k: u32, i: u32)
    requires
        k < 32,
        i < 32,
    ensures
        ((m | (1u32 << k)) & (1u32 << i) != 0) == ((m & (1u32 << i) != 0) || i == k),
        (m | 0u32) == m,
{
    assert(((m | (1u32 << k)) & (1u32 << i) != 0) == ((m & (1u32 << i) != 0) || i == k)) by (bit_vector)
        requires
            k < 32,
            i < 32,
    ;
    assert((m | 0u32) == m) by (bit_vector);
}

/// The end bit is bit 26, apart from the symbol bits.
proof fn lemma_low_bits(i: u32)
    requires
        i < 26,
    ensures
        END_BIT & (1u32 << i) == 0,
        0u32 & (1u32 << i) == 0,
        END_BIT == (1u32 << 26u32),
        END_BIT & END_BIT != 0,
        0u32 & END_BIT == 0,
{
    assert(0x400_0000u32 & (1u32 << i) == 0) by (bit_vector)
        requires
            i < 26,
    ;
    assert(0u32 & (1u32 << i) == 0) by (bit_vector);
    assert(0x400_0000u32 == (1u32 << 26u32)) by (bit_vector);
    assert(0x400_0000u32 & 0x400_0000u32 != 0) by (bit_vector);
    assert(0u32 & 0x400_0000u32 == 0) by (bit_vector);
}

/// The record of a node has bit `i` for each child `i` it has, and the end
/// bit for its end flag.
proof fn lemma_mask_bits(t: Trie, n: int)
    requires
        t.children@.len() == 26,
        0 <= n <= 26,
    ensures
        forall|i: int|
            0 <= i < 26 ==> ((mask_upto(t, n) & (1u32 << i as u32) != 0) == (i < n && #[trigger] t.children@[i] is Some)),
        (mask_upto(t, n) & END_BIT != 0) == t.is_end,
    decreases n,
{
    lemma_low_bits(0);
    if n == 0 {
        assert forall|i: int| 0 <= i < 26 implies ((mask_upto(t, n) & (1u32 << i as u32) != 0) == (i < n
            && #[trigger] t.children@[i] is Some)) by {
            lemma_low_bits(i as u32);
        }
    } else {
        lemma_mask_bits(t, n - 1);
        let m = mask_upto(t, n - 1);
        lemma_or_bit(m, (n - 1) as u32, 26);
        assert forall|i: int| 0 <= i < 26 implies ((mask_upto(t, n) & (1u32 << i as u32) != 0) == (i < n
            && #[trigger] t.children@[i] is Some)) by {
            lemma_or_bit(m, (n - 1) as u32, i as u32);
        }
    }
}

/// The children sets of a node from slot `i` on.
pub open spec fn kids_from(t: Trie, i: int) -> Seq<Set<Seq<char>>> {
    Seq::new((26 - i) as nat, |k: int| slot_view(t.children@[i + k]))
}

/// Reading back the encodings of the children from slot `i` on gives their
/// sets and the position after them.
proof fn lemma_decode_children(b: Seq<u8>, q: int, t: Trie, i: int)
    requires
        t.wf(),
        0 <= i <= 26,
        0 <= q,
        q + encode_children(t, i).len() <= b.len(),
        b.subrange(q, q + encode_children(t, i).len()) == encode_children(t, i),
    ensures
        decode_children(b, q, record(t), i) == Some((kids_from(t, i), q + encode_children(t, i).len())),
    decreases t, 27 - i,
{
    lemma_mask_bits(t, 26);
    if i == 26 {
        assert(kids_from(t, i) =~= Seq::<Set<Seq<char>>>::empty());
    } else {
        let se = slot_encoding(t, i);
        let rest = encode_children(t, i + 1);
        assert(encode_children(t, i) == se + rest);
        lemma_split_at(b, q, se, rest);
        assert(slot_wf(t.children@[i]));
        match t.children@[i] {
            Some(c) => {
                assert(decreases_to!(t => t.children@[i]));
                lemma_decode_encode(b, q, *c);
                lemma_encode_len(*c);
                lemma_decode_children(b, q + se.len(), t, i + 1);
                assert(seq![c@] + kids_from(t, i + 1) =~= kids_from(t, i));
            },
            None => {
                assert(se =~= Seq::<u8>::empty());
                lemma_decode_children(b, q, t, i + 1);
                assert(seq![Set::<Seq<char>>::empty()] + kids_from(t, i + 1) =~= kids_from(t, i));
            },
        }
    }
}

/// An encoding holds at least the node's own record.
proof fn lemma_encode_len(t: Trie)
    ensures
        encode(t).len() >= 4,
{
}

/// Reading back the encoding of a tree, wherever it stands in the bytes,
/// gives the tree's strings and the position just after the encoding.
pub proof fn lemma_decode_encode(b: Seq<u8>, p: int, t: Trie)
    requires
        t.wf(),
        0 <= p,
        p + encode(t).len() <= b.len(),
        b.subrange(p, p + encode(t).len()) == encode(t),
    ensures
        decode_node(b, p) == Some((t@, p + encode(t).len())),
    decreases t, 28int,
{
    let v = record(t);
    let ec = encode_children(t, 0);
    lemma_split_at(b, p, be_bytes(v), ec);
    assert(b.subrange(p, p + 4)[0] == b[p]);
    assert(b.subrange(p, p + 4)[1] == b[p + 1]);
    assert(b.subrange(p, p + 4)[2] == b[p + 2]);
    assert(b.subrange(p, p + 4)[3] == b[p + 3]);
    lemma_be_round_trip(v);
    assert(be_value(b, p) == v);
    lemma_mask_bits(t, 26);
    lemma_decode_children(b, p + 4, t, 0);
    let kids = kids_from(t, 0);
    assert forall|s: Seq<char>| node_lang(v & END_BIT != 0, kids).contains(s) == t@.contains(s) by {
        if s.len() > 0 {
            lemma_accepts_slot(t, s);
        }
    }
    assert(node_lang(v & END_BIT != 0, kids) =~= t@);
}

/// Saving a tree and loading the bytes back gives a tree of the same strings.
pub proof fn law_save_load(t: Trie)
    requires
        t.wf(),
    ensures
        decode_node(encode(t), 0) == Some((t@, encode(t).len() as int)),
{
    assert(encode(t).subrange(0, encode(t).len() as int) =~= encode(t));
    lemma_decode_encode(encode(t), 0, t);
}

} // verus!
