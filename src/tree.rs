//! The Huffman tree, what it means, and how it is laid out in a stream:
//! each leaf's code is the path to it (0 for left, 1 for right), and the
//! tree itself is written in preorder, a leaf as `1` and its byte, an
//! internal node as `0` and its two children.

use crate::bits::{byte_bits, byte_of, lemma_byte_of_bits};
use vstd::prelude::*;

verus! {

/// A node of a Huffman tree. Each internal node owns its two children.
#[derive(Debug)]
pub enum HuffmanNode {
    Leaf(u8),
    Internal(Box<HuffmanNode>, Box<HuffmanNode>),
}

/// The byte values at the leaves of `t`.
pub open spec fn leaf_set(t: HuffmanNode) -> Set<u8>
    decreases t,
{
    match t {
        HuffmanNode::Leaf(b) => set![b],
        HuffmanNode::Internal(l, r) => leaf_set(*l) + leaf_set(*r),
    }
}

/// No byte value sits at two leaves of `t`.
pub open spec fn distinct_leaves(t: HuffmanNode) -> bool
    decreases t,
{
    match t {
        HuffmanNode::Leaf(_) => true,
        HuffmanNode::Internal(l, r) => distinct_leaves(*l) && distinct_leaves(*r) && leaf_set(
            *l,
        ).disjoint(leaf_set(*r)),
    }
}

/// The length of the longest path from `t` down to a leaf.
pub open spec fn height(t: HuffmanNode) -> nat
    decreases t,
{
    match t {
        HuffmanNode::Leaf(_) => 0,
        HuffmanNode::Internal(l, r) => 1 + if height(*l) >= height(*r) {
            height(*l)
        } else {
            height(*r)
        },
    }
}

/// The path from `t` to a leaf holding `b` (left subtree first): `false` for
/// each step left, `true` for each step right.
pub open spec fn path_to(t: HuffmanNode, b: u8) -> Option<Seq<bool>>
    decreases t,
{
    match t {
        HuffmanNode::Leaf(x) => if x == b {
            Some(Seq::empty())
        } else {
            None
        },
        HuffmanNode::Internal(l, r) => match path_to(*l, b) {
            Some(p) => Some(seq![false] + p),
            None => match path_to(*r, b) {
                Some(p) => Some(seq![true] + p),
                None => None,
            },
        },
    }
}

/// The code of byte `b` in the tree `t`: the path to its leaf, except that a
/// tree of a single leaf gives its byte the one-bit code `0`.
pub open spec fn code(t: HuffmanNode, b: u8) -> Seq<bool> {
    match t {
        HuffmanNode::Leaf(_) => seq![false],
        _ => match path_to(t, b) {
            Some(p) => p,
            None => Seq::empty(),
        },
    }
}

/// The length of the longest code in `t`.
pub open spec fn max_code_len(t: HuffmanNode) -> nat {
    match t {
        HuffmanNode::Leaf(_) => 1,
        _ => height(t),
    }
}

/// `a` is a prefix of `b`.
pub open spec fn is_prefix(a: Seq<bool>, b: Seq<bool>) -> bool {
    a.len() <= b.len() && b.take(a.len() as int) == a
}

/// The preorder layout of `t`: `1` and the eight bits of the byte for a
/// leaf, `0` and the layouts of the left and the right child for an
/// internal node.
pub open spec fn tree_bits(t: HuffmanNode) -> Seq<bool>
    decreases t,
{
    match t {
        HuffmanNode::Leaf(b) => seq![true] + byte_bits(b),
        HuffmanNode::Internal(l, r) => seq![false] + tree_bits(*l) + tree_bits(*r),
    }
}

/// Reads a tree laid out as by `tree_bits` from `bits`, starting at `pos`:
/// the tree and the position just after it, or `None` where the bits run
/// out first.
pub open spec fn parse_tree(bits: Seq<bool>, pos: int) -> Option<(HuffmanNode, int)>
    decreases bits.len() - pos,
{
    if pos < 0 || pos >= bits.len() {
        None
    } else if bits[pos] {
        if pos + 9 <= bits.len() {
            Some((HuffmanNode::Leaf(byte_of(bits.subrange(pos + 1, pos + 9))), pos + 9))
        } else {
            None
        }
    } else {
        match parse_tree(bits, pos + 1) {
            None => None,
            Some((l, p1)) => if pos < p1 <= bits.len() {
                match parse_tree(bits, p1) {
                    None => None,
                    Some((r, p2)) => Some((HuffmanNode::Internal(Box::new(l), Box::new(r)), p2)),
                }
            } else {
                None
            },
        }
    }
}

/// The bytes that walking `bits` through the tree `root` gives, starting
/// at the node `cur`: each bit moves to the left (`false`) or right (`true`)
/// child; reaching a leaf yields its byte and goes back to the root. In a
/// tree of a single leaf every bit yields that leaf's byte. Bits left over
/// part-way down the tree yield nothing.
pub open spec fn decode_walk(root: HuffmanNode, cur: HuffmanNode, bits: Seq<bool>) -> Seq<u8>
    decreases bits.len(),
{
    if bits.len() == 0 {
        Seq::empty()
    } else {
        let next = match cur {
            HuffmanNode::Leaf(_) => cur,
            HuffmanNode::Internal(l, r) => if bits[0] {
                *r
            } else {
                *l
            },
        };
        match next {
            HuffmanNode::Leaf(b) => seq![b] + decode_walk(root, root, bits.drop_first()),
            _ => decode_walk(root, next, bits.drop_first()),
        }
    }
}

/// The codes of the bytes of `s`, one after the other.
pub open spec fn payload(t: HuffmanNode, s: Seq<u8>) -> Seq<bool>
    decreases s.len(),
{
    if s.len() == 0 {
        Seq::empty()
    } else {
        code(t, s[0]) + payload(t, s.drop_first())
    }
}

pub proof fn lemma_leaf_set_nonempty(t: HuffmanNode)
    ensures
        exists|b: u8| leaf_set(t).contains(b),
    decreases t,
{
    match t {
        HuffmanNode::Leaf(x) => {
            assert(leaf_set(t).contains(x));
        },
        HuffmanNode::Internal(l, r) => {
            lemma_leaf_set_nonempty(*l);
            let b = choose|b: u8| leaf_set(*l).contains(b);
            assert(leaf_set(t).contains(b));
        },
    }
}

pub proof fn lemma_path_to(t: HuffmanNode, b: u8)
    ensures
        path_to(t, b) is Some <==> leaf_set(t).contains(b),
        path_to(t, b) matches Some(p) ==> p.len() <= height(t),
    decreases t,
{
    match t {
        HuffmanNode::Leaf(_) => {},
        HuffmanNode::Internal(l, r) => {
            lemma_path_to(*l, b);
            lemma_path_to(*r, b);
        },
    }
}

/// Every code in `t` is at most `max_code_len(t)` bits long.
pub proof fn lemma_code_len(t: HuffmanNode, b: u8)
    requires
        leaf_set(t).contains(b),
    ensures
        code(t, b).len() <= max_code_len(t),
        code(t, b).len() >= 1,
{
    lemma_path_to(t, b);
    if let HuffmanNode::Internal(l, r) = t {
        lemma_path_to(*l, b);
    }
}

pub proof fn lemma_payload_push(t: HuffmanNode, s: Seq<u8>, b: u8)
    ensures
        payload(t, s.push(b)) == payload(t, s) + code(t, b),
    decreases s.len(),
{
    if s.len() == 0 {
        assert(s.push(b).drop_first() =~= Seq::<u8>::empty());
        assert(payload(t, Seq::<u8>::empty()) == Seq::<bool>::empty());
        assert(payload(t, s.push(b)) =~= code(t, b));
    } else {
        assert(s.push(b).drop_first() =~= s.drop_first().push(b));
        lemma_payload_push(t, s.drop_first(), b);
        assert(payload(t, s.push(b)) =~= payload(t, s) + code(t, b));
    }
}

pub proof fn lemma_parse_advances(bits: Seq<bool>, pos: int)
    ensures
        parse_tree(bits, pos) matches Some((_, p)) ==> pos < p <= bits.len(),
    decreases bits.len() - pos,
{
    if 0 <= pos < bits.len() && !bits[pos] {
        lemma_parse_advances(bits, pos + 1);
        if let Some((_, p1)) = parse_tree(bits, pos + 1) {
            if pos < p1 <= bits.len() {
                lemma_parse_advances(bits, p1);
            }
        }
    }
}

proof fn lemma_subrange_split(bits: Seq<bool>, pos: int, a: Seq<bool>, b: Seq<bool>)
    requires
        0 <= pos,
        pos + a.len() + b.len() <= bits.len(),
        bits.subrange(pos, pos + a.len() + b.len()) == a + b,
    ensures
        bits.subrange(pos, pos + a.len()) == a,
        bits.subrange(pos + a.len(), pos + a.len() + b.len()) == b,
{
    let whole = bits.subrange(pos, pos + a.len() + b.len());
    assert forall|k: int| 0 <= k < a.len() implies bits.subrange(pos, pos + a.len())[k] == a[k] by {
        assert(whole[k] == (a + b)[k]);
    }
    assert forall|k: int| 0 <= k < b.len() implies bits.subrange(
        pos + a.len(),
        pos + a.len() + b.len(),
    )[k] == b[k] by {
        assert(whole[a.len() + k] == (a + b)[a.len() + k]);
    }
    assert(bits.subrange(pos, pos + a.len()) =~= a);
    assert(bits.subrange(pos + a.len(), pos + a.len() + b.len()) =~= b);
}

/// Reading a tree back from its own layout gives the tree, and stops
/// right after the layout.
pub proof fn lemma_parse_tree_bits(t: HuffmanNode, bits: Seq<bool>, pos: int)
    requires
        0 <= pos,
        pos + tree_bits(t).len() <= bits.len(),
        bits.subrange(pos, pos + tree_bits(t).len()) == tree_bits(t),
    ensures
        parse_tree(bits, pos) == Some((t, pos + tree_bits(t).len())),
    decreases t,
{
    let tb = tree_bits(t);
    assert(bits[pos] == bits.subrange(pos, pos + tb.len())[0]);
    match t {
        HuffmanNode::Leaf(b) => {
            lemma_subrange_split(bits, pos, seq![true], byte_bits(b));
            lemma_byte_of_bits(b);
        },
        HuffmanNode::Internal(l, r) => {
            let tl = tree_bits(*l);
            let tr = tree_bits(*r);
            assert(tb =~= seq![false] + (tl + tr));
            lemma_subrange_split(bits, pos, seq![false], tl + tr);
            lemma_subrange_split(bits, pos + 1, tl, tr);
            lemma_parse_tree_bits(*l, bits, pos + 1);
            let p1 = pos + 1 + tl.len();
            lemma_parse_tree_bits(*r, bits, p1);
        },
    }
}

proof fn lemma_walk_path(root: HuffmanNode, node: HuffmanNode, b: u8, rest: Seq<bool>)
    requires
        node is Internal,
        leaf_set(node).contains(b),
    ensures
        path_to(node, b) is Some,
        decode_walk(root, node, path_to(node, b).unwrap() + rest) == seq![b] + decode_walk(
            root,
            root,
            rest,
        ),
    decreases node,
{
    lemma_path_to(node, b);
    if let HuffmanNode::Internal(l, r) = node {
        lemma_path_to(*l, b);
        lemma_path_to(*r, b);
        let p = path_to(node, b).unwrap();
        let bits = p + rest;
        let (child, sub) = if leaf_set(*l).contains(b) {
            (*l, path_to(*l, b).unwrap())
        } else {
            (*r, path_to(*r, b).unwrap())
        };
        assert(bits.drop_first() =~= sub + rest);
        match child {
            HuffmanNode::Leaf(x) => {
                assert(sub.len() == 0);
                assert(sub + rest =~= rest);
            },
            HuffmanNode::Internal(_, _) => {
                lemma_walk_path(root, child, b, rest);
            },
        }
    }
}

/// Walking the code of `b` from the root yields `b` and returns to the root.
pub proof fn lemma_walk_code(t: HuffmanNode, b: u8, rest: Seq<bool>)
    requires
        leaf_set(t).contains(b),
    ensures
        decode_walk(t, t, code(t, b) + rest) == seq![b] + decode_walk(t, t, rest),
{
    match t {
        HuffmanNode::Leaf(x) => {
            assert((code(t, b) + rest).drop_first() =~= rest);
        },
        HuffmanNode::Internal(_, _) => {
            lemma_walk_path(t, t, b, rest);
        },
    }
}

/// Walking the codes of the bytes of `s` gives back `s`.
pub proof fn lemma_walk_payload(t: HuffmanNode, s: Seq<u8>)
    requires
        forall|i: int| 0 <= i < s.len() ==> leaf_set(t).contains(#[trigger] s[i]),
    ensures
        decode_walk(t, t, payload(t, s)) == s,
    decreases s.len(),
{
    if s.len() > 0 {
        let rest = s.drop_first();
        assert forall|i: int| 0 <= i < rest.len() implies leaf_set(t).contains(#[trigger] rest[i]) by {
            assert(rest[i] == s[i + 1]);
        }
        lemma_walk_payload(t, rest);
        lemma_walk_code(t, s[0], payload(t, rest));
        assert(seq![s[0]] + rest =~= s);
    }
}

proof fn lemma_paths_prefix_free(t: HuffmanNode, b1: u8, b2: u8)
    requires
        distinct_leaves(t),
        b1 != b2,
        leaf_set(t).contains(b1),
        leaf_set(t).contains(b2),
    ensures
        !is_prefix(path_to(t, b1).unwrap(), path_to(t, b2).unwrap()),
    decreases t,
{
    lemma_path_to(t, b1);
    lemma_path_to(t, b2);
    if let HuffmanNode::Internal(l, r) = t {
        lemma_path_to(*l, b1);
        lemma_path_to(*l, b2);
        lemma_path_to(*r, b1);
        lemma_path_to(*r, b2);
        let p1 = path_to(t, b1).unwrap();
        let p2 = path_to(t, b2).unwrap();
        let in_l1 = leaf_set(*l).contains(b1);
        let in_l2 = leaf_set(*l).contains(b2);
        if in_l1 == in_l2 {
            let c = if in_l1 {
                *l
            } else {
                *r
            };
            lemma_paths_prefix_free(c, b1, b2);
            let q1 = path_to(c, b1).unwrap();
            let q2 = path_to(c, b2).unwrap();
            if is_prefix(p1, p2) {
                assert(p2.take(p1.len() as int).drop_first() =~= q2.take(q1.len() as int));
                assert(p1.drop_first() =~= q1);
            }
        } else {
            if is_prefix(p1, p2) {
                assert(p2.take(p1.len() as int)[0] == p1[0]);
            }
        }
    }
}

/// In a tree where each byte sits at one leaf at most, no byte's code is a
/// prefix of another byte's code.
pub proof fn lemma_prefix_free(t: HuffmanNode, b1: u8, b2: u8)
    requires
        distinct_leaves(t),
        b1 != b2,
        leaf_set(t).contains(b1),
        leaf_set(t).contains(b2),
    ensures
        !is_prefix(code(t, b1), code(t, b2)),
{
    match t {
        HuffmanNode::Leaf(x) => {
            assert(leaf_set(t) == set![x]);
            assert(b1 == x);
            assert(b2 == x);
        },
        HuffmanNode::Internal(_, _) => {
            lemma_paths_prefix_free(t, b1, b2);
            lemma_path_to(t, b1);
            lemma_path_to(t, b2);
            assert(code(t, b1) == path_to(t, b1).unwrap());
            assert(code(t, b2) == path_to(t, b2).unwrap());
        },
    }
}

} // verus!
