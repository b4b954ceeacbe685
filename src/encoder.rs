//! Encoding: count the bytes, build the tree by repeatedly merging the two
//! lightest nodes, derive each byte's code, then write the tree and the
//! codes of the input into one stream.

use crate::bits::{stream_of, Bits, BitsWriter};
use crate::error::HuffmanError;
use crate::tree::{
    code, distinct_leaves, height, lemma_code_len, lemma_path_to, lemma_payload_push, leaf_set,
    max_code_len, path_to, payload, tree_bits, HuffmanNode,
};
use vstd::prelude::*;

verus! {

/// How many times `b` occurs in `s`.
pub open spec fn count(s: Seq<u8>, b: u8) -> nat
    decreases s.len(),
{
    if s.len() == 0 {
        0
    } else {
        count(s.drop_last(), b) + if s.last() == b {
            1nat
        } else {
            0nat
        }
    }
}

/// The number of occurrences of each byte value in `s`.
pub open spec fn frequency_table(s: Seq<u8>) -> Seq<usize> {
    Seq::new(256, |b: int| count(s, b as u8) as usize)
}

/// The sum of the entries of `f`.
pub open spec fn sum(f: Seq<usize>) -> nat
    decreases f.len(),
{
    if f.len() == 0 {
        0
    } else {
        (sum(f.drop_last()) + f.last()) as nat
    }
}

proof fn lemma_sum_update(f: Seq<usize>, i: int, v: usize)
    requires
        0 <= i < f.len(),
    ensures
        sum(f.update(i, v)) + f[i] == sum(f) + v,
    decreases f.len(),
{
    if i < f.len() - 1 {
        assert(f.update(i, v).drop_last() =~= f.drop_last().update(i, v));
        lemma_sum_update(f.drop_last(), i, v);
    } else {
        assert(f.update(i, v).drop_last() =~= f.drop_last());
    }
}

proof fn lemma_sum_zeros(f: Seq<usize>)
    requires
        forall|j: int| 0 <= j < f.len() ==> f[j] == 0,
    ensures
        sum(f) == 0,
    decreases f.len(),
{
    if f.len() > 0 {
        lemma_sum_zeros(f.drop_last());
    }
}

/// Counts the occurrences of each byte value in `input`, in one pass.
pub fn huffman_frequencies(input: &[u8]) -> (r: Vec<usize>)
    ensures
        r@ == frequency_table(input@),
        sum(r@) == input@.len(),
{
    let mut frequencies: Vec<usize> = vec![0usize; 256];
    proof {
        lemma_sum_zeros(frequencies@);
    }
    let mut i: usize = 0;
    while i < input.len()
        invariant
            i <= input@.len(),
            frequencies@.len() == 256,
            forall|b: int| 0 <= b < 256 ==> frequencies@[b] == count(#[trigger] input@.take(i as int), b as u8),
            forall|b: int| 0 <= b < 256 ==> frequencies@[b] <= i,
            sum(frequencies@) == i,
        decreases input@.len() - i,
    {
        let b = input[i] as usize;
        proof {
            lemma_sum_update(frequencies@, b as int, (frequencies@[b as int] + 1) as usize);
            assert(input@.take(i + 1).drop_last() =~= input@.take(i as int));
        }
        frequencies[b] = frequencies[b] + 1;
        i = i + 1;
    }
    assert(input@.take(i as int) =~= input@);
    assert(frequencies@ =~= frequency_table(input@));
    frequencies
}

/// A node waiting to be merged, with its frequency.
pub type Weighted = (usize, HuffmanNode);

/// One leaf for each byte value below `n` that occurs, in increasing order
/// of byte value.
pub open spec fn seed(freq: Seq<usize>, n: nat) -> Seq<Weighted>
    decreases n,
{
    if n == 0 {
        Seq::empty()
    } else {
        let prev = seed(freq, (n - 1) as nat);
        if freq[n - 1] > 0 {
            prev.push((freq[n - 1], HuffmanNode::Leaf((n - 1) as u8)))
        } else {
            prev
        }
    }
}

/// The first position among the first `n` nodes of `f` with the least
/// frequency.
pub open spec fn first_min(f: Seq<Weighted>, n: nat) -> int
    decreases n,
{
    if n <= 1 {
        0
    } else {
        let m = first_min(f, (n - 1) as nat);
        if f[n - 1].0 < f[m].0 {
            n - 1
        } else {
            m
        }
    }
}

/// One merge: the lightest node (the first of them, on a tie) and then the
/// lightest of the rest leave, and a node that has them as its left and right
/// child, weighing both together, joins at the end.
pub open spec fn merge_step(f: Seq<Weighted>) -> Seq<Weighted> {
    let i = first_min(f, f.len());
    let a = f[i];
    let g = f.remove(i);
    let k = first_min(g, g.len());
    let b = g[k];
    g.remove(k).push(((a.0 + b.0) as usize, HuffmanNode::Internal(Box::new(a.1), Box::new(b.1))))
}

/// The tree left after merging the nodes of `f` (`steps` merges at most).
pub open spec fn build(f: Seq<Weighted>, steps: nat) -> Option<HuffmanNode>
    decreases steps,
{
    if f.len() == 0 {
        None
    } else if f.len() == 1 || steps == 0 {
        Some(f[0].1)
    } else {
        build(merge_step(f), (steps - 1) as nat)
    }
}

/// The Huffman tree of a frequency table: none where every frequency is zero.
pub open spec fn huffman(freq: Seq<usize>) -> Option<HuffmanNode> {
    let f = seed(freq, 256);
    build(f, f.len())
}

/// The sum of the frequencies in `f`.
pub open spec fn total(f: Seq<Weighted>) -> nat
    decreases f.len(),
{
    if f.len() == 0 {
        0
    } else {
        (total(f.drop_last()) + f.last().0) as nat
    }
}

/// The byte values at the leaves of the trees of `f`.
pub open spec fn forest_leaves(f: Seq<Weighted>) -> Set<u8> {
    Set::new(|b: u8| exists|i: int| 0 <= i < f.len() && #[trigger] leaf_set(f[i].1).contains(b))
}

/// Each byte value sits at one leaf of the trees of `f` at most.
pub open spec fn forest_ok(f: Seq<Weighted>) -> bool {
    &&& forall|i: int| 0 <= i < f.len() ==> distinct_leaves(#[trigger] f[i].1)
    &&& forall|i: int, j: int|
        0 <= i < f.len() && 0 <= j < f.len() && i != j ==> #[trigger] leaf_set(f[i].1).disjoint(
            #[trigger] leaf_set(f[j].1),
        )
}

proof fn lemma_first_min(f: Seq<Weighted>, n: nat)
    requires
        1 <= n <= f.len(),
    ensures
        0 <= first_min(f, n) < n,
    decreases n,
{
    if n > 1 {
        lemma_first_min(f, (n - 1) as nat);
    }
}

proof fn lemma_total_remove(f: Seq<Weighted>, i: int)
    requires
        0 <= i < f.len(),
    ensures
        total(f.remove(i)) + f[i].0 == total(f),
    decreases f.len(),
{
    if i == f.len() - 1 {
        assert(f.remove(i) =~= f.drop_last());
    } else {
        assert(f.remove(i).drop_last() =~= f.drop_last().remove(i));
        lemma_total_remove(f.drop_last(), i);
    }
}

proof fn lemma_forest_remove(f: Seq<Weighted>, i: int)
    requires
        forest_ok(f),
        0 <= i < f.len(),
    ensures
        forest_ok(f.remove(i)),
        distinct_leaves(f[i].1),
        forest_leaves(f) == forest_leaves(f.remove(i)) + leaf_set(f[i].1),
        forest_leaves(f.remove(i)).disjoint(leaf_set(f[i].1)),
{
    let g = f.remove(i);
    assert forall|x: int| 0 <= x < g.len() implies g[x] == f[if x < i { x } else { x + 1 }] by {}
    assert forall|x: int, y: int|
        0 <= x < g.len() && 0 <= y < g.len() && x != y implies #[trigger] leaf_set(g[x].1).disjoint(
        #[trigger] leaf_set(g[y].1),
    ) by {
        let fx = if x < i { x } else { x + 1 };
        let fy = if y < i { y } else { y + 1 };
        assert(leaf_set(f[fx].1).disjoint(leaf_set(f[fy].1)));
    }
    assert forall|b: u8| forest_leaves(f).contains(b) implies (forest_leaves(g) + leaf_set(
        f[i].1,
    )).contains(b) by {
        let x = choose|x: int| 0 <= x < f.len() && #[trigger] leaf_set(f[x].1).contains(b);
        if x < i {
            assert(leaf_set(g[x].1).contains(b));
        } else if x > i {
            assert(leaf_set(g[x - 1].1).contains(b));
        }
    }
    assert forall|b: u8| (forest_leaves(g) + leaf_set(f[i].1)).contains(b) implies forest_leaves(
        f,
    ).contains(b) by {
        if forest_leaves(g).contains(b) {
            let x = choose|x: int| 0 <= x < g.len() && #[trigger] leaf_set(g[x].1).contains(b);
            let fx = if x < i { x } else { x + 1 };
            assert(leaf_set(f[fx].1).contains(b));
        } else {
            assert(leaf_set(f[i].1).contains(b));
        }
    }
    assert(forest_leaves(f) =~= forest_leaves(g) + leaf_set(f[i].1));
    assert forall|b: u8| forest_leaves(g).contains(b) implies !leaf_set(f[i].1).contains(b) by {
        let x = choose|x: int| 0 <= x < g.len() && #[trigger] leaf_set(g[x].1).contains(b);
        let fx = if x < i { x } else { x + 1 };
        assert(leaf_set(f[fx].1).disjoint(leaf_set(f[i].1)));
    }
}

proof fn lemma_forest_push(g: Seq<Weighted>, w: Weighted)
    requires
        forest_ok(g),
        distinct_leaves(w.1),
        forest_leaves(g).disjoint(leaf_set(w.1)),
    ensures
        forest_ok(g.push(w)),
        forest_leaves(g.push(w)) == forest_leaves(g) + leaf_set(w.1),
{
    let h = g.push(w);
    assert forall|x: int, y: int|
        0 <= x < h.len() && 0 <= y < h.len() && x != y implies #[trigger] leaf_set(h[x].1).disjoint(
        #[trigger] leaf_set(h[y].1),
    ) by {
        if x == g.len() {
            assert forall|b: u8| leaf_set(h[y].1).contains(b) implies !leaf_set(w.1).contains(b) by {
                assert(forest_leaves(g).contains(b));
            }
        } else if y == g.len() {
            assert forall|b: u8| leaf_set(h[x].1).contains(b) implies !leaf_set(w.1).contains(b) by {
                assert(forest_leaves(g).contains(b));
            }
        }
    }
    assert forall|b: u8| forest_leaves(h).contains(b) implies (forest_leaves(g) + leaf_set(
        w.1,
    )).contains(b) by {
        let x = choose|x: int| 0 <= x < h.len() && #[trigger] leaf_set(h[x].1).contains(b);
        if x < g.len() {
            assert(leaf_set(g[x].1).contains(b));
        }
    }
    assert forall|b: u8| (forest_leaves(g) + leaf_set(w.1)).contains(b) implies forest_leaves(
        h,
    ).contains(b) by {
        if forest_leaves(g).contains(b) {
            let x = choose|x: int| 0 <= x < g.len() && #[trigger] leaf_set(g[x].1).contains(b);
            assert(leaf_set(h[x].1).contains(b));
        } else {
            assert(leaf_set(h[g.len() as int].1).contains(b));
        }
    }
    assert(forest_leaves(h) =~= forest_leaves(g) + leaf_set(w.1));
}

proof fn lemma_merge_step(f: Seq<Weighted>)
    requires
        forest_ok(f),
        f.len() >= 2,
    ensures
        merge_step(f).len() == f.len() - 1,
        forest_ok(merge_step(f)),
        forest_leaves(merge_step(f)) == forest_leaves(f),
{
    let i = first_min(f, f.len());
    lemma_first_min(f, f.len());
    let a = f[i];
    let g = f.remove(i);
    lemma_forest_remove(f, i);
    let k = first_min(g, g.len());
    lemma_first_min(g, g.len());
    let b = g[k];
    let h = g.remove(k);
    lemma_forest_remove(g, k);
    let node = HuffmanNode::Internal(Box::new(a.1), Box::new(b.1));
    assert(leaf_set(node) == leaf_set(a.1) + leaf_set(b.1));
    assert(leaf_set(b.1).disjoint(leaf_set(a.1))) by {
        assert forall|x: u8| leaf_set(b.1).contains(x) implies !leaf_set(a.1).contains(x) by {
            assert(forest_leaves(g).contains(x));
        }
    }
    assert(forest_leaves(h).disjoint(leaf_set(node))) by {
        assert forall|x: u8| forest_leaves(h).contains(x) implies !leaf_set(node).contains(x) by {
            assert(forest_leaves(g).contains(x));
        }
    }
    lemma_forest_push(h, ((a.0 + b.0) as usize, node));
    assert(forest_leaves(merge_step(f)) =~= forest_leaves(f));
}

/// Merging a forest down to one tree keeps every leaf and keeps the leaves
/// distinct.
proof fn lemma_build(f: Seq<Weighted>, steps: nat)
    requires
        forest_ok(f),
        f.len() >= 1,
        steps + 1 >= f.len(),
    ensures
        build(f, steps) matches Some(t) && leaf_set(t) == forest_leaves(f) && distinct_leaves(t),
    decreases steps,
{
    if f.len() == 1 {
        assert(forest_leaves(f) =~= leaf_set(f[0].1)) by {
            assert forall|b: u8| leaf_set(f[0].1).contains(b) implies forest_leaves(f).contains(b) by {}
        }
    } else {
        lemma_merge_step(f);
        lemma_build(merge_step(f), (steps - 1) as nat);
    }
}

proof fn lemma_seed(freq: Seq<usize>, n: nat)
    requires
        n <= 256,
        freq.len() == 256,
    ensures
        forest_ok(seed(freq, n)),
        forest_leaves(seed(freq, n)) == Set::new(|b: u8| b < n && freq[b as int] > 0),
        total(seed(freq, n)) == sum(freq.take(n as int)),
    decreases n,
{
    let want = Set::new(|b: u8| b < n && freq[b as int] > 0);
    if n == 0 {
        assert(forest_leaves(seed(freq, n)) =~= want);
        assert(freq.take(0) =~= Seq::<usize>::empty());
    } else {
        let m = (n - 1) as nat;
        lemma_seed(freq, m);
        let prev = seed(freq, m);
        assert(freq.take(n as int).drop_last() =~= freq.take(m as int));
        if freq[m as int] > 0 {
            let w = (freq[m as int], HuffmanNode::Leaf(m as u8));
            assert(leaf_set(w.1) == set![m as u8]);
            assert(forest_leaves(prev).disjoint(leaf_set(w.1)));
            lemma_forest_push(prev, w);
            assert(seed(freq, n).drop_last() =~= prev);
            assert(forest_leaves(seed(freq, n)) =~= want);
        } else {
            assert(forest_leaves(seed(freq, n)) =~= want);
        }
    }
}

/// The Huffman tree of a frequency table has a leaf for exactly the byte
/// values that occur, and for each only one.
pub proof fn lemma_huffman_leaves(freq: Seq<usize>)
    requires
        freq.len() == 256,
    ensures
        huffman(freq) is None <==> forall|b: int| 0 <= b < 256 ==> freq[b] == 0,
        huffman(freq) matches Some(t) ==> leaf_set(t) == Set::new(|b: u8| freq[b as int] > 0)
            && distinct_leaves(t),
{
    let f = seed(freq, 256);
    lemma_seed(freq, 256);
    let want = Set::new(|b: u8| freq[b as int] > 0);
    assert(forest_leaves(f) =~= want);
    if f.len() >= 1 {
        lemma_build(f, f.len());
        crate::tree::lemma_leaf_set_nonempty(f[0].1);
        let b = choose|b: u8| leaf_set(f[0].1).contains(b);
        assert(forest_leaves(f).contains(b));
        assert(freq[b as int] > 0);
    } else {
        assert forall|b: int| 0 <= b < 256 implies freq[b] == 0 by {
            if freq[b] > 0 {
                assert(want.contains(b as u8));
            }
        }
    }
}

/// The position of the first node with the least frequency.
fn min_index(nodes: &Vec<Weighted>) -> (r: usize)
    requires
        nodes@.len() >= 1,
    ensures
        r == first_min(nodes@, nodes@.len()),
        r < nodes@.len(),
{
    let mut m: usize = 0;
    let mut i: usize = 1;
    while i < nodes.len()
        invariant
            1 <= i <= nodes@.len(),
            m == first_min(nodes@, i as nat),
            m < i,
        decreases nodes@.len() - i,
    {
        if nodes[i].0 < nodes[m].0 {
            m = i;
        }
        i = i + 1;
    }
    m
}

/// Builds the Huffman tree of a frequency table (indexed by byte value):
/// one leaf per byte value that occurs, then the two lightest nodes merged
/// until one is left. `None` where no byte value occurs.
pub fn huffman_tree(frequencies: Vec<usize>) -> (r: Option<HuffmanNode>)
    requires
        frequencies@.len() == 256,
        sum(frequencies@) <= usize::MAX,
    ensures
        r == huffman(frequencies@),
        r is None <==> forall|b: int| 0 <= b < 256 ==> frequencies@[b] == 0,
        r matches Some(t) ==> leaf_set(t) == Set::new(|b: u8| frequencies@[b as int] > 0)
            && distinct_leaves(t),
{
    proof {
        lemma_huffman_leaves(frequencies@);
        lemma_seed(frequencies@, 256);
        assert(frequencies@.take(256) =~= frequencies@);
    }
    let ghost start = seed(frequencies@, 256);
    let mut nodes: Vec<Weighted> = Vec::new();
    let mut b: usize = 0;
    while b < 256
        invariant
            b <= 256,
            frequencies@.len() == 256,
            nodes@ == seed(frequencies@, b as nat),
        decreases 256 - b,
    {
        if frequencies[b] > 0 {
            nodes.push((frequencies[b], HuffmanNode::Leaf(b as u8)));
        }
        b = b + 1;
    }
    while nodes.len() > 1
        invariant
            build(nodes@, nodes@.len()) == build(start, start.len()),
            total(nodes@) <= usize::MAX,
        decreases nodes@.len(),
    {
        let ghost before = nodes@;
        let i = min_index(&nodes);
        let a = nodes.remove(i);
        let k = min_index(&nodes);
        let c = nodes.remove(k);
        proof {
            lemma_total_remove(before, i as int);
            lemma_total_remove(before.remove(i as int), k as int);
        }
        nodes.push((a.0 + c.0, HuffmanNode::Internal(Box::new(a.1), Box::new(c.1))));
        proof {
            assert(nodes@ =~= merge_step(before));
            assert(nodes@.drop_last() =~= before.remove(i as int).remove(k as int));
        }
    }
    if nodes.len() == 0 {
        None
    } else {
        let last = nodes.pop();
        match last {
            Some(w) => Some(w.1),
            None => None,
        }
    }
}

/// The code of each byte value, indexed by byte value.
pub struct HuffmanPrefixCodeTable(Vec<Bits>);

impl HuffmanPrefixCodeTable {
    pub closed spec fn wf(&self) -> bool {
        &&& self.0@.len() == 256
        &&& forall|b: int| 0 <= b < 256 ==> (#[trigger] self.0@[b]).wf()
    }

    /// The code stored for byte `b`.
    pub closed spec fn code_of(&self, b: u8) -> Seq<bool> {
        self.0@[b as int]@
    }

    /// The code of `byte`.
    pub fn get(&self, byte: &u8) -> (r: &Bits)
        requires
            self.wf(),
        ensures
            r.wf(),
            r@ == self.code_of(*byte),
    {
        &self.0[*byte as usize]
    }
}

/// Whether no path from `t` to a leaf is longer than `limit`.
fn fits_within(t: &HuffmanNode, limit: usize) -> (r: bool)
    ensures
        r == (height(*t) <= limit),
    decreases t,
{
    match t {
        HuffmanNode::Leaf(_) => true,
        HuffmanNode::Internal(l, r) => limit > 0 && fits_within(l, limit - 1) && fits_within(
            r,
            limit - 1,
        ),
    }
}

/// Stores `prefix` followed by the path to each leaf of `t` as that leaf's
/// code. Where a byte sits at two leaves, the path that `path_to` picks wins.
fn fill_codes(t: &HuffmanNode, prefix: Bits, table: &mut Vec<Bits>)
    requires
        prefix.wf(),
        prefix@.len() + height(*t) <= 32,
        old(table)@.len() == 256,
        forall|b: int| 0 <= b < 256 ==> (#[trigger] old(table)@[b]).wf(),
    ensures
        final(table)@.len() == 256,
        forall|b: int| 0 <= b < 256 ==> (#[trigger] final(table)@[b]).wf(),
        forall|b: u8|
            #![trigger final(table)@[b as int]]
            if leaf_set(*t).contains(b) {
                final(table)@[b as int]@ == prefix@ + path_to(*t, b).unwrap()
            } else {
                final(table)@[b as int] == old(table)@[b as int]
            },
    decreases t,
{
    match t {
        HuffmanNode::Leaf(x) => {
            table[*x as usize] = prefix;
            assert(prefix@ + Seq::<bool>::empty() =~= prefix@);
        },
        HuffmanNode::Internal(l, r) => {
            let ghost before = table@;
            fill_codes(r, prefix.add(true), table);
            let ghost mid = table@;
            fill_codes(l, prefix.add(false), table);
            assert forall|b: u8| leaf_set(*t).contains(b) implies #[trigger] table@[b as int]@
                == prefix@ + path_to(*t, b).unwrap() by {
                lemma_path_to(**l, b);
                lemma_path_to(**r, b);
                if leaf_set(**l).contains(b) {
                    assert(prefix@.push(false) + path_to(**l, b).unwrap() =~= prefix@ + (seq![false]
                        + path_to(**l, b).unwrap()));
                } else {
                    assert(prefix@.push(true) + path_to(**r, b).unwrap() =~= prefix@ + (seq![true]
                        + path_to(**r, b).unwrap()));
                }
            }
        },
    }
}

/// The code of every byte value at a leaf of `root`, or `None` where some
/// code would not fit in 32 bits. A tree of a single leaf gives its byte the
/// code `0`. Byte values absent from the tree get the empty code.
pub fn huffman_prefix_code_table(root: &HuffmanNode) -> (r: Option<HuffmanPrefixCodeTable>)
    ensures
        r is Some <==> max_code_len(*root) <= 32,
        r matches Some(table) ==> {
            &&& table.wf()
            &&& forall|b: u8| #[trigger]
                leaf_set(*root).contains(b) ==> table.code_of(b) == code(*root, b)
            &&& forall|b: u8| #[trigger]
                leaf_set(*root).contains(b) || table.code_of(b) == Seq::<bool>::empty()
        },
{
    let empty = Bits::empty();
    let mut prefix_code_table: Vec<Bits> = Vec::new();
    while prefix_code_table.len() < 256
        invariant
            prefix_code_table@.len() <= 256,
            forall|b: int| 0 <= b < prefix_code_table@.len() ==> prefix_code_table@[b] == empty,
        decreases 256 - prefix_code_table@.len(),
    {
        prefix_code_table.push(empty);
    }
    match root {
        HuffmanNode::Leaf(x) => {
            prefix_code_table[*x as usize] = Bits::empty().add(false);
            assert(leaf_set(*root) == set![*x]);
            assert(Seq::<bool>::empty().push(false) =~= seq![false]);
        },
        HuffmanNode::Internal(_, _) => {
            if !fits_within(root, 32) {
                return None;
            }
            fill_codes(root, Bits::empty(), &mut prefix_code_table);
            assert forall|b: u8| #[trigger] leaf_set(*root).contains(b) implies prefix_code_table@[b as int]@
                == code(*root, b) by {
                lemma_path_to(*root, b);
                assert(Seq::<bool>::empty() + path_to(*root, b).unwrap() =~= path_to(*root, b).unwrap());
            }
        },
    }
    let table = HuffmanPrefixCodeTable(prefix_code_table);
    assert forall|b: u8| #[trigger] leaf_set(*root).contains(b) || table.code_of(b) == Seq::<bool>::empty() by {
        assert(table.0@[b as int] == empty || leaf_set(*root).contains(b));
    }
    Some(table)
}

/// Writes the preorder layout of `t`.
fn write_tree(t: &HuffmanNode, writer: &mut BitsWriter)
    requires
        old(writer).wf(),
    ensures
        final(writer).wf(),
        final(writer).written() == old(writer).written() + tree_bits(*t),
        final(writer).pending().len() > 0,
    decreases t,
{
    match t {
        HuffmanNode::Leaf(b) => {
            writer.write(&Bits::empty().add(true));
            writer.write(&Bits::byte(*b));
            assert(Seq::<bool>::empty().push(true) =~= seq![true]);
            assert(old(writer).written() + seq![true] + crate::bits::byte_bits(*b) =~= old(writer).written()
                + tree_bits(*t));
        },
        HuffmanNode::Internal(l, r) => {
            writer.write(&Bits::empty().add(false));
            write_tree(l, writer);
            write_tree(r, writer);
            assert(Seq::<bool>::empty().push(false) =~= seq![false]);
            assert(old(writer).written() + seq![false] + tree_bits(**l) + tree_bits(**r) =~= old(
                writer,
            ).written() + tree_bits(*t));
        },
    }
}

/// Writes the stream for `input`: the layout of the tree `root`, then the
/// code of each input byte as `table` holds it, then the sentinel.
pub fn write_huffman_file(
    input: &[u8],
    table: &HuffmanPrefixCodeTable,
    root: &HuffmanNode,
) -> (r: Vec<u8>)
    requires
        table.wf(),
        forall|i: int|
            0 <= i < input@.len() ==> #[trigger] leaf_set(*root).contains(input@[i])
                && table.code_of(input@[i]) == code(*root, input@[i]),
    ensures
        r@ == stream_of(tree_bits(*root) + payload(*root, input@)),
{
    let mut writer = BitsWriter::new(Vec::new());
    proof {
        assert(writer.written() =~= Seq::<bool>::empty());
    }
    write_tree(root, &mut writer);
    assert(payload(*root, input@.take(0)) == Seq::<bool>::empty()) by {
        assert(input@.take(0).len() == 0);
    }
    assert(writer.written() =~= tree_bits(*root) + payload(*root, input@.take(0)));
    assert forall|j: int| 0 <= j < input@.len() implies #[trigger] leaf_set(*root).contains(input@[j])
        && table.code_of(input@[j]) == code(*root, input@[j]) by {}
    let mut i: usize = 0;
    while i < input.len()
        invariant
            writer.wf(),
            table.wf(),
            i <= input@.len(),
            writer.written() == tree_bits(*root) + payload(*root, input@.take(i as int)),
            writer.pending().len() > 0,
            forall|j: int|
                0 <= j < input@.len() ==> #[trigger] leaf_set(*root).contains(input@[j])
                    && table.code_of(input@[j]) == code(*root, input@[j]),
        decreases input@.len() - i,
    {
        let byte = input[i];
        let prefix_code = table.get(&byte);
        let ghost before = writer.written();
        proof {
            assert(leaf_set(*root).contains(input@[i as int]));
            assert(prefix_code@ == code(*root, byte));
            lemma_payload_push(*root, input@.take(i as int), byte);
            assert(input@.take(i + 1) =~= input@.take(i as int).push(byte));
            lemma_code_len(*root, byte);
        }
        writer.write(prefix_code);
        assert(writer.written() == before + code(*root, byte));
        assert(writer.written() =~= tree_bits(*root) + payload(*root, input@.take(i + 1)));
        i = i + 1;
    }
    assert(input@.take(i as int) =~= input@);
    writer.final_flush_with_offset()
}

/// What encoding `s` gives: nothing for an empty input; else the stream of
/// the layout of its Huffman tree followed by the codes of its bytes, unless
/// some code would be longer than 32 bits.
pub open spec fn encoding(s: Seq<u8>) -> Result<Seq<u8>, HuffmanError> {
    match huffman(frequency_table(s)) {
        None => Ok(Seq::empty()),
        Some(t) => if max_code_len(t) <= 32 {
            Ok(stream_of(tree_bits(t) + payload(t, s)))
        } else {
            Err(HuffmanError::CodeTooLong)
        },
    }
}

proof fn lemma_count_pos(s: Seq<u8>, i: int)
    requires
        0 <= i < s.len(),
    ensures
        count(s, s[i]) > 0,
        count(s, s[i]) <= s.len(),
    decreases s.len(),
{
    lemma_count_le(s, s[i]);
    if i < s.len() - 1 {
        lemma_count_pos(s.drop_last(), i);
    }
}

proof fn lemma_count_le(s: Seq<u8>, b: u8)
    ensures
        count(s, b) <= s.len(),
    decreases s.len(),
{
    if s.len() > 0 {
        lemma_count_le(s.drop_last(), b);
    }
}

/// Every byte of an input sits at a leaf of its Huffman tree, and at one
/// leaf only.
pub proof fn lemma_input_in_tree(s: Seq<u8>)
    requires
        s.len() <= usize::MAX,
    ensures
        s.len() > 0 <==> huffman(frequency_table(s)) is Some,
        huffman(frequency_table(s)) matches Some(t) ==> distinct_leaves(t) && forall|i: int|
            0 <= i < s.len() ==> #[trigger] leaf_set(t).contains(s[i]),
        huffman(frequency_table(s)) matches Some(t) ==> forall|b: u8| #[trigger]
            leaf_set(t).contains(b) <==> count(s, b) > 0,
{
    let freq = frequency_table(s);
    lemma_huffman_leaves(freq);
    assert forall|b: u8| count(s, b) > 0 <==> #[trigger] freq[b as int] > 0 by {
        lemma_count_le(s, b);
    }
    assert forall|i: int| 0 <= i < s.len() implies #[trigger] freq[s[i] as int] > 0 by {
        lemma_count_pos(s, i);
    }
    if s.len() > 0 {
        assert(freq[s[0] as int] > 0);
    } else {
        assert forall|b: int| 0 <= b < 256 implies freq[b] == 0 by {}
    }
}

/// Encodes `input` as a stream that holds its Huffman tree and the codes of
/// its bytes. An empty input encodes to nothing.
pub fn encode(input: &[u8]) -> (r: Result<Vec<u8>, HuffmanError>)
    ensures
        match r {
            Ok(v) => encoding(input@) == Ok::<Seq<u8>, HuffmanError>(v@),
            Err(e) => encoding(input@) == Err::<Seq<u8>, HuffmanError>(e),
        },
{
    let n: usize = input.len();
    let frequencies = huffman_frequencies(input);
    proof {
        assert(input@.len() == n);
        lemma_input_in_tree(input@);
    }
    let root = match huffman_tree(frequencies) {
        Some(root) => root,
        None => {
            return Ok(Vec::new());
        },
    };
    let table = match huffman_prefix_code_table(&root) {
        Some(table) => table,
        None => {
            return Err(HuffmanError::CodeTooLong);
        },
    };
    Ok(write_huffman_file(input, &table, &root))
}

} // verus!
