//! What holds of the codec as a whole.

use crate::bits::{lemma_stream_bits_of, stream_bits, stream_of};
use crate::decoder::decoding;
use crate::encoder::{count, encoding, frequency_table, huffman, lemma_input_in_tree};
use crate::error::HuffmanError;
use crate::tree::{
    code, distinct_leaves, is_prefix, leaf_set, lemma_leaf_set_nonempty, lemma_parse_tree_bits,
    lemma_prefix_free, lemma_walk_payload, max_code_len, payload, tree_bits, HuffmanNode,
};
use vstd::prelude::*;

verus! {

/// Decoding what encoding gives returns the input: for every non-empty
/// input whose codes fit in 32 bits (the inputs that `encode` accepts).
pub proof fn lemma_round_trip(s: Seq<u8>)
    requires
        0 < s.len() <= usize::MAX,
        encoding(s) is Ok,
    ensures
        decoding(encoding(s)->Ok_0) == Ok::<Seq<u8>, HuffmanError>(s),
{
    lemma_input_in_tree(s);
    let t = huffman(frequency_table(s))->Some_0;
    let tb = tree_bits(t);
    let w = tb + payload(t, s);
    let e = stream_of(w);
    assert(encoding(s)->Ok_0 == e);
    assert(tb.len() > 0) by {
        match t {
            HuffmanNode::Leaf(_) => {},
            HuffmanNode::Internal(_, _) => {},
        }
    }
    lemma_stream_bits_of(w);
    assert(e.len() >= 2);
    assert(stream_bits(e) == w);
    assert(w.subrange(0, tb.len() as int) =~= tb);
    lemma_parse_tree_bits(t, w, 0);
    assert(w.skip(tb.len() as int) =~= payload(t, s));
    lemma_walk_payload(t, s);
}

/// For any input, the codes of two different byte values that occur in it
/// are not prefixes of one another.
pub proof fn lemma_codes_prefix_free(s: Seq<u8>, b1: u8, b2: u8)
    requires
        s.len() <= usize::MAX,
        b1 != b2,
        count(s, b1) > 0,
        count(s, b2) > 0,
    ensures
        huffman(frequency_table(s)) matches Some(t) && !is_prefix(code(t, b1), code(t, b2)),
{
    lemma_count_in_input(s, b1);
    lemma_input_in_tree(s);
    let t = huffman(frequency_table(s))->Some_0;
    lemma_prefix_free(t, b1, b2);
}

proof fn lemma_count_in_input(s: Seq<u8>, b: u8)
    requires
        count(s, b) > 0,
    ensures
        s.len() > 0,
{
}

proof fn lemma_count_absent(s: Seq<u8>, b: u8)
    requires
        forall|i: int| 0 <= i < s.len() ==> s[i] != b,
    ensures
        count(s, b) == 0,
    decreases s.len(),
{
    if s.len() > 0 {
        lemma_count_absent(s.drop_last(), b);
    }
}

proof fn lemma_single_leaf(t: HuffmanNode, b: u8)
    requires
        distinct_leaves(t),
        forall|x: u8| #[trigger] leaf_set(t).contains(x) <==> x == b,
    ensures
        t is Leaf,
{
    if let HuffmanNode::Internal(l, r) = t {
        lemma_leaf_set_nonempty(*l);
        lemma_leaf_set_nonempty(*r);
        let x = choose|x: u8| leaf_set(*l).contains(x);
        let y = choose|y: u8| leaf_set(*r).contains(y);
        assert(leaf_set(t).contains(x));
        assert(leaf_set(t).contains(y));
    }
}

/// An input of one byte value repeated is always encoded (its one code is
/// the single bit `0`) and decodes back to itself.
pub proof fn lemma_single_symbol_round_trip(b: u8, n: nat)
    requires
        0 < n <= usize::MAX,
    ensures
        encoding(Seq::new(n, |i: int| b)) is Ok,
        decoding(encoding(Seq::new(n, |i: int| b))->Ok_0) == Ok::<Seq<u8>, HuffmanError>(
            Seq::new(n, |i: int| b),
        ),
{
    let s = Seq::new(n, |i: int| b);
    lemma_input_in_tree(s);
    let t = huffman(frequency_table(s))->Some_0;
    assert forall|x: u8| #[trigger] leaf_set(t).contains(x) <==> x == b by {
        if x != b {
            lemma_count_absent(s, x);
        } else {
            assert(leaf_set(t).contains(s[0]));
        }
    }
    lemma_single_leaf(t, b);
    assert(max_code_len(t) == 1);
    lemma_round_trip(s);
}

} // verus!
