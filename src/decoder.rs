//! Decoding: read the tree back from the front of the stream, then walk it
//! bit by bit, one byte for each leaf reached, until the sentinel says the
//! bits are done.

use crate::bits::{stream_bits, BitsReader};
use crate::error::HuffmanError;
use crate::tree::{decode_walk, lemma_parse_advances, parse_tree, HuffmanNode};
use vstd::prelude::*;

verus! {

/// What decoding the stream `d` gives: nothing for an empty stream; else the
/// tree laid out at its front, and the bytes that walking the rest of its
/// bits through that tree yields. A stream that ends before its tree does is
/// truncated.
pub open spec fn decoding(d: Seq<u8>) -> Result<Seq<u8>, HuffmanError> {
    if d.len() == 0 {
        Ok(Seq::empty())
    } else if d.len() < 2 {
        Err(HuffmanError::Truncated)
    } else {
        let bits = stream_bits(d);
        match parse_tree(bits, 0) {
            None => Err(HuffmanError::Truncated),
            Some((t, p)) => Ok(decode_walk(t, t, bits.skip(p))),
        }
    }
}

/// Reads a tree laid out in preorder (`1` and eight bits for a leaf, `0`
/// and both children for an internal node), or `None` where the stream
/// ends first. Each call reads at least one bit, so the depth of recursion is
/// bounded by the length of the stream; a tree written by `encode` is at most
/// 255 levels deep.
pub fn decode_tree(reader: &mut BitsReader) -> (r: Option<HuffmanNode>)
    requires
        old(reader).wf(),
    ensures
        final(reader).wf(),
        final(reader).source() == old(reader).source(),
        final(reader).consumed() >= old(reader).consumed(),
        match parse_tree(stream_bits(old(reader).source()), old(reader).consumed() as int) {
            None => r is None,
            Some((t, p)) => r == Some(t) && final(reader).consumed() == p,
        },
    decreases old(reader).remaining().len(),
{
    let ghost bits = stream_bits(reader.source());
    let ghost pos = reader.consumed() as int;
    proof {
        reader.lemma_within_stream();
    }
    match reader.read_safe() {
        None => None,
        Some(true) => {
            if reader.has_bits(8) {
                let ghost rest = reader.remaining();
                let byte = reader.read_byte();
                assert(rest.take(8) =~= bits.subrange(pos + 1, pos + 9));
                Some(HuffmanNode::Leaf(byte))
            } else {
                None
            }
        },
        Some(false) => {
            proof {
                reader.lemma_within_stream();
                lemma_parse_advances(bits, pos + 1);
            }
            let left = match decode_tree(reader) {
                Some(t) => t,
                None => {
                    return None;
                },
            };
            proof {
                reader.lemma_within_stream();
            }
            let right = match decode_tree(reader) {
                Some(t) => t,
                None => {
                    return None;
                },
            };
            Some(HuffmanNode::Internal(Box::new(left), Box::new(right)))
        },
    }
}

/// Decodes a stream made by `encode`: reads the tree, then walks the
/// remaining bits through it, one byte for each leaf reached.
pub fn decode(input: &[u8]) -> (r: Result<Vec<u8>, HuffmanError>)
    ensures
        match r {
            Ok(v) => decoding(input@) == Ok::<Seq<u8>, HuffmanError>(v@),
            Err(e) => decoding(input@) == Err::<Seq<u8>, HuffmanError>(e),
        },
{
    if input.len() == 0 {
        return Ok(Vec::new());
    }
    let mut bytes: Vec<u8> = Vec::new();
    bytes.extend_from_slice(input);
    assert(bytes@ =~= input@);
    let mut reader = match BitsReader::new(bytes) {
        Some(reader) => reader,
        None => {
            return Err(HuffmanError::Truncated);
        },
    };
    let ghost bits = stream_bits(input@);
    let root = match decode_tree(&mut reader) {
        Some(root) => root,
        None => {
            return Err(HuffmanError::Truncated);
        },
    };
    let ghost p = reader.consumed() as int;
    let ghost all = decode_walk(root, root, bits.skip(p));
    let mut output: Vec<u8> = Vec::new();
    let mut current: &HuffmanNode = &root;
    assert(output@ + decode_walk(root, *current, reader.remaining()) =~= all);
    loop
        invariant
            reader.wf(),
            reader.source() == input@,
            output@ + decode_walk(root, *current, reader.remaining()) == all,
        ensures
            output@ == all,
        decreases reader.remaining().len(),
    {
        let ghost rest = reader.remaining();
        match reader.read_safe() {
            None => {
                assert(output@ + Seq::<u8>::empty() =~= output@);
                break;
            },
            Some(bit) => {
                assert(reader.remaining() =~= rest.drop_first());
                let next: &HuffmanNode = match current {
                    HuffmanNode::Leaf(_) => current,
                    HuffmanNode::Internal(l, r) => if bit {
                        r
                    } else {
                        l
                    },
                };
                match next {
                    HuffmanNode::Leaf(b) => {
                        output.push(*b);
                        current = &root;
                        assert(output@ + decode_walk(root, *current, reader.remaining()) =~= all);
                    },
                    _ => {
                        current = next;
                    },
                }
            },
        }
    }
    Ok(output)
}

} // verus!
