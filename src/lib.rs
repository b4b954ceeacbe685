//! A Huffman codec: frequency analysis, tree construction, prefix-code
//! derivation, and a self-describing bit-packed stream format, each step
//! specified and proved; and, beside it, the request handling of a small
//! key-value server.
//!
//! - `bits`: bit buffers, the bit writer and reader, the stream format.
//! - `tree`: the Huffman tree, its codes and its layout in a stream.
//! - `encoder`, `decoder`: the two passes of encoding, and decoding.
//! - `laws`: the round trip and the prefix property, proved.
//! - `redis`: requests, replies and the store of the key-value server.

pub mod bits;
pub mod error;
pub mod tree;
pub mod encoder;
pub mod decoder;
pub mod laws;
pub mod redis;
