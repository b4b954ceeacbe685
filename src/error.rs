//! The ways encoding and decoding can fail.

use vstd::prelude::*;

verus! {

#[derive(Debug, Clone, Copy, PartialEq, Eq, Structural)]
pub enum HuffmanError {
    /// Some byte's code would be longer than the 32 bits a `Bits` value holds.
    CodeTooLong,
    /// The stream ends before the tree stored in it is complete.
    Truncated,
}

} // verus!
