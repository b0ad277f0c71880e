//! Symbol codes: codes that give every symbol a codeword of bits of its
//! own.

use vstd::prelude::*;

pub mod huffman;

verus! {

/// The error of a codebook that was handed a symbol it has no codeword
/// for.
#[derive(Debug, Clone, Copy, PartialEq, Eq)]
pub enum EncodingError {
    ImpossibleSymbol,
}

/// The error of a codebook whose bits ran out within a codeword.
#[derive(Debug, Clone, Copy, PartialEq, Eq)]
pub enum DecodingError {
    OutOfCompressedData,
}

} // verus!
