//! Lossless entropy coding of symbol sequences against fixed-point
//! probability models: an ANS stack coder, a range coder, a chain coder,
//! the paired supply/waste coder `Auryn`, and a Huffman symbol codec,
//! together with the word backends they read from and write to.
//!
//! Every coder is described by a mathematical model over natural numbers
//! and sequences; the executable code is proved to follow that model.

pub mod arith;
pub mod auryn;
pub mod backends;
pub mod bit_array;
pub mod stream;
pub mod symbol;
