//! Lossless byte compression: a Huffman coding engine and a run-length coder
//! behind one contract.

pub mod bits;
pub mod code;
pub mod frequency;
pub mod huffman;
pub mod rle;
pub mod traits;
pub mod tree;

pub use crate::huffman::Huffman;
pub use crate::rle::RLE;
pub use crate::traits::{CompressionError, CompressionScheme};
