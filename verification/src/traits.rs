//! The contract that every compression scheme meets, and the errors that
//! decompression reports.

use vstd::prelude::*;

verus! {

/// Why compressed data could not be decompressed.
#[derive(Debug, Clone, Copy, PartialEq, Eq, Structural)]
pub enum CompressionError {
    /// Run-length data ends in the middle of a pair.
    IncompleteInput,
    /// A Huffman envelope whose table is empty, or whose bits leave the code
    /// tree or end between two symbols.
    CorruptEnvelope,
}

/// A lossless compression scheme over byte sequences.
///
/// `compressed` says what `compress` produces and `restored` what `decompress`
/// makes of any compressed value; `lossless` is the law that ties them together.
pub trait CompressionScheme {
    /// The compressed form of an input.
    type Compressed: View;

    /// The inputs that `compress` takes.
    spec fn accepts(input: Seq<u8>) -> bool;

    /// The compressed form of `input`.
    spec fn compressed(input: Seq<u8>) -> <Self::Compressed as View>::V;

    /// The bytes that a compressed value stands for, or the reason why it stands
    /// for none.
    spec fn restored(packed: <Self::Compressed as View>::V) -> Result<Seq<u8>, CompressionError>;

    /// Compresses `input`.
    fn compress(input: &[u8]) -> (packed: Self::Compressed)
        requires
            Self::accepts(input@),
        ensures
            packed@ == Self::compressed(input@),
    ;

    /// Decompresses `packed`, or says why it cannot be.
    fn decompress(packed: &Self::Compressed) -> (output: Result<Vec<u8>, CompressionError>)
        ensures
            match output {
                Ok(bytes) => Self::restored(packed@) == Ok::<Seq<u8>, CompressionError>(bytes@),
                Err(e) => Self::restored(packed@) == Err::<Seq<u8>, CompressionError>(e),
            },
    ;

    /// Decompressing what was compressed gives the input back.
    proof fn lossless(input: Seq<u8>)
        requires
            Self::accepts(input),
        ensures
            Self::restored(Self::compressed(input)) == Ok::<Seq<u8>, CompressionError>(input),
    ;
}

} // verus!
