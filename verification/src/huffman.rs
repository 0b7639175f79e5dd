//! The Huffman codec: compression of bytes into an envelope, a frequency table
//! with the input's codes packed into one bit sequence, and decompression by
//! walking the code tree that the table determines.

use crate::bits::{append_bits, bit_at, bit_count, empty_bits, max_bits, Bits};
use crate::code::HuffmanCode;
use crate::frequency::{
    frequency_table, lemma_distinct, lemma_frequency_table, symbols_of, CharFrequencies,
};
use crate::traits::{CompressionError, CompressionScheme};
use crate::tree::HuffmanTreeNode;
use vstd::prelude::*;

verus! {

/// A Huffman envelope: what compression persists and decompression reads.
pub struct Huffman {
    pub freq: CharFrequencies<u8>,
    pub bitvec: Bits,
}

/// What an envelope holds: the frequency table and the bits.
pub struct Envelope {
    pub table: Seq<(u8, usize)>,
    pub bits: Seq<bool>,
}

impl View for Huffman {
    type V = Envelope;

    open spec fn view(&self) -> Envelope {
        Envelope { table: self.freq@, bits: self.bitvec@ }
    }
}

/// The codes of the symbols of `input`, one after the other.
pub open spec fn code_bits<T>(tree: HuffmanTreeNode<T>, input: Seq<T>) -> Seq<bool>
    decreases input.len(),
{
    if input.len() == 0 {
        Seq::empty()
    } else {
        tree.code(input[0]).unwrap() + code_bits(tree, input.skip(1))
    }
}

/// `symbol` put before what the rest of a walk yields.
pub open spec fn emit<T>(symbol: T, rest: Result<Seq<T>, CompressionError>) -> Result<
    Seq<T>,
    CompressionError,
> {
    match rest {
        Ok(symbols) => Ok(seq![symbol] + symbols),
        Err(e) => Err(e),
    }
}

/// What `walk` has yielded so far put before what the rest of it yields.
pub open spec fn emitted<T>(done: Seq<T>, rest: Result<Seq<T>, CompressionError>) -> Result<
    Seq<T>,
    CompressionError,
> {
    match rest {
        Ok(symbols) => Ok(done + symbols),
        Err(e) => Err(e),
    }
}

/// The decoding walk: from `cursor`, each bit leads to the left child on 0 and to
/// the right child on 1; a leaf yields its symbol and sends the walk back to
/// `root`. The walk fails where a bit leads to no child, and where the bits end
/// anywhere but at a fresh start from the root.
pub open spec fn walk<T>(
    root: HuffmanTreeNode<T>,
    cursor: HuffmanTreeNode<T>,
    fresh: bool,
    bits: Seq<bool>,
) -> Result<Seq<T>, CompressionError>
    decreases bits.len(),
{
    if bits.len() == 0 {
        if fresh {
            Ok(Seq::empty())
        } else {
            Err(CompressionError::CorruptEnvelope)
        }
    } else {
        let next = if bits[0] {
            cursor.right
        } else {
            cursor.left
        };
        match next {
            None => Err(CompressionError::CorruptEnvelope),
            Some(node) => match node.char {
                Some(symbol) => emit(symbol, walk(root, root, true, bits.skip(1))),
                None => walk(root, *node, false, bits.skip(1)),
            },
        }
    }
}

/// The symbols that `bits` stand for under `tree`.
pub open spec fn decode_bits<T>(tree: HuffmanTreeNode<T>, bits: Seq<bool>) -> Result<
    Seq<T>,
    CompressionError,
> {
    walk(tree, tree, true, bits)
}

/// Walking the code of a symbol yields that symbol and returns to the root.
pub proof fn lemma_walk_code<T>(
    root: HuffmanTreeNode<T>,
    cursor: HuffmanTreeNode<T>,
    fresh: bool,
    symbol: T,
    rest: Seq<bool>,
)
    requires
        cursor.char is None,
        cursor.code(symbol) is Some,
    ensures
        walk(root, cursor, fresh, cursor.code(symbol).unwrap() + rest) == emit(
            symbol,
            walk(root, root, true, rest),
        ),
    decreases cursor,
{
    let path = cursor.code(symbol).unwrap();
    let bits = path + rest;
    let via_left = match cursor.left {
        Some(l) => l.code(symbol),
        None => None,
    };
    let child = if via_left is Some {
        cursor.left.unwrap()
    } else {
        cursor.right.unwrap()
    };
    let tail = child.code(symbol).unwrap();
    assert(path == seq![via_left is None] + tail);
    assert(bits[0] == (via_left is None));
    assert(bits.skip(1) =~= tail + rest);
    if child.char is Some {
        assert(tail + rest =~= rest);
    } else {
        lemma_walk_code(root, *child, false, symbol, rest);
    }
}

/// Decoding the codes of symbols that all have one gives the symbols back.
pub proof fn lemma_decode_code_bits<T>(tree: HuffmanTreeNode<T>, input: Seq<T>)
    requires
        tree.char is None,
        forall|i: int| 0 <= i < input.len() ==> tree.code(#[trigger] input[i]) is Some,
    ensures
        decode_bits(tree, code_bits(tree, input)) == Ok::<Seq<T>, CompressionError>(input),
    decreases input.len(),
{
    if input.len() == 0 {
        assert(Seq::<T>::empty() =~= input);
    } else {
        let rest = input.skip(1);
        assert forall|i: int| 0 <= i < rest.len() implies tree.code(#[trigger] rest[i]) is Some by {
            assert(rest[i] == input[i + 1]);
        }
        lemma_decode_code_bits(tree, rest);
        lemma_walk_code(tree, tree, true, input[0], code_bits(tree, rest));
        assert(seq![input[0]] + rest =~= input);
    }
}

/// The codes of an input take no more bits than the tree is deep for each of its
/// symbols.
pub proof fn lemma_code_bits_len<T>(tree: HuffmanTreeNode<T>, input: Seq<T>)
    requires
        forall|i: int| 0 <= i < input.len() ==> tree.code(#[trigger] input[i]) is Some,
    ensures
        code_bits(tree, input).len() <= tree.depth() * input.len(),
    decreases input.len(),
{
    if input.len() > 0 {
        let rest = input.skip(1);
        assert forall|i: int| 0 <= i < rest.len() implies tree.code(#[trigger] rest[i]) is Some by {
            assert(rest[i] == input[i + 1]);
        }
        lemma_code_bits_len(tree, rest);
        tree.lemma_code(input[0]);
        let d = tree.depth();
        let n = input.len();
        assert(d + d * (n - 1) == d * n) by (nonlinear_arith);
    }
}

/// Every symbol of an input has a code in the code tree of the input's frequency
/// table, and that tree has the shape of a code tree.
pub proof fn lemma_input_has_codes(input: Seq<u8>)
    requires
        0 < input.len() <= usize::MAX,
    ensures
        Huffman::tree_of(input).well_formed(),
        Huffman::tree_of(input).depth() <= 64,
        Huffman::tree_of(input).symbols().no_duplicates(),
        forall|i: int|
            0 <= i < input.len() ==> Huffman::tree_of(input).code(#[trigger] input[i]) is Some,
{
    let table = frequency_table(input);
    let tree = Huffman::tree_of(input);
    lemma_frequency_table(input);
    lemma_distinct(input);
    HuffmanTreeNode::lemma_code_tree(symbols_of(table));
    assert forall|i: int| 0 <= i < input.len() implies tree.code(#[trigger] input[i]) is Some by {
        assert(input.contains(input[i]));
        assert(symbols_of(table).contains(input[i]));
        tree.lemma_code(input[i]);
    }
}

/// An input that is not empty and takes no more than 64 bits for each of its
/// bytes within a bit sequence can be compressed.
pub proof fn lemma_accepts(input: Seq<u8>)
    requires
        input.len() > 0,
        64 * input.len() <= max_bits(),
    ensures
        Huffman::accepts(input),
{
    let tree = Huffman::tree_of(input);
    lemma_input_has_codes(input);
    lemma_code_bits_len(tree, input);
    let d = tree.depth();
    let n = input.len();
    assert(d * n <= 64 * n) by (nonlinear_arith)
        requires
            d <= 64,
    ;
}

impl Huffman {
    /// The code tree that compression builds for `input`.
    pub open spec fn tree_of(input: Seq<u8>) -> HuffmanTreeNode<u8> {
        HuffmanTreeNode::code_tree(symbols_of(frequency_table(input)))
    }

    /// Compresses `input`, or returns `None` where it is empty or its codes take
    /// more bits than a bit sequence can hold.
    pub fn try_compress(input: &[u8]) -> (packed: Option<Huffman>)
        ensures
            match packed {
                Some(envelope) => Self::accepts(input@) && envelope@ == Self::compressed(input@),
                None => !Self::accepts(input@),
            },
    {
        if input.len() == 0 {
            return None;
        }
        let freq = CharFrequencies::new(input);
        let tree = HuffmanTreeNode::new(&freq);
        let ghost root = tree;
        proof {
            lemma_input_has_codes(input@);
            assert(max_bits() >= 64) by {
                assert(usize::MAX >= 0xffff_ffff);
            }
        }
        assert(root == Self::tree_of(input@));
        let code = HuffmanCode::new(tree);
        let limit: usize = usize::MAX / 8;
        let mut output_vec = empty_bits();
        let mut i: usize = 0;
        assert(input@.skip(0) =~= input@);
        while i < input.len()
            invariant
                i <= input.len(),
                limit == max_bits(),
                root == Self::tree_of(input@),
                code@ == root.code_table(),
                forall|k: int| 0 <= k < input.len() ==> root.code(#[trigger] input@[k]) is Some,
                output_vec@.len() <= max_bits(),
                code_bits(root, input@) == output_vec@ + code_bits(root, input@.skip(i as int)),
            decreases input.len() - i,
        {
            let ghost rest = input@.skip(i as int);
            proof {
                assert(rest[0] == input@[i as int]);
                assert(rest.skip(1) =~= input@.skip(i + 1));
                assert(code@.contains_key(input@[i as int]));
            }
            let word = code.table.get(&input[i]).unwrap();
            proof {
                assert(code@[input@[i as int]] == root.code(input@[i as int]).unwrap());
                assert(code_bits(root, rest) == word@ + code_bits(root, input@.skip(i + 1)));
                assert(code_bits(root, input@).len() == output_vec@.len() + word@.len()
                    + code_bits(root, input@.skip(i + 1)).len());
            }
            if bit_count(word) > limit - bit_count(&output_vec) {
                return None;
            }
            append_bits(&mut output_vec, word);
            proof {
                assert(output_vec@ + code_bits(root, input@.skip(i + 1)) =~= code_bits(
                    root,
                    input@,
                ));
            }
            i += 1;
        }
        assert(output_vec@ =~= code_bits(root, input@));
        Some(Huffman { freq, bitvec: output_vec })
    }
}

impl CompressionScheme for Huffman {
    type Compressed = Huffman;

    /// An input can be compressed when it is not empty, fits in memory, and its
    /// codes fit in one bit sequence.
    open spec fn accepts(input: Seq<u8>) -> bool {
        &&& 0 < input.len() <= usize::MAX
        &&& code_bits(Self::tree_of(input), input).len() <= max_bits()
    }

    /// The frequency table of the input, and the codes of its bytes under the
    /// code tree of that table.
    open spec fn compressed(input: Seq<u8>) -> Envelope {
        Envelope {
            table: frequency_table(input),
            bits: code_bits(Self::tree_of(input), input),
        }
    }

    /// What the bits decode to under the code tree of the table. An envelope
    /// with an empty table is corrupt.
    open spec fn restored(packed: Envelope) -> Result<Seq<u8>, CompressionError> {
        if packed.table.len() == 0 {
            Err(CompressionError::CorruptEnvelope)
        } else {
            decode_bits(HuffmanTreeNode::code_tree(symbols_of(packed.table)), packed.bits)
        }
    }

    /// Compresses `input` into its envelope.
    fn compress(input: &[u8]) -> (packed: Huffman) {
        Self::try_compress(input).unwrap()
    }

    /// Rebuilds the code tree from the envelope's table and walks it bit by bit.
    /// Nothing is returned of an envelope that turns out corrupt.
    fn decompress(packed: &Huffman) -> (output: Result<Vec<u8>, CompressionError>) {
        if packed.freq.freq.len() == 0 {
            return Err(CompressionError::CorruptEnvelope);
        }
        let tree = HuffmanTreeNode::new(&packed.freq);
        let n = bit_count(&packed.bitvec);
        let ghost bits = packed.bitvec@;
        let mut output: Vec<u8> = Vec::new();
        let mut index = &tree;
        let mut fresh = true;
        let mut i: usize = 0;
        proof {
            assert(bits.skip(0) =~= bits);
            assert(Seq::<u8>::empty() + Seq::<u8>::empty() =~= Seq::<u8>::empty());
        }
        while i < n
            invariant
                i <= n,
                n == bits.len(),
                bits == packed.bitvec@,
                packed.freq@.len() > 0,
                tree == HuffmanTreeNode::code_tree(symbols_of(packed.freq@)),
                fresh ==> *index == tree,
                decode_bits(tree, bits) == emitted(
                    output@,
                    walk(tree, *index, fresh, bits.skip(i as int)),
                ),
            decreases n - i,
        {
            let ghost rest = bits.skip(i as int);
            let ghost done = output@;
            proof {
                assert(rest[0] == bits[i as int]);
                assert(rest.skip(1) =~= bits.skip(i + 1));
            }
            let bit = bit_at(&packed.bitvec, i);
            let next = if bit {
                &index.right
            } else {
                &index.left
            };
            match next {
                None => {
                    assert(walk(tree, *index, fresh, rest) == Err::<Seq<u8>, CompressionError>(
                        CompressionError::CorruptEnvelope,
                    ));
                    return Err(CompressionError::CorruptEnvelope);
                },
                Some(node) => {
                    match node.char {
                        Some(c) => {
                            output.push(c);
                            index = &tree;
                            fresh = true;
                            proof {
                                let after = walk(tree, tree, true, bits.skip(i + 1));
                                match after {
                                    Ok(symbols) => {
                                        assert(done + (seq![c] + symbols) =~= done.push(c)
                                            + symbols);
                                    },
                                    Err(_) => {},
                                }
                            }
                        },
                        None => {
                            index = &**node;
                            fresh = false;
                        },
                    }
                },
            }
            i += 1;
        }
        proof {
            assert(bits.skip(i as int) =~= Seq::<bool>::empty());
            assert(output@ + Seq::<u8>::empty() =~= output@);
        }
        if fresh {
            Ok(output)
        } else {
            Err(CompressionError::CorruptEnvelope)
        }
    }

    /// The envelope of an input decodes to that input.
    proof fn lossless(input: Seq<u8>) {
        lemma_input_has_codes(input);
        lemma_decode_code_bits(Self::tree_of(input), input);
    }
}

} // verus!
