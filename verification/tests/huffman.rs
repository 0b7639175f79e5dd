use bytepress::bits::Bits;
use bytepress::code::HuffmanCode;
use bytepress::frequency::CharFrequencies;
use bytepress::tree::HuffmanTreeNode;
use bytepress::{CompressionError, CompressionScheme, Huffman};

fn ten_zeros_five_ones() -> Vec<u8> {
    let mut v = vec![0 as u8; 10];
    let x = vec![1 as u8; 5];
    v.extend(x);
    v
}

fn code_of(code: &HuffmanCode<u8>, symbol: u8) -> Vec<bool> {
    code.table.get(&symbol).unwrap().to_vec()
}

fn envelope(table: Vec<(u8, usize)>, bits: &[bool]) -> Huffman {
    Huffman { freq: CharFrequencies { freq: table }, bitvec: Bits::from_slice(bits).unwrap() }
}

#[test]
fn test_huffman_tree_basic() {
    let v = ten_zeros_five_ones();
    let freq = CharFrequencies::new(&v);
    let retval = HuffmanTreeNode::new(&freq);
    assert_eq!(retval.char, None);
    let left = retval.left.as_ref().unwrap();
    let right = retval.right.as_ref().unwrap();
    assert_eq!(left.char, Some(1));
    assert!(left.left.is_none() && left.right.is_none());
    assert_eq!(right.char, Some(0));
    assert!(right.left.is_none() && right.right.is_none());
}

#[test]
fn test_huffman_code_basic() {
    let v = ten_zeros_five_ones();
    let freq = CharFrequencies::new(&v);
    let retval = HuffmanTreeNode::new(&freq);
    let retval = HuffmanCode::new(retval);
    assert_eq!(retval.table.len(), 2);
    assert_eq!(code_of(&retval, 1), vec![false]);
    assert_eq!(code_of(&retval, 0), vec![true]);
}

#[test]
fn frequency_table_counts_and_sorts_by_count() {
    let freq = CharFrequencies::new(&ten_zeros_five_ones());
    assert_eq!(freq.freq, vec![(1, 5), (0, 10)]);
}

#[test]
fn frequency_table_breaks_ties_by_first_occurrence() {
    let freq = CharFrequencies::new(&[3u8, 1, 3, 1, 2]);
    assert_eq!(freq.freq, vec![(2, 1), (3, 2), (1, 2)]);
    let freq = CharFrequencies::new(&[9u8, 8, 7, 6]);
    assert_eq!(freq.freq, vec![(9, 1), (8, 1), (7, 1), (6, 1)]);
}

#[test]
fn frequency_table_is_generic_over_symbols() {
    let freq = CharFrequencies::new(&[70_000u32, 5, 70_000]);
    assert_eq!(freq.freq, vec![(5, 1), (70_000, 2)]);
}

#[test]
fn single_symbol_tree_has_depth_one() {
    let freq = CharFrequencies::new(&[42u8, 42, 42]);
    assert_eq!(freq.freq, vec![(42, 3)]);
    let tree = HuffmanTreeNode::new(&freq);
    assert_eq!(tree.char, None);
    assert!(tree.right.is_none());
    let leaf = tree.left.as_ref().unwrap();
    assert_eq!(leaf.char, Some(42));
    assert!(leaf.left.is_none() && leaf.right.is_none());
    let code = HuffmanCode::new(tree);
    assert_eq!(code.table.len(), 1);
    assert_eq!(code_of(&code, 42), vec![false]);
}

#[test]
fn three_symbols_carry_the_odd_node_over() {
    let freq = CharFrequencies { freq: vec![(b'a', 1), (b'b', 2), (b'c', 3)] };
    let tree = HuffmanTreeNode::new(&freq);
    assert_eq!(tree.right.as_ref().unwrap().char, Some(b'c'));
    let inner = tree.left.as_ref().unwrap();
    assert_eq!(inner.char, None);
    assert_eq!(inner.left.as_ref().unwrap().char, Some(b'a'));
    assert_eq!(inner.right.as_ref().unwrap().char, Some(b'b'));
    let code = HuffmanCode::new(tree);
    assert_eq!(code_of(&code, b'a'), vec![false, false]);
    assert_eq!(code_of(&code, b'b'), vec![false, true]);
    assert_eq!(code_of(&code, b'c'), vec![true]);
}

#[test]
fn five_symbols_merge_in_three_passes() {
    let freq = CharFrequencies { freq: vec![(1u8, 1), (2, 1), (3, 1), (4, 1), (5, 1)] };
    let code = HuffmanCode::new(HuffmanTreeNode::new(&freq));
    assert_eq!(code_of(&code, 1), vec![false, false, false]);
    assert_eq!(code_of(&code, 2), vec![false, false, true]);
    assert_eq!(code_of(&code, 3), vec![false, true, false]);
    assert_eq!(code_of(&code, 4), vec![false, true, true]);
    assert_eq!(code_of(&code, 5), vec![true]);
}

#[test]
fn codes_are_prefix_free() {
    let input: Vec<u8> = (0..200u32).map(|i| ((i * i) % 23) as u8).collect();
    let freq = CharFrequencies::new(&input);
    let symbols: Vec<u8> = freq.freq.iter().map(|e| e.0).collect();
    let code = HuffmanCode::new(HuffmanTreeNode::new(&freq));
    assert_eq!(code.table.len(), symbols.len());
    for a in &symbols {
        for b in &symbols {
            if a != b {
                let ca = code_of(&code, *a);
                let cb = code_of(&code, *b);
                assert!(!ca.is_empty());
                assert!(!cb.starts_with(&ca));
            }
        }
    }
}

#[test]
fn compress_packs_one_code_per_byte() {
    let packed = Huffman::compress(&ten_zeros_five_ones());
    assert_eq!(packed.freq.freq, vec![(1, 5), (0, 10)]);
    let mut expected = vec![true; 10];
    expected.extend(vec![false; 5]);
    assert_eq!(packed.bitvec.len(), 15);
    assert_eq!(packed.bitvec.to_vec(), expected);
}

#[test]
fn compress_round_trips_the_scenario() {
    let input = ten_zeros_five_ones();
    let packed = Huffman::compress(&input);
    assert_eq!(Huffman::decompress(&packed), Ok(input));
}

#[test]
fn compress_round_trips_a_single_symbol() {
    let input = vec![9u8; 4];
    let packed = Huffman::compress(&input);
    assert_eq!(packed.freq.freq, vec![(9, 4)]);
    assert_eq!(packed.bitvec.to_vec(), vec![false; 4]);
    assert_eq!(Huffman::decompress(&packed), Ok(input));
}

#[test]
fn compress_round_trips_every_byte_value() {
    let mut input: Vec<u8> = Vec::new();
    for i in 0..4000usize {
        input.push(((i * 7 + i / 13) % 256) as u8);
    }
    let packed = Huffman::compress(&input);
    assert_eq!(packed.freq.freq.len(), 256);
    assert_eq!(packed.bitvec.len(), 8 * input.len());
    assert_eq!(Huffman::decompress(&packed), Ok(input));
}

#[test]
fn compress_is_deterministic() {
    let input = b"abracadabra, abracadabra".to_vec();
    let one = Huffman::compress(&input);
    let two = Huffman::compress(&input);
    assert_eq!(one.freq.freq, two.freq.freq);
    assert_eq!(one.bitvec.to_vec(), two.bitvec.to_vec());
}

#[test]
fn try_compress_refuses_empty_input() {
    assert!(Huffman::try_compress(&[]).is_none());
    assert!(Huffman::try_compress(&[1]).is_some());
}

#[test]
fn decompress_rebuilds_the_tree_from_the_table() {
    let packed = envelope(vec![(b'x', 1), (b'y', 1), (b'z', 5)], &[true, false, true, false, false]);
    assert_eq!(Huffman::decompress(&packed), Ok(vec![b'z', b'y', b'x']));
}

#[test]
fn decompress_of_no_bits_is_empty() {
    let packed = envelope(vec![(1, 1), (2, 1)], &[]);
    assert_eq!(Huffman::decompress(&packed), Ok(vec![]));
}

#[test]
fn decompress_rejects_an_empty_table() {
    let packed = envelope(vec![], &[]);
    assert_eq!(Huffman::decompress(&packed), Err(CompressionError::CorruptEnvelope));
    let packed = envelope(vec![], &[false]);
    assert_eq!(Huffman::decompress(&packed), Err(CompressionError::CorruptEnvelope));
}

#[test]
fn decompress_rejects_a_bit_that_leaves_the_tree() {
    let packed = envelope(vec![(7, 3)], &[false, true, false]);
    assert_eq!(Huffman::decompress(&packed), Err(CompressionError::CorruptEnvelope));
}

#[test]
fn decompress_rejects_bits_that_end_between_symbols() {
    let packed = envelope(vec![(1, 1), (2, 1), (3, 1)], &[true, false]);
    assert_eq!(Huffman::decompress(&packed), Err(CompressionError::CorruptEnvelope));
}

#[test]
fn bits_convert_to_and_from_bools() {
    let bools = [true, false, false, true, true, false, true, false, true];
    let bits = Bits::from_slice(&bools).unwrap();
    assert_eq!(bits.len(), 9);
    assert_eq!(bits.to_vec(), bools.to_vec());
    let empty = Bits::from_slice(&[]).unwrap();
    assert_eq!(empty.len(), 0);
    assert_eq!(empty.to_vec(), Vec::<bool>::new());
}
