use bytepress::{CompressionError, CompressionScheme, RLE};
use rand::random;

#[test]
fn test_compress_basic() {
    let input: [u8; 10] = [0; 10];
    let output = RLE::compress(&input[..]);
    assert_eq!(output, [0, 10]);
}

#[test]
fn test_lossless_condition() {
    const TEST_SIZE: usize = 1024;
    let mut input: [u8; TEST_SIZE] = [0; TEST_SIZE];
    for i in 0..TEST_SIZE {
        input[i] = random();
    }
    let output: Vec<u8> = RLE::compress(&input[..]);
    let regurgitated = RLE::decompress(&output).unwrap();
    assert_eq!(&input[..], &regurgitated[..]);
}

#[test]
fn test_run_length() {
    let input: [u8; u8::MAX as usize + 1] = [0; u8::MAX as usize + 1];
    let output = RLE::compress(&input[..]);
    assert_eq!(output, [0, u8::MAX, 0, 1]);
}

#[test]
fn rle_empty_input_gives_empty_output() {
    assert_eq!(RLE::compress(&[]), Vec::<u8>::new());
    assert_eq!(RLE::decompress(&Vec::new()), Ok(Vec::new()));
}

#[test]
fn rle_long_run_is_split_at_255() {
    let input = vec![7u8; 300];
    assert_eq!(RLE::compress(&input), vec![7, 255, 7, 45]);
}

#[test]
fn rle_run_of_exactly_255_is_one_pair() {
    let input = vec![9u8; 255];
    assert_eq!(RLE::compress(&input), vec![9, 255]);
}

#[test]
fn rle_mixed_runs() {
    let input = [1u8, 1, 2, 3, 3, 3, 1];
    assert_eq!(RLE::compress(&input), vec![1, 2, 2, 1, 3, 3, 1, 1]);
}

#[test]
fn rle_decompress_expands_pairs() {
    assert_eq!(RLE::decompress(&vec![5, 3, 6, 1]), Ok(vec![5, 5, 5, 6]));
}

#[test]
fn rle_decompress_accepts_a_run_of_zero() {
    assert_eq!(RLE::decompress(&vec![5, 0, 6, 2]), Ok(vec![6, 6]));
}

#[test]
fn rle_odd_length_is_incomplete() {
    assert_eq!(RLE::decompress(&vec![5, 3, 6]), Err(CompressionError::IncompleteInput));
    assert_eq!(RLE::decompress(&vec![5]), Err(CompressionError::IncompleteInput));
}

#[test]
fn rle_truncated_stream_is_incomplete() {
    let mut packed = RLE::compress(&[4, 4, 4, 8, 8]);
    assert_eq!(packed, vec![4, 3, 8, 2]);
    packed.pop();
    assert_eq!(RLE::decompress(&packed), Err(CompressionError::IncompleteInput));
}

#[test]
fn rle_round_trip() {
    let mut input: Vec<u8> = Vec::new();
    for i in 0..2000usize {
        input.push(((i / 37) % 5) as u8);
    }
    input.extend(vec![200u8; 700]);
    let packed = RLE::compress(&input);
    assert_eq!(packed.len() % 2, 0);
    assert_eq!(RLE::decompress(&packed), Ok(input));
}

#[test]
fn rle_is_deterministic() {
    let input = [3u8, 3, 3, 9, 9, 1];
    assert_eq!(RLE::compress(&input), RLE::compress(&input));
}
