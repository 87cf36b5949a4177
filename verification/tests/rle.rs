use rs_compressor::le::{compress, decompress};

#[test]
fn le_test_rle_roundtrip() {
    let input = b"AAABBBCCCCCDDDDE";
    let compressed = compress(input);
    let decompressed = decompress(&compressed);
    assert_eq!(input.to_vec(), decompressed);
}

#[test]
fn test_empty_input() {
    let input = b"";
    let compressed = compress(input);
    let decompressed = decompress(&compressed);
    assert_eq!(input.to_vec(), decompressed);
}

#[test]
fn test_single_char() {
    let input = b"A";
    let compressed = compress(input);
    let decompressed = decompress(&compressed);
    assert_eq!(input.to_vec(), decompressed);
}

#[test]
fn test_max_repetition() {
    let input = vec![65u8; 255]; // 255 A's
    let compressed = compress(&input);
    let decompressed = decompress(&compressed);
    assert_eq!(input, decompressed);
}

#[test]
fn test_binary_data() {
    let input = vec![0u8, 0u8, 0u8, 1u8, 1u8, 2u8, 2u8, 2u8];
    let compressed = compress(&input);
    let decompressed = decompress(&compressed);
    assert_eq!(input, decompressed);
}

#[test]
fn rle_empty_encodes_to_empty() {
    assert_eq!(compress(b""), Vec::<u8>::new());
    assert_eq!(decompress(b""), Vec::<u8>::new());
}

#[test]
fn rle_run_of_255_is_one_pair() {
    let input = vec![65u8; 255];
    assert_eq!(compress(&input), vec![255u8, 65u8]);
}

#[test]
fn rle_run_of_256_splits_into_two_pairs() {
    let input = vec![65u8; 256];
    assert_eq!(compress(&input), vec![255u8, 65u8, 1u8, 65u8]);
}

#[test]
fn rle_exact_pairs() {
    // AAABBBCCCCCDDDDE: runs of 3, 3, 5, 4, 1
    let compressed = compress(b"AAABBBCCCCCDDDDE");
    assert_eq!(
        compressed,
        vec![3, b'A', 3, b'B', 5, b'C', 4, b'D', 1, b'E']
    );
}

#[test]
fn rle_ignores_trailing_unpaired_byte() {
    // one whole pair, then a dangling count byte
    assert_eq!(decompress(&[2, 7, 9]), vec![7u8, 7u8]);
}
