use rs_compressor::error::CodecError;
use rs_compressor::lz::{compress, decompress};
use rs_compressor::lz_tokens::{lzCompress, lzDecompress, Lz77Token};

#[test]
fn lz_test_rle_roundtrip() {
    let input = b"AAABBBCCCCCDDDDE";
    let compressed = compress(input);
    let decompressed = decompress(&compressed).unwrap();
    assert_eq!(input.to_vec(), decompressed);
}

#[test]
fn test_decompress() {
    let input = b"AAABBBCCCCCDDDDE";
    let compressed = compress(input);
    let decompressed = decompress(&compressed).unwrap();
    assert_eq!(input.to_vec(), decompressed);
}

#[test]
fn test_rle_roundtrip() {
    let input = b"AAABBBCCCCCDDDDE";
    let compressed = lzCompress(input);
    let decompressed = lzDecompress(&compressed).unwrap();
    assert_eq!(input.to_vec(), decompressed);
}

#[test]
fn lz_test_compress() {
    let input = b"AAABBBCCCCCDDDDE";
    let compressed = lzCompress(input);
    assert_eq!(compressed.len(), 9);
}

#[test]
fn lz_test_decompress() {
    let tokens = vec![
        Lz77Token { offset: 0, length: 0, next_char: b'A' },
        Lz77Token { offset: 1, length: 2, next_char: b'B' },
        Lz77Token { offset: 1, length: 2, next_char: b'C' },
        Lz77Token { offset: 1, length: 4, next_char: b'D' },
        Lz77Token { offset: 1, length: 3, next_char: b'E' },
    ];
    let decompressed = lzDecompress(&tokens).unwrap();
    assert_eq!(decompressed, b"AAABBBCCCCCDDDDE");
}

#[test]
fn lz_empty_encodes_to_empty() {
    assert_eq!(compress(b""), Vec::<u8>::new());
    assert_eq!(decompress(b"").unwrap(), Vec::<u8>::new());
}

#[test]
fn lz_roundtrip_long_run_uses_overlapping_copy() {
    // a long run encodes as a self-referential match (offset 1, length > 1)
    let input = vec![97u8; 40];
    let compressed = compress(&input);
    assert!(compressed.len() < input.len());
    assert_eq!(decompress(&compressed).unwrap(), input);
}

#[test]
fn lz_roundtrip_repeated_text() {
    let input = b"abcabcabcabcabcabc_the_end";
    let compressed = compress(input);
    assert_eq!(decompress(&compressed).unwrap(), input.to_vec());
}

#[test]
fn lz_roundtrip_zero_bytes() {
    let input = vec![0u8, 0u8, 5u8, 0u8, 0u8, 0u8, 5u8, 0u8];
    let compressed = compress(&input);
    assert_eq!(decompress(&compressed).unwrap(), input);
}

#[test]
fn lz_decompress_rejects_offset_past_start() {
    // flag 0x11: a match of length 4 at offset 256, but nothing was decoded yet
    let err = decompress(&[0x11, 0x00]).unwrap_err();
    assert_eq!(err, CodecError::MalformedPayload);
}

#[test]
fn lz_decompress_rejects_zero_offset() {
    // flag 0x01: a match of length 4 at offset 0
    let err = decompress(&[0x01, 0x00]).unwrap_err();
    assert_eq!(err, CodecError::MalformedPayload);
}

#[test]
fn lz_tokens_decompress_rejects_bad_offset() {
    let tokens = vec![Lz77Token { offset: 3, length: 2, next_char: b'A' }];
    let err = lzDecompress(&tokens).unwrap_err();
    assert_eq!(err, CodecError::MalformedPayload);
}
