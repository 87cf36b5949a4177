use rs_compressor::error::CodecError;
use rs_compressor::header::{create_header, read_header, Algorithm as HeaderAlgorithm};
use rs_compressor::{compress, compress_batch, decompress, decompress_batch, Algorithm};

#[test]
fn header_layout_is_byte_exact() {
    assert_eq!(create_header(HeaderAlgorithm::RLE), b"RSCMP\x01\x01\x00".to_vec());
    assert_eq!(create_header(HeaderAlgorithm::LZ), b"RSCMP\x01\x02\x00".to_vec());
}

#[test]
fn header_roundtrip() {
    assert_eq!(read_header(&create_header(HeaderAlgorithm::RLE)).unwrap(), HeaderAlgorithm::RLE);
    assert_eq!(read_header(&create_header(HeaderAlgorithm::LZ)).unwrap(), HeaderAlgorithm::LZ);
}

#[test]
fn header_rejects_short_buffer() {
    assert_eq!(read_header(b"").unwrap_err(), CodecError::InvalidFormat);
}

#[test]
fn header_rejects_bad_magic() {
    assert_eq!(read_header(b"XXXXX\x01\x01\x00").unwrap_err(), CodecError::InvalidMagic);
}

#[test]
fn header_rejects_bad_version() {
    assert_eq!(read_header(b"RSCMP\x02\x01\x00").unwrap_err(), CodecError::UnsupportedVersion);
}

#[test]
fn header_rejects_bad_algorithm_id() {
    assert_eq!(read_header(b"RSCMP\x01\x09\x00").unwrap_err(), CodecError::InvalidAlgorithmId);
}

#[test]
fn error_messages() {
    assert_eq!(CodecError::InvalidFormat.message(), "Invalid compressed file format");
    assert_eq!(CodecError::InvalidMagic.message(), "Invalid magic number");
    assert_eq!(CodecError::UnsupportedVersion.message(), "Unsupported version");
    assert_eq!(CodecError::InvalidAlgorithmId.message(), "Invalid algorithm identifier");
    assert_eq!(CodecError::MalformedPayload.message(), "Malformed payload");
}

#[test]
fn compress_explicit_rle_end_to_end() {
    let input = b"AAAAAAAAAA";
    let result = compress(input, Algorithm::RLE, "runs.bin").unwrap();
    assert_eq!(result.algorithm, Algorithm::RLE);
    assert_eq!(result.filename, "runs.bin");
    assert_eq!(&result.data[..8], b"RSCMP\x01\x01\x00");
    // explicit-mode decompression strips no header: the caller hands it the
    // payload that follows the 8 header bytes
    let restored = decompress(&result.data[8..], Algorithm::RLE).unwrap();
    assert_eq!(restored, input.to_vec());
}

#[test]
fn compress_auto_text_picks_lz_end_to_end() {
    let input = b"The quick brown fox jumps over the lazy dog. The quick brown fox.";
    let result = compress(input, Algorithm::Auto, "fox.txt").unwrap();
    assert_eq!(result.algorithm, Algorithm::LZ);
    assert_eq!(result.data[6], 0x02);
    assert_eq!(&result.data[..8], b"RSCMP\x01\x02\x00");
    let restored = decompress(&result.data, Algorithm::Auto).unwrap();
    assert_eq!(restored, input.to_vec());
}

#[test]
fn compress_auto_image_picks_rle_end_to_end() {
    let mut input = vec![0x89u8, 0x50, 0x4E, 0x47, 0x0D, 0x0A, 0x1A, 0x0A];
    input.extend_from_slice(&[9u8; 32]);
    let result = compress(&input, Algorithm::Auto, "img.png").unwrap();
    assert_eq!(result.algorithm, Algorithm::RLE);
    assert_eq!(result.data[6], 0x01);
    let restored = decompress(&result.data, Algorithm::Auto).unwrap();
    assert_eq!(restored, input);
}

#[test]
fn decompress_auto_rejects_headerless_input() {
    assert_eq!(decompress(b"", Algorithm::Auto).unwrap_err(), CodecError::InvalidFormat);
    assert_eq!(
        decompress(b"XXXXX\x01\x01\x00", Algorithm::Auto).unwrap_err(),
        CodecError::InvalidMagic
    );
}

#[test]
fn compress_batch_compresses_every_item() {
    let files = vec![
        ("a.txt".to_string(), b"hello hello hello".to_vec()),
        ("b.bin".to_string(), vec![0u8; 64]),
    ];
    let batch = compress_batch(&files, Algorithm::Auto);
    assert_eq!(batch.errors().len(), 0);
    let results = batch.results();
    assert_eq!(results.len(), 2);
    assert_eq!(results[0].filename, "a.txt");
    assert_eq!(results[1].filename, "b.bin");
    for (result, (_, original)) in results.iter().zip(files.iter()) {
        let restored = decompress(&result.data, Algorithm::Auto).unwrap();
        assert_eq!(&restored, original);
    }
}

#[test]
fn decompress_batch_isolates_failures() {
    let good = compress(b"some text, some text", Algorithm::Auto, "good").unwrap();
    let files = vec![
        ("good".to_string(), good.data.clone()),
        ("bad".to_string(), b"not a container".to_vec()),
    ];
    let (oks, errs) = decompress_batch(&files, Algorithm::Auto);
    assert_eq!(oks.len(), 1);
    assert_eq!(oks[0].0, "good");
    assert_eq!(oks[0].1, b"some text, some text".to_vec());
    assert_eq!(errs.len(), 1);
    assert_eq!(errs[0].0, "bad");
    assert_eq!(errs[0].1, CodecError::InvalidMagic);
}
