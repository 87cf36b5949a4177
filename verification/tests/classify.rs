use rs_compressor::file_type::{detect_file_type, select_algorithm, Algorithm, FileType};

#[test]
fn classify_png_is_image() {
    let mut data = vec![0x89u8, 0x50, 0x4E, 0x47, 0x0D, 0x0A, 0x1A, 0x0A];
    data.extend_from_slice(&[1, 2, 3, 4]);
    assert_eq!(detect_file_type(&data), FileType::Image);
}

#[test]
fn classify_jpeg_is_image() {
    let data = vec![0xFFu8, 0xD8, 0xFF, 0xE0, 0x00, 0x10, 0x4A, 0x46, 0x49, 0x46];
    assert_eq!(detect_file_type(&data), FileType::Image);
}

#[test]
fn classify_gif_is_image() {
    let data = b"GIF89a\xFF\xFF trailing".to_vec();
    assert_eq!(detect_file_type(&data), FileType::Image);
}

#[test]
fn classify_plain_text() {
    assert_eq!(detect_file_type(b"hello world\n"), FileType::Text);
}

#[test]
fn classify_empty_is_text() {
    assert_eq!(detect_file_type(b""), FileType::Text);
}

#[test]
fn classify_mixed_bytes_is_binary() {
    let data = vec![0x00u8, 0xFF, 0x00, 0xFF, 0x10, 0x80, 0x00, 0xFF, 0x42];
    assert_eq!(detect_file_type(&data), FileType::Binary);
}

#[test]
fn select_text_is_lz() {
    assert_eq!(select_algorithm(FileType::Text, b"hello"), Algorithm::LZ);
}

#[test]
fn select_image_is_rle() {
    assert_eq!(select_algorithm(FileType::Image, &[0x89, 0x50]), Algorithm::RLE);
}

#[test]
fn select_unknown_is_lz() {
    assert_eq!(select_algorithm(FileType::Unknown, &[1, 2, 3]), Algorithm::LZ);
}

#[test]
fn select_binary_many_short_runs_is_rle() {
    // 3 runs over 3 bytes: ratio 2 * 3 / 3 = 2 > 0.5
    assert_eq!(select_algorithm(FileType::Binary, &[1, 2, 3]), Algorithm::RLE);
}

#[test]
fn select_binary_long_runs_is_lz() {
    // 1 run over 100 bytes: ratio 2 / 100 = 0.02 <= 0.5
    let data = vec![0u8; 100];
    assert_eq!(select_algorithm(FileType::Binary, &data), Algorithm::LZ);
}

#[test]
fn select_binary_ratio_exactly_half_is_lz() {
    // 2 runs over 8 bytes: ratio 4 / 8 = 0.5, not strictly above one half
    let data = vec![7u8, 7, 7, 7, 8, 8, 8, 8];
    assert_eq!(select_algorithm(FileType::Binary, &data), Algorithm::LZ);
}

#[test]
fn select_binary_empty_is_lz() {
    assert_eq!(select_algorithm(FileType::Binary, b""), Algorithm::LZ);
}

#[test]
fn selector_is_deterministic() {
    let data = vec![0x00u8, 0xFF, 0x01, 0x01, 0x02];
    let first = select_algorithm(FileType::Binary, &data);
    let second = select_algorithm(FileType::Binary, &data);
    assert_eq!(first, second);
    let third = detect_file_type(&data);
    let fourth = detect_file_type(&data);
    assert_eq!(third, fourth);
}
