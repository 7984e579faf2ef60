use coppa::compression::lz4::{
    claimed_size, lz4_compress, lz4_decompress, Lz4Error, MAX_DECOMPRESS_SIZE,
    MAX_INPUT_SIZE,
};

#[test]
fn test_lz4_roundtrip() {
    let data = b"CQ CQ CQ DE VK2ABC VK2ABC VK2ABC K";
    let compressed = lz4_compress(data);
    let decompressed = lz4_decompress(&compressed).unwrap();
    assert_eq!(decompressed, data);
}

#[test]
fn test_lz4_empty() {
    let compressed = lz4_compress(b"");
    let decompressed = lz4_decompress(&compressed).unwrap();
    assert!(decompressed.is_empty());
}

#[test]
fn test_lz4_compresses_repeated_data() {
    let data = "ABCDEF".repeat(100);
    let compressed = lz4_compress(data.as_bytes());
    assert!(
        compressed.len() < data.len(),
        "LZ4 should compress repeated data: {} -> {}",
        data.len(),
        compressed.len()
    );
}

#[test]
fn test_lz4_invalid_data() {
    let result = lz4_decompress(&[0xFF, 0xFF, 0xFF, 0xFF]);
    assert!(result.is_err());
}

#[test]
fn test_lz4_oversized_claim() {
    // Craft a payload that claims 2 MiB decompressed size
    let mut bad = vec![0u8; 8];
    let size: u32 = 2_000_000;
    bad[0..4].copy_from_slice(&size.to_le_bytes());
    let result = lz4_decompress(&bad);
    assert!(
        result.is_err(),
        "Should reject oversized decompression claim"
    );
}

#[test]
fn test_lz4_single_byte() {
    let data = b"X";
    let compressed = lz4_compress(data);
    let decompressed = lz4_decompress(&compressed).unwrap();
    assert_eq!(decompressed, data);
}

#[test]
fn test_lz4_all_same_bytes() {
    let data = vec![0x42; 1000];
    let compressed = lz4_compress(&data);
    let decompressed = lz4_decompress(&compressed).unwrap();
    assert_eq!(decompressed, data);
    assert!(compressed.len() < data.len());
}

#[test]
fn test_lz4_ham_radio_text() {
    let data = b"CQ CQ CQ DE VK2ABC VK2ABC K";
    let compressed = lz4_compress(data);
    let decompressed = lz4_decompress(&compressed).unwrap();
    assert_eq!(decompressed, data);
}

#[test]
fn test_lz4_binary_data() {
    let data: Vec<u8> = (0..=255).collect();
    let compressed = lz4_compress(&data);
    let decompressed = lz4_decompress(&compressed).unwrap();
    assert_eq!(decompressed, data);
}

#[test]
fn test_lz4_truncated_data() {
    let data = b"Hello world test data";
    let compressed = lz4_compress(data);
    if compressed.len() > 4 {
        let truncated = &compressed[..compressed.len() / 2];
        let result = lz4_decompress(truncated);
        assert!(result.is_err());
    }
}

#[test]
fn compressed_data_starts_with_the_size() {
    let compressed = lz4_compress(&[7u8; 1000]);
    assert_eq!(claimed_size(&compressed), Some(1000));
    assert_eq!(compressed[..4], [0xE8, 0x03, 0, 0]);
    assert_eq!(claimed_size(&[1, 2, 3]), None);
}

#[test]
fn lz4_errors_name_their_cause() {
    assert_eq!(lz4_decompress(&[1, 0, 0]), Err(Lz4Error::ExpectedAnotherByte));
    assert_eq!(
        lz4_decompress(&[0x01, 0x40, 0, 0, 0]),
        Err(Lz4Error::ClaimTooLarge { claimed: 16385 })
    );
    // A literal of fifteen bytes or more that is not there.
    assert_eq!(lz4_decompress(&[4, 0, 0, 0, 0x40, 1]), Err(Lz4Error::LiteralOutOfBounds));
}

#[test]
fn largest_text_comes_back_and_a_larger_one_does_not() {
    let text: Vec<u8> = (0..MAX_DECOMPRESS_SIZE).map(|i| (i / 7 % 251) as u8).collect();
    assert_eq!(lz4_decompress(&lz4_compress(&text)), Ok(text.clone()));
    let mut longer = text;
    longer.push(0);
    assert!(lz4_decompress(&lz4_compress(&longer)).is_err());
}

#[test]
fn inputs_too_long_to_hold_a_text_are_refused() {
    let mut long = vec![0u8; MAX_INPUT_SIZE + 1];
    long[0] = 1;
    assert_eq!(
        lz4_decompress(&long),
        Err(Lz4Error::InputTooLong { len: MAX_INPUT_SIZE + 1 })
    );
    // The claim is looked at first.
    long[1] = 0x40;
    assert_eq!(
        lz4_decompress(&long),
        Err(Lz4Error::ClaimTooLarge { claimed: 16385 })
    );
    // What random bytes compress to stays within the bound of the buffer.
    let mut x: u32 = 1;
    let noise: Vec<u8> = (0..MAX_DECOMPRESS_SIZE)
        .map(|_| {
            x = x.wrapping_mul(1_664_525).wrapping_add(1_013_904_223);
            (x >> 24) as u8
        })
        .collect();
    let compressed = lz4_compress(&noise);
    assert!(compressed.len() <= 24 + noise.len() * 110 / 100);
    assert_eq!(lz4_decompress(&compressed), Ok(noise));
}
