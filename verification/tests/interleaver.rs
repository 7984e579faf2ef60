use coppa::fec::interleaver::{BlockInterleaver, FrequencyInterleaver, InterleaverError};

#[test]
fn test_block_interleave_roundtrip() {
    let il = BlockInterleaver::new(4, 6).unwrap();
    let data: Vec<u8> = (0..24).collect();

    let interleaved = il.interleave(&data).unwrap();
    assert_ne!(interleaved, data); // should be permuted

    let deinterleaved = il.deinterleave(&interleaved).unwrap();
    assert_eq!(deinterleaved, data);
}

#[test]
fn test_block_interleave_known_pattern() {
    // 3x4 matrix:
    // Write rows:   [0  1  2  3]
    //               [4  5  6  7]
    //               [8  9 10 11]
    //
    // Read columns: [0 4 8] [1 5 9] [2 6 10] [3 7 11]
    // Result:        0 4 8  1 5 9  2 6 10  3 7 11
    let il = BlockInterleaver::new(3, 4).unwrap();
    let data: Vec<u8> = (0..12).collect();
    let interleaved = il.interleave(&data).unwrap();
    assert_eq!(interleaved, vec![0, 4, 8, 1, 5, 9, 2, 6, 10, 3, 7, 11]);
}

#[test]
fn test_block_interleave_square() {
    let il = BlockInterleaver::new(4, 4).unwrap();
    let data: Vec<u8> = (0..16).collect();

    let interleaved = il.interleave(&data).unwrap();
    let deinterleaved = il.deinterleave(&interleaved).unwrap();
    assert_eq!(deinterleaved, data);
}

#[test]
fn test_block_interleave_1x_n() {
    // 1 row: interleaving is identity
    let il = BlockInterleaver::new(1, 8).unwrap();
    let data: Vec<u8> = (0..8).collect();
    let interleaved = il.interleave(&data).unwrap();
    assert_eq!(interleaved, data);
}

#[test]
fn test_block_interleave_n_x_1() {
    // 1 column: interleaving is identity
    let il = BlockInterleaver::new(8, 1).unwrap();
    let data: Vec<u8> = (0..8).collect();
    let interleaved = il.interleave(&data).unwrap();
    assert_eq!(interleaved, data);
}

#[test]
fn test_block_interleave_wrong_length() {
    let il = BlockInterleaver::new(3, 4).unwrap();
    assert!(il.interleave(&[0; 10]).is_err());
    assert!(il.deinterleave(&[0; 10]).is_err());
}

#[test]
fn test_block_interleave_zero_dims() {
    assert!(BlockInterleaver::new(0, 4).is_err());
    assert!(BlockInterleaver::new(4, 0).is_err());
}

#[test]
fn test_block_interleave_padded() {
    let il = BlockInterleaver::new(3, 4).unwrap();
    let data: Vec<u8> = vec![1, 2, 3, 4, 5]; // 5 < 12
    let interleaved = il.interleave_padded(&data);
    assert_eq!(interleaved.len(), 12);

    let deinterleaved = il.deinterleave_truncated(&interleaved, 5).unwrap();
    assert_eq!(deinterleaved, data);
}

#[test]
fn test_block_interleave_burst_spreading() {
    // A burst of `cols` consecutive errors in the interleaved domain
    // should become single errors spread across different rows.
    let rows = 8;
    let cols = 6;
    let il = BlockInterleaver::new(rows, cols).unwrap();

    let data: Vec<u8> = vec![0; rows * cols];
    let mut interleaved = il.interleave(&data).unwrap();

    // Simulate a burst error of length `rows` starting at position 0
    // (first column's worth of data)
    for b in interleaved.iter_mut().take(rows) {
        *b = 1;
    }

    let deinterleaved = il.deinterleave(&interleaved).unwrap();

    // The errors should be spread: one per row, each in column 0
    let mut error_count_per_row = vec![0u32; rows];
    for (i, &val) in deinterleaved.iter().enumerate() {
        if val != 0 {
            error_count_per_row[i / cols] += 1;
        }
    }

    // Each row should have at most 1 error
    for count in &error_count_per_row {
        assert!(
            *count <= 1,
            "Burst not properly spread: {:?}",
            error_count_per_row
        );
    }
}

#[test]
fn test_block_interleave_soft_roundtrip() {
    let il = BlockInterleaver::new(4, 8).unwrap();
    let data: Vec<f32> = (0..32).map(|i| i as f32 * 0.1).collect();

    let interleaved = il.interleave_soft(&data).unwrap();
    let deinterleaved = il.deinterleave_soft(&interleaved).unwrap();

    for (a, b) in data.iter().zip(deinterleaved.iter()) {
        assert!((a - b).abs() < 1e-6);
    }
}

#[test]
fn test_block_interleave_soft_wrong_length() {
    let il = BlockInterleaver::new(3, 4).unwrap();
    assert!(il.interleave_soft(&[0.0; 10]).is_err());
    assert!(il.deinterleave_soft(&[0.0; 10]).is_err());
}

#[test]
fn test_block_interleave_large() {
    let il = BlockInterleaver::new(32, 64).unwrap();
    let data: Vec<u8> = (0..2048).map(|i| (i % 256) as u8).collect();

    let interleaved = il.interleave(&data).unwrap();
    let deinterleaved = il.deinterleave(&interleaved).unwrap();
    assert_eq!(deinterleaved, data);
}

#[test]
fn test_block_capacity() {
    let il = BlockInterleaver::new(5, 7).unwrap();
    assert_eq!(il.capacity(), 35);
    assert_eq!(il.rows(), 5);
    assert_eq!(il.cols(), 7);
}

#[test]
fn test_freq_interleave_roundtrip() {
    let fi = FrequencyInterleaver::new(64, 42).unwrap();
    let data: Vec<u8> = (0..64).map(|i| (i % 256) as u8).collect();

    let interleaved = fi.interleave(&data).unwrap();
    assert_ne!(interleaved, data);

    let deinterleaved = fi.deinterleave(&interleaved).unwrap();
    assert_eq!(deinterleaved, data);
}

#[test]
fn test_freq_interleave_is_permutation() {
    let fi = FrequencyInterleaver::new(32, 0).unwrap();
    let perm = fi.permutation();

    // Every index 0..32 should appear exactly once
    let mut sorted = perm.to_vec();
    sorted.sort();
    let expected: Vec<usize> = (0..32).collect();
    assert_eq!(sorted, expected);
}

#[test]
fn test_freq_interleave_different_seeds() {
    let fi1 = FrequencyInterleaver::new(64, 1).unwrap();
    let fi2 = FrequencyInterleaver::new(64, 2).unwrap();

    // Different seeds should produce different permutations
    assert_ne!(fi1.permutation(), fi2.permutation());
}

#[test]
fn test_freq_interleave_deterministic() {
    let fi1 = FrequencyInterleaver::new(64, 42).unwrap();
    let fi2 = FrequencyInterleaver::new(64, 42).unwrap();

    // Same seed should produce same permutation
    assert_eq!(fi1.permutation(), fi2.permutation());
}

#[test]
fn test_freq_interleave_small() {
    let fi = FrequencyInterleaver::new(4, 0).unwrap();
    let data: Vec<u8> = vec![10, 20, 30, 40];

    let interleaved = fi.interleave(&data).unwrap();
    let deinterleaved = fi.deinterleave(&interleaved).unwrap();
    assert_eq!(deinterleaved, data);
}

#[test]
fn test_freq_interleave_single() {
    let fi = FrequencyInterleaver::new(1, 0).unwrap();
    let data: Vec<u8> = vec![42];

    let interleaved = fi.interleave(&data).unwrap();
    assert_eq!(interleaved, data);
}

#[test]
fn test_freq_interleave_wrong_length() {
    let fi = FrequencyInterleaver::new(8, 0).unwrap();
    assert!(fi.interleave(&[0u8; 4]).is_err());
    assert!(fi.deinterleave(&[0u8; 4]).is_err());
}

#[test]
fn test_freq_interleave_zero_carriers() {
    assert!(FrequencyInterleaver::new(0, 0).is_err());
}

#[test]
fn test_freq_interleave_f32() {
    let fi = FrequencyInterleaver::new(16, 7).unwrap();
    let data: Vec<f32> = (0..16).map(|i| i as f32 * 1.5).collect();

    let interleaved = fi.interleave(&data).unwrap();
    let deinterleaved = fi.deinterleave(&interleaved).unwrap();

    for (a, b) in data.iter().zip(deinterleaved.iter()) {
        assert!((a - b).abs() < 1e-6);
    }
}

#[test]
fn test_freq_interleave_spreading() {
    // Adjacent inputs should map to non-adjacent outputs
    let fi = FrequencyInterleaver::new(64, 123).unwrap();
    let perm = fi.permutation();

    // Count how many adjacent input pairs map to adjacent output positions
    let mut adjacent_count = 0;
    for i in 0..(perm.len() - 1) {
        let diff = (perm[i] as isize - perm[i + 1] as isize).unsigned_abs();
        if diff <= 1 {
            adjacent_count += 1;
        }
    }

    // A good interleaver should have very few adjacent mappings
    // For 64 carriers, random chance gives ~2/64 ~ 3%
    assert!(
        adjacent_count < 10,
        "Too many adjacent mappings: {}/63",
        adjacent_count
    );
}

#[test]
fn test_freq_interleave_large() {
    let fi = FrequencyInterleaver::new(1024, 999).unwrap();
    let data: Vec<u8> = (0..1024).map(|i| (i % 256) as u8).collect();

    let interleaved = fi.interleave(&data).unwrap();
    let deinterleaved = fi.deinterleave(&interleaved).unwrap();
    assert_eq!(deinterleaved, data);
}

#[test]
fn test_combined_block_freq_roundtrip() {
    let block = BlockInterleaver::new(8, 64).unwrap();
    let freq = FrequencyInterleaver::new(64, 42).unwrap();

    let data: Vec<u8> = (0..512).map(|i| (i % 256) as u8).collect();

    // Interleave: block first, then frequency per row
    let block_interleaved = block.interleave(&data).unwrap();

    // Apply frequency interleaving to each "column group" (each set of 8 values)
    // In practice, freq interleaving would be per OFDM symbol.
    // Here we just test the combined pipeline.
    let freq_interleaved: Vec<u8> = block_interleaved
        .chunks(64)
        .flat_map(|chunk| freq.interleave(chunk).unwrap())
        .collect();

    // Deinterleave: frequency first, then block
    let freq_deinterleaved: Vec<u8> = freq_interleaved
        .chunks(64)
        .flat_map(|chunk| freq.deinterleave(chunk).unwrap())
        .collect();

    let result = block.deinterleave(&freq_deinterleaved).unwrap();
    assert_eq!(result, data);
}

#[test]
fn interleaver_errors_name_their_cause() {
    match BlockInterleaver::new(0, 4) {
        Err(e) => assert_eq!(e, InterleaverError::ZeroDimension { rows: 0, cols: 4 }),
        Ok(_) => panic!("a matrix without rows"),
    }
    match FrequencyInterleaver::new(0, 7) {
        Err(e) => assert_eq!(e, InterleaverError::NoCarriers),
        Ok(_) => panic!("no carriers to permute"),
    }
    let il = BlockInterleaver::new(3, 4).unwrap();
    assert_eq!(
        il.interleave(&[0; 10]),
        Err(InterleaverError::LengthMismatch { len: 10, capacity: 12 })
    );
}

#[test]
fn padding_is_cut_off_again() {
    let il = BlockInterleaver::new(2, 3).unwrap();
    assert_eq!(il.interleave_padded(&[1, 2, 3, 4]), vec![1, 4, 2, 0, 3, 0]);
    assert_eq!(il.deinterleave_truncated(&[1, 4, 2, 0, 3, 0], 4), Ok(vec![1, 2, 3, 4]));
}

#[test]
fn carriers_move_to_their_places() {
    let fi = FrequencyInterleaver::new(5, 3).unwrap();
    let perm = fi.permutation().to_vec();
    let data: Vec<u8> = vec![10, 11, 12, 13, 14];
    let out = fi.interleave(&data).unwrap();
    for i in 0..5 {
        assert_eq!(out[perm[i]], data[i]);
    }
    assert_eq!(fi.num_carriers(), 5);
}

#[test]
fn a_burst_hits_every_row_at_most_once() {
    let (rows, cols) = (5, 7);
    let il = BlockInterleaver::new(rows, cols).unwrap();
    let data: Vec<u8> = (0..35).collect();
    let sent = il.interleave(&data).unwrap();
    for from in 0..=rows * cols - rows {
        let mut got = sent.clone();
        for byte in &mut got[from..from + rows] {
            *byte ^= 0xFF;
        }
        let out = il.deinterleave(&got).unwrap();
        for r in 0..rows {
            let row = r * cols..(r + 1) * cols;
            let hits = row.filter(|&i| out[i] != data[i]).count();
            assert_eq!(hits, 1, "burst at {} in row {}", from, r);
        }
    }
}
