use coppa::fec::ldpc::codes::{
    base_matrix_for_rate, base_matrix_rate_1_2, base_matrix_rate_1_3, base_matrix_rate_1_4,
    base_matrix_rate_2_3, base_matrix_rate_3_4, base_matrix_rate_7_8, CodeRate, LdpcCode,
    BASE_COLS, CODED_BITS, LIFTING_FACTOR,
};

#[test]
fn test_code_rate_parameters() {
    let test_cases = [
        (CodeRate::Rate1_4, 486, 1458, 6, 18),
        (CodeRate::Rate1_3, 648, 1296, 8, 16),
        (CodeRate::Rate1_2, 972, 972, 12, 12),
        (CodeRate::Rate2_3, 1296, 648, 16, 8),
        (CodeRate::Rate3_4, 1458, 486, 18, 6),
        (CodeRate::Rate7_8, 1701, 243, 21, 3),
    ];

    for (rate, info, parity, info_cols, parity_rows) in &test_cases {
        assert_eq!(rate.info_bits(), *info, "{:?} info bits", rate);
        assert_eq!(rate.parity_bits(), *parity, "{:?} parity bits", rate);
        assert_eq!(rate.info_cols(), *info_cols, "{:?} info cols", rate);
        assert_eq!(rate.parity_rows(), *parity_rows, "{:?} parity rows", rate);
        assert_eq!(
            info + parity,
            CODED_BITS,
            "{:?} total should be {}",
            rate,
            CODED_BITS
        );
    }
}

#[test]
fn test_base_matrix_dimensions() {
    let rates = [
        CodeRate::Rate1_4,
        CodeRate::Rate1_3,
        CodeRate::Rate1_2,
        CodeRate::Rate2_3,
        CodeRate::Rate3_4,
        CodeRate::Rate7_8,
    ];

    for rate in &rates {
        let code = LdpcCode::new(*rate);
        let matrix = base_matrix_for_rate(*rate);

        assert_eq!(
            matrix.len(),
            rate.parity_rows(),
            "{:?}: row count mismatch",
            rate
        );
        for (i, row) in matrix.iter().enumerate() {
            assert_eq!(
                row.len(),
                BASE_COLS,
                "{:?} row {}: col count mismatch",
                rate,
                i
            );
        }

        // Check shift values are valid
        for entry in code.entries() {
            assert!(
                entry.shift < LIFTING_FACTOR,
                "{:?}: shift {} >= Z={}",
                rate,
                entry.shift,
                LIFTING_FACTOR
            );
        }
    }
}

#[test]
fn test_sparse_entry_count() {
    // Each code should have a reasonable number of non-(-1) entries
    for rate in &[
        CodeRate::Rate1_4,
        CodeRate::Rate1_3,
        CodeRate::Rate1_2,
        CodeRate::Rate2_3,
        CodeRate::Rate3_4,
        CodeRate::Rate7_8,
    ] {
        let code = LdpcCode::new(*rate);
        assert!(
            !code.entries().is_empty(),
            "{:?}: no entries in base matrix",
            rate
        );
        // LDPC matrices should be sparse: entries << rows * cols
        let max_entries = code.base_rows() * code.base_cols();
        assert!(
            code.entries().len() < max_entries,
            "{:?}: matrix is not sparse",
            rate
        );
    }
}

#[test]
fn test_expand_h_dimensions() {
    let code = LdpcCode::new(CodeRate::Rate1_2);
    let (rows, cols) = code.expand_h();
    assert_eq!(rows.len(), cols.len());

    let z = LIFTING_FACTOR;
    let expected_nnz = code.entries().len() * z;
    assert_eq!(rows.len(), expected_nnz);

    // All indices should be in range
    let n_rows = code.base_rows() * z;
    let n_cols = code.base_cols() * z;
    for &r in &rows {
        assert!(r < n_rows);
    }
    for &c in &cols {
        assert!(c < n_cols);
    }
}

#[test]
fn test_all_zero_codeword() {
    // The all-zero vector is always a valid codeword for a linear code
    for rate in &[
        CodeRate::Rate1_4,
        CodeRate::Rate1_3,
        CodeRate::Rate1_2,
        CodeRate::Rate2_3,
        CodeRate::Rate3_4,
        CodeRate::Rate7_8,
    ] {
        let code = LdpcCode::new(*rate);
        let zero_cw = vec![0u8; CODED_BITS];
        assert!(
            code.check_codeword(&zero_cw),
            "{:?}: all-zero should be valid",
            rate
        );
    }
}

#[test]
fn test_parity_staircase_structure() {
    // Verify each rate's parity portion has staircase (dual-diagonal) structure
    // by checking each parity row has an entry on the diagonal
    for rate in &[
        CodeRate::Rate1_4,
        CodeRate::Rate1_3,
        CodeRate::Rate1_2,
        CodeRate::Rate2_3,
        CodeRate::Rate3_4,
        CodeRate::Rate7_8,
    ] {
        let code = LdpcCode::new(*rate);
        let info_cols = code.info_cols();
        let n_parity_rows = code.base_rows();

        // Check that the first parity column of each row has a 0-shift on the diagonal
        for row in 0..n_parity_rows {
            let has_diag = code
                .entries()
                .iter()
                .any(|e| e.base_row == row && e.base_col == info_cols + row && e.shift == 0);
            assert!(
                has_diag,
                "{:?} row {}: missing diagonal entry in parity portion",
                rate, row
            );
        }
    }
}

#[test]
fn base_matrices_have_known_rows() {
    assert_eq!(
        base_matrix_rate_1_4()[17],
        vec![
            -1, 70, 2, 49, -1, -1, -1, -1, -1, -1, -1, -1, -1, -1, -1, -1, -1, -1, -1, -1, -1, -1,
            32, 0
        ]
    );
    assert_eq!(
        base_matrix_rate_1_3()[15],
        vec![
            -1, 41, -1, 36, -1, -1, 60, 27, -1, -1, -1, -1, -1, -1, -1, -1, -1, -1, -1, -1, -1,
            -1, 13, 0
        ]
    );
    assert_eq!(
        base_matrix_rate_1_2()[0],
        vec![
            57, 50, 11, 50, 79, 3, 1, 0, 55, 7, -1, -1, 0, -1, -1, -1, -1, -1, -1, -1, -1, -1, -1,
            -1
        ]
    );
    assert_eq!(
        base_matrix_rate_2_3()[7],
        vec![
            -1, 47, 21, -1, 56, -1, -1, 38, -1, -1, 75, -1, -1, -1, 61, -1, -1, -1, -1, -1, -1,
            -1, 13, 0
        ]
    );
    assert_eq!(
        base_matrix_rate_3_4()[0],
        vec![
            61, 31, 50, 7, -1, 11, 53, -1, 3, 42, -1, 79, 27, -1, 55, -1, 24, 70, 0, -1, -1, -1,
            -1, -1
        ]
    );
    assert_eq!(
        base_matrix_rate_7_8()[2],
        vec![
            30, -1, 26, -1, 12, 43, 70, 71, 75, 21, 24, -1, 19, -1, 79, 64, -1, 63, 5, 36, 78, -1,
            33, 0
        ]
    );
}

#[test]
fn base_matrices_have_known_weights() {
    let cases = [
        (CodeRate::Rate1_4, 94, 3005),
        (CodeRate::Rate1_3, 103, 3499),
        (CodeRate::Rate1_2, 88, 2963),
        (CodeRate::Rate2_3, 77, 2812),
        (CodeRate::Rate3_4, 68, 2493),
        (CodeRate::Rate7_8, 60, 2159),
    ];
    for (rate, blocks, shifts) in cases {
        let code = LdpcCode::new(rate);
        assert_eq!(code.entries().len(), blocks, "{:?}", rate);
        assert_eq!(code.entries().iter().map(|e| e.shift).sum::<usize>(), shifts, "{:?}", rate);
        for e in code.entries() {
            assert_eq!(base_matrix_for_rate(rate)[e.base_row][e.base_col], e.shift as i16);
        }
    }
}

#[test]
fn one_flipped_bit_breaks_the_parity() {
    let code = LdpcCode::new(CodeRate::Rate1_2);
    for place in [0, 971, 972, 1943] {
        let mut word = vec![0u8; CODED_BITS];
        word[place] = 1;
        assert!(!code.check_codeword(&word));
    }
    assert!(!code.check_codeword(&[0u8; 7]));
    assert_eq!(code.rate(), CodeRate::Rate1_2);
    assert_eq!(code.lifting_factor(), 81);
    assert_eq!(code.parity_cols(), 12);
    assert_eq!(code.coded_bits(), 1944);
    assert_eq!(code.parity_bits(), 972);
}

#[test]
fn no_place_holds_two_blocks() {
    for rate in [
        CodeRate::Rate1_4,
        CodeRate::Rate1_3,
        CodeRate::Rate1_2,
        CodeRate::Rate2_3,
        CodeRate::Rate3_4,
        CodeRate::Rate7_8,
    ] {
        let code = LdpcCode::new(rate);
        let k = code.info_cols();
        assert_eq!(k + code.base_rows(), 24);
        let entries = code.entries();
        for (i, e) in entries.iter().enumerate() {
            assert!(e.base_row < code.base_rows() && e.shift < 81);
            assert!(e.base_col <= k + e.base_row);
            for f in &entries[..i] {
                assert!((f.base_row, f.base_col) != (e.base_row, e.base_col));
            }
        }
        for r in 0..code.base_rows() {
            assert!(entries
                .iter()
                .any(|e| e.base_row == r && e.base_col == k + r && e.shift == 0));
        }
    }
}

#[test]
fn adding_a_codeword_keeps_the_parity() {
    let code = LdpcCode::new(CodeRate::Rate1_2);
    let enc = coppa::fec::ldpc::encoder::LdpcEncoder::new(LdpcCode::new(CodeRate::Rate1_2));
    let info: Vec<u8> = (0..code.info_bits()).map(|i| (i % 5 == 1) as u8).collect();
    let word = enc.encode_block(&info);
    let mut other = vec![0u8; word.len()];
    let sum: Vec<u8> = word.iter().zip(&other).map(|(x, y)| x ^ y).collect();
    assert!(code.check_codeword(&sum));
    other[100] = 1;
    let sum: Vec<u8> = word.iter().zip(&other).map(|(x, y)| x ^ y).collect();
    assert!(!code.check_codeword(&other));
    assert!(!code.check_codeword(&sum));
}
