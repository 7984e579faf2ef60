use coppa::fec::ldpc::codes::{CodeRate, LdpcCode, SparseEntry};
use coppa::fec::ldpc::encoder::LdpcEncoder;
use coppa::fec::ldpc::nr_bg2::{self, BaseGraph, NrBg2Encoder};

/// Columns of the entries of each base row.
const COLUMNS: [&[usize]; 42] = [
    &[0, 1, 2, 3, 6, 9, 10, 11], &[0, 3, 4, 5, 6, 7, 8, 9, 11, 12],
    &[0, 1, 3, 4, 8, 10, 12, 13], &[1, 2, 4, 5, 6, 7, 8, 9, 10, 13], &[0, 1, 11, 14],
    &[0, 1, 5, 7, 11, 15], &[0, 5, 7, 9, 11, 16], &[1, 5, 7, 11, 13, 17], &[0, 1, 12, 18],
    &[1, 8, 10, 11, 19], &[0, 1, 6, 7, 20], &[0, 7, 9, 13, 21], &[1, 3, 11, 22],
    &[0, 1, 8, 13, 23], &[1, 6, 11, 13, 24], &[0, 10, 11, 25], &[1, 9, 11, 12, 26],
    &[1, 5, 11, 12, 27], &[0, 6, 7, 28], &[0, 1, 10, 29], &[1, 4, 11, 30], &[0, 8, 13, 31],
    &[1, 2, 32], &[0, 3, 5, 33], &[1, 2, 9, 34], &[0, 5, 35], &[2, 7, 12, 13, 36], &[0, 6, 37],
    &[1, 2, 5, 38], &[0, 4, 39], &[2, 5, 7, 9, 40], &[1, 13, 41], &[0, 5, 12, 42],
    &[2, 7, 10, 43], &[0, 12, 13, 44], &[1, 5, 11, 45], &[0, 2, 7, 46], &[10, 13, 47],
    &[1, 5, 11, 48], &[0, 7, 12, 49], &[2, 10, 13, 50], &[1, 5, 11, 51],
];

/// A graph on those places: zero shifts on the extension diagonal and in the
/// core but for one, and spread shifts everywhere else.
fn base_graph() -> BaseGraph {
    let mut entries = Vec::new();
    for (base_row, cols) in COLUMNS.iter().enumerate() {
        for &base_col in cols.iter() {
            let shift = if base_col >= 14 || (base_row < 4 && base_col >= 10) {
                if (base_row, base_col) == (2, 10) {
                    1
                } else {
                    0
                }
            } else {
                (base_row * base_row * 7 + base_col * 31 + base_row * base_col * 13) % 176
            };
            entries.push(SparseEntry { base_row, base_col, shift });
        }
    }
    BaseGraph::new(entries).unwrap()
}

fn full_codeword_from_info(info: &[u8], mother: &[u8]) -> Vec<u8> {
    let z = nr_bg2::ZC;
    let punctured = nr_bg2::PUNCTURED_INFO_COLS;
    let mut full = Vec::with_capacity(nr_bg2::BASE_COLS * z);
    full.extend_from_slice(&info[..punctured * z]);
    full.extend_from_slice(mother);
    full
}

fn check_full_codeword(graph: &BaseGraph, full: &[u8]) -> bool {
    let z = nr_bg2::ZC;
    for row in 0..nr_bg2::BASE_ROWS {
        for i in 0..z {
            let mut syn = 0u8;
            for &SparseEntry { base_row: r, base_col: c, shift: s } in graph.entries() {
                if r != row {
                    continue;
                }
                syn ^= full[c * z + (i + s) % z];
            }
            if syn != 0 {
                return false;
            }
        }
    }
    true
}

#[test]
fn mother_length_is_8800() {
    let enc = NrBg2Encoder::new(base_graph()).unwrap();
    let info = vec![0u8; nr_bg2::KB * nr_bg2::ZC];
    let mother = enc.encode_mother(&info);
    assert_eq!(
        mother.len(),
        (nr_bg2::BASE_COLS - nr_bg2::PUNCTURED_INFO_COLS) * nr_bg2::ZC
    );
}

#[test]
fn all_zero_info_gives_all_zero_mother() {
    let enc = NrBg2Encoder::new(base_graph()).unwrap();
    let info = vec![0u8; nr_bg2::KB * nr_bg2::ZC];
    let mother = enc.encode_mother(&info);
    assert!(mother.iter().all(|&b| b == 0));
}

#[test]
fn random_info_produces_valid_codewords() {
    let enc = NrBg2Encoder::new(base_graph()).unwrap();
    let mut seed: u64 = 0xC0FF_EE12_3456_789A;
    let mut next_bit = move || {
        seed ^= seed << 13;
        seed ^= seed >> 7;
        seed ^= seed << 17;
        (seed & 1) as u8
    };
    for _trial in 0..12 {
        let info: Vec<u8> = (0..nr_bg2::KB * nr_bg2::ZC).map(|_| next_bit()).collect();
        let mother = enc.encode_mother(&info);
        let full = full_codeword_from_info(&info, &mother);
        assert!(
            check_full_codeword(enc.graph(), &full),
            "encoded codeword failed H*c^T=0"
        );
    }
}

#[test]
fn systematic_property_holds_for_non_punctured_info() {
    let enc = NrBg2Encoder::new(base_graph()).unwrap();
    let info: Vec<u8> = (0..nr_bg2::KB * nr_bg2::ZC)
        .map(|i| (i % 2) as u8)
        .collect();
    let mother = enc.encode_mother(&info);
    let non_punctured_len = (nr_bg2::KB - nr_bg2::PUNCTURED_INFO_COLS) * nr_bg2::ZC;
    assert_eq!(
        &mother[..non_punctured_len],
        &info[nr_bg2::PUNCTURED_INFO_COLS * nr_bg2::ZC..]
    );
}

#[test]
fn encode_is_deterministic() {
    let enc = NrBg2Encoder::new(base_graph()).unwrap();
    let info: Vec<u8> = (0..nr_bg2::KB * nr_bg2::ZC)
        .map(|i| ((i * 3 + 1) % 2) as u8)
        .collect();
    assert_eq!(enc.encode_mother(&info), enc.encode_mother(&info));
}

#[test]
fn test_encode_all_zeros() {
    for rate in &[
        CodeRate::Rate1_4,
        CodeRate::Rate1_3,
        CodeRate::Rate1_2,
        CodeRate::Rate2_3,
        CodeRate::Rate3_4,
        CodeRate::Rate7_8,
    ] {
        let code = LdpcCode::new(*rate);
        let enc = LdpcEncoder::new(code.clone());
        let info = vec![0u8; code.info_bits()];
        let cw = enc.encode_block(&info);

        // All-zero info should produce all-zero codeword
        assert!(
            cw.iter().all(|&b| b == 0),
            "{:?}: all-zero encode failed",
            rate
        );
        assert!(
            code.check_codeword(&cw),
            "{:?}: codeword check failed",
            rate
        );
    }
}

#[test]
fn test_encode_output_length() {
    for rate in &[
        CodeRate::Rate1_4,
        CodeRate::Rate1_3,
        CodeRate::Rate1_2,
        CodeRate::Rate2_3,
        CodeRate::Rate3_4,
        CodeRate::Rate7_8,
    ] {
        let code = LdpcCode::new(*rate);
        let enc = LdpcEncoder::new(code.clone());
        let info: Vec<u8> = (0..code.info_bits()).map(|i| (i % 2) as u8).collect();
        let cw = enc.encode_block(&info);
        assert_eq!(cw.len(), 1944, "{:?}: wrong output length", rate);
    }
}

#[test]
fn test_systematic_property() {
    // Info bits should appear unchanged at the start of the codeword
    for rate in &[
        CodeRate::Rate1_4,
        CodeRate::Rate1_3,
        CodeRate::Rate1_2,
        CodeRate::Rate2_3,
        CodeRate::Rate3_4,
        CodeRate::Rate7_8,
    ] {
        let code = LdpcCode::new(*rate);
        let enc = LdpcEncoder::new(code.clone());
        let info: Vec<u8> = (0..code.info_bits())
            .map(|i| ((i * 7 + 3) % 2) as u8)
            .collect();
        let cw = enc.encode_block(&info);
        assert_eq!(
            &cw[..code.info_bits()],
            &info[..],
            "{:?}: systematic property violated",
            rate
        );
    }
}

#[test]
fn test_valid_codewords() {
    // Every encoded block should satisfy H * c = 0
    for rate in &[
        CodeRate::Rate1_4,
        CodeRate::Rate1_3,
        CodeRate::Rate1_2,
        CodeRate::Rate2_3,
        CodeRate::Rate3_4,
        CodeRate::Rate7_8,
    ] {
        let code = LdpcCode::new(*rate);
        let enc = LdpcEncoder::new(code.clone());

        // Test several patterns
        for seed in 0..5u64 {
            let info: Vec<u8> = (0..code.info_bits())
                .map(|i| (((i as u64).wrapping_mul(seed.wrapping_add(7)) + 13) % 2) as u8)
                .collect();
            let cw = enc.encode_block(&info);
            assert!(
                code.check_codeword(&cw),
                "{:?} seed {}: codeword failed parity check",
                rate,
                seed
            );
        }
    }
}

#[test]
fn test_encode_deterministic() {
    let code = LdpcCode::new(CodeRate::Rate1_2);
    let enc = LdpcEncoder::new(code.clone());
    let info: Vec<u8> = (0..code.info_bits()).map(|i| (i % 3 == 0) as u8).collect();
    let cw1 = enc.encode_block(&info);
    let cw2 = enc.encode_block(&info);
    assert_eq!(cw1, cw2, "Encoding should be deterministic");
}

#[test]
fn test_different_inputs_different_codewords() {
    let code = LdpcCode::new(CodeRate::Rate1_2);
    let enc = LdpcEncoder::new(code.clone());
    let info1 = vec![0u8; code.info_bits()];
    let mut info2 = vec![0u8; code.info_bits()];
    info2[0] = 1;
    let cw1 = enc.encode_block(&info1);
    let cw2 = enc.encode_block(&info2);
    assert_ne!(
        cw1, cw2,
        "Different inputs should produce different codewords"
    );
}

#[test]
fn wrong_input_length_is_reported() {
    let enc = LdpcEncoder::try_new(LdpcCode::new(CodeRate::Rate1_2)).unwrap();
    assert_eq!(
        enc.try_encode_block(&[0, 1, 0]),
        Err("Expected 972 info bits, got 3".to_string())
    );
    let info = vec![1u8; 972];
    assert_eq!(enc.try_encode_block(&info), Ok(enc.encode_block(&info)));
    assert_eq!(enc.code().rate(), CodeRate::Rate1_2);
}

#[test]
fn codewords_add_up() {
    // The code is linear: the sum of two codewords is the codeword of the sum.
    let enc = LdpcEncoder::new(LdpcCode::new(CodeRate::Rate3_4));
    let a: Vec<u8> = (0..1458).map(|i| (i % 5 == 0) as u8).collect();
    let b: Vec<u8> = (0..1458).map(|i| (i % 7 == 2) as u8).collect();
    let sum: Vec<u8> = a.iter().zip(&b).map(|(x, y)| x ^ y).collect();
    let ca = enc.encode_block(&a);
    let cb = enc.encode_block(&b);
    let cs: Vec<u8> = ca.iter().zip(&cb).map(|(x, y)| x ^ y).collect();
    assert_eq!(enc.encode_block(&sum), cs);
}

#[test]
fn graphs_of_another_form_are_refused() {
    let good = base_graph().entries().to_vec();
    let mut twice = good.clone();
    twice.push(good[0]);
    assert!(BaseGraph::new(twice).is_none());
    let mut wide = good.clone();
    wide[0].shift = nr_bg2::ZC;
    assert!(BaseGraph::new(wide).is_none());
    let mut short = good.clone();
    short.pop();
    assert!(BaseGraph::new(short).is_none());
    assert_eq!(BaseGraph::new(good).unwrap().entries().len(), 197);
}

#[test]
fn a_singular_core_gives_no_encoder() {
    let mut entries = base_graph().entries().to_vec();
    for e in entries.iter_mut() {
        if (e.base_row, e.base_col) == (2, 10) {
            e.base_row = 1;
        }
    }
    // Two equal shifts in column ten cancel, so the four core columns add up to zero.
    entries.retain(|e| (e.base_row, e.base_col) != (1, 10));
    assert!(NrBg2Encoder::new(BaseGraph::new(entries).unwrap()).is_none());
}

#[test]
fn block_product_is_exact() {
    let entries = [
        SparseEntry { base_row: 0, base_col: 0, shift: 1 },
        SparseEntry { base_row: 0, base_col: 1, shift: 0 },
        SparseEntry { base_row: 1, base_col: 1, shift: 2 },
    ];
    let x = [1, 0, 0, 0, 1, 1];
    let out = nr_bg2::lifted_block_matvec(&entries, 3, 0, 2, 0, 2, &x);
    assert_eq!(out, vec![0, 1, 0, 1, 0, 1]);
}

#[test]
fn core_matrix_has_the_lifted_ones() {
    let graph = base_graph();
    let m = nr_bg2::build_core_matrix(&graph);
    assert!(m.get(0, 0));
    assert!(!m.get(0, 1));
    assert!(m.get(352, 1));
    let inverse = m.invert().unwrap();
    let x: Vec<u8> = (0..704).map(|i| (i % 3 == 0) as u8).collect();
    assert_eq!(inverse.mul_vec(&m.mul_vec(&x)), x);
}

#[test]
fn mother_codewords_add_up() {
    let enc = NrBg2Encoder::new(base_graph()).unwrap();
    let n = nr_bg2::KB * nr_bg2::ZC;
    let a: Vec<u8> = (0..n).map(|i| (i % 3 == 0) as u8).collect();
    let b: Vec<u8> = (0..n).map(|i| (i % 7 == 2) as u8).collect();
    let sum: Vec<u8> = a.iter().zip(&b).map(|(x, y)| x ^ y).collect();
    let expected: Vec<u8> = enc
        .encode_mother(&a)
        .iter()
        .zip(&enc.encode_mother(&b))
        .map(|(x, y)| x ^ y)
        .collect();
    assert_eq!(enc.encode_mother(&sum), expected);
}
