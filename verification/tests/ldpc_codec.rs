use coppa::fec::ldpc::codes::{CodeRate, SparseEntry};
use coppa::fec::ldpc::nr_bg2::BaseGraph;
use coppa::fec::ldpc::{pin_known_pad, rate_match, LdpcCodec, NrLdpc};
use coppa::fec::scrambler::{prbs_bits, scramble};

/// Columns of the entries of each base row.
const COLUMNS: [&[usize]; 42] = [
    &[0, 1, 2, 3, 6, 9, 10, 11], &[0, 3, 4, 5, 6, 7, 8, 9, 11, 12],
    &[0, 1, 3, 4, 8, 10, 12, 13], &[1, 2, 4, 5, 6, 7, 8, 9, 10, 13], &[0, 1, 11, 14],
    &[0, 1, 5, 7, 11, 15], &[0, 5, 7, 9, 11, 16], &[1, 5, 7, 11, 13, 17], &[0, 1, 12, 18],
    &[1, 8, 10, 11, 19], &[0, 1, 6, 7, 20], &[0, 7, 9, 13, 21], &[1, 3, 11, 22],
    &[0, 1, 8, 13, 23], &[1, 6, 11, 13, 24], &[0, 10, 11, 25], &[1, 9, 11, 12, 26],
    &[1, 5, 11, 12, 27], &[0, 6, 7, 28], &[0, 1, 10, 29], &[1, 4, 11, 30], &[0, 8, 13, 31],
    &[1, 2, 32], &[0, 3, 5, 33], &[1, 2, 9, 34], &[0, 5, 35], &[2, 7, 12, 13, 36], &[0, 6, 37],
    &[1, 2, 5, 38], &[0, 4, 39], &[2, 5, 7, 9, 40], &[1, 13, 41], &[0, 5, 12, 42],
    &[2, 7, 10, 43], &[0, 12, 13, 44], &[1, 5, 11, 45], &[0, 2, 7, 46], &[10, 13, 47],
    &[1, 5, 11, 48], &[0, 7, 12, 49], &[2, 10, 13, 50], &[1, 5, 11, 51],
];

/// A graph on those places: zero shifts on the extension diagonal and in the
/// core but for one, and spread shifts everywhere else.
fn base_graph() -> BaseGraph {
    let mut entries = Vec::new();
    for (base_row, cols) in COLUMNS.iter().enumerate() {
        for &base_col in cols.iter() {
            let shift = if base_col >= 14 || (base_row < 4 && base_col >= 10) {
                if (base_row, base_col) == (2, 10) {
                    1
                } else {
                    0
                }
            } else {
                (base_row * base_row * 7 + base_col * 31 + base_row * base_col * 13) % 176
            };
            entries.push(SparseEntry { base_row, base_col, shift });
        }
    }
    BaseGraph::new(entries).unwrap()
}

#[test]
fn rate_match_output_is_exactly_e_for_every_level_and_rv() {
    let ldpc = NrLdpc::new(base_graph()).unwrap();
    let info = vec![0u8; NrLdpc::INFO_LEN];
    let mother = ldpc.encode(&info);
    for (level, k_used) in ALL_LEVELS_K_USED {
        for rv in 0..=3u8 {
            let matched = rate_match::rate_match(&mother, k_used, E, rv);
            assert_eq!(
                matched.len(),
                E,
                "level {level} rv={rv}: wrong rate_match length"
            );
        }
    }
}

#[test]
fn test_coded_length_consistent_all_rates() {
    let rates = [
        CodeRate::Rate1_4,
        CodeRate::Rate1_3,
        CodeRate::Rate1_2,
        CodeRate::Rate2_3,
        CodeRate::Rate3_4,
        CodeRate::Rate7_8,
    ];
    for rate in &rates {
        let codec = LdpcCodec::new(*rate);
        let info_bits = codec.code().info_bits();
        let input = vec![0u8; info_bits];
        let encoded = codec.encode(&input);
        assert_eq!(
            encoded.len(),
            1944,
            "Rate {:?}: all codes should produce 1944 coded bits",
            rate
        );
    }
}

#[test]
fn test_info_bits_matches_rate() {
    // Higher rates should have more info bits
    let codec_14 = LdpcCodec::new(CodeRate::Rate1_4);
    let codec_78 = LdpcCodec::new(CodeRate::Rate7_8);
    assert!(
        codec_78.code().info_bits() > codec_14.code().info_bits(),
        "Rate 7/8 should have more info bits than rate 1/4"
    );
}

const E: usize = 1944;

const ALL_LEVELS_K_USED: [(u8, usize); 9] = [
    (1, 486),
    (2, 972),
    (3, 972),
    (4, 1458),
    (5, 1296),
    (6, 972),
    (7, 1458),
    (9, 1296),
    (10, 1620),
];

#[test]
fn padding_is_pinned_to_the_keystream() {
    let mut values = vec![0i32; NrLdpc::MOTHER_LEN];
    pin_known_pad(&mut values, 400, 972, 64, -64);
    let prbs = prbs_bits(NrLdpc::INFO_LEN);
    for (m, &v) in values.iter().enumerate() {
        if m + 352 < 400 || m >= 1408 {
            assert_eq!(v, 0, "{}", m);
        } else {
            assert_eq!(v, if prbs[m + 352] == 0 { 64 } else { -64 }, "{}", m);
        }
    }
}

#[test]
fn pinned_values_match_what_is_sent() {
    // Scrambled padding, encoded, carries exactly the signs that are pinned.
    let ldpc = NrLdpc::new(base_graph()).unwrap();
    let mut info = vec![0u8; NrLdpc::INFO_LEN];
    for bit in info.iter_mut().take(500) {
        *bit = 1;
    }
    scramble(&mut info);
    let mother = ldpc.encode(&info);
    let mut values = vec![0i32; NrLdpc::MOTHER_LEN];
    pin_known_pad(&mut values, 500, 972, 1, -1);
    for m in 500 - 352..1408 {
        assert_eq!(values[m], if mother[m] == 0 { 1 } else { -1 });
    }
    assert_eq!(ldpc.layers().num_vars(), 9152);
}

#[test]
fn codec_gives_codewords_of_its_rate() {
    let codec = LdpcCodec::new(CodeRate::Rate2_3);
    let info: Vec<u8> = (0..1296).map(|i| (i % 4 == 1) as u8).collect();
    let word = codec.encode(&info);
    assert!(codec.code().check_codeword(&word));
    assert!(codec.graph().check_syndrome(&word));
    assert_eq!(&word[..1296], &info[..]);
}
