use coppa::fec::ldpc::codes::{CodeRate, LdpcCode, SparseEntry};
use coppa::fec::ldpc::decoder::{
    check_node, hard_bits, two_smallest, CheckMessage, NrBg2Layers, TannerGraph, MAX_KEY,
};
use coppa::fec::ldpc::encoder::LdpcEncoder;
use coppa::fec::ldpc::nr_bg2::{self, BaseGraph, NrBg2Encoder};
use coppa::fec::ldpc::LdpcCodec;

/// Columns of the entries of each base row.
const COLUMNS: [&[usize]; 42] = [
    &[0, 1, 2, 3, 6, 9, 10, 11], &[0, 3, 4, 5, 6, 7, 8, 9, 11, 12],
    &[0, 1, 3, 4, 8, 10, 12, 13], &[1, 2, 4, 5, 6, 7, 8, 9, 10, 13], &[0, 1, 11, 14],
    &[0, 1, 5, 7, 11, 15], &[0, 5, 7, 9, 11, 16], &[1, 5, 7, 11, 13, 17], &[0, 1, 12, 18],
    &[1, 8, 10, 11, 19], &[0, 1, 6, 7, 20], &[0, 7, 9, 13, 21], &[1, 3, 11, 22],
    &[0, 1, 8, 13, 23], &[1, 6, 11, 13, 24], &[0, 10, 11, 25], &[1, 9, 11, 12, 26],
    &[1, 5, 11, 12, 27], &[0, 6, 7, 28], &[0, 1, 10, 29], &[1, 4, 11, 30], &[0, 8, 13, 31],
    &[1, 2, 32], &[0, 3, 5, 33], &[1, 2, 9, 34], &[0, 5, 35], &[2, 7, 12, 13, 36], &[0, 6, 37],
    &[1, 2, 5, 38], &[0, 4, 39], &[2, 5, 7, 9, 40], &[1, 13, 41], &[0, 5, 12, 42],
    &[2, 7, 10, 43], &[0, 12, 13, 44], &[1, 5, 11, 45], &[0, 2, 7, 46], &[10, 13, 47],
    &[1, 5, 11, 48], &[0, 7, 12, 49], &[2, 10, 13, 50], &[1, 5, 11, 51],
];

/// A graph on those places: zero shifts on the extension diagonal and in the
/// core but for one, and spread shifts everywhere else.
fn base_graph() -> BaseGraph {
    let mut entries = Vec::new();
    for (base_row, cols) in COLUMNS.iter().enumerate() {
        for &base_col in cols.iter() {
            let shift = if base_col >= 14 || (base_row < 4 && base_col >= 10) {
                if (base_row, base_col) == (2, 10) {
                    1
                } else {
                    0
                }
            } else {
                (base_row * base_row * 7 + base_col * 31 + base_row * base_col * 13) % 176
            };
            entries.push(SparseEntry { base_row, base_col, shift });
        }
    }
    BaseGraph::new(entries).unwrap()
}

const MSG_CLAMP: f32 = 64.0;

/// Normalized min-sum over the library's graph and check nodes.
struct LdpcDecoder {
    code: LdpcCode,
    graph: TannerGraph,
    scale: f32,
    max_iterations: usize,
}

impl LdpcDecoder {
    fn new(code: LdpcCode) -> Self {
        Self::with_params(code, 0.8, 50)
    }

    fn with_params(code: LdpcCode, scale: f32, max_iterations: usize) -> Self {
        let graph = TannerGraph::from_code(&code);
        Self { code, graph, scale, max_iterations }
    }

    fn decode_block(&self, llrs: &[f32]) -> Vec<u8> {
        self.decode_block_checked(llrs).0
    }

    fn decode_block_checked(&self, llrs: &[f32]) -> (Vec<u8>, bool) {
        let n = self.code.coded_bits();
        let mut to_var = vec![0.0f32; self.graph.num_edges()];
        let mut to_check = vec![0.0f32; self.graph.num_edges()];
        for var in 0..n {
            for &(edge, _) in self.graph.var_edges(var) {
                to_check[edge] = llrs[var];
            }
        }
        let mut total = vec![0.0f32; n];
        let mut converged = false;
        for _ in 0..self.max_iterations {
            for check in 0..self.graph.num_checks() {
                let edges = self.graph.check_edges(check);
                let negative: Vec<bool> =
                    edges.iter().map(|&(e, _)| !(to_check[e] >= 0.0)).collect();
                let keys: Vec<u32> =
                    edges.iter().map(|&(e, _)| to_check[e].abs().to_bits()).collect();
                for (m, &(e, _)) in check_node(&negative, &keys).iter().zip(edges) {
                    let size = f32::from_bits(m.key) * self.scale;
                    to_var[e] = if m.negative { -size } else { size };
                }
            }
            for var in 0..n {
                let edges = self.graph.var_edges(var);
                let sum: f32 = edges.iter().map(|&(e, _)| to_var[e]).sum();
                total[var] = (llrs[var] + sum).clamp(-MSG_CLAMP, MSG_CLAMP);
                for &(e, _) in edges {
                    to_check[e] = (total[var] - to_var[e]).clamp(-MSG_CLAMP, MSG_CLAMP);
                }
            }
            if self.check_syndrome(&total) {
                converged = true;
                break;
            }
        }
        let mut bits = hard(&total);
        bits.truncate(self.code.info_bits());
        (bits, converged)
    }

    fn check_syndrome(&self, total: &[f32]) -> bool {
        self.graph.check_syndrome(&hard(total))
    }
}

fn hard(llrs: &[f32]) -> Vec<u8> {
    let patterns: Vec<u32> = llrs.iter().map(|l| l.to_bits()).collect();
    hard_bits(&patterns)
}

/// Layered normalized min-sum over the library's rows and check nodes.
fn decode_layers(layers: &NrBg2Layers, llrs: &[f32]) -> (Vec<f32>, bool) {
    let z = nr_bg2::ZC;
    let mut total = llrs.to_vec();
    let mut to_var = vec![0.0f32; layers.total_edges() * z];
    for _ in 0..30 {
        for r in 0..nr_bg2::BASE_ROWS {
            let degree = layers.row_edges(r).len();
            let base = layers.edge_offset(r);
            let vars = layers.row_vars(r);
            for i in 0..z {
                let extrinsic: Vec<f32> = (0..degree)
                    .map(|k| total[vars[i * degree + k]] - to_var[(base + k) * z + i])
                    .collect();
                let negative: Vec<bool> = extrinsic.iter().map(|&l| !(l >= 0.0)).collect();
                let keys: Vec<u32> = extrinsic.iter().map(|l| l.abs().to_bits()).collect();
                for (k, m) in check_node(&negative, &keys).iter().enumerate() {
                    let size = f32::from_bits(m.key) * 0.75;
                    let signed = if m.negative { -size } else { size };
                    let new = signed.clamp(-MSG_CLAMP, MSG_CLAMP);
                    let edge = (base + k) * z + i;
                    let var = vars[i * degree + k];
                    total[var] =
                        (total[var] + (new - to_var[edge])).clamp(-MSG_CLAMP, MSG_CLAMP);
                    to_var[edge] = new;
                }
            }
        }
        if layers.check_syndrome(&hard(&total)) {
            return (total, true);
        }
    }
    (total, false)
}

fn full_codeword_llrs(
    mother_len_full_including_punctured: usize,
    full_codeword: &[u8],
) -> Vec<f32> {
    assert_eq!(full_codeword.len(), mother_len_full_including_punctured);
    full_codeword
        .iter()
        .map(|&b| if b == 0 { 4.0 } else { -4.0 })
        .collect()
}

fn encode_full(enc: &NrBg2Encoder, info: &[u8]) -> Vec<u8> {
    let z = nr_bg2::ZC;
    let punctured = nr_bg2::PUNCTURED_INFO_COLS;
    let mother = enc.encode_mother(info);
    let mut full = Vec::with_capacity(nr_bg2::BASE_COLS * z);
    full.extend_from_slice(&info[..punctured * z]);
    full.extend_from_slice(&mother);
    full
}

#[test]
fn decodes_perfect_channel() {
    let enc = NrBg2Encoder::new(base_graph()).unwrap();
    let layers = NrBg2Layers::new(enc.graph());
    let info: Vec<u8> = (0..nr_bg2::KB * nr_bg2::ZC)
        .map(|i| (i % 2) as u8)
        .collect();
    let full = encode_full(&enc, &info);
    let llrs = full_codeword_llrs(full.len(), &full);
    let (posterior, converged) = decode_layers(&layers, &llrs);
    assert!(converged);
    assert_eq!(&hard(&posterior)[..info.len()], &info[..]);
}

#[test]
fn decode_survives_pathological_llrs_without_nan() {
    let layers = NrBg2Layers::new(&base_graph());
    let n = layers.num_vars();
    assert_eq!(n, 9152);
    let llrs: Vec<f32> = (0..n)
        .map(|i| if i % 3 == 0 { 20.0 } else { -20.0 })
        .collect();
    let (posterior, converged) = decode_layers(&layers, &llrs);
    assert!(!converged);
    assert!(
        posterior.iter().all(|v| v.is_finite()),
        "posterior must never contain NaN/inf"
    );
}

fn encode_and_make_soft(encoder: &LdpcEncoder, info: &[u8]) -> Vec<f32> {
    let cw = encoder.encode_block(info);
    cw.iter()
        .map(|&b| if b == 0 { 1.0 } else { -1.0 })
        .collect()
}

#[test]
fn test_decode_perfect_channel() {
    for rate in &[
        CodeRate::Rate1_4,
        CodeRate::Rate1_3,
        CodeRate::Rate1_2,
        CodeRate::Rate2_3,
        CodeRate::Rate3_4,
        CodeRate::Rate7_8,
    ] {
        let code = LdpcCode::new(*rate);
        let enc = LdpcEncoder::new(code.clone());
        let dec = LdpcDecoder::new(code.clone());

        let info: Vec<u8> = (0..code.info_bits()).map(|i| (i % 2) as u8).collect();
        let soft = encode_and_make_soft(&enc, &info);
        let decoded = dec.decode_block(&soft);

        assert_eq!(decoded, info, "{:?}: perfect channel decode failed", rate);
    }
}

#[test]
fn test_decode_with_bit_flips() {
    let code = LdpcCode::new(CodeRate::Rate1_2);
    let enc = LdpcEncoder::new(code.clone());
    let dec = LdpcDecoder::new(code.clone());

    let info: Vec<u8> = (0..code.info_bits())
        .map(|i| ((i * 3 + 5) % 2) as u8)
        .collect();
    let cw = enc.encode_block(&info);

    // Flip a small number of bits (simulate hard errors)
    // With rate 1/2 and 972 parity bits, we should handle a few flips.
    let flip_positions: Vec<usize> = (0..10).map(|i| i * 37 % cw.len()).collect();
    let soft: Vec<f32> = cw
        .iter()
        .enumerate()
        .map(|(i, &b)| {
            let bit = if flip_positions.contains(&i) {
                b ^ 1
            } else {
                b
            };
            if bit == 0 {
                2.0
            } else {
                -2.0
            }
        })
        .collect();

    let decoded = dec.decode_block(&soft);
    assert_eq!(
        decoded,
        info,
        "Rate 1/2 should correct {} hard bit flips",
        flip_positions.len()
    );
}

#[test]
fn test_early_termination() {
    // With perfect channel, the decoder should terminate in very few iterations
    let code = LdpcCode::new(CodeRate::Rate1_2);
    let enc = LdpcEncoder::new(code.clone());
    // Use max_iterations=1 -- with perfect channel, one iteration should suffice
    let dec = LdpcDecoder::with_params(code.clone(), 0.5, 2);

    let info = vec![0u8; code.info_bits()];
    let soft = encode_and_make_soft(&enc, &info);
    let decoded = dec.decode_block(&soft);

    assert_eq!(
        decoded, info,
        "Perfect channel should decode in very few iterations"
    );
}

#[test]
fn test_decoder_output_length() {
    for rate in &[
        CodeRate::Rate1_4,
        CodeRate::Rate1_3,
        CodeRate::Rate1_2,
        CodeRate::Rate2_3,
        CodeRate::Rate3_4,
        CodeRate::Rate7_8,
    ] {
        let code = LdpcCode::new(*rate);
        let dec = LdpcDecoder::new(code.clone());

        let llrs = vec![1.0f32; code.coded_bits()];
        let decoded = dec.decode_block(&llrs);
        assert_eq!(
            decoded.len(),
            code.info_bits(),
            "{:?}: wrong output length",
            rate
        );
    }
}

#[test]
fn test_two_smallest() {
    let vals = [3.0f32, 1.0, 4.0, 1.5, 2.0];
    let keys: Vec<u32> = vals.iter().map(|v| v.to_bits()).collect();
    let (min1, min1_idx, min2) = two_smallest(&keys);
    assert!((f32::from_bits(min1) - 1.0).abs() < 1e-6);
    assert_eq!(min1_idx, 1);
    assert!((f32::from_bits(min2) - 1.5).abs() < 1e-6);
}

#[test]
fn test_two_smallest_same_values() {
    let vals = [2.0f32, 2.0, 2.0];
    let keys: Vec<u32> = vals.iter().map(|v| v.to_bits()).collect();
    let (min1, _idx, min2) = two_smallest(&keys);
    assert!((f32::from_bits(min1) - 2.0).abs() < 1e-6);
    assert!((f32::from_bits(min2) - 2.0).abs() < 1e-6);
}

#[test]
fn test_custom_scale() {
    let code = LdpcCode::new(CodeRate::Rate1_2);
    let enc = LdpcEncoder::new(code.clone());

    // Normalized min-sum with different scaling factors - all decode a perfect channel.
    for &scale in &[0.5, 0.75, 0.8, 1.0] {
        let dec = LdpcDecoder::with_params(code.clone(), scale, 50);
        let info = vec![0u8; code.info_bits()];
        let soft = encode_and_make_soft(&enc, &info);
        let decoded = dec.decode_block(&soft);
        assert_eq!(
            decoded, info,
            "scale={}: perfect channel should always work",
            scale
        );
    }
}

#[test]
fn decoder_is_scale_invariant() {
    // The overall magnitude of the values must not matter.
    let code = LdpcCode::new(CodeRate::Rate1_2);
    let enc = LdpcEncoder::new(code.clone());
    let dec = LdpcDecoder::new(code.clone());

    let info: Vec<u8> = (0..code.info_bits()).map(|i| (i % 3 == 0) as u8).collect();
    let coded = enc.encode_block(&info);
    // Correct-sign unit LLRs, then flip a handful of signs (errors within rate-1/2 capacity).
    let mut llrs: Vec<f32> = coded
        .iter()
        .map(|&b| if b == 0 { 1.0 } else { -1.0 })
        .collect();
    for &i in &[5usize, 99, 333, 700, 1500] {
        llrs[i] = -llrs[i];
    }

    let (d_unit, c_unit) = dec.decode_block_checked(&llrs);
    let small: Vec<f32> = llrs.iter().map(|x| x * 0.01).collect();
    let (d_small, c_small) = dec.decode_block_checked(&small);

    assert!(
        c_unit && d_unit == info,
        "must converge+correct at unit LLR scale"
    );
    assert!(
        c_small && d_small == info,
        "must ALSO converge+correct at 0.01x LLR scale (scale invariance)"
    );
}

#[test]
fn test_syndrome_check() {
    let code = LdpcCode::new(CodeRate::Rate1_2);
    let dec = LdpcDecoder::new(code.clone());

    // Valid codeword should pass syndrome check
    let enc = LdpcEncoder::new(code.clone());
    let info = vec![0u8; code.info_bits()];
    let soft = encode_and_make_soft(&enc, &info);
    assert!(dec.check_syndrome(&soft));
}

#[test]
fn test_all_ones_info() {
    let code = LdpcCode::new(CodeRate::Rate1_2);
    let enc = LdpcEncoder::new(code.clone());
    let dec = LdpcDecoder::new(code.clone());

    let info = vec![1u8; code.info_bits()];
    let soft = encode_and_make_soft(&enc, &info);
    let decoded = dec.decode_block(&soft);
    assert_eq!(decoded, info, "All-ones info should roundtrip correctly");
}

#[test]
fn test_high_rate_roundtrip() {
    // Rate 7/8 has minimal redundancy but should still work on clean channel
    let code = LdpcCode::new(CodeRate::Rate7_8);
    let enc = LdpcEncoder::new(code.clone());
    let dec = LdpcDecoder::new(code.clone());

    let info: Vec<u8> = (0..code.info_bits())
        .map(|i| ((i * 13 + 1) % 2) as u8)
        .collect();
    let soft = encode_and_make_soft(&enc, &info);
    let decoded = dec.decode_block(&soft);
    assert_eq!(decoded, info, "Rate 7/8 should work on clean channel");
}

#[test]
fn decoder_survives_pathological_llrs_without_nan() {
    // Large, conflicting values that satisfy no checks.
    let codec = LdpcCodec::new(CodeRate::Rate1_4);
    let dec = LdpcDecoder::new(codec.code().clone());
    let n = 1944;
    let llrs: Vec<f32> = (0..n)
        .map(|i| if i % 3 == 0 { 20.0 } else { -20.0 })
        .collect();
    let (decoded, converged) = dec.decode_block_checked(&llrs);
    assert!(!converged, "adversarial input must not converge");
    assert_eq!(decoded.len(), codec.code().info_bits());
    let (decoded2, converged2) = dec.decode_block_checked(&llrs);
    assert_eq!(decoded, decoded2);
    assert_eq!(converged, converged2);
}

#[test]
fn check_node_leaves_out_the_receiver() {
    let keys: Vec<u32> = [3.0f32, 1.0, 2.0].iter().map(|v| v.to_bits()).collect();
    let out = check_node(&[true, false, true], &keys);
    assert_eq!(
        out,
        vec![
            CheckMessage { negative: true, key: 1.0f32.to_bits() },
            CheckMessage { negative: false, key: 2.0f32.to_bits() },
            CheckMessage { negative: true, key: 1.0f32.to_bits() },
        ]
    );
}

#[test]
fn one_edge_gets_the_largest_key() {
    let out = check_node(&[true], &[5]);
    assert_eq!(out, vec![CheckMessage { negative: false, key: MAX_KEY }]);
    assert_eq!(two_smallest(&[]), (MAX_KEY, 0, MAX_KEY));
}

#[test]
fn hard_decision_follows_the_sign() {
    let llrs = [1.5f32, -0.25, 0.0, -0.0, f32::NAN, f32::NEG_INFINITY];
    assert_eq!(hard(&llrs), vec![0, 1, 0, 0, 1, 1]);
}

#[test]
fn edges_join_checks_and_bits() {
    let code = LdpcCode::new(CodeRate::Rate1_2);
    let graph = TannerGraph::from_code(&code);
    assert_eq!(graph.num_edges(), 88 * 81);
    assert_eq!(graph.num_checks(), 972);
    // First block: row 0, column 0, shift 57.
    assert_eq!(graph.check_edges(0)[0], (0, 57));
    assert_eq!(graph.check_edges(30)[0], (30, 6));
    assert!(graph.var_edges(57).contains(&(0, 0)));
    for check in [0, 500, 971] {
        for &(edge, var) in graph.check_edges(check) {
            assert!(graph.var_edges(var).contains(&(edge, check)));
        }
    }
}

#[test]
fn layers_know_codewords() {
    let enc = NrBg2Encoder::new(base_graph()).unwrap();
    let layers = NrBg2Layers::new(enc.graph());
    let info: Vec<u8> = (0..1760).map(|i| (i % 7 == 1) as u8).collect();
    let mut full = encode_full(&enc, &info);
    assert!(layers.check_syndrome(&full));
    full[4000] ^= 1;
    assert!(!layers.check_syndrome(&full));
    assert_eq!(layers.total_edges(), 197);
    assert_eq!(layers.edge_offset(0), 0);
    assert_eq!(layers.edge_offset(1), 8);
    assert_eq!(layers.row_edges(0)[0], (0, 0));
}
