use coppa::fec::convolutional::{ConvEncoder, ViterbiDecoder, CONSTRAINT_LENGTH, NUM_STATES};

/// Soft decoding over the library's trellis: squared distances to the expected
/// symbols, smallest path metric wins.
fn decode_soft(dec: &ViterbiDecoder, soft: &[f32]) -> Vec<u8> {
    let pairs = soft.len() / 2;
    let mut metrics = vec![f32::MAX; NUM_STATES];
    metrics[0] = 0.0;
    let mut survivors = vec![vec![0u8; NUM_STATES]; pairs];
    for step in 0..pairs {
        let mut next = vec![f32::MAX; NUM_STATES];
        for state in 0..NUM_STATES {
            if metrics[state] == f32::MAX {
                continue;
            }
            for bit in [false, true] {
                let (c1, c2, to) = dec.transition(state, bit);
                let e1 = if c1 == 0 { 1.0 } else { -1.0 };
                let e2 = if c2 == 0 { 1.0 } else { -1.0 };
                let d1 = soft[2 * step] - e1;
                let d2 = soft[2 * step + 1] - e2;
                let total = metrics[state] + d1 * d1 + d2 * d2;
                if total < next[to] {
                    next[to] = total;
                    survivors[step][to] = state as u8;
                }
            }
        }
        metrics = next;
    }
    ViterbiDecoder::traceback(&survivors)
}

#[test]
fn test_encoder_output_length() {
    let mut enc = ConvEncoder::new();
    let input = vec![1, 0, 1, 1, 0];
    let output = enc.encode(&input);
    assert_eq!(output.len(), (input.len() + CONSTRAINT_LENGTH - 1) * 2);
}

#[test]
fn test_encoder_decoder_roundtrip() {
    let mut enc = ConvEncoder::new();
    let dec = ViterbiDecoder::new();

    let input = vec![1, 0, 1, 1, 0, 0, 1, 0, 1, 0, 0, 1, 1, 1, 0, 1];
    let encoded = enc.encode(&input);
    let decoded = dec.decode_hard(&encoded);

    assert_eq!(decoded, input);
}

#[test]
fn test_viterbi_corrects_errors() {
    let mut enc = ConvEncoder::new();
    let dec = ViterbiDecoder::new();

    let input = vec![1, 0, 1, 1, 0, 0, 1, 0, 1, 0, 0, 1, 1, 1, 0, 1, 0, 0, 1, 1];
    let mut encoded = enc.encode(&input);

    let error_positions = vec![3, 10, 19, 28];
    for &pos in &error_positions {
        if pos < encoded.len() {
            encoded[pos] ^= 1;
        }
    }

    let decoded = dec.decode_hard(&encoded);
    assert_eq!(decoded, input, "Viterbi should correct sparse bit errors");
}

#[test]
fn viterbi_decode_is_scale_invariant() {
    // Scaling all soft inputs by c > 0 scales every difference of path metrics by c.
    let mut enc = ConvEncoder::new();
    let dec = ViterbiDecoder::new();
    let input: Vec<u8> = vec![1, 0, 0, 1, 1, 0, 1, 0, 0, 1, 0, 1, 1, 0, 0, 1, 1, 0, 1, 0];
    let encoded = enc.encode(&input);
    let soft: Vec<f32> = encoded
        .iter()
        .enumerate()
        .map(|(i, &b)| {
            let base = if b == 0 { 1.0 } else { -1.0 };
            base + 0.3 * ((i as f32 * 1.7).sin())
        })
        .collect();

    let unit = decode_soft(&dec, &soft);
    assert_eq!(unit, input, "baseline soft decode must be correct");
    for scale in [0.01f32, 0.1, 10.0, 100.0] {
        let scaled: Vec<f32> = soft.iter().map(|s| s * scale).collect();
        assert_eq!(
            decode_soft(&dec, &scaled),
            unit,
            "Viterbi must be scale-invariant (scale={scale})"
        );
    }
}

#[test]
fn test_viterbi_soft_decision() {
    let mut enc = ConvEncoder::new();
    let dec = ViterbiDecoder::new();

    let input: Vec<u8> = vec![1, 0, 0, 1, 1, 0, 1, 0, 0, 1, 0, 1, 1, 0, 0, 1, 1, 0, 1, 0];
    let encoded = enc.encode(&input);

    let soft: Vec<f32> = encoded
        .iter()
        .enumerate()
        .map(|(i, &b)| {
            let base = if b == 0 { 1.0 } else { -1.0 };
            let noise = 0.3 * ((i as f32 * 1.7).sin());
            base + noise
        })
        .collect();

    let decoded = decode_soft(&dec, &soft);
    assert_eq!(decoded, input, "Soft Viterbi should handle moderate noise");
}

#[test]
fn test_encoder_deterministic() {
    let input = vec![1, 0, 1, 0];
    let mut enc1 = ConvEncoder::new();
    let mut enc2 = ConvEncoder::new();
    assert_eq!(enc1.encode(&input), enc2.encode(&input));
}

#[test]
fn test_empty_input() {
    let mut enc = ConvEncoder::new();
    let dec = ViterbiDecoder::new();

    let encoded = enc.encode(&[]);
    assert_eq!(encoded.len(), (CONSTRAINT_LENGTH - 1) * 2);

    let decoded = dec.decode_hard(&encoded);
    assert!(decoded.is_empty());
}

#[test]
fn test_various_patterns() {
    let dec = ViterbiDecoder::new();

    for pattern in &[
        vec![0u8; 20],
        vec![1u8; 20],
        vec![0, 1, 0, 1, 0, 1, 0, 1, 0, 1],
        vec![1, 1, 0, 0, 1, 1, 0, 0, 1, 1],
    ] {
        let mut enc = ConvEncoder::new();
        let encoded = enc.encode(pattern);
        let decoded = dec.decode_hard(&encoded);
        assert_eq!(&decoded, pattern, "Failed for pattern {:?}", pattern);
    }
}

#[test]
fn impulse_response_is_the_generators() {
    // Generators 171 and 133 (octal), read from the newest bit down.
    let mut enc = ConvEncoder::new();
    assert_eq!(enc.encode(&[1]), vec![1, 1, 1, 0, 1, 1, 1, 1, 0, 0, 0, 1, 1, 1]);
}

#[test]
fn encoder_starts_afresh_after_each_block() {
    let mut enc = ConvEncoder::default();
    let first = enc.encode(&[1, 1, 0, 1]);
    assert_eq!(enc.encode(&[1, 1, 0, 1]), first);
}

#[test]
fn short_input_decodes_to_nothing() {
    let dec = ViterbiDecoder::default();
    assert!(dec.decode_hard(&[1]).is_empty());
    assert!(dec.decode_hard(&[1; 12]).is_empty());
}

#[test]
fn transitions_are_exact() {
    let dec = ViterbiDecoder::new();
    assert_eq!(dec.transition(0, false), (0, 0, 0));
    assert_eq!(dec.transition(0, true), (1, 1, 32));
    assert_eq!(dec.transition(63, true).2, 63);
}

#[test]
fn decoded_bits_are_the_nearest_codeword() {
    // No message of three bits encodes closer to the received bits.
    let dec = ViterbiDecoder::new();
    let received: Vec<u8> = vec![1, 0, 0, 1, 1, 1, 0, 0, 1, 0, 1, 1, 0, 1, 1, 0, 0, 1];
    let found = dec.decode_hard(&received);
    let distance = |m: &[u8]| -> usize {
        let mut enc = ConvEncoder::new();
        enc.encode(m).iter().zip(received.iter()).filter(|(a, b)| a != b).count()
    };
    let best = (0..8u8)
        .map(|v| distance(&[v >> 2 & 1, v >> 1 & 1, v & 1]))
        .min()
        .unwrap();
    assert_eq!(distance(&found), best);
}

#[test]
fn no_message_is_closer_than_the_decoded_one() {
    let dec = ViterbiDecoder::new();
    let len = 5;
    let words: Vec<(Vec<u8>, Vec<u8>)> = (0..1u32 << len)
        .map(|m| {
            let bits: Vec<u8> = (0..len).map(|i| (m >> i & 1) as u8).collect();
            let code = ConvEncoder::new().encode(&bits);
            (bits, code)
        })
        .collect();
    let differing = |a: &[u8], b: &[u8]| a.iter().zip(b).filter(|(x, y)| x != y).count();
    let mut x: u32 = 7;
    for _ in 0..200 {
        let rx: Vec<u8> = (0..2 * (len + 6))
            .map(|_| {
                x = x.wrapping_mul(1_664_525).wrapping_add(1_013_904_223);
                (x >> 31) as u8
            })
            .collect();
        let got = dec.decode_hard(&rx);
        let code = ConvEncoder::new().encode(&got);
        let best = words.iter().map(|(_, c)| differing(c, &rx)).min().unwrap();
        assert_eq!(got.len(), len);
        assert_eq!(differing(&code, &rx), best);
    }
}
