use coppa::fec::scrambler::{prbs_bits, scramble, PRBS_SEED};

#[test]
fn test_scramble_is_self_inverse() {
    let original = vec![0u8, 1, 0, 1, 1, 0, 0, 1, 0, 0];
    let mut data = original.clone();
    scramble(&mut data);
    assert_ne!(data, original, "scramble should change the data");
    scramble(&mut data);
    assert_eq!(data, original, "double scramble should restore original");
}

#[test]
fn test_scramble_randomizes_zeros() {
    let mut zeros = vec![0u8; 972];
    scramble(&mut zeros);
    let ones_count: usize = zeros.iter().map(|&b| b as usize).sum();
    // Should be roughly 50% ones (486 +/- tolerance)
    assert!(
        ones_count > 400 && ones_count < 572,
        "PRBS should produce ~50% ones, got {}",
        ones_count
    );
}

#[test]
fn test_scramble_deterministic() {
    let mut a = vec![0u8; 100];
    let mut b = vec![0u8; 100];
    scramble(&mut a);
    scramble(&mut b);
    assert_eq!(a, b, "same input should produce same output");
}

#[test]
fn test_prbs_bits_matches_scramble_of_zeros() {
    let len = 972;
    let mut zeros = vec![0u8; len];
    scramble(&mut zeros);
    assert_eq!(prbs_bits(len), zeros);
}

/// The keystream at a given index doesn't depend on data scrambled before it
/// (the LFSR only ever mixes its own prior state), so a prefix of a longer
/// `prbs_bits` call must equal the shorter call outright -- this is exactly
/// what lets `receive` compute the pad's ground truth as
/// `prbs_bits(info_bits)[payload_bits..]` regardless of what the payload bits
/// before the pad were.
#[test]
fn test_prbs_bits_prefix_is_stable_regardless_of_length() {
    let long = prbs_bits(972);
    let short = prbs_bits(300);
    assert_eq!(&long[..300], short.as_slice());
}

#[test]
fn keystream_starts_with_known_bits() {
    assert_eq!(PRBS_SEED, 0x4A80);
    // Each bit is the XOR of the two top bits of the fifteen-bit register.
    let mut state: u16 = 0x4A80;
    let expected: Vec<u8> = (0..40)
        .map(|_| {
            let bit = (state >> 14 ^ state >> 13) & 1;
            state = (state << 1 | bit) & 0x7FFF;
            bit as u8
        })
        .collect();
    assert_eq!(prbs_bits(40), expected);
    assert_eq!(&prbs_bits(8), &[1, 0, 1, 1, 1, 1, 1, 1]);
}

#[test]
fn padding_becomes_the_keystream() {
    let mut bits = vec![1, 1, 1, 0, 0, 0, 0];
    scramble(&mut bits);
    assert_eq!(bits[3..], prbs_bits(7)[3..]);
}
