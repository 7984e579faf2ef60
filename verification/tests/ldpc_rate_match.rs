use coppa::fec::ldpc::nr_bg2::{PUNCTURED_INFO_COLS, ZC};
use coppa::fec::ldpc::rate_match::{
    dematch_places, k0_offset, matching_buffer, rate_match, INFO_NONPUNCTURED_LEN, PUNCTURED_LEN,
};

/// Received values, each added at its place in the mother codeword.
fn rate_dematch(llrs: &[f32], k_used: usize, e: usize, rv: u8, mother_len: usize) -> Vec<f32> {
    let mut out = vec![0.0f32; mother_len];
    for (place, llr) in dematch_places(k_used, e, rv, mother_len).iter().zip(llrs) {
        out[*place] += llr;
    }
    out
}

const ALL_K_USED: [usize; 9] = [486, 972, 972, 1458, 1296, 972, 1458, 1296, 1620];

const E: usize = 1944;

const MOTHER_LEN: usize = 8800;

fn dummy_mother() -> Vec<u8> {
    (0..MOTHER_LEN).map(|i| (i % 2) as u8).collect()
}

#[test]
fn rate_match_output_length_is_always_e_for_all_levels_and_rvs() {
    let mother = dummy_mother();
    for &k_used in &ALL_K_USED {
        for rv in 0..=3u8 {
            let out = rate_match(&mother, k_used, E, rv);
            assert_eq!(
                out.len(),
                E,
                "k_used={k_used} rv={rv}: expected length {E}, got {}",
                out.len()
            );
        }
    }
}

#[test]
fn rate_dematch_output_length_is_always_mother_len() {
    for &k_used in &ALL_K_USED {
        for rv in 0..=3u8 {
            let llrs = vec![0.3f32; E];
            let out = rate_dematch(&llrs, k_used, E, rv, MOTHER_LEN);
            assert_eq!(out.len(), MOTHER_LEN);
        }
    }
}

#[test]
fn rv0_k0_is_always_zero() {
    let mother = dummy_mother();
    for &k_used in &ALL_K_USED {
        let out = rate_match(&mother, k_used, E, 0);
        let buf = matching_buffer(&mother, k_used);
        assert_eq!(&out[..], &buf[..E], "rv0 must read from buffer offset 0");
    }
}

#[test]
fn k0_offsets_are_zc_multiples_and_monotonic() {
    for &k_used in &ALL_K_USED {
        let info_len = k_used - PUNCTURED_INFO_COLS * ZC;
        let buf_len = info_len + (MOTHER_LEN - INFO_NONPUNCTURED_LEN);
        let mut prev = 0usize;
        for rv in 0..=3u8 {
            let k0 = k0_offset(buf_len, rv);
            assert_eq!(k0 % ZC, 0, "k0 must be a Zc multiple, got {k0}");
            assert!(
                k0 < buf_len,
                "k0={k0} must be within the buffer ({buf_len})"
            );
            if rv > 0 {
                assert!(k0 >= prev, "k0 offsets should be non-decreasing with rv");
            }
            prev = k0;
        }
    }
}

#[test]
fn round_trip_recovers_transmitted_bits_as_confident_llrs() {
    // Encode a known bit pattern into "soft" LLRs (+1/-1 => strong
    // confidence), rate_match -> rate_dematch, and check that every
    // position that was actually transmitted decodes back to the
    // correct sign, while untransmitted positions stay exactly 0.0.
    let mother = dummy_mother();
    for &k_used in &ALL_K_USED {
        let matched = rate_match(&mother, k_used, E, 0);
        let llrs: Vec<f32> = matched
            .iter()
            .map(|&b| if b == 0 { 3.0 } else { -3.0 })
            .collect();
        let dematched = rate_dematch(&llrs, k_used, E, 0, MOTHER_LEN);

        let info_len = k_used - PUNCTURED_INFO_COLS * ZC;
        // Transmitted info prefix (rv0, first `info_len` of E were read
        // from buffer offset 0..info_len, i.e. exactly this range).
        for (i, &llr) in dematched.iter().enumerate().take(info_len.min(E)) {
            let expected_bit = mother[i];
            let sign_ok = if expected_bit == 0 {
                llr > 0.0
            } else {
                llr < 0.0
            };
            assert!(sign_ok, "k_used={k_used} pos={i}: dematched sign mismatch");
        }
        // Shortened tail (k_used-2Zc .. 1408) must remain exactly 0.0 --
        // rate_dematch never touches it; it's the caller's to pin.
        for &llr in &dematched[info_len..INFO_NONPUNCTURED_LEN] {
            assert_eq!(
                llr, 0.0,
                "k_used={k_used}: shortened tail must be left at 0.0"
            );
        }
    }
}

#[test]
fn starts_are_exact() {
    assert_eq!(k0_offset(7526, 0), 0);
    assert_eq!(k0_offset(7526, 1), 1760);
    assert_eq!(k0_offset(7526, 2), 3696);
    assert_eq!(k0_offset(7526, 3), 5632);
}

#[test]
fn places_invert_the_selection() {
    let mother: Vec<u32> = (0..MOTHER_LEN as u32).collect();
    for rv in 0..=3u8 {
        let buf = matching_buffer(&mother, 486);
        assert_eq!(buf.len(), 486 - PUNCTURED_LEN + 8800 - INFO_NONPUNCTURED_LEN);
        let places = dematch_places(486, E, rv, MOTHER_LEN);
        let k0 = k0_offset(buf.len(), rv);
        for i in 0..E {
            assert_eq!(places[i], buf[(k0 + i) % buf.len()] as usize);
            assert!(places[i] < 486 - PUNCTURED_LEN || places[i] >= INFO_NONPUNCTURED_LEN);
        }
    }
}

#[test]
fn a_long_selection_wraps_around() {
    let mother = vec![1u8; INFO_NONPUNCTURED_LEN + 4];
    let out = rate_match(&mother, PUNCTURED_LEN + 2, 20, 0);
    assert_eq!(out.len(), 20);
    let sums = rate_dematch(&[1.0; 20], PUNCTURED_LEN + 2, 20, 0, mother.len());
    assert_eq!(sums[0], 4.0);
    assert_eq!(sums[INFO_NONPUNCTURED_LEN + 3], 3.0);
}
