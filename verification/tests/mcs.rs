use coppa::link::mcs::{
    correction_place, CorrectionPlace, CAPACITY_LEVEL_CORRECTION, CORRECTION_SNR_GRID,
    SELECTIVITY_LEVEL_CORRECTION, SPEED_LEVEL_EFFICIENCY, SPEED_LEVEL_MIN_CAPACITY,
};

fn select_speed_level(capacity: f32, margin: f32) -> u8 {
    coppa::link::select_speed_level((capacity - margin).to_bits())
}

fn select_speed_level_calibrated(capacity: f32) -> u8 {
    coppa::link::select_speed_level_calibrated(capacity.to_bits())
}

fn interpolate_correction(table: &[[u32; 5]; 9], level: u8, snr_db: f32) -> f32 {
    match correction_place(level, snr_db.to_bits()) {
        CorrectionPlace::NoRow => 0.0,
        CorrectionPlace::LastColumn { row } => f32::from_bits(table[row][4]),
        CorrectionPlace::Between { row, at, snr } => {
            let lo = f32::from_bits(CORRECTION_SNR_GRID[at]);
            let hi = f32::from_bits(CORRECTION_SNR_GRID[at + 1]);
            let left = f32::from_bits(table[row][at]);
            let right = f32::from_bits(table[row][at + 1]);
            let t = (f32::from_bits(snr) - lo) / (hi - lo);
            left + t * (right - left)
        }
    }
}

#[test]
fn select_speed_level_is_capacity_aware() {
    assert_eq!(select_speed_level(10.0, 1.0), 10);
    assert_eq!(select_speed_level(2.5, 1.0), 4);
    assert_eq!(select_speed_level(2.0, 0.0), 5); // eta=2.0 tie -> lower-order 8PSK (level 5)
    assert_eq!(select_speed_level(0.1, 1.0), 1);
}

#[test]
fn select_speed_level_calibrated_uses_thresholds() {
    assert_eq!(select_speed_level_calibrated(0.0), 1); // below all but L1's 0.0
    assert_eq!(select_speed_level_calibrated(2.4), 3); // >=2.2 (L3), <2.6 (L4)
    assert_eq!(select_speed_level_calibrated(5.0), 6); // >=4.0 (L6), <6.5 (L7)
    assert_eq!(select_speed_level_calibrated(6.0), 6); // conservative overlap region
    assert_eq!(select_speed_level_calibrated(7.25), 9); // >=7.2 (L9), <8.0 (L10)
    assert_eq!(select_speed_level_calibrated(8.5), 10);
}

#[test]
fn select_speed_level_calibrated_is_monotonic() {
    let mut prev = 0u8;
    let mut c = 0.0f32;
    while c < 10.0 {
        let lvl = select_speed_level_calibrated(c);
        // level index in the ordered table must not decrease as C grows
        let idx = |l: u8| {
            SPEED_LEVEL_MIN_CAPACITY
                .iter()
                .position(|&(x, _)| x == l)
                .unwrap()
        };
        assert!(
            prev == 0 || idx(lvl) >= idx(prev),
            "non-monotonic at C={c}: {prev}->{lvl}"
        );
        prev = lvl;
        c += 0.25;
    }
}

#[test]
fn level_bias_correction_is_zero_at_anchor_level() {
    for &snr in &[0.0, 6.0, 15.0, 24.0, 40.0] {
        assert_eq!(
            interpolate_correction(&CAPACITY_LEVEL_CORRECTION, 2, snr),
            0.0
        );
        assert_eq!(
            interpolate_correction(&SELECTIVITY_LEVEL_CORRECTION, 2, snr),
            0.0
        );
    }
}

#[test]
fn level_bias_correction_interpolates_between_grid_points() {
    // Level 10's capacity correction row: [0.8784, 0.9243, 1.5268, 2.5208, 3.3047] at
    // SNR grid [6, 12, 18, 24, 30]. At 15 dB (halfway between 12 and 18), the interpolated
    // value should be the midpoint of 0.9243 and 1.5268.
    let expected = 0.9243 + 0.5 * (1.5268 - 0.9243);
    let got = interpolate_correction(&CAPACITY_LEVEL_CORRECTION, 10, 15.0);
    assert!(
        (got - expected).abs() < 1e-3,
        "got {got}, expected {expected}"
    );
}

#[test]
fn level_bias_correction_clamps_outside_grid() {
    // Level 10's capacity row's first/last entries: 0.8784 (6 dB), 3.3047 (30 dB). Below 6 dB
    // or above 30 dB must clamp to the nearest grid endpoint, not extrapolate.
    assert!(
        (interpolate_correction(&CAPACITY_LEVEL_CORRECTION, 10, 0.0) - 0.8784).abs() < 1e-3
    );
    assert!(
        (interpolate_correction(&CAPACITY_LEVEL_CORRECTION, 10, 50.0) - 3.3047).abs() < 1e-3
    );
}

#[test]
fn level_bias_correction_falls_back_to_zero_for_unknown_level() {
    // Level 8 is reserved and never appears in CORRECTION_LEVELS.
    assert_eq!(
        interpolate_correction(&CAPACITY_LEVEL_CORRECTION, 8, 18.0),
        0.0
    );
    assert_eq!(
        interpolate_correction(&SELECTIVITY_LEVEL_CORRECTION, 8, 18.0),
        0.0
    );
}

#[test]
fn capacity_correction_matches_calibration_bench_raw_data() {
    // Measured capacities of levels 10 and 2 at 24 dB; the correction is their difference.
    let level10_raw_24db = 10.7188_f32;
    let level2_raw_24db = 8.1981_f32;
    let expected = level10_raw_24db - level2_raw_24db;
    // Level 10 is CORRECTION_LEVELS' last entry (index 8); 24 dB is CORRECTION_SNR_GRID's
    // index 3.
    assert!(
        (f32::from_bits(CAPACITY_LEVEL_CORRECTION[8][3]) - expected).abs() < 0.001,
        "level 10 @ 24dB correction {} != raw diff {}",
        f32::from_bits(CAPACITY_LEVEL_CORRECTION[8][3]),
        expected
    );
}

#[test]
fn selectivity_correction_matches_calibration_bench_raw_data() {
    // The same for the selectivity.
    let level10_raw_24db = 0.0170_f32;
    let level2_raw_24db = 0.1913_f32;
    let expected = level10_raw_24db - level2_raw_24db;
    assert!(
        (f32::from_bits(SELECTIVITY_LEVEL_CORRECTION[8][3]) - expected).abs() < 0.001,
        "level 10 @ 24dB correction {} != raw diff {}",
        f32::from_bits(SELECTIVITY_LEVEL_CORRECTION[8][3]),
        expected
    );
}

#[test]
fn tables_hold_their_numbers() {
    let efficiency = [0.25f32, 0.5, 1.0, 1.5, 2.0, 2.0, 3.0, 4.0, 5.25];
    let capacity = [0.0f32, 1.5, 2.2, 2.6, 3.0, 4.0, 6.5, 7.2, 8.0];
    let levels = [1u8, 2, 3, 4, 5, 6, 7, 9, 10];
    for i in 0..9 {
        assert_eq!(SPEED_LEVEL_EFFICIENCY[i], (levels[i], efficiency[i].to_bits()));
        assert_eq!(SPEED_LEVEL_MIN_CAPACITY[i], (levels[i], capacity[i].to_bits()));
    }
    let level_5 = [0.5117f32, 0.7046, 1.3565, 2.3573, 3.1329].map(|v| v.to_bits());
    assert_eq!(CAPACITY_LEVEL_CORRECTION[4], level_5);
    let level_1 = [-0.0099f32, -0.0133, -0.0144, -0.0148, -0.0149].map(|v| v.to_bits());
    assert_eq!(SELECTIVITY_LEVEL_CORRECTION[0], level_1);
}

#[test]
fn what_is_no_number_gets_the_lowest_level() {
    assert_eq!(select_speed_level_calibrated(f32::NAN), 1);
    assert_eq!(select_speed_level_calibrated(f32::INFINITY), 10);
    assert_eq!(select_speed_level(f32::NEG_INFINITY, 0.0), 1);
    assert_eq!(correction_place(5, f32::NAN.to_bits()), CorrectionPlace::LastColumn { row: 4 });
}

#[test]
fn a_larger_budget_never_gives_a_lower_level() {
    let mut prev = 0u8;
    for i in 0..80 {
        let level = select_speed_level(i as f32 * 0.1 - 1.0, 0.0);
        assert!(level >= prev);
        prev = level;
    }
    assert_eq!(prev, 10);
}
