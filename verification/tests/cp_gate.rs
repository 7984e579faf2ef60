use coppa::link::{CpGate, CpRecommendation};

fn bits(v: f32) -> u32 {
    v.to_bits()
}

#[test]
fn cp_gate_starts_at_long_cp() {
    let gate = CpGate::default_coppa();
    assert_eq!(gate.current(), CpRecommendation::LongCp);
}

#[test]
fn recommends_short_cp_after_n_consecutive_calm_frames() {
    let mut gate = CpGate::new(bits(2.5), 4);
    // 0.5 ms is a Watterson-Good-like calm spread.
    assert_eq!(gate.observe(bits(0.5)), CpRecommendation::LongCp); // run=1
    assert_eq!(gate.observe(bits(0.5)), CpRecommendation::LongCp); // run=2
    assert_eq!(gate.observe(bits(0.5)), CpRecommendation::LongCp); // run=3
    assert_eq!(gate.observe(bits(0.5)), CpRecommendation::ShortCp); // run=4 -> switch
    // Stays recommended on further calm frames.
    assert_eq!(gate.observe(bits(0.4)), CpRecommendation::ShortCp);
}

#[test]
fn one_bad_frame_immediately_reverts_to_long_cp() {
    let mut gate = CpGate::new(bits(2.5), 4);
    for _ in 0..4 {
        gate.observe(bits(0.5));
    }
    assert_eq!(gate.current(), CpRecommendation::ShortCp);
    // A single frame at/above threshold drops immediately, no lingering.
    assert_eq!(gate.observe(bits(2.5)), CpRecommendation::LongCp);
    assert_eq!(gate.run_len(), 0);
}

#[test]
fn never_recommends_short_cp_on_synthetic_poor_tap_spans() {
    let mut gate = CpGate::default_coppa();
    let synthetic_poor_spreads = [2.6f32, 2.8, 3.0, 2.7, 2.9, 3.1, 2.55, 2.75, 3.2, 2.65];
    for _ in 0..20 {
        for &s in &synthetic_poor_spreads {
            let rec = gate.observe(bits(s));
            assert_eq!(
                rec,
                CpRecommendation::LongCp,
                "spread {s} ms is a Poor-plus-timing-slop measurement (>= 2.5 ms gate \
                 threshold); must never recommend short-CP"
            );
        }
    }
}

#[test]
fn refuses_short_cp_when_spreads_sit_right_at_the_gate_threshold() {
    // Synthetic tap spans AT/ABOVE threshold (a channel right on the edge of the
    // profile's slop budget) must never accumulate a qualifying run.
    let mut gate = CpGate::new(bits(2.5), 3);
    for _ in 0..10 {
        assert_eq!(gate.observe(bits(2.5)), CpRecommendation::LongCp); // exactly at threshold: not "< threshold"
        assert_eq!(gate.observe(bits(3.0)), CpRecommendation::LongCp);
    }
}

#[test]
fn custom_consecutive_needed_of_one_switches_immediately() {
    let mut gate = CpGate::new(bits(2.5), 1);
    assert_eq!(gate.observe(bits(0.1)), CpRecommendation::ShortCp);
}

#[test]
fn consecutive_needed_is_clamped_to_at_least_one() {
    let mut gate = CpGate::new(bits(2.5), 0);
    assert_eq!(gate.observe(bits(0.1)), CpRecommendation::ShortCp);
}

#[test]
fn run_counter_does_not_overflow_on_a_long_calm_run() {
    let mut gate = CpGate::new(bits(2.5), 4);
    let mut last = CpRecommendation::LongCp;
    for _ in 0..300 {
        last = gate.observe(bits(0.1));
    }
    assert_eq!(
        last,
        CpRecommendation::ShortCp,
        "300 consecutive calm observations must have switched to ShortCp"
    );
    assert_eq!(
        gate.run_len(),
        4,
        "run must cap at consecutive_needed, not grow past it"
    );
}

#[test]
fn what_is_no_number_is_not_calm() {
    let mut gate = CpGate::new(bits(2.5), 1);
    assert_eq!(gate.observe(bits(f32::NAN)), CpRecommendation::LongCp);
    assert_eq!(gate.observe(bits(-1.0)), CpRecommendation::ShortCp);
    assert_eq!(gate.observe(bits(f32::INFINITY)), CpRecommendation::LongCp);
}
