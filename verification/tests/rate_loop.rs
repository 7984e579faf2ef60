use coppa::link::{RateLoop, VALID_SPEED_LEVELS};

#[test]
fn starts_at_initial_level() {
    assert_eq!(RateLoop::default_coppa().current_level(), 1);
    assert_eq!(
        RateLoop::new(VALID_SPEED_LEVELS.to_vec(), 3, 6).current_level(),
        6
    );
}

#[test]
fn raise_is_slow_and_one_step() {
    let mut r = RateLoop::new(VALID_SPEED_LEVELS.to_vec(), 3, 1);
    r.on_ack(10, true); // higher recommendation, run=1
    assert_eq!(r.current_level(), 1);
    r.on_ack(10, true); // run=2
    assert_eq!(r.current_level(), 1);
    r.on_ack(10, true); // run=3 -> step up ONE level
    assert_eq!(r.current_level(), 2);
    r.on_ack(10, true); // run=1 again after reset
    assert_eq!(r.current_level(), 2);
}

#[test]
fn drop_is_immediate_to_recommendation() {
    let mut r = RateLoop::new(VALID_SPEED_LEVELS.to_vec(), 3, 7);
    r.on_ack(3, true); // lower recommendation -> jump straight to 3
    assert_eq!(r.current_level(), 3);
}

#[test]
fn failure_drops_one_step() {
    let mut r = RateLoop::new(VALID_SPEED_LEVELS.to_vec(), 3, 6);
    r.on_ack(10, false); // not delivered -> drop one step (6 -> 5)
    assert_eq!(r.current_level(), 5);
    r.on_timeout(); // 5 -> 4
    assert_eq!(r.current_level(), 4);
}

#[test]
fn skips_reserved_level_8() {
    let mut r = RateLoop::new(VALID_SPEED_LEVELS.to_vec(), 1, 7);
    r.on_ack(10, true); // dwell 1 -> step up from 7; next valid level is 9, NOT 8
    assert_eq!(r.current_level(), 9);
}

#[test]
fn clamps_at_floor_and_ceiling() {
    let mut r = RateLoop::new(VALID_SPEED_LEVELS.to_vec(), 1, 1);
    r.on_ack(1, false); // already at floor
    assert_eq!(r.current_level(), 1);
    let mut r2 = RateLoop::new(VALID_SPEED_LEVELS.to_vec(), 1, 10);
    r2.on_ack(10, true); // already at ceiling
    assert_eq!(r2.current_level(), 10);
}

#[test]
fn probing_disabled_by_default() {
    let mut r = RateLoop::new(VALID_SPEED_LEVELS.to_vec(), 3, 1);
    for _ in 0..20 {
        assert_eq!(r.level_for_next_transmission(), (1, false));
    }
}

#[test]
fn probe_triggers_at_configured_interval_and_offset() {
    // Starting at level 1 (idx 0), offset 2 -> idx 2 -> level 3.
    let mut r = RateLoop::new(VALID_SPEED_LEVELS.to_vec(), 3, 1).with_probing(3, 2);
    assert_eq!(r.level_for_next_transmission(), (1, false)); // frame 1
    assert_eq!(r.level_for_next_transmission(), (1, false)); // frame 2
    assert_eq!(r.level_for_next_transmission(), (3, true)); // frame 3 -> probe
    assert_eq!(r.level_for_next_transmission(), (1, false)); // counter reset, frame 1 again
    assert_eq!(r.level_for_next_transmission(), (1, false));
    assert_eq!(r.level_for_next_transmission(), (3, true));
}

#[test]
fn probe_is_stall_gated_and_skipped_while_passively_climbing() {
    let mut r = RateLoop::new(VALID_SPEED_LEVELS.to_vec(), 3, 1).with_probing(2, 2);
    r.on_ack(10, true); // raise_run: 0 -> 1, passive signal already making progress
    assert_eq!(r.level_for_next_transmission(), (1, false)); // interval frame 1
                                                             // Interval elapses here (frame 2), but raise_run != 0 -> gated, falls back to non-probe.
    assert_eq!(r.level_for_next_transmission(), (1, false));
    // Counter reset after the gated attempt; once raise_run is back to 0 the next full
    // interval does probe.
    r.on_ack(1, true); // hold: raise_run -> 0
    assert_eq!(r.level_for_next_transmission(), (1, false)); // interval frame 1
    assert_eq!(r.level_for_next_transmission(), (3, true)); // interval frame 2 -> probes
}

#[test]
fn probe_offset_clamps_at_ceiling_and_falls_back_to_non_probe() {
    // idx already at the last valid level (10); offset would overflow, clamps to idx itself,
    // which is treated as "nothing to probe" -- not a same-level probe.
    let mut r = RateLoop::new(VALID_SPEED_LEVELS.to_vec(), 3, 10).with_probing(1, 5);
    assert_eq!(r.level_for_next_transmission(), (10, false));
    assert_eq!(r.level_for_next_transmission(), (10, false));
}

#[test]
fn probe_success_jumps_immediately_bypassing_raise_dwell() {
    // raise_dwell is huge -- would never raise passively within this test.
    let mut r = RateLoop::new(VALID_SPEED_LEVELS.to_vec(), 100, 1);
    r.on_probe_result(6, true);
    assert_eq!(r.current_level(), 6);
}

#[test]
fn probe_failure_leaves_idx_and_raise_run_untouched() {
    let mut r = RateLoop::new(VALID_SPEED_LEVELS.to_vec(), 5, 1);
    r.on_ack(10, true); // raise_run: 0 -> 1 (real passive evidence, untouched by the probe below)
    assert_eq!(r.current_level(), 1);
    r.on_probe_result(9, false); // failed probe -- must not touch idx or raise_run
    assert_eq!(r.current_level(), 1);
    r.on_ack(10, true); // raise_run: 1 -> 2, proving it wasn't reset by the failed probe
    r.on_ack(10, true); // raise_run: 2 -> 3
    r.on_ack(10, true); // raise_run: 3 -> 4
    r.on_ack(10, true); // raise_run: 4 -> 5 -> steps up
    assert_eq!(r.current_level(), 2);
}

#[test]
fn level_between_two_is_rounded_down() {
    assert_eq!(RateLoop::new(VALID_SPEED_LEVELS.to_vec(), 3, 8).current_level(), 7);
    assert_eq!(RateLoop::new(VALID_SPEED_LEVELS.to_vec(), 3, 0).current_level(), 1);
    assert_eq!(VALID_SPEED_LEVELS, [1, 2, 3, 4, 5, 6, 7, 9, 10]);
}

#[test]
fn an_unconfirmed_raise_starts_over() {
    let mut r = RateLoop::new(VALID_SPEED_LEVELS.to_vec(), 2, 3);
    r.on_ack(10, true);
    r.on_timeout();
    assert_eq!(r.current_level(), 2);
    r.on_ack(10, true);
    assert_eq!(r.current_level(), 2);
    r.on_ack(10, true);
    assert_eq!(r.current_level(), 3);
}
