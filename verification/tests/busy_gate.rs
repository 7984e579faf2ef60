use coppa::link::busy_gate::{CALIBRATION_BLOCKS, MIN_OCCUPIED_FRACTION};
use coppa::link::BusyGate;

const BLOCK: usize = 1024;

fn bits(v: f32) -> u32 {
    v.to_bits()
}

#[test]
fn starts_not_busy() {
    let gate = BusyGate::new();
    assert!(!gate.current());
}

#[test]
fn stays_quiet_on_low_level_noise_only() {
    let mut gate = BusyGate::new();
    for _ in 0..20 {
        let transition = gate.observe(BLOCK, bits(0.05));
        assert_eq!(transition, None, "quiet blocks must never trigger BUSY ON");
    }
    assert!(!gate.current());
}

#[test]
fn band_limited_noise_burst_triggers_busy_on_then_off() {
    let mut gate = BusyGate::new();
    for _ in 0..10 {
        assert_eq!(gate.observe(BLOCK, bits(0.02)), None);
    }
    assert!(!gate.current());

    // Nearly every bin of the band stands above the floor during the burst.
    assert_eq!(gate.observe(BLOCK, bits(0.97)), Some(true));
    assert!(gate.current());
    assert_eq!(gate.observe(BLOCK, bits(0.95)), None);

    assert_eq!(gate.observe(BLOCK, bits(0.1)), Some(false));
    assert!(!gate.current());
}

#[test]
fn the_first_blocks_only_settle_the_floor() {
    let mut gate = BusyGate::new();
    for _ in 0..CALIBRATION_BLOCKS {
        assert!(gate.is_calibrating());
        assert_eq!(gate.observe(BLOCK, bits(1.0)), None);
    }
    assert!(!gate.is_calibrating());
    assert_eq!(gate.observe(BLOCK, bits(1.0)), Some(true));
}

#[test]
fn empty_blocks_change_nothing() {
    let mut gate = BusyGate::new();
    for _ in 0..10 {
        assert_eq!(gate.observe(0, bits(1.0)), None);
    }
    assert!(gate.is_calibrating());
}

#[test]
fn the_limit_itself_is_busy() {
    assert_eq!(f32::from_bits(MIN_OCCUPIED_FRACTION), 0.6);
    let mut gate = BusyGate::new();
    for _ in 0..3 {
        gate.observe(BLOCK, bits(0.0));
    }
    assert_eq!(gate.observe(BLOCK, bits(0.599)), None);
    assert_eq!(gate.observe(BLOCK, bits(0.6)), Some(true));
}
