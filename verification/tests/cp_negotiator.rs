use coppa::cp_negotiator::{
    ContentAction, CpMode, CpNegotiator, CpTimeout, KIND_CONFIRM, KIND_PROPOSE, KIND_SWITCHED,
    SWITCH_PROBATION, SWITCH_PROBATION_SECS,
};

const SEC: u64 = 1_000_000_000;
const T0: u64 = 1_000_000 * SEC;

#[test]
fn cp_negotiator_starts_at_long_cp() {
    let n = CpNegotiator::new();
    assert_eq!(n.current(), CpMode::LongCp);
}

#[test]
fn wire_roundtrip() {
    assert_eq!(CpMode::from_wire(CpMode::LongCp.to_wire()), CpMode::LongCp);
    assert_eq!(
        CpMode::from_wire(CpMode::ShortCp.to_wire()),
        CpMode::ShortCp
    );
}

#[test]
fn propose_payload_is_two_bytes_kind_then_mode() {
    let payload = CpNegotiator::propose_payload(CpMode::ShortCp);
    assert_eq!(payload.len(), 2);
    assert_eq!(payload[0], KIND_PROPOSE);
    assert_eq!(CpMode::from_wire(payload[1]), CpMode::ShortCp);
}

#[test]
fn receiving_a_propose_yields_a_confirm_for_the_same_mode() {
    let propose = CpNegotiator::propose_payload(CpMode::ShortCp);
    match CpNegotiator::on_content_received(&propose) {
        Some(ContentAction::SendConfirm(confirm)) => {
            assert_eq!(confirm[0], KIND_CONFIRM);
            assert_eq!(CpMode::from_wire(confirm[1]), CpMode::ShortCp);
        }
        other => panic!("expected SendConfirm, got {other:?}"),
    }
}

#[test]
fn receiving_a_confirm_yields_apply_as_confirmer() {
    let confirm = vec![KIND_CONFIRM, CpMode::ShortCp.to_wire()];
    match CpNegotiator::on_content_received(&confirm) {
        Some(ContentAction::ApplyAsConfirmer(mode)) => assert_eq!(mode, CpMode::ShortCp),
        other => panic!("expected ApplyAsConfirmer, got {other:?}"),
    }
}

#[test]
fn malformed_payload_is_ignored_not_panicked() {
    assert!(CpNegotiator::on_content_received(&[]).is_none());
    assert!(CpNegotiator::on_content_received(&[0xFF]).is_none());
    assert!(CpNegotiator::on_content_received(&[0xFF, 0x00]).is_none());
    assert!(CpNegotiator::on_content_received(&[0x01, 0x00, 0x00]).is_none());
}

#[test]
fn apply_as_confirmer_updates_current() {
    let mut n = CpNegotiator::new();
    n.apply_as_confirmer(CpMode::ShortCp, T0);
    assert_eq!(n.current(), CpMode::ShortCp);
}

#[test]
fn confirm_ack_applies_mode_and_clears_pending() {
    let mut n = CpNegotiator::new();
    n.track_pending_confirm(5, CpMode::ShortCp);
    assert_eq!(
        n.on_confirm_acked(&[1, 2, 3]),
        None,
        "unrelated seqs must not trigger"
    );
    assert_eq!(n.current(), CpMode::LongCp, "must not have changed yet");
    assert_eq!(n.on_confirm_acked(&[5]), Some(CpMode::ShortCp));
    assert_eq!(n.current(), CpMode::ShortCp);
    // Second call with no pending confirm must be a no-op, not a panic.
    assert_eq!(n.on_confirm_acked(&[5]), None);
}

#[test]
fn switched_payload_is_two_bytes_kind_then_mode() {
    let p = CpNegotiator::switched_payload(CpMode::ShortCp);
    assert_eq!(p.len(), 2);
    assert_eq!(p[0], KIND_SWITCHED);
    assert_eq!(CpMode::from_wire(p[1]), CpMode::ShortCp);
}

#[test]
fn receiving_a_switched_yields_peer_switched() {
    let p = CpNegotiator::switched_payload(CpMode::ShortCp);
    match CpNegotiator::on_content_received(&p) {
        Some(ContentAction::PeerSwitched(mode)) => assert_eq!(mode, CpMode::ShortCp),
        other => panic!("expected PeerSwitched, got {other:?}"),
    }
}

#[test]
fn probation_is_armed_by_apply_as_confirmer_and_expires() {
    let t0 = T0;
    let mut n = CpNegotiator::new();
    n.apply_as_confirmer(CpMode::ShortCp, t0);
    assert_eq!(n.current(), CpMode::ShortCp);
    // Not yet expired.
    assert_eq!(
        n.tick(t0 + ((SWITCH_PROBATION_SECS - 1) * SEC)),
        None
    );
    assert_eq!(n.current(), CpMode::ShortCp);
    // Expired -> revert to the pre-switch mode.
    assert_eq!(
        n.tick(t0 + ((SWITCH_PROBATION_SECS + 1) * SEC)),
        Some(CpTimeout::RevertTo(CpMode::LongCp))
    );
    assert_eq!(n.current(), CpMode::LongCp);
}

#[test]
fn probation_expiring_is_reported_once_not_every_tick() {
    let t0 = T0;
    let mut n = CpNegotiator::new();
    n.apply_as_confirmer(CpMode::ShortCp, t0);
    let late = t0 + ((SWITCH_PROBATION_SECS + 1) * SEC);
    assert!(n.tick(late).is_some());
    assert_eq!(n.tick(late), None, "must not re-fire after reverting");
}

#[test]
fn peer_switched_disarms_probation() {
    let t0 = T0;
    let mut n = CpNegotiator::new();
    n.apply_as_confirmer(CpMode::ShortCp, t0);
    n.on_peer_switched(CpMode::ShortCp);
    assert_eq!(
        n.tick(t0 + ((SWITCH_PROBATION_SECS + 1) * SEC)),
        None,
        "a confirmed peer switch must cancel probation permanently"
    );
    assert_eq!(n.current(), CpMode::ShortCp);
}

#[test]
fn peer_switched_for_a_different_mode_does_not_disarm() {
    // A stale/garbled PeerSwitched naming the mode we did NOT switch to
    // must not be accepted as proof of this switch.
    let t0 = T0;
    let mut n = CpNegotiator::new();
    n.apply_as_confirmer(CpMode::ShortCp, t0);
    n.on_peer_switched(CpMode::LongCp);
    assert!(n
        .tick(t0 + ((SWITCH_PROBATION_SECS + 1) * SEC))
        .is_some());
}

#[test]
fn switched_leg_is_tracked_and_resolved_by_its_ack() {
    let mut n = CpNegotiator::new();
    n.track_pending_switched(7);
    assert!(
        !n.on_switched_acked(&[1, 2]),
        "unrelated seqs must not resolve"
    );
    assert!(n.on_switched_acked(&[7]));
    assert!(
        !n.on_switched_acked(&[7]),
        "second call is a no-op, not a panic"
    );
}

#[test]
fn pending_seq_accessors_expose_what_the_daemon_must_poll_for_failure() {
    let mut n = CpNegotiator::new();
    assert_eq!(n.pending_confirm_seq(), None);
    assert_eq!(n.pending_switched_seq(), None);
    n.track_pending_confirm(3, CpMode::ShortCp);
    n.track_pending_switched(4);
    assert_eq!(n.pending_confirm_seq(), Some(3));
    assert_eq!(n.pending_switched_seq(), Some(4));
}

#[test]
fn abort_clears_all_wait_state_and_reverts_to_the_pre_negotiation_mode() {
    let t0 = T0;
    let mut n = CpNegotiator::new();
    n.track_pending_confirm(3, CpMode::ShortCp);
    n.track_pending_switched(4);
    n.apply_as_confirmer(CpMode::ShortCp, t0);
    // Pre-negotiation mode here is the LongCp this negotiator booted into.
    assert_eq!(n.abort(), CpMode::LongCp);
    assert_eq!(n.current(), CpMode::LongCp);
    assert_eq!(n.pending_confirm_seq(), None);
    assert_eq!(n.pending_switched_seq(), None);
    assert_eq!(
        n.tick(t0 + ((SWITCH_PROBATION_SECS + 1) * SEC)),
        None
    );
}

/// Put a negotiator in the state a station is really in after one
/// successful negotiation: converged on `mode`, nothing pending, no stale
/// give-up target left armed.
fn converged_on(mode: CpMode) -> CpNegotiator {
    let mut n = CpNegotiator::new();
    n.apply_as_confirmer(mode, T0);
    n.on_peer_switched(mode);
    assert_eq!(n.current(), mode);
    n
}

#[test]
fn abort_reverts_to_the_pre_negotiation_mode_not_unconditionally_long_cp() {
    // A is converged on ShortCp and now confirms a ShortCp -> LongCp
    // downshift. If its Confirm (or its third leg) is lost, it must come
    // back to ShortCp -- the mode the peer is still on -- not to LongCp.
    let mut a = converged_on(CpMode::ShortCp);
    a.track_pending_confirm(1, CpMode::LongCp);
    assert_eq!(a.abort(), CpMode::ShortCp);
    assert_eq!(a.current(), CpMode::ShortCp);
}

#[test]
fn abort_and_tick_converge_on_the_same_mode_in_the_short_to_long_direction() {
    // A gives up via `abort` and B via `tick` on the same failed negotiation.
    let t0 = T0;

    let mut a = converged_on(CpMode::ShortCp);
    a.track_pending_confirm(1, CpMode::LongCp);
    let a_target = a.abort();

    let mut b = converged_on(CpMode::ShortCp);
    b.apply_as_confirmer(CpMode::LongCp, t0);
    let b_target = match b.tick(t0 + ((SWITCH_PROBATION_SECS + 1) * SEC)) {
        Some(CpTimeout::RevertTo(mode)) => mode,
        other => panic!("expected a probation timeout, got {other:?}"),
    };

    assert_eq!(
        a_target, b_target,
        "the two give-up paths must have one convergence target"
    );
    assert_eq!(
        a_target,
        CpMode::ShortCp,
        "and it is the pre-negotiation mode"
    );
    assert_eq!(a.current(), b.current());
}

#[test]
fn giving_up_with_no_negotiation_in_flight_leaves_the_settled_mode_alone() {
    // A bare `abort()` must not drag a station off a mode it legitimately
    // settled on -- there is no negotiation to rewind.
    let mut n = converged_on(CpMode::ShortCp);
    assert_eq!(n.abort(), CpMode::ShortCp);
    assert_eq!(n.current(), CpMode::ShortCp);
}

#[test]
fn a_completed_negotiation_clears_the_give_up_target_on_both_sides() {
    // Otherwise a later `abort()` rewinds two negotiations instead of one.
    let t0 = T0;

    // A's side: the third leg being acked completes the handshake.
    let mut a = CpNegotiator::new();
    a.track_pending_confirm(1, CpMode::ShortCp);
    assert_eq!(a.on_confirm_acked(&[1]), Some(CpMode::ShortCp));
    a.track_pending_switched(2);
    assert!(a.on_switched_acked(&[2]));
    // Second negotiation, ShortCp -> LongCp: giving up returns to ShortCp,
    // not all the way to the LongCp the FIRST negotiation started from.
    a.track_pending_confirm(3, CpMode::LongCp);
    assert_eq!(a.abort(), CpMode::ShortCp);

    // B's side: the third leg arriving completes the handshake.
    let mut b = CpNegotiator::new();
    b.apply_as_confirmer(CpMode::ShortCp, t0);
    b.on_peer_switched(CpMode::ShortCp);
    b.apply_as_confirmer(CpMode::LongCp, t0);
    assert_eq!(
        b.tick(t0 + ((SWITCH_PROBATION_SECS + 1) * SEC)),
        Some(CpTimeout::RevertTo(CpMode::ShortCp))
    );
}

#[test]
fn a_fresh_negotiator_never_times_out() {
    let mut n = CpNegotiator::new();
    let t0 = T0;
    assert_eq!(
        n.tick(t0 + ((SWITCH_PROBATION_SECS * 10) * SEC)),
        None
    );
}

#[test]
fn probation_expiring_with_nothing_to_revert_to_reports_no_timeout() {
    let t0 = T0;
    let mut n = CpNegotiator::new();
    n.apply_as_confirmer(CpMode::ShortCp, t0);
    n.track_pending_switched(9);
    assert!(n.on_switched_acked(&[9]), "test setup: clears revert_to");

    assert_eq!(
        n.tick(t0 + ((SWITCH_PROBATION_SECS + 1) * SEC)),
        None,
        "no pre-negotiation mode left, so nothing to report"
    );
    assert_eq!(
        n.current(),
        CpMode::ShortCp,
        "and the settled mode must be left alone"
    );
    // Probation is still disarmed, so this cannot re-fire later either.
    assert_eq!(
        n.tick(t0 + ((SWITCH_PROBATION_SECS * 10) * SEC)),
        None
    );
}

#[test]
fn negotiation_in_flight_tracks_every_wait_state() {
    let t0 = T0;

    let mut fresh = CpNegotiator::new();
    assert!(!fresh.negotiation_in_flight());
    assert_eq!(fresh.abort(), CpMode::LongCp);
    assert!(!fresh.negotiation_in_flight());

    let mut a = CpNegotiator::new();
    a.track_pending_confirm(1, CpMode::ShortCp);
    assert!(a.negotiation_in_flight(), "an unacked Confirm counts");
    assert_eq!(a.on_confirm_acked(&[1]), Some(CpMode::ShortCp));
    assert!(
        !a.negotiation_in_flight(),
        "an acked Confirm alone leaves nothing tracked"
    );
    a.track_pending_switched(2);
    assert!(a.negotiation_in_flight(), "an unacked third leg counts");
    assert!(a.on_switched_acked(&[2]));
    assert!(!a.negotiation_in_flight());

    let mut b = CpNegotiator::new();
    b.apply_as_confirmer(CpMode::ShortCp, t0);
    assert!(b.negotiation_in_flight(), "armed probation counts");
    b.on_peer_switched(CpMode::ShortCp);
    assert!(!b.negotiation_in_flight());
}

#[test]
fn unknown_kinds_still_return_none_after_adding_switched() {
    assert!(CpNegotiator::on_content_received(&[0x04, 0x00]).is_none());
    assert!(CpNegotiator::on_content_received(&[0x00, 0x00]).is_none());
}

#[test]
fn messages_are_exact() {
    assert_eq!(CpMode::LongCp.to_wire(), 0);
    assert_eq!(CpMode::ShortCp.to_wire(), 1);
    assert_eq!(CpNegotiator::propose_payload(CpMode::ShortCp), vec![1, 1]);
    assert_eq!(CpNegotiator::switched_payload(CpMode::LongCp), vec![3, 0]);
    assert_eq!(SWITCH_PROBATION, SWITCH_PROBATION_SECS * SEC);
}

#[test]
fn a_whole_negotiation_settles_both_sides() {
    let mut a = CpNegotiator::default();
    let mut b = CpNegotiator::new();
    let propose = CpNegotiator::propose_payload(CpMode::ShortCp);
    let confirm = match CpNegotiator::on_content_received(&propose) {
        Some(ContentAction::SendConfirm(c)) => c,
        other => panic!("expected a confirmation, got {other:?}"),
    };
    b.track_pending_confirm(7, CpMode::ShortCp);
    match CpNegotiator::on_content_received(&confirm) {
        Some(ContentAction::ApplyAsConfirmer(mode)) => a.apply_as_confirmer(mode, T0),
        other => panic!("expected a switch, got {other:?}"),
    }
    assert_eq!(b.on_confirm_acked(&[7]), Some(CpMode::ShortCp));
    let switched = CpNegotiator::switched_payload(CpMode::ShortCp);
    b.track_pending_switched(8);
    match CpNegotiator::on_content_received(&switched) {
        Some(ContentAction::PeerSwitched(mode)) => assert!(a.on_peer_switched(mode)),
        other => panic!("expected a notice, got {other:?}"),
    }
    assert!(b.on_switched_acked(&[8]));
    assert_eq!(a.current(), b.current());
    assert!(!a.negotiation_in_flight() && !b.negotiation_in_flight());
}
