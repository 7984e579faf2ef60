use coppa::arq::{
    rto_floor, ArqConfig, ArqError, ArqRx, ArqTx, DEFAULT_FRAME_AIRTIME, DEFAULT_MAX_RETRANSMIT,
    DEFAULT_WINDOW_SIZE, MAX_RTO, MIN_RTO,
};

const SEC: u64 = 1_000_000_000;
const MS: u64 = 1_000_000;
const T0: u64 = 1_000_000 * SEC;

/// Airtime of a frame at level 2.
const LEVEL_2: Option<u64> = Some(1365 * MS);

#[test]
fn test_config_default() {
    let config = ArqConfig::default();
    assert_eq!(config.window_size, DEFAULT_WINDOW_SIZE);
    assert_eq!(config.max_retransmit, DEFAULT_MAX_RETRANSMIT);
}

#[test]
fn test_config_valid_range() {
    assert!(ArqConfig::new(1, 5, (3 * SEC)).is_ok());
    assert!(ArqConfig::new(32, 5, (3 * SEC)).is_ok());
}

#[test]
fn test_config_invalid_window() {
    assert!(ArqConfig::new(0, 5, (3 * SEC)).is_err());
    assert!(ArqConfig::new(33, 5, (3 * SEC)).is_err());
}

#[test]
fn test_tx_send_basic() {
    let mut tx = ArqTx::new(ArqConfig::default());
    let now = T0;

    let seq = tx.send(vec![0x01], now).unwrap();
    assert_eq!(seq, 0);
    assert_eq!(tx.in_flight(), 1);

    let seq2 = tx.send(vec![0x02], now).unwrap();
    assert_eq!(seq2, 1);
    assert_eq!(tx.in_flight(), 2);
}

#[test]
fn test_tx_window_full() {
    let config = ArqConfig::new(2, 5, (5 * SEC)).unwrap();
    let mut tx = ArqTx::new(config);
    let now = T0;

    tx.send(vec![0x01], now).unwrap();
    tx.send(vec![0x02], now).unwrap();
    assert!(tx.send(vec![0x03], now).is_err());
}

#[test]
fn test_tx_ack_advances_window() {
    let config = ArqConfig::new(2, 5, (5 * SEC)).unwrap();
    let mut tx = ArqTx::new(config);
    let now = T0;

    tx.send(vec![0x01], now).unwrap();
    tx.send(vec![0x02], now).unwrap();
    assert!(!tx.can_send());

    // ACK both
    let acked = tx.process_ack(2, 0, now).newly_acked;
    assert_eq!(acked.len(), 2);
    assert!(tx.can_send());
    assert_eq!(tx.in_flight(), 0);
}

#[test]
fn test_tx_selective_ack() {
    let mut tx = ArqTx::new(ArqConfig::default());
    let now = T0;

    // Send 4 segments
    for i in 0..4 {
        tx.send(vec![i], now).unwrap();
    }

    // Everything below 1 is acked, and bit 1 stands for ack_num + 2 = 3.
    let acked = tx.process_ack(1, 0b00000010, now).newly_acked;
    assert!(acked.contains(&0));
    assert!(acked.contains(&3));
    assert_eq!(acked.len(), 2);
}

#[test]
fn test_tx_retransmit_detection() {
    let config = ArqConfig::new(8, 5, (100 * MS)).unwrap();
    let mut tx = ArqTx::new(config);
    let start = T0;

    tx.send(vec![0x01], start).unwrap();

    // No retransmit needed yet
    let retransmits = tx.get_retransmits(start);
    assert!(retransmits.is_empty());

    // After RTO, should need retransmit
    let later = start + (200 * MS);
    let retransmits = tx.get_retransmits(later);
    assert_eq!(retransmits, vec![0]);
}

#[test]
fn test_tx_retransmit_count() {
    let config = ArqConfig::new(8, 2, (50 * MS)).unwrap();
    let mut tx = ArqTx::new(config);
    let start = T0;

    tx.send(vec![0x01], start).unwrap();
    // transmit_count is 1 after send

    // First retransmit
    tx.mark_retransmitted(0, start + (100 * MS))
        .unwrap();
    assert!(!tx.is_failed(0)); // transmit_count = 2

    // Second retransmit
    tx.mark_retransmitted(0, start + (200 * MS))
        .unwrap();
    assert!(tx.is_failed(0)); // transmit_count = 3 > max_retransmit(2)
}

#[test]
fn test_tx_get_segment_data() {
    let mut tx = ArqTx::new(ArqConfig::default());
    let now = T0;

    tx.send(vec![0xAA, 0xBB], now).unwrap();
    assert_eq!(tx.get_segment_data(0), Some(&[0xAA, 0xBB][..]));
    assert_eq!(tx.get_segment_data(1), None);
}

#[test]
fn test_tx_karn_algorithm() {
    let config = ArqConfig::new(8, 5, 5 * SEC).unwrap();
    let mut tx = ArqTx::new(config);
    let start = T0;

    // Send two segments
    tx.send(vec![0x01], start).unwrap();
    tx.send(vec![0x02], start).unwrap();

    // Retransmit seq 0
    tx.mark_retransmitted(0, start + 100 * MS).unwrap();

    // Of the two, only seq 1 gives a sample.
    let ack_time = start + 500 * MS;
    let outcome = tx.process_ack(2, 0, ack_time);
    assert_eq!(outcome.newly_acked, vec![0, 1]);
    assert_eq!(outcome.rtt_samples, vec![500 * MS]);
    let rto_before = tx.rto();
    assert!(rto_before > 0);
    // A first sample of 0.5 s asks for 0.5 + 4 * 0.25 s.
    tx.set_estimate(1500 * MS);
    assert!(tx.rto() > 0);
}

#[test]
fn test_rx_in_order() {
    let mut rx = ArqRx::new(8);

    let delivered = rx.receive(0, vec![0x01]);
    assert_eq!(delivered.len(), 1);
    assert_eq!(delivered[0], (0, vec![0x01]));

    let delivered = rx.receive(1, vec![0x02]);
    assert_eq!(delivered.len(), 1);
    assert_eq!(delivered[0], (1, vec![0x02]));
}

#[test]
fn test_rx_out_of_order() {
    let mut rx = ArqRx::new(8);

    // Receive seq 1 before seq 0
    let delivered = rx.receive(1, vec![0x02]);
    assert!(delivered.is_empty()); // cannot deliver yet

    let delivered = rx.receive(0, vec![0x01]);
    assert_eq!(delivered.len(), 2);
    assert_eq!(delivered[0], (0, vec![0x01]));
    assert_eq!(delivered[1], (1, vec![0x02]));
}

#[test]
fn test_rx_duplicate() {
    let mut rx = ArqRx::new(8);

    let delivered = rx.receive(0, vec![0x01]);
    assert_eq!(delivered.len(), 1);

    // Duplicate of already delivered segment
    let delivered = rx.receive(0, vec![0x01]);
    assert!(delivered.is_empty());
}

#[test]
fn test_rx_outside_window() {
    let mut rx = ArqRx::new(4);

    // seq 5 is outside window [0..4)
    let delivered = rx.receive(5, vec![0xFF]);
    assert!(delivered.is_empty());
}

#[test]
fn test_rx_ack_info_in_order() {
    let mut rx = ArqRx::new(8);

    rx.receive(0, vec![0x01]);
    rx.receive(1, vec![0x02]);

    let (ack_num, bitmap) = rx.ack_info();
    assert_eq!(ack_num, 2); // received 0 and 1
    assert_eq!(bitmap, 0);
}

#[test]
fn test_rx_ack_info_gap() {
    let mut rx = ArqRx::new(8);

    // Receive 0, skip 1, receive 2 and 3
    rx.receive(0, vec![0x01]);
    rx.receive(2, vec![0x03]);
    rx.receive(3, vec![0x04]);

    let (ack_num, bitmap) = rx.ack_info();
    assert_eq!(ack_num, 1); // only seq 0 is in order
    assert_eq!(bitmap, 0b00000011);
}

#[test]
fn test_rx_ack_info_scattered() {
    let mut rx = ArqRx::new(8);

    // Receive seq 0, 2, 4, 6
    rx.receive(0, vec![]);
    rx.receive(2, vec![]);
    rx.receive(4, vec![]);
    rx.receive(6, vec![]);

    let (ack_num, bitmap) = rx.ack_info();
    assert_eq!(ack_num, 1);
    // bit 0 -> seq 2: yes -> 1
    // bit 1 -> seq 3: no  -> 0
    // bit 2 -> seq 4: yes -> 1
    // bit 3 -> seq 5: no  -> 0
    // bit 4 -> seq 6: yes -> 1
    // bit 5 -> seq 7: no  -> 0
    assert_eq!(bitmap, 0b00010101);
}

#[test]
fn test_tx_rx_perfect_channel() {
    let mut tx = ArqTx::new(ArqConfig::default());
    let mut rx = ArqRx::new(DEFAULT_WINDOW_SIZE);
    let now = T0;

    let mut all_delivered = Vec::new();

    // Send 10 segments
    for i in 0..10u8 {
        let seq = tx.send(vec![i], now).unwrap();

        // "Transmit" and receive
        let data = tx.get_segment_data(seq).unwrap().to_vec();
        let delivered = rx.receive(seq, data);
        all_delivered.extend(delivered);

        // ACK
        let (ack_num, bitmap) = rx.ack_info();
        tx.process_ack(ack_num, bitmap, now);
    }

    assert_eq!(all_delivered.len(), 10);
    for (i, (seq, data)) in all_delivered.iter().enumerate() {
        assert_eq!(*seq, i as u8);
        assert_eq!(data, &vec![i as u8]);
    }
}

#[test]
fn test_tx_rx_with_loss() {
    let mut tx = ArqTx::new(ArqConfig::default());
    let mut rx = ArqRx::new(DEFAULT_WINDOW_SIZE);
    let now = T0;

    // Send 3 segments
    tx.send(vec![0x01], now).unwrap();
    tx.send(vec![0x02], now).unwrap();
    tx.send(vec![0x03], now).unwrap();

    // Only deliver seq 0 and seq 2 (seq 1 is "lost")
    rx.receive(0, vec![0x01]);
    rx.receive(2, vec![0x03]);

    // Check ACK info
    let (ack_num, bitmap) = rx.ack_info();
    assert_eq!(ack_num, 1); // cumulative up to 1
    assert_eq!(bitmap & 1, 1); // bit 0 set for seq 2

    // Process ACK
    let acked = tx.process_ack(ack_num, bitmap, now).newly_acked;
    assert!(acked.contains(&0));
    assert!(acked.contains(&2));

    // Retransmit seq 1
    rx.receive(1, vec![0x02]);
    let (ack_num2, _bitmap2) = rx.ack_info();
    assert_eq!(ack_num2, 3); // now everything is in order
}

#[test]
fn test_wrapping_sequence_numbers() {
    let config = ArqConfig::new(8, 5, (5 * SEC)).unwrap();
    let mut tx = ArqTx::new(config);
    let mut rx = ArqRx::new(8);
    let now = T0;

    // Send and acknowledge until just before the numbers wrap
    for _ in 0..252 {
        let seq = tx.send(vec![0x00], now).unwrap();
        rx.receive(seq, vec![0x00]);
        let (ack_num, bitmap) = rx.ack_info();
        tx.process_ack(ack_num, bitmap, now);
    }

    assert_eq!(tx.send_base(), 252);

    // Now send across the boundary
    for i in 0..8u8 {
        let seq = tx.send(vec![i], now).unwrap();
        let data = tx.get_segment_data(seq).unwrap().to_vec();
        let delivered = rx.receive(seq, data);
        assert_eq!(delivered.len(), 1);
    }

    let (ack_num, _) = rx.ack_info();
    let acked = tx.process_ack(ack_num, 0, now).newly_acked;
    assert_eq!(acked.len(), 8);
}

#[test]
fn test_rto_floor_matches_hand_calc() {
    // Eight frames of 1.365 s, two turnarounds of 0.15 s and an
    // acknowledgment of 1.365 s.
    let floor = rto_floor(8, LEVEL_2, LEVEL_2, 150 * MS);
    assert_eq!(floor, 12_585 * MS);
    assert_eq!(DEFAULT_FRAME_AIRTIME, 1365 * MS);
}

#[test]
fn test_rto_floor_falls_back_for_invalid_level() {
    // A reserved level has no airtime.
    let floor = rto_floor(8, None, None, 150 * MS);
    assert_eq!(floor, MIN_RTO);
}

#[test]
fn test_rto_never_falls_below_computed_floor() {
    // Acknowledgments after 10 ms ask for far less than the floor of a wide
    // window on a slow level.
    let turnaround = 150 * MS;
    let expected_floor = rto_floor(8, LEVEL_2, LEVEL_2, turnaround);

    let config = ArqConfig::new(8, 5, 5 * SEC)
        .unwrap()
        .with_airtime_params(2, turnaround, LEVEL_2);
    let mut tx = ArqTx::new(config);
    let start = T0;

    for i in 0..50u8 {
        let seq = tx.send(vec![i], start).unwrap();
        let ack_time = start + 10 * MS;
        let outcome = tx.process_ack(seq.wrapping_add(1), 0, ack_time);
        assert_eq!(outcome.rtt_samples, vec![10 * MS]);
        tx.set_estimate(30 * MS);
        assert!(tx.rto() >= expected_floor, "iteration {i}: rto {} fell below floor", tx.rto());
    }
}

#[test]
fn test_backoff_fires_once_per_timeout_event_not_per_segment() {
    // A full window expires in one poll: the timeout doubles once.
    let config = ArqConfig::new(8, 5, 100 * MS).unwrap();
    let mut tx = ArqTx::new(config);
    let start = T0;

    for i in 0..8u8 {
        tx.send(vec![i], start).unwrap();
    }

    let rto_before = tx.rto();
    let later = start + 200 * MS;
    let retransmits = tx.get_retransmits(later);
    assert_eq!(retransmits.len(), 8, "all 8 segments should have expired together");

    let rto_after = tx.rto();
    assert_eq!(rto_after, 2 * rto_before);

    // Retransmitting each segment must not apply further backoff.
    for &seq in &retransmits {
        tx.mark_retransmitted(seq, later).unwrap();
    }
    assert_eq!(tx.rto(), rto_after);
}

#[test]
fn test_fade_recovery_within_two_rtos() {
    // A full burst is sent as a fade of five seconds begins. The fade is
    // shorter than the timeout, so nothing is sent again during it; after the
    // timeout the whole burst is, once.
    let turnaround = 150 * MS;
    let level = 2u8;
    let window = 8u8;

    let config = ArqConfig::new(window, 5, 5 * SEC)
        .unwrap()
        .with_airtime_params(level, turnaround, LEVEL_2);
    let mut tx = ArqTx::new(config);
    let mut rx = ArqRx::new(window);

    let start = T0;
    let mut now = start;

    // A first sample brings the timeout to its floor or above.
    let seq0 = tx.send(vec![0xAA], now).unwrap();
    let delivered = rx.receive(seq0, vec![0xAA]);
    assert_eq!(delivered.len(), 1);
    let (ack_num, bitmap) = rx.ack_info();
    let rtt = rto_floor(1, LEVEL_2, LEVEL_2, turnaround);
    now += rtt;
    let outcome = tx.process_ack(ack_num, bitmap, now);
    assert_eq!(outcome.rtt_samples, vec![rtt]);
    tx.set_estimate(3 * rtt);
    let established_rto = tx.rto();
    assert!(established_rto >= rto_floor(window, LEVEL_2, LEVEL_2, turnaround));

    let mut seqs = Vec::new();
    for i in 1..=window {
        seqs.push(tx.send(vec![i], now).unwrap());
    }
    let fade_start = now;
    let fade_duration = 5 * SEC;

    now = fade_start + fade_duration;
    assert!(tx.get_retransmits(now).is_empty());

    let rto1 = tx.rto();
    now = fade_start + rto1 + MS;
    let retransmits = tx.get_retransmits(now);
    assert_eq!(retransmits.len(), seqs.len());
    for &seq in &retransmits {
        tx.mark_retransmitted(seq, now).unwrap();
    }

    for &seq in &seqs {
        let data = tx.get_segment_data(seq).unwrap().to_vec();
        rx.receive(seq, data);
    }
    let (ack_num2, bitmap2) = rx.ack_info();
    now += 500 * MS;
    let acked = tx.process_ack(ack_num2, bitmap2, now).newly_acked;
    assert_eq!(acked.len(), seqs.len());

    let total_elapsed = now - fade_start;
    assert!(total_elapsed <= rto1 * 2 + 600 * MS);
}

#[test]
fn arq_errors_name_their_cause() {
    match ArqConfig::new(33, 5, 3 * SEC) {
        Err(e) => assert_eq!(e, ArqError::WindowSize { got: 33 }),
        Ok(_) => panic!("the window is too wide"),
    }
    let mut tx = ArqTx::new(ArqConfig::new(1, 5, SEC).unwrap());
    assert_eq!(tx.mark_retransmitted(4, T0), Err(ArqError::NoPendingSegment { seq: 4 }));
    tx.send(vec![1], T0).unwrap();
    assert_eq!(tx.send(vec![2], T0), Err(ArqError::WindowFull));
}

#[test]
fn timeout_stays_between_its_bounds() {
    let mut tx = ArqTx::new(ArqConfig::default());
    assert_eq!(tx.floor(), 12_585 * MS);
    tx.set_estimate(0);
    assert_eq!(tx.rto(), tx.floor());
    tx.set_estimate(100 * SEC);
    assert_eq!(tx.rto(), MAX_RTO);
    tx.send(vec![1], T0).unwrap();
    assert_eq!(tx.get_retransmits(T0 + 200 * SEC), vec![0]);
    assert_eq!(tx.rto(), MAX_RTO);
}

#[test]
fn failing_segments_are_counted() {
    let mut tx = ArqTx::new(ArqConfig::new(4, 1, SEC).unwrap());
    let seq = tx.send(vec![9], T0).unwrap();
    assert_eq!(tx.transmit_count(seq), Some(1));
    tx.mark_retransmitted(seq, T0 + SEC).unwrap();
    assert_eq!(tx.transmit_count(seq), Some(2));
    assert!(tx.is_failed(seq));
    assert_eq!(tx.transmit_count(3), None);
}

#[test]
fn everything_sent_is_delivered_in_order() {
    let mut tx = ArqTx::new(ArqConfig::new(32, 5, SEC).unwrap());
    let mut rx = ArqRx::new(32);
    let mut delivered = Vec::new();
    for round in 0..20u32 {
        let mut burst = Vec::new();
        while tx.can_send() {
            burst.push(tx.send(vec![round as u8, tx.next_seq()], T0).unwrap());
        }
        for &seq in burst.iter().rev() {
            let data = tx.get_segment_data(seq).unwrap().to_vec();
            delivered.extend(rx.receive(seq, data));
        }
        let (ack_num, bitmap) = rx.ack_info();
        tx.process_ack(ack_num, bitmap, T0);
        assert_eq!(rx.recv_base(), tx.send_base());
    }
    assert_eq!(delivered.len(), 640);
    for (i, (seq, data)) in delivered.iter().enumerate() {
        assert_eq!(*seq, (i % 256) as u8);
        assert_eq!(*data, vec![(i / 32) as u8, (i % 256) as u8]);
    }
}

#[test]
fn acks_of_segments_never_sent_move_nothing() {
    let mut tx = ArqTx::new(ArqConfig::default());
    let out = tx.process_ack(5, 0, T0);
    assert!(out.newly_acked.is_empty());
    assert_eq!(tx.send_base(), 0);
    assert_eq!(tx.in_flight(), 0);
    assert!(tx.can_send());

    for i in 0..3u8 {
        tx.send(vec![i], T0).unwrap();
    }
    assert!(tx.process_ack(4, 0, T0).newly_acked.is_empty());
    assert_eq!(tx.in_flight(), 3);
    assert_eq!(tx.process_ack(3, 0, T0).newly_acked, vec![0, 1, 2]);
    assert_eq!(tx.send_base(), 3);
    assert_eq!(tx.next_seq(), 3);
    assert!(tx.process_ack(2, 0, T0).newly_acked.is_empty());
    assert_eq!(tx.send_base(), 3);
}

#[test]
fn each_number_is_listed_once() {
    let mut tx = ArqTx::new(ArqConfig::default());
    for i in 0..6u8 {
        tx.send(vec![i], T0).unwrap();
    }
    assert_eq!(tx.process_ack(1, 0b101, T0).newly_acked, vec![0, 2, 4]);
    assert_eq!(tx.process_ack(3, 0b11, T0).newly_acked, vec![1, 5]);
    assert_eq!(tx.process_ack(6, !0, T0).newly_acked, vec![3]);
    assert_eq!(tx.in_flight(), 0);
}

#[test]
fn deliveries_run_on_over_repeats_and_losses() {
    let mut rx = ArqRx::new(8);
    let mut out: Vec<(u8, Vec<u8>)> = Vec::new();
    let arrivals: [(u8, u8); 9] = [(2, 20), (2, 99), (0, 0), (0, 99), (3, 30), (1, 10), (2, 99), (5, 50), (4, 40)];
    for (seq, byte) in arrivals {
        let base = rx.recv_base();
        let got = rx.receive(seq, vec![byte]);
        assert_eq!(got.is_empty(), seq != base);
        out.extend(got);
    }
    let expected: Vec<(u8, Vec<u8>)> = (0..6u8).map(|i| (i, vec![10 * i])).collect();
    assert_eq!(out, expected);
    assert_eq!(rx.recv_base(), 6);
    let info = rx.ack_info();
    assert!(rx.receive(40, vec![1]).is_empty());
    assert_eq!(rx.ack_info(), info);
}
