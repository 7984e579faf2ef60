use coppa::ax25::{Ax25Address, Ax25Frame, MAX_DIGIPEATERS, MAX_INFO_LEN};

fn fcs(bytes: &[u8]) -> u16 {
    crc::Crc::<u16>::new(&crc::CRC_16_IBM_SDLC).checksum(bytes)
}

#[test]
fn address_roundtrip_normal() {
    let addr = Ax25Address {
        callsign: "W1AW".to_owned(),
        ssid: 0,
    };
    let bytes = addr.to_bytes(false);
    let decoded = Ax25Address::from_bytes(&bytes).unwrap();
    assert_eq!(decoded, addr);
    assert!(!Ax25Address::is_last(&bytes));
}

#[test]
fn address_roundtrip_short_callsign() {
    let addr = Ax25Address {
        callsign: "KD9".to_owned(),
        ssid: 3,
    };
    let bytes = addr.to_bytes(false);
    let decoded = Ax25Address::from_bytes(&bytes).unwrap();
    assert_eq!(decoded, addr);
}

#[test]
fn address_roundtrip_with_ssid() {
    let addr = Ax25Address {
        callsign: "N0CALL".to_owned(),
        ssid: 15,
    };
    let bytes = addr.to_bytes(true);
    let decoded = Ax25Address::from_bytes(&bytes).unwrap();
    assert_eq!(decoded, addr);
    assert!(Ax25Address::is_last(&bytes));
}

#[test]
fn address_last_bit_false() {
    let addr = Ax25Address {
        callsign: "KA1ABC".to_owned(),
        ssid: 7,
    };
    let bytes = addr.to_bytes(false);
    assert!(!Ax25Address::is_last(&bytes));
    let decoded = Ax25Address::from_bytes(&bytes).unwrap();
    assert_eq!(decoded.ssid, 7);
}

fn make_frame_no_digis() -> Ax25Frame {
    Ax25Frame {
        dest: Ax25Address {
            callsign: "APRS".to_owned(),
            ssid: 0,
        },
        src: Ax25Address {
            callsign: "W1AW".to_owned(),
            ssid: 0,
        },
        digipeaters: vec![],
        info: b"Hello, AX.25!".to_vec(),
    }
}

#[test]
fn frame_roundtrip_no_digipeaters() {
    let frame = make_frame_no_digis();
    let bytes = frame.to_bytes();
    let decoded = Ax25Frame::from_bytes(&bytes).expect("decode failed");
    assert_eq!(decoded, frame);
}

#[test]
fn frame_roundtrip_with_digipeaters() {
    let frame = Ax25Frame {
        dest: Ax25Address {
            callsign: "APRS".to_owned(),
            ssid: 0,
        },
        src: Ax25Address {
            callsign: "W1AW".to_owned(),
            ssid: 1,
        },
        digipeaters: vec![
            Ax25Address {
                callsign: "RELAY1".to_owned(),
                ssid: 0,
            },
            Ax25Address {
                callsign: "WIDE2".to_owned(),
                ssid: 2,
            },
        ],
        info: b"Test with digipeaters".to_vec(),
    };
    let bytes = frame.to_bytes();
    let decoded = Ax25Frame::from_bytes(&bytes).expect("decode failed");
    assert_eq!(decoded, frame);
}

#[test]
fn frame_roundtrip_empty_info() {
    let frame = Ax25Frame {
        dest: Ax25Address {
            callsign: "NOCALL".to_owned(),
            ssid: 0,
        },
        src: Ax25Address {
            callsign: "KD9XYZ".to_owned(),
            ssid: 0,
        },
        digipeaters: vec![],
        info: vec![],
    };
    let bytes = frame.to_bytes();
    let decoded = Ax25Frame::from_bytes(&bytes).expect("decode failed");
    assert_eq!(decoded, frame);
}

#[test]
fn crc_corruption_detected() {
    let frame = make_frame_no_digis();
    let mut bytes = frame.to_bytes();
    // Flip a byte in the info field.
    let flip_pos = bytes.len() / 2;
    bytes[flip_pos] ^= 0xFF;
    assert!(
        Ax25Frame::from_bytes(&bytes).is_none(),
        "corrupted frame should fail CRC check"
    );
}

#[test]
fn crc_fcs_corruption_detected() {
    let frame = make_frame_no_digis();
    let mut bytes = frame.to_bytes();
    // Corrupt the FCS bytes directly.
    let len = bytes.len();
    bytes[len - 1] ^= 0x01;
    assert!(
        Ax25Frame::from_bytes(&bytes).is_none(),
        "corrupted FCS should fail CRC check"
    );
}

#[test]
fn too_short_bytes_returns_none() {
    assert!(Ax25Frame::from_bytes(&[0u8; 10]).is_none());
}

/// Build raw AX.25 bytes for a frame with exactly `n` digipeaters,
/// bypassing `Ax25Frame::to_bytes` so the truncation cap is not applied.
/// The FCS is correctly computed so the *only* reason `from_bytes` would
/// reject the result is the digipeater count limit.
fn raw_frame_with_n_digis(n: usize) -> Vec<u8> {
    let dest = Ax25Address {
        callsign: "APRS".to_owned(),
        ssid: 0,
    };
    let src = Ax25Address {
        callsign: "W1AW".to_owned(),
        ssid: 0,
    };
    let digipeaters: Vec<Ax25Address> = (0..n)
        .map(|i| Ax25Address {
            callsign: format!("DIG{:03}", i),
            ssid: 0,
        })
        .collect();

    let mut buf: Vec<u8> = Vec::new();
    buf.extend_from_slice(&dest.to_bytes(false));
    buf.extend_from_slice(&src.to_bytes(n == 0));
    for (i, digi) in digipeaters.iter().enumerate() {
        buf.extend_from_slice(&digi.to_bytes(i == n - 1));
    }
    buf.push(0x03); // Control: UI
    buf.push(0xF0); // PID: no layer 3
    buf.extend_from_slice(b"payload");
    let crc = fcs(&buf);
    buf.push((crc & 0xFF) as u8);
    buf.push((crc >> 8) as u8);
    buf
}

#[test]
fn frame_roundtrip_max_digipeaters() {
    // A frame with exactly MAX_DIGIPEATERS (8) digipeaters must round-trip.
    let frame = Ax25Frame {
        dest: Ax25Address {
            callsign: "APRS".to_owned(),
            ssid: 0,
        },
        src: Ax25Address {
            callsign: "W1AW".to_owned(),
            ssid: 0,
        },
        digipeaters: (0..MAX_DIGIPEATERS)
            .map(|i| Ax25Address {
                callsign: format!("DIG{:03}", i),
                ssid: 0,
            })
            .collect(),
        info: b"8 digis".to_vec(),
    };
    let bytes = frame.to_bytes();
    let decoded = Ax25Frame::from_bytes(&bytes).expect("8-digipeater frame should decode");
    assert_eq!(decoded, frame);
}

#[test]
fn from_bytes_rejects_nine_digipeaters() {
    // Raw bytes with 9 digipeaters and a correct FCS - from_bytes must
    // reject because the count exceeds MAX_DIGIPEATERS (8).
    let raw = raw_frame_with_n_digis(9);
    assert!(
        Ax25Frame::from_bytes(&raw).is_none(),
        "frame with 9 digipeaters should be rejected by from_bytes"
    );
}

/// Build a raw frame with an arbitrary control byte (correct FCS included).
fn raw_frame_with_ctrl_pid(ctrl: u8, pid: u8) -> Vec<u8> {
    let dest = Ax25Address {
        callsign: "APRS".to_owned(),
        ssid: 0,
    };
    let src = Ax25Address {
        callsign: "W1AW".to_owned(),
        ssid: 0,
    };
    let mut buf: Vec<u8> = Vec::new();
    buf.extend_from_slice(&dest.to_bytes(false));
    buf.extend_from_slice(&src.to_bytes(true)); // src is last address
    buf.push(ctrl);
    buf.push(pid);
    buf.extend_from_slice(b"payload");
    let crc = fcs(&buf);
    buf.push((crc & 0xFF) as u8);
    buf.push((crc >> 8) as u8);
    buf
}

#[test]
fn from_bytes_rejects_non_ui_control_byte() {
    // 0x00 is a valid SABM-like control byte but not a UI frame (0x03).
    let raw = raw_frame_with_ctrl_pid(0x00, 0xF0);
    assert!(
        Ax25Frame::from_bytes(&raw).is_none(),
        "non-UI control byte should cause from_bytes to return None"
    );
}

#[test]
fn from_bytes_rejects_non_no_l3_pid() {
    // Control is correct UI (0x03) but PID is not no-L3 (0xF0).
    let raw = raw_frame_with_ctrl_pid(0x03, 0xCF);
    assert!(
        Ax25Frame::from_bytes(&raw).is_none(),
        "non-no-L3 PID should cause from_bytes to return None"
    );
}

#[test]
fn from_bytes_accepts_valid_ui_frame() {
    // Sanity check: correct ctrl+pid still decodes successfully.
    let raw = raw_frame_with_ctrl_pid(0x03, 0xF0);
    assert!(
        Ax25Frame::from_bytes(&raw).is_some(),
        "valid UI frame must decode successfully"
    );
}

#[test]
fn address_bytes_are_exact() {
    let addr = Ax25Address { callsign: "W1AW".to_owned(), ssid: 5 };
    assert_eq!(addr.to_bytes(true), [0xAE, 0x62, 0x82, 0xAE, 0x40, 0x40, 0x6B]);
    assert!(Ax25Address::from_bytes(&[0u8; 6]).is_none());
}

#[test]
fn frame_ends_with_the_checksum_of_its_body() {
    let frame = make_frame_no_digis();
    let body = frame.body();
    let bytes = frame.to_bytes();
    assert_eq!(&bytes[..body.len()], &body[..]);
    let crc = fcs(&body);
    assert_eq!(bytes[body.len()..], [(crc & 0xFF) as u8, (crc >> 8) as u8]);
}

#[test]
fn parse_compares_with_the_given_checksum() {
    let frame = make_frame_no_digis();
    let bytes = frame.to_bytes();
    let crc = fcs(&frame.body());
    assert_eq!(Ax25Frame::parse_checked(&bytes, crc), Some(frame));
    assert_eq!(Ax25Frame::parse_checked(&bytes, crc ^ 1), None);
}

#[test]
fn surplus_digipeaters_are_dropped_on_writing() {
    let mut frame = make_frame_no_digis();
    frame.digipeaters = (0..MAX_DIGIPEATERS + 3)
        .map(|i| Ax25Address { callsign: format!("DIG{:03}", i), ssid: 0 })
        .collect();
    let decoded = Ax25Frame::from_bytes(&frame.to_bytes()).unwrap();
    assert_eq!(decoded.digipeaters.len(), MAX_DIGIPEATERS);
    assert_eq!(decoded.digipeaters[7].callsign, "DIG007");
}

#[test]
fn longest_info_field_comes_back() {
    let mut frame = make_frame_no_digis();
    frame.info = vec![0x55; MAX_INFO_LEN];
    assert_eq!(Ax25Frame::from_bytes(&frame.to_bytes()), Some(frame));
}

#[test]
fn every_change_of_two_neighbouring_bytes_is_refused() {
    let bytes = make_frame_no_digis().to_bytes();
    for i in 0..bytes.len() - 1 {
        for (a, b) in [(1u8, 0u8), (0, 1), (0x80, 0x01), (0xFF, 0xFF), (0x21, 0x10)] {
            let mut changed = bytes.clone();
            changed[i] ^= a;
            changed[i + 1] ^= b;
            assert!(Ax25Frame::from_bytes(&changed).is_none(), "{} {} {}", i, a, b);
        }
    }
}

#[test]
fn info_field_over_its_limit_is_refused() {
    let mut frame = make_frame_no_digis();
    frame.info = vec![0x5A; MAX_INFO_LEN];
    let bytes = frame.to_bytes();
    assert!(Ax25Frame::from_bytes(&bytes).is_some());
    let mut body = bytes[..bytes.len() - 2].to_vec();
    body.push(0x5A);
    let check = fcs(&body);
    body.extend_from_slice(&check.to_le_bytes());
    assert_eq!(body.len(), 14 + 2 + MAX_INFO_LEN + 1 + 2);
    assert!(Ax25Frame::from_bytes(&body).is_none());
}
