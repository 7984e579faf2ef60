use coppa::mac::{
    char_to_code, code_to_char, Callsign, MacError, MacFrameType, MacPdu, StationIdError,
    StationIdPayload, MAC_VERSION, MAX_CALLSIGN_LEN,
};

#[test]
fn test_callsign_roundtrip() {
    for cs in &["VK3ABC", "W1AW", "JA1YAF", "N0CALL", "A", "ZZ9ZZZ"] {
        let callsign = Callsign::new(cs).unwrap();
        let encoded = callsign.encode();
        let decoded = Callsign::decode(&encoded).unwrap();
        assert_eq!(decoded.as_str(), cs.to_uppercase());
    }
}

#[test]
fn test_callsign_case_insensitive() {
    let cs1 = Callsign::new("vk3abc").unwrap();
    let cs2 = Callsign::new("VK3ABC").unwrap();
    assert_eq!(cs1.encode(), cs2.encode());
}

#[test]
fn test_callsign_max_length() {
    let cs = Callsign::new("VK3ABC-1").unwrap();
    assert_eq!(cs.as_str().len(), 8);
}

#[test]
fn test_callsign_too_long() {
    assert!(Callsign::new("VK3ABCDEF").is_err());
}

#[test]
fn test_callsign_invalid_char() {
    assert!(Callsign::new("VK3!ABC").is_err());
}

#[test]
fn test_callsign_special_chars() {
    let cs = Callsign::new("VK3/P").unwrap();
    let encoded = cs.encode();
    let decoded = Callsign::decode(&encoded).unwrap();
    assert_eq!(decoded.as_str(), "VK3/P");

    let cs2 = Callsign::new("W1AW-5").unwrap();
    let encoded2 = cs2.encode();
    let decoded2 = Callsign::decode(&encoded2).unwrap();
    assert_eq!(decoded2.as_str(), "W1AW-5");
}

#[test]
fn test_callsign_broadcast() {
    let bc = Callsign::broadcast();
    assert_eq!(bc.as_str(), "");
    let encoded = bc.encode();
    assert_eq!(encoded, [0u8; 6]);
    let decoded = Callsign::decode(&encoded).unwrap();
    assert_eq!(decoded.as_str(), "");
}

#[test]
fn test_callsign_all_letters() {
    let cs = Callsign::new("ABCDEFGH").unwrap();
    let encoded = cs.encode();
    let decoded = Callsign::decode(&encoded).unwrap();
    assert_eq!(decoded.as_str(), "ABCDEFGH");
}

#[test]
fn test_callsign_all_digits() {
    let cs = Callsign::new("01234567").unwrap();
    let encoded = cs.encode();
    let decoded = Callsign::decode(&encoded).unwrap();
    assert_eq!(decoded.as_str(), "01234567");
}

#[test]
fn test_charset_coverage() {
    // Every valid character should roundtrip
    for ch in 'A'..='Z' {
        let code = char_to_code(ch).unwrap();
        assert_eq!(code_to_char(code).unwrap(), ch);
    }
    for ch in '0'..='9' {
        let code = char_to_code(ch).unwrap();
        assert_eq!(code_to_char(code).unwrap(), ch);
    }
    assert_eq!(code_to_char(char_to_code('/').unwrap()).unwrap(), '/');
    assert_eq!(code_to_char(char_to_code('-').unwrap()).unwrap(), '-');
}

#[test]
fn test_frame_type_roundtrip() {
    let types = [
        MacFrameType::Data,
        MacFrameType::Ack,
        MacFrameType::ConnectReq,
        MacFrameType::ConnectAck,
        MacFrameType::ConnectCfm,
        MacFrameType::Disconnect,
        MacFrameType::Beacon,
        MacFrameType::Keepalive,
        MacFrameType::Relay,
    ];
    for &ft in &types {
        let val = ft.code();
        let decoded = MacFrameType::from_u8(val).unwrap();
        assert_eq!(decoded, ft);
    }
}

#[test]
fn test_frame_type_invalid() {
    assert!(MacFrameType::from_u8(9).is_err());
    assert!(MacFrameType::from_u8(15).is_err());
}

#[test]
fn test_mac_pdu_roundtrip() {
    let dest = Callsign::new("VK3ABC").unwrap();
    let src = Callsign::new("W1AW").unwrap();
    let payload = vec![0x01, 0x02, 0x03, 0x04];
    let pdu = MacPdu::new_data(dest.clone(), src.clone(), 5, payload.clone());

    let bytes = pdu.to_bytes();
    let decoded = MacPdu::from_bytes(&bytes).unwrap();

    assert_eq!(decoded.version, MAC_VERSION);
    assert_eq!(decoded.frame_type, MacFrameType::Data);
    assert_eq!(decoded.dest.as_str(), "VK3ABC");
    assert_eq!(decoded.src.as_str(), "W1AW");
    assert_eq!(decoded.ssid, 5);
    assert_eq!(decoded.payload, payload);
}

#[test]
fn test_mac_pdu_all_types() {
    let dest = Callsign::new("N0CALL").unwrap();
    let src = Callsign::new("K1ABC").unwrap();

    for ft in [
        MacFrameType::Data,
        MacFrameType::Ack,
        MacFrameType::ConnectReq,
        MacFrameType::ConnectAck,
        MacFrameType::ConnectCfm,
        MacFrameType::Disconnect,
        MacFrameType::Beacon,
        MacFrameType::Keepalive,
        MacFrameType::Relay,
    ] {
        let pdu = MacPdu::new(ft, dest.clone(), src.clone(), 0, vec![]);
        let bytes = pdu.to_bytes();
        let decoded = MacPdu::from_bytes(&bytes).unwrap();
        assert_eq!(decoded.frame_type, ft);
    }
}

#[test]
fn test_mac_pdu_empty_payload() {
    let pdu = MacPdu::new_data(
        Callsign::new("AA1AA").unwrap(),
        Callsign::new("BB2BB").unwrap(),
        0,
        vec![],
    );
    let bytes = pdu.to_bytes();
    assert_eq!(bytes.len(), MacPdu::HEADER_SIZE);
    let decoded = MacPdu::from_bytes(&bytes).unwrap();
    assert!(decoded.payload.is_empty());
}

#[test]
fn test_mac_pdu_too_short() {
    let short = vec![0u8; 10];
    assert!(MacPdu::from_bytes(&short).is_err());
}

#[test]
fn test_mac_pdu_ssid_masking() {
    let pdu = MacPdu::new_data(
        Callsign::new("A").unwrap(),
        Callsign::new("B").unwrap(),
        0xFF, // should be masked to 0x0F
        vec![],
    );
    assert_eq!(pdu.ssid, 0x0F);
}

#[test]
fn test_mac_pdu_version() {
    let pdu = MacPdu::new_data(
        Callsign::new("A").unwrap(),
        Callsign::new("B").unwrap(),
        0,
        vec![],
    );
    let bytes = pdu.to_bytes();
    // Version in high nibble of first byte
    assert_eq!((bytes[0] >> 4) & 0x0F, MAC_VERSION);
}

#[test]
fn test_mac_pdu_large_payload() {
    let payload = vec![0xAB; 200];
    let pdu = MacPdu::new_data(
        Callsign::new("LONG").unwrap(),
        Callsign::new("TEST").unwrap(),
        1,
        payload.clone(),
    );
    let bytes = pdu.to_bytes();
    let decoded = MacPdu::from_bytes(&bytes).unwrap();
    assert_eq!(decoded.payload, payload);
}

#[test]
fn test_station_id_payload_roundtrip_with_grid() {
    let payload = StationIdPayload {
        callsign: "VK3ABC".to_string(),
        grid: Some("QF22".to_string()),
        level: 1,
    };
    let bytes = payload.to_bytes().unwrap();
    let decoded = StationIdPayload::from_bytes(&bytes).unwrap();
    assert_eq!(decoded, payload);
}

#[test]
fn test_station_id_payload_roundtrip_no_grid() {
    let payload = StationIdPayload {
        callsign: "W1AW".to_string(),
        grid: None,
        level: 1,
    };
    let bytes = payload.to_bytes().unwrap();
    let decoded = StationIdPayload::from_bytes(&bytes).unwrap();
    assert_eq!(decoded, payload);
    assert_eq!(decoded.grid, None);
}

#[test]
fn test_station_id_payload_encodes_level() {
    let payload = StationIdPayload {
        callsign: "N0CALL".to_string(),
        grid: None,
        level: 7,
    };
    let bytes = payload.to_bytes().unwrap();
    let decoded = StationIdPayload::from_bytes(&bytes).unwrap();
    assert_eq!(decoded.level, 7);
}

#[test]
fn test_station_id_payload_to_bytes_errors_on_oversized_callsign() {
    let payload = StationIdPayload {
        callsign: "X".repeat(256),
        grid: None,
        level: 1,
    };
    assert!(payload.to_bytes().is_err());
}

#[test]
fn test_station_id_payload_to_bytes_errors_on_oversized_grid() {
    let payload = StationIdPayload {
        callsign: "VK3ABC".to_string(),
        grid: Some("G".repeat(256)),
        level: 1,
    };
    assert!(payload.to_bytes().is_err());
}

#[test]
fn test_station_id_payload_from_bytes_empty_errors() {
    assert!(StationIdPayload::from_bytes(&[]).is_err());
}

#[test]
fn test_station_id_payload_from_bytes_truncated_errors() {
    // Claims a 10-byte callsign but only provides 2 bytes of data.
    assert!(StationIdPayload::from_bytes(&[10, b'A', b'B']).is_err());
}

#[test]
fn test_station_id_payload_as_beacon_mac_pdu_roundtrip() {
    let cs = Callsign::new("VK3ABC").unwrap();
    let id_payload = StationIdPayload {
        callsign: "VK3ABC".to_string(),
        grid: Some("QF22".to_string()),
        level: 1,
    };
    let pdu = MacPdu::new(
        MacFrameType::Beacon,
        cs.clone(),
        cs.clone(),
        0,
        id_payload.to_bytes().unwrap(),
    );
    let bytes = pdu.to_bytes();
    let decoded_pdu = MacPdu::from_bytes(&bytes).unwrap();
    assert_eq!(decoded_pdu.frame_type, MacFrameType::Beacon);
    assert_eq!(decoded_pdu.src.as_str(), "VK3ABC");
    assert_eq!(decoded_pdu.dest.as_str(), "VK3ABC");
    let decoded_id = StationIdPayload::from_bytes(&decoded_pdu.payload).unwrap();
    assert_eq!(decoded_id, id_payload);
}

#[test]
fn test_mac_pdu_broadcast_dest() {
    let pdu = MacPdu::new(
        MacFrameType::Beacon,
        Callsign::broadcast(),
        Callsign::new("VK3ABC").unwrap(),
        0,
        vec![0x42],
    );
    let bytes = pdu.to_bytes();
    let decoded = MacPdu::from_bytes(&bytes).unwrap();
    assert_eq!(decoded.dest.as_str(), "");
    assert_eq!(decoded.frame_type, MacFrameType::Beacon);
}

#[test]
fn callsign_packs_to_known_bytes() {
    // Six bits per character, A = 1, most significant first.
    assert_eq!(Callsign::new("A").unwrap().encode(), [0x04, 0, 0, 0, 0, 0]);
    assert_eq!(Callsign::new("AB").unwrap().encode(), [0x04, 0x20, 0, 0, 0, 0]);
}

#[test]
fn callsign_is_folded_to_upper_case() {
    assert_eq!(Callsign::new("vk3abc").unwrap().as_str(), "VK3ABC");
    assert_eq!(MAX_CALLSIGN_LEN, 8);
}

#[test]
fn callsign_errors_name_their_cause() {
    match Callsign::new("VK3ABCDEF") {
        Err(e) => assert_eq!(e, MacError::CallsignTooLong { len: 9 }),
        Ok(_) => panic!("nine characters fit no callsign"),
    }
    match Callsign::new("VK3!ABC") {
        Err(e) => assert_eq!(e, MacError::InvalidCharacter { ch: '!' }),
        Ok(_) => panic!("'!' is outside the character set"),
    }
    match Callsign::decode(&[0xFC, 0, 0, 0, 0, 0]) {
        Err(e) => assert_eq!(e, MacError::InvalidCode { code: 63 }),
        Ok(_) => panic!("code 63 names no character"),
    }
}

#[test]
fn from_upper_takes_the_text_as_it_is() {
    assert_eq!(Callsign::from_upper("W1AW".to_string()).unwrap().as_str(), "W1AW");
    assert!(Callsign::from_upper("w1aw".to_string()).is_err());
}

#[test]
fn frame_type_codes_are_exact() {
    assert_eq!(MacFrameType::Data.code(), 0);
    assert_eq!(MacFrameType::Beacon.code(), 6);
    assert_eq!(MacFrameType::Relay.code(), 8);
    assert_eq!(MacFrameType::from_u8(0x21), Ok(MacFrameType::Ack));
    assert_eq!(MacFrameType::from_u8(9), Err(MacError::UnknownFrameType { code: 9 }));
}

#[test]
fn mac_header_has_known_layout() {
    let pdu = MacPdu::new(
        MacFrameType::Beacon,
        Callsign::new("A").unwrap(),
        Callsign::new("B").unwrap(),
        7,
        vec![0xEE],
    );
    assert_eq!(
        pdu.to_bytes(),
        vec![0x16, 0x04, 0, 0, 0, 0, 0, 0x08, 0, 0, 0, 0, 0, 0x07, 0xEE]
    );
    match MacPdu::from_bytes(&[0u8; 13]) {
        Err(e) => assert_eq!(e, MacError::TooShort { len: 13 }),
        Ok(_) => panic!("thirteen bytes are no header"),
    }
}

#[test]
fn station_id_errors_name_their_cause() {
    assert_eq!(StationIdPayload::from_bytes(&[]), Err(StationIdError::Empty));
    assert_eq!(
        StationIdPayload::from_bytes(&[10, b'A', b'B']),
        Err(StationIdError::TruncatedCallsign)
    );
    assert_eq!(
        StationIdPayload::from_bytes(&[1, 0xFF, 0, 1]),
        Err(StationIdError::InvalidCallsignText)
    );
    assert_eq!(
        StationIdPayload::from_bytes(&[1, b'A', 4, b'Q']),
        Err(StationIdError::TruncatedGrid)
    );
    assert_eq!(
        StationIdPayload::from_bytes(&[1, b'A', 1, 0xFF, 1]),
        Err(StationIdError::InvalidGridText)
    );
    let long = StationIdPayload { callsign: "X".repeat(256), grid: None, level: 1 };
    assert_eq!(long.to_bytes(), Err(StationIdError::CallsignTooLong { len: 256 }));
    let wide = StationIdPayload {
        callsign: "X".to_string(),
        grid: Some("G".repeat(300)),
        level: 1,
    };
    assert_eq!(wide.to_bytes(), Err(StationIdError::GridTooLong { len: 300 }));
}

#[test]
fn station_id_bytes_are_exact() {
    let id = StationIdPayload {
        callsign: "W1".to_string(),
        grid: Some("FN".to_string()),
        level: 9,
    };
    assert_eq!(id.to_bytes(), Ok(vec![2, b'W', b'1', 2, b'F', b'N', 9]));
}

#[test]
fn empty_grid_reads_back_as_none() {
    let id = StationIdPayload {
        callsign: "W1AW".to_string(),
        grid: Some(String::new()),
        level: 2,
    };
    let back = StationIdPayload::from_bytes(&id.to_bytes().unwrap()).unwrap();
    assert_eq!(back.grid, None);
    assert_eq!(back.callsign, "W1AW");
    assert_eq!(back.level, 2);
}
