use coppa::frame::{make_pn_preamble, Frame, FrameError, PN_PREAMBLE, SYNC_MAX_ERRORS};

fn crc16(bytes: &[u8]) -> u16 {
    crc::Crc::<u16>::new(&crc::CRC_16_IBM_SDLC).checksum(bytes)
}

#[test]
fn test_frame_creation() {
    let data = b"Hello".to_vec();
    let frame = Frame::new(data.clone()).unwrap();
    assert_eq!(frame.data, data);
}

#[test]
fn test_frame_too_long() {
    let data = vec![0u8; 256];
    assert!(Frame::new(data).is_err());
}

#[test]
fn test_frame_roundtrip() {
    let original_data = b"Hello, World!".to_vec();
    let frame = Frame::new(original_data.clone()).unwrap();
    let bits = frame.to_bits().unwrap();
    let decoded_frame = Frame::from_bits(&bits).unwrap();
    assert_eq!(decoded_frame.data, original_data);
}

#[test]
fn test_frame_split_roundtrip() {
    let original_data = b"FEC test".to_vec();
    let frame = Frame::new(original_data.clone()).unwrap();
    let (header, payload) = frame.to_bits_split().unwrap();

    // Header should be 144 bits (128 preamble + 16 sync)
    assert_eq!(header.len(), 144);

    // Payload parsed directly
    let decoded = Frame::from_payload_bits(&payload).unwrap();
    assert_eq!(decoded.data, original_data);
}

#[test]
fn test_empty_frame() {
    let frame = Frame::new(Vec::new()).unwrap();
    let bits = frame.to_bits().unwrap();
    let decoded_frame = Frame::from_bits(&bits).unwrap();
    assert_eq!(decoded_frame.data, Vec::<u8>::new());
}

#[test]
fn test_corrupted_crc() {
    let frame = Frame::new(b"Test".to_vec()).unwrap();
    let mut bits = frame.to_bits().unwrap();
    if let Some(last_bit) = bits.last_mut() {
        *last_bit = 1 - *last_bit;
    }
    assert!(Frame::from_bits(&bits).is_err());
}

#[test]
fn test_sync_false_positive_in_data() {
    let data = vec![0x5A, 0x5A, 0x5A, 0x5A, 0x01, 0x02];
    let frame = Frame::new(data.clone()).unwrap();
    let bits = frame.to_bits().unwrap();
    let decoded = Frame::from_bits(&bits).unwrap();
    assert_eq!(decoded.data, data);
}

#[test]
fn test_sync_requires_preamble() {
    // All-zero bits before sync (not alternating) -- should be rejected
    let mut bits = vec![0u8; 32];
    for i in (0..16).rev() {
        bits.push(((Frame::SYNC_WORD >> i) & 1) as u8);
    }
    for i in (0..8).rev() {
        bits.push((1u8 >> i) & 1);
    }
    for i in (0..8).rev() {
        bits.push((0x42u8 >> i) & 1);
    }
    // The exact CRC value doesn't matter here -- this test asserts on
    // preamble validation, which rejects the frame before parse_payload
    // (and thus the CRC check) is ever reached.
    let crc = crc16(&[0x42]);
    for i in (0..16).rev() {
        bits.push(((crc >> i) & 1) as u8);
    }
    assert!(Frame::from_bits(&bits).is_err());
}

#[test]
fn test_polarity_detection() {
    let frame = Frame::new(b"Polarity".to_vec()).unwrap();
    let bits = frame.to_bits().unwrap();

    // Normal polarity should work
    let (pos, inv) = Frame::find_sync_with_polarity(&bits).unwrap();
    assert!(!inv);
    assert_eq!(pos, 128);

    // Inverted bits should also be detected
    let inverted: Vec<u8> = bits.iter().map(|&b| b ^ 1).collect();
    let (_, inv) = Frame::find_sync_with_polarity(&inverted).unwrap();
    assert!(inv);
}

#[test]
fn test_constants() {
    // PN preamble should be 16 bytes (128 bits)
    assert_eq!(PN_PREAMBLE.len(), 16);
    // The m-sequence should produce non-trivial output
    assert_ne!(PN_PREAMBLE, [0u8; 16]);
    assert_ne!(PN_PREAMBLE, [0xFFu8; 16]);
    assert_eq!(Frame::SYNC_WORD, 0xF68D);
    assert_eq!(Frame::MAX_DATA_LENGTH, 255);
}

#[test]
fn test_from_mac_pdu() {
    let mac_bytes = vec![0x10, 0x01, 0x02, 0x03];
    let frame = Frame::from_mac_pdu(&mac_bytes).unwrap();
    assert_eq!(frame.mac_pdu_bytes(), &mac_bytes[..]);
}

#[test]
fn test_mac_pdu_roundtrip_through_bits() {
    let mac_bytes = vec![0x10, 0xDE, 0xAD, 0xBE, 0xEF];
    let frame = Frame::from_mac_pdu(&mac_bytes).unwrap();
    let bits = frame.to_bits().unwrap();
    let decoded = Frame::from_bits(&bits).unwrap();
    assert_eq!(decoded.mac_pdu_bytes(), &mac_bytes[..]);
}

#[test]
fn test_crc_covers_length_field() {
    // Corrupt the length field to a DIFFERENT valid-looking length (one
    // that still leaves enough trailing bits to look like a complete
    // frame, so the truncation-bounds check in parse_payload does not
    // fire first) and confirm the CRC mismatch -- not the truncation
    // check -- is what catches it.
    let frame = Frame::new(b"AB".to_vec()).unwrap();
    let (_, mut payload) = frame.to_bits_split().unwrap();
    // The length is 2 (0b00000010); flip it to 1 (0b00000001) --
    // still a plausible length given the remaining payload bits, so this
    // does NOT trip the "not enough bits for this length" truncation
    // check, only the CRC (which was computed over length=2).
    payload[6] = 0; // bit 6 of the length byte (value 2 = ...010)
    payload[7] = 1; // -> length byte becomes 1
    assert!(Frame::from_payload_bits(&payload).is_err());
}

#[test]
fn test_truncated_frame_too_short_for_header() {
    // Less than 168 bits minimum for from_bits
    let short_bits = vec![0u8; 40];
    assert!(Frame::from_bits(&short_bits).is_err());
}

#[test]
fn test_payload_too_short() {
    // Less than 24 bits (8 length + 16 CRC minimum)
    let short_payload = vec![0u8; 16];
    assert!(Frame::from_payload_bits(&short_payload).is_err());
}

#[test]
fn test_crc_mismatch() {
    let frame = Frame::new(b"CRC".to_vec()).unwrap();
    let (_, mut payload) = frame.to_bits_split().unwrap();
    // Flip a data bit (not CRC) to cause mismatch
    if payload.len() > 10 {
        payload[10] ^= 1;
    }
    assert!(Frame::from_payload_bits(&payload).is_err());
}

#[test]
fn test_max_payload_exceeded() {
    let data = vec![0u8; 256]; // one more than MAX_DATA_LENGTH
    assert!(Frame::new(data).is_err());
}

#[test]
fn test_zero_length_payload() {
    let frame = Frame::new(Vec::new()).unwrap();
    let (_, payload) = frame.to_bits_split().unwrap();
    let decoded = Frame::from_payload_bits(&payload).unwrap();
    assert!(decoded.data.is_empty());
}

#[test]
fn test_corrupted_sync_word() {
    let frame = Frame::new(b"Sync".to_vec()).unwrap();
    let mut bits = frame.to_bits().unwrap();
    // Corrupt the sync word area (bits 128-143)
    for i in 128..144 {
        if i < bits.len() {
            bits[i] = 0;
        }
    }
    assert!(Frame::from_bits(&bits).is_err());
}

#[test]
fn test_invalid_length_field() {
    // Create a valid frame then corrupt the length field in payload
    let frame = Frame::new(b"AB".to_vec()).unwrap();
    let (_, mut payload) = frame.to_bits_split().unwrap();
    // Set length to 255 (much larger than actual data)
    for b in payload.iter_mut().take(8) {
        *b = 1; // 0xFF = 255
    }
    // This should fail because there's not enough data for 255 bytes
    assert!(Frame::from_payload_bits(&payload).is_err());
}

#[test]
fn test_no_sync_in_random_data() {
    let random_bits = vec![0u8; 200];
    assert!(Frame::find_sync(&random_bits).is_err());
}

#[test]
fn test_polarity_no_sync_both() {
    let bits = vec![0u8; 100];
    assert!(Frame::find_sync_with_polarity(&bits).is_err());
}

#[test]
fn preamble_is_the_generated_sequence() {
    assert_eq!(make_pn_preamble(), PN_PREAMBLE.to_vec());
}

#[test]
fn payload_holds_length_data_and_checksum() {
    let frame = Frame::new(vec![0x42]).unwrap();
    let (_, payload) = frame.to_bits_split().unwrap();
    let mut bytes: Vec<u8> = Vec::new();
    for chunk in payload.chunks(8) {
        bytes.push(chunk.iter().fold(0u8, |a, b| a * 2 + b));
    }
    let crc = crc16(&[1, 0x42]);
    assert_eq!(bytes, vec![1, 0x42, (crc >> 8) as u8, (crc & 0xFF) as u8]);
}

#[test]
fn checksum_has_its_check_value() {
    // The catalogue value of this checksum for the nine digits.
    let frame = Frame::new(b"23456789".to_vec()).unwrap();
    let fields = Frame::read_payload(&frame.to_bits_split().unwrap().1).unwrap();
    assert_eq!(fields.length, 8);
    assert_eq!(fields.crc, crc16(b"\x0823456789"));
    assert_eq!(crc16(b"123456789"), 0x906E);
}

#[test]
fn frame_errors_name_their_cause() {
    match Frame::new(vec![0u8; 256]) {
        Err(e) => assert_eq!(e, FrameError::DataTooLong { len: 256 }),
        Ok(_) => panic!("256 bytes do not fit"),
    }
    match Frame::from_bits(&[0u8; 167]) {
        Err(e) => assert_eq!(e, FrameError::TooShort),
        Ok(_) => panic!("too few bits"),
    }
    match Frame::from_payload_bits(&[0u8; 23]) {
        Err(e) => assert_eq!(e, FrameError::PayloadTooShort),
        Ok(_) => panic!("too few bits"),
    }
    match Frame::from_payload_bits(&[1u8; 40]) {
        Err(e) => assert_eq!(e, FrameError::Truncated),
        Ok(_) => panic!("255 bytes are announced"),
    }
    match Frame::find_sync(&[0u8; 200]) {
        Err(e) => assert_eq!(e, FrameError::SyncNotFound),
        Ok(_) => panic!("zeros hold no sync word"),
    }
    match Frame::find_sync_with_polarity(&[0u8; 200]) {
        Err(e) => assert_eq!(e, FrameError::SyncNotFoundInEitherPolarity),
        Ok(_) => panic!("zeros hold no sync word"),
    }
    match Frame::find_sync(&[0u8; 20]) {
        Err(e) => assert_eq!(e, FrameError::SyncTooShort),
        Ok(_) => panic!("too few bits"),
    }
    let frame = Frame::new(vec![0x42]).unwrap();
    let mut payload = frame.to_bits_split().unwrap().1;
    let crc = crc16(&[1, 0x42]);
    payload[23 + 8] ^= 1;
    match Frame::from_payload_bits(&payload) {
        Err(e) => assert_eq!(e, FrameError::CrcMismatch { expected: crc, got: crc ^ 1 }),
        Ok(_) => panic!("the checksum was changed"),
    }
}

#[test]
fn sync_survives_two_bit_errors_and_not_three() {
    let frame = Frame::new(b"Sync".to_vec()).unwrap();
    let mut bits = frame.to_bits().unwrap();
    assert_eq!(SYNC_MAX_ERRORS, 2);
    bits[130] ^= 1;
    bits[140] ^= 1;
    assert_eq!(Frame::find_sync(&bits), Ok(128));
    bits[135] ^= 1;
    assert!(Frame::find_sync(&bits).is_err());
}

#[test]
fn longest_frame_comes_back() {
    let data: Vec<u8> = (0..255).map(|i| i as u8).collect();
    let bits = Frame::new(data.clone()).unwrap().to_bits().unwrap();
    assert_eq!(bits.len(), 128 + 16 + 8 + 255 * 8 + 16);
    assert_eq!(Frame::from_bits(&bits).unwrap().data, data);
}

/// The checksum bit by bit: each byte enters with its low bit first.
fn bitwise_crc(bytes: &[u8]) -> u16 {
    let mut register = 0xFFFFu16;
    for &b in bytes {
        register ^= b as u16;
        for _ in 0..8 {
            register = if register & 1 == 1 { register >> 1 ^ 0x8408 } else { register >> 1 };
        }
    }
    register ^ 0xFFFF
}

#[test]
fn checksum_is_the_bitwise_one() {
    assert_eq!(bitwise_crc(b"123456789"), 0x906E);
    for len in 0..=255usize {
        let data: Vec<u8> = (0..len).map(|i| (i * i + 3 * len) as u8).collect();
        let mut covered = vec![len as u8];
        covered.extend_from_slice(&data);
        let payload = Frame::new(data).unwrap().to_bits_split().unwrap().1;
        assert_eq!(Frame::read_payload(&payload).unwrap().crc, bitwise_crc(&covered));
    }
}

#[test]
fn flipped_data_or_checksum_bits_are_refused() {
    let payload = Frame::new(b"Burst".to_vec()).unwrap().to_bits_split().unwrap().1;
    for first in 8..payload.len() {
        for last in first..payload.len().min(first + 8) {
            let mut bits = payload.clone();
            for b in &mut bits[first..=last] {
                *b ^= 1;
            }
            // Bursts across the end of the data are another matter.
            if last < 48 || first >= 48 {
                assert!(Frame::from_payload_bits(&bits).is_err(), "{} to {}", first, last);
            }
        }
    }
}
