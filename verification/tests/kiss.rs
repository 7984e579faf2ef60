use coppa::kiss::{
    kiss_decode, kiss_encode_data, KissFrame, KissSession, CMD_DATA, CMD_PERSISTENCE, CMD_RETURN,
    CMD_SLOT_TIME, CMD_TX_DELAY, FEND, FESC, MAX_KISS_FRAME_LEN, TFEND, TFESC,
};

#[test]
fn test_kiss_escape_no_special_bytes() {
    let data = b"Hello, AX.25!";
    let encoded = kiss_encode_data(data);
    // FEND + CMD_DATA + data bytes unchanged + FEND
    assert_eq!(encoded[0], FEND);
    assert_eq!(encoded[1], CMD_DATA);
    assert_eq!(&encoded[2..encoded.len() - 1], data);
    assert_eq!(*encoded.last().unwrap(), FEND);
}

#[test]
fn test_kiss_escape_fend_in_data() {
    let data = &[0x01, FEND, 0x02];
    let encoded = kiss_encode_data(data);
    // payload portion (between CMD_DATA byte and closing FEND): 0x01 FESC TFEND 0x02
    let payload = &encoded[2..encoded.len() - 1];
    assert_eq!(payload, &[0x01, FESC, TFEND, 0x02]);
}

#[test]
fn test_kiss_escape_fesc_in_data() {
    let data = &[0x01, FESC, 0x02];
    let encoded = kiss_encode_data(data);
    let payload = &encoded[2..encoded.len() - 1];
    assert_eq!(payload, &[0x01, FESC, TFESC, 0x02]);
}

#[test]
fn test_kiss_decode_data_frame() {
    let input = &[FEND, CMD_DATA, 0xAA, 0xBB, 0xCC, FEND];
    let frames = kiss_decode(input);
    assert_eq!(frames.len(), 1);
    assert_eq!(frames[0], KissFrame::Data(vec![0xAA, 0xBB, 0xCC]));
}

#[test]
fn test_kiss_decode_escaped_bytes() {
    // Data contains a literal FEND and literal FESC, both escaped
    let input = &[FEND, CMD_DATA, FESC, TFEND, FESC, TFESC, FEND];
    let frames = kiss_decode(input);
    assert_eq!(frames.len(), 1);
    assert_eq!(frames[0], KissFrame::Data(vec![FEND, FESC]));
}

#[test]
fn test_kiss_decode_tx_delay() {
    let input = &[FEND, CMD_TX_DELAY, 50, FEND];
    let frames = kiss_decode(input);
    assert_eq!(frames.len(), 1);
    assert_eq!(frames[0], KissFrame::TxDelay(50));
}

#[test]
fn test_kiss_decode_multiple_frames() {
    let frame1 = [FEND, CMD_DATA, 0x01, 0x02, FEND];
    let frame2 = [FEND, CMD_DATA, 0x03, 0x04, FEND];
    let mut input = Vec::new();
    input.extend_from_slice(&frame1);
    input.extend_from_slice(&frame2);

    let frames = kiss_decode(&input);
    assert_eq!(frames.len(), 2);
    assert_eq!(frames[0], KissFrame::Data(vec![0x01, 0x02]));
    assert_eq!(frames[1], KissFrame::Data(vec![0x03, 0x04]));
}

#[test]
fn test_kiss_roundtrip() {
    let original = b"VK2ABC>APRS:Hello World!";
    let encoded = kiss_encode_data(original);
    let frames = kiss_decode(&encoded);
    assert_eq!(frames.len(), 1);
    match &frames[0] {
        KissFrame::Data(payload) => assert_eq!(payload.as_slice(), original),
        other => panic!("Expected Data frame, got {:?}", other),
    }
}

#[test]
fn every_command_is_decoded() {
    let input = [
        FEND, CMD_PERSISTENCE, 63, FEND, CMD_SLOT_TIME, 10, FEND, CMD_RETURN, FEND,
    ];
    assert_eq!(
        kiss_decode(&input),
        vec![KissFrame::Persistence(63), KissFrame::SlotTime(10), KissFrame::Return]
    );
}

#[test]
fn all_bytes_survive_the_wire() {
    let data: Vec<u8> = (0..=255).collect();
    assert_eq!(kiss_decode(&kiss_encode_data(&data)), vec![KissFrame::Data(data)]);
}

#[test]
fn session_hands_out_payloads_in_order() {
    let mut session = KissSession::new();
    let mut chunk = kiss_encode_data(b"one");
    chunk.extend(kiss_encode_data(b"two"));
    let read = session.on_read(&chunk);
    assert_eq!(read.payloads, vec![b"one".to_vec(), b"two".to_vec()]);
    assert!(!read.close);
}

#[test]
fn session_closes_on_an_endless_frame() {
    let mut session = KissSession::new();
    let mut closed = false;
    for _ in 0..MAX_KISS_FRAME_LEN / 1024 + 1 {
        closed = session.on_read(&[0x11; 1024]).close;
        if closed {
            break;
        }
    }
    assert!(closed);
}

#[test]
fn a_frame_split_over_two_reads_is_handed_out_whole() {
    let mut session = KissSession::new();
    let first = session.on_read(&[0xC0, 0x00, 0xAA]);
    assert!(first.payloads.is_empty());
    assert!(!first.close);
    assert_eq!(session.on_read(&[0xBB, 0xC0]).payloads, vec![vec![0xAA, 0xBB]]);
}

#[test]
fn reads_may_cut_a_stream_anywhere() {
    let payloads = vec![b"one".to_vec(), vec![FEND, FESC, 0x00], vec![], b"last".to_vec()];
    let mut stream = Vec::new();
    for p in &payloads {
        stream.extend(kiss_encode_data(p));
    }
    for a in 0..=stream.len() {
        for b in a..=stream.len() {
            let mut session = KissSession::new();
            let mut out = session.on_read(&stream[..a]).payloads;
            out.extend(session.on_read(&stream[a..b]).payloads);
            out.extend(session.on_read(&stream[b..]).payloads);
            assert_eq!(out, payloads, "{} {}", a, b);
        }
    }
}
