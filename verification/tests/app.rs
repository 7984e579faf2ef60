use coppa::app::{
    AppError, AppPdu, AppProtocol, Compression, FragFlags, ReassembleError, APP_HEADER_SIZE,
};

#[test]
fn test_text_roundtrip() {
    let pdu = AppPdu::new_text(b"Hello, World!");
    let bytes = pdu.to_bytes();
    let decoded = AppPdu::from_bytes(&bytes).unwrap();

    assert_eq!(decoded.protocol, AppProtocol::Text);
    assert_eq!(decoded.compression, Compression::Uncompressed);
    assert_eq!(decoded.frag_flags, FragFlags::Complete);
    assert_eq!(decoded.frag_id, 0);
    assert_eq!(decoded.payload, b"Hello, World!");
}

#[test]
fn test_all_protocols() {
    let protos = [
        AppProtocol::Text,
        AppProtocol::Position,
        AppProtocol::Telemetry,
        AppProtocol::FileTransfer,
        AppProtocol::Voice,
        AppProtocol::Control,
        AppProtocol::Custom,
        AppProtocol::CompressedData,
    ];
    for proto in &protos {
        let pdu = AppPdu::new(*proto, vec![0x42]);
        let bytes = pdu.to_bytes();
        let decoded = AppPdu::from_bytes(&bytes).unwrap();
        assert_eq!(decoded.protocol, *proto);
    }
}

#[test]
fn test_invalid_protocol() {
    assert!(AppProtocol::from_u8(8).is_err());
    assert!(AppProtocol::from_u8(15).is_err());
}

#[test]
fn test_all_compression_types() {
    for comp in [
        Compression::Uncompressed,
        Compression::Deflate,
        Compression::Lz4,
        Compression::Reserved,
    ] {
        let pdu = AppPdu::new(AppProtocol::Text, vec![]).with_compression(comp);
        let bytes = pdu.to_bytes();
        let decoded = AppPdu::from_bytes(&bytes).unwrap();
        assert_eq!(decoded.compression, comp);
    }
}

#[test]
fn test_all_frag_flags() {
    let flags = [
        FragFlags::Complete,
        FragFlags::First,
        FragFlags::Middle,
        FragFlags::Last,
    ];
    for &flag in &flags {
        let val = flag.code();
        let decoded = FragFlags::from_u8(val).unwrap();
        assert_eq!(decoded, flag);
    }
}

#[test]
fn test_is_fragmented() {
    assert!(!FragFlags::Complete.is_fragmented());
    assert!(FragFlags::First.is_fragmented());
    assert!(FragFlags::Middle.is_fragmented());
    assert!(FragFlags::Last.is_fragmented());
}

#[test]
fn test_empty_payload() {
    let pdu = AppPdu::new_text(b"");
    let bytes = pdu.to_bytes();
    assert_eq!(bytes.len(), APP_HEADER_SIZE);
    let decoded = AppPdu::from_bytes(&bytes).unwrap();
    assert!(decoded.payload.is_empty());
}

#[test]
fn test_too_short() {
    assert!(AppPdu::from_bytes(&[]).is_err());
    assert!(AppPdu::from_bytes(&[0x00]).is_err());
}

#[test]
fn test_header_byte_encoding() {
    let pdu = AppPdu::new_fragment(
        AppProtocol::FileTransfer, // 3
        Compression::Lz4,          // 2
        FragFlags::Middle,         // 2
        42,
        1, // frag_index
        3, // frag_total
        vec![],
    );
    let bytes = pdu.to_bytes();
    // Byte 0: (3 << 4) | (2 << 2) | 2 = 0x30 | 0x08 | 0x02 = 0x3A
    assert_eq!(bytes[0], 0x3A);
    assert_eq!(bytes[1], 42);
    assert_eq!(bytes[2], 1); // frag_index
    assert_eq!(bytes[3], 3); // frag_total
}

#[test]
fn test_fragment_small_payload() {
    // Payload fits in one fragment
    let fragments = AppPdu::fragment(AppProtocol::Text, Compression::Uncompressed, 1, b"Small", 100);
    assert_eq!(fragments.len(), 1);
    assert_eq!(fragments[0].frag_flags, FragFlags::Complete);
    assert_eq!(fragments[0].payload, b"Small");
}

#[test]
fn test_fragment_exact_fit() {
    let data = vec![0xAA; 50];
    let fragments = AppPdu::fragment(AppProtocol::Text, Compression::Uncompressed, 2, &data, 50);
    assert_eq!(fragments.len(), 1);
    assert_eq!(fragments[0].frag_flags, FragFlags::Complete);
}

#[test]
fn test_fragment_two_parts() {
    let data = vec![0xBB; 100];
    let fragments = AppPdu::fragment(AppProtocol::Text, Compression::Uncompressed, 3, &data, 60);
    assert_eq!(fragments.len(), 2);
    assert_eq!(fragments[0].frag_flags, FragFlags::First);
    assert_eq!(fragments[0].payload.len(), 60);
    assert_eq!(fragments[1].frag_flags, FragFlags::Last);
    assert_eq!(fragments[1].payload.len(), 40);
}

#[test]
fn test_fragment_three_parts() {
    let data = vec![0xCC; 150];
    let fragments = AppPdu::fragment(AppProtocol::Text, Compression::Uncompressed, 4, &data, 60);
    assert_eq!(fragments.len(), 3);
    assert_eq!(fragments[0].frag_flags, FragFlags::First);
    assert_eq!(fragments[1].frag_flags, FragFlags::Middle);
    assert_eq!(fragments[2].frag_flags, FragFlags::Last);

    // All should share the same frag_id
    for f in &fragments {
        assert_eq!(f.frag_id, 4);
    }
}

#[test]
fn test_fragment_many_parts() {
    let data = vec![0xDD; 500];
    let fragments =
        AppPdu::fragment(AppProtocol::FileTransfer, Compression::Uncompressed, 5, &data, 50);
    assert_eq!(fragments.len(), 10);
    assert_eq!(fragments[0].frag_flags, FragFlags::First);
    for f in &fragments[1..9] {
        assert_eq!(f.frag_flags, FragFlags::Middle);
    }
    assert_eq!(fragments[9].frag_flags, FragFlags::Last);
}

#[test]
fn test_reassemble_complete() {
    let pdu = AppPdu::new_text(b"Complete");
    let result = AppPdu::reassemble(&[pdu]).unwrap();
    assert_eq!(result, b"Complete");
}

#[test]
fn test_fragment_and_reassemble_roundtrip() {
    let original = b"This is a longer message that needs fragmentation to fit.";
    let fragments = AppPdu::fragment(AppProtocol::Text, Compression::Uncompressed, 10, original, 20);

    assert!(fragments.len() > 1);
    let reassembled = AppPdu::reassemble(&fragments).unwrap();
    assert_eq!(reassembled, original);
}

#[test]
fn test_reassemble_serialized_roundtrip() {
    let original = vec![0xEE; 200];
    let fragments = AppPdu::fragment(
        AppProtocol::Telemetry,
        Compression::Deflate,
        7,
        &original,
        30,
    );

    // Serialize and deserialize each fragment
    let deserialized: Vec<AppPdu> = fragments
        .iter()
        .map(|f| {
            let bytes = f.to_bytes();
            AppPdu::from_bytes(&bytes).unwrap()
        })
        .collect();

    let reassembled = AppPdu::reassemble(&deserialized).unwrap();
    assert_eq!(reassembled, original);
}

#[test]
fn test_reassemble_empty() {
    assert!(AppPdu::reassemble(&[]).is_err());
}

#[test]
fn test_reassemble_wrong_first() {
    let frag = AppPdu::new_fragment(
        AppProtocol::Text,
        Compression::Uncompressed,
        FragFlags::Middle,
        1,
        0,
        1,
        vec![],
    );
    assert!(AppPdu::reassemble(&[frag]).is_err());
}

#[test]
fn test_reassemble_wrong_last() {
    let f1 = AppPdu::new_fragment(
        AppProtocol::Text,
        Compression::Uncompressed,
        FragFlags::First,
        1,
        0,
        2,
        vec![0x01],
    );
    let f2 = AppPdu::new_fragment(
        AppProtocol::Text,
        Compression::Uncompressed,
        FragFlags::Middle,
        1,
        1,
        2,
        vec![0x02],
    );
    assert!(AppPdu::reassemble(&[f1, f2]).is_err());
}

#[test]
fn test_reassemble_mismatched_frag_id() {
    let f1 = AppPdu::new_fragment(
        AppProtocol::Text,
        Compression::Uncompressed,
        FragFlags::First,
        1,
        0,
        2,
        vec![0x01],
    );
    let f2 = AppPdu::new_fragment(
        AppProtocol::Text,
        Compression::Uncompressed,
        FragFlags::Last,
        2, // different frag_id
        1,
        2,
        vec![0x02],
    );
    assert!(AppPdu::reassemble(&[f1, f2]).is_err());
}

#[test]
fn test_large_payload() {
    let payload = vec![0xFF; 1000];
    let pdu = AppPdu::new(AppProtocol::FileTransfer, payload.clone());
    let bytes = pdu.to_bytes();
    let decoded = AppPdu::from_bytes(&bytes).unwrap();
    assert_eq!(decoded.payload, payload);
}

#[test]
fn protocol_codes_are_exact() {
    assert_eq!(AppProtocol::Text.code(), 0);
    assert_eq!(AppProtocol::FileTransfer.code(), 3);
    assert_eq!(AppProtocol::CompressedData.code(), 7);
    assert_eq!(AppProtocol::from_u8(5), Ok(AppProtocol::Control));
    assert_eq!(AppProtocol::from_u8(8), Err(AppError::UnknownProtocol { code: 8 }));
    assert_eq!(Compression::Lz4.code(), 2);
    assert_eq!(Compression::from_u8(3), Ok(Compression::Reserved));
    assert_eq!(FragFlags::Last.code(), 3);
}

#[test]
fn short_header_reports_its_length() {
    match AppPdu::from_bytes(&[0x00, 0x01, 0x02]) {
        Err(e) => assert_eq!(e, AppError::TooShort { len: 3 }),
        Ok(_) => panic!("three bytes are no header"),
    }
    match AppPdu::from_bytes(&[0x80, 0, 0, 1]) {
        Err(e) => assert_eq!(e, AppError::UnknownProtocol { code: 8 }),
        Ok(_) => panic!("protocol 8 is not assigned"),
    }
}

fn piece(flags: FragFlags, id: u8, index: u8, total: u8) -> AppPdu {
    AppPdu::new_fragment(
        AppProtocol::Text,
        Compression::Uncompressed,
        flags,
        id,
        index,
        total,
        vec![index],
    )
}

#[test]
fn each_reassembly_error_has_its_cause() {
    assert_eq!(AppPdu::reassemble(&[]), Err(ReassembleError::NoFragments));
    assert_eq!(
        AppPdu::reassemble(&[piece(FragFlags::Last, 1, 0, 1)]),
        Err(ReassembleError::FirstFlagMissing)
    );
    assert_eq!(
        AppPdu::reassemble(&[piece(FragFlags::First, 1, 0, 2), piece(FragFlags::Middle, 1, 1, 2)]),
        Err(ReassembleError::LastFlagMissing)
    );
    assert_eq!(
        AppPdu::reassemble(&[piece(FragFlags::First, 1, 0, 3), piece(FragFlags::Last, 1, 1, 3)]),
        Err(ReassembleError::CountMismatch { frag_total: 3, count: 2 })
    );
    assert_eq!(
        AppPdu::reassemble(&[piece(FragFlags::First, 1, 0, 2), piece(FragFlags::Last, 9, 1, 2)]),
        Err(ReassembleError::IdMismatch { index: 1, expected: 1, got: 9 })
    );
    assert_eq!(
        AppPdu::reassemble(&[piece(FragFlags::First, 1, 0, 2), piece(FragFlags::Last, 1, 0, 2)]),
        Err(ReassembleError::IndexMismatch { index: 1, got: 0 })
    );
    assert_eq!(
        AppPdu::reassemble(&[piece(FragFlags::First, 1, 0, 2), piece(FragFlags::Last, 1, 1, 5)]),
        Err(ReassembleError::TotalMismatch { index: 1, expected: 2, got: 5 })
    );
    assert_eq!(
        AppPdu::reassemble(&[
            piece(FragFlags::First, 1, 0, 3),
            piece(FragFlags::First, 1, 1, 3),
            piece(FragFlags::Last, 1, 2, 3),
        ]),
        Err(ReassembleError::FlagsMismatch {
            index: 1,
            expected_flags: FragFlags::Middle,
            flags: FragFlags::First,
        })
    );
}

#[test]
fn a_message_of_255_fragments_comes_back() {
    let data: Vec<u8> = (0..255u32 * 3).map(|i| (i % 251) as u8).collect();
    let fragments = AppPdu::fragment(AppProtocol::Text, Compression::Uncompressed, 4, &data, 3);
    assert_eq!(fragments.len(), 255);
    assert!(fragments.iter().all(|f| f.payload.len() == 3 && f.frag_total == 255));
    assert_eq!(AppPdu::reassemble(&fragments), Ok(data));
}

#[test]
fn a_message_of_256_fragments_is_refused() {
    let data = vec![7u8; 256];
    let fragments = AppPdu::fragment(AppProtocol::Text, Compression::Uncompressed, 4, &data, 1);
    assert_eq!(fragments.len(), 256);
    assert!(AppPdu::reassemble(&fragments).is_err());
}

#[test]
fn bytes_and_pdu_determine_each_other() {
    let bytes = vec![0x3A, 42, 1, 3, 9, 8, 7];
    let pdu = AppPdu::from_bytes(&bytes).unwrap();
    assert_eq!(pdu.to_bytes(), bytes);
    assert_eq!(pdu.frag_flags, FragFlags::Middle);
}
