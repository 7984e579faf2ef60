use coppa::compression::huffman::{table_entry, HuffmanCodec, ESCAPE, HAM_RADIO_TABLE};

#[test]
fn test_huffman_roundtrip_simple() {
    let codec = HuffmanCodec::new();
    let text = b"CQ CQ CQ DE VK2ABC";
    let compressed = codec.encode(text);
    let decompressed = codec.decode(&compressed);
    assert_eq!(decompressed, text);
}

#[test]
fn test_huffman_roundtrip_digits() {
    let codec = HuffmanCodec::new();
    let text = b"RST 599 599";
    let compressed = codec.encode(text);
    let decompressed = codec.decode(&compressed);
    assert_eq!(decompressed, text);
}

#[test]
fn test_huffman_empty() {
    let codec = HuffmanCodec::new();
    let compressed = codec.encode(b"");
    let decompressed = codec.decode(&compressed);
    assert!(decompressed.is_empty());
}

#[test]
fn test_huffman_single_char() {
    let codec = HuffmanCodec::new();
    for &ch in b"ETAOINSR 0123456789" {
        let compressed = codec.encode(&[ch]);
        let decompressed = codec.decode(&compressed);
        assert_eq!(
            decompressed,
            vec![ch],
            "Failed roundtrip for '{}'",
            ch as char
        );
    }
}

#[test]
fn test_huffman_punctuation() {
    let codec = HuffmanCodec::new();
    let text = b"VK2ABC/P DE VK3DEF? K";
    let compressed = codec.encode(text);
    let decompressed = codec.decode(&compressed);
    assert_eq!(decompressed, text);
}

#[test]
fn test_huffman_all_same_bytes() {
    let codec = HuffmanCodec::new();
    let text = vec![b'E'; 100];
    let compressed = codec.encode(&text);
    let decompressed = codec.decode(&compressed);
    assert_eq!(decompressed, text);
}

#[test]
fn test_huffman_ham_radio_qso() {
    let codec = HuffmanCodec::new();
    let text = b"CQ CQ CQ DE VK2ABC K";
    let compressed = codec.encode(text);
    let decompressed = codec.decode(&compressed);
    assert_eq!(decompressed, text);
    // Ham radio text should compress well
    assert!(compressed.len() < text.len());
}

#[test]
fn test_huffman_binary_escape() {
    let codec = HuffmanCodec::new();
    // Bytes not in the Huffman table should be escaped and recovered
    let data: Vec<u8> = (128..160).collect();
    let compressed = codec.encode(&data);
    let decompressed = codec.decode(&compressed);
    assert_eq!(decompressed, data);
}

#[test]
fn test_huffman_tilde_literal() {
    let codec = HuffmanCodec::new();
    let text = b"A~B~C";
    let compressed = codec.encode(text);
    let decompressed = codec.decode(&compressed);
    assert_eq!(decompressed, text);
}

#[test]
fn test_huffman_decode_empty_bytes() {
    let codec = HuffmanCodec::new();
    let decompressed = codec.decode(&[]);
    assert!(decompressed.is_empty());
}

#[test]
fn strict_decoder_agrees_with_the_lenient_one() {
    let codec = HuffmanCodec::new();
    for text in [&b"CQ CQ CQ DE VK2ABC K"[..], &b"A~B~C"[..], &[0, 1, 200, 255][..], &b""[..]] {
        let compressed = codec.encode(text);
        assert_eq!(codec.try_decode(&compressed), Ok(text.to_vec()));
        assert_eq!(codec.decode(&compressed), text);
    }
}

#[test]
fn every_byte_comes_back() {
    let codec = HuffmanCodec::new();
    let data: Vec<u8> = (0..=255).collect();
    assert_eq!(codec.try_decode(&codec.encode(&data)), Ok(data));
}

#[test]
fn table_is_prefix_free() {
    for i in 0..HAM_RADIO_TABLE.len() {
        for j in 0..HAM_RADIO_TABLE.len() {
            let a = table_entry(i);
            let b = table_entry(j);
            if i != j && a.bits <= b.bits {
                assert_ne!(a.code, b.code >> (b.bits - a.bits), "{} {}", i, j);
            }
        }
    }
    assert_eq!(ESCAPE, 0x7E);
}

#[test]
fn malformed_streams_are_refused() {
    let codec = HuffmanCodec::new();
    assert_eq!(
        codec.try_decode(&[9, 0x00]),
        Err("Invalid padding count: 9".to_string())
    );
    assert_eq!(
        codec.try_decode(&[0, 0xFF]),
        Err("Truncated escape sequence".to_string())
    );
    assert_eq!(
        codec.try_decode(&[6, 0x80]),
        Err("Corrupt bitstream: no valid code at bit position 0".to_string())
    );
    assert_eq!(codec.try_decode(&[]), Ok(vec![]));
}

#[test]
fn known_codes_are_packed() {
    // A space is 00 and E is 010; three padding bits fill the byte.
    let codec = HuffmanCodec::new();
    assert_eq!(codec.encode(b" E"), vec![3, 0b0001_0000]);
    assert_eq!(codec.encode(b"CQ CQ CQ DE VK2ABC VK2ABC K").len(), 19);
}
