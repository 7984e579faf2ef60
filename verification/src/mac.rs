//! MAC layer protocol data unit.
//!
//! ```text
//! [version 4b | frame type 4b][dest 6B][src 6B][ssid 1B][transport PDU]
//! ```
//!
//! Callsigns use a 6-bit charset, eight characters in six bytes: `A` to `Z` are
//! 1 to 26, `0` to `9` are 27 to 36, `/` is 37, `-` is 38, and 0 is padding.
use vstd::prelude::*;
use vstd::string::*;
use vstd::utf8::*;

verus! {

/// Current MAC protocol version.
pub const MAC_VERSION: u8 = 1;

/// Maximum callsign length in characters.
pub const MAX_CALLSIGN_LEN: usize = 8;

/// Encoded callsign size in bytes.
pub const ENCODED_CALLSIGN_BYTES: usize = 6;

/// MAC frame types.
#[derive(Debug, Clone, Copy, PartialEq, Eq, Hash, Structural)]
pub enum MacFrameType {
    Data,
    Ack,
    ConnectReq,
    ConnectAck,
    ConnectCfm,
    Disconnect,
    Beacon,
    Keepalive,
    Relay,
}

/// Why a callsign or a MAC PDU is refused.
#[derive(Debug, Clone, Copy, PartialEq, Eq, Structural)]
pub enum MacError {
    /// The frame type nibble names no frame type.
    UnknownFrameType { code: u8 },
    /// The callsign takes more bytes than fit.
    CallsignTooLong { len: usize },
    /// The callsign holds a character outside the charset.
    InvalidCharacter { ch: char },
    /// The encoded callsign holds a number outside the charset.
    InvalidCode { code: u8 },
    /// Fewer bytes than the header takes.
    TooShort { len: usize },
}

/// Why a station identification cannot be encoded or decoded.
#[derive(Debug, Clone, Copy, PartialEq, Eq, Structural)]
pub enum StationIdError {
    /// The callsign does not fit its one-byte length.
    CallsignTooLong { len: usize },
    /// The grid locator does not fit its one-byte length.
    GridTooLong { len: usize },
    /// There are no bytes at all.
    Empty,
    /// The bytes end inside the callsign field.
    TruncatedCallsign,
    /// The callsign is not text.
    InvalidCallsignText,
    /// The bytes end inside the grid or before the level.
    TruncatedGrid,
    /// The grid locator is not text.
    InvalidGridText,
}

/// The number that stands for a frame type on the wire.
pub open spec fn frame_type_code(t: MacFrameType) -> u8 {
    match t {
        MacFrameType::Data => 0,
        MacFrameType::Ack => 1,
        MacFrameType::ConnectReq => 2,
        MacFrameType::ConnectAck => 3,
        MacFrameType::ConnectCfm => 4,
        MacFrameType::Disconnect => 5,
        MacFrameType::Beacon => 6,
        MacFrameType::Keepalive => 7,
        MacFrameType::Relay => 8,
    }
}

/// The frame type that the low nibble of a byte names.
pub open spec fn frame_type_of(val: u8) -> Option<MacFrameType> {
    let v = val % 16;
    if v == 0 {
        Some(MacFrameType::Data)
    } else if v == 1 {
        Some(MacFrameType::Ack)
    } else if v == 2 {
        Some(MacFrameType::ConnectReq)
    } else if v == 3 {
        Some(MacFrameType::ConnectAck)
    } else if v == 4 {
        Some(MacFrameType::ConnectCfm)
    } else if v == 5 {
        Some(MacFrameType::Disconnect)
    } else if v == 6 {
        Some(MacFrameType::Beacon)
    } else if v == 7 {
        Some(MacFrameType::Keepalive)
    } else if v == 8 {
        Some(MacFrameType::Relay)
    } else {
        None
    }
}

impl MacFrameType {
    /// The frame type that the low nibble of `val` names.
    pub fn from_u8(val: u8) -> (r: Result<Self, MacError>)
        ensures
            match frame_type_of(val) {
                Some(t) => r == Ok::<MacFrameType, MacError>(t),
                None => r == Err::<MacFrameType, MacError>(
                    MacError::UnknownFrameType { code: val % 16 },
                ),
            },
    {
        match val % 16 {
            0 => Ok(MacFrameType::Data),
            1 => Ok(MacFrameType::Ack),
            2 => Ok(MacFrameType::ConnectReq),
            3 => Ok(MacFrameType::ConnectAck),
            4 => Ok(MacFrameType::ConnectCfm),
            5 => Ok(MacFrameType::Disconnect),
            6 => Ok(MacFrameType::Beacon),
            7 => Ok(MacFrameType::Keepalive),
            8 => Ok(MacFrameType::Relay),
            v => Err(MacError::UnknownFrameType { code: v }),
        }
    }

    /// The number that stands for the frame type on the wire.
    pub fn code(self) -> (v: u8)
        ensures
            v == frame_type_code(self),
    {
        match self {
            MacFrameType::Data => 0,
            MacFrameType::Ack => 1,
            MacFrameType::ConnectReq => 2,
            MacFrameType::ConnectAck => 3,
            MacFrameType::ConnectCfm => 4,
            MacFrameType::Disconnect => 5,
            MacFrameType::Beacon => 6,
            MacFrameType::Keepalive => 7,
            MacFrameType::Relay => 8,
        }
    }
}

/// The charset number of a character.
pub open spec fn code_of_char(ch: char) -> Option<u8> {
    let v = ch as u32;
    if 65 <= v <= 90 {
        Some((v - 64) as u8)
    } else if 48 <= v <= 57 {
        Some((v - 21) as u8)
    } else if v == 47 {
        Some(37)
    } else if v == 45 {
        Some(38)
    } else {
        None
    }
}

/// The ASCII number of the character that a charset number stands for.
pub open spec fn ascii_of_code(code: u8) -> Option<u8> {
    if 1 <= code <= 26 {
        Some((code + 64) as u8)
    } else if 27 <= code <= 36 {
        Some((code + 21) as u8)
    } else if code == 37 {
        Some(47)
    } else if code == 38 {
        Some(45)
    } else {
        None
    }
}

/// The character that a charset number stands for.
pub open spec fn char_of_code(code: u8) -> Option<char> {
    match ascii_of_code(code) {
        Some(b) => Some(b as char),
        None => None,
    }
}

/// The charset number of a character, if it has one.
pub fn char_to_code(ch: char) -> (r: Option<u8>)
    ensures
        r == code_of_char(ch),
{
    let v: u32 = ch as u32;
    if 65 <= v && v <= 90 {
        Some((v - 64) as u8)
    } else if 48 <= v && v <= 57 {
        Some((v - 21) as u8)
    } else if v == 47 {
        Some(37)
    } else if v == 45 {
        Some(38)
    } else {
        None
    }
}

/// The ASCII number of the character that a charset number stands for.
fn code_to_ascii(code: u8) -> (r: Option<u8>)
    ensures
        r == ascii_of_code(code),
{
    if 1 <= code && code <= 26 {
        Some(code + 64)
    } else if 27 <= code && code <= 36 {
        Some(code + 21)
    } else if code == 37 {
        Some(47)
    } else if code == 38 {
        Some(45)
    } else {
        None
    }
}

/// The character that a charset number stands for, if it is one.
pub fn code_to_char(code: u8) -> (r: Option<char>)
    ensures
        r == char_of_code(code),
{
    match code_to_ascii(code) {
        Some(b) => Some(b as char),
        None => None,
    }
}

/// Whether characters make a callsign: at most eight, all of the charset.
pub open spec fn valid_callsign(text: Seq<char>) -> bool {
    &&& text.len() <= MAX_CALLSIGN_LEN
    &&& forall|i: int| 0 <= i < text.len() ==> code_of_char(#[trigger] text[i]) is Some
}

/// The first character outside the charset.
pub open spec fn first_invalid(text: Seq<char>) -> Option<char>
    decreases text.len(),
{
    if text.len() == 0 {
        None
    } else if code_of_char(text[0]) is None {
        Some(text[0])
    } else {
        first_invalid(text.skip(1))
    }
}

/// What a text gives as a callsign: its uppercase form, or why that is none.
pub open spec fn callsign_of(s: Seq<char>) -> Result<Seq<char>, MacError> {
    callsign_of_upper(crate::text::uppercase(s))
}

/// What an uppercase text gives as a callsign.
pub open spec fn callsign_of_upper(upper: Seq<char>) -> Result<Seq<char>, MacError> {
    if encode_utf8(upper).len() > MAX_CALLSIGN_LEN {
        Err(MacError::CallsignTooLong { len: encode_utf8(upper).len() as usize })
    } else {
        match first_invalid(upper) {
            Some(ch) => Err(MacError::InvalidCharacter { ch }),
            None => Ok(upper),
        }
    }
}

/// The eight charset numbers of a callsign, padded with zeros.
pub open spec fn codes_of(text: Seq<char>) -> Seq<u8> {
    Seq::new(
        8,
        |i: int|
            if i < text.len() {
                code_of_char(text[i]).unwrap()
            } else {
                0u8
            },
    )
}

/// Four 6-bit numbers in three bytes.
#[verifier::opaque]
pub open spec fn pack_quad(c0: u8, c1: u8, c2: u8, c3: u8) -> Seq<u8> {
    seq![
        (c0 * 4 + c1 / 16) as u8,
        (c1 % 16 * 16 + c2 / 4) as u8,
        (c2 % 4 * 64 + c3) as u8,
    ]
}

/// Four 6-bit numbers out of three bytes.
#[verifier::opaque]
pub open spec fn unpack_quad(b0: u8, b1: u8, b2: u8) -> Seq<u8> {
    seq![
        b0 / 4,
        (b0 % 4 * 16 + b1 / 16) as u8,
        (b1 % 16 * 4 + b2 / 64) as u8,
        b2 % 64,
    ]
}

/// The six bytes of a callsign.
pub open spec fn callsign_bytes(text: Seq<char>) -> Seq<u8> {
    let c = codes_of(text);
    pack_quad(c[0], c[1], c[2], c[3]) + pack_quad(c[4], c[5], c[6], c[7])
}

/// The characters of charset numbers up to the padding, or the first number
/// that stands for none.
pub open spec fn text_of_codes(codes: Seq<u8>) -> Result<Seq<char>, MacError>
    decreases codes.len(),
{
    if codes.len() == 0 || codes[0] == 0 {
        Ok(seq![])
    } else {
        match char_of_code(codes[0]) {
            None => Err(MacError::InvalidCode { code: codes[0] }),
            Some(ch) => match text_of_codes(codes.skip(1)) {
                Ok(t) => Ok(seq![ch] + t),
                Err(e) => Err(e),
            },
        }
    }
}

/// The callsign that six bytes hold.
pub open spec fn parse_callsign(b: Seq<u8>) -> Result<Seq<char>, MacError> {
    text_of_codes(unpack_quad(b[0], b[1], b[2]) + unpack_quad(b[3], b[4], b[5]))
}

/// A callsign: at most eight characters of the 6-bit charset.
#[derive(Debug, PartialEq, Eq, Hash)]
pub struct Callsign {
    text: String,
}

impl View for Callsign {
    type V = Seq<char>;

    closed spec fn view(&self) -> Seq<char> {
        self.text@
    }
}

impl Clone for Callsign {
    fn clone(&self) -> (r: Self)
        ensures
            r@ == self@,
    {
        proof {
            use_type_invariant(self);
        }
        Callsign { text: self.text.clone() }
    }
}

proof fn lemma_first_invalid(text: Seq<char>)
    ensures
        first_invalid(text) is None <==> forall|i: int|
            0 <= i < text.len() ==> code_of_char(#[trigger] text[i]) is Some,
    decreases text.len(),
{
    if text.len() > 0 {
        lemma_first_invalid(text.skip(1));
        if first_invalid(text) is None {
            assert forall|i: int| 0 <= i < text.len() implies code_of_char(
                #[trigger] text[i],
            ) is Some by {
                if i > 0 {
                    assert(text[i] == text.skip(1)[i - 1]);
                }
            }
        } else if code_of_char(text[0]) is Some {
            let j = choose|j: int|
                0 <= j < text.skip(1).len() && code_of_char(#[trigger] text.skip(1)[j]) is None;
            assert(code_of_char(text[j + 1]) is None);
        }
    }
}

proof fn lemma_charset_ascii(c: char)
    requires
        code_of_char(c) is Some,
    ensures
        '\0' <= c <= '\u{7f}',
        (c as u8) as char == c,
{
}

/// Callsign characters are ASCII, so text and bytes agree one for one.
proof fn lemma_callsign_ascii(text: Seq<char>)
    requires
        forall|i: int| 0 <= i < text.len() ==> code_of_char(#[trigger] text[i]) is Some,
    ensures
        is_ascii_chars(text),
        encode_utf8(text).len() == text.len(),
        forall|i: int| 0 <= i < text.len() ==> text[i] as u8 == #[trigger] encode_utf8(text)[i],
{
    assert forall|i: int| 0 <= i < text.len() implies '\0' <= #[trigger] text[i] <= '\u{7f}' by {
        lemma_charset_ascii(text[i]);
    }
    is_ascii_chars_encode_utf8(text);
}

impl Callsign {
    #[verifier::type_invariant]
    spec fn wf(self) -> bool {
        valid_callsign(self.text@)
    }

    /// Create a callsign from a string, in uppercase, checking charset and
    /// length. ASCII letters count the same in upper and lower case.
    pub fn new(s: &str) -> (r: Result<Self, MacError>)
        ensures
            match r {
                Ok(c) => callsign_of(s@) == Ok::<Seq<char>, MacError>(c@),
                Err(e) => callsign_of(s@) == Err::<Seq<char>, MacError>(e),
            },
            is_ascii_chars(s@) ==> match r {
                Ok(c) => callsign_of_upper(crate::text::ascii_uppercase(s@)) == Ok::<Seq<char>, MacError>(c@),
                Err(e) => callsign_of_upper(crate::text::ascii_uppercase(s@)) == Err::<Seq<char>, MacError>(e),
            },
    {
        let upper = crate::text::to_upper(s);
        Callsign::from_upper(upper)
    }

    /// Create a callsign from a text that is in uppercase already.
    pub fn from_upper(upper: String) -> (r: Result<Self, MacError>)
        ensures
            match r {
                Ok(c) => callsign_of_upper(upper@) == Ok::<Seq<char>, MacError>(c@),
                Err(e) => callsign_of_upper(upper@) == Err::<Seq<char>, MacError>(e),
            },
    {
        let len: usize = upper.as_str().as_bytes().len();
        if len > MAX_CALLSIGN_LEN {
            return Err(MacError::CallsignTooLong { len });
        }
        let n: usize = upper.as_str().unicode_len();
        let mut i: usize = 0;
        assert(upper@.skip(0) =~= upper@);
        while i < n
            invariant
                i <= n,
                n == upper@.len(),
                encode_utf8(upper@).len() <= MAX_CALLSIGN_LEN,
                first_invalid(upper@) == first_invalid(upper@.skip(i as int)),
            decreases n - i,
        {
            let ch = upper.as_str().get_char(i);
            assert(upper@.skip(i as int).skip(1) =~= upper@.skip(i + 1));
            if char_to_code(ch).is_none() {
                return Err(MacError::InvalidCharacter { ch });
            }
            i += 1;
        }
        proof {
            assert(upper@.skip(n as int) =~= seq![]);
            lemma_first_invalid(upper@);
            lemma_callsign_ascii(upper@);
        }
        Ok(Callsign { text: upper })
    }

    /// Create a broadcast/wildcard callsign (all zeros).
    pub fn broadcast() -> (c: Self)
        ensures
            c@ == Seq::<char>::empty(),
    {
        Callsign { text: String::new() }
    }

    /// The callsign string.
    pub fn as_str(&self) -> (s: &str)
        ensures
            s@ == self@,
            valid_callsign(self@),
    {
        proof {
            use_type_invariant(self);
        }
        self.text.as_str()
    }

    /// Encode the callsign in six bytes.
    pub fn encode(&self) -> (bytes: [u8; 6])
        ensures
            bytes@ == callsign_bytes(self@),
    {
        proof {
            use_type_invariant(self);
            lemma_callsign_ascii(self.text@);
        }
        let mut codes: [u8; 8] = [0u8; 8];
        let chars = self.text.as_str().as_bytes();
        let mut i: usize = 0;
        while i < chars.len()
            invariant
                i <= chars@.len(),
                chars@.len() == self.text@.len() <= 8,
                valid_callsign(self.text@),
                forall|k: int| 0 <= k < chars@.len() ==> self.text@[k] as u8 == #[trigger] chars@[k],
                forall|k: int|
                    0 <= k < 8 ==> codes@[k] == if k < i {
                        codes_of(self.text@)[k]
                    } else {
                        0u8
                    },
            decreases chars.len() - i,
        {
            proof {
                lemma_charset_ascii(self.text@[i as int]);
            }
            let ch = chars[i] as char;
            codes[i] = match char_to_code(ch) {
                Some(code) => code,
                None => 0,
            };
            i += 1;
        }
        assert(codes@ =~= codes_of(self.text@));
        assert forall|k: int| 0 <= k < 8 implies codes@[k] < 64 by {
            if k < self.text@.len() {
                assert(code_of_char(self.text@[k]) is Some);
            }
        }
        let bytes: [u8; 6] = [
            codes[0] * 4 + codes[1] / 16,
            codes[1] % 16 * 16 + codes[2] / 4,
            codes[2] % 4 * 64 + codes[3],
            codes[4] * 4 + codes[5] / 16,
            codes[5] % 16 * 16 + codes[6] / 4,
            codes[6] % 4 * 64 + codes[7],
        ];
        proof {
            reveal(pack_quad);
        }
        assert(bytes@ =~= callsign_bytes(self@));
        bytes
    }

    /// Decode a callsign from six bytes.
    pub fn decode(bytes: &[u8; 6]) -> (r: Result<Self, MacError>)
        ensures
            match r {
                Ok(c) => parse_callsign(bytes@) == Ok::<Seq<char>, MacError>(c@),
                Err(e) => parse_callsign(bytes@) == Err::<Seq<char>, MacError>(e),
            },
    {
        let codes: [u8; 8] = [
            bytes[0] / 4,
            bytes[0] % 4 * 16 + bytes[1] / 16,
            bytes[1] % 16 * 4 + bytes[2] / 64,
            bytes[2] % 64,
            bytes[3] / 4,
            bytes[3] % 4 * 16 + bytes[4] / 16,
            bytes[4] % 16 * 4 + bytes[5] / 64,
            bytes[5] % 64,
        ];
        let ghost all = unpack_quad(bytes@[0], bytes@[1], bytes@[2]) + unpack_quad(
            bytes@[3],
            bytes@[4],
            bytes@[5],
        );
        assert(codes@ =~= all) by {
            reveal(unpack_quad);
        }
        let mut ascii: Vec<u8> = Vec::new();
        let mut i: usize = 0;
        assert(all.skip(0) =~= all);
        proof {
            if text_of_codes(all) is Ok {
                assert(crate::text::ascii_chars(ascii@) + text_of_codes(all).unwrap()
                    =~= text_of_codes(all).unwrap());
            }
        }
        while i < 8 && codes[i] != 0
            invariant
                i <= 8,
                ascii@.len() == i,
                all == codes@,
                parse_callsign(bytes@) == text_of_codes(all),
                crate::text::all_ascii(ascii@),
                forall|k: int|
                    0 <= k < i ==> code_of_char(#[trigger] ascii@[k] as char) is Some,
                text_of_codes(all) == prefixed(
                    crate::text::ascii_chars(ascii@),
                    text_of_codes(all.skip(i as int)),
                ),
            decreases 8 - i,
        {
            let ghost before = ascii@;
            assert(all.skip(i as int).skip(1) =~= all.skip(i + 1));
            match code_to_ascii(codes[i]) {
                Some(b) => {
                    ascii.push(b);
                    proof {
                        lemma_prefixed(
                            crate::text::ascii_chars(before),
                            b as char,
                            text_of_codes(all.skip(i + 1)),
                        );
                        assert(crate::text::ascii_chars(ascii@) =~= crate::text::ascii_chars(
                            before,
                        ).push(b as char));
                    }
                },
                None => {
                    assert(text_of_codes(all.skip(i as int)) == Err::<Seq<char>, MacError>(
                        MacError::InvalidCode { code: codes@[i as int] },
                    ));
                    return Err(MacError::InvalidCode { code: codes[i] });
                },
            }
            i += 1;
        }
        let text = crate::text::ascii_text(ascii.as_slice());
        proof {
            assert(text_of_codes(all.skip(i as int)) == Ok::<Seq<char>, MacError>(seq![]));
            assert(text@ + seq![] =~= text@);
        }
        Ok(Callsign { text })
    }
}

/// Characters read so far, followed by the outcome of the rest.
spec fn prefixed(front: Seq<char>, r: Result<Seq<char>, MacError>) -> Result<Seq<char>, MacError> {
    match r {
        Ok(t) => Ok(front + t),
        Err(e) => Err(e),
    }
}

proof fn lemma_prefixed(front: Seq<char>, ch: char, r: Result<Seq<char>, MacError>)
    ensures
        prefixed(
            front,
            (match r {
                Ok(t) => Ok(seq![ch] + t),
                Err(e) => Err(e),
            }),
        ) == prefixed(front.push(ch), r),
{
    if r is Ok {
        assert(front + (seq![ch] + r.unwrap()) =~= front.push(ch) + r.unwrap());
    }
}

/// MAC Protocol Data Unit.
#[derive(Debug, Clone)]
pub struct MacPdu {
    /// Protocol version (4 bits, currently 1).
    pub version: u8,
    /// Frame type.
    pub frame_type: MacFrameType,
    /// Destination callsign.
    pub dest: Callsign,
    /// Source callsign.
    pub src: Callsign,
    /// SSID (secondary station ID, 0-15).
    pub ssid: u8,
    /// Transport PDU payload bytes.
    pub payload: Vec<u8>,
}

/// What a [`MacPdu`] says.
#[verifier::ext_equal]
pub struct MacContent {
    pub version: u8,
    pub frame_type: MacFrameType,
    pub dest: Seq<char>,
    pub src: Seq<char>,
    pub ssid: u8,
    pub payload: Seq<u8>,
}

impl View for MacPdu {
    type V = MacContent;

    open spec fn view(&self) -> MacContent {
        MacContent {
            version: self.version,
            frame_type: self.frame_type,
            dest: self.dest@,
            src: self.src@,
            ssid: self.ssid,
            payload: self.payload@,
        }
    }
}

/// The wire form of a MAC PDU. Version and SSID have four bits each.
pub open spec fn mac_bytes(m: MacContent) -> Seq<u8> {
    seq![(m.version % 16 * 16 + frame_type_code(m.frame_type)) as u8] + callsign_bytes(m.dest)
        + callsign_bytes(m.src) + seq![m.ssid % 16] + m.payload
}

/// What bytes from the wire say: a MAC PDU, or the first thing wrong with them.
pub open spec fn parse_mac(b: Seq<u8>) -> Result<MacContent, MacError> {
    if b.len() < 14 {
        Err(MacError::TooShort { len: b.len() as usize })
    } else {
        match frame_type_of(b[0]) {
            None => Err(MacError::UnknownFrameType { code: b[0] % 16 }),
            Some(frame_type) => match parse_callsign(b.subrange(1, 7)) {
                Err(e) => Err(e),
                Ok(dest) => match parse_callsign(b.subrange(7, 13)) {
                    Err(e) => Err(e),
                    Ok(src) => Ok(
                        MacContent {
                            version: b[0] / 16,
                            frame_type,
                            dest,
                            src,
                            ssid: b[13] % 16,
                            payload: b.skip(14),
                        },
                    ),
                },
            },
        }
    }
}

/// Six bytes of a buffer as an array.
fn six_bytes(bytes: &[u8], at: usize) -> (r: [u8; 6])
    requires
        at + 6 <= bytes.len(),
    ensures
        r@ == bytes@.subrange(at as int, at + 6),
{
    let r: [u8; 6] = [
        bytes[at],
        bytes[at + 1],
        bytes[at + 2],
        bytes[at + 3],
        bytes[at + 4],
        bytes[at + 5],
    ];
    assert(r@ =~= bytes@.subrange(at as int, at + 6));
    r
}

/// Append an encoded callsign.
fn push_callsign(out: &mut Vec<u8>, c: &Callsign)
    ensures
        final(out)@ == old(out)@ + callsign_bytes(c@),
{
    let b = c.encode();
    out.push(b[0]);
    out.push(b[1]);
    out.push(b[2]);
    out.push(b[3]);
    out.push(b[4]);
    out.push(b[5]);
    assert(out@ =~= old(out)@ + b@);
}

impl MacPdu {
    /// Serialized size without payload: version and type, two callsigns, SSID.
    pub const HEADER_SIZE: usize = 14;

    /// Create a MAC PDU for data transfer.
    pub fn new_data(dest: Callsign, src: Callsign, ssid: u8, payload: Vec<u8>) -> (p: Self)
        ensures
            p@ == (MacContent {
                version: MAC_VERSION,
                frame_type: MacFrameType::Data,
                dest: dest@,
                src: src@,
                ssid: ssid % 16,
                payload: payload@,
            }),
    {
        MacPdu::new(MacFrameType::Data, dest, src, ssid, payload)
    }

    /// Create a MAC PDU with a specific frame type.
    pub fn new(
        frame_type: MacFrameType,
        dest: Callsign,
        src: Callsign,
        ssid: u8,
        payload: Vec<u8>,
    ) -> (p: Self)
        ensures
            p@ == (MacContent {
                version: MAC_VERSION,
                frame_type,
                dest: dest@,
                src: src@,
                ssid: ssid % 16,
                payload: payload@,
            }),
    {
        MacPdu { version: MAC_VERSION, frame_type, dest, src, ssid: ssid % 16, payload }
    }

    /// Serialize to bytes.
    pub fn to_bytes(&self) -> (out: Vec<u8>)
        ensures
            out@ == mac_bytes(self@),
    {
        let mut out: Vec<u8> = Vec::new();
        out.push(self.version % 16 * 16 + self.frame_type.code());
        push_callsign(&mut out, &self.dest);
        push_callsign(&mut out, &self.src);
        out.push(self.ssid % 16);
        out.extend_from_slice(self.payload.as_slice());
        assert(out@ =~= mac_bytes(self@));
        out
    }

    /// Deserialize from bytes.
    pub fn from_bytes(bytes: &[u8]) -> (r: Result<Self, MacError>)
        ensures
            match r {
                Ok(p) => parse_mac(bytes@) == Ok::<MacContent, MacError>(p@),
                Err(e) => parse_mac(bytes@) == Err::<MacContent, MacError>(e),
            },
    {
        if bytes.len() < 14 {
            return Err(MacError::TooShort { len: bytes.len() });
        }
        let frame_type = match MacFrameType::from_u8(bytes[0]) {
            Ok(t) => t,
            Err(e) => {
                return Err(e);
            },
        };
        let dest = match Callsign::decode(&six_bytes(bytes, 1)) {
            Ok(c) => c,
            Err(e) => {
                return Err(e);
            },
        };
        let src = match Callsign::decode(&six_bytes(bytes, 7)) {
            Ok(c) => c,
            Err(e) => {
                return Err(e);
            },
        };
        let payload = vstd::slice::slice_to_vec(
            vstd::slice::slice_subrange(bytes, 14, bytes.len()),
        );
        assert(payload@ =~= bytes@.skip(14));
        Ok(
            MacPdu {
                version: bytes[0] / 16,
                frame_type,
                dest,
                src,
                ssid: bytes[13] % 16,
                payload,
            },
        )
    }
}

/// Payload of a [`MacFrameType::Beacon`] frame: the station's callsign, an
/// optional grid locator, and the speed level that the frame was sent at.
#[derive(Debug, Clone, PartialEq, Eq)]
pub struct StationIdPayload {
    /// Station callsign, e.g. "VK3ABC".
    pub callsign: String,
    /// Optional free-text Maidenhead grid locator, e.g. "FN20".
    pub grid: Option<String>,
    /// Speed level (1-10) this frame was encoded at.
    pub level: u8,
}

/// What a [`StationIdPayload`] says.
#[verifier::ext_equal]
pub struct StationId {
    pub callsign: Seq<char>,
    pub grid: Option<Seq<char>>,
    pub level: u8,
}

impl View for StationIdPayload {
    type V = StationId;

    open spec fn view(&self) -> StationId {
        StationId {
            callsign: self.callsign@,
            grid: match self.grid {
                Some(g) => Some(g@),
                None => None,
            },
            level: self.level,
        }
    }
}

/// The bytes of the grid field; a station without a grid sends none.
pub open spec fn grid_bytes(grid: Option<Seq<char>>) -> Seq<u8> {
    match grid {
        Some(g) => encode_utf8(g),
        None => seq![],
    }
}

/// `[callsign length][callsign][grid length][grid][level]`, or which field is
/// too long for its one-byte length.
pub open spec fn station_bytes(s: StationId) -> Result<Seq<u8>, StationIdError> {
    let c = encode_utf8(s.callsign);
    let g = grid_bytes(s.grid);
    if c.len() > 255 {
        Err(StationIdError::CallsignTooLong { len: c.len() as usize })
    } else if g.len() > 255 {
        Err(StationIdError::GridTooLong { len: g.len() as usize })
    } else {
        Ok(seq![c.len() as u8] + c + seq![g.len() as u8] + g + seq![s.level])
    }
}

/// What the bytes of a station identification say, or the first thing wrong
/// with them. Bytes after the level are ignored.
pub open spec fn parse_station(b: Seq<u8>) -> Result<StationId, StationIdError> {
    if b.len() == 0 {
        Err(StationIdError::Empty)
    } else {
        let callsign_end = 1 + b[0] as int;
        if b.len() < callsign_end + 1 {
            Err(StationIdError::TruncatedCallsign)
        } else if !valid_utf8(b.subrange(1, callsign_end)) {
            Err(StationIdError::InvalidCallsignText)
        } else {
            let grid_start = callsign_end + 1;
            let grid_end = grid_start + b[callsign_end] as int;
            if b.len() < grid_end + 1 {
                Err(StationIdError::TruncatedGrid)
            } else if b[callsign_end] > 0 && !valid_utf8(b.subrange(grid_start, grid_end)) {
                Err(StationIdError::InvalidGridText)
            } else {
                Ok(
                    StationId {
                        callsign: decode_utf8(b.subrange(1, callsign_end)),
                        grid: if b[callsign_end] == 0 {
                            None
                        } else {
                            Some(decode_utf8(b.subrange(grid_start, grid_end)))
                        },
                        level: b[grid_end],
                    },
                )
            }
        }
    }
}

impl StationIdPayload {
    /// Serialize to bytes. A callsign or grid of more than 255 bytes is an
    /// error.
    pub fn to_bytes(&self) -> (r: Result<Vec<u8>, StationIdError>)
        ensures
            match r {
                Ok(v) => station_bytes(self@) == Ok::<Seq<u8>, StationIdError>(v@),
                Err(e) => station_bytes(self@) == Err::<Seq<u8>, StationIdError>(e),
            },
    {
        let empty: [u8; 0] = [];
        let callsign = self.callsign.as_str().as_bytes();
        let grid: &[u8] = match &self.grid {
            Some(g) => g.as_str().as_bytes(),
            None => &empty,
        };
        assert(grid@ =~= grid_bytes(self@.grid));
        if callsign.len() > 255 {
            return Err(StationIdError::CallsignTooLong { len: callsign.len() });
        }
        if grid.len() > 255 {
            return Err(StationIdError::GridTooLong { len: grid.len() });
        }
        let mut out: Vec<u8> = Vec::new();
        out.push(callsign.len() as u8);
        out.extend_from_slice(callsign);
        out.push(grid.len() as u8);
        out.extend_from_slice(grid);
        out.push(self.level);
        assert(out@ =~= station_bytes(self@).unwrap());
        Ok(out)
    }

    /// Deserialize from bytes.
    pub fn from_bytes(bytes: &[u8]) -> (r: Result<Self, StationIdError>)
        ensures
            match r {
                Ok(p) => parse_station(bytes@) == Ok::<StationId, StationIdError>(p@),
                Err(e) => parse_station(bytes@) == Err::<StationId, StationIdError>(e),
            },
    {
        if bytes.len() == 0 {
            return Err(StationIdError::Empty);
        }
        let callsign_len: usize = bytes[0] as usize;
        let callsign_end: usize = 1 + callsign_len;
        if bytes.len() < callsign_end + 1 {
            return Err(StationIdError::TruncatedCallsign);
        }
        let callsign = match crate::text::utf8_text(
            vstd::slice::slice_subrange(bytes, 1, callsign_end),
        ) {
            Some(s) => s,
            None => {
                return Err(StationIdError::InvalidCallsignText);
            },
        };
        let grid_len: usize = bytes[callsign_end] as usize;
        let grid_start: usize = callsign_end + 1;
        let grid_end: usize = grid_start + grid_len;
        if bytes.len() < grid_end + 1 {
            return Err(StationIdError::TruncatedGrid);
        }
        let grid: Option<String> = if grid_len == 0 {
            None
        } else {
            match crate::text::utf8_text(
                vstd::slice::slice_subrange(bytes, grid_start, grid_end),
            ) {
                Some(s) => Some(s),
                None => {
                    return Err(StationIdError::InvalidGridText);
                },
            }
        };
        Ok(StationIdPayload { callsign, grid, level: bytes[grid_end] })
    }
}

proof fn lemma_char_roundtrip(c: char)
    requires
        code_of_char(c) is Some,
    ensures
        1 <= code_of_char(c).unwrap() <= 38,
        char_of_code(code_of_char(c).unwrap()) == Some(c),
{
}

/// The charset is a one-to-one correspondence: a character's number stands for
/// that character, and a number's character has that number.
pub proof fn law_charset_roundtrip(c: char, code: u8)
    ensures
        code_of_char(c) is Some ==> char_of_code(code_of_char(c).unwrap()) == Some(c),
        char_of_code(code) is Some ==> code_of_char(char_of_code(code).unwrap()) == Some(code),
{
    if code_of_char(c) is Some {
        lemma_char_roundtrip(c);
    }
}

proof fn lemma_text_of_codes(text: Seq<char>, i: int)
    requires
        valid_callsign(text),
        0 <= i <= 8,
    ensures
        text_of_codes(codes_of(text).skip(i)) == Ok::<Seq<char>, MacError>(
            if i < text.len() {
                text.skip(i)
            } else {
                seq![]
            },
        ),
    decreases 8 - i,
{
    let codes = codes_of(text);
    let s = codes.skip(i);
    if i < 8 {
        lemma_text_of_codes(text, i + 1);
        assert(s[0] == codes[i]);
        assert(s.skip(1) =~= codes.skip(i + 1));
        if i < text.len() {
            assert(code_of_char(text[i]) is Some);
            lemma_char_roundtrip(text[i]);
            if i + 1 < text.len() {
                assert(seq![text[i]] + text.skip(i + 1) =~= text.skip(i));
            } else {
                assert(seq![text[i]] + seq![] =~= text.skip(i));
            }
        }
    }
}

proof fn lemma_quad(c0: u8, c1: u8, c2: u8, c3: u8)
    requires
        c0 < 64,
        c1 < 64,
        c2 < 64,
        c3 < 64,
    ensures
        ({
            let p = pack_quad(c0, c1, c2, c3);
            p.len() == 3 && unpack_quad(p[0], p[1], p[2]) == seq![c0, c1, c2, c3]
        }),
{
    reveal(pack_quad);
    reveal(unpack_quad);
    let p = pack_quad(c0, c1, c2, c3);
    let (x, y) = (c1 / 16, c1 % 16);
    let (u, v) = (c2 / 4, c2 % 4);
    assert(p[0] == c0 * 4 + x && x < 4);
    assert(p[1] == y * 16 + u && u < 16);
    assert(p[2] == v * 64 + c3);
    assert(p[0] / 4 == c0 && p[0] % 4 == x);
    assert(p[1] / 16 == y && p[1] % 16 == u);
    assert(p[2] / 64 == v && p[2] % 64 == c3);
    assert(x * 16 + y == c1 && u * 4 + v == c2);
    assert(unpack_quad(p[0], p[1], p[2]) =~= seq![c0, c1, c2, c3]);
}

/// Every callsign survives its six bytes.
pub proof fn law_callsign_roundtrip(text: Seq<char>)
    requires
        valid_callsign(text),
    ensures
        callsign_bytes(text).len() == 6,
        parse_callsign(callsign_bytes(text)) == Ok::<Seq<char>, MacError>(text),
{
    let c = codes_of(text);
    assert forall|k: int| 0 <= k < 8 implies c[k] < 64 by {
        if k < text.len() {
            assert(code_of_char(text[k]) is Some);
        }
    }
    lemma_quad(c[0], c[1], c[2], c[3]);
    lemma_quad(c[4], c[5], c[6], c[7]);
    assert(seq![c[0], c[1], c[2], c[3]] + seq![c[4], c[5], c[6], c[7]] =~= c);
    lemma_text_of_codes(text, 0);
    assert(c.skip(0) =~= c);
    assert(text.skip(0) =~= text);
    assert(text.len() == 0 ==> text =~= seq![]);
}

/// A text that is accepted as a callsign gives a valid one.
pub proof fn law_accepted_callsign_is_valid(s: Seq<char>)
    requires
        callsign_of(s) is Ok,
    ensures
        valid_callsign(callsign_of(s).unwrap()),
{
    let upper = crate::text::uppercase(s);
    lemma_first_invalid(upper);
    lemma_callsign_ascii(upper);
}

proof fn lemma_text_of_codes_valid(codes: Seq<u8>)
    requires
        text_of_codes(codes) is Ok,
    ensures
        text_of_codes(codes).unwrap().len() <= codes.len(),
        forall|i: int|
            0 <= i < text_of_codes(codes).unwrap().len() ==> code_of_char(
                #[trigger] text_of_codes(codes).unwrap()[i],
            ) is Some,
    decreases codes.len(),
{
    if codes.len() != 0 && codes[0] != 0 {
        lemma_text_of_codes_valid(codes.skip(1));
        let t = text_of_codes(codes).unwrap();
        assert forall|i: int| 0 <= i < t.len() implies code_of_char(#[trigger] t[i]) is Some by {
            if i > 0 {
                assert(t[i] == text_of_codes(codes.skip(1)).unwrap()[i - 1]);
            }
        }
    }
}

/// Six bytes that decode give a valid callsign.
pub proof fn law_decoded_callsign_is_valid(b: Seq<u8>)
    requires
        parse_callsign(b) is Ok,
    ensures
        valid_callsign(parse_callsign(b).unwrap()),
{
    reveal(unpack_quad);
    lemma_text_of_codes_valid(
        unpack_quad(b[0], b[1], b[2]) + unpack_quad(b[3], b[4], b[5]),
    );
}

/// Where the parts of a MAC PDU lie in its wire form.
proof fn lemma_mac_layout(b0: u8, dest: Seq<u8>, src: Seq<u8>, ssid: u8, payload: Seq<u8>)
    requires
        dest.len() == 6,
        src.len() == 6,
    ensures
        ({
            let b = seq![b0] + dest + src + seq![ssid] + payload;
            &&& b.len() == 14 + payload.len()
            &&& b[0] == b0
            &&& b.subrange(1, 7) == dest
            &&& b.subrange(7, 13) == src
            &&& b[13] == ssid
            &&& b.skip(14) == payload
        }),
{
    let b = seq![b0] + dest + src + seq![ssid] + payload;
    assert(b.subrange(1, 7) =~= dest);
    assert(b.subrange(7, 13) =~= src);
    assert(b.skip(14) =~= payload);
}

/// The first byte of the wire form holds version and frame type.
proof fn lemma_first_byte(version: u8, t: MacFrameType)
    ensures
        ({
            let b0 = (version % 16 * 16 + frame_type_code(t)) as u8;
            &&& frame_type_of(b0) == Some(t)
            &&& b0 / 16 == version % 16
        }),
{
    let v: int = (version % 16) as int;
    let c: int = frame_type_code(t) as int;
    let b0 = (version % 16 * 16 + frame_type_code(t)) as u8;
    assert(0 <= c <= 8);
    assert(b0 == v * 16 + c);
    assert(b0 % 16 == c);
    assert(b0 / 16 == v);
}

/// What is read from the parts of the wire form.
proof fn lemma_mac_parts(b0: u8, dest: Seq<u8>, src: Seq<u8>, ssid: u8, m: MacContent)
    requires
        dest.len() == 6,
        src.len() == 6,
        frame_type_of(b0) == Some(m.frame_type),
        parse_callsign(dest) == Ok::<Seq<char>, MacError>(m.dest),
        parse_callsign(src) == Ok::<Seq<char>, MacError>(m.src),
        b0 / 16 == m.version,
        ssid % 16 == m.ssid,
    ensures
        parse_mac(seq![b0] + dest + src + seq![ssid] + m.payload) == Ok::<MacContent, MacError>(m),
{
    lemma_mac_layout(b0, dest, src, ssid, m.payload);
}

/// Every MAC PDU survives the wire, up to the four bits that version and SSID
/// have.
pub proof fn law_mac_roundtrip(m: MacContent)
    requires
        valid_callsign(m.dest),
        valid_callsign(m.src),
    ensures
        parse_mac(mac_bytes(m)) == Ok::<MacContent, MacError>(
            MacContent { version: m.version % 16, ssid: m.ssid % 16, ..m },
        ),
{
    let b0 = (m.version % 16 * 16 + frame_type_code(m.frame_type)) as u8;
    law_callsign_roundtrip(m.dest);
    law_callsign_roundtrip(m.src);
    lemma_first_byte(m.version, m.frame_type);
    let read = MacContent { version: m.version % 16, ssid: m.ssid % 16, ..m };
    lemma_mac_parts(b0, callsign_bytes(m.dest), callsign_bytes(m.src), m.ssid % 16, read);
}

/// Every station identification that can be encoded survives, but for an
/// empty grid, which stands for no grid.
pub proof fn law_station_roundtrip(s: StationId)
    requires
        station_bytes(s) is Ok,
        s.grid != Some(Seq::<char>::empty()),
    ensures
        parse_station(station_bytes(s).unwrap()) == Ok::<StationId, StationIdError>(s),
{
    let b = station_bytes(s).unwrap();
    let c = encode_utf8(s.callsign);
    let g = grid_bytes(s.grid);
    encode_utf8_valid_utf8(s.callsign);
    encode_utf8_decode_utf8(s.callsign);
    assert(b.subrange(1, (1 + c.len()) as int) =~= c);
    let start = 2 + c.len();
    assert(b.subrange(start as int, (start + g.len()) as int) =~= g);
    if s.grid is Some {
        let t = s.grid.unwrap();
        encode_utf8_valid_utf8(t);
        encode_utf8_decode_utf8(t);
        if g.len() == 0 {
            assert(decode_utf8(g) =~= seq![]);
            assert(t =~= seq![]);
            assert(false);
        }
    }
    assert(parse_station(b).unwrap() =~= s);
}

/// An empty grid is read back as no grid.
pub proof fn law_station_empty_grid(s: StationId)
    requires
        station_bytes(s) is Ok,
        s.grid == Some(Seq::<char>::empty()),
    ensures
        parse_station(station_bytes(s).unwrap()) == Ok::<StationId, StationIdError>(
            StationId { grid: None, ..s },
        ),
{
    let none = StationId { grid: None, ..s };
    assert(grid_bytes(s.grid) =~= grid_bytes(none.grid));
    assert(station_bytes(s) == station_bytes(none));
    law_station_roundtrip(none);
}

/// The frame types have the numbers 0 to 8, and the low nibble of a byte names
/// the type with its number.
pub proof fn law_frame_type_numbers(t: MacFrameType, val: u8)
    ensures
        frame_type_code(MacFrameType::Data) == 0,
        frame_type_code(MacFrameType::Ack) == 1,
        frame_type_code(MacFrameType::ConnectReq) == 2,
        frame_type_code(MacFrameType::ConnectAck) == 3,
        frame_type_code(MacFrameType::ConnectCfm) == 4,
        frame_type_code(MacFrameType::Disconnect) == 5,
        frame_type_code(MacFrameType::Beacon) == 6,
        frame_type_code(MacFrameType::Keepalive) == 7,
        frame_type_code(MacFrameType::Relay) == 8,
        (frame_type_of(val) == Some(t)) == (frame_type_code(t) == val % 16),
        frame_type_of(val) is None == (val % 16 > 8),
{
}

/// The charset: `A` to `Z` are 1 to 26, `0` to `9` are 27 to 36, `/` is 37, `-`
/// is 38, and no other character has a number, nor any other number a
/// character.
pub proof fn law_charset(c: char, code: u8)
    ensures
        'A' <= c <= 'Z' ==> code_of_char(c) == Some((1 + (c as int - 'A' as int)) as u8),
        '0' <= c <= '9' ==> code_of_char(c) == Some((27 + (c as int - '0' as int)) as u8),
        c == '/' ==> code_of_char(c) == Some(37u8),
        c == '-' ==> code_of_char(c) == Some(38u8),
        !('A' <= c <= 'Z') && !('0' <= c <= '9') && c != '/' && c != '-' ==> code_of_char(
            c,
        ) is None,
        char_of_code(code) is Some == (1 <= code <= 38),
        (code_of_char(c) == Some(code)) == (char_of_code(code) == Some(c)),
{
    law_charset_roundtrip(c, code);
}

/// A callsign's six bytes are its eight numbers of six bits, one after the
/// other, the first at the top; what is missing at the end is zero.
pub proof fn law_callsign_bytes(text: Seq<char>)
    requires
        valid_callsign(text),
    ensures
        ({
            let b = callsign_bytes(text);
            let c = |i: int|
                if i < text.len() {
                    code_of_char(text[i]).unwrap() as int
                } else {
                    0
                };
            &&& b.len() == 6
            &&& b[0] * 65536 + b[1] * 256 + b[2] == c(0) * 262144 + c(1) * 4096 + c(2) * 64 + c(3)
            &&& b[3] * 65536 + b[4] * 256 + b[5] == c(4) * 262144 + c(5) * 4096 + c(6) * 64 + c(7)
        }),
{
    let c = codes_of(text);
    assert forall|k: int| 0 <= k < 8 implies c[k] < 64 by {
        if k < text.len() {
            assert(code_of_char(text[k]) is Some);
        }
    }
    lemma_quad_number(c[0], c[1], c[2], c[3]);
    lemma_quad_number(c[4], c[5], c[6], c[7]);
    let b = callsign_bytes(text);
    let first = pack_quad(c[0], c[1], c[2], c[3]);
    let second = pack_quad(c[4], c[5], c[6], c[7]);
    assert(b[0] == first[0] && b[1] == first[1] && b[2] == first[2]);
    assert(b[3] == second[0] && b[4] == second[1] && b[5] == second[2]);
}

proof fn lemma_quad_number(c0: u8, c1: u8, c2: u8, c3: u8)
    requires
        c0 < 64,
        c1 < 64,
        c2 < 64,
        c3 < 64,
    ensures
        ({
            let p = pack_quad(c0, c1, c2, c3);
            &&& p.len() == 3
            &&& p[0] * 65536 + p[1] * 256 + p[2] == c0 * 262144 + c1 * 4096 + c2 * 64 + c3
        }),
{
    reveal(pack_quad);
    let p = pack_quad(c0, c1, c2, c3);
    let (x, y) = (c1 / 16, c1 % 16);
    let (u, v) = (c2 / 4, c2 % 4);
    assert(p[0] == c0 * 4 + x);
    assert(p[1] == y * 16 + u);
    assert(p[2] == v * 64 + c3);
}

/// What six bytes say, by their eight numbers of six bits: the first `n` of
/// them are characters, and the next one, if there is one, is zero and ends the
/// text, or stands for no character and is reported.
pub proof fn law_callsign_is_read(b: Seq<u8>, codes: Seq<u8>, n: int)
    requires
        b.len() == 6,
        codes.len() == 8,
        forall|k: int| 0 <= k < 8 ==> #[trigger] codes[k] < 64,
        b[0] * 65536 + b[1] * 256 + b[2] == codes[0] * 262144 + codes[1] * 4096 + codes[2] * 64
            + codes[3],
        b[3] * 65536 + b[4] * 256 + b[5] == codes[4] * 262144 + codes[5] * 4096 + codes[6] * 64
            + codes[7],
        0 <= n <= 8,
        forall|k: int| 0 <= k < n ==> 1 <= #[trigger] codes[k] <= 38,
        n < 8 ==> codes[n] == 0 || codes[n] > 38,
    ensures
        n < 8 && codes[n] > 38 ==> parse_callsign(b) == Err::<Seq<char>, MacError>(
            MacError::InvalidCode { code: codes[n] },
        ),
        n == 8 || codes[n] == 0 ==> parse_callsign(b) is Ok && parse_callsign(b).unwrap().len() == n
            && forall|k: int|
            0 <= k < n ==> code_of_char(#[trigger] parse_callsign(b).unwrap()[k]) == Some(codes[k]),
{
    lemma_quad_parts(b[0], b[1], b[2], codes[0], codes[1], codes[2], codes[3]);
    lemma_quad_parts(b[3], b[4], b[5], codes[4], codes[5], codes[6], codes[7]);
    assert(unpack_quad(b[0], b[1], b[2]) + unpack_quad(b[3], b[4], b[5]) =~= codes);
    lemma_codes_are_read(codes, n);
}

proof fn lemma_quad_parts(b0: u8, b1: u8, b2: u8, c0: u8, c1: u8, c2: u8, c3: u8)
    requires
        c0 < 64,
        c1 < 64,
        c2 < 64,
        c3 < 64,
        b0 * 65536 + b1 * 256 + b2 == c0 * 262144 + c1 * 4096 + c2 * 64 + c3,
    ensures
        unpack_quad(b0, b1, b2) == seq![c0, c1, c2, c3],
{
    reveal(unpack_quad);
    let (d0, x) = (b0 / 4, b0 % 4);
    let (y, z) = (b1 / 16, b1 % 16);
    let (w, d3) = (b2 / 64, b2 % 64);
    let d1 = x * 16 + y;
    let d2 = z * 4 + w;
    assert(b0 == 4 * d0 + x && b1 == 16 * y + z && b2 == 64 * w + d3);
    assert(0 <= d1 < 64 && 0 <= d2 < 64 && d3 < 64);
    lemma_digits(d0 as int, d1, d2, d3 as int, c0 as int, c1 as int, c2 as int, c3 as int);
    assert(unpack_quad(b0, b1, b2) =~= seq![c0, c1, c2, c3]);
}

/// A number has one way to be written with four digits of six bits.
proof fn lemma_digits(
    d0: int,
    d1: int,
    d2: int,
    d3: int,
    c0: int,
    c1: int,
    c2: int,
    c3: int,
)
    requires
        0 <= d0 < 64 && 0 <= d1 < 64 && 0 <= d2 < 64 && 0 <= d3 < 64,
        0 <= c0 < 64 && 0 <= c1 < 64 && 0 <= c2 < 64 && 0 <= c3 < 64,
        d0 * 262144 + d1 * 4096 + d2 * 64 + d3 == c0 * 262144 + c1 * 4096 + c2 * 64 + c3,
    ensures
        d0 == c0 && d1 == c1 && d2 == c2 && d3 == c3,
{
    assert(d0 == c0);
    assert(d1 == c1);
    assert(d2 == c2);
}

proof fn lemma_codes_are_read(codes: Seq<u8>, n: int)
    requires
        0 <= n <= codes.len(),
        forall|k: int| 0 <= k < n ==> 1 <= #[trigger] codes[k] <= 38,
        n < codes.len() ==> codes[n] == 0 || codes[n] > 38,
    ensures
        n < codes.len() && codes[n] > 38 ==> text_of_codes(codes) == Err::<Seq<char>, MacError>(
            MacError::InvalidCode { code: codes[n] },
        ),
        n == codes.len() || codes[n] == 0 ==> text_of_codes(codes) is Ok && text_of_codes(
            codes,
        ).unwrap().len() == n && forall|k: int|
            0 <= k < n ==> code_of_char(#[trigger] text_of_codes(codes).unwrap()[k]) == Some(
                codes[k],
            ),
    decreases n,
{
    if n > 0 {
        let rest = codes.skip(1);
        assert forall|k: int| 0 <= k < n - 1 implies 1 <= #[trigger] rest[k] <= 38 by {
            assert(rest[k] == codes[k + 1]);
        }
        lemma_codes_are_read(rest, n - 1);
        law_charset_roundtrip('A', codes[0]);
        if text_of_codes(codes) is Ok {
            let t = text_of_codes(codes).unwrap();
            assert forall|k: int| 0 <= k < t.len() implies code_of_char(#[trigger] t[k]) == Some(
                codes[k],
            ) by {
                if k > 0 {
                    assert(t[k] == text_of_codes(rest).unwrap()[k - 1]);
                    assert(rest[k - 1] == codes[k]);
                }
            }
        }
    }
}

/// What an uppercase text gives: a callsign, where it takes at most eight bytes
/// and every character has a number; else the length, or the first character
/// without one.
pub proof fn law_callsign_is_checked(upper: Seq<char>, i: int)
    ensures
        encode_utf8(upper).len() > 8 ==> callsign_of_upper(upper) == Err::<Seq<char>, MacError>(
            MacError::CallsignTooLong { len: encode_utf8(upper).len() as usize },
        ),
        encode_utf8(upper).len() <= 8 && (forall|k: int|
            0 <= k < upper.len() ==> code_of_char(#[trigger] upper[k]) is Some)
            ==> callsign_of_upper(upper) == Ok::<Seq<char>, MacError>(upper),
        encode_utf8(upper).len() <= 8 && 0 <= i < upper.len() && code_of_char(upper[i]) is None && (
        forall|k: int| 0 <= k < i ==> code_of_char(#[trigger] upper[k]) is Some)
            ==> callsign_of_upper(upper) == Err::<Seq<char>, MacError>(
            MacError::InvalidCharacter { ch: upper[i] },
        ),
{
    lemma_first_invalid(upper);
    if 0 <= i < upper.len() && code_of_char(upper[i]) is None && (forall|k: int|
        0 <= k < i ==> code_of_char(#[trigger] upper[k]) is Some) {
        lemma_first_invalid_at(upper, i);
    }
}

proof fn lemma_first_invalid_at(text: Seq<char>, i: int)
    requires
        0 <= i < text.len(),
        code_of_char(text[i]) is None,
        forall|k: int| 0 <= k < i ==> code_of_char(#[trigger] text[k]) is Some,
    ensures
        first_invalid(text) == Some(text[i]),
    decreases i,
{
    if i > 0 {
        let rest = text.skip(1);
        assert(code_of_char(text[0]) is Some);
        assert forall|k: int| 0 <= k < i - 1 implies code_of_char(#[trigger] rest[k]) is Some by {
            assert(rest[k] == text[k + 1]);
        }
        lemma_first_invalid_at(rest, i - 1);
    }
}

/// Where the fields of a MAC PDU stand: version and frame type in the first
/// byte, six bytes for each callsign, the SSID, and the payload from byte 14
/// on.
pub proof fn law_mac_layout(m: MacContent)
    requires
        valid_callsign(m.dest),
        valid_callsign(m.src),
    ensures
        ({
            let b = mac_bytes(m);
            &&& b.len() == 14 + m.payload.len()
            &&& b[0] / 16 == m.version % 16
            &&& b[0] % 16 == frame_type_code(m.frame_type)
            &&& b.subrange(1, 7) == callsign_bytes(m.dest)
            &&& b.subrange(7, 13) == callsign_bytes(m.src)
            &&& b[13] == m.ssid % 16
            &&& b.skip(14) == m.payload
        }),
{
    let b0 = (m.version % 16 * 16 + frame_type_code(m.frame_type)) as u8;
    law_callsign_roundtrip(m.dest);
    law_callsign_roundtrip(m.src);
    lemma_first_byte(m.version, m.frame_type);
    lemma_mac_layout(
        b0,
        callsign_bytes(m.dest),
        callsign_bytes(m.src),
        m.ssid % 16,
        m.payload,
    );
}

/// Which bytes are a MAC PDU, and what is reported of those that are none: the
/// length first, then the frame type, the destination and the source.
pub proof fn law_mac_is_read(b: Seq<u8>)
    ensures
        b.len() < 14 ==> parse_mac(b) == Err::<MacContent, MacError>(
            MacError::TooShort { len: b.len() as usize },
        ),
        b.len() >= 14 && b[0] % 16 > 8 ==> parse_mac(b) == Err::<MacContent, MacError>(
            MacError::UnknownFrameType { code: b[0] % 16 },
        ),
        b.len() >= 14 && b[0] % 16 <= 8 ==> match (
            parse_callsign(b.subrange(1, 7)),
            parse_callsign(b.subrange(7, 13)),
        ) {
            (Ok(dest), Ok(src)) => {
                &&& parse_mac(b) is Ok
                &&& parse_mac(b).unwrap().version == b[0] / 16
                &&& frame_type_code(parse_mac(b).unwrap().frame_type) == b[0] % 16
                &&& parse_mac(b).unwrap().dest == dest
                &&& parse_mac(b).unwrap().src == src
                &&& parse_mac(b).unwrap().ssid == b[13] % 16
                &&& parse_mac(b).unwrap().payload == b.subrange(14, b.len() as int)
            },
            (Err(e), _) => parse_mac(b) == Err::<MacContent, MacError>(e),
            (Ok(_), Err(e)) => parse_mac(b) == Err::<MacContent, MacError>(e),
        },
{
    if b.len() >= 14 {
        assert(b.skip(14) =~= b.subrange(14, b.len() as int));
    }
}

/// Where the fields of a station identification stand, and when there is none:
/// a callsign or a grid of more than 255 bytes.
pub proof fn law_station_layout(s: StationId)
    ensures
        ({
            let c = encode_utf8(s.callsign);
            let g = if s.grid is Some {
                encode_utf8(s.grid.unwrap())
            } else {
                Seq::<u8>::empty()
            };
            let r = station_bytes(s);
            let m = c.len() as int;
            let n = g.len() as int;
            &&& c.len() > 255 ==> r == Err::<Seq<u8>, StationIdError>(
                StationIdError::CallsignTooLong { len: c.len() as usize },
            )
            &&& c.len() <= 255 && g.len() > 255 ==> r == Err::<Seq<u8>, StationIdError>(
                StationIdError::GridTooLong { len: g.len() as usize },
            )
            &&& c.len() <= 255 && g.len() <= 255 ==> {
                &&& r is Ok
                &&& r.unwrap().len() == m + n + 3
                &&& r.unwrap()[0] == m
                &&& r.unwrap().subrange(1, 1 + m) == c
                &&& r.unwrap()[1 + m] == n
                &&& r.unwrap().subrange(2 + m, 2 + m + n) == g
                &&& r.unwrap()[2 + m + n] == s.level
            }
        }),
{
    let c = encode_utf8(s.callsign);
    let g = grid_bytes(s.grid);
    if c.len() <= 255 && g.len() <= 255 {
        let b = station_bytes(s).unwrap();
        let m = c.len() as int;
        let n = g.len() as int;
        assert(b.subrange(1, 1 + m) =~= c);
        assert(b.subrange(2 + m, 2 + m + n) =~= g);
    }
}

/// What the bytes of a station identification say, by the lengths of its two
/// fields.
pub proof fn law_station_is_read(b: Seq<u8>, c: int, g: int)
    ensures
        (parse_station(b) == Err::<StationId, StationIdError>(StationIdError::Empty)) == (b.len()
            == 0),
        b.len() > 0 && b.len() < 2 + b[0] ==> parse_station(b) == Err::<StationId, StationIdError>(
            StationIdError::TruncatedCallsign,
        ),
        b.len() > 0 && c == b[0] && b.len() >= 2 + c ==> {
            let text = b.subrange(1, 1 + c);
            &&& !valid_utf8(text) ==> parse_station(b) == Err::<StationId, StationIdError>(
                StationIdError::InvalidCallsignText,
            )
            &&& valid_utf8(text) && b.len() < 3 + c + b[1 + c] ==> parse_station(b) == Err::<
                StationId,
                StationIdError,
            >(StationIdError::TruncatedGrid)
            &&& valid_utf8(text) && g == b[1 + c] && b.len() >= 3 + c + g ==> {
                let grid = b.subrange(2 + c, 2 + c + g);
                &&& g > 0 && !valid_utf8(grid) ==> parse_station(b) == Err::<
                    StationId,
                    StationIdError,
                >(StationIdError::InvalidGridText)
                &&& g == 0 || valid_utf8(grid) ==> {
                    &&& parse_station(b) is Ok
                    &&& parse_station(b).unwrap().callsign == decode_utf8(text)
                    &&& parse_station(b).unwrap().level == b[2 + c + g]
                    &&& g == 0 ==> parse_station(b).unwrap().grid is None
                    &&& g > 0 ==> parse_station(b).unwrap().grid == Some(decode_utf8(grid))
                }
            }
        },
{
}

} // verus!
