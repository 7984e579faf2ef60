//! Application layer protocol data unit.
//!
//! ```text
//! [protocol 4b | compression 2b | fragment flags 2b][id][index][total][payload]
//! ```
//!
//! The unit carries the application protocol, says how the payload is
//! compressed, and splits payloads that exceed a single transport segment into
//! fragments.
use vstd::prelude::*;

verus! {

/// Application protocol identifiers.
#[derive(Debug, Clone, Copy, PartialEq, Eq, Hash, Structural)]
pub enum AppProtocol {
    /// Plain text message.
    Text,
    /// Position report (GPS coordinates, APRS-like).
    Position,
    /// Telemetry data.
    Telemetry,
    /// File transfer.
    FileTransfer,
    /// Voice codec frame (Codec2 or similar).
    Voice,
    /// Control / management messages.
    Control,
    /// Custom / user-defined protocol.
    Custom,
    /// Compressed data (protocol in payload header).
    CompressedData,
}

/// Compression method indicator (2 bits).
#[derive(Debug, Clone, Copy, PartialEq, Eq, Hash, Structural)]
pub enum Compression {
    /// No compression.
    Uncompressed,
    /// DEFLATE (zlib).
    Deflate,
    /// LZ4.
    Lz4,
    /// Reserved for future use.
    Reserved,
}

/// Fragmentation flags (2 bits).
#[derive(Debug, Clone, Copy, PartialEq, Eq, Hash, Structural)]
pub enum FragFlags {
    /// Complete (unfragmented) PDU.
    Complete,
    /// First fragment of a sequence.
    First,
    /// Middle fragment (more to follow).
    Middle,
    /// Last fragment of a sequence.
    Last,
}

/// Why bytes are not an application PDU.
#[derive(Debug, Clone, Copy, PartialEq, Eq, Structural)]
pub enum AppError {
    /// Fewer bytes than the header takes.
    TooShort { len: usize },
    /// The protocol nibble names no protocol.
    UnknownProtocol { code: u8 },
}

/// Why fragments do not make up a payload.
#[derive(Debug, Clone, Copy, PartialEq, Eq, Structural)]
pub enum ReassembleError {
    /// There is nothing to reassemble.
    NoFragments,
    /// The first fragment is not flagged as the first.
    FirstFlagMissing,
    /// The last fragment is not flagged as the last.
    LastFlagMissing,
    /// The announced number of fragments is not the number at hand.
    CountMismatch { frag_total: u8, count: usize },
    /// A fragment belongs to another message.
    IdMismatch { index: usize, expected: u8, got: u8 },
    /// A fragment is out of place.
    IndexMismatch { index: usize, got: u8 },
    /// A fragment announces another number of fragments.
    TotalMismatch { index: usize, expected: u8, got: u8 },
    /// A fragment's flags do not fit its place.
    FlagsMismatch { index: usize, expected_flags: FragFlags, flags: FragFlags },
}

/// The number that stands for a protocol on the wire.
pub open spec fn protocol_code(p: AppProtocol) -> u8 {
    match p {
        AppProtocol::Text => 0,
        AppProtocol::Position => 1,
        AppProtocol::Telemetry => 2,
        AppProtocol::FileTransfer => 3,
        AppProtocol::Voice => 4,
        AppProtocol::Control => 5,
        AppProtocol::Custom => 6,
        AppProtocol::CompressedData => 7,
    }
}

/// The protocol that the low nibble of a byte names.
pub open spec fn protocol_of(val: u8) -> Option<AppProtocol> {
    let v = val % 16;
    if v == 0 {
        Some(AppProtocol::Text)
    } else if v == 1 {
        Some(AppProtocol::Position)
    } else if v == 2 {
        Some(AppProtocol::Telemetry)
    } else if v == 3 {
        Some(AppProtocol::FileTransfer)
    } else if v == 4 {
        Some(AppProtocol::Voice)
    } else if v == 5 {
        Some(AppProtocol::Control)
    } else if v == 6 {
        Some(AppProtocol::Custom)
    } else if v == 7 {
        Some(AppProtocol::CompressedData)
    } else {
        None
    }
}

/// The number that stands for a compression method on the wire.
pub open spec fn compression_code(c: Compression) -> u8 {
    match c {
        Compression::Uncompressed => 0,
        Compression::Deflate => 1,
        Compression::Lz4 => 2,
        Compression::Reserved => 3,
    }
}

/// The compression method that the low two bits of a byte name.
pub open spec fn compression_of(val: u8) -> Compression {
    let v = val % 4;
    if v == 0 {
        Compression::Uncompressed
    } else if v == 1 {
        Compression::Deflate
    } else if v == 2 {
        Compression::Lz4
    } else {
        Compression::Reserved
    }
}

/// The number that stands for fragmentation flags on the wire.
pub open spec fn flags_code(f: FragFlags) -> u8 {
    match f {
        FragFlags::Complete => 0,
        FragFlags::First => 1,
        FragFlags::Middle => 2,
        FragFlags::Last => 3,
    }
}

/// The fragmentation flags that the low two bits of a byte name.
pub open spec fn flags_of(val: u8) -> FragFlags {
    let v = val % 4;
    if v == 0 {
        FragFlags::Complete
    } else if v == 1 {
        FragFlags::First
    } else if v == 2 {
        FragFlags::Middle
    } else {
        FragFlags::Last
    }
}

impl AppProtocol {
    /// The protocol that the low nibble of `val` names.
    pub fn from_u8(val: u8) -> (r: Result<Self, AppError>)
        ensures
            match protocol_of(val) {
                Some(p) => r == Ok::<AppProtocol, AppError>(p),
                None => r == Err::<AppProtocol, AppError>(
                    AppError::UnknownProtocol { code: val % 16 },
                ),
            },
    {
        match val % 16 {
            0 => Ok(AppProtocol::Text),
            1 => Ok(AppProtocol::Position),
            2 => Ok(AppProtocol::Telemetry),
            3 => Ok(AppProtocol::FileTransfer),
            4 => Ok(AppProtocol::Voice),
            5 => Ok(AppProtocol::Control),
            6 => Ok(AppProtocol::Custom),
            7 => Ok(AppProtocol::CompressedData),
            v => Err(AppError::UnknownProtocol { code: v }),
        }
    }

    /// The number that stands for the protocol on the wire.
    pub fn code(self) -> (v: u8)
        ensures
            v == protocol_code(self),
    {
        match self {
            AppProtocol::Text => 0,
            AppProtocol::Position => 1,
            AppProtocol::Telemetry => 2,
            AppProtocol::FileTransfer => 3,
            AppProtocol::Voice => 4,
            AppProtocol::Control => 5,
            AppProtocol::Custom => 6,
            AppProtocol::CompressedData => 7,
        }
    }
}

impl Compression {
    /// The compression method that the low two bits of `val` name.
    pub fn from_u8(val: u8) -> (r: Result<Self, AppError>)
        ensures
            r == Ok::<Compression, AppError>(compression_of(val)),
    {
        match val % 4 {
            0 => Ok(Compression::Uncompressed),
            1 => Ok(Compression::Deflate),
            2 => Ok(Compression::Lz4),
            _ => Ok(Compression::Reserved),
        }
    }

    /// The number that stands for the method on the wire.
    pub fn code(self) -> (v: u8)
        ensures
            v == compression_code(self),
    {
        match self {
            Compression::Uncompressed => 0,
            Compression::Deflate => 1,
            Compression::Lz4 => 2,
            Compression::Reserved => 3,
        }
    }
}

impl FragFlags {
    /// The flags that the low two bits of `val` name.
    pub fn from_u8(val: u8) -> (r: Result<Self, AppError>)
        ensures
            r == Ok::<FragFlags, AppError>(flags_of(val)),
    {
        match val % 4 {
            0 => Ok(FragFlags::Complete),
            1 => Ok(FragFlags::First),
            2 => Ok(FragFlags::Middle),
            _ => Ok(FragFlags::Last),
        }
    }

    /// The number that stands for the flags on the wire.
    pub fn code(self) -> (v: u8)
        ensures
            v == flags_code(self),
    {
        match self {
            FragFlags::Complete => 0,
            FragFlags::First => 1,
            FragFlags::Middle => 2,
            FragFlags::Last => 3,
        }
    }

    /// Whether this is a fragmented PDU (not complete).
    pub fn is_fragmented(&self) -> (r: bool)
        ensures
            r == (*self != FragFlags::Complete),
    {
        *self != FragFlags::Complete
    }
}

/// Application Protocol Data Unit.
#[derive(Debug, Clone)]
pub struct AppPdu {
    /// Application protocol identifier (4 bits).
    pub protocol: AppProtocol,
    /// Compression method (2 bits).
    pub compression: Compression,
    /// Fragmentation flags (2 bits).
    pub frag_flags: FragFlags,
    /// Groups the fragments of one message.
    pub frag_id: u8,
    /// Zero-based place of the fragment in its message.
    pub frag_index: u8,
    /// Number of fragments of the message.
    pub frag_total: u8,
    /// Application payload.
    pub payload: Vec<u8>,
}

/// Header size: protocol, compression and flags in one byte, then the fragment
/// id, index and total.
pub const APP_HEADER_SIZE: usize = 4;

/// What an [`AppPdu`] says, with the payload as a mathematical sequence.
#[verifier::ext_equal]
pub struct AppContent {
    pub protocol: AppProtocol,
    pub compression: Compression,
    pub frag_flags: FragFlags,
    pub frag_id: u8,
    pub frag_index: u8,
    pub frag_total: u8,
    pub payload: Seq<u8>,
}

impl View for AppPdu {
    type V = AppContent;

    open spec fn view(&self) -> AppContent {
        AppContent {
            protocol: self.protocol,
            compression: self.compression,
            frag_flags: self.frag_flags,
            frag_id: self.frag_id,
            frag_index: self.frag_index,
            frag_total: self.frag_total,
            payload: self.payload@,
        }
    }
}

/// The contents of a list of PDUs, in order.
pub open spec fn contents(pdus: Seq<AppPdu>) -> Seq<AppContent> {
    pdus.map_values(|p: AppPdu| p@)
}

/// A message that travels in one piece.
pub open spec fn complete(
    protocol: AppProtocol,
    compression: Compression,
    frag_id: u8,
    payload: Seq<u8>,
) -> AppContent {
    AppContent {
        protocol,
        compression,
        frag_flags: FragFlags::Complete,
        frag_id,
        frag_index: 0,
        frag_total: 1,
        payload,
    }
}

/// The first byte of the wire form.
pub open spec fn header_byte(c: AppContent) -> int {
    protocol_code(c.protocol) * 16 + compression_code(c.compression) * 4 + flags_code(c.frag_flags)
}

/// The wire form of a PDU.
pub open spec fn app_bytes(c: AppContent) -> Seq<u8> {
    seq![header_byte(c) as u8, c.frag_id, c.frag_index, c.frag_total] + c.payload
}

/// What bytes from the wire say: a PDU, or the reason why they are none.
pub open spec fn parse_app(bytes: Seq<u8>) -> Result<AppContent, AppError> {
    if bytes.len() < APP_HEADER_SIZE {
        Err(AppError::TooShort { len: bytes.len() as usize })
    } else {
        match protocol_of(bytes[0] / 16) {
            None => Err(AppError::UnknownProtocol { code: bytes[0] / 16 }),
            Some(protocol) => Ok(
                AppContent {
                    protocol,
                    compression: compression_of(bytes[0] / 4),
                    frag_flags: flags_of(bytes[0]),
                    frag_id: bytes[1],
                    frag_index: bytes[2],
                    frag_total: bytes[3],
                    payload: bytes.skip(4),
                },
            ),
        }
    }
}

/// Number of chunks of at most `max` bytes that `len` bytes fill.
pub open spec fn chunk_count(len: nat, max: nat) -> nat {
    if len == 0 || max == 0 {
        0
    } else {
        ((len - 1) / (max as int) + 1) as nat
    }
}

/// Where the chunk `i` ends.
pub open spec fn chunk_end(len: nat, max: nat, i: int) -> int {
    if (i + 1) * max < len {
        (i + 1) * max
    } else {
        len as int
    }
}

/// The bytes of chunk `i`.
pub open spec fn chunk(payload: Seq<u8>, max: nat, i: int) -> Seq<u8> {
    payload.subrange(i * max, chunk_end(payload.len(), max, i))
}

/// The flags of the fragment `i` of `count`.
pub open spec fn flags_at(i: int, count: nat) -> FragFlags {
    if i == 0 {
        FragFlags::First
    } else if i == count - 1 {
        FragFlags::Last
    } else {
        FragFlags::Middle
    }
}

/// The low eight bits of a number: the header has one byte for an index or a
/// total.
pub open spec fn low_byte(n: int) -> u8 {
    (n % 256) as u8
}

/// The PDUs that carry a payload in pieces of at most `max` bytes. A limit of 0
/// means no limit.
pub open spec fn fragments_of(
    protocol: AppProtocol,
    compression: Compression,
    frag_id: u8,
    payload: Seq<u8>,
    max: nat,
) -> Seq<AppContent> {
    if max == 0 || payload.len() <= max {
        seq![complete(protocol, compression, frag_id, payload)]
    } else {
        let count = chunk_count(payload.len(), max);
        Seq::new(
            count,
            |i: int|
                AppContent {
                    protocol,
                    compression,
                    frag_flags: flags_at(i, count),
                    frag_id,
                    frag_index: low_byte(i),
                    frag_total: low_byte(count as int),
                    payload: chunk(payload, max, i),
                },
        )
    }
}

/// What is wrong with the fragment `i`, if anything. The first fragment sets
/// the id and the total that the others have to repeat.
pub open spec fn fragment_fault(frags: Seq<AppContent>, i: int) -> Option<ReassembleError> {
    let f = frags[i];
    if f.frag_id != frags[0].frag_id {
        Some(
            ReassembleError::IdMismatch {
                index: i as usize,
                expected: frags[0].frag_id,
                got: f.frag_id,
            },
        )
    } else if f.frag_index != low_byte(i) {
        Some(ReassembleError::IndexMismatch { index: i as usize, got: f.frag_index })
    } else if f.frag_total != frags[0].frag_total {
        Some(
            ReassembleError::TotalMismatch {
                index: i as usize,
                expected: frags[0].frag_total,
                got: f.frag_total,
            },
        )
    } else if f.frag_flags != flags_at(i, frags.len()) {
        Some(
            ReassembleError::FlagsMismatch {
                index: i as usize,
                expected_flags: flags_at(i, frags.len()),
                flags: f.frag_flags,
            },
        )
    } else {
        None
    }
}

/// The fault of the first faulty fragment from `i` on.
pub open spec fn first_fault(frags: Seq<AppContent>, i: int) -> Option<ReassembleError>
    decreases frags.len() - i,
{
    if i < 0 || i >= frags.len() {
        None
    } else {
        match fragment_fault(frags, i) {
            Some(e) => Some(e),
            None => first_fault(frags, i + 1),
        }
    }
}

/// The payloads of fragments, one after the other.
pub open spec fn joined(frags: Seq<AppContent>) -> Seq<u8>
    decreases frags.len(),
{
    if frags.len() == 0 {
        seq![]
    } else {
        joined(frags.drop_last()) + frags.last().payload
    }
}

/// What ordered fragments make up: the payload, or the first thing that is
/// wrong with them.
pub open spec fn reassembly(frags: Seq<AppContent>) -> Result<Seq<u8>, ReassembleError> {
    if frags.len() == 0 {
        Err(ReassembleError::NoFragments)
    } else if frags.len() == 1 && frags[0].frag_flags == FragFlags::Complete {
        Ok(frags[0].payload)
    } else if frags[0].frag_flags != FragFlags::First {
        Err(ReassembleError::FirstFlagMissing)
    } else if frags.last().frag_flags != FragFlags::Last {
        Err(ReassembleError::LastFlagMissing)
    } else if frags[0].frag_total != frags.len() {
        Err(
            ReassembleError::CountMismatch {
                frag_total: frags[0].frag_total,
                count: frags.len() as usize,
            },
        )
    } else {
        match first_fault(frags, 0) {
            Some(e) => Err(e),
            None => Ok(joined(frags)),
        }
    }
}

proof fn lemma_chunks(len: nat, max: nat, i: int)
    requires
        max > 0,
        len > 0,
        0 <= i < chunk_count(len, max),
    ensures
        0 <= i * max < len,
        i * max < chunk_end(len, max, i) <= len,
        chunk_end(len, max, i) <= i * max + max,
        (i + 1) * max == i * max + max,
        chunk_end(len, max, i) == len <==> i == chunk_count(len, max) - 1,
        i + 1 < chunk_count(len, max) ==> chunk_end(len, max, i) == (i + 1) * max,
{
    let q = (len - 1) / (max as int);
    vstd::arithmetic::div_mod::lemma_fundamental_div_mod(len - 1, max as int);
    vstd::arithmetic::mul::lemma_mul_inequality(i, q, max as int);
    vstd::arithmetic::mul::lemma_mul_is_commutative(max as int, q);
    vstd::arithmetic::mul::lemma_mul_is_distributive_add_other_way(max as int, i, 1);
    vstd::arithmetic::mul::lemma_mul_nonnegative(i, max as int);
    if i + 1 <= q {
        vstd::arithmetic::mul::lemma_mul_inequality(i + 1, q, max as int);
    }
}

impl AppPdu {
    /// Create a complete (unfragmented) text message.
    pub fn new_text(text: &[u8]) -> (p: Self)
        ensures
            p@ == complete(AppProtocol::Text, Compression::Uncompressed, 0, text@),
    {
        AppPdu::new(AppProtocol::Text, vstd::slice::slice_to_vec(text))
    }

    /// Create a complete PDU with the specified protocol.
    pub fn new(protocol: AppProtocol, payload: Vec<u8>) -> (p: Self)
        ensures
            p@ == complete(protocol, Compression::Uncompressed, 0, payload@),
    {
        AppPdu {
            protocol,
            compression: Compression::Uncompressed,
            frag_flags: FragFlags::Complete,
            frag_id: 0,
            frag_index: 0,
            frag_total: 1,
            payload,
        }
    }

    /// Create a fragment of a larger message.
    pub fn new_fragment(
        protocol: AppProtocol,
        compression: Compression,
        frag_flags: FragFlags,
        frag_id: u8,
        frag_index: u8,
        frag_total: u8,
        payload: Vec<u8>,
    ) -> (p: Self)
        ensures
            p@ == (AppContent {
                protocol,
                compression,
                frag_flags,
                frag_id,
                frag_index,
                frag_total,
                payload: payload@,
            }),
    {
        AppPdu { protocol, compression, frag_flags, frag_id, frag_index, frag_total, payload }
    }

    /// Set the compression method.
    pub fn with_compression(self, compression: Compression) -> (p: Self)
        ensures
            p@ == (AppContent { compression, ..self@ }),
    {
        let mut pdu = self;
        pdu.compression = compression;
        pdu
    }

    /// Fragment a payload into PDUs of at most `max_fragment_size` bytes each.
    ///
    /// A payload that fits (or a limit of 0) gives a single complete PDU,
    /// anything longer a first, any number of middle, and a last fragment.
    pub fn fragment(
        protocol: AppProtocol,
        compression: Compression,
        frag_id: u8,
        payload: &[u8],
        max_fragment_size: usize,
    ) -> (r: Vec<Self>)
        ensures
            contents(r@) == fragments_of(
                protocol,
                compression,
                frag_id,
                payload@,
                max_fragment_size as nat,
            ),
    {
        let mut out: Vec<AppPdu> = Vec::new();
        let len: usize = payload.len();
        let max: usize = max_fragment_size;
        if max == 0 || len <= max {
            let whole = AppPdu::new_fragment(
                protocol,
                compression,
                FragFlags::Complete,
                frag_id,
                0,
                1,
                vstd::slice::slice_to_vec(payload),
            );
            out.push(whole);
            assert(contents(out@) =~= seq![
                complete(protocol, compression, frag_id, payload@),
            ]);
            return out;
        }
        let count: usize = (len - 1) / max + 1;
        let total: u8 = (count % 256) as u8;
        let ghost expected = fragments_of(protocol, compression, frag_id, payload@, max as nat);
        let mut start: usize = 0;
        let mut i: usize = 0;
        assert(0 * max == 0) by (nonlinear_arith);
        while i < count
            invariant
                i <= count,
                len == payload@.len(),
                len > max > 0,
                count == chunk_count(len as nat, max as nat),
                total == low_byte(count as int),
                i < count ==> start == i * max,
                expected == fragments_of(protocol, compression, frag_id, payload@, max as nat),
                contents(out@) == expected.take(i as int),
            decreases count - i,
        {
            proof {
                lemma_chunks(len as nat, max as nat, i as int);
            }
            let end: usize = if len - start <= max {
                len
            } else {
                start + max
            };
            let flags = if i == 0 {
                FragFlags::First
            } else if i == count - 1 {
                FragFlags::Last
            } else {
                FragFlags::Middle
            };
            let piece = vstd::slice::slice_to_vec(
                vstd::slice::slice_subrange(payload, start, end),
            );
            let pdu = AppPdu::new_fragment(
                protocol,
                compression,
                flags,
                frag_id,
                (i % 256) as u8,
                total,
                piece,
            );
            let ghost before = out@;
            out.push(pdu);
            proof {
                assert(contents(out@) =~= contents(before).push(pdu@));
                assert(pdu@ == expected[i as int]);
                assert(expected.take(i + 1) =~= expected.take(i as int).push(expected[i as int]));
            }
            start = end;
            i += 1;
        }
        assert(expected.take(i as int) =~= expected);
        out
    }

    /// Reassemble fragments into a single payload.
    ///
    /// `fragments` must be ordered: first, middle, last (or a single complete
    /// one), and all must belong to the same message.
    pub fn reassemble(fragments: &[Self]) -> (r: Result<Vec<u8>, ReassembleError>)
        ensures
            (match r {
                Ok(v) => Ok::<Seq<u8>, ReassembleError>(v@),
                Err(e) => Err(e),
            }) == reassembly(contents(fragments@)),
    {
        let ghost frags = contents(fragments@);
        let count: usize = fragments.len();
        if count == 0 {
            return Err(ReassembleError::NoFragments);
        }
        let first = &fragments[0];
        if count == 1 && first.frag_flags == FragFlags::Complete {
            return Ok(vstd::slice::slice_to_vec(first.payload.as_slice()));
        }
        if first.frag_flags != FragFlags::First {
            return Err(ReassembleError::FirstFlagMissing);
        }
        if fragments[count - 1].frag_flags != FragFlags::Last {
            return Err(ReassembleError::LastFlagMissing);
        }
        let frag_id: u8 = first.frag_id;
        let expected_total: u8 = first.frag_total;
        if expected_total as usize != count {
            return Err(ReassembleError::CountMismatch { frag_total: expected_total, count });
        }
        let mut payload: Vec<u8> = Vec::new();
        let mut i: usize = 0;
        assert(joined(frags.take(0)) =~= seq![]);
        while i < count
            invariant
                i <= count,
                count == fragments@.len(),
                count >= 1,
                frags == contents(fragments@),
                frag_id == frags[0].frag_id,
                expected_total == frags[0].frag_total,
                first_fault(frags, 0) == first_fault(frags, i as int),
                payload@ == joined(frags.take(i as int)),
                reassembly(frags) == (match first_fault(frags, 0) {
                    Some(e) => Err(e),
                    None => Ok::<Seq<u8>, ReassembleError>(joined(frags)),
                }),
            decreases count - i,
        {
            let frag = &fragments[i];
            assert(frags[i as int] == frag@);
            if frag.frag_id != frag_id {
                return Err(
                    ReassembleError::IdMismatch { index: i, expected: frag_id, got: frag.frag_id },
                );
            }
            if frag.frag_index != (i % 256) as u8 {
                return Err(ReassembleError::IndexMismatch { index: i, got: frag.frag_index });
            }
            if frag.frag_total != expected_total {
                return Err(
                    ReassembleError::TotalMismatch {
                        index: i,
                        expected: expected_total,
                        got: frag.frag_total,
                    },
                );
            }
            let expected_flags = if i == 0 {
                FragFlags::First
            } else if i == count - 1 {
                FragFlags::Last
            } else {
                FragFlags::Middle
            };
            if frag.frag_flags != expected_flags {
                return Err(
                    ReassembleError::FlagsMismatch {
                        index: i,
                        expected_flags,
                        flags: frag.frag_flags,
                    },
                );
            }
            let ghost before = payload@;
            payload.extend_from_slice(frag.payload.as_slice());
            proof {
                assert(payload@ =~= before + frag.payload@);
                assert(frags.take(i + 1).drop_last() =~= frags.take(i as int));
            }
            i += 1;
        }
        assert(frags.take(i as int) =~= frags);
        Ok(payload)
    }

    /// Serialize to bytes.
    pub fn to_bytes(&self) -> (out: Vec<u8>)
        ensures
            out@ == app_bytes(self@),
    {
        let mut out: Vec<u8> = Vec::new();
        let byte0: u8 = self.protocol.code() * 16 + self.compression.code() * 4
            + self.frag_flags.code();
        out.push(byte0);
        out.push(self.frag_id);
        out.push(self.frag_index);
        out.push(self.frag_total);
        out.extend_from_slice(self.payload.as_slice());
        assert(out@ =~= app_bytes(self@));
        out
    }

    /// Deserialize from bytes.
    pub fn from_bytes(bytes: &[u8]) -> (r: Result<Self, AppError>)
        ensures
            (match r {
                Ok(p) => Ok::<AppContent, AppError>(p@),
                Err(e) => Err(e),
            }) == parse_app(bytes@),
    {
        if bytes.len() < APP_HEADER_SIZE {
            return Err(AppError::TooShort { len: bytes.len() });
        }
        let byte0: u8 = bytes[0];
        let protocol = match AppProtocol::from_u8(byte0 / 16) {
            Ok(p) => p,
            Err(e) => {
                return Err(e);
            },
        };
        let compression = match Compression::from_u8(byte0 / 4) {
            Ok(c) => c,
            Err(e) => {
                return Err(e);
            },
        };
        let frag_flags = match FragFlags::from_u8(byte0) {
            Ok(f) => f,
            Err(e) => {
                return Err(e);
            },
        };
        let payload = vstd::slice::slice_to_vec(
            vstd::slice::slice_subrange(bytes, APP_HEADER_SIZE, bytes.len()),
        );
        assert(payload@ =~= bytes@.skip(4));
        Ok(
            AppPdu {
                protocol,
                compression,
                frag_flags,
                frag_id: bytes[1],
                frag_index: bytes[2],
                frag_total: bytes[3],
                payload,
            },
        )
    }
}

/// Every PDU survives the wire: parsing its bytes gives it back.
pub proof fn law_bytes_roundtrip(c: AppContent)
    ensures
        parse_app(app_bytes(c)) == Ok::<AppContent, AppError>(c),
{
    let b = app_bytes(c);
    assert(b.skip(4) =~= c.payload);
    assert(parse_app(b).unwrap() =~= c);
}

/// Bytes that parse are the bytes of what they say: nothing is lost or added.
pub proof fn law_parse_is_faithful(bytes: Seq<u8>)
    requires
        parse_app(bytes) is Ok,
    ensures
        app_bytes(parse_app(bytes).unwrap()) == bytes,
{
    let c = parse_app(bytes).unwrap();
    assert(header_byte(c) == bytes[0]);
    assert(app_bytes(c) =~= bytes);
}

proof fn lemma_no_fault(frags: Seq<AppContent>, i: int)
    requires
        0 <= i,
        forall|k: int| 0 <= k < frags.len() ==> fragment_fault(frags, k) is None,
    ensures
        first_fault(frags, i) is None,
    decreases frags.len() - i,
{
    if i < frags.len() {
        lemma_no_fault(frags, i + 1);
    }
}

proof fn lemma_joined_prefix(
    protocol: AppProtocol,
    compression: Compression,
    frag_id: u8,
    payload: Seq<u8>,
    max: nat,
    k: int,
)
    requires
        0 < max < payload.len(),
        0 < k <= chunk_count(payload.len(), max),
    ensures
        joined(fragments_of(protocol, compression, frag_id, payload, max).take(k)) == payload.take(
            chunk_end(payload.len(), max, k - 1),
        ),
    decreases k,
{
    let frags = fragments_of(protocol, compression, frag_id, payload, max);
    lemma_chunks(payload.len(), max, k - 1);
    assert(frags.take(k).drop_last() =~= frags.take(k - 1));
    assert(frags.take(k).last() == frags[k - 1]);
    if k == 1 {
        assert(joined(frags.take(0)) =~= seq![]);
        assert(0 * max == 0) by (nonlinear_arith);
        assert(joined(frags.take(1)) =~= payload.take(chunk_end(payload.len(), max, 0)));
    } else {
        lemma_joined_prefix(protocol, compression, frag_id, payload, max, k - 1);
        lemma_chunks(payload.len(), max, k - 2);
        assert(joined(frags.take(k)) =~= payload.take(chunk_end(payload.len(), max, k - 1)));
    }
}

/// Fragmenting and reassembling gives the payload back, for every payload and
/// limit whose fragments the one-byte total can count.
pub proof fn law_fragment_reassemble(
    protocol: AppProtocol,
    compression: Compression,
    frag_id: u8,
    payload: Seq<u8>,
    max: nat,
)
    requires
        chunk_count(payload.len(), max) <= 255,
    ensures
        reassembly(fragments_of(protocol, compression, frag_id, payload, max)) == Ok::<
            Seq<u8>,
            ReassembleError,
        >(payload),
{
    let frags = fragments_of(protocol, compression, frag_id, payload, max);
    if 0 < max < payload.len() {
        let count = chunk_count(payload.len(), max);
        lemma_chunks(payload.len(), max, 0);
        assert(chunk_end(payload.len(), max, 0) != payload.len());
        assert(count >= 2);
        assert forall|k: int| 0 <= k < frags.len() implies fragment_fault(frags, k) is None by {}
        lemma_no_fault(frags, 0);
        lemma_chunks(payload.len(), max, count - 1);
        lemma_joined_prefix(protocol, compression, frag_id, payload, max, count as int);
        assert(frags.take(count as int) =~= frags);
        assert(payload.take(payload.len() as int) =~= payload);
    }
}

/// A payload that fills more fragments than the one-byte total can count is
/// refused on reassembly, never delivered in part.
pub proof fn law_too_many_fragments_refused(
    protocol: AppProtocol,
    compression: Compression,
    frag_id: u8,
    payload: Seq<u8>,
    max: nat,
)
    requires
        chunk_count(payload.len(), max) > 255,
        max < payload.len(),
    ensures
        reassembly(fragments_of(protocol, compression, frag_id, payload, max)) matches Err(
            ReassembleError::CountMismatch { frag_total, .. },
        ) && frag_total == low_byte(chunk_count(payload.len(), max) as int),
{
    let frags = fragments_of(protocol, compression, frag_id, payload, max);
    let count = chunk_count(payload.len(), max);
    lemma_chunks(payload.len(), max, 0);
    assert(frags.len() == count);
    assert(frags[0].frag_flags == FragFlags::First);
    assert(frags.last().frag_flags == FragFlags::Last);
}

/// Every fragment but the last is full, and none is empty or over the limit.
pub proof fn law_fragment_sizes(
    protocol: AppProtocol,
    compression: Compression,
    frag_id: u8,
    payload: Seq<u8>,
    max: nat,
    i: int,
)
    requires
        0 < max < payload.len(),
        0 <= i < chunk_count(payload.len(), max),
    ensures
        ({
            let frags = fragments_of(protocol, compression, frag_id, payload, max);
            &&& 0 < frags[i].payload.len() <= max
            &&& i + 1 < frags.len() ==> frags[i].payload.len() == max
        }),
{
    lemma_chunks(payload.len(), max, i);
}

/// The numbers of the protocols, the compression methods and the flags on the
/// wire, and which number names which.
pub proof fn law_numbers(p: AppProtocol, c: Compression, f: FragFlags, val: u8)
    ensures
        protocol_code(AppProtocol::Text) == 0,
        protocol_code(AppProtocol::Position) == 1,
        protocol_code(AppProtocol::Telemetry) == 2,
        protocol_code(AppProtocol::FileTransfer) == 3,
        protocol_code(AppProtocol::Voice) == 4,
        protocol_code(AppProtocol::Control) == 5,
        protocol_code(AppProtocol::Custom) == 6,
        protocol_code(AppProtocol::CompressedData) == 7,
        compression_code(Compression::Uncompressed) == 0,
        compression_code(Compression::Deflate) == 1,
        compression_code(Compression::Lz4) == 2,
        compression_code(Compression::Reserved) == 3,
        flags_code(FragFlags::Complete) == 0,
        flags_code(FragFlags::First) == 1,
        flags_code(FragFlags::Middle) == 2,
        flags_code(FragFlags::Last) == 3,
        (protocol_of(val) == Some(p)) == (protocol_code(p) == val % 16),
        protocol_of(val) is None == (val % 16 > 7),
        (compression_of(val) == c) == (compression_code(c) == val % 4),
        (flags_of(val) == f) == (flags_code(f) == val % 4),
{
}

/// Where the fields of a PDU stand: protocol, compression and flags in the
/// first byte, then fragment id, index and total, and the payload from byte 4
/// on.
pub proof fn law_header_layout(c: AppContent)
    ensures
        ({
            let b = app_bytes(c);
            &&& b.len() == 4 + c.payload.len()
            &&& b[0] / 16 == protocol_code(c.protocol)
            &&& b[0] / 4 % 4 == compression_code(c.compression)
            &&& b[0] % 4 == flags_code(c.frag_flags)
            &&& b[1] == c.frag_id
            &&& b[2] == c.frag_index
            &&& b[3] == c.frag_total
            &&& b.skip(4) == c.payload
        }),
{
    assert(app_bytes(c).skip(4) =~= c.payload);
}

/// Which bytes are a PDU: at least four, with a first nibble of 7 or less. The
/// length is looked at first.
pub proof fn law_app_is_read(b: Seq<u8>)
    ensures
        b.len() < 4 ==> parse_app(b) == Err::<AppContent, AppError>(
            AppError::TooShort { len: b.len() as usize },
        ),
        b.len() >= 4 && b[0] / 16 > 7 ==> parse_app(b) == Err::<AppContent, AppError>(
            AppError::UnknownProtocol { code: b[0] / 16 },
        ),
        b.len() >= 4 && b[0] / 16 <= 7 ==> parse_app(b) is Ok,
{
}

/// How a payload is cut: each piece but the last has `max` bytes, the last what
/// is left, and byte `j` of piece `i` is byte `i * max + j` of the payload. The
/// pieces repeat protocol, compression and id, and are numbered from 0; index
/// and total are given modulo 256. The first piece is marked as the first, the
/// last as the last, those between as middle ones.
pub proof fn law_fragments(
    protocol: AppProtocol,
    compression: Compression,
    frag_id: u8,
    payload: Seq<u8>,
    max: nat,
    i: int,
    j: int,
)
    requires
        0 < max < payload.len(),
        0 <= i,
        0 <= j < max,
    ensures
        ({
            let frags = fragments_of(protocol, compression, frag_id, payload, max);
            let n = frags.len() as int;
            &&& n >= 2
            &&& (n - 1) * max < payload.len() <= n * max
            &&& i < n ==> {
                let f = frags[i];
                &&& f.protocol == protocol
                &&& f.compression == compression
                &&& f.frag_id == frag_id
                &&& f.frag_index == i % 256
                &&& f.frag_total == n % 256
                &&& (f.frag_flags == FragFlags::First) == (i == 0)
                &&& (f.frag_flags == FragFlags::Last) == (i == n - 1)
                &&& (f.frag_flags == FragFlags::Middle) == (0 < i < n - 1)
                &&& i < n - 1 ==> f.payload.len() == max
                &&& i == n - 1 ==> f.payload.len() == payload.len() - i * max
                &&& j < f.payload.len() ==> f.payload[j] == payload[i * max + j]
            }
        }),
{
    let count = chunk_count(payload.len(), max);
    let frags = fragments_of(protocol, compression, frag_id, payload, max);
    assert(frags.len() == count);
    lemma_chunks(payload.len(), max, 0);
    assert(0 * max == 0) by (nonlinear_arith);
    assert(count >= 2);
    lemma_chunks(payload.len(), max, count - 1);
    if i < count {
        lemma_chunks(payload.len(), max, i);
    }
}

/// A payload within the limit, or without one, travels in one piece.
pub proof fn law_whole_payload(
    protocol: AppProtocol,
    compression: Compression,
    frag_id: u8,
    payload: Seq<u8>,
    max: nat,
)
    requires
        max == 0 || payload.len() <= max,
    ensures
        ({
            let frags = fragments_of(protocol, compression, frag_id, payload, max);
            &&& frags.len() == 1
            &&& frags[0].protocol == protocol
            &&& frags[0].compression == compression
            &&& frags[0].frag_flags == FragFlags::Complete
            &&& frags[0].frag_id == frag_id
            &&& frags[0].frag_index == 0
            &&& frags[0].frag_total == 1
            &&& frags[0].payload == payload
        }),
{
}

/// The payloads put together.
proof fn lemma_joined(frags: Seq<AppContent>)
    ensures
        joined(frags) == frags.map_values(|f: AppContent| f.payload).flatten(),
    decreases frags.len(),
{
    let parts = frags.map_values(|f: AppContent| f.payload);
    if frags.len() > 0 {
        lemma_joined(frags.drop_last());
        let front = frags.drop_last().map_values(|f: AppContent| f.payload);
        assert(parts =~= front.push(frags.last().payload));
        front.lemma_flatten_push(frags.last().payload);
    }
}

/// Which fragments are put together, and to what: a single complete one to its
/// own payload; otherwise as many as they announce, numbered in order, of one
/// id, the first marked as the first, the last as the last and those between as
/// middle ones, to their payloads in order.
pub proof fn law_reassembly(frags: Seq<AppContent>)
    ensures
        frags.len() == 1 && frags[0].frag_flags == FragFlags::Complete ==> reassembly(frags) == Ok::<
            Seq<u8>,
            ReassembleError,
        >(frags[0].payload),
        !(frags.len() == 1 && frags[0].frag_flags == FragFlags::Complete) ==> (reassembly(
            frags,
        ) is Ok == (frags.len() >= 2 && forall|i: int|
            0 <= i < frags.len() ==> {
                &&& (#[trigger] frags[i]).frag_id == frags[0].frag_id
                &&& frags[i].frag_index == i % 256
                &&& frags[i].frag_total == frags.len()
                &&& i == 0 ==> frags[i].frag_flags == FragFlags::First
                &&& i == frags.len() - 1 ==> frags[i].frag_flags == FragFlags::Last
                &&& 0 < i < frags.len() - 1 ==> frags[i].frag_flags == FragFlags::Middle
            })),
        frags.len() >= 2 && reassembly(frags) is Ok ==> reassembly(frags) == Ok::<
            Seq<u8>,
            ReassembleError,
        >(frags.map_values(|f: AppContent| f.payload).flatten()),
{
    lemma_joined(frags);
    let right = frags.len() >= 2 && forall|i: int|
        0 <= i < frags.len() ==> {
            &&& (#[trigger] frags[i]).frag_id == frags[0].frag_id
            &&& frags[i].frag_index == i % 256
            &&& frags[i].frag_total == frags.len()
            &&& i == 0 ==> frags[i].frag_flags == FragFlags::First
            &&& i == frags.len() - 1 ==> frags[i].frag_flags == FragFlags::Last
            &&& 0 < i < frags.len() - 1 ==> frags[i].frag_flags == FragFlags::Middle
        };
    if right {
        assert(frags[0].frag_flags == FragFlags::First);
        assert(frags[frags.len() - 1].frag_flags == FragFlags::Last);
        assert forall|k: int| 0 <= k < frags.len() implies fragment_fault(frags, k) is None by {
            assert(frags[k].frag_id == frags[0].frag_id);
        }
        lemma_no_fault(frags, 0);
    }
    if reassembly(frags) is Ok && frags.len() > 0 && !(frags.len() == 1 && frags[0].frag_flags
        == FragFlags::Complete) {
        lemma_every_fragment_fits(frags, 0);
        assert(frags.len() >= 2);
        assert forall|i: int| 0 <= i < frags.len() implies {
            &&& (#[trigger] frags[i]).frag_id == frags[0].frag_id
            &&& frags[i].frag_index == i % 256
            &&& frags[i].frag_total == frags.len()
            &&& i == 0 ==> frags[i].frag_flags == FragFlags::First
            &&& i == frags.len() - 1 ==> frags[i].frag_flags == FragFlags::Last
            &&& 0 < i < frags.len() - 1 ==> frags[i].frag_flags == FragFlags::Middle
        } by {
            assert(fragment_fault(frags, i) is None);
        }
    }
}

proof fn lemma_every_fragment_fits(frags: Seq<AppContent>, i: int)
    requires
        0 <= i,
        first_fault(frags, i) is None,
    ensures
        forall|k: int| i <= k < frags.len() ==> #[trigger] fragment_fault(frags, k) is None,
    decreases frags.len() - i,
{
    if i < frags.len() {
        lemma_every_fragment_fits(frags, i + 1);
    }
}

proof fn lemma_first_fault_at(frags: Seq<AppContent>, i: int, k: int)
    requires
        0 <= i <= k < frags.len(),
        fragment_fault(frags, k) is Some,
        forall|j: int| i <= j < k ==> #[trigger] fragment_fault(frags, j) is None,
    ensures
        first_fault(frags, i) == fragment_fault(frags, k),
    decreases k - i,
{
    if i < k {
        assert(fragment_fault(frags, i) is None);
        lemma_first_fault_at(frags, i + 1, k);
    }
}

/// What is reported of fragments that are not put together: that there are
/// none, a first or a last one without its mark, or another number than they
/// announce, in this order; else the first fragment `k` that does not fit, by
/// its id, its index, its total or its flags, in this order.
pub proof fn law_reassembly_faults(frags: Seq<AppContent>, k: int)
    ensures
        frags.len() == 0 ==> reassembly(frags) == Err::<Seq<u8>, ReassembleError>(
            ReassembleError::NoFragments,
        ),
        frags.len() > 0 && frags[0].frag_flags != FragFlags::First && !(frags.len() == 1
            && frags[0].frag_flags == FragFlags::Complete) ==> reassembly(frags) == Err::<
            Seq<u8>,
            ReassembleError,
        >(ReassembleError::FirstFlagMissing),
        frags.len() > 0 && frags[0].frag_flags == FragFlags::First && frags[frags.len()
            - 1].frag_flags != FragFlags::Last ==> reassembly(frags) == Err::<
            Seq<u8>,
            ReassembleError,
        >(ReassembleError::LastFlagMissing),
        frags.len() > 0 && frags[0].frag_flags == FragFlags::First && frags[frags.len()
            - 1].frag_flags == FragFlags::Last && frags[0].frag_total != frags.len()
            ==> reassembly(frags) == Err::<Seq<u8>, ReassembleError>(
            ReassembleError::CountMismatch {
                frag_total: frags[0].frag_total,
                count: frags.len() as usize,
            },
        ),
        frags.len() > 0 && frags[0].frag_flags == FragFlags::First && frags[frags.len()
            - 1].frag_flags == FragFlags::Last && frags[0].frag_total == frags.len() && 0 <= k
            < frags.len() && (forall|i: int|
            0 <= i < k ==> {
                &&& (#[trigger] frags[i]).frag_id == frags[0].frag_id
                &&& frags[i].frag_index == i % 256
                &&& frags[i].frag_total == frags.len()
                &&& i > 0 ==> frags[i].frag_flags == FragFlags::Middle
            }) ==> {
            let f = frags[k];
            let r = reassembly(frags);
            let flags = if k == 0 {
                FragFlags::First
            } else if k == frags.len() - 1 {
                FragFlags::Last
            } else {
                FragFlags::Middle
            };
            &&& f.frag_id != frags[0].frag_id ==> r == Err::<Seq<u8>, ReassembleError>(
                ReassembleError::IdMismatch {
                    index: k as usize,
                    expected: frags[0].frag_id,
                    got: f.frag_id,
                },
            )
            &&& f.frag_id == frags[0].frag_id && f.frag_index != k % 256 ==> r == Err::<
                Seq<u8>,
                ReassembleError,
            >(ReassembleError::IndexMismatch { index: k as usize, got: f.frag_index })
            &&& f.frag_id == frags[0].frag_id && f.frag_index == k % 256 && f.frag_total
                != frags[0].frag_total ==> r == Err::<Seq<u8>, ReassembleError>(
                ReassembleError::TotalMismatch {
                    index: k as usize,
                    expected: frags[0].frag_total,
                    got: f.frag_total,
                },
            )
            &&& f.frag_id == frags[0].frag_id && f.frag_index == k % 256 && f.frag_total
                == frags[0].frag_total && f.frag_flags != flags ==> r == Err::<
                Seq<u8>,
                ReassembleError,
            >(
                ReassembleError::FlagsMismatch {
                    index: k as usize,
                    expected_flags: flags,
                    flags: f.frag_flags,
                },
            )
        },
{
    if 0 <= k < frags.len() && frags[0].frag_flags == FragFlags::First && frags[0].frag_total
        == frags.len() && fragment_fault(frags, k) is Some && (forall|i: int|
        0 <= i < k ==> {
            &&& (#[trigger] frags[i]).frag_id == frags[0].frag_id
            &&& frags[i].frag_index == i % 256
            &&& frags[i].frag_total == frags.len()
            &&& i > 0 ==> frags[i].frag_flags == FragFlags::Middle
        }) {
        assert forall|j: int| 0 <= j < k implies #[trigger] fragment_fault(frags, j) is None by {
            assert(frags[j].frag_id == frags[0].frag_id);
        }
        lemma_first_fault_at(frags, 0, k);
    }
}

} // verus!
