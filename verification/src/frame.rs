//! PHY frame structure.
//!
//! ```text
//! [preamble 128b][sync 16b][length 8b][data][CRC-16]
//! ```
//!
//! The checksum covers the length byte and the data. Preamble and sync word
//! travel uncoded, so that a receiver finds the frame boundary before it
//! undoes the error correction. Bits are bytes of value 0 or 1, most
//! significant bit first; a receiver takes any other value for a 1.
use vstd::prelude::*;

verus! {

/// 128-bit preamble: the m-sequence of [`make_pn_preamble`] and a zero bit.
pub const PN_PREAMBLE: [u8; 16] = [
    0x81, 0xFD, 0x53, 0x3B, 0xA5, 0x8D, 0xED, 0x6C, 0x91, 0xC2, 0xF9, 0x5C, 0xD1, 0x3C, 0x50, 0xC0,
];

/// Maximum number of bit errors tolerated in the sync word.
pub const SYNC_MAX_ERRORS: u32 = 2;

/// Why a frame cannot be built or read.
#[derive(Debug, Clone, Copy, PartialEq, Eq, Structural)]
pub enum FrameError {
    /// More data than the length byte can count.
    DataTooLong { len: usize },
    /// Fewer bits than the shortest frame takes.
    TooShort,
    /// Fewer bits than a preamble check and a sync word take.
    SyncTooShort,
    /// No sync word behind a preamble.
    SyncNotFound,
    /// No sync word behind a preamble in either polarity.
    SyncNotFoundInEitherPolarity,
    /// Fewer bits than a length and a checksum take.
    PayloadTooShort,
    /// The bits end before the announced data and checksum.
    Truncated,
    /// The checksum does not fit length and data.
    CrcMismatch { expected: u16, got: u16 },
}

/// Bits as bytes of value 0 and 1.
pub open spec fn levels(s: Seq<bool>) -> Seq<u8> {
    s.map_values(
        |b: bool|
            if b {
                1u8
            } else {
                0u8
            },
    )
}

/// Received bytes as bits: everything but 0 is a 1.
pub open spec fn hard(s: Seq<u8>) -> Seq<bool> {
    s.map_values(|b: u8| b != 0)
}

/// One step of the shift register x^7 + x + 1.
pub open spec fn lfsr_step(l: u8) -> u8 {
    (l / 2 + (l % 2 + l / 64) % 2 * 64) as u8
}

/// The shift register after `i` steps.
pub open spec fn lfsr_state(i: nat) -> u8
    decreases i,
{
    if i == 0 {
        1
    } else {
        lfsr_step(lfsr_state((i - 1) as nat))
    }
}

/// Bit `i` of the preamble.
pub open spec fn pn_bit(i: int) -> bool {
    0 <= i < 127 && lfsr_state(i as nat) % 2 == 1
}

/// The preamble.
pub open spec fn preamble_bits() -> Seq<bool> {
    Seq::new(128, |i: int| pn_bit(i))
}

/// The sync word.
pub open spec fn sync_bits() -> Seq<bool> {
    crate::bits::bits_of(0xF68D, 16)
}

/// The bytes behind the sync word: length, data, checksum.
pub open spec fn payload_bytes(data: Seq<u8>, crc: u16) -> Seq<u8> {
    seq![(data.len() % 256) as u8] + data + seq![(crc / 256) as u8, (crc % 256) as u8]
}

/// The bytes that the checksum covers: length and data.
pub open spec fn covered_bytes(data: Seq<u8>) -> Seq<u8> {
    seq![(data.len() % 256) as u8] + data
}

/// The checksum of a frame.
pub open spec fn frame_crc(data: Seq<u8>) -> u16 {
    crate::checksum::crc16(covered_bytes(data))
}

/// The uncoded part of a frame.
pub open spec fn header_levels() -> Seq<u8> {
    levels(preamble_bits() + sync_bits())
}

/// The part of a frame that is protected by error correction.
pub open spec fn payload_levels(data: Seq<u8>, crc: u16) -> Seq<u8> {
    levels(crate::bits::unpacked(payload_bytes(data, crc)))
}

/// Number of places below `n` in which the bits from `p` on differ from the
/// sync word.
pub open spec fn sync_distance(bits: Seq<u8>, p: int, n: nat) -> nat
    decreases n,
{
    if n == 0 {
        0
    } else {
        sync_distance(bits, p, (n - 1) as nat) + if (bits[p + n - 1] != 0) != sync_bits()[n - 1] {
            1nat
        } else {
            0nat
        }
    }
}

/// Number of the `n` bits before `p` that differ from the end of the preamble.
pub open spec fn preamble_distance(bits: Seq<u8>, p: int, n: nat) -> nat
    decreases n,
{
    if n == 0 {
        0
    } else {
        preamble_distance(bits, p, (n - 1) as nat) + if bits[p - n] != levels(
            preamble_bits(),
        )[128 - n] {
            1nat
        } else {
            0nat
        }
    }
}

/// Number of preamble bits that are looked at before a sync word at `p`.
pub open spec fn preamble_span(p: int) -> nat {
    if p < 32 {
        p as nat
    } else {
        32
    }
}

/// Whether a sync word may stand at `p`: at most two of its bits are wrong, and
/// at most a quarter of the preamble bits before it.
pub open spec fn sync_candidate(bits: Seq<u8>, p: int) -> bool {
    &&& 16 <= p <= bits.len() - 16
    &&& sync_distance(bits, p, 16) <= 2
    &&& preamble_distance(bits, p, preamble_span(p)) <= preamble_span(p) / 4
}

/// Whether `p` is the place with the fewest errors, and the first of those.
pub open spec fn best_sync(bits: Seq<u8>, p: int) -> bool {
    &&& sync_candidate(bits, p)
    &&& forall|q: int|
        #[trigger] sync_candidate(bits, q) ==> {
            ||| sync_distance(bits, p, 16) < sync_distance(bits, q, 16)
            ||| sync_distance(bits, p, 16) == sync_distance(bits, q, 16) && p <= q
        }
}

/// Where the sync word stands.
pub open spec fn sync_position(bits: Seq<u8>) -> Option<int> {
    if exists|p: int| best_sync(bits, p) {
        Some(choose|p: int| best_sync(bits, p))
    } else {
        None
    }
}

/// All bits flipped.
pub open spec fn inverted(bits: Seq<u8>) -> Seq<u8> {
    bits.map_values(|b: u8| b ^ 1u8)
}

/// Where the sync word stands, looked for in normal and then in inverted
/// polarity, and whether the bits are flipped.
pub open spec fn polarity_sync(bits: Seq<u8>) -> Option<(int, bool)> {
    match sync_position(bits) {
        Some(p) => Some((p, false)),
        None => match sync_position(inverted(bits)) {
            Some(p) => Some((p, true)),
            None => None,
        },
    }
}

/// Length, data and checksum as received.
pub struct Fields {
    pub length: u8,
    pub data: Seq<u8>,
    pub crc: u16,
}

/// The fields behind a sync word; what follows them is ignored.
pub open spec fn read_fields(s: Seq<bool>) -> Result<Fields, FrameError> {
    if s.len() < 24 {
        Err(FrameError::PayloadTooShort)
    } else {
        let length = crate::bits::value(s.take(8));
        if 8 + length * 8 + 16 > s.len() {
            Err(FrameError::Truncated)
        } else {
            Ok(
                Fields {
                    length: length as u8,
                    data: Seq::new(
                        length,
                        |i: int| crate::bits::value(s.subrange(8 + 8 * i, 16 + 8 * i)) as u8,
                    ),
                    crc: crate::bits::value(
                        s.subrange((8 + 8 * length) as int, (24 + 8 * length) as int),
                    ) as u16,
                },
            )
        }
    }
}

/// The data of received fields, given the checksum of their length and data.
pub open spec fn accepted(f: Fields, calculated: u16) -> Result<Seq<u8>, FrameError> {
    if f.crc != calculated {
        Err(FrameError::CrcMismatch { expected: calculated, got: f.crc })
    } else {
        Ok(f.data)
    }
}

/// The data that payload bits hold.
pub open spec fn parse_payload(s: Seq<bool>) -> Result<Seq<u8>, FrameError> {
    match read_fields(s) {
        Err(e) => Err(e),
        Ok(f) => accepted(f, crate::checksum::crc16(seq![f.length] + f.data)),
    }
}

/// The data that a received bit sequence holds.
pub open spec fn parse_bits(bits: Seq<u8>) -> Result<Seq<u8>, FrameError> {
    if bits.len() < 168 {
        Err(FrameError::TooShort)
    } else {
        match sync_position(bits) {
            None => Err(FrameError::SyncNotFound),
            Some(p) => parse_payload(hard(bits.skip(p + 16))),
        }
    }
}

proof fn lemma_best_unique(bits: Seq<u8>, p: int)
    requires
        best_sync(bits, p),
    ensures
        sync_position(bits) == Some(p),
{
    let q = choose|q: int| best_sync(bits, q);
    assert(best_sync(bits, q));
    assert(sync_candidate(bits, q));
    assert(sync_candidate(bits, p));
}

proof fn lemma_state_bound(i: nat)
    ensures
        lfsr_state(i) < 128,
    decreases i,
{
    if i > 0 {
        lemma_state_bound((i - 1) as nat);
    }
}

/// The preamble as bits of value 0 and 1.
fn pn_preamble_bits() -> (out: Vec<bool>)
    ensures
        out@ == preamble_bits(),
{
    let mut out: Vec<bool> = Vec::new();
    let mut lfsr: u8 = 1;
    let mut i: usize = 0;
    while i < 127
        invariant
            i <= 127,
            lfsr == lfsr_state(i as nat),
            lfsr < 128,
            out@.len() == i,
            forall|k: int| 0 <= k < i ==> out@[k] == pn_bit(k),
        decreases 127 - i,
    {
        out.push(lfsr % 2 == 1);
        proof {
            lemma_state_bound((i + 1) as nat);
        }
        lfsr = lfsr / 2 + (lfsr % 2 + lfsr / 64) % 2 * 64;
        i += 1;
    }
    out.push(false);
    assert(out@ =~= preamble_bits());
    out
}

/// Generate the preamble: 127 output bits of the shift register x^7 + x + 1
/// with seed 1, and a zero bit.
pub fn make_pn_preamble() -> (out: Vec<u8>)
    ensures
        out@ == crate::bits::packed(preamble_bits()),
{
    crate::bits::pack(&pn_preamble_bits())
}

/// Bits as bytes of value 0 and 1.
fn to_levels(s: &Vec<bool>) -> (out: Vec<u8>)
    ensures
        out@ == levels(s@),
{
    let mut out: Vec<u8> = Vec::new();
    let mut i: usize = 0;
    while i < s.len()
        invariant
            i <= s.len(),
            out@ == levels(s@).take(i as int),
        decreases s.len() - i,
    {
        out.push(
            if s[i] {
                1
            } else {
                0
            },
        );
        assert(levels(s@).take(i + 1) =~= levels(s@).take(i as int).push(levels(s@)[i as int]));
        i += 1;
    }
    assert(levels(s@).take(i as int) =~= levels(s@));
    out
}

/// Received bytes as bits.
fn to_hard(s: &[u8]) -> (out: Vec<bool>)
    ensures
        out@ == hard(s@),
{
    let mut out: Vec<bool> = Vec::new();
    let mut i: usize = 0;
    while i < s.len()
        invariant
            i <= s.len(),
            out@ == hard(s@).take(i as int),
        decreases s.len() - i,
    {
        out.push(s[i] != 0);
        assert(hard(s@).take(i + 1) =~= hard(s@).take(i as int).push(hard(s@)[i as int]));
        i += 1;
    }
    assert(hard(s@).take(i as int) =~= hard(s@));
    out
}

/// Number of bits in which the 16 bits from `p` on differ from the sync word.
fn sync_errors(bits: &[u8], sync: &Vec<bool>, p: usize) -> (n: u32)
    requires
        p + 16 <= bits.len(),
        sync@ == sync_bits(),
    ensures
        n == sync_distance(bits@, p as int, 16),
        n <= 16,
{
    proof {
        crate::bits::lemma_bits_of_len(0xF68D, 16);
    }
    let mut n: u32 = 0;
    let mut i: usize = 0;
    while i < 16
        invariant
            i <= 16,
            n <= i,
            p + 16 <= bits.len(),
            sync@ == sync_bits(),
            sync@.len() == 16,
            n == sync_distance(bits@, p as int, i as nat),
        decreases 16 - i,
    {
        if (bits[p + i] != 0) != sync[i] {
            n += 1;
        }
        i += 1;
    }
    n
}

/// Whether the bits before `p` correlate with the preamble.
fn validate_preamble(bits: &[u8], pn: &Vec<u8>, p: usize) -> (ok: bool)
    requires
        16 <= p <= bits.len(),
        pn@ == levels(preamble_bits()),
    ensures
        ok == (preamble_distance(bits@, p as int, preamble_span(p as int)) <= preamble_span(
            p as int,
        ) / 4),
{
    let check: usize = if p < 32 {
        p
    } else {
        32
    };
    let mut errors: usize = 0;
    let mut i: usize = 0;
    while i < check
        invariant
            i <= check <= 32,
            check <= p <= bits.len(),
            errors <= i,
            pn@ == levels(preamble_bits()),
            errors == preamble_distance(bits@, p as int, i as nat),
        decreases check - i,
    {
        if bits[p - 1 - i] != pn[127 - i] {
            errors += 1;
        }
        i += 1;
    }
    errors <= check / 4
}

/// A frame of up to 255 data bytes.
#[derive(Debug, Clone)]
pub struct Frame {
    pub data: Vec<u8>,
}

/// Length, data and checksum as received.
#[derive(Debug, Clone)]
pub struct PayloadFields {
    pub length: u8,
    pub data: Vec<u8>,
    pub crc: u16,
}

impl View for PayloadFields {
    type V = Fields;

    open spec fn view(&self) -> Fields {
        Fields { length: self.length, data: self.data@, crc: self.crc }
    }
}

impl Frame {
    /// Alternating preamble of older links.
    pub const PREAMBLE: u32 = 0xAAAAAAAA;

    /// Sync word for frame detection.
    pub const SYNC_WORD: u16 = 0xF68D;

    /// Maximum data length in bytes.
    pub const MAX_DATA_LENGTH: usize = 255;

    /// Create a frame with the given data.
    pub fn new(data: Vec<u8>) -> (r: Result<Self, FrameError>)
        ensures
            match r {
                Ok(f) => data@.len() <= 255 && f.data@ == data@,
                Err(e) => data@.len() > 255 && e == (FrameError::DataTooLong { len: data.len() }),
            },
    {
        if data.len() > 255 {
            return Err(FrameError::DataTooLong { len: data.len() });
        }
        Ok(Frame { data })
    }

    /// Convert the frame to bits: the uncoded header (preamble and sync word)
    /// and the payload (length, data, checksum).
    pub fn to_bits_split(&self) -> (r: Result<(Vec<u8>, Vec<u8>), FrameError>)
        ensures
            r matches Ok((header, payload)) && header@ == header_levels() && payload@
                == payload_levels(self.data@, frame_crc(self.data@)),
    {
        let mut covered: Vec<u8> = Vec::new();
        covered.push((self.data.len() % 256) as u8);
        covered.extend_from_slice(self.data.as_slice());
        assert(covered@ =~= covered_bytes(self.data@));
        let crc: u16 = crate::checksum::checksum(covered.as_slice());
        Ok((Frame::header_bits(), self.payload_bits(crc)))
    }

    /// The uncoded part of every frame: preamble and sync word.
    pub fn header_bits() -> (header: Vec<u8>)
        ensures
            header@ == header_levels(),
    {
        let mut bits = pn_preamble_bits();
        crate::bits::push_bits(&mut bits, 0xF68D, 16);
        assert(bits@ =~= preamble_bits() + sync_bits());
        to_levels(&bits)
    }

    /// Length, data and the given checksum as bits.
    pub fn payload_bits(&self, crc: u16) -> (payload: Vec<u8>)
        ensures
            payload@ == payload_levels(self.data@, crc),
    {
        let mut bytes: Vec<u8> = Vec::new();
        bytes.push((self.data.len() % 256) as u8);
        bytes.extend_from_slice(self.data.as_slice());
        bytes.push((crc / 256) as u8);
        bytes.push((crc % 256) as u8);
        assert(bytes@ =~= payload_bytes(self.data@, crc));
        to_levels(&crate::bits::unpack(bytes.as_slice()))
    }

    /// Convert the frame to a flat bit sequence.
    pub fn to_bits(&self) -> (r: Result<Vec<u8>, FrameError>)
        ensures
            r matches Ok(bits) && bits@ == header_levels() + payload_levels(
                self.data@,
                frame_crc(self.data@),
            ),
    {
        match self.to_bits_split() {
            Ok((header, payload)) => {
                let mut bits = header;
                let mut tail = payload;
                bits.append(&mut tail);
                Ok(bits)
            },
            Err(e) => Err(e),
        }
    }

    /// Parse hard-decided bits into a frame.
    pub fn from_bits(bits: &[u8]) -> (r: Result<Self, FrameError>)
        ensures
            match r {
                Ok(f) => parse_bits(bits@) == Ok::<Seq<u8>, FrameError>(f.data@),
                Err(e) => parse_bits(bits@) == Err::<Seq<u8>, FrameError>(e),
            },
    {
        if bits.len() < 168 {
            return Err(FrameError::TooShort);
        }
        match Frame::find_sync(bits) {
            Err(e) => Err(e),
            Ok(p) => {
                let tail = vstd::slice::slice_subrange(bits, p + 16, bits.len());
                assert(tail@ =~= bits@.skip(p + 16));
                Frame::from_payload_bits(tail)
            },
        }
    }

    /// Parse a payload bit sequence (length, data, checksum) into a frame.
    pub fn from_payload_bits(payload_bits: &[u8]) -> (r: Result<Self, FrameError>)
        ensures
            match r {
                Ok(f) => parse_payload(hard(payload_bits@)) == Ok::<Seq<u8>, FrameError>(f.data@),
                Err(e) => parse_payload(hard(payload_bits@)) == Err::<Seq<u8>, FrameError>(e),
            },
    {
        let fields = match Frame::read_payload(payload_bits) {
            Ok(f) => f,
            Err(e) => {
                return Err(e);
            },
        };
        let mut covered: Vec<u8> = Vec::new();
        covered.push(fields.length);
        covered.extend_from_slice(fields.data.as_slice());
        assert(covered@ =~= seq![fields.length] + fields.data@);
        let calculated: u16 = crate::checksum::checksum(covered.as_slice());
        Frame::accept(fields, calculated)
    }

    /// Read length, data and checksum from payload bits.
    pub fn read_payload(payload_bits: &[u8]) -> (r: Result<PayloadFields, FrameError>)
        ensures
            match r {
                Ok(f) => read_fields(hard(payload_bits@)) == Ok::<Fields, FrameError>(f@),
                Err(e) => read_fields(hard(payload_bits@)) == Err::<Fields, FrameError>(e),
            },
    {
        let bits = to_hard(payload_bits);
        if bits.len() < 24 {
            return Err(FrameError::PayloadTooShort);
        }
        let ghost s = bits@;
        let length = crate::bits::read_bits(&bits, 0, 8);
        proof {
            assert(s.take(8) =~= s.subrange(0, 8));
            crate::bits::lemma_value_byte(s.take(8));
        }
        let needed: usize = 8 + length as usize * 8 + 16;
        if needed > bits.len() {
            return Err(FrameError::Truncated);
        }
        let ghost expected = read_fields(s).unwrap();
        let mut data: Vec<u8> = Vec::new();
        let mut i: usize = 0;
        while i < length as usize
            invariant
                i <= length,
                length < 256,
                length == crate::bits::value(s.take(8)),
                s == bits@,
                8 + length * 8 + 16 <= bits.len(),
                expected == read_fields(s).unwrap(),
                read_fields(s) is Ok,
                data@ == expected.data.take(i as int),
            decreases length - i,
        {
            let v = crate::bits::read_bits(&bits, 8 + 8 * i, 8);
            data.push(v as u8);
            assert(expected.data.take(i + 1) =~= expected.data.take(i as int).push(
                expected.data[i as int],
            ));
            i += 1;
        }
        assert(expected.data.take(i as int) =~= expected.data);
        let crc = crate::bits::read_bits(&bits, 8 + 8 * length as usize, 16);
        Ok(PayloadFields { length: length as u8, data, crc: crc as u16 })
    }

    /// Turn received fields into a frame, given the checksum of their length
    /// and data.
    pub fn accept(fields: PayloadFields, calculated: u16) -> (r: Result<Self, FrameError>)
        ensures
            match r {
                Ok(f) => accepted(fields@, calculated) == Ok::<Seq<u8>, FrameError>(f.data@),
                Err(e) => accepted(fields@, calculated) == Err::<Seq<u8>, FrameError>(e),
            },
    {
        if fields.crc != calculated {
            return Err(FrameError::CrcMismatch { expected: calculated, got: fields.crc });
        }
        Ok(Frame { data: fields.data })
    }

    /// Find the sync word, requiring a preamble before it, and tolerating up
    /// to [`SYNC_MAX_ERRORS`] bit errors. The place with the fewest errors
    /// wins, the first of them on a tie.
    pub fn find_sync(bits: &[u8]) -> (r: Result<usize, FrameError>)
        ensures
            match r {
                Ok(p) => sync_position(bits@) == Some(p as int) && p + 16 <= bits@.len(),
                Err(e) => sync_position(bits@) is None && e == (if bits@.len() < 32 {
                    FrameError::SyncTooShort
                } else {
                    FrameError::SyncNotFound
                }),
            },
    {
        if bits.len() < 32 {
            assert forall|p: int| !best_sync(bits@, p) by {
                assert(!sync_candidate(bits@, p));
            }
            return Err(FrameError::SyncTooShort);
        }
        let mut sync: Vec<bool> = Vec::new();
        crate::bits::push_bits(&mut sync, 0xF68D, 16);
        assert(sync@ =~= sync_bits());
        let pn = to_levels(&pn_preamble_bits());
        let last: usize = bits.len() - 16;
        let mut best: Option<usize> = None;
        let mut best_errors: u32 = u32::MAX;
        let mut p: usize = 16;
        while p <= last
            invariant
                bits@.len() == bits.len(),
                last == bits@.len() - 16,
                16 <= p <= last + 1,
                sync@ == sync_bits(),
                pn@ == levels(preamble_bits()),
                best is None ==> best_errors == u32::MAX && forall|q: int|
                    #[trigger] sync_candidate(bits@, q) ==> p <= q,
                best matches Some(b) ==> {
                    &&& b < p
                    &&& sync_candidate(bits@, b as int)
                    &&& best_errors == sync_distance(bits@, b as int, 16)
                    &&& best_errors >= 1
                    &&& forall|q: int|
                        #[trigger] sync_candidate(bits@, q) ==> {
                            ||| p <= q
                            ||| best_errors < sync_distance(bits@, q, 16)
                            ||| best_errors == sync_distance(bits@, q, 16) && b <= q
                        }
                },
            decreases last + 1 - p,
        {
            let errors = sync_errors(bits, &sync, p);
            if errors <= SYNC_MAX_ERRORS {
                if validate_preamble(bits, &pn, p) {
                    assert(sync_candidate(bits@, p as int));
                    if errors == 0 {
                        proof {
                            assert(best_sync(bits@, p as int));
                            lemma_best_unique(bits@, p as int);
                        }
                        return Ok(p);
                    }
                    if errors < best_errors {
                        best_errors = errors;
                        best = Some(p);
                    }
                }
            }
            p += 1;
        }
        match best {
            Some(b) => {
                proof {
                    assert(best_sync(bits@, b as int));
                    lemma_best_unique(bits@, b as int);
                }
                Ok(b)
            },
            None => {
                assert forall|q: int| !best_sync(bits@, q) by {
                    assert(!sync_candidate(bits@, q));
                }
                Err(FrameError::SyncNotFound)
            },
        }
    }

    /// Find the sync word in normal, then in inverted polarity. The flag says
    /// whether all bits are flipped.
    pub fn find_sync_with_polarity(bits: &[u8]) -> (r: Result<(usize, bool), FrameError>)
        ensures
            match polarity_sync(bits@) {
                Some((p, flipped)) => r matches Ok((q, inv)) && q == p && inv == flipped,
                None => r == Err::<(usize, bool), FrameError>(
                    FrameError::SyncNotFoundInEitherPolarity,
                ),
            },
    {
        match Frame::find_sync(bits) {
            Ok(p) => {
                return Ok((p, false));
            },
            Err(_) => {},
        }
        let mut flipped: Vec<u8> = Vec::new();
        let mut i: usize = 0;
        while i < bits.len()
            invariant
                i <= bits.len(),
                flipped@ == inverted(bits@).take(i as int),
            decreases bits.len() - i,
        {
            flipped.push(bits[i] ^ 1u8);
            assert(inverted(bits@).take(i + 1) =~= inverted(bits@).take(i as int).push(
                inverted(bits@)[i as int],
            ));
            i += 1;
        }
        assert(inverted(bits@).take(i as int) =~= inverted(bits@));
        match Frame::find_sync(flipped.as_slice()) {
            Ok(p) => Ok((p, true)),
            Err(_) => Err(FrameError::SyncNotFoundInEitherPolarity),
        }
    }

    /// Create a frame from the bytes of a MAC PDU.
    pub fn from_mac_pdu(mac_bytes: &[u8]) -> (r: Result<Self, FrameError>)
        ensures
            match r {
                Ok(f) => mac_bytes@.len() <= 255 && f.data@ == mac_bytes@,
                Err(e) => mac_bytes@.len() > 255 && e == (FrameError::DataTooLong {
                    len: mac_bytes.len(),
                }),
            },
    {
        Frame::new(vstd::slice::slice_to_vec(mac_bytes))
    }

    /// The MAC PDU bytes of this frame.
    pub fn mac_pdu_bytes(&self) -> (b: &[u8])
        ensures
            b@ == self.data@,
    {
        self.data.as_slice()
    }
}

proof fn lemma_unpacked_at(bytes: Seq<u8>, k: int)
    requires
        0 <= k < bytes.len(),
    ensures
        crate::bits::unpacked(bytes).subrange(8 * k, 8 * k + 8) == crate::bits::bits_of(
            bytes[k] as nat,
            8,
        ),
        crate::bits::unpacked(bytes).len() == 8 * bytes.len(),
    decreases bytes.len(),
{
    let u = crate::bits::unpacked(bytes);
    let first = crate::bits::bits_of(bytes[0] as nat, 8);
    let tail = crate::bits::unpacked(bytes.skip(1));
    crate::bits::lemma_bits_of_len(bytes[0] as nat, 8);
    crate::bits::lemma_unpacked_len(bytes);
    crate::bits::lemma_unpacked_len(bytes.skip(1));
    if k == 0 {
        assert(u.subrange(0, 8) =~= first);
    } else {
        lemma_unpacked_at(bytes.skip(1), k - 1);
        assert(u.subrange(8 * k, 8 * k + 8) =~= tail.subrange(8 * (k - 1), 8 * (k - 1) + 8));
    }
}

/// The number of two bytes in a row.
proof fn lemma_value_pair(s: Seq<bool>, hi: u8, lo: u8)
    requires
        s.len() == 16,
        s.take(8) == crate::bits::bits_of(hi as nat, 8),
        s.skip(8) == crate::bits::bits_of(lo as nat, 8),
    ensures
        crate::bits::value(s) == hi * 256 + lo,
{
    crate::bits::lemma_byte_value(hi);
    crate::bits::lemma_byte_value(lo);
    crate::bits::lemma_value_concat(s.take(8), s.skip(8));
    vstd::arithmetic::power2::lemma2_to64();
    assert(s.take(8) + s.skip(8) =~= s);
}

proof fn lemma_hard_levels(s: Seq<bool>)
    ensures
        hard(levels(s)) == s,
{
    assert(hard(levels(s)) =~= s);
}

/// Payload bits hold the fields that they were made from.
pub proof fn law_fields_roundtrip(data: Seq<u8>, crc: u16)
    requires
        data.len() <= 255,
    ensures
        read_fields(hard(payload_levels(data, crc))) == Ok::<Fields, FrameError>(
            Fields { length: data.len() as u8, data, crc },
        ),
{
    let bytes = payload_bytes(data, crc);
    let s = crate::bits::unpacked(bytes);
    let n = data.len() as int;
    lemma_hard_levels(s);
    lemma_unpacked_at(bytes, 0);
    crate::bits::lemma_byte_value(n as u8);
    assert(s.take(8) =~= s.subrange(0, 8));
    assert(bytes[0] == n as u8);
    let f = read_fields(s).unwrap();
    assert forall|i: int| 0 <= i < n implies f.data[i] == data[i] by {
        lemma_unpacked_at(bytes, i + 1);
        crate::bits::lemma_byte_value(bytes[i + 1]);
        assert(bytes[i + 1] == data[i]);
        assert(8 * (i + 1) == 8 + 8 * i);
    }
    assert(f.data =~= data);
    let tail = s.subrange(8 + 8 * n, 24 + 8 * n);
    lemma_unpacked_at(bytes, n + 1);
    lemma_unpacked_at(bytes, n + 2);
    assert(tail.take(8) =~= s.subrange(8 * (n + 1), 8 * (n + 1) + 8));
    assert(tail.skip(8) =~= s.subrange(8 * (n + 2), 8 * (n + 2) + 8));
    lemma_value_pair(tail, (crc / 256) as u8, (crc % 256) as u8);
}

/// A frame's payload bits are read back as its data.
pub proof fn law_payload_roundtrip(data: Seq<u8>)
    requires
        data.len() <= 255,
    ensures
        parse_payload(hard(payload_levels(data, frame_crc(data)))) == Ok::<Seq<u8>, FrameError>(
            data,
        ),
{
    law_fields_roundtrip(data, frame_crc(data));
}

/// Payload bits whose checksum differs from that of their length and data are
/// refused. The length is covered like the data.
pub proof fn law_wrong_crc_refused(s: Seq<bool>)
    requires
        read_fields(s) is Ok,
        ({
            let f = read_fields(s).unwrap();
            f.crc != crate::checksum::crc16(seq![f.length] + f.data)
        }),
    ensures
        parse_payload(s) is Err,
{
}

/// Eight bits that differ make a different byte.
proof fn lemma_other_byte(s: Seq<bool>, t: Seq<bool>, k: int)
    requires
        s.len() == 8,
        t.len() == 8,
        0 <= k < 8,
        s[k] != t[k],
    ensures
        crate::bits::value(s) as u8 != crate::bits::value(t) as u8,
{
    crate::bits::lemma_value_byte(s);
    crate::bits::lemma_value_byte(t);
}

/// Payload bits that are accepted are refused once bits within two
/// neighbouring data bytes are flipped. `i` is the first byte that changes, and
/// `k` the place of one such bit in it.
pub proof fn law_flipped_data_refused(s: Seq<bool>, t: Seq<bool>, i: int, k: int)
    requires
        parse_payload(s) is Ok,
        s.len() == t.len(),
        0 <= i < parse_payload(s).unwrap().len(),
        0 <= k < 8,
        s[8 + 8 * i + k] != t[8 + 8 * i + k],
        forall|j: int|
            0 <= j < s.len() && !(8 + 8 * i <= j < 24 + 8 * i && j < 8 + 8 * parse_payload(
                s,
            ).unwrap().len()) ==> s[j] == t[j],
    ensures
        parse_payload(t) is Err,
{
    let f = read_fields(s).unwrap();
    let n = f.data.len() as int;
    assert(s.take(8) =~= t.take(8));
    crate::bits::lemma_value_byte(s.take(8));
    assert(n == f.length);
    let g = read_fields(t).unwrap();
    assert(s.subrange(8 + 8 * n, 24 + 8 * n) =~= t.subrange(8 + 8 * n, 24 + 8 * n));
    assert forall|j: int| 0 <= j < n && j != i && j != i + 1 implies f.data[j] == g.data[j] by {
        assert(s.subrange(8 + 8 * j, 16 + 8 * j) =~= t.subrange(8 + 8 * j, 16 + 8 * j));
    }
    lemma_other_byte(s.subrange(8 + 8 * i, 16 + 8 * i), t.subrange(8 + 8 * i, 16 + 8 * i), k);
    let (a, b) = (seq![f.length] + f.data, seq![g.length] + g.data);
    assert(a[i + 1] == f.data[i] && b[i + 1] == g.data[i]);
    assert forall|j: int| 0 <= j < a.len() && j != i + 1 && j != i + 2 implies a[j] == b[j] by {
        if j > 0 {
            assert(a[j] == f.data[j - 1] && b[j] == g.data[j - 1]);
        }
    }
    crate::checksum::law_burst_changes_checksum(a, b, i + 1);
}

/// Payload bits that are accepted are refused once bits of their checksum are
/// flipped, and no others. `k` is the place of one such bit.
pub proof fn law_flipped_crc_refused(s: Seq<bool>, t: Seq<bool>, k: int)
    requires
        parse_payload(s) is Ok,
        s.len() == t.len(),
        ({
            let n = 8 + 8 * parse_payload(s).unwrap().len();
            &&& 0 <= k < 16
            &&& s[n + k] != t[n + k]
            &&& forall|j: int| 0 <= j < s.len() && !(n <= j < n + 16) ==> s[j] == t[j]
        }),
    ensures
        parse_payload(t) is Err,
{
    let f = read_fields(s).unwrap();
    let n = f.data.len() as int;
    assert(s.take(8) =~= t.take(8));
    crate::bits::lemma_value_byte(s.take(8));
    assert(n == f.length);
    let g = read_fields(t).unwrap();
    assert forall|j: int| 0 <= j < n implies f.data[j] == g.data[j] by {
        assert(s.subrange(8 + 8 * j, 16 + 8 * j) =~= t.subrange(8 + 8 * j, 16 + 8 * j));
    }
    assert(f.data =~= g.data);
    let (a, b) = (s.subrange(8 + 8 * n, 24 + 8 * n), t.subrange(8 + 8 * n, 24 + 8 * n));
    assert(a[k] != b[k]);
    crate::bits::lemma_bits_of_value(a);
    crate::bits::lemma_bits_of_value(b);
    crate::bits::lemma_value_bound(a);
    crate::bits::lemma_value_bound(b);
    vstd::arithmetic::power2::lemma2_to64();
}

proof fn lemma_states()
    ensures
        lfsr_state(0) == 1,
        lfsr_state(1) == 64,
        lfsr_state(2) == 96,
        lfsr_state(3) == 112,
        lfsr_state(4) == 120,
        lfsr_state(5) == 124,
        lfsr_state(6) == 126,
        lfsr_state(7) == 127,
        lfsr_state(8) == 63,
        lfsr_state(9) == 95,
        lfsr_state(10) == 47,
        lfsr_state(11) == 87,
        lfsr_state(12) == 43,
        lfsr_state(13) == 85,
        lfsr_state(14) == 42,
        lfsr_state(15) == 21,
        lfsr_state(16) == 74,
        lfsr_state(17) == 101,
        lfsr_state(18) == 50,
        lfsr_state(19) == 25,
        lfsr_state(20) == 76,
        lfsr_state(21) == 102,
        lfsr_state(22) == 115,
        lfsr_state(23) == 57,
        lfsr_state(24) == 92,
        lfsr_state(25) == 110,
        lfsr_state(26) == 119,
        lfsr_state(27) == 59,
        lfsr_state(28) == 93,
        lfsr_state(29) == 46,
        lfsr_state(30) == 23,
        lfsr_state(31) == 75,
        lfsr_state(32) == 37,
        lfsr_state(33) == 82,
        lfsr_state(34) == 105,
        lfsr_state(35) == 52,
        lfsr_state(36) == 26,
        lfsr_state(37) == 13,
        lfsr_state(38) == 70,
        lfsr_state(39) == 99,
        lfsr_state(40) == 49,
        lfsr_state(41) == 88,
        lfsr_state(42) == 108,
        lfsr_state(43) == 118,
        lfsr_state(44) == 123,
        lfsr_state(45) == 61,
        lfsr_state(46) == 94,
        lfsr_state(47) == 111,
        lfsr_state(48) == 55,
        lfsr_state(49) == 91,
        lfsr_state(50) == 45,
        lfsr_state(51) == 86,
        lfsr_state(52) == 107,
        lfsr_state(53) == 53,
        lfsr_state(54) == 90,
        lfsr_state(55) == 109,
        lfsr_state(56) == 54,
        lfsr_state(57) == 27,
        lfsr_state(58) == 77,
        lfsr_state(59) == 38,
        lfsr_state(60) == 19,
        lfsr_state(61) == 73,
        lfsr_state(62) == 36,
        lfsr_state(63) == 18,
        lfsr_state(64) == 9,
        lfsr_state(65) == 68,
        lfsr_state(66) == 98,
        lfsr_state(67) == 113,
        lfsr_state(68) == 56,
        lfsr_state(69) == 28,
        lfsr_state(70) == 14,
        lfsr_state(71) == 7,
        lfsr_state(72) == 67,
        lfsr_state(73) == 33,
        lfsr_state(74) == 80,
        lfsr_state(75) == 104,
        lfsr_state(76) == 116,
        lfsr_state(77) == 122,
        lfsr_state(78) == 125,
        lfsr_state(79) == 62,
        lfsr_state(80) == 31,
        lfsr_state(81) == 79,
        lfsr_state(82) == 39,
        lfsr_state(83) == 83,
        lfsr_state(84) == 41,
        lfsr_state(85) == 84,
        lfsr_state(86) == 106,
        lfsr_state(87) == 117,
        lfsr_state(88) == 58,
        lfsr_state(89) == 29,
        lfsr_state(90) == 78,
        lfsr_state(91) == 103,
        lfsr_state(92) == 51,
        lfsr_state(93) == 89,
        lfsr_state(94) == 44,
        lfsr_state(95) == 22,
        lfsr_state(96) == 11,
        lfsr_state(97) == 69,
        lfsr_state(98) == 34,
        lfsr_state(99) == 17,
        lfsr_state(100) == 72,
        lfsr_state(101) == 100,
        lfsr_state(102) == 114,
        lfsr_state(103) == 121,
        lfsr_state(104) == 60,
        lfsr_state(105) == 30,
        lfsr_state(106) == 15,
        lfsr_state(107) == 71,
        lfsr_state(108) == 35,
        lfsr_state(109) == 81,
        lfsr_state(110) == 40,
        lfsr_state(111) == 20,
        lfsr_state(112) == 10,
        lfsr_state(113) == 5,
        lfsr_state(114) == 66,
        lfsr_state(115) == 97,
        lfsr_state(116) == 48,
        lfsr_state(117) == 24,
        lfsr_state(118) == 12,
        lfsr_state(119) == 6,
        lfsr_state(120) == 3,
        lfsr_state(121) == 65,
        lfsr_state(122) == 32,
        lfsr_state(123) == 16,
        lfsr_state(124) == 8,
        lfsr_state(125) == 4,
        lfsr_state(126) == 2,
{
    assert(lfsr_state(0) == 1);
    assert(lfsr_state(1) == 64);
    assert(lfsr_state(2) == 96);
    assert(lfsr_state(3) == 112);
    assert(lfsr_state(4) == 120);
    assert(lfsr_state(5) == 124);
    assert(lfsr_state(6) == 126);
    assert(lfsr_state(7) == 127);
    assert(lfsr_state(8) == 63);
    assert(lfsr_state(9) == 95);
    assert(lfsr_state(10) == 47);
    assert(lfsr_state(11) == 87);
    assert(lfsr_state(12) == 43);
    assert(lfsr_state(13) == 85);
    assert(lfsr_state(14) == 42);
    assert(lfsr_state(15) == 21);
    assert(lfsr_state(16) == 74);
    assert(lfsr_state(17) == 101);
    assert(lfsr_state(18) == 50);
    assert(lfsr_state(19) == 25);
    assert(lfsr_state(20) == 76);
    assert(lfsr_state(21) == 102);
    assert(lfsr_state(22) == 115);
    assert(lfsr_state(23) == 57);
    assert(lfsr_state(24) == 92);
    assert(lfsr_state(25) == 110);
    assert(lfsr_state(26) == 119);
    assert(lfsr_state(27) == 59);
    assert(lfsr_state(28) == 93);
    assert(lfsr_state(29) == 46);
    assert(lfsr_state(30) == 23);
    assert(lfsr_state(31) == 75);
    assert(lfsr_state(32) == 37);
    assert(lfsr_state(33) == 82);
    assert(lfsr_state(34) == 105);
    assert(lfsr_state(35) == 52);
    assert(lfsr_state(36) == 26);
    assert(lfsr_state(37) == 13);
    assert(lfsr_state(38) == 70);
    assert(lfsr_state(39) == 99);
    assert(lfsr_state(40) == 49);
    assert(lfsr_state(41) == 88);
    assert(lfsr_state(42) == 108);
    assert(lfsr_state(43) == 118);
    assert(lfsr_state(44) == 123);
    assert(lfsr_state(45) == 61);
    assert(lfsr_state(46) == 94);
    assert(lfsr_state(47) == 111);
    assert(lfsr_state(48) == 55);
    assert(lfsr_state(49) == 91);
    assert(lfsr_state(50) == 45);
    assert(lfsr_state(51) == 86);
    assert(lfsr_state(52) == 107);
    assert(lfsr_state(53) == 53);
    assert(lfsr_state(54) == 90);
    assert(lfsr_state(55) == 109);
    assert(lfsr_state(56) == 54);
    assert(lfsr_state(57) == 27);
    assert(lfsr_state(58) == 77);
    assert(lfsr_state(59) == 38);
    assert(lfsr_state(60) == 19);
    assert(lfsr_state(61) == 73);
    assert(lfsr_state(62) == 36);
    assert(lfsr_state(63) == 18);
    assert(lfsr_state(64) == 9);
    assert(lfsr_state(65) == 68);
    assert(lfsr_state(66) == 98);
    assert(lfsr_state(67) == 113);
    assert(lfsr_state(68) == 56);
    assert(lfsr_state(69) == 28);
    assert(lfsr_state(70) == 14);
    assert(lfsr_state(71) == 7);
    assert(lfsr_state(72) == 67);
    assert(lfsr_state(73) == 33);
    assert(lfsr_state(74) == 80);
    assert(lfsr_state(75) == 104);
    assert(lfsr_state(76) == 116);
    assert(lfsr_state(77) == 122);
    assert(lfsr_state(78) == 125);
    assert(lfsr_state(79) == 62);
    assert(lfsr_state(80) == 31);
    assert(lfsr_state(81) == 79);
    assert(lfsr_state(82) == 39);
    assert(lfsr_state(83) == 83);
    assert(lfsr_state(84) == 41);
    assert(lfsr_state(85) == 84);
    assert(lfsr_state(86) == 106);
    assert(lfsr_state(87) == 117);
    assert(lfsr_state(88) == 58);
    assert(lfsr_state(89) == 29);
    assert(lfsr_state(90) == 78);
    assert(lfsr_state(91) == 103);
    assert(lfsr_state(92) == 51);
    assert(lfsr_state(93) == 89);
    assert(lfsr_state(94) == 44);
    assert(lfsr_state(95) == 22);
    assert(lfsr_state(96) == 11);
    assert(lfsr_state(97) == 69);
    assert(lfsr_state(98) == 34);
    assert(lfsr_state(99) == 17);
    assert(lfsr_state(100) == 72);
    assert(lfsr_state(101) == 100);
    assert(lfsr_state(102) == 114);
    assert(lfsr_state(103) == 121);
    assert(lfsr_state(104) == 60);
    assert(lfsr_state(105) == 30);
    assert(lfsr_state(106) == 15);
    assert(lfsr_state(107) == 71);
    assert(lfsr_state(108) == 35);
    assert(lfsr_state(109) == 81);
    assert(lfsr_state(110) == 40);
    assert(lfsr_state(111) == 20);
    assert(lfsr_state(112) == 10);
    assert(lfsr_state(113) == 5);
    assert(lfsr_state(114) == 66);
    assert(lfsr_state(115) == 97);
    assert(lfsr_state(116) == 48);
    assert(lfsr_state(117) == 24);
    assert(lfsr_state(118) == 12);
    assert(lfsr_state(119) == 6);
    assert(lfsr_state(120) == 3);
    assert(lfsr_state(121) == 65);
    assert(lfsr_state(122) == 32);
    assert(lfsr_state(123) == 16);
    assert(lfsr_state(124) == 8);
    assert(lfsr_state(125) == 4);
    assert(lfsr_state(126) == 2);
}

proof fn lemma_sync_bits()
    ensures
        sync_bits() == seq![true, true, true, true, false, true, true, false, true, false, false, false, true, true, false, true],
{
    reveal_with_fuel(crate::bits::bits_of, 17);
    assert(sync_bits() =~= seq![true, true, true, true, false, true, true, false, true, false, false, false, true, true, false, true]);
}

/// The sync word occurs nowhere in the header before its own place.
proof fn lemma_no_early_sync(header: Seq<bool>, sync: Seq<bool>, q: int)
    requires
        header == preamble_bits() + sync_bits(),
        sync == sync_bits(),
        16 <= q < 128,
    ensures
        exists|j: int| 0 <= j < 16 && #[trigger] header[q + j] != sync[j],
{
    lemma_states();
    lemma_sync_bits();
    if q == 16 {
        assert(header[16] == (lfsr_state(16) % 2 == 1));
        assert(header[q + 0] != sync[0]);
    } else if q == 17 {
        assert(header[18] == (lfsr_state(18) % 2 == 1));
        assert(header[q + 1] != sync[1]);
    } else if q == 18 {
        assert(header[18] == (lfsr_state(18) % 2 == 1));
        assert(header[q + 0] != sync[0]);
    } else if q == 19 {
        assert(header[20] == (lfsr_state(20) % 2 == 1));
        assert(header[q + 1] != sync[1]);
    } else if q == 20 {
        assert(header[20] == (lfsr_state(20) % 2 == 1));
        assert(header[q + 0] != sync[0]);
    } else if q == 21 {
        assert(header[21] == (lfsr_state(21) % 2 == 1));
        assert(header[q + 0] != sync[0]);
    } else if q == 22 {
        assert(header[24] == (lfsr_state(24) % 2 == 1));
        assert(header[q + 2] != sync[2]);
    } else if q == 23 {
        assert(header[24] == (lfsr_state(24) % 2 == 1));
        assert(header[q + 1] != sync[1]);
    } else if q == 24 {
        assert(header[24] == (lfsr_state(24) % 2 == 1));
        assert(header[q + 0] != sync[0]);
    } else if q == 25 {
        assert(header[25] == (lfsr_state(25) % 2 == 1));
        assert(header[q + 0] != sync[0]);
    } else if q == 26 {
        assert(header[29] == (lfsr_state(29) % 2 == 1));
        assert(header[q + 3] != sync[3]);
    } else if q == 27 {
        assert(header[29] == (lfsr_state(29) % 2 == 1));
        assert(header[q + 2] != sync[2]);
    } else if q == 28 {
        assert(header[29] == (lfsr_state(29) % 2 == 1));
        assert(header[q + 1] != sync[1]);
    } else if q == 29 {
        assert(header[29] == (lfsr_state(29) % 2 == 1));
        assert(header[q + 0] != sync[0]);
    } else if q == 30 {
        assert(header[33] == (lfsr_state(33) % 2 == 1));
        assert(header[q + 3] != sync[3]);
    } else if q == 31 {
        assert(header[33] == (lfsr_state(33) % 2 == 1));
        assert(header[q + 2] != sync[2]);
    } else if q == 32 {
        assert(header[33] == (lfsr_state(33) % 2 == 1));
        assert(header[q + 1] != sync[1]);
    } else if q == 33 {
        assert(header[33] == (lfsr_state(33) % 2 == 1));
        assert(header[q + 0] != sync[0]);
    } else if q == 34 {
        assert(header[35] == (lfsr_state(35) % 2 == 1));
        assert(header[q + 1] != sync[1]);
    } else if q == 35 {
        assert(header[35] == (lfsr_state(35) % 2 == 1));
        assert(header[q + 0] != sync[0]);
    } else if q == 36 {
        assert(header[36] == (lfsr_state(36) % 2 == 1));
        assert(header[q + 0] != sync[0]);
    } else if q == 37 {
        assert(header[38] == (lfsr_state(38) % 2 == 1));
        assert(header[q + 1] != sync[1]);
    } else if q == 38 {
        assert(header[38] == (lfsr_state(38) % 2 == 1));
        assert(header[q + 0] != sync[0]);
    } else if q == 39 {
        assert(header[41] == (lfsr_state(41) % 2 == 1));
        assert(header[q + 2] != sync[2]);
    } else if q == 40 {
        assert(header[41] == (lfsr_state(41) % 2 == 1));
        assert(header[q + 1] != sync[1]);
    } else if q == 41 {
        assert(header[41] == (lfsr_state(41) % 2 == 1));
        assert(header[q + 0] != sync[0]);
    } else if q == 42 {
        assert(header[42] == (lfsr_state(42) % 2 == 1));
        assert(header[q + 0] != sync[0]);
    } else if q == 43 {
        assert(header[43] == (lfsr_state(43) % 2 == 1));
        assert(header[q + 0] != sync[0]);
    } else if q == 44 {
        assert(header[46] == (lfsr_state(46) % 2 == 1));
        assert(header[q + 2] != sync[2]);
    } else if q == 45 {
        assert(header[46] == (lfsr_state(46) % 2 == 1));
        assert(header[q + 1] != sync[1]);
    } else if q == 46 {
        assert(header[46] == (lfsr_state(46) % 2 == 1));
        assert(header[q + 0] != sync[0]);
    } else if q == 47 {
        assert(header[57] == (lfsr_state(57) % 2 == 1));
        assert(header[q + 10] != sync[10]);
    } else if q == 48 {
        assert(header[51] == (lfsr_state(51) % 2 == 1));
        assert(header[q + 3] != sync[3]);
    } else if q == 49 {
        assert(header[51] == (lfsr_state(51) % 2 == 1));
        assert(header[q + 2] != sync[2]);
    } else if q == 50 {
        assert(header[51] == (lfsr_state(51) % 2 == 1));
        assert(header[q + 1] != sync[1]);
    } else if q == 51 {
        assert(header[51] == (lfsr_state(51) % 2 == 1));
        assert(header[q + 0] != sync[0]);
    } else if q == 52 {
        assert(header[54] == (lfsr_state(54) % 2 == 1));
        assert(header[q + 2] != sync[2]);
    } else if q == 53 {
        assert(header[54] == (lfsr_state(54) % 2 == 1));
        assert(header[q + 1] != sync[1]);
    } else if q == 54 {
        assert(header[54] == (lfsr_state(54) % 2 == 1));
        assert(header[q + 0] != sync[0]);
    } else if q == 55 {
        assert(header[56] == (lfsr_state(56) % 2 == 1));
        assert(header[q + 1] != sync[1]);
    } else if q == 56 {
        assert(header[56] == (lfsr_state(56) % 2 == 1));
        assert(header[q + 0] != sync[0]);
    } else if q == 57 {
        assert(header[59] == (lfsr_state(59) % 2 == 1));
        assert(header[q + 2] != sync[2]);
    } else if q == 58 {
        assert(header[59] == (lfsr_state(59) % 2 == 1));
        assert(header[q + 1] != sync[1]);
    } else if q == 59 {
        assert(header[59] == (lfsr_state(59) % 2 == 1));
        assert(header[q + 0] != sync[0]);
    } else if q == 60 {
        assert(header[62] == (lfsr_state(62) % 2 == 1));
        assert(header[q + 2] != sync[2]);
    } else if q == 61 {
        assert(header[62] == (lfsr_state(62) % 2 == 1));
        assert(header[q + 1] != sync[1]);
    } else if q == 62 {
        assert(header[62] == (lfsr_state(62) % 2 == 1));
        assert(header[q + 0] != sync[0]);
    } else if q == 63 {
        assert(header[63] == (lfsr_state(63) % 2 == 1));
        assert(header[q + 0] != sync[0]);
    } else if q == 64 {
        assert(header[65] == (lfsr_state(65) % 2 == 1));
        assert(header[q + 1] != sync[1]);
    } else if q == 65 {
        assert(header[65] == (lfsr_state(65) % 2 == 1));
        assert(header[q + 0] != sync[0]);
    } else if q == 66 {
        assert(header[66] == (lfsr_state(66) % 2 == 1));
        assert(header[q + 0] != sync[0]);
    } else if q == 67 {
        assert(header[68] == (lfsr_state(68) % 2 == 1));
        assert(header[q + 1] != sync[1]);
    } else if q == 68 {
        assert(header[68] == (lfsr_state(68) % 2 == 1));
        assert(header[q + 0] != sync[0]);
    } else if q == 69 {
        assert(header[69] == (lfsr_state(69) % 2 == 1));
        assert(header[q + 0] != sync[0]);
    } else if q == 70 {
        assert(header[70] == (lfsr_state(70) % 2 == 1));
        assert(header[q + 0] != sync[0]);
    } else if q == 71 {
        assert(header[74] == (lfsr_state(74) % 2 == 1));
        assert(header[q + 3] != sync[3]);
    } else if q == 72 {
        assert(header[74] == (lfsr_state(74) % 2 == 1));
        assert(header[q + 2] != sync[2]);
    } else if q == 73 {
        assert(header[74] == (lfsr_state(74) % 2 == 1));
        assert(header[q + 1] != sync[1]);
    } else if q == 74 {
        assert(header[74] == (lfsr_state(74) % 2 == 1));
        assert(header[q + 0] != sync[0]);
    } else if q == 75 {
        assert(header[75] == (lfsr_state(75) % 2 == 1));
        assert(header[q + 0] != sync[0]);
    } else if q == 76 {
        assert(header[76] == (lfsr_state(76) % 2 == 1));
        assert(header[q + 0] != sync[0]);
    } else if q == 77 {
        assert(header[77] == (lfsr_state(77) % 2 == 1));
        assert(header[q + 0] != sync[0]);
    } else if q == 78 {
        assert(header[79] == (lfsr_state(79) % 2 == 1));
        assert(header[q + 1] != sync[1]);
    } else if q == 79 {
        assert(header[79] == (lfsr_state(79) % 2 == 1));
        assert(header[q + 0] != sync[0]);
    } else if q == 80 {
        assert(header[84] == (lfsr_state(84) % 2 == 1));
        assert(header[q + 4] != sync[4]);
    } else if q == 81 {
        assert(header[86] == (lfsr_state(86) % 2 == 1));
        assert(header[q + 5] != sync[5]);
    } else if q == 82 {
        assert(header[85] == (lfsr_state(85) % 2 == 1));
        assert(header[q + 3] != sync[3]);
    } else if q == 83 {
        assert(header[85] == (lfsr_state(85) % 2 == 1));
        assert(header[q + 2] != sync[2]);
    } else if q == 84 {
        assert(header[85] == (lfsr_state(85) % 2 == 1));
        assert(header[q + 1] != sync[1]);
    } else if q == 85 {
        assert(header[85] == (lfsr_state(85) % 2 == 1));
        assert(header[q + 0] != sync[0]);
    } else if q == 86 {
        assert(header[86] == (lfsr_state(86) % 2 == 1));
        assert(header[q + 0] != sync[0]);
    } else if q == 87 {
        assert(header[88] == (lfsr_state(88) % 2 == 1));
        assert(header[q + 1] != sync[1]);
    } else if q == 88 {
        assert(header[88] == (lfsr_state(88) % 2 == 1));
        assert(header[q + 0] != sync[0]);
    } else if q == 89 {
        assert(header[90] == (lfsr_state(90) % 2 == 1));
        assert(header[q + 1] != sync[1]);
    } else if q == 90 {
        assert(header[90] == (lfsr_state(90) % 2 == 1));
        assert(header[q + 0] != sync[0]);
    } else if q == 91 {
        assert(header[94] == (lfsr_state(94) % 2 == 1));
        assert(header[q + 3] != sync[3]);
    } else if q == 92 {
        assert(header[94] == (lfsr_state(94) % 2 == 1));
        assert(header[q + 2] != sync[2]);
    } else if q == 93 {
        assert(header[94] == (lfsr_state(94) % 2 == 1));
        assert(header[q + 1] != sync[1]);
    } else if q == 94 {
        assert(header[94] == (lfsr_state(94) % 2 == 1));
        assert(header[q + 0] != sync[0]);
    } else if q == 95 {
        assert(header[95] == (lfsr_state(95) % 2 == 1));
        assert(header[q + 0] != sync[0]);
    } else if q == 96 {
        assert(header[98] == (lfsr_state(98) % 2 == 1));
        assert(header[q + 2] != sync[2]);
    } else if q == 97 {
        assert(header[98] == (lfsr_state(98) % 2 == 1));
        assert(header[q + 1] != sync[1]);
    } else if q == 98 {
        assert(header[98] == (lfsr_state(98) % 2 == 1));
        assert(header[q + 0] != sync[0]);
    } else if q == 99 {
        assert(header[100] == (lfsr_state(100) % 2 == 1));
        assert(header[q + 1] != sync[1]);
    } else if q == 100 {
        assert(header[100] == (lfsr_state(100) % 2 == 1));
        assert(header[q + 0] != sync[0]);
    } else if q == 101 {
        assert(header[101] == (lfsr_state(101) % 2 == 1));
        assert(header[q + 0] != sync[0]);
    } else if q == 102 {
        assert(header[102] == (lfsr_state(102) % 2 == 1));
        assert(header[q + 0] != sync[0]);
    } else if q == 103 {
        assert(header[104] == (lfsr_state(104) % 2 == 1));
        assert(header[q + 1] != sync[1]);
    } else if q == 104 {
        assert(header[104] == (lfsr_state(104) % 2 == 1));
        assert(header[q + 0] != sync[0]);
    } else if q == 105 {
        assert(header[105] == (lfsr_state(105) % 2 == 1));
        assert(header[q + 0] != sync[0]);
    } else if q == 106 {
        assert(header[111] == (lfsr_state(111) % 2 == 1));
        assert(header[q + 5] != sync[5]);
    } else if q == 107 {
        assert(header[110] == (lfsr_state(110) % 2 == 1));
        assert(header[q + 3] != sync[3]);
    } else if q == 108 {
        assert(header[110] == (lfsr_state(110) % 2 == 1));
        assert(header[q + 2] != sync[2]);
    } else if q == 109 {
        assert(header[110] == (lfsr_state(110) % 2 == 1));
        assert(header[q + 1] != sync[1]);
    } else if q == 110 {
        assert(header[110] == (lfsr_state(110) % 2 == 1));
        assert(header[q + 0] != sync[0]);
    } else if q == 111 {
        assert(header[111] == (lfsr_state(111) % 2 == 1));
        assert(header[q + 0] != sync[0]);
    } else if q == 112 {
        assert(header[112] == (lfsr_state(112) % 2 == 1));
        assert(header[q + 0] != sync[0]);
    } else if q == 113 {
        assert(header[114] == (lfsr_state(114) % 2 == 1));
        assert(header[q + 1] != sync[1]);
    } else if q == 114 {
        assert(header[114] == (lfsr_state(114) % 2 == 1));
        assert(header[q + 0] != sync[0]);
    } else if q == 115 {
        assert(header[116] == (lfsr_state(116) % 2 == 1));
        assert(header[q + 1] != sync[1]);
    } else if q == 116 {
        assert(header[116] == (lfsr_state(116) % 2 == 1));
        assert(header[q + 0] != sync[0]);
    } else if q == 117 {
        assert(header[117] == (lfsr_state(117) % 2 == 1));
        assert(header[q + 0] != sync[0]);
    } else if q == 118 {
        assert(header[118] == (lfsr_state(118) % 2 == 1));
        assert(header[q + 0] != sync[0]);
    } else if q == 119 {
        assert(header[119] == (lfsr_state(119) % 2 == 1));
        assert(header[q + 0] != sync[0]);
    } else if q == 120 {
        assert(header[122] == (lfsr_state(122) % 2 == 1));
        assert(header[q + 2] != sync[2]);
    } else if q == 121 {
        assert(header[122] == (lfsr_state(122) % 2 == 1));
        assert(header[q + 1] != sync[1]);
    } else if q == 122 {
        assert(header[122] == (lfsr_state(122) % 2 == 1));
        assert(header[q + 0] != sync[0]);
    } else if q == 123 {
        assert(header[123] == (lfsr_state(123) % 2 == 1));
        assert(header[q + 0] != sync[0]);
    } else if q == 124 {
        assert(header[124] == (lfsr_state(124) % 2 == 1));
        assert(header[q + 0] != sync[0]);
    } else if q == 125 {
        assert(header[125] == (lfsr_state(125) % 2 == 1));
        assert(header[q + 0] != sync[0]);
    } else if q == 126 {
        assert(header[126] == (lfsr_state(126) % 2 == 1));
        assert(header[q + 0] != sync[0]);
    } else if q == 127 {
        assert(header[127] == false);
        assert(header[q + 0] != sync[0]);
    }
}

proof fn lemma_distance_zero(bits: Seq<u8>, p: int, n: nat)
    ensures
        sync_distance(bits, p, n) == 0 <==> forall|j: int|
            0 <= j < n ==> (#[trigger] bits[p + j] != 0) == sync_bits()[j],
    decreases n,
{
    if n > 0 {
        lemma_distance_zero(bits, p, (n - 1) as nat);
        if sync_distance(bits, p, n) == 0 {
            assert forall|j: int| 0 <= j < n implies (#[trigger] bits[p + j] != 0)
                == sync_bits()[j] by {}
        } else if sync_distance(bits, p, (n - 1) as nat) == 0 {
            assert((bits[p + (n - 1)] != 0) != sync_bits()[n - 1]);
        }
    }
}

proof fn lemma_preamble_exact(bits: Seq<u8>, n: nat)
    requires
        n <= 128,
        bits.len() >= 128,
        forall|i: int| 0 <= i < 128 ==> bits[i] == levels(preamble_bits())[i],
    ensures
        preamble_distance(bits, 128, n) == 0,
    decreases n,
{
    if n > 0 {
        lemma_preamble_exact(bits, (n - 1) as nat);
    }
}

/// The best of the places below `n`.
proof fn lemma_best_below(bits: Seq<u8>, n: int, p: int) -> (best: int)
    requires
        sync_candidate(bits, p),
        p < n,
    ensures
        sync_candidate(bits, best),
        best < n,
        forall|q: int|
            q < n && #[trigger] sync_candidate(bits, q) ==> {
                ||| sync_distance(bits, best, 16) < sync_distance(bits, q, 16)
                ||| sync_distance(bits, best, 16) == sync_distance(bits, q, 16) && best <= q
            },
    decreases n,
{
    if exists|r: int| r < n - 1 && #[trigger] sync_candidate(bits, r) {
        let r = choose|r: int| r < n - 1 && #[trigger] sync_candidate(bits, r);
        let b = lemma_best_below(bits, n - 1, r);
        if sync_candidate(bits, n - 1) && sync_distance(bits, n - 1, 16) < sync_distance(
            bits,
            b,
            16,
        ) {
            n - 1
        } else {
            b
        }
    } else {
        p
    }
}

/// Up to two wrong bits in a sync word and a quarter of wrong bits before it do
/// not keep it from being found: some place is, and none with more errors.
pub proof fn law_sync_survives_errors(bits: Seq<u8>, p: int)
    requires
        sync_candidate(bits, p),
    ensures
        sync_position(bits) is Some,
        sync_distance(bits, sync_position(bits).unwrap(), 16) <= sync_distance(bits, p, 16),
{
    let best = lemma_best_below(bits, bits.len() as int, p);
    assert(best_sync(bits, best));
    lemma_best_unique(bits, best);
}

/// The sync word of a freshly built frame is found in its place, whatever
/// follows the header.
pub proof fn law_sync_found(tail: Seq<u8>)
    ensures
        sync_position(header_levels() + tail) == Some(128int),
{
    let bits = header_levels() + tail;
    let header = preamble_bits() + sync_bits();
    crate::bits::lemma_bits_of_len(0xF68D, 16);
    assert(header_levels() =~= levels(header));
    assert forall|i: int| 0 <= i < 144 implies bits[i] == (if header[i] {
        1u8
    } else {
        0u8
    }) by {}
    assert forall|j: int| 0 <= j < 16 implies (#[trigger] bits[128 + j] != 0)
        == sync_bits()[j] by {
        assert(header[128 + j] == sync_bits()[j]);
    }
    lemma_distance_zero(bits, 128, 16);
    lemma_preamble_exact(bits, 32);
    assert(sync_candidate(bits, 128));
    assert forall|q: int| #[trigger] sync_candidate(bits, q) implies {
        ||| sync_distance(bits, 128, 16) < sync_distance(bits, q, 16)
        ||| sync_distance(bits, 128, 16) == sync_distance(bits, q, 16) && 128 <= q
    } by {
        if q < 128 {
            lemma_no_early_sync(header, sync_bits(), q);
            let j = choose|j: int|
                0 <= j < 16 && #[trigger] header[q + j] != sync_bits()[j];
            lemma_distance_zero(bits, q, 16);
            assert((bits[q + j] != 0) != sync_bits()[j]);
        }
    }
    lemma_best_unique(bits, 128);
}

/// Flipping all bits twice changes nothing.
pub proof fn law_inverting_is_an_involution(bits: Seq<u8>)
    ensures
        inverted(inverted(bits)) == bits,
{
    assert forall|i: int| 0 <= i < bits.len() implies inverted(inverted(bits))[i] == bits[i] by {
        let b = bits[i];
        assert((b ^ 1u8) ^ 1u8 == b) by (bit_vector);
    }
    assert(inverted(inverted(bits)) =~= bits);
}

/// A frame that arrives with all its bits flipped is recognised as such, in its
/// place, unless the flipped bits happen to hold a sync word themselves.
pub proof fn law_flipped_frame_found(tail: Seq<u8>)
    requires
        sync_position(inverted(header_levels() + tail)) is None,
    ensures
        polarity_sync(inverted(header_levels() + tail)) == Some((128int, true)),
        inverted(inverted(header_levels() + tail)) == header_levels() + tail,
{
    law_inverting_is_an_involution(header_levels() + tail);
    law_sync_found(tail);
}

/// A frame survives the air when no bit is wrong: its bits are read back as
/// its data.
pub proof fn law_bits_roundtrip(data: Seq<u8>)
    requires
        data.len() <= 255,
    ensures
        parse_bits(header_levels() + payload_levels(data, frame_crc(data))) == Ok::<
            Seq<u8>,
            FrameError,
        >(data),
{
    let payload = payload_levels(data, frame_crc(data));
    let bits = header_levels() + payload;
    crate::bits::lemma_bits_of_len(0xF68D, 16);
    crate::bits::lemma_unpacked_len(payload_bytes(data, frame_crc(data)));
    law_sync_found(payload);
    assert(bits.skip(144) =~= payload);
    law_payload_roundtrip(data);
}

/// The number of each preamble byte.
proof fn lemma_preamble_byte(k: int)
    requires
        0 <= k < 16,
    ensures
        crate::bits::value(preamble_bits().subrange(8 * k, 8 * k + 8)) == PN_PREAMBLE@[k],
{
    lemma_states();
    let bits = preamble_bits();
    let s = bits.subrange(8 * k, 8 * k + 8);
    if k == 0 {
        assert(s =~= seq![true, false, false, false, false, false, false, true]);
        lemma_value_of_eight(s);
    } else if k == 1 {
        assert(s =~= seq![true, true, true, true, true, true, false, true]);
        lemma_value_of_eight(s);
    } else if k == 2 {
        assert(s =~= seq![false, true, false, true, false, false, true, true]);
        lemma_value_of_eight(s);
    } else if k == 3 {
        assert(s =~= seq![false, false, true, true, true, false, true, true]);
        lemma_value_of_eight(s);
    } else if k == 4 {
        assert(s =~= seq![true, false, true, false, false, true, false, true]);
        lemma_value_of_eight(s);
    } else if k == 5 {
        assert(s =~= seq![true, false, false, false, true, true, false, true]);
        lemma_value_of_eight(s);
    } else if k == 6 {
        assert(s =~= seq![true, true, true, false, true, true, false, true]);
        lemma_value_of_eight(s);
    } else if k == 7 {
        assert(s =~= seq![false, true, true, false, true, true, false, false]);
        lemma_value_of_eight(s);
    } else if k == 8 {
        assert(s =~= seq![true, false, false, true, false, false, false, true]);
        lemma_value_of_eight(s);
    } else if k == 9 {
        assert(s =~= seq![true, true, false, false, false, false, true, false]);
        lemma_value_of_eight(s);
    } else if k == 10 {
        assert(s =~= seq![true, true, true, true, true, false, false, true]);
        lemma_value_of_eight(s);
    } else if k == 11 {
        assert(s =~= seq![false, true, false, true, true, true, false, false]);
        lemma_value_of_eight(s);
    } else if k == 12 {
        assert(s =~= seq![true, true, false, true, false, false, false, true]);
        lemma_value_of_eight(s);
    } else if k == 13 {
        assert(s =~= seq![false, false, true, true, true, true, false, false]);
        lemma_value_of_eight(s);
    } else if k == 14 {
        assert(s =~= seq![false, true, false, true, false, false, false, false]);
        lemma_value_of_eight(s);
    } else if k == 15 {
        assert(s =~= seq![true, true, false, false, false, false, false, false]);
        lemma_value_of_eight(s);
    }
}

/// A prefix with one more bit.
proof fn lemma_value_of_prefix(s: Seq<bool>, k: int)
    requires
        0 <= k < s.len(),
    ensures
        crate::bits::value(s.take(k + 1)) == 2 * crate::bits::value(s.take(k)) + one(s[k]),
{
    assert(s.take(k + 1).drop_last() =~= s.take(k));
    assert(s.take(k + 1).last() == s[k]);
}

/// The number of eight bits.
proof fn lemma_value_of_eight(s: Seq<bool>)
    requires
        s.len() == 8,
    ensures
        crate::bits::value(s) == one(s[0]) * 128 + one(s[1]) * 64 + one(s[2]) * 32 + one(s[3]) * 16
            + one(s[4]) * 8 + one(s[5]) * 4 + one(s[6]) * 2 + one(s[7]),
{
    assert(crate::bits::value(s.take(0)) == 0);
    lemma_value_of_prefix(s, 0);
    lemma_value_of_prefix(s, 1);
    lemma_value_of_prefix(s, 2);
    lemma_value_of_prefix(s, 3);
    lemma_value_of_prefix(s, 4);
    lemma_value_of_prefix(s, 5);
    lemma_value_of_prefix(s, 6);
    lemma_value_of_prefix(s, 7);
    assert(s.take(8) =~= s);
}

spec fn one(b: bool) -> nat {
    if b {
        1
    } else {
        0
    }
}

/// Bytes whose numbers are those of the bits, eight by eight, are the packed
/// bits.
proof fn lemma_packed_from(bits: Seq<bool>, bytes: Seq<u8>, k: int)
    requires
        0 <= k <= bytes.len(),
        bits.len() == 8 * bytes.len(),
        forall|j: int|
            0 <= j < bytes.len() ==> crate::bits::value(
                #[trigger] bits.subrange(8 * j, 8 * j + 8),
            ) == bytes[j],
    ensures
        crate::bits::packed(bits.skip(8 * k)) == bytes.skip(k),
    decreases bytes.len() - k,
{
    let rest = bits.skip(8 * k);
    if k == bytes.len() {
        assert(rest =~= seq![]);
        assert(bytes.skip(k) =~= seq![]);
    } else {
        lemma_packed_from(bits, bytes, k + 1);
        assert(rest.take(8) =~= bits.subrange(8 * k, 8 * k + 8));
        assert(rest.skip(8) =~= bits.skip(8 * (k + 1)));
        assert(seq![bytes[k]] + bytes.skip(k + 1) =~= bytes.skip(k));
    }
}

/// The preamble constant holds the m-sequence.
pub proof fn law_preamble_is_m_sequence()
    ensures
        PN_PREAMBLE@ == crate::bits::packed(preamble_bits()),
{
    lemma_states();
    let bits = preamble_bits();
    assert forall|k: int| 0 <= k < 16 implies crate::bits::value(
        #[trigger] bits.subrange(8 * k, 8 * k + 8),
    ) == PN_PREAMBLE@[k] by {
        lemma_preamble_byte(k);
    }
    lemma_packed_from(bits, PN_PREAMBLE@, 0);
    assert(bits.skip(0) =~= bits);
    assert(PN_PREAMBLE@.skip(0) =~= PN_PREAMBLE@);
}

/// The places counted by `sync_distance`.
proof fn lemma_sync_distance_counts(bits: Seq<u8>, p: int, n: nat)
    ensures
        Set::new(|i: int| 0 <= i < n && (bits[p + i] != 0) != sync_bits()[i]).finite(),
        sync_distance(bits, p, n) == Set::new(
            |i: int| 0 <= i < n && (bits[p + i] != 0) != sync_bits()[i],
        ).len(),
    decreases n,
{
    let all = Set::new(|i: int| 0 <= i < n && (bits[p + i] != 0) != sync_bits()[i]);
    if n == 0 {
        assert(all =~= Set::empty());
    } else {
        let m = (n - 1) as nat;
        let rest = Set::new(|i: int| 0 <= i < m && (bits[p + i] != 0) != sync_bits()[i]);
        lemma_sync_distance_counts(bits, p, m);
        if (bits[p + m] != 0) != sync_bits()[m as int] {
            assert(all =~= rest.insert(m as int));
        } else {
            assert(all =~= rest);
        }
    }
}

/// The places counted by `preamble_distance`.
proof fn lemma_preamble_distance_counts(bits: Seq<u8>, p: int, n: nat)
    requires
        n <= 128,
    ensures
        Set::new(
            |i: int|
                1 <= i <= n && bits[p - i] != (if pn_bit(128 - i) {
                    1u8
                } else {
                    0u8
                }),
        ).finite(),
        preamble_distance(bits, p, n) == Set::new(
            |i: int|
                1 <= i <= n && bits[p - i] != (if pn_bit(128 - i) {
                    1u8
                } else {
                    0u8
                }),
        ).len(),
    decreases n,
{
    let all = Set::new(
        |i: int|
            1 <= i <= n && bits[p - i] != (if pn_bit(128 - i) {
                1u8
            } else {
                0u8
            }),
    );
    if n == 0 {
        assert(all =~= Set::empty());
    } else {
        let m = (n - 1) as nat;
        let rest = Set::new(
            |i: int|
                1 <= i <= m && bits[p - i] != (if pn_bit(128 - i) {
                    1u8
                } else {
                    0u8
                }),
        );
        lemma_preamble_distance_counts(bits, p, m);
        assert(levels(preamble_bits())[128 - n] == (if pn_bit(128 - n) {
            1u8
        } else {
            0u8
        }));
        if bits[p - n] != levels(preamble_bits())[128 - n] {
            assert(all =~= rest.insert(n as int));
        } else {
            assert(all =~= rest);
        }
    }
}

/// How many errors a sync word survives. Let at most two of the sixteen bits
/// from `p` on differ from the sync word, and at most eight of the 32 bits
/// before them, or a quarter of those there are, from the end of the preamble.
/// Then a sync word is found, there or at a place with no more wrong bits.
pub proof fn law_sync_tolerates_errors(bits: Seq<u8>, p: int)
    requires
        16 <= p <= bits.len() - 16,
        Set::new(|i: int| 0 <= i < 16 && (bits[p + i] != 0) != sync_bits()[i]).len() <= 2,
        p >= 32 ==> Set::new(
            |i: int|
                1 <= i <= 32 && bits[p - i] != (if pn_bit(128 - i) {
                    1u8
                } else {
                    0u8
                }),
        ).len() <= 8,
        p < 32 ==> Set::new(
            |i: int|
                1 <= i <= p && bits[p - i] != (if pn_bit(128 - i) {
                    1u8
                } else {
                    0u8
                }),
        ).len() <= p / 4,
    ensures
        sync_position(bits) is Some,
        Set::new(
            |i: int|
                0 <= i < 16 && (bits[sync_position(bits).unwrap() + i] != 0) != sync_bits()[i],
        ).len() <= Set::new(
            |i: int| 0 <= i < 16 && (bits[p + i] != 0) != sync_bits()[i],
        ).len(),
{
    lemma_sync_distance_counts(bits, p, 16);
    lemma_preamble_distance_counts(bits, p, preamble_span(p));
    if p < 32 {
        assert(Set::new(
            |i: int|
                1 <= i <= preamble_span(p) && bits[p - i] != (if pn_bit(128 - i) {
                    1u8
                } else {
                    0u8
                }),
        ) =~= Set::new(
            |i: int|
                1 <= i <= p && bits[p - i] != (if pn_bit(128 - i) {
                    1u8
                } else {
                    0u8
                }),
        ));
    } else {
        assert(Set::new(
            |i: int|
                1 <= i <= preamble_span(p) && bits[p - i] != (if pn_bit(128 - i) {
                    1u8
                } else {
                    0u8
                }),
        ) =~= Set::new(
            |i: int|
                1 <= i <= 32 && bits[p - i] != (if pn_bit(128 - i) {
                    1u8
                } else {
                    0u8
                }),
        ));
    }
    assert(Set::new(|i: int| 0 <= i < 16nat && (bits[p + i] != 0) != sync_bits()[i]) =~= Set::new(
        |i: int| 0 <= i < 16 && (bits[p + i] != 0) != sync_bits()[i],
    ));
    assert(sync_candidate(bits, p));
    law_sync_survives_errors(bits, p);
    let q = sync_position(bits).unwrap();
    lemma_sync_distance_counts(bits, q, 16);
    assert(Set::new(|i: int| 0 <= i < 16nat && (bits[q + i] != 0) != sync_bits()[i]) =~= Set::new(
        |i: int| 0 <= i < 16 && (bits[q + i] != 0) != sync_bits()[i],
    ));
}

/// A sync word is found only where at most two of its bits are wrong and at
/// most a quarter of the up to 32 bits before it, and no such place has fewer
/// wrong bits in the sync word, or as many and comes earlier.
pub proof fn law_found_sync_is_the_best(bits: Seq<u8>, q: int)
    requires
        sync_position(bits) is Some,
    ensures
        ({
            let p = sync_position(bits).unwrap();
            let span = if p < 32 {
                p
            } else {
                32
            };
            let wrong = Set::new(|i: int| 0 <= i < 16 && (bits[p + i] != 0) != sync_bits()[i]);
            &&& 16 <= p <= bits.len() - 16
            &&& wrong.len() <= 2
            &&& Set::new(
                |i: int|
                    1 <= i <= span && bits[p - i] != (if pn_bit(128 - i) {
                        1u8
                    } else {
                        0u8
                    }),
            ).len() <= span / 4
            &&& {
                let q_span = if q < 32 {
                    q
                } else {
                    32
                };
                let q_wrong = Set::new(
                    |i: int| 0 <= i < 16 && (bits[q + i] != 0) != sync_bits()[i],
                );
                16 <= q <= bits.len() - 16 && q_wrong.len() <= 2 && Set::new(
                    |i: int|
                        1 <= i <= q_span && bits[q - i] != (if pn_bit(128 - i) {
                            1u8
                        } else {
                            0u8
                        }),
                ).len() <= q_span / 4 ==> wrong.len() < q_wrong.len() || wrong.len()
                    == q_wrong.len() && p <= q
            }
        }),
{
    let p = sync_position(bits).unwrap();
    assert(best_sync(bits, p));
    assert(sync_candidate(bits, p));
    lemma_candidate_counts(bits, p);
    if 16 <= q <= bits.len() - 16 {
        lemma_candidate_counts(bits, q);
    }
}

/// A candidate by the number of its wrong bits.
proof fn lemma_candidate_counts(bits: Seq<u8>, p: int)
    requires
        16 <= p <= bits.len() - 16,
    ensures
        ({
            let span = if p < 32 {
                p
            } else {
                32
            };
            let wrong = Set::new(|i: int| 0 <= i < 16 && (bits[p + i] != 0) != sync_bits()[i]);
            let before = Set::new(
                |i: int|
                    1 <= i <= span && bits[p - i] != (if pn_bit(128 - i) {
                        1u8
                    } else {
                        0u8
                    }),
            );
            &&& sync_distance(bits, p, 16) == wrong.len()
            &&& sync_candidate(bits, p) == (wrong.len() <= 2 && before.len() <= span / 4)
        }),
{
    let span = if p < 32 {
        p
    } else {
        32
    };
    lemma_sync_distance_counts(bits, p, 16);
    lemma_preamble_distance_counts(bits, p, preamble_span(p));
    assert(Set::new(
        |i: int|
            1 <= i <= preamble_span(p) && bits[p - i] != (if pn_bit(128 - i) {
                1u8
            } else {
                0u8
            }),
    ) =~= Set::new(
        |i: int|
            1 <= i <= span && bits[p - i] != (if pn_bit(128 - i) {
                1u8
            } else {
                0u8
            }),
    ));
    assert(Set::new(|i: int| 0 <= i < 16nat && (bits[p + i] != 0) != sync_bits()[i]) =~= Set::new(
        |i: int| 0 <= i < 16 && (bits[p + i] != 0) != sync_bits()[i],
    ));
}

/// The sync word, bit by bit.
pub proof fn law_sync_word()
    ensures
        sync_bits() == seq![
            true, true, true, true, false, true, true, false, true, false, false, false, true,
            true, false, true,
        ],
{
    reveal_with_fuel(crate::bits::bits_of, 17);
    assert(sync_bits() =~= seq![
        true, true, true, true, false, true, true, false, true, false, false, false, true, true,
        false, true,
    ]);
}

/// The preamble obeys the recurrence of its shift register: each bit is the XOR
/// of the bits seven and six places before it.
pub proof fn law_preamble_recurrence(i: int)
    requires
        0 <= i < 120,
    ensures
        pn_bit(i + 7) == (pn_bit(i) != pn_bit(i + 6)),
{
    let n = i as nat;
    let s0 = lfsr_state(n);
    let s1 = lfsr_state(n + 1);
    let s2 = lfsr_state(n + 2);
    let s3 = lfsr_state(n + 3);
    let s4 = lfsr_state(n + 4);
    let s5 = lfsr_state(n + 5);
    let s6 = lfsr_state(n + 6);
    let s7 = lfsr_state(n + 7);
    lemma_shifted_place(n);
    lemma_shifted_place(n + 1);
    lemma_shifted_place(n + 2);
    lemma_shifted_place(n + 3);
    lemma_shifted_place(n + 4);
    lemma_shifted_place(n + 5);
    lemma_shifted_place(n + 6);
}

/// One step of the register moves each bit one place down, and puts the XOR of
/// the lowest and the highest bit in the highest place.
proof fn lemma_shifted_place(n: nat)
    ensures
        ({
            let old_state = lfsr_state(n);
            let state = lfsr_state(n + 1);
            &&& state % 2 == old_state / 2 % 2
            &&& state / 2 % 2 == old_state / 4 % 2
            &&& state / 4 % 2 == old_state / 8 % 2
            &&& state / 8 % 2 == old_state / 16 % 2
            &&& state / 16 % 2 == old_state / 32 % 2
            &&& state / 32 % 2 == old_state / 64 % 2
            &&& (state / 64 % 2 == 1) == ((old_state % 2 == 1) != (old_state / 64 % 2 == 1))
        }),
{
    lemma_state_bound(n);
    assert((n + 1) as nat - 1 == n);
    let l = lfsr_state(n) as int;
    let s = lfsr_state(n + 1) as int;
    assert(lfsr_state(n + 1) == lfsr_step(lfsr_state(n)));
    let (b6, r6) = (l / 64, l % 64);
    let (b5, r5) = (r6 / 32, r6 % 32);
    let (b4, r4) = (r5 / 16, r5 % 16);
    let (b3, r3) = (r4 / 8, r4 % 8);
    let (b2, r2) = (r3 / 4, r3 % 4);
    let (b1, b0) = (r2 / 2, r2 % 2);
    let x = (b0 + b6) % 2;
    assert(l == 64 * b6 + 32 * b5 + 16 * b4 + 8 * b3 + 4 * b2 + 2 * b1 + b0);
    lemma_seven_places(b6, b5, b4, b3, b2, b1, b0);
    assert(l / 2 == 32 * b6 + 16 * b5 + 8 * b4 + 4 * b3 + 2 * b2 + b1);
    assert(s == 64 * x + 32 * b6 + 16 * b5 + 8 * b4 + 4 * b3 + 2 * b2 + b1);
    lemma_seven_places(x, b6, b5, b4, b3, b2, b1);
}

/// The bits of a number below 128.
proof fn lemma_seven_places(b6: int, b5: int, b4: int, b3: int, b2: int, b1: int, b0: int)
    requires
        0 <= b6 <= 1 && 0 <= b5 <= 1 && 0 <= b4 <= 1 && 0 <= b3 <= 1,
        0 <= b2 <= 1 && 0 <= b1 <= 1 && 0 <= b0 <= 1,
    ensures
        ({
            let v = 64 * b6 + 32 * b5 + 16 * b4 + 8 * b3 + 4 * b2 + 2 * b1 + b0;
            &&& v % 2 == b0
            &&& v / 2 % 2 == b1
            &&& v / 4 % 2 == b2
            &&& v / 8 % 2 == b3
            &&& v / 16 % 2 == b4
            &&& v / 32 % 2 == b5
            &&& v / 64 % 2 == b6
        }),
{
}

/// A frame on the air is the preamble, the sync word, and eight bits for each of
/// the length, modulo 256, the data and the two bytes of the checksum, high byte
/// first, each with its highest bit first.
pub proof fn law_frame_layout(data: Seq<u8>, k: int, j: int)
    requires
        0 <= k < data.len() + 3,
        0 <= j < 8,
    ensures
        ({
            let crc = crate::checksum::crc16(
                seq![(data.len() % 256) as u8] + data,
            );
            let byte = if k == 0 {
                (data.len() % 256) as u8
            } else if k <= data.len() {
                data[k - 1]
            } else if k == data.len() + 1 {
                (crc / 256) as u8
            } else {
                (crc % 256) as u8
            };
            payload_levels(data, frame_crc(data))[8 * k + j] == byte as int / vstd::arithmetic::power2::pow2(
                (7 - j) as nat,
            ) as int % 2
        }),
        payload_levels(data, frame_crc(data)).len() == 8 * (data.len() + 3),
        header_levels().len() == 144,
        j < 8 && k < 16 ==> header_levels()[8 * k + j] == (if pn_bit(8 * k + j) {
            1u8
        } else {
            0u8
        }),
        header_levels()[128 + j] == (if sync_bits()[j] {
            1u8
        } else {
            0u8
        }),
        header_levels()[136 + j] == (if sync_bits()[8 + j] {
            1u8
        } else {
            0u8
        }),
{
    let crc = frame_crc(data);
    let bytes = payload_bytes(data, crc);
    crate::bits::lemma_bits_of_len(0xF68D, 16);
    lemma_unpacked_at(bytes, k);
    let u = crate::bits::unpacked(bytes);
    assert(u.subrange(8 * k, 8 * k + 8)[j] == u[8 * k + j]);
    crate::bits::law_bits_of_at(bytes[k] as nat, 8, j);
}

/// Bits as bytes and bytes as bits: a one is a 1 and a zero a 0, and every byte
/// but 0 is read as a one. Inverting flips the lowest bit of each byte.
pub proof fn law_levels(s: Seq<bool>, b: Seq<u8>, i: int)
    ensures
        levels(s).len() == s.len(),
        hard(b).len() == b.len(),
        inverted(b).len() == b.len(),
        0 <= i < s.len() ==> levels(s)[i] == (if s[i] {
            1u8
        } else {
            0u8
        }),
        0 <= i < b.len() ==> hard(b)[i] == (b[i] != 0),
        0 <= i < b.len() && b[i] == 0 ==> inverted(b)[i] == 1,
        0 <= i < b.len() && b[i] == 1 ==> inverted(b)[i] == 0,
{
    assert(0u8 ^ 1u8 == 1u8 && 1u8 ^ 1u8 == 0u8) by (bit_vector);
}

/// What payload bits say: those of a length byte, as many data bytes and a
/// checksum of two bytes hold these fields, whatever follows. Fewer than 24 bits
/// are too short, and otherwise bits that end before the checksum are truncated.
pub proof fn law_payload_is_read(length: u8, data: Seq<u8>, crc: u16, rest: Seq<bool>)
    ensures
        rest.len() < 24 ==> read_fields(rest) == Err::<Fields, FrameError>(
            FrameError::PayloadTooShort,
        ),
        16 <= rest.len() < 8 * length + 16 ==> read_fields(
            crate::bits::bits_of(length as nat, 8) + rest,
        ) == Err::<Fields, FrameError>(FrameError::Truncated),
        data.len() <= 255 ==> read_fields(
            crate::bits::unpacked(payload_bytes(data, crc)) + rest,
        ) == Ok::<Fields, FrameError>(Fields { length: data.len() as u8, data, crc }),
{
    let first = crate::bits::bits_of(length as nat, 8);
    crate::bits::lemma_byte_value(length);
    crate::bits::lemma_bits_of_len(length as nat, 8);
    assert((first + rest).take(8) =~= first);
    if data.len() <= 255 {
        law_fields_roundtrip(data, crc);
        let s = crate::bits::unpacked(payload_bytes(data, crc));
        lemma_hard_levels(s);
        lemma_unpacked_at(payload_bytes(data, crc), 0);
        let n = data.len() as int;
        let t = s + rest;
        assert(s.len() == 8 * (n + 3));
        assert(t.take(8) =~= s.take(8));
        assert(t.subrange(8 + 8 * n, 24 + 8 * n) =~= s.subrange(8 + 8 * n, 24 + 8 * n));
        let f = read_fields(s).unwrap();
        let g = read_fields(t).unwrap();
        assert(crate::bits::value(t.take(8)) == n);
        assert forall|i: int| 0 <= i < n implies g.data[i] == f.data[i] by {
            assert(t.subrange(8 + 8 * i, 16 + 8 * i) =~= s.subrange(8 + 8 * i, 16 + 8 * i));
        }
        assert(g.data =~= f.data);
    }
}

/// What received bits say: fewer than 168 are too short; otherwise a sync word
/// has to be found, and the payload starts 16 bits behind it. Fields are taken
/// where the checksum of length and data is the one they carry.
pub proof fn law_bits_are_read(bits: Seq<u8>, f: Fields, calculated: u16, s: Seq<bool>)
    ensures
        bits.len() < 168 ==> parse_bits(bits) == Err::<Seq<u8>, FrameError>(FrameError::TooShort),
        bits.len() >= 168 && sync_position(bits) is None ==> parse_bits(bits) == Err::<
            Seq<u8>,
            FrameError,
        >(FrameError::SyncNotFound),
        bits.len() >= 168 && sync_position(bits) is Some ==> parse_bits(bits) == parse_payload(
            hard(bits.subrange(sync_position(bits).unwrap() + 16, bits.len() as int)),
        ),
        accepted(f, f.crc) == Ok::<Seq<u8>, FrameError>(f.data),
        calculated != f.crc ==> accepted(f, calculated) == Err::<Seq<u8>, FrameError>(
            FrameError::CrcMismatch { expected: calculated, got: f.crc },
        ),
        read_fields(s) is Ok ==> parse_payload(s) == accepted(
            read_fields(s).unwrap(),
            crate::checksum::crc16(
                seq![read_fields(s).unwrap().length] + read_fields(s).unwrap().data,
            ),
        ),
        read_fields(s) matches Err(e) ==> parse_payload(s) == Err::<Seq<u8>, FrameError>(e),
{
    if sync_position(bits) is Some {
        let p = sync_position(bits).unwrap();
        assert(best_sync(bits, p));
        assert(bits.skip(p + 16) =~= bits.subrange(p + 16, bits.len() as int));
    }
}

/// The polarity: the bits as they are where they hold a sync word, else flipped
/// where those do.
pub proof fn law_polarity(bits: Seq<u8>, p: int)
    ensures
        (polarity_sync(bits) == Some((p, false))) == (sync_position(bits) == Some(p)),
        (polarity_sync(bits) == Some((p, true))) == (sync_position(bits) is None && sync_position(
            inverted(bits),
        ) == Some(p)),
        polarity_sync(bits) is None == (sync_position(bits) is None && sync_position(
            inverted(bits),
        ) is None),
{
}

} // verus!
