//! AX.25 UI frame codec.
//!
//! Frame layout:
//!
//! ```text
//! | dest (7) | src (7) | digipeaters (0-56) | 0x03 | 0xF0 | info (0-256) | FCS (2) |
//! ```
//!
//! Bit-level framing (flags, bit stuffing) is the modem's business.
use vstd::prelude::*;
use vstd::string::*;
use vstd::utf8::*;

verus! {

/// Maximum info field length (bytes).
pub const MAX_INFO_LEN: usize = 256;

/// Maximum number of digipeater addresses.
pub const MAX_DIGIPEATERS: usize = 8;

/// An AX.25 address (callsign + SSID).
#[derive(Debug, Clone, PartialEq, Eq)]
pub struct Ax25Address {
    /// Callsign, e.g. `"W1AW"`. At most 6 ASCII uppercase characters.
    pub callsign: String,
    /// Secondary Station Identifier (0-15).
    pub ssid: u8,
}

/// What an [`Ax25Address`] says.
#[verifier::ext_equal]
pub struct AddressContent {
    pub callsign: Seq<char>,
    pub ssid: u8,
}

impl View for Ax25Address {
    type V = AddressContent;

    open spec fn view(&self) -> AddressContent {
        AddressContent { callsign: self.callsign@, ssid: self.ssid }
    }
}

/// An AX.25 UI frame.
#[derive(Debug, Clone, PartialEq, Eq)]
pub struct Ax25Frame {
    pub dest: Ax25Address,
    pub src: Ax25Address,
    /// Up to [`MAX_DIGIPEATERS`] digipeater addresses.
    pub digipeaters: Vec<Ax25Address>,
    /// Information field (0-[`MAX_INFO_LEN`] bytes).
    pub info: Vec<u8>,
}

/// What an [`Ax25Frame`] says.
#[verifier::ext_equal]
pub struct FrameContent {
    pub dest: AddressContent,
    pub src: AddressContent,
    pub digipeaters: Seq<AddressContent>,
    pub info: Seq<u8>,
}

/// What a list of addresses says.
pub open spec fn addresses(list: Seq<Ax25Address>) -> Seq<AddressContent> {
    list.map_values(|a: Ax25Address| a@)
}

impl View for Ax25Frame {
    type V = FrameContent;

    open spec fn view(&self) -> FrameContent {
        FrameContent {
            dest: self.dest@,
            src: self.src@,
            digipeaters: addresses(self.digipeaters@),
            info: self.info@,
        }
    }
}

/// The byte `i` of the callsign field: the callsign's own byte, or a space.
pub open spec fn field_byte(callsign: Seq<u8>, i: int) -> u8 {
    if i < callsign.len() {
        callsign[i]
    } else {
        0x20
    }
}

/// The seven bytes of an address: six callsign bytes, each moved up by one
/// bit, and the SSID between its reserved bits and the last-address bit.
pub open spec fn address_bytes(a: AddressContent, last: bool) -> Seq<u8> {
    let c = encode_utf8(a.callsign);
    Seq::new(
        7,
        |i: int|
            if i < 6 {
                (field_byte(c, i) * 2 % 256) as u8
            } else {
                (0x60 + a.ssid % 16 * 2 + if last {
                    1int
                } else {
                    0int
                }) as u8
            },
    )
}

/// Whether an ASCII character is white space.
pub open spec fn is_space(b: u8) -> bool {
    9 <= b <= 13 || b == 32
}

/// Bytes without the white space at their end.
pub open spec fn trimmed(s: Seq<u8>) -> Seq<u8>
    decreases s.len(),
{
    if s.len() > 0 && is_space(s.last()) {
        trimmed(s.drop_last())
    } else {
        s
    }
}

/// The callsign bytes of an address field, moved down by one bit.
pub open spec fn field_chars(b: Seq<u8>) -> Seq<u8> {
    Seq::new(6, |i: int| b[i] / 2)
}

/// The address that seven bytes hold.
pub open spec fn address_of(b: Seq<u8>) -> AddressContent {
    AddressContent {
        callsign: crate::text::ascii_chars(trimmed(field_chars(b))),
        ssid: b[6] / 2 % 16,
    }
}

/// Whether the last-address bit is set.
pub open spec fn last_address(b: Seq<u8>) -> bool {
    b.len() >= 7 && b[6] % 2 == 1
}

/// The bytes of digipeater addresses, the last of them marked.
pub open spec fn digipeater_bytes(d: Seq<AddressContent>) -> Seq<u8>
    decreases d.len(),
{
    if d.len() == 0 {
        seq![]
    } else {
        address_bytes(d[0], d.len() == 1) + digipeater_bytes(d.skip(1))
    }
}

/// At most `n` elements from the front.
pub open spec fn capped<T>(s: Seq<T>, n: nat) -> Seq<T> {
    if s.len() <= n {
        s
    } else {
        s.take(n as int)
    }
}

/// A frame up to its check sequence. Digipeaters and info beyond their limits
/// are left out.
pub open spec fn frame_body(f: FrameContent) -> Seq<u8> {
    let d = capped(f.digipeaters, 8);
    address_bytes(f.dest, false) + address_bytes(f.src, d.len() == 0) + digipeater_bytes(d) + seq![
        0x03u8,
        0xF0u8,
    ] + capped(f.info, 256)
}

/// A frame with its check sequence, low byte first.
pub open spec fn with_fcs(body: Seq<u8>, fcs: u16) -> Seq<u8> {
    body + seq![(fcs % 256) as u8, (fcs / 256) as u8]
}

/// The check sequence at the end of a frame.
pub open spec fn stored_fcs(b: Seq<u8>) -> int {
    b[b.len() - 2] + b[b.len() - 1] * 256
}

/// Digipeater addresses from `at` to the one marked as the last, and where
/// they end; `k` of them came before. None where they run into `end` or are
/// too many.
pub open spec fn read_digipeaters(b: Seq<u8>, at: int, end: int, k: int) -> Option<
    (Seq<AddressContent>, int),
>
    decreases end - at,
{
    if at + 7 > end {
        None
    } else {
        let chunk = b.subrange(at, at + 7);
        let a = address_of(chunk);
        if last_address(chunk) {
            Some((seq![a], at + 7))
        } else if k + 1 >= 8 {
            None
        } else {
            match read_digipeaters(b, at + 7, end, k + 1) {
                Some((rest, stop)) => Some((seq![a] + rest, stop)),
                None => None,
            }
        }
    }
}

/// The frame that bytes hold, given the checksum of all but the last two.
pub open spec fn parse_frame(b: Seq<u8>, computed: u16) -> Option<FrameContent> {
    let end = b.len() - 2;
    if b.len() < 18 || stored_fcs(b) != computed {
        None
    } else {
        let route = if last_address(b.subrange(7, 14)) {
            Some((Seq::<AddressContent>::empty(), 14int))
        } else {
            read_digipeaters(b, 14, end, 0)
        };
        match route {
            None => None,
            Some((digipeaters, at)) => {
                if at + 2 > end || b[at] != 0x03 || b[at + 1] != 0xF0 || end - (at + 2)
                    > MAX_INFO_LEN {
                    None
                } else {
                    Some(
                        FrameContent {
                            dest: address_of(b.subrange(0, 7)),
                            src: address_of(b.subrange(7, 14)),
                            digipeaters,
                            info: b.subrange(at + 2, end),
                        },
                    )
                }
            },
        }
    }
}

impl Ax25Address {
    /// Encode the address into 7 bytes; `last` marks the last address of a
    /// frame. The callsign is padded with spaces or cut to six bytes.
    pub fn to_bytes(&self, last: bool) -> (out: [u8; 7])
        ensures
            out@ == address_bytes(self@, last),
    {
        let mut out: [u8; 7] = [0u8; 7];
        let c = self.callsign.as_str().as_bytes();
        let mut i: usize = 0;
        while i < 6
            invariant
                i <= 6,
                c@ == encode_utf8(self.callsign@),
                forall|k: int| 0 <= k < i ==> out@[k] == address_bytes(self@, last)[k],
            decreases 6 - i,
        {
            let b: u8 = if i < c.len() {
                c[i]
            } else {
                0x20
            };
            out[i] = (b % 128) * 2;
            i += 1;
        }
        out[6] = 0x60 + self.ssid % 16 * 2 + if last {
            1
        } else {
            0
        };
        assert(out@ =~= address_bytes(self@, last));
        out
    }

    /// Decode an address from its 7 bytes; none where there are fewer.
    pub fn from_bytes(bytes: &[u8]) -> (r: Option<Self>)
        ensures
            match r {
                Some(a) => bytes@.len() >= 7 && a@ == address_of(bytes@),
                None => bytes@.len() < 7,
            },
    {
        if bytes.len() < 7 {
            return None;
        }
        let mut chars: Vec<u8> = Vec::new();
        let mut i: usize = 0;
        while i < 6
            invariant
                i <= 6,
                bytes@.len() >= 7,
                chars@.len() == i,
                forall|k: int| 0 <= k < i ==> chars@[k] == bytes@[k] / 2,
            decreases 6 - i,
        {
            chars.push(bytes[i] / 2);
            i += 1;
        }
        let ghost all = chars@;
        assert(all =~= field_chars(bytes@));
        while chars.len() > 0 && (9 <= chars[chars.len() - 1] && chars[chars.len() - 1] <= 13
            || chars[chars.len() - 1] == 32)
            invariant
                trimmed(chars@) == trimmed(all),
                forall|k: int| 0 <= k < chars@.len() ==> chars@[k] < 128,
            decreases chars.len(),
        {
            let ghost before = chars@;
            chars.pop();
            assert(chars@ =~= before.drop_last());
        }
        let callsign = crate::text::ascii_text(chars.as_slice());
        Some(Ax25Address { callsign, ssid: bytes[6] / 2 % 16 })
    }

    /// Whether the last-address bit is set in the SSID byte.
    pub fn is_last(bytes: &[u8]) -> (r: bool)
        ensures
            r == last_address(bytes@),
    {
        bytes.len() >= 7 && bytes[6] % 2 == 1
    }
}

/// Append an address.
fn push_address(buf: &mut Vec<u8>, a: &Ax25Address, last: bool)
    ensures
        final(buf)@ == old(buf)@ + address_bytes(a@, last),
{
    let b = a.to_bytes(last);
    buf.push(b[0]);
    buf.push(b[1]);
    buf.push(b[2]);
    buf.push(b[3]);
    buf.push(b[4]);
    buf.push(b[5]);
    buf.push(b[6]);
    assert(buf@ =~= old(buf)@ + b@);
}

impl Ax25Frame {
    /// The frame up to its check sequence.
    pub fn body(&self) -> (buf: Vec<u8>)
        ensures
            buf@ == frame_body(self@),
    {
        let mut buf: Vec<u8> = Vec::new();
        let count: usize = if self.digipeaters.len() < MAX_DIGIPEATERS {
            self.digipeaters.len()
        } else {
            MAX_DIGIPEATERS
        };
        let ghost d = capped(self@.digipeaters, 8);
        push_address(&mut buf, &self.dest, false);
        push_address(&mut buf, &self.src, count == 0);
        let ghost head = buf@;
        let mut i: usize = 0;
        assert(d.skip(0) =~= d);
        while i < count
            invariant
                i <= count <= self.digipeaters@.len(),
                d == capped(self@.digipeaters, 8),
                d.len() == count,
                buf@ + digipeater_bytes(d.skip(i as int)) == head + digipeater_bytes(d),
            decreases count - i,
        {
            let ghost before = buf@;
            push_address(&mut buf, &self.digipeaters[i], i == count - 1);
            proof {
                let rest = d.skip(i as int);
                assert(rest[0] == self.digipeaters@[i as int]@);
                assert(rest.skip(1) =~= d.skip(i + 1));
                assert(buf@ + digipeater_bytes(d.skip(i + 1)) =~= before + (address_bytes(
                    rest[0],
                    rest.len() == 1,
                ) + digipeater_bytes(d.skip(i + 1))));
            }
            i += 1;
        }
        proof {
            assert(d.skip(i as int) =~= seq![]);
            assert(buf@ =~= head + digipeater_bytes(d));
        }
        buf.push(0x03);
        buf.push(0xF0);
        let info_len: usize = if self.info.len() < MAX_INFO_LEN {
            self.info.len()
        } else {
            MAX_INFO_LEN
        };
        buf.extend_from_slice(vstd::slice::slice_subrange(self.info.as_slice(), 0, info_len));
        assert(buf@ =~= frame_body(self@));
        buf
    }

    /// Encode the frame to bytes: addresses, UI control, no-layer-3 PID, info,
    /// and the check sequence over all of them, low byte first.
    pub fn to_bytes(&self) -> (buf: Vec<u8>)
        ensures
            buf@ == with_fcs(
                frame_body(self@),
                crate::checksum::crc16(frame_body(self@)),
            ),
    {
        let mut buf = self.body();
        let fcs: u16 = crate::checksum::checksum(buf.as_slice());
        buf.push((fcs % 256) as u8);
        buf.push((fcs / 256) as u8);
        assert(buf@ =~= with_fcs(frame_body(self@), fcs));
        buf
    }

    /// Decode a frame from bytes, checking the check sequence. None on any
    /// parse or checksum error, and where the info field is over its limit.
    pub fn from_bytes(bytes: &[u8]) -> (r: Option<Self>)
        ensures
            (match r {
                Some(f) => Some(f@),
                None => None,
            }) == parse_frame(
                bytes@,
                crate::checksum::crc16(bytes@.take(bytes@.len() - 2)),
            ),
    {
        if bytes.len() < 18 {
            return None;
        }
        let covered = vstd::slice::slice_subrange(bytes, 0, bytes.len() - 2);
        assert(covered@ =~= bytes@.take(bytes@.len() - 2));
        let computed: u16 = crate::checksum::checksum(covered);
        Ax25Frame::parse_checked(bytes, computed)
    }

    /// Decode a frame whose bytes before the check sequence have the checksum
    /// `computed`.
    pub fn parse_checked(bytes: &[u8], computed: u16) -> (r: Option<Self>)
        ensures
            (match r {
                Some(f) => Some(f@),
                None => None,
            }) == parse_frame(bytes@, computed),
    {
        if bytes.len() < 18 {
            return None;
        }
        let end: usize = bytes.len() - 2;
        let stored: u16 = bytes[end] as u16 + bytes[end + 1] as u16 * 256;
        if stored != computed {
            return None;
        }
        let dest = match Ax25Address::from_bytes(vstd::slice::slice_subrange(bytes, 0, 7)) {
            Some(a) => a,
            None => {
                return None;
            },
        };
        let src_bytes = vstd::slice::slice_subrange(bytes, 7, 14);
        let src = match Ax25Address::from_bytes(src_bytes) {
            Some(a) => a,
            None => {
                return None;
            },
        };
        let mut digipeaters: Vec<Ax25Address> = Vec::new();
        let mut at: usize = 14;
        if !Ax25Address::is_last(src_bytes) {
            match read_route(bytes, end) {
                Some((list, stop)) => {
                    digipeaters = list;
                    at = stop;
                },
                None => {
                    return None;
                },
            }
        }
        assert(addresses(digipeaters@) =~= if last_address(bytes@.subrange(7, 14)) {
            Seq::<AddressContent>::empty()
        } else {
            read_digipeaters(bytes@, 14, end as int, 0).unwrap().0
        });
        if end < at || end - at < 2 {
            return None;
        }
        if bytes[at] != 0x03 || bytes[at + 1] != 0xF0 {
            return None;
        }
        if end - (at + 2) > MAX_INFO_LEN {
            return None;
        }
        let info = vstd::slice::slice_to_vec(vstd::slice::slice_subrange(bytes, at + 2, end));
        Some(Ax25Frame { dest, src, digipeaters, info })
    }
}

/// What was read so far, followed by the outcome of the rest.
spec fn route_after(
    front: Seq<AddressContent>,
    r: Option<(Seq<AddressContent>, int)>,
) -> Option<(Seq<AddressContent>, int)> {
    match r {
        Some((rest, stop)) => Some((front + rest, stop)),
        None => None,
    }
}

/// Digipeater addresses from byte 14 to the one marked as the last.
fn read_route(bytes: &[u8], end: usize) -> (r: Option<(Vec<Ax25Address>, usize)>)
    requires
        end <= bytes@.len(),
    ensures
        match r {
            Some((list, stop)) => read_digipeaters(bytes@, 14, end as int, 0) == Some(
                (addresses(list@), stop as int),
            ) && stop <= end,
            None => read_digipeaters(bytes@, 14, end as int, 0) is None,
        },
{
    let mut list: Vec<Ax25Address> = Vec::new();
    let mut at: usize = 14;
    let ghost goal = read_digipeaters(bytes@, 14, end as int, 0);
    proof {
        assert(addresses(list@) =~= seq![]);
        if goal is Some {
            assert(seq![] + goal.unwrap().0 =~= goal.unwrap().0);
        }
    }
    loop
        invariant
            end <= bytes@.len(),
            list@.len() < 8,
            at >= 14,
            goal == read_digipeaters(bytes@, 14, end as int, 0),
            goal == route_after(
                addresses(list@),
                read_digipeaters(bytes@, at as int, end as int, list@.len() as int),
            ),
        decreases 8 - list.len(),
    {
        if end < at || end - at < 7 {
            return None;
        }
        let chunk = vstd::slice::slice_subrange(bytes, at, at + 7);
        let last: bool = Ax25Address::is_last(chunk);
        let a = match Ax25Address::from_bytes(chunk) {
            Some(a) => a,
            None => {
                return None;
            },
        };
        let ghost before = addresses(list@);
        list.push(a);
        assert(addresses(list@) =~= before + seq![a@]);
        at = at + 7;
        if last {
            return Some((list, at));
        }
        if list.len() >= MAX_DIGIPEATERS {
            return None;
        }
        proof {
            let rest = read_digipeaters(bytes@, at as int, end as int, list@.len() as int);
            if rest is Some {
                assert(before + (seq![a@] + rest.unwrap().0) =~= addresses(list@)
                    + rest.unwrap().0);
            }
        }
    }
}

/// Whether an address can be told from its seven bytes: an ASCII callsign of
/// at most six characters without white space at its end, and a 4-bit SSID.
pub open spec fn encodable(a: AddressContent) -> bool {
    &&& a.ssid < 16
    &&& a.callsign.len() <= 6
    &&& is_ascii_chars(a.callsign)
    &&& a.callsign.len() > 0 ==> !is_space(a.callsign.last() as u8)
}

proof fn lemma_trimmed_padding(s: Seq<u8>, n: int)
    requires
        0 <= n <= s.len(),
        forall|i: int| n <= i < s.len() ==> s[i] == 32,
        n > 0 ==> !is_space(s[n - 1]),
    ensures
        trimmed(s) == s.take(n),
    decreases s.len(),
{
    if s.len() == n {
        assert(s.take(n) =~= s);
        if n == 0 {
            assert(s =~= seq![]);
        }
    } else {
        lemma_trimmed_padding(s.drop_last(), n);
        assert(s.drop_last().take(n) =~= s.take(n));
    }
}

/// Every encodable address survives its seven bytes, and the last-address mark
/// with it.
pub proof fn law_address_roundtrip(a: AddressContent, last: bool)
    requires
        encodable(a),
    ensures
        address_of(address_bytes(a, last)) == a,
        last_address(address_bytes(a, last)) == last,
{
    let b = address_bytes(a, last);
    let c = encode_utf8(a.callsign);
    let n = a.callsign.len() as int;
    is_ascii_chars_encode_utf8(a.callsign);
    let f = field_chars(b);
    assert forall|i: int| 0 <= i < 6 implies f[i] == field_byte(c, i) by {
        if i < n {
            assert(a.callsign[i] as u8 == c[i]);
            lemma_ascii_byte(a.callsign[i]);
        }
    }
    if n > 0 {
        assert(a.callsign[n - 1] as u8 == c[n - 1]);
    }
    lemma_trimmed_padding(f, n);
    assert(f.take(n) =~= c);
    let back = crate::text::ascii_chars(c);
    assert forall|i: int| 0 <= i < n implies back[i] == a.callsign[i] by {
        assert(a.callsign[i] as u8 == c[i]);
        lemma_ascii_byte(a.callsign[i]);
    }
    assert(back =~= a.callsign);
    assert(address_of(b) =~= a);
}

proof fn lemma_ascii_byte(c: char)
    requires
        '\0' <= c <= '\u{7f}',
    ensures
        c as u8 <= 127,
        (c as u8) as char == c,
{
}

proof fn lemma_digipeaters_len(d: Seq<AddressContent>)
    ensures
        digipeater_bytes(d).len() == 7 * d.len(),
    decreases d.len(),
{
    if d.len() > 0 {
        lemma_digipeaters_len(d.skip(1));
    }
}

/// Reading back the digipeaters that stand at `at`.
proof fn lemma_read_digipeaters(
    b: Seq<u8>,
    at: int,
    end: int,
    k: int,
    d: Seq<AddressContent>,
)
    requires
        0 <= at,
        0 <= k,
        0 < d.len(),
        d.len() + k <= 8,
        at + 7 * d.len() <= end <= b.len(),
        b.subrange(at, at + 7 * d.len()) == digipeater_bytes(d),
        forall|i: int| 0 <= i < d.len() ==> encodable(#[trigger] d[i]),
    ensures
        read_digipeaters(b, at, end, k) == Some((d, at + 7 * d.len())),
    decreases d.len(),
{
    let span = b.subrange(at, at + 7 * d.len());
    let chunk = b.subrange(at, at + 7);
    let last = d.len() == 1;
    assert(encodable(d[0]));
    law_address_roundtrip(d[0], last);
    assert(chunk =~= span.take(7));
    assert(chunk =~= address_bytes(d[0], last));
    lemma_digipeaters_len(d.skip(1));
    if last {
        assert(d =~= seq![d[0]]);
    } else {
        let rest = d.skip(1);
        assert(b.subrange(at + 7, at + 7 + 7 * rest.len()) =~= span.skip(7));
        assert(span.skip(7) =~= digipeater_bytes(rest));
        assert forall|i: int| 0 <= i < rest.len() implies encodable(#[trigger] rest[i]) by {
            assert(rest[i] == d[i + 1]);
        }
        lemma_read_digipeaters(b, at + 7, end, k + 1, rest);
        assert(seq![d[0]] + rest =~= d);
    }
}

/// Every frame within its limits survives the wire: whatever checksum its
/// bytes have, a frame that carries that checksum is read back as it was.
pub proof fn law_frame_roundtrip(f: FrameContent, fcs: u16)
    requires
        encodable(f.dest),
        encodable(f.src),
        f.digipeaters.len() <= 8,
        forall|i: int| 0 <= i < f.digipeaters.len() ==> encodable(#[trigger] f.digipeaters[i]),
        f.info.len() <= 256,
    ensures
        parse_frame(with_fcs(frame_body(f), fcs), fcs) == Some(f),
        with_fcs(frame_body(f), fcs).take(with_fcs(frame_body(f), fcs).len() - 2) == frame_body(f),
{
    let d = f.digipeaters;
    let b = with_fcs(frame_body(f), fcs);
    let end = b.len() - 2;
    let src = address_bytes(f.src, d.len() == 0);
    lemma_digipeaters_len(d);
    law_address_roundtrip(f.dest, false);
    law_address_roundtrip(f.src, d.len() == 0);
    assert(b.take(end) =~= frame_body(f));
    assert(b.subrange(0, 7) =~= address_bytes(f.dest, false));
    assert(b.subrange(7, 14) =~= src);
    let at: int = 14 + 7 * d.len() as int;
    assert(b.subrange(14, at) =~= digipeater_bytes(d));
    if d.len() > 0 {
        lemma_read_digipeaters(b, 14, end, 0, d);
    } else {
        assert(d =~= seq![]);
    }
    assert(b[at] == 0x03 && b[at + 1] == 0xF0);
    assert(b.subrange(at + 2, end) =~= f.info);
    assert(stored_fcs(b) == fcs);
    assert(parse_frame(b, fcs).unwrap() =~= f);
}

/// A frame is refused unless its last two bytes are the checksum of the rest.
pub proof fn law_wrong_fcs_refused(b: Seq<u8>, computed: u16)
    requires
        b.len() >= 2,
        stored_fcs(b) != computed,
    ensures
        parse_frame(b, computed) is None,
{
}

/// Bytes that carry their own checksum are refused once they are changed
/// within two neighbouring bytes, wherever those stand.
pub proof fn law_burst_is_refused(b: Seq<u8>, c: Seq<u8>, i: int)
    requires
        b.len() >= 2,
        stored_fcs(b) == crate::checksum::crc16(b.take(b.len() - 2)),
        b.len() == c.len(),
        0 <= i < b.len(),
        b[i] != c[i],
        forall|j: int| 0 <= j < b.len() && j != i && j != i + 1 ==> b[j] == c[j],
    ensures
        parse_frame(c, crate::checksum::crc16(c.take(c.len() - 2))) is None,
{
    crate::checksum::law_burst_breaks_checked_bytes(b, c, i);
}

/// No frame is read with more than eight digipeaters, or with more than 256
/// bytes of information.
pub proof fn law_frames_keep_their_limits(b: Seq<u8>, computed: u16)
    ensures
        parse_frame(b, computed) matches Some(f) ==> f.digipeaters.len() <= MAX_DIGIPEATERS
            && f.info.len() <= MAX_INFO_LEN,
{
    if b.len() >= 18 {
        lemma_route_bounded(b, 14, b.len() - 2, 0);
    }
}

proof fn lemma_route_bounded(b: Seq<u8>, at: int, end: int, k: int)
    requires
        0 <= k < 8,
    ensures
        read_digipeaters(b, at, end, k) matches Some((d, stop)) ==> d.len() + k <= 8 && at <= stop
            <= end,
    decreases end - at,
{
    if at + 7 <= end && k + 1 < 8 {
        lemma_route_bounded(b, at + 7, end, k + 1);
    }
}

/// The bytes of an address: each of the first six is twice the callsign's byte
/// there, or twice a space, in eight bits; the seventh is 0x60 with the SSID in
/// the bits 1 to 4, and the last-address mark in bit 0.
pub proof fn law_address_layout(a: AddressContent, last: bool, i: int)
    ensures
        address_bytes(a, last).len() == 7,
        0 <= i < 6 && i < encode_utf8(a.callsign).len() ==> address_bytes(a, last)[i] == encode_utf8(
            a.callsign,
        )[i] * 2 % 256,
        0 <= i < 6 && i >= encode_utf8(a.callsign).len() ==> address_bytes(a, last)[i] == 0x40,
        address_bytes(a, last)[6] == 0x60 + a.ssid % 16 * 2 + (if last {
            1int
        } else {
            0int
        }),
{
}

/// What seven bytes say: the halves of the first six up to the last that is no
/// white space, and the bits 1 to 4 of the seventh.
pub proof fn law_address_is_read(b: Seq<u8>, n: int)
    requires
        b.len() >= 7,
        0 <= n <= 6,
        n > 0 ==> b[n - 1] / 2 != 32 && !(9 <= b[n - 1] / 2 <= 13),
        forall|i: int|
            n <= i < 6 ==> (#[trigger] b[i]) / 2 == 32 || 9 <= b[i] / 2 <= 13,
    ensures
        address_of(b).callsign.len() == n,
        forall|i: int|
            0 <= i < n ==> #[trigger] address_of(b).callsign[i] as int == b[i] as int / 2,
        address_of(b).ssid == b[6] as int / 2 % 16,
        last_address(b) == (b[6] % 2 == 1),
{
    let f = field_chars(b);
    assert forall|i: int| n <= i < f.len() implies is_space(#[trigger] f[i]) by {
        assert(b[i] / 2 == 32 || 9 <= b[i] / 2 <= 13);
    }
    lemma_trimmed_spaces(f, n);
    assert(f.take(n).len() == n);
    assert forall|i: int| 0 <= i < n implies #[trigger] address_of(b).callsign[i] as int
        == b[i] as int / 2 by {
        assert(f.take(n)[i] == b[i] / 2);
    }
}

proof fn lemma_trimmed_spaces(s: Seq<u8>, n: int)
    requires
        0 <= n <= s.len(),
        forall|i: int| n <= i < s.len() ==> is_space(#[trigger] s[i]),
        n > 0 ==> !is_space(s[n - 1]),
    ensures
        trimmed(s) == s.take(n),
    decreases s.len(),
{
    if s.len() == n {
        assert(s.take(n) =~= s);
    } else {
        lemma_trimmed_spaces(s.drop_last(), n);
        assert(s.drop_last().take(n) =~= s.take(n));
    }
}

/// Where the parts of a frame stand: seven bytes for each address, the last of
/// them marked, then 0x03 and 0xF0, and the information. Of the digipeaters the
/// first eight are kept, of the information the first 256 bytes.
pub proof fn law_frame_layout(f: FrameContent, k: int, j: int)
    ensures
        ({
            let b = frame_body(f);
            let d = if f.digipeaters.len() < 8 {
                f.digipeaters.len() as int
            } else {
                8
            };
            let m = if f.info.len() < 256 {
                f.info.len() as int
            } else {
                256
            };
            &&& b.len() == 16 + 7 * d + m
            &&& b.subrange(0, 7) == address_bytes(f.dest, false)
            &&& b.subrange(7, 14) == address_bytes(f.src, d == 0)
            &&& 0 <= k < d ==> b.subrange(14 + 7 * k, 21 + 7 * k) == address_bytes(
                f.digipeaters[k],
                k == d - 1,
            )
            &&& b[14 + 7 * d] == 0x03
            &&& b[15 + 7 * d] == 0xF0
            &&& 0 <= j < m ==> b[16 + 7 * d + j] == f.info[j]
        }),
{
    let d = capped(f.digipeaters, 8);
    let b = frame_body(f);
    lemma_digipeaters_len(d);
    assert(b.subrange(0, 7) =~= address_bytes(f.dest, false));
    assert(b.subrange(7, 14) =~= address_bytes(f.src, d.len() == 0));
    if 0 <= k < d.len() {
        lemma_digipeater_at(d, k);
        assert(b.subrange(14 + 7 * k, 21 + 7 * k) =~= digipeater_bytes(d).subrange(
            7 * k,
            7 * k + 7,
        ));
    }
}

proof fn lemma_digipeater_at(d: Seq<AddressContent>, k: int)
    requires
        0 <= k < d.len(),
    ensures
        digipeater_bytes(d).len() == 7 * d.len(),
        digipeater_bytes(d).subrange(7 * k, 7 * k + 7) == address_bytes(d[k], k == d.len() - 1),
    decreases d.len(),
{
    lemma_digipeaters_len(d);
    lemma_digipeaters_len(d.skip(1));
    if k == 0 {
        assert(digipeater_bytes(d).subrange(0, 7) =~= address_bytes(d[0], d.len() == 1));
    } else {
        lemma_digipeater_at(d.skip(1), k - 1);
        assert(digipeater_bytes(d).subrange(7 * k, 7 * k + 7) =~= digipeater_bytes(
            d.skip(1),
        ).subrange(7 * (k - 1), 7 * (k - 1) + 7));
    }
}

/// The check sequence follows the frame, low byte first.
pub proof fn law_fcs_layout(body: Seq<u8>, fcs: u16)
    ensures
        ({
            let b = with_fcs(body, fcs);
            &&& b.len() == body.len() + 2
            &&& b.take(body.len() as int) == body
            &&& b[body.len() as int] + 256 * b[body.len() as int + 1] == fcs
        }),
{
    assert(with_fcs(body, fcs).take(body.len() as int) =~= body);
}

/// Which bytes are a frame with `n` digipeaters: the check sequence fits, the
/// first mark of a last address is on the last digipeater, or on the source
/// where there is none, the control bytes follow, and no more than 256 bytes of
/// information.
pub open spec fn frame_with(b: Seq<u8>, computed: u16, n: int) -> bool {
    &&& b.len() >= 18 + 7 * n
    &&& b[b.len() - 2] + 256 * b[b.len() - 1] == computed
    &&& 0 <= n <= 8
    &&& forall|k: int| 0 <= k < n ==> (#[trigger] b.subrange(7 + 7 * k, 14 + 7 * k))[6] % 2 == 0
    &&& b.subrange(7 + 7 * n, 14 + 7 * n)[6] % 2 == 1
    &&& b[14 + 7 * n] == 0x03
    &&& b[15 + 7 * n] == 0xF0
    &&& b.len() <= 18 + 7 * n + 256
}

/// Bytes are read as a frame with `n` digipeaters exactly if they are one, and
/// then say what stands in their fields.
pub proof fn law_frame_is_read(b: Seq<u8>, computed: u16, n: int, k: int)
    requires
        0 <= n,
    ensures
        frame_with(b, computed, n) == (parse_frame(b, computed) is Some && parse_frame(
            b,
            computed,
        ).unwrap().digipeaters.len() == n),
        frame_with(b, computed, n) ==> {
            let f = parse_frame(b, computed).unwrap();
            &&& f.dest == address_of(b.subrange(0, 7))
            &&& f.src == address_of(b.subrange(7, 14))
            &&& 0 <= k < n ==> f.digipeaters[k] == address_of(
                b.subrange(14 + 7 * k, 21 + 7 * k),
            )
            &&& f.info == b.subrange(16 + 7 * n, b.len() - 2)
        },
{
    let end = b.len() - 2;
    if b.len() >= 18 {
        let src = b.subrange(7, 14);
        if frame_with(b, computed, n) {
            if n > 0 {
                assert(b.subrange(7 + 7 * 0int, 14 + 7 * 0int)[6] % 2 == 0);
                assert forall|j: int| 0 <= j < n - 1 implies !last_address(
                    #[trigger] b.subrange(14 + 7 * j, 21 + 7 * j),
                ) by {
                    assert(b.subrange(7 + 7 * (j + 1), 14 + 7 * (j + 1))[6] % 2 == 0);
                }
                assert(last_address(b.subrange(14 + 7 * (n - 1), 21 + 7 * (n - 1))));
                lemma_route_is_read(b, 14, end, 0, n);
            }
        }
        if parse_frame(b, computed) is Some && parse_frame(b, computed).unwrap().digipeaters.len()
            == n {
            if !last_address(src) {
                lemma_route_was_marked(b, 14, end, 0);
                assert forall|j: int| 0 <= j < n implies (#[trigger] b.subrange(
                    7 + 7 * j,
                    14 + 7 * j,
                ))[6] % 2 == 0 by {
                    if j > 0 {
                        assert(!last_address(b.subrange(14 + 7 * (j - 1), 21 + 7 * (j - 1))));
                    }
                }
                assert(last_address(b.subrange(14 + 7 * (n - 1), 21 + 7 * (n - 1))));
                lemma_route_bounded(b, 14, end, 0);
            }
        }
    }
}

/// Reading addresses up to the first that is marked.
proof fn lemma_route_is_read(b: Seq<u8>, at: int, end: int, k: int, n: int)
    requires
        0 <= at,
        0 <= k,
        0 < n,
        n + k <= 8,
        at + 7 * n <= end <= b.len(),
        forall|j: int|
            0 <= j < n - 1 ==> !last_address(#[trigger] b.subrange(at + 7 * j, at + 7 + 7 * j)),
        last_address(b.subrange(at + 7 * (n - 1), at + 7 + 7 * (n - 1))),
    ensures
        read_digipeaters(b, at, end, k) is Some,
        read_digipeaters(b, at, end, k).unwrap().1 == at + 7 * n,
        read_digipeaters(b, at, end, k).unwrap().0.len() == n,
        forall|j: int|
            0 <= j < n ==> #[trigger] read_digipeaters(b, at, end, k).unwrap().0[j] == address_of(
                b.subrange(at + 7 * j, at + 7 + 7 * j),
            ),
    decreases n,
{
    if n > 1 {
        assert(!last_address(b.subrange(at + 7 * 0, at + 7 + 7 * 0)));
        assert forall|j: int| 0 <= j < n - 2 implies !last_address(
            #[trigger] b.subrange(at + 7 + 7 * j, at + 7 + 7 + 7 * j),
        ) by {
            assert(!last_address(b.subrange(at + 7 * (j + 1), at + 7 + 7 * (j + 1))));
        }
        lemma_route_is_read(b, at + 7, end, k + 1, n - 1);
        let rest = read_digipeaters(b, at + 7, end, k + 1).unwrap().0;
        let all = read_digipeaters(b, at, end, k).unwrap().0;
        assert forall|j: int| 0 <= j < n implies #[trigger] all[j] == address_of(
            b.subrange(at + 7 * j, at + 7 + 7 * j),
        ) by {
            if j > 0 {
                assert(all[j] == rest[j - 1]);
            }
        }
    }
}

/// Addresses that were read end with the first that is marked.
proof fn lemma_route_was_marked(b: Seq<u8>, at: int, end: int, k: int)
    requires
        0 <= at,
        0 <= k < 8,
        end <= b.len(),
        read_digipeaters(b, at, end, k) is Some,
    ensures
        ({
            let n = read_digipeaters(b, at, end, k).unwrap().0.len();
            &&& 0 < n
            &&& n + k <= 8
            &&& read_digipeaters(b, at, end, k).unwrap().1 == at + 7 * n
            &&& forall|j: int|
                0 <= j < n - 1 ==> !last_address(#[trigger] b.subrange(at + 7 * j, at + 7 + 7 * j))
            &&& last_address(b.subrange(at + 7 * (n - 1), at + 7 + 7 * (n - 1)))
        }),
    decreases end - at,
{
    let chunk = b.subrange(at, at + 7);
    if !last_address(chunk) {
        lemma_route_was_marked(b, at + 7, end, k + 1);
        let m = read_digipeaters(b, at + 7, end, k + 1).unwrap().0.len();
        let n = read_digipeaters(b, at, end, k).unwrap().0.len();
        assert(n == m + 1);
        assert forall|j: int| 0 <= j < n - 1 implies !last_address(
            #[trigger] b.subrange(at + 7 * j, at + 7 + 7 * j),
        ) by {
            if j > 0 {
                assert(!last_address(b.subrange(at + 7 + 7 * (j - 1), at + 7 + 7 + 7 * (j - 1))));
            }
        }
        assert(last_address(b.subrange(at + 7 + 7 * (m - 1), at + 7 + 7 + 7 * (m - 1))));
    } else {
        assert(seq![address_of(chunk)].len() == 1);
    }
}

} // verus!
