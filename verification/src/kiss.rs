//! KISS framing, as spoken between packet-radio applications and a TNC.
//!
//! A frame travels as `FEND <command> <escaped body> FEND`. Inside a frame the
//! two reserved bytes are escaped: `FEND` as `FESC TFEND` and `FESC` as
//! `FESC TFESC`.
use vstd::prelude::*;

verus! {

/// Frame delimiter.
pub const FEND: u8 = 0xC0;

/// Escape introducer.
pub const FESC: u8 = 0xDB;

/// Second byte of an escaped `FEND`.
pub const TFEND: u8 = 0xDC;

/// Second byte of an escaped `FESC`.
pub const TFESC: u8 = 0xDD;

pub const CMD_DATA: u8 = 0x00;

pub const CMD_TX_DELAY: u8 = 0x01;

pub const CMD_PERSISTENCE: u8 = 0x02;

pub const CMD_SLOT_TIME: u8 = 0x03;

pub const CMD_RETURN: u8 = 0xFF;

/// Bytes that a client may leave buffered without a delimiter before its
/// connection is closed.
pub const MAX_KISS_FRAME_LEN: usize = 65536;

/// A decoded KISS frame.
#[derive(Debug, Clone, PartialEq, Eq)]
pub enum KissFrame {
    /// AX.25 data payload.
    Data(Vec<u8>),
    /// TX delay setting (in units of 10 ms).
    TxDelay(u8),
    /// Persistence parameter (P = value/256).
    Persistence(u8),
    /// Slot time (in units of 10 ms).
    SlotTime(u8),
    /// Leave KISS mode.
    Return,
}

/// What a [`KissFrame`] says, with the payload as a mathematical sequence.
pub enum KissContent {
    Data(Seq<u8>),
    TxDelay(u8),
    Persistence(u8),
    SlotTime(u8),
    Return,
}

impl View for KissFrame {
    type V = KissContent;

    open spec fn view(&self) -> KissContent {
        match self {
            KissFrame::Data(v) => KissContent::Data(v@),
            KissFrame::TxDelay(v) => KissContent::TxDelay(*v),
            KissFrame::Persistence(v) => KissContent::Persistence(*v),
            KissFrame::SlotTime(v) => KissContent::SlotTime(*v),
            KissFrame::Return => KissContent::Return,
        }
    }
}

/// The contents of a list of frames, in order.
pub open spec fn contents(frames: Seq<KissFrame>) -> Seq<KissContent> {
    frames.map_values(|f: KissFrame| f@)
}

/// The bytes that stand for one payload byte inside a frame.
pub open spec fn escape_byte(b: u8) -> Seq<u8> {
    if b == FEND {
        seq![FESC, TFEND]
    } else if b == FESC {
        seq![FESC, TFESC]
    } else {
        seq![b]
    }
}

/// A payload with its reserved bytes escaped.
pub open spec fn escape(s: Seq<u8>) -> Seq<u8>
    decreases s.len(),
{
    if s.len() == 0 {
        seq![]
    } else {
        escape_byte(s[0]) + escape(s.skip(1))
    }
}

/// The wire form of a data frame.
pub open spec fn data_frame(payload: Seq<u8>) -> Seq<u8> {
    seq![FEND, CMD_DATA] + escape(payload) + seq![FEND]
}

/// What two bytes, the first of them `FESC`, stand for. A malformed escape
/// stands for itself.
pub open spec fn unescape_pair(b: u8) -> Seq<u8> {
    if b == TFEND {
        seq![FEND]
    } else if b == TFESC {
        seq![FESC]
    } else {
        seq![FESC, b]
    }
}

/// The bytes between two delimiters with their escapes undone. An escape
/// introducer at the very end stands for nothing.
pub open spec fn unescape(s: Seq<u8>) -> Seq<u8>
    decreases s.len(),
{
    if s.len() == 0 {
        seq![]
    } else if s[0] != FESC {
        seq![s[0]] + unescape(s.skip(1))
    } else if s.len() == 1 {
        seq![]
    } else {
        unescape_pair(s[1]) + unescape(s.skip(2))
    }
}

/// Number of bytes before the first delimiter (all of them where there is none).
pub open spec fn segment_len(s: Seq<u8>) -> nat
    decreases s.len(),
{
    if s.len() == 0 || s[0] == FEND {
        0
    } else {
        1 + segment_len(s.skip(1))
    }
}

/// The value of a parameter command: its first body byte, or 0 without a body.
pub open spec fn parameter(body: Seq<u8>) -> u8 {
    if body.len() > 0 {
        body[0]
    } else {
        0
    }
}

/// The frame that an unescaped segment holds: none where the segment is empty
/// or its command is unknown.
pub open spec fn frame_of(payload: Seq<u8>) -> Option<KissContent> {
    if payload.len() == 0 {
        None
    } else {
        let body = payload.skip(1);
        if payload[0] == CMD_DATA {
            Some(KissContent::Data(body))
        } else if payload[0] == CMD_TX_DELAY {
            Some(KissContent::TxDelay(parameter(body)))
        } else if payload[0] == CMD_PERSISTENCE {
            Some(KissContent::Persistence(parameter(body)))
        } else if payload[0] == CMD_SLOT_TIME {
            Some(KissContent::SlotTime(parameter(body)))
        } else if payload[0] == CMD_RETURN {
            Some(KissContent::Return)
        } else {
            None
        }
    }
}

/// `frame_of` as a list of at most one frame.
pub open spec fn frames_of_segment(segment: Seq<u8>) -> Seq<KissContent> {
    match frame_of(unescape(segment)) {
        Some(f) => seq![f],
        None => seq![],
    }
}

/// The frames of a buffer: every delimiter opens a segment that reaches to the
/// next delimiter or to the end of the buffer. Bytes before the first
/// delimiter are ignored.
pub open spec fn kiss_frames(s: Seq<u8>) -> Seq<KissContent>
    decreases s.len(),
{
    if s.len() == 0 {
        seq![]
    } else if s[0] != FEND {
        kiss_frames(s.skip(1))
    } else {
        let rest = s.skip(1);
        let n = segment_len(rest);
        if n > rest.len() {
            seq![]
        } else {
            frames_of_segment(rest.take(n as int)) + kiss_frames(rest.skip(n as int))
        }
    }
}

proof fn lemma_segment_len(s: Seq<u8>)
    ensures
        segment_len(s) <= s.len(),
        forall|i: int| 0 <= i < segment_len(s) ==> s[i] != FEND,
        segment_len(s) < s.len() ==> s[segment_len(s) as int] == FEND,
    decreases s.len(),
{
    if s.len() != 0 && s[0] != FEND {
        lemma_segment_len(s.skip(1));
        assert forall|i: int| 0 <= i < segment_len(s) implies s[i] != FEND by {
            if i > 0 {
                assert(s[i] == s.skip(1)[i - 1]);
            }
        }
    }
}

/// A segment is determined by having no delimiter inside and one at its end.
proof fn lemma_segment_len_is(s: Seq<u8>, n: nat)
    requires
        n <= s.len(),
        forall|i: int| 0 <= i < n ==> s[i] != FEND,
        n < s.len() ==> s[n as int] == FEND,
    ensures
        segment_len(s) == n,
    decreases s.len(),
{
    if n > 0 {
        assert forall|i: int| 0 <= i < n - 1 implies s.skip(1)[i] != FEND by {
            assert(s.skip(1)[i] == s[i + 1]);
        }
        lemma_segment_len_is(s.skip(1), (n - 1) as nat);
    }
}

/// Encode `data` as a KISS data frame: `FEND CMD_DATA <escaped data> FEND`.
pub fn kiss_encode_data(data: &[u8]) -> (out: Vec<u8>)
    ensures
        out@ == data_frame(data@),
{
    let mut out: Vec<u8> = Vec::new();
    out.push(FEND);
    out.push(CMD_DATA);
    let ghost head = out@;
    let mut i: usize = 0;
    assert(data@.skip(0) =~= data@);
    while i < data.len()
        invariant
            i <= data.len(),
            out@ + escape(data@.skip(i as int)) == head + escape(data@),
        decreases data.len() - i,
    {
        let b = data[i];
        let ghost before = out@;
        if b == FEND {
            out.push(FESC);
            out.push(TFEND);
        } else if b == FESC {
            out.push(FESC);
            out.push(TFESC);
        } else {
            out.push(b);
        }
        i += 1;
        proof {
            assert(out@ =~= before + escape_byte(b));
            assert(data@.skip(i - 1).skip(1) =~= data@.skip(i as int));
            assert(out@ + escape(data@.skip(i as int)) =~= before + (escape_byte(b) + escape(
                data@.skip(i as int),
            )));
        }
    }
    out.push(FEND);
    proof {
        assert(data@.skip(i as int) =~= seq![]);
        assert(out@ =~= head + escape(data@) + seq![FEND]);
    }
    out
}

/// The command value of a body.
fn parameter_of(body: &[u8]) -> (v: u8)
    ensures
        v == parameter(body@),
{
    if body.len() > 0 {
        body[0]
    } else {
        0
    }
}

/// The frame that an unescaped segment holds.
fn parse_segment(payload: &[u8]) -> (r: Option<KissFrame>)
    ensures
        (match r {
            Some(f) => Some(f@),
            None => None,
        }) == frame_of(payload@),
{
    if payload.len() == 0 {
        return None;
    }
    let cmd = payload[0];
    let body = vstd::slice::slice_subrange(payload, 1, payload.len());
    assert(body@ =~= payload@.skip(1));
    if cmd == CMD_DATA {
        Some(KissFrame::Data(vstd::slice::slice_to_vec(body)))
    } else if cmd == CMD_TX_DELAY {
        Some(KissFrame::TxDelay(parameter_of(body)))
    } else if cmd == CMD_PERSISTENCE {
        Some(KissFrame::Persistence(parameter_of(body)))
    } else if cmd == CMD_SLOT_TIME {
        Some(KissFrame::SlotTime(parameter_of(body)))
    } else if cmd == CMD_RETURN {
        Some(KissFrame::Return)
    } else {
        None
    }
}

/// Undo the escapes from `start` up to the next delimiter. Returns the
/// payload and the position of that delimiter (or the end of the buffer).
fn read_segment(data: &[u8], start: usize) -> (r: (Vec<u8>, usize))
    requires
        start <= data.len(),
    ensures
        r.1 == start + segment_len(data@.skip(start as int)),
        start <= r.1 <= data.len(),
        r.0@ == unescape(data@.subrange(start as int, r.1 as int)),
{
    let ghost n = segment_len(data@.skip(start as int));
    let ghost end = start + n;
    proof {
        lemma_segment_len(data@.skip(start as int));
        assert forall|k: int| start <= k < end implies data@[k] != FEND by {
            assert(data@[k] == data@.skip(start as int)[k - start]);
        }
        if end < data@.len() {
            assert(data@[end as int] == data@.skip(start as int)[n as int]);
        }
    }
    let ghost segment = data@.subrange(start as int, end as int);
    let mut payload: Vec<u8> = Vec::new();
    let mut escape_next: bool = false;
    let mut i: usize = start;
    while i < data.len() && data[i] != FEND
        invariant
            start <= i <= end <= data.len(),
            segment == data@.subrange(start as int, end as int),
            forall|k: int| start <= k < end ==> data@[k] != FEND,
            end < data@.len() ==> data@[end as int] == FEND,
            escape_next ==> payload@ + unescape(
                seq![FESC] + data@.subrange(i as int, end as int),
            ) == unescape(segment),
            !escape_next ==> payload@ + unescape(data@.subrange(i as int, end as int)) == unescape(
                segment,
            ),
        decreases data.len() - i,
    {
        let b = data[i];
        let ghost before = payload@;
        let ghost rest = data@.subrange(i as int, end as int);
        let ghost tail = data@.subrange(i + 1, end as int);
        assert(rest.skip(1) =~= tail);
        i += 1;
        if escape_next {
            escape_next = false;
            if b == TFEND {
                payload.push(FEND);
            } else if b == TFESC {
                payload.push(FESC);
            } else {
                payload.push(FESC);
                payload.push(b);
            }
            proof {
                let pair = seq![FESC] + rest;
                assert(pair[0] == FESC && pair[1] == b);
                assert(pair.skip(2) =~= tail);
                assert(payload@ =~= before + unescape_pair(b));
                assert(payload@ + unescape(tail) =~= before + (unescape_pair(b) + unescape(tail)));
            }
        } else if b == FESC {
            escape_next = true;
            assert(seq![FESC] + tail =~= rest);
        } else {
            payload.push(b);
            assert(payload@ + unescape(tail) =~= before + (seq![b] + unescape(tail)));
        }
    }
    proof {
        assert(data@.subrange(i as int, end as int) =~= seq![]);
        assert((seq![FESC] + data@.subrange(i as int, end as int)).len() == 1);
        assert(payload@ =~= unescape(segment));
    }
    (payload, i)
}

/// Decode raw bytes into zero or more frames, in the order they arrived.
/// Empty segments and unknown commands are skipped.
pub fn kiss_decode(data: &[u8]) -> (frames: Vec<KissFrame>)
    ensures
        contents(frames@) == kiss_frames(data@),
{
    let mut frames: Vec<KissFrame> = Vec::new();
    let mut i: usize = 0;
    assert(data@.skip(0) =~= data@);
    assert(contents(frames@) + kiss_frames(data@.skip(0)) =~= kiss_frames(data@));
    while i < data.len()
        invariant
            i <= data.len(),
            contents(frames@) + kiss_frames(data@.skip(i as int)) == kiss_frames(data@),
        decreases data.len() - i,
    {
        let ghost rest = data@.skip(i as int);
        assert(rest.skip(1) =~= data@.skip(i + 1));
        if data[i] != FEND {
            i += 1;
            continue;
        }
        i += 1;
        let ghost body = data@.skip(i as int);
        let ghost before = contents(frames@);
        let (payload, next) = read_segment(data, i);
        proof {
            let n = segment_len(body) as int;
            lemma_segment_len(body);
            assert(body.take(n) =~= data@.subrange(i as int, next as int));
            assert(body.skip(n) =~= data@.skip(next as int));
        }
        i = next;
        match parse_segment(payload.as_slice()) {
            Some(frame) => {
                frames.push(frame);
                proof {
                    assert(contents(frames@) =~= before + seq![frame@]);
                    assert(contents(frames@) + kiss_frames(data@.skip(i as int)) =~= before + (seq![
                        frame@,
                    ] + kiss_frames(data@.skip(i as int))));
                }
            },
            None => {
                assert(seq![] + kiss_frames(data@.skip(i as int)) =~= kiss_frames(
                    data@.skip(i as int),
                ));
            },
        }
    }
    proof {
        assert(data@.skip(i as int) =~= seq![]);
        assert(contents(frames@) =~= contents(frames@) + kiss_frames(data@.skip(i as int)));
    }
    frames
}

/// Bytes of a client that wait for their closing delimiter.
#[derive(Debug, Clone)]
pub struct KissSession {
    accum: Vec<u8>,
}

/// What to do after a read from a KISS client.
#[derive(Debug, Clone, PartialEq, Eq)]
pub struct KissRead {
    /// Payloads for the transmit pipeline, in order.
    pub payloads: Vec<Vec<u8>>,
    /// Whether the client has overrun the buffer and is to be disconnected.
    pub close: bool,
}

/// The payloads of the data frames in a list of frames.
pub open spec fn data_payloads(frames: Seq<KissContent>) -> Seq<Seq<u8>>
    decreases frames.len(),
{
    if frames.len() == 0 {
        seq![]
    } else {
        let front = data_payloads(frames.drop_last());
        match frames.last() {
            KissContent::Data(p) => front.push(p),
            _ => front,
        }
    }
}

/// The bytes after the last delimiter (all of them where there is none).
pub open spec fn after_last_fend(s: Seq<u8>) -> Seq<u8>
    decreases s.len(),
{
    if s.len() == 0 {
        seq![]
    } else if s.last() == FEND {
        seq![]
    } else {
        after_last_fend(s.drop_last()).push(s.last())
    }
}

/// The bytes up to the last delimiter, that one among them.
pub open spec fn closed_part(s: Seq<u8>) -> Seq<u8> {
    s.take(s.len() - after_last_fend(s).len())
}

/// What is kept of a buffer: the bytes from the last delimiter on, or all of
/// them where there is none. The delimiter may open a frame.
pub open spec fn kept_part(s: Seq<u8>) -> Seq<u8> {
    if closed_part(s).len() == 0 {
        s
    } else {
        seq![FEND] + after_last_fend(s)
    }
}

/// The payloads of the closed data frames of a buffer.
pub open spec fn closed_payloads(s: Seq<u8>) -> Seq<Seq<u8>> {
    data_payloads(kiss_frames(closed_part(s)))
}

impl KissSession {
    /// The bytes that are still buffered.
    pub closed spec fn pending(&self) -> Seq<u8> {
        self.accum@
    }

    /// A client that has sent nothing yet.
    pub fn new() -> (s: KissSession)
        ensures
            s.pending() == Seq::<u8>::empty(),
    {
        KissSession { accum: Vec::new() }
    }

    /// Take in what one read returned: hand out the payloads of the data
    /// frames that are closed by a delimiter, keep what follows for the next
    /// read, and ask for the connection to be closed when too many bytes wait
    /// for their delimiter.
    pub fn on_read(&mut self, chunk: &[u8]) -> (r: KissRead)
        ensures
            r.payloads@.map_values(|p: Vec<u8>| p@) == closed_payloads(
                old(self).pending() + chunk@,
            ),
            final(self).pending() == kept_part(old(self).pending() + chunk@),
            r.close == (after_last_fend(old(self).pending() + chunk@).len() > MAX_KISS_FRAME_LEN),
    {
        let ghost all = self.accum@ + chunk@;
        self.accum.extend_from_slice(chunk);
        assert(self.accum@ =~= all);
        let end: usize = closed_len(self.accum.as_slice());
        let open: usize = self.accum.len() - end;
        let closed = vstd::slice::slice_subrange(self.accum.as_slice(), 0, end);
        assert(closed@ =~= closed_part(all));
        let frames = kiss_decode(closed);
        let payloads = collect_payloads(&frames);
        if end > 0 {
            let kept = vstd::slice::slice_to_vec(
                vstd::slice::slice_subrange(self.accum.as_slice(), end - 1, self.accum.len()),
            );
            assert(kept@ =~= kept_part(all));
            self.accum = kept;
        }
        let close: bool = open > MAX_KISS_FRAME_LEN;
        KissRead { payloads, close }
    }
}

fn collect_payloads(frames: &Vec<KissFrame>) -> (payloads: Vec<Vec<u8>>)
    ensures
        payloads@.map_values(|p: Vec<u8>| p@) == data_payloads(contents(frames@)),
{
    let mut payloads: Vec<Vec<u8>> = Vec::new();
    let mut i: usize = 0;
    assert(payloads@.map_values(|p: Vec<u8>| p@) =~= data_payloads(contents(frames@.take(0))));
    while i < frames.len()
        invariant
            i <= frames.len(),
            payloads@.map_values(|p: Vec<u8>| p@) == data_payloads(
                contents(frames@.take(i as int)),
            ),
        decreases frames.len() - i,
    {
        let ghost before = payloads@.map_values(|p: Vec<u8>| p@);
        let ghost taken = contents(frames@.take(i + 1));
        assert(taken.drop_last() =~= contents(frames@.take(i as int)));
        assert(taken.last() == frames@[i as int]@);
        match &frames[i] {
            KissFrame::Data(p) => {
                let copy = vstd::slice::slice_to_vec(p.as_slice());
                payloads.push(copy);
                assert(payloads@.map_values(|p: Vec<u8>| p@) =~= before.push(p@));
            },
            _ => {},
        }
        i += 1;
    }
    assert(frames@.take(i as int) =~= frames@);
    payloads
}

proof fn lemma_after_last_fend_at(s: Seq<u8>, k: int)
    requires
        0 <= k <= s.len(),
        k > 0 ==> s[k - 1] == FEND,
        forall|j: int| k <= j < s.len() ==> s[j] != FEND,
    ensures
        after_last_fend(s) == s.skip(k),
    decreases s.len(),
{
    if s.len() == k {
        assert(s.skip(k) =~= seq![]);
    } else {
        lemma_after_last_fend_at(s.drop_last(), k);
        assert(s.drop_last().skip(k).push(s.last()) =~= s.skip(k));
    }
}

/// Length of the part up to the last delimiter.
fn closed_len(data: &[u8]) -> (k: usize)
    ensures
        k == closed_part(data@).len(),
        k <= data@.len(),
        k > 0 ==> data@[k - 1] == FEND,
        after_last_fend(data@) == data@.skip(k as int),
        closed_part(data@) == data@.take(k as int),
{
    let mut k: usize = data.len();
    while k > 0 && data[k - 1] != FEND
        invariant
            k <= data.len(),
            forall|j: int| k <= j < data@.len() ==> data@[j] != FEND,
        decreases k,
    {
        k -= 1;
    }
    proof {
        lemma_after_last_fend_at(data@, k as int);
    }
    k
}

proof fn lemma_unescape_escape(s: Seq<u8>)
    ensures
        unescape(escape(s)) == s,
        forall|i: int| 0 <= i < escape(s).len() ==> escape(s)[i] != FEND,
    decreases s.len(),
{
    if s.len() > 0 {
        let tail = escape(s.skip(1));
        let head = escape_byte(s[0]);
        lemma_unescape_escape(s.skip(1));
        assert(escape(s) == head + tail);
        assert((head + tail).skip(head.len() as int) =~= tail);
        assert(unescape(escape(s)) =~= seq![s[0]] + s.skip(1));
        assert(seq![s[0]] + s.skip(1) =~= s);
    }
}

/// An encoded payload, followed by anything, decodes to that payload followed
/// by the frames of the rest. (The closing delimiter also opens what follows.)
pub proof fn law_decode_of_encoded_prefix(payload: Seq<u8>, rest: Seq<u8>)
    ensures
        kiss_frames(data_frame(payload) + rest) == seq![KissContent::Data(payload)] + kiss_frames(
            seq![FEND] + rest,
        ),
{
    let s = data_frame(payload) + rest;
    let tail = seq![FEND] + rest;
    let body = seq![CMD_DATA] + escape(payload);
    lemma_unescape_escape(payload);
    let after = s.skip(1);
    let n = body.len();
    assert(after =~= body + tail);
    assert forall|i: int| 0 <= i < n implies after[i] != FEND by {
        if i > 0 {
            assert(after[i] == escape(payload)[i - 1]);
        }
    }
    lemma_segment_len_is(after, n);
    assert(after.take(n as int) =~= body);
    assert(after.skip(n as int) =~= tail);
    assert(body.skip(1) =~= escape(payload));
    assert(unescape(body) == seq![CMD_DATA] + payload);
    assert((seq![CMD_DATA] + payload).skip(1) =~= payload);
}

/// Encoding then decoding gives back exactly the payload, for every payload.
pub proof fn law_roundtrip(payload: Seq<u8>)
    ensures
        kiss_frames(data_frame(payload)) == seq![KissContent::Data(payload)],
{
    law_decode_of_encoded_prefix(payload, seq![]);
    assert(data_frame(payload) + seq![] =~= data_frame(payload));
    lemma_lone_fend(seq![]);
    assert(kiss_frames(seq![FEND]) =~= seq![]);
    assert(seq![FEND] + seq![] =~= seq![FEND]);
}

/// A delimiter before another delimiter, or at the end, adds no frame.
proof fn lemma_lone_fend(rest: Seq<u8>)
    requires
        rest.len() > 0 ==> rest[0] == FEND,
    ensures
        kiss_frames(seq![FEND] + rest) == kiss_frames(rest),
{
    let s = seq![FEND] + rest;
    assert(s.skip(1) =~= rest);
    lemma_segment_len_is(rest, 0);
    assert(rest.take(0) =~= seq![]);
    assert(rest.skip(0) =~= rest);
    assert(frames_of_segment(rest.take(0)) =~= seq![]);
    assert(seq![] + kiss_frames(rest) =~= kiss_frames(rest));
}

/// The wire form of several payloads, one frame after the other.
pub open spec fn data_frames(payloads: Seq<Seq<u8>>) -> Seq<u8>
    decreases payloads.len(),
{
    if payloads.len() == 0 {
        seq![]
    } else {
        data_frame(payloads[0]) + data_frames(payloads.skip(1))
    }
}

/// Any number of encoded payloads in one buffer decode to those payloads, in
/// order.
pub proof fn law_roundtrip_many(payloads: Seq<Seq<u8>>)
    ensures
        kiss_frames(data_frames(payloads)) == payloads.map_values(
            |p: Seq<u8>| KissContent::Data(p),
        ),
    decreases payloads.len(),
{
    let expected = payloads.map_values(|p: Seq<u8>| KissContent::Data(p));
    if payloads.len() == 0 {
        assert(expected =~= seq![]);
    } else {
        let rest = data_frames(payloads.skip(1));
        law_roundtrip_many(payloads.skip(1));
        law_decode_of_encoded_prefix(payloads[0], rest);
        if payloads.len() > 1 {
            assert(rest[0] == data_frame(payloads.skip(1)[0])[0]);
        }
        lemma_lone_fend(rest);
        assert(expected =~= seq![KissContent::Data(payloads[0])] + payloads.skip(1).map_values(
            |p: Seq<u8>| KissContent::Data(p),
        ));
    }
}

proof fn lemma_data_payloads(payloads: Seq<Seq<u8>>)
    ensures
        data_payloads(payloads.map_values(|p: Seq<u8>| KissContent::Data(p))) == payloads,
    decreases payloads.len(),
{
    let frames = payloads.map_values(|p: Seq<u8>| KissContent::Data(p));
    if payloads.len() == 0 {
        assert(data_payloads(frames) =~= payloads);
    } else {
        let front = payloads.drop_last();
        lemma_data_payloads(front);
        assert(frames.drop_last() =~= front.map_values(|p: Seq<u8>| KissContent::Data(p)));
        assert(front.push(payloads.last()) =~= payloads);
    }
}

proof fn lemma_frames_end_with_delimiter(payloads: Seq<Seq<u8>>)
    ensures
        payloads.len() > 0 ==> data_frames(payloads).len() > 0 && data_frames(payloads).last()
            == FEND,
    decreases payloads.len(),
{
    if payloads.len() > 0 {
        lemma_frames_end_with_delimiter(payloads.skip(1));
        assert(data_frame(payloads[0]).last() == FEND);
        if payloads.len() == 1 {
            assert(data_frames(payloads.skip(1)) =~= seq![]);
            assert(data_frames(payloads) =~= data_frame(payloads[0]));
        }
    }
}

/// Where the last delimiter stands.
proof fn lemma_closed_part(s: Seq<u8>)
    ensures
        after_last_fend(s).len() <= s.len(),
        closed_part(s) + after_last_fend(s) == s,
        closed_part(s).len() > 0 ==> closed_part(s).last() == FEND,
        forall|j: int| 0 <= j < after_last_fend(s).len() ==> after_last_fend(s)[j] != FEND,
    decreases s.len(),
{
    if s.len() > 0 && s.last() != FEND {
        let front = s.drop_last();
        lemma_closed_part(front);
        assert(closed_part(s) =~= closed_part(front));
        assert(closed_part(s) + after_last_fend(s) =~= (closed_part(front) + after_last_fend(
            front,
        )).push(s.last()));
        assert(front.push(s.last()) =~= s);
    } else {
        assert(closed_part(s) + after_last_fend(s) =~= s);
    }
}

/// A buffer is parted by its last delimiter in one way only.
proof fn lemma_closed_part_is(a: Seq<u8>, b: Seq<u8>)
    requires
        a.len() > 0 ==> a.last() == FEND,
        forall|j: int| 0 <= j < b.len() ==> b[j] != FEND,
    ensures
        closed_part(a + b) == a,
        after_last_fend(a + b) == b,
{
    lemma_after_last_fend_at(a + b, a.len() as int);
    assert((a + b).skip(a.len() as int) =~= b);
    assert(closed_part(a + b) =~= a);
}

/// A delimiter parts the frames before it from those after it.
proof fn lemma_frames_part(a: Seq<u8>, x: Seq<u8>)
    ensures
        kiss_frames(a + seq![FEND] + x) == kiss_frames(a + seq![FEND]) + kiss_frames(
            seq![FEND] + x,
        ),
    decreases a.len(),
{
    let left = a + seq![FEND];
    let all = left + x;
    if a.len() == 0 {
        lemma_lone_fend(seq![]);
        assert(left =~= seq![FEND] + seq![]);
        assert(kiss_frames(left) =~= seq![]);
        assert(all =~= seq![FEND] + x);
        assert(seq![] + kiss_frames(all) =~= kiss_frames(all));
    } else if a[0] != FEND {
        let rest = a.skip(1);
        lemma_frames_part(rest, x);
        assert(all.skip(1) =~= rest + seq![FEND] + x);
        assert(left.skip(1) =~= rest + seq![FEND]);
    } else {
        let rest = a.skip(1);
        let n = segment_len(rest);
        lemma_segment_len(rest);
        let (l, w) = (left.skip(1), all.skip(1));
        assert(l =~= rest + seq![FEND]);
        assert(w =~= rest + seq![FEND] + x);
        lemma_segment_len_is(l, n);
        lemma_segment_len_is(w, n);
        assert(l.take(n as int) =~= rest.take(n as int));
        assert(w.take(n as int) =~= rest.take(n as int));
        let tail = rest.skip(n as int);
        assert(l.skip(n as int) =~= tail + seq![FEND]);
        assert(w.skip(n as int) =~= tail + seq![FEND] + x);
        lemma_frames_part(tail, x);
        let head = frames_of_segment(rest.take(n as int));
        assert(head + (kiss_frames(tail + seq![FEND]) + kiss_frames(seq![FEND] + x)) =~= (head
            + kiss_frames(tail + seq![FEND])) + kiss_frames(seq![FEND] + x));
    }
}

proof fn lemma_payloads_part(a: Seq<KissContent>, b: Seq<KissContent>)
    ensures
        data_payloads(a + b) == data_payloads(a) + data_payloads(b),
    decreases b.len(),
{
    if b.len() == 0 {
        assert(a + b =~= a);
        assert(data_payloads(a) + data_payloads(b) =~= data_payloads(a));
    } else {
        lemma_payloads_part(a, b.drop_last());
        assert((a + b).drop_last() =~= a + b.drop_last());
        assert(data_payloads(a + b) =~= data_payloads(a) + data_payloads(b));
    }
}

/// The bytes of several reads, one after the other.
pub open spec fn joined(reads: Seq<Seq<u8>>) -> Seq<u8>
    decreases reads.len(),
{
    if reads.len() == 0 {
        seq![]
    } else {
        joined(reads.drop_last()) + reads.last()
    }
}

/// What a new session has buffered after several reads.
pub open spec fn pending_after(reads: Seq<Seq<u8>>) -> Seq<u8>
    decreases reads.len(),
{
    if reads.len() == 0 {
        seq![]
    } else {
        kept_part(pending_after(reads.drop_last()) + reads.last())
    }
}

/// The payloads that a new session hands out over several reads.
pub open spec fn handed_out(reads: Seq<Seq<u8>>) -> Seq<Seq<u8>>
    decreases reads.len(),
{
    if reads.len() == 0 {
        seq![]
    } else {
        handed_out(reads.drop_last()) + closed_payloads(
            pending_after(reads.drop_last()) + reads.last(),
        )
    }
}

/// One more read after a stream.
proof fn lemma_next_read(stream: Seq<u8>, chunk: Seq<u8>)
    ensures
        kept_part(kept_part(stream) + chunk) == kept_part(stream + chunk),
        closed_payloads(stream) + closed_payloads(kept_part(stream) + chunk) == closed_payloads(
            stream + chunk,
        ),
{
    let (c, t) = (closed_part(stream), after_last_fend(stream));
    let (d, u) = (closed_part(chunk), after_last_fend(chunk));
    lemma_closed_part(stream);
    lemma_closed_part(chunk);
    if c.len() == 0 {
        assert(c =~= seq![]);
        assert(closed_payloads(stream) =~= seq![]);
        assert(seq![] + closed_payloads(stream + chunk) =~= closed_payloads(stream + chunk));
    } else {
        let whole = stream + chunk;
        let part = kept_part(stream) + chunk;
        let front = c.drop_last();
        assert(front + seq![FEND] =~= c);
        if d.len() == 0 {
            assert(whole =~= c + (t + u));
            assert(part =~= seq![FEND] + (t + u));
            lemma_closed_part_is(c, t + u);
            lemma_closed_part_is(seq![FEND], t + u);
            lemma_lone_fend(seq![]);
            assert(seq![FEND] =~= seq![FEND] + seq![]);
            assert(kiss_frames(seq![FEND]) =~= seq![]);
            assert(closed_payloads(part) =~= seq![]);
            assert(closed_payloads(stream) + seq![] =~= closed_payloads(stream));
        } else {
            assert(whole =~= (c + t + d) + u);
            assert(part =~= (seq![FEND] + t + d) + u);
            lemma_closed_part_is(c + t + d, u);
            lemma_closed_part_is(seq![FEND] + t + d, u);
            lemma_frames_part(front, t + d);
            assert(front + seq![FEND] + (t + d) =~= c + t + d);
            assert(seq![FEND] + (t + d) =~= seq![FEND] + t + d);
            lemma_payloads_part(kiss_frames(c), kiss_frames(seq![FEND] + t + d));
        }
    }
}

/// However a stream of bytes is cut into reads, a session hands out the
/// payloads of its closed data frames, each once and in order, and keeps what
/// follows the last delimiter.
pub proof fn law_cuts_do_not_matter(reads: Seq<Seq<u8>>)
    ensures
        handed_out(reads) == closed_payloads(joined(reads)),
        pending_after(reads) == kept_part(joined(reads)),
    decreases reads.len(),
{
    if reads.len() == 0 {
        assert(closed_part(joined(reads)) =~= seq![]);
        assert(closed_payloads(joined(reads)) =~= seq![]);
    } else {
        law_cuts_do_not_matter(reads.drop_last());
        lemma_next_read(joined(reads.drop_last()), reads.last());
    }
}

/// Encoded payloads, however they are cut into reads, are handed out exactly
/// as they were, in order, with no byte waiting for a delimiter at the end.
pub proof fn law_encoded_payloads_are_handed_out(payloads: Seq<Seq<u8>>, reads: Seq<Seq<u8>>)
    requires
        joined(reads) == data_frames(payloads),
    ensures
        handed_out(reads) == payloads,
        after_last_fend(joined(reads)).len() == 0,
{
    law_cuts_do_not_matter(reads);
    law_roundtrip_many(payloads);
    lemma_data_payloads(payloads);
    lemma_frames_end_with_delimiter(payloads);
    assert(closed_part(joined(reads)) =~= joined(reads));
}

/// The wire form of a payload, byte by byte: a delimiter and a zero, each byte
/// but 0xC0 and 0xDB as it is, 0xC0 as 0xDB 0xDC and 0xDB as 0xDB 0xDD, and a
/// delimiter.
pub proof fn law_wire_form(payload: Seq<u8>)
    ensures
        data_frame(payload) == seq![0xC0u8, 0u8] + payload.map_values(
            |b: u8|
                if b == 0xC0 {
                    seq![0xDBu8, 0xDCu8]
                } else if b == 0xDB {
                    seq![0xDBu8, 0xDDu8]
                } else {
                    seq![b]
                },
        ).flatten() + seq![0xC0u8],
{
    lemma_escape_parts(payload);
}

proof fn lemma_escape_parts(s: Seq<u8>)
    ensures
        escape(s) == s.map_values(
            |b: u8|
                if b == 0xC0 {
                    seq![0xDBu8, 0xDCu8]
                } else if b == 0xDB {
                    seq![0xDBu8, 0xDDu8]
                } else {
                    seq![b]
                },
        ).flatten(),
    decreases s.len(),
{
    let parts = s.map_values(
        |b: u8|
            if b == 0xC0 {
                seq![0xDBu8, 0xDCu8]
            } else if b == 0xDB {
                seq![0xDBu8, 0xDDu8]
            } else {
                seq![b]
            },
    );
    if s.len() > 0 {
        lemma_escape_parts(s.skip(1));
        assert(parts.drop_first() =~= s.skip(1).map_values(
            |b: u8|
                if b == 0xC0 {
                    seq![0xDBu8, 0xDCu8]
                } else if b == 0xDB {
                    seq![0xDBu8, 0xDDu8]
                } else {
                    seq![b]
                },
        ));
    }
}

/// How escapes are undone: 0xDB 0xDC is 0xC0 and 0xDB 0xDD is 0xDB; 0xDB before
/// any other byte is kept with it; at the end it is dropped; every other byte
/// stands for itself.
pub proof fn law_unescape(b: u8, rest: Seq<u8>)
    ensures
        unescape(seq![]) == Seq::<u8>::empty(),
        unescape(seq![0xDBu8]) == Seq::<u8>::empty(),
        b != 0xDB ==> unescape(seq![b] + rest) == seq![b] + unescape(rest),
        unescape(seq![0xDBu8, 0xDCu8] + rest) == seq![0xC0u8] + unescape(rest),
        unescape(seq![0xDBu8, 0xDDu8] + rest) == seq![0xDBu8] + unescape(rest),
        b != 0xDC && b != 0xDD ==> unescape(seq![0xDBu8, b] + rest) == seq![0xDBu8, b] + unescape(
            rest,
        ),
{
    assert((seq![b] + rest).skip(1) =~= rest);
    assert((seq![0xDBu8, 0xDCu8] + rest).skip(2) =~= rest);
    assert((seq![0xDBu8, 0xDDu8] + rest).skip(2) =~= rest);
    assert((seq![0xDBu8, b] + rest).skip(2) =~= rest);
}

/// The commands: 0 carries data, 1, 2 and 3 set a parameter to the first byte
/// behind them, or to 0 where there is none, 0xFF leaves KISS mode, and all
/// others say nothing, like an empty segment.
pub proof fn law_commands(cmd: u8, body: Seq<u8>)
    ensures
        frame_of(seq![]) is None,
        frame_of(seq![0u8] + body) == Some(KissContent::Data(body)),
        frame_of(seq![0xFFu8] + body) == Some(KissContent::Return),
        body.len() > 0 ==> frame_of(seq![1u8] + body) == Some(KissContent::TxDelay(body[0])),
        body.len() > 0 ==> frame_of(seq![2u8] + body) == Some(KissContent::Persistence(body[0])),
        body.len() > 0 ==> frame_of(seq![3u8] + body) == Some(KissContent::SlotTime(body[0])),
        frame_of(seq![1u8]) == Some(KissContent::TxDelay(0)),
        frame_of(seq![2u8]) == Some(KissContent::Persistence(0)),
        frame_of(seq![3u8]) == Some(KissContent::SlotTime(0)),
        3 < cmd < 0xFF ==> frame_of(seq![cmd] + body) is None,
{
    assert((seq![0u8] + body).skip(1) =~= body);
    assert((seq![1u8] + body).skip(1) =~= body);
    assert((seq![2u8] + body).skip(1) =~= body);
    assert((seq![3u8] + body).skip(1) =~= body);
}

/// How a buffer is cut: bytes before the first delimiter say nothing, and a
/// delimiter opens a segment that ends at the next one, which in turn opens
/// what follows, or at the end of the buffer. A segment gives the frame that
/// its unescaped bytes hold.
pub proof fn law_segments(junk: Seq<u8>, segment: Seq<u8>, rest: Seq<u8>)
    requires
        forall|i: int| 0 <= i < junk.len() ==> #[trigger] junk[i] != 0xC0,
        forall|i: int| 0 <= i < segment.len() ==> #[trigger] segment[i] != 0xC0,
    ensures
        kiss_frames(junk) == Seq::<KissContent>::empty(),
        ({
            let frames = match frame_of(unescape(segment)) {
                Some(f) => seq![f],
                None => seq![],
            };
            &&& kiss_frames(junk + seq![0xC0u8] + segment) == frames
            &&& kiss_frames(junk + seq![0xC0u8] + segment + seq![0xC0u8] + rest) == frames
                + kiss_frames(seq![0xC0u8] + rest)
        }),
    decreases junk.len(),
{
    let open = junk + seq![0xC0u8] + segment;
    let closed = open + seq![0xC0u8] + rest;
    if junk.len() > 0 {
        let tail = junk.skip(1);
        assert forall|i: int| 0 <= i < tail.len() implies #[trigger] tail[i] != 0xC0 by {
            assert(tail[i] == junk[i + 1]);
        }
        law_segments(tail, segment, rest);
        assert(junk[0] != 0xC0);
        assert(open.skip(1) =~= tail + seq![0xC0u8] + segment);
        assert(closed.skip(1) =~= tail + seq![0xC0u8] + segment + seq![0xC0u8] + rest);
        assert(open[0] == junk[0] && closed[0] == junk[0]);
        assert(kiss_frames(junk) == kiss_frames(tail));
        assert(kiss_frames(open) == kiss_frames(open.skip(1)));
        assert(kiss_frames(closed) == kiss_frames(closed.skip(1)));
    } else {
        assert(junk =~= seq![]);
        assert(open =~= seq![0xC0u8] + segment);
        assert(closed =~= seq![0xC0u8] + (segment + (seq![0xC0u8] + rest)));
        lemma_opened_segment(segment, seq![]);
        lemma_opened_segment(segment, seq![0xC0u8] + rest);
        assert(segment + seq![] =~= segment);
        assert(kiss_frames(seq![]) =~= seq![]);
        let frames = frames_of_segment(segment);
        assert(frames + seq![] =~= frames);
    }
}

/// A delimiter opens a segment that reaches to what follows it.
proof fn lemma_opened_segment(segment: Seq<u8>, after: Seq<u8>)
    requires
        forall|i: int| 0 <= i < segment.len() ==> #[trigger] segment[i] != 0xC0,
        after.len() > 0 ==> after[0] == 0xC0,
    ensures
        kiss_frames(seq![0xC0u8] + (segment + after)) == frames_of_segment(segment) + kiss_frames(
            after,
        ),
{
    let s = seq![0xC0u8] + (segment + after);
    let body = s.skip(1);
    let n = segment.len();
    assert(body =~= segment + after);
    lemma_segment_len_is(body, n);
    assert(body.take(n as int) =~= segment);
    assert(body.skip(n as int) =~= after);
    assert(s[0] == FEND);
}

/// The payloads that are handed on are those of the data frames, in order.
pub proof fn law_data_payloads(frames: Seq<KissContent>)
    ensures
        data_payloads(frames) == frames.filter(|f: KissContent| f is Data).map_values(
            |f: KissContent| f->Data_0,
        ),
    decreases frames.len(),
{
    reveal(Seq::filter);
    let is_data = |f: KissContent| f is Data;
    let payload = |f: KissContent| f->Data_0;
    let all = frames.filter(is_data).map_values(payload);
    if frames.len() > 0 {
        law_data_payloads(frames.drop_last());
        let front = frames.drop_last().filter(is_data).map_values(payload);
        if frames.last() is Data {
            assert(all =~= front.push(frames.last()->Data_0));
        } else {
            assert(all =~= front);
        }
    } else {
        assert(all =~= seq![]);
    }
}

/// What a session does with its bytes once `before` stands before the last
/// delimiter and `open` behind it: the frames of the closed part are handed
/// out, the delimiter and what follows it are kept, and the client is closed
/// where more than 65536 bytes follow it. Without a delimiter all is kept.
pub proof fn law_closed_and_kept(before: Seq<u8>, open: Seq<u8>)
    requires
        forall|i: int| 0 <= i < open.len() ==> #[trigger] open[i] != 0xC0,
    ensures
        closed_payloads(before + seq![0xC0u8] + open) == data_payloads(
            kiss_frames(before + seq![0xC0u8]),
        ),
        kept_part(before + seq![0xC0u8] + open) == seq![0xC0u8] + open,
        after_last_fend(before + seq![0xC0u8] + open) == open,
        closed_payloads(open) == Seq::<Seq<u8>>::empty(),
        kept_part(open) == open,
        after_last_fend(open) == open,
        MAX_KISS_FRAME_LEN == 65536,
{
    lemma_closed_part_is(before + seq![0xC0u8], open);
    lemma_closed_part_is(seq![], open);
    assert(seq![] + open =~= open);
    assert(kiss_frames(seq![]) =~= seq![]);
}

} // verus!
