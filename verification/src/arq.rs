//! Selective-repeat ARQ.
//!
//! The transmitter numbers segments modulo 256 and keeps up to a window of them
//! until they are acknowledged. The receiver buffers what comes out of order and
//! delivers in order. An acknowledgement names the next segment that is missing
//! and, bit by bit, which of the 31 after it have arrived.
//!
//! Times are counts of nanoseconds from any fixed moment. How round-trip times
//! are smoothed into an estimate is left to the caller, who gets every sample
//! and hands the estimate back.
use vstd::prelude::*;

verus! {

/// Window size unless another is asked for.
pub const DEFAULT_WINDOW_SIZE: u8 = 8;

/// Largest window, and number of slots of the buffers.
pub const MAX_WINDOW_SIZE: u8 = 32;

/// Number of segments beyond the cumulative one that an acknowledgement covers.
pub const SACK_RANGE: u8 = 31;

/// Retransmit timeout before any round trip is measured.
pub const DEFAULT_RTO: u64 = 5_000_000_000;

/// Retransmissions allowed per segment unless another number is asked for.
pub const DEFAULT_MAX_RETRANSMIT: u8 = 5;

/// Time a half-duplex radio takes to change direction.
pub const DEFAULT_TURNAROUND: u64 = 150_000_000;

/// Speed level assumed before one is negotiated.
pub const DEFAULT_SPEED_LEVEL: u8 = 2;

/// Time on air of a frame at the default speed level in the standard HF
/// profile: 52 symbols of 1260 samples at 48 kHz.
pub const DEFAULT_FRAME_AIRTIME: u64 = 1_365_000_000;

/// Floor of the timeout where the time on air is not known.
pub const MIN_RTO: u64 = 1_000_000_000;

/// Cap of the timeout.
pub const MAX_RTO: u64 = 60_000_000_000;

/// Why a request to the transmitter is refused.
#[derive(Debug, Clone, Copy, PartialEq, Eq, Structural)]
pub enum ArqError {
    /// The window size is not between one and the largest window.
    WindowSize { got: u8 },
    /// As many segments are in flight as the window holds.
    WindowFull,
    /// No unacknowledged segment has this number.
    NoPendingSegment { seq: u8 },
}

/// The time a sender has to wait before a burst can have been acknowledged:
/// the burst itself, its acknowledgement, and two turnarounds, at most the cap.
pub open spec fn floor_of(
    window: int,
    frame: Option<u64>,
    ack: Option<u64>,
    turnaround: int,
) -> int {
    match (frame, ack) {
        (Some(f), Some(a)) => {
            let t = window * f + 2 * turnaround + a;
            if t < MAX_RTO {
                t
            } else {
                MAX_RTO as int
            }
        },
        _ => MIN_RTO as int,
    }
}

/// Floor of the retransmit timeout on a half-duplex link.
///
/// `frame_airtime` is the time on air of a data frame, `ack_airtime` that of an
/// acknowledgement. Where either is not known the fixed minimum stands in.
pub fn rto_floor(
    window: u8,
    frame_airtime: Option<u64>,
    ack_airtime: Option<u64>,
    turnaround: u64,
) -> (floor: u64)
    ensures
        floor == floor_of(window as int, frame_airtime, ack_airtime, turnaround as int),
{
    match (frame_airtime, ack_airtime) {
        (Some(frame), Some(ack)) => {
            assert(window * frame <= 255 * 0xFFFF_FFFF_FFFF_FFFF) by (nonlinear_arith)
                requires
                    0 <= window <= 255,
                    0 <= frame <= 0xFFFF_FFFF_FFFF_FFFF,
            ;
            let total: u128 = (window as u128) * (frame as u128) + 2u128 * (turnaround as u128) + (
            ack as u128);
            if total < MAX_RTO as u128 {
                total as u64
            } else {
                MAX_RTO
            }
        },
        _ => MIN_RTO,
    }
}

/// ARQ configuration.
#[derive(Debug, Clone, Copy, PartialEq, Eq, Structural)]
pub struct ArqConfig {
    /// Transmit window, 1 to 32 segments.
    pub window_size: u8,
    /// Retransmissions allowed per segment.
    pub max_retransmit: u8,
    /// Timeout until the first estimate.
    pub initial_rto: u64,
    /// Speed level of data frames.
    pub speed_level: u8,
    /// Speed level of acknowledgements.
    pub ack_speed_level: u8,
    /// Time to change direction.
    pub turnaround: u64,
    /// Time on air of a data frame at its level, where known.
    pub frame_airtime: Option<u64>,
    /// Time on air of an acknowledgement at its level, where known.
    pub ack_airtime: Option<u64>,
}

/// The configuration with the default link parameters.
pub open spec fn config_of(window_size: u8, max_retransmit: u8, initial_rto: u64) -> ArqConfig {
    ArqConfig {
        window_size,
        max_retransmit,
        initial_rto,
        speed_level: DEFAULT_SPEED_LEVEL,
        ack_speed_level: DEFAULT_SPEED_LEVEL,
        turnaround: DEFAULT_TURNAROUND,
        frame_airtime: Some(DEFAULT_FRAME_AIRTIME),
        ack_airtime: Some(DEFAULT_FRAME_AIRTIME),
    }
}

impl Default for ArqConfig {
    fn default() -> (c: Self)
        ensures
            c == config_of(DEFAULT_WINDOW_SIZE, DEFAULT_MAX_RETRANSMIT, DEFAULT_RTO),
    {
        ArqConfig {
            window_size: DEFAULT_WINDOW_SIZE,
            max_retransmit: DEFAULT_MAX_RETRANSMIT,
            initial_rto: DEFAULT_RTO,
            speed_level: DEFAULT_SPEED_LEVEL,
            ack_speed_level: DEFAULT_SPEED_LEVEL,
            turnaround: DEFAULT_TURNAROUND,
            frame_airtime: Some(DEFAULT_FRAME_AIRTIME),
            ack_airtime: Some(DEFAULT_FRAME_AIRTIME),
        }
    }
}

impl ArqConfig {
    /// A configuration with the default link parameters.
    pub fn new(window_size: u8, max_retransmit: u8, initial_rto: u64) -> (r: Result<
        Self,
        ArqError,
    >)
        ensures
            if 1 <= window_size <= MAX_WINDOW_SIZE {
                r == Ok::<ArqConfig, ArqError>(config_of(window_size, max_retransmit, initial_rto))
            } else {
                r == Err::<ArqConfig, ArqError>(ArqError::WindowSize { got: window_size })
            },
    {
        if window_size == 0 || window_size > MAX_WINDOW_SIZE {
            return Err(ArqError::WindowSize { got: window_size });
        }
        Ok(
            ArqConfig {
                window_size,
                max_retransmit,
                initial_rto,
                speed_level: DEFAULT_SPEED_LEVEL,
                ack_speed_level: DEFAULT_SPEED_LEVEL,
                turnaround: DEFAULT_TURNAROUND,
                frame_airtime: Some(DEFAULT_FRAME_AIRTIME),
                ack_airtime: Some(DEFAULT_FRAME_AIRTIME),
            },
        )
    }

    /// The configuration at another speed level, with the time on air of a
    /// frame at that level.
    pub fn with_airtime_params(self, speed_level: u8, turnaround: u64, airtime: Option<u64>) -> (c:
        Self)
        ensures
            c == (ArqConfig {
                speed_level,
                ack_speed_level: speed_level,
                turnaround,
                frame_airtime: airtime,
                ack_airtime: airtime,
                ..self
            }),
    {
        ArqConfig {
            window_size: self.window_size,
            max_retransmit: self.max_retransmit,
            initial_rto: self.initial_rto,
            speed_level,
            ack_speed_level: speed_level,
            turnaround,
            frame_airtime: airtime,
            ack_airtime: airtime,
        }
    }
}

/// How far `b` is ahead of `a`, modulo 256.
#[verifier::opaque]
pub open spec fn ahead(a: u8, b: u8) -> int {
    (b - a) % 256
}

/// The number `k` after `a`, modulo 256.
#[verifier::opaque]
pub open spec fn after(a: u8, k: int) -> u8 {
    ((a + k) % 256) as u8
}

/// The slot of a sequence number.
#[verifier::opaque]
pub open spec fn slot(seq: u8) -> int {
    seq as int % 32
}

/// Steps from a number add up.
proof fn lemma_after(a: u8, i: int, j: int)
    ensures
        after(a, 0) == a,
        after(after(a, i), j) == after(a, i + j),
        0 <= slot(a) < MAX_WINDOW_SIZE,
{
    reveal(after);
    reveal(slot);
}

/// Numbers less than a buffer apart have slots of their own.
proof fn lemma_slots_differ(a: u8, i: int, j: int)
    requires
        0 <= i < MAX_WINDOW_SIZE,
        0 <= j < MAX_WINDOW_SIZE,
    ensures
        (slot(after(a, i)) == slot(after(a, j))) == (i == j),
{
    reveal(after);
    reveal(slot);
}

/// Distance and step undo each other.
proof fn lemma_ahead(a: u8, b: u8, k: int)
    ensures
        0 <= ahead(a, b) < 256,
        after(a, ahead(a, b)) == b,
        0 <= k < 256 ==> ahead(a, after(a, k)) == k,
{
    reveal(after);
    reveal(ahead);
}

/// The number `k` after `a`.
fn step(a: u8, k: u8) -> (b: u8)
    ensures
        b == after(a, k as int),
{
    proof {
        reveal(after);
    }
    a.wrapping_add(k)
}

/// How far `b` is ahead of `a`.
fn distance(a: u8, b: u8) -> (d: u8)
    ensures
        d == ahead(a, b),
{
    proof {
        reveal(ahead);
    }
    b.wrapping_sub(a)
}

/// The slot of a sequence number.
fn slot_index(seq: u8) -> (i: usize)
    ensures
        i == slot(seq),
        i < MAX_WINDOW_SIZE,
{
    proof {
        reveal(slot);
    }
    seq as usize % MAX_WINDOW_SIZE as usize
}

/// The time from `sent` to `now`, zero where `now` is earlier.
pub open spec fn elapsed(sent: u64, now: u64) -> u64 {
    if now >= sent {
        (now - sent) as u64
    } else {
        0
    }
}

/// The time from `sent` to `now`.
fn time_since(sent: u64, now: u64) -> (t: u64)
    ensures
        t == elapsed(sent, now),
{
    if now >= sent {
        now - sent
    } else {
        0
    }
}

/// A timeout after one back-off: doubled, at most the cap.
pub open spec fn backed_off(rto: u64) -> u64 {
    if 2 * rto <= MAX_RTO {
        (2 * rto) as u64
    } else {
        MAX_RTO
    }
}

/// A value held between two bounds.
pub open spec fn held_between(v: u64, lo: u64, hi: u64) -> u64 {
    if v < lo {
        lo
    } else if v > hi {
        hi
    } else {
        v
    }
}

/// A segment in the transmit buffer.
#[derive(Debug, Clone)]
pub struct TxSegment {
    /// Sequence number.
    pub seq_num: u8,
    /// Payload.
    pub data: Vec<u8>,
    /// How often it was sent.
    pub transmit_count: u8,
    /// When it was last sent.
    pub last_sent: Option<u64>,
    /// Whether it is acknowledged.
    pub acked: bool,
}

/// What a segment holds.
pub struct SegmentContent {
    pub seq: u8,
    pub data: Seq<u8>,
    pub count: u8,
    pub sent: Option<u64>,
    pub acked: bool,
}

impl View for TxSegment {
    type V = SegmentContent;

    open spec fn view(&self) -> SegmentContent {
        SegmentContent {
            seq: self.seq_num,
            data: self.data@,
            count: self.transmit_count,
            sent: self.last_sent,
            acked: self.acked,
        }
    }
}

/// What a transmitter holds.
pub struct TxContent {
    /// Largest number of segments in flight.
    pub window: u8,
    /// Retransmissions allowed per segment.
    pub max_retransmit: u8,
    /// Oldest segment that is not acknowledged.
    pub base: u8,
    /// Next number to give out.
    pub next: u8,
    /// The buffer, by sequence number modulo its size.
    pub slots: Seq<Option<SegmentContent>>,
    /// Retransmit timeout.
    pub rto: u64,
    /// Floor of the timeout.
    pub floor: u64,
}

/// What an acknowledgement leads to.
#[derive(Debug)]
pub struct AckOutcome {
    /// Segments that it acknowledged first.
    pub newly_acked: Vec<u8>,
    /// Round-trip times of those among them that were sent once.
    pub rtt_samples: Vec<u64>,
}

/// Buffer and results in the course of an acknowledgement.
pub struct AckStep {
    pub slots: Seq<Option<SegmentContent>>,
    pub acked: Seq<u8>,
    pub samples: Seq<u64>,
}

impl AckStep {
    /// Acknowledge a segment: its number is listed, and its round trip too
    /// where it was sent only once.
    pub open spec fn listing(self, seg: SegmentContent, now: u64) -> AckStep {
        AckStep {
            slots: self.slots,
            acked: self.acked.push(seg.seq),
            samples: match seg.sent {
                Some(t) => if seg.count == 1 {
                    self.samples.push(elapsed(t, now))
                } else {
                    self.samples
                },
                None => self.samples,
            },
        }
    }
}

/// The first `n` segments from `base` on acknowledged and taken out.
pub open spec fn cumulative(
    slots: Seq<Option<SegmentContent>>,
    base: u8,
    n: nat,
    now: u64,
) -> AckStep
    decreases n,
{
    if n == 0 {
        AckStep { slots, acked: Seq::empty(), samples: Seq::empty() }
    } else {
        let prev = cumulative(slots, base, (n - 1) as nat, now);
        let at = slot(after(base, n - 1));
        let listed = match prev.slots[at] {
            Some(seg) => if !seg.acked {
                prev.listing(seg, now)
            } else {
                prev
            },
            None => prev,
        };
        AckStep { slots: prev.slots.update(at, None), ..listed }
    }
}

/// Bit `b` of a bitmap.
pub open spec fn bitmap_bit(bitmap: u32, b: u32) -> bool {
    (bitmap >> b) & 1 == 1
}

/// The segments that the first `m` bits of the bitmap name acknowledged.
pub open spec fn selective(start: AckStep, ack_num: u8, bitmap: u32, m: nat, now: u64) -> AckStep
    decreases m,
{
    if m == 0 {
        start
    } else {
        let prev = selective(start, ack_num, bitmap, (m - 1) as nat, now);
        let seq = after(ack_num, m as int);
        if bitmap_bit(bitmap, (m - 1) as u32) {
            match prev.slots[slot(seq)] {
                Some(seg) => if seg.seq == seq && !seg.acked {
                    AckStep {
                        slots: prev.slots.update(
                            slot(seq),
                            Some(SegmentContent { acked: true, ..seg }),
                        ),
                        ..prev.listing(seg, now)
                    }
                } else {
                    prev
                },
                None => prev,
            }
        } else {
            prev
        }
    }
}

impl TxContent {
    /// Number of segments from the base up to the next number.
    pub open spec fn in_flight(self) -> int {
        ahead(self.base, self.next)
    }

    /// How far an acknowledgement moves the base. One that is old, or that
    /// speaks of segments that were never sent, moves nothing.
    pub open spec fn advance(self, ack_num: u8) -> int {
        if ahead(self.base, ack_num) <= self.in_flight() {
            ahead(self.base, ack_num)
        } else {
            0
        }
    }

    /// Buffer and results after an acknowledgement.
    pub open spec fn acknowledged(self, ack_num: u8, bitmap: u32, now: u64) -> AckStep {
        selective(
            cumulative(self.slots, self.base, self.advance(ack_num) as nat, now),
            ack_num,
            bitmap,
            SACK_RANGE as nat,
            now,
        )
    }

    /// The transmitter with one more segment.
    pub open spec fn sent(self, data: Seq<u8>, now: u64) -> TxContent {
        TxContent {
            next: after(self.next, 1),
            slots: self.slots.update(
                slot(self.next),
                Some(
                    SegmentContent {
                        seq: self.next,
                        data,
                        count: 1,
                        sent: Some(now),
                        acked: false,
                    },
                ),
            ),
            ..self
        }
    }

    /// The transmitter after an acknowledgement.
    pub open spec fn moved(self, ack_num: u8, bitmap: u32, now: u64) -> TxContent {
        TxContent {
            base: after(self.base, self.advance(ack_num)),
            slots: self.acknowledged(ack_num, bitmap, now).slots,
            ..self
        }
    }

    /// The slot of the segment `k` after the base.
    pub open spec fn at(self, k: int) -> Option<SegmentContent> {
        self.slots[slot(after(self.base, k))]
    }

    /// Whether the buffer holds exactly the segments in flight, each under its
    /// own number, and no more than the window allows.
    pub open spec fn holds_window(self) -> bool {
        &&& self.slots.len() == MAX_WINDOW_SIZE
        &&& self.in_flight() <= self.window <= MAX_WINDOW_SIZE
        &&& forall|k: int|
            0 <= k < self.in_flight() ==> (#[trigger] self.at(k) is Some && self.at(k)->0.seq
                == after(self.base, k))
        &&& forall|k: int| self.in_flight() <= k < MAX_WINDOW_SIZE ==> #[trigger] self.at(k) is None
    }

    /// The round trips of those segments in a list that were sent once.
    pub open spec fn samples_of(self, list: Seq<u8>, now: u64) -> Seq<u64>
        decreases list.len(),
    {
        if list.len() == 0 {
            Seq::empty()
        } else {
            let front = self.samples_of(list.drop_last(), now);
            let seg = self.at(ahead(self.base, list.last()))->0;
            match seg.sent {
                Some(t) => if seg.count == 1 {
                    front.push(elapsed(t, now))
                } else {
                    front
                },
                None => front,
            }
        }
    }

    /// Whether the segment in a number's slot is due again.
    pub open spec fn is_due(self, seq: u8, now: u64) -> bool {
        match self.slots[slot(seq)] {
            Some(seg) => match seg.sent {
                Some(t) => !seg.acked && elapsed(t, now) >= self.rto && seg.count
                    <= self.max_retransmit,
                None => false,
            },
            None => false,
        }
    }

    /// The numbers due among the first `k` in flight.
    pub open spec fn due(self, now: u64, k: nat) -> Seq<u8>
        decreases k,
    {
        if k == 0 {
            Seq::empty()
        } else {
            let seq = after(self.base, k - 1);
            if self.is_due(seq, now) {
                self.due(now, (k - 1) as nat).push(seq)
            } else {
                self.due(now, (k - 1) as nat)
            }
        }
    }

    /// The unacknowledged segment with a number.
    pub open spec fn pending(self, seq: u8) -> Option<SegmentContent> {
        match self.slots[slot(seq)] {
            Some(seg) => if seg.seq == seq && !seg.acked {
                Some(seg)
            } else {
                None
            },
            None => None,
        }
    }
}

/// Transmitter side of selective-repeat ARQ.
#[derive(Debug)]
pub struct ArqTx {
    window_size: u8,
    max_retransmit: u8,
    rto: u64,
    floor: u64,
    next_seq: u8,
    send_base: u8,
    tx_buf: Vec<Option<TxSegment>>,
}

/// The content of a slot.
pub open spec fn slot_content(s: Option<TxSegment>) -> Option<SegmentContent> {
    match s {
        Some(seg) => Some(seg@),
        None => None,
    }
}

impl View for ArqTx {
    type V = TxContent;

    closed spec fn view(&self) -> TxContent {
        TxContent {
            window: self.window_size,
            max_retransmit: self.max_retransmit,
            base: self.send_base,
            next: self.next_seq,
            slots: Seq::new(self.tx_buf@.len(), |i: int| slot_content(self.tx_buf@[i])),
            rto: self.rto,
            floor: self.floor,
        }
    }
}

impl ArqTx {
    /// Whether the buffer holds exactly the segments in flight, no more than the
    /// window allows, and the settings are in range.
    pub open spec fn well_formed(self) -> bool {
        &&& self@.holds_window()
        &&& 1 <= self@.window
        &&& self@.floor <= MAX_RTO
    }

    /// A transmitter with an empty buffer.
    pub fn new(config: ArqConfig) -> (tx: Self)
        requires
            1 <= config.window_size <= MAX_WINDOW_SIZE,
        ensures
            tx.well_formed(),
            tx@ == (TxContent {
                window: config.window_size,
                max_retransmit: config.max_retransmit,
                base: 0,
                next: 0,
                slots: Seq::new(MAX_WINDOW_SIZE as nat, |i: int| None::<SegmentContent>),
                rto: config.initial_rto,
                floor: floor_of(
                    config.window_size as int,
                    config.frame_airtime,
                    config.ack_airtime,
                    config.turnaround as int,
                ) as u64,
            }),
    {
        let floor: u64 = rto_floor(
            config.window_size,
            config.frame_airtime,
            config.ack_airtime,
            config.turnaround,
        );
        let mut tx_buf: Vec<Option<TxSegment>> = Vec::new();
        let mut i: usize = 0;
        while i < MAX_WINDOW_SIZE as usize
            invariant
                i <= MAX_WINDOW_SIZE,
                tx_buf@.len() == i,
                forall|k: int| 0 <= k < i ==> #[trigger] tx_buf@[k] is None,
            decreases MAX_WINDOW_SIZE - i,
        {
            tx_buf.push(None);
            i += 1;
        }
        let tx = ArqTx {
            window_size: config.window_size,
            max_retransmit: config.max_retransmit,
            rto: config.initial_rto,
            floor,
            next_seq: 0,
            send_base: 0,
            tx_buf,
        };
        assert(tx@.slots =~= Seq::new(MAX_WINDOW_SIZE as nat, |i: int| None::<SegmentContent>));
        proof {
            lemma_empty_window(tx@);
        }
        tx
    }

    /// Put a segment in the window. The result is its number, or an error when
    /// the window is full.
    pub fn send(&mut self, data: Vec<u8>, now: u64) -> (r: Result<u8, ArqError>)
        requires
            old(self).well_formed(),
        ensures
            final(self).well_formed(),
            if old(self)@.in_flight() >= old(self)@.window {
                &&& r == Err::<u8, ArqError>(ArqError::WindowFull)
                &&& final(self)@ == old(self)@
            } else {
                &&& r == Ok::<u8, ArqError>(old(self)@.next)
                &&& final(self)@ == old(self)@.sent(data@, now)
            },
    {
        let in_flight: u8 = distance(self.send_base, self.next_seq);
        if in_flight >= self.window_size {
            return Err(ArqError::WindowFull);
        }
        proof {
            law_send_keeps_window(self@, data@, now);
        }
        let seq: u8 = self.next_seq;
        let idx: usize = slot_index(seq);
        self.tx_buf.set(
            idx,
            Some(
                TxSegment {
                    seq_num: seq,
                    data,
                    transmit_count: 1,
                    last_sent: Some(now),
                    acked: false,
                },
            ),
        );
        self.next_seq = step(self.next_seq, 1);
        assert(self@.slots =~= old(self)@.slots.update(
            slot(seq),
            Some(
                SegmentContent {
                    seq,
                    data: data@,
                    count: 1,
                    sent: Some(now),
                    acked: false,
                },
            ),
        ));
        Ok(seq)
    }

    /// Take an acknowledgement into account: `ack_num` is the first segment
    /// that the receiver misses, bit `b` of the bitmap tells whether it has the
    /// segment `b + 1` after that. A number beyond what was sent moves nothing.
    pub fn process_ack(&mut self, ack_num: u8, ack_bitmap: u32, now: u64) -> (out: AckOutcome)
        requires
            old(self).well_formed(),
        ensures
            final(self).well_formed(),
            out.newly_acked@ == old(self)@.acknowledged(ack_num, ack_bitmap, now).acked,
            out.rtt_samples@ == old(self)@.acknowledged(ack_num, ack_bitmap, now).samples,
            final(self)@ == old(self)@.moved(ack_num, ack_bitmap, now),
    {
        let mut newly_acked: Vec<u8> = Vec::new();
        let mut rtt_samples: Vec<u64> = Vec::new();
        let ghost start = self@;
        let distance: u8 = distance(self.send_base, ack_num);
        let count: u8 = if distance <= self.in_flight() {
            distance
        } else {
            0
        };
        let mut n: u8 = 0;
        proof {
            lemma_after(start.base, 0, 0);
            law_ack_keeps_window(start, ack_num, ack_bitmap, now);
        }
        while n < count
            invariant
                n <= count,
                count == start.advance(ack_num),
                start.slots.len() == MAX_WINDOW_SIZE,
                self.send_base == after(start.base, n as int),
                self@ == (TxContent {
                    base: self.send_base,
                    slots: cumulative(start.slots, start.base, n as nat, now).slots,
                    ..start
                }),
                self@.slots.len() == MAX_WINDOW_SIZE,
                newly_acked@ == cumulative(start.slots, start.base, n as nat, now).acked,
                rtt_samples@ == cumulative(start.slots, start.base, n as nat, now).samples,
            decreases count - n,
        {
            let idx: usize = slot_index(self.send_base);
            let ghost before = self@.slots;
            proof {
                assert(before[idx as int] == slot_content(self.tx_buf@[idx as int]));
                lemma_after(start.base, n as int, 1);
            }
            match &self.tx_buf[idx] {
                Some(seg) => {
                    if !seg.acked {
                        newly_acked.push(seg.seq_num);
                        if seg.transmit_count == 1 {
                            if let Some(sent) = seg.last_sent {
                                rtt_samples.push(time_since(sent, now));
                            }
                        }
                    }
                },
                None => {},
            }
            self.tx_buf.set(idx, None);
            self.send_base = step(self.send_base, 1);
            assert(self@.slots =~= before.update(idx as int, None));
            n += 1;
        }
        let ghost mid = cumulative(start.slots, start.base, count as nat, now);
        let mut bit: u8 = 0;
        while bit < SACK_RANGE
            invariant
                bit <= SACK_RANGE,
                start.slots.len() == MAX_WINDOW_SIZE,
                self@ == (TxContent {
                    base: after(start.base, start.advance(ack_num)),
                    slots: selective(mid, ack_num, ack_bitmap, bit as nat, now).slots,
                    ..start
                }),
                self@.slots.len() == MAX_WINDOW_SIZE,
                newly_acked@ == selective(mid, ack_num, ack_bitmap, bit as nat, now).acked,
                rtt_samples@ == selective(mid, ack_num, ack_bitmap, bit as nat, now).samples,
            decreases SACK_RANGE - bit,
        {
            let shift: u32 = bit as u32;
            if (ack_bitmap >> shift) & 1 == 1 {
                let seq: u8 = step(ack_num, bit + 1);
                let idx: usize = slot_index(seq);
                let ghost before = self@.slots;
                proof {
                    assert(before[idx as int] == slot_content(self.tx_buf@[idx as int]));
                    assert(seq == after(ack_num, bit + 1));
                }
                let mut found: bool = false;
                match &self.tx_buf[idx] {
                    Some(seg) => {
                        if seg.seq_num == seq && !seg.acked {
                            found = true;
                            newly_acked.push(seq);
                            if seg.transmit_count == 1 {
                                if let Some(sent) = seg.last_sent {
                                    rtt_samples.push(time_since(sent, now));
                                }
                            }
                        }
                    },
                    None => {},
                }
                if found {
                    self.mark_acked(idx);
                }
            }
            bit += 1;
        }
        AckOutcome { newly_acked, rtt_samples }
    }

    /// Mark the segment in a slot as acknowledged.
    fn mark_acked(&mut self, idx: usize)
        requires
            idx < old(self)@.slots.len(),
            old(self)@.slots[idx as int] is Some,
        ensures
            final(self)@ == (TxContent {
                slots: old(self)@.slots.update(
                    idx as int,
                    Some(SegmentContent { acked: true, ..old(self)@.slots[idx as int]->0 }),
                ),
                ..old(self)@
            }),
    {
        let ghost before = self@.slots;
        match &mut self.tx_buf[idx] {
            Some(seg) => {
                seg.acked = true;
            },
            None => {},
        }
        assert(self@.slots =~= before.update(
            idx as int,
            Some(SegmentContent { acked: true, ..before[idx as int]->0 }),
        ));
    }

    /// The segments whose timeout has passed and that may be sent again. When
    /// there are any, however many, the timeout is doubled once.
    pub fn get_retransmits(&mut self, now: u64) -> (seqs: Vec<u8>)
        requires
            old(self).well_formed(),
        ensures
            final(self).well_formed(),
            seqs@ == old(self)@.due(now, old(self)@.in_flight() as nat),
            forall|seq: u8| #[trigger]
                seqs@.contains(seq) == ((seq - old(self)@.base) % 256 < (old(self)@.next - old(
                    self,
                )@.base) % 256 && match old(self)@.slots[seq as int % 32] {
                    Some(seg) => match seg.sent {
                        Some(t) => {
                            &&& !seg.acked
                            &&& now - t >= old(self)@.rto || old(self)@.rto == 0
                            &&& seg.count <= old(self)@.max_retransmit
                        },
                        None => false,
                    },
                    None => false,
                }),
            final(self)@ == (TxContent {
                rto: if seqs@.len() == 0 {
                    old(self)@.rto
                } else {
                    backed_off(old(self)@.rto)
                },
                ..old(self)@
            }),
    {
        let mut seqs: Vec<u8> = Vec::new();
        let mut seq: u8 = self.send_base;
        let mut k: u8 = 0;
        let total: u8 = distance(self.send_base, self.next_seq);
        proof {
            lemma_after(self@.base, 0, 0);
        }
        while k < total
            invariant
                k <= total,
                total == self@.in_flight(),
                self.well_formed(),
                *self == *old(self),
                seq == after(self@.base, k as int),
                seqs@ == self@.due(now, k as nat),
            decreases total - k,
        {
            let idx: usize = slot_index(seq);
            proof {
                assert(self@.slots[idx as int] == slot_content(self.tx_buf@[idx as int]));
                lemma_after(self@.base, k as int, 1);
            }
            if let Some(seg) = &self.tx_buf[idx] {
                if !seg.acked {
                    if let Some(last_sent) = seg.last_sent {
                        if time_since(last_sent, now) >= self.rto && seg.transmit_count
                            <= self.max_retransmit {
                            seqs.push(seq);
                        }
                    }
                }
            }
            seq = step(seq, 1);
            k += 1;
        }
        if seqs.len() > 0 {
            self.rto = if self.rto <= MAX_RTO / 2 {
                self.rto * 2
            } else {
                MAX_RTO
            };
        }
        assert(self@.slots =~= old(self)@.slots);
        proof {
            lemma_window_stands(old(self)@, self@);
            law_overdue_segments_are_sent_again(old(self)@, now);
            assert(seqs@ == old(self)@.due(
                now,
                ahead(old(self)@.base, old(self)@.next) as nat,
            ));
        }
        seqs
    }

    /// Take note that a segment was sent again. The timeout stays as it is.
    pub fn mark_retransmitted(&mut self, seq: u8, now: u64) -> (r: Result<(), ArqError>)
        requires
            old(self).well_formed(),
            old(self)@.pending(seq) matches Some(seg) ==> seg.count < u8::MAX,
        ensures
            final(self).well_formed(),
            match old(self)@.pending(seq) {
                Some(seg) => {
                    &&& r is Ok
                    &&& final(self)@ == (TxContent {
                        slots: old(self)@.slots.update(
                            slot(seq),
                            Some(
                                SegmentContent {
                                    count: (seg.count + 1) as u8,
                                    sent: Some(now),
                                    ..seg
                                },
                            ),
                        ),
                        ..old(self)@
                    })
                },
                None => {
                    &&& r == Err::<(), ArqError>(ArqError::NoPendingSegment { seq })
                    &&& final(self)@ == old(self)@
                },
            },
    {
        let idx: usize = slot_index(seq);
        let ghost before = self@.slots;
        proof {
            assert(before[idx as int] == slot_content(self.tx_buf@[idx as int]));
        }
        let mut found: bool = false;
        match &mut self.tx_buf[idx] {
            Some(seg) => {
                if seg.seq_num == seq && !seg.acked {
                    found = true;
                    seg.transmit_count = seg.transmit_count + 1;
                    seg.last_sent = Some(now);
                }
            },
            None => {},
        }
        proof {
            let tx = old(self)@;
            lemma_after(seq, 0, 0);
            if found {
                lemma_segment_replaced(
                    tx,
                    seq,
                    SegmentContent {
                        count: (before[idx as int]->0.count + 1) as u8,
                        sent: Some(now),
                        ..before[idx as int]->0
                    },
                );
            }
        }
        if found {
            assert(self@.slots =~= before.update(
                idx as int,
                Some(
                    SegmentContent {
                        count: (before[idx as int]->0.count + 1) as u8,
                        sent: Some(now),
                        ..before[idx as int]->0
                    },
                ),
            ));
            Ok(())
        } else {
            assert(self@.slots =~= before);
            Err(ArqError::NoPendingSegment { seq })
        }
    }

    /// How often the unacknowledged segment with a number was sent.
    pub fn transmit_count(&self, seq: u8) -> (count: Option<u8>)
        requires
            self.well_formed(),
        ensures
            count == match self@.pending(seq) {
                Some(seg) => Some(seg.count),
                None => None,
            },
    {
        let idx: usize = slot_index(seq);
        assert(self@.slots[idx as int] == slot_content(self.tx_buf@[idx as int]));
        match &self.tx_buf[idx] {
            Some(seg) => if seg.seq_num == seq && !seg.acked {
                Some(seg.transmit_count)
            } else {
                None
            },
            None => None,
        }
    }

    /// Whether a segment has been sent more often than allowed.
    pub fn is_failed(&self, seq: u8) -> (failed: bool)
        requires
            self.well_formed(),
        ensures
            failed == (self@.slots[slot(seq)] matches Some(seg) && seg.seq == seq && seg.count
                > self@.max_retransmit),
    {
        let idx: usize = slot_index(seq);
        assert(self@.slots[idx as int] == slot_content(self.tx_buf@[idx as int]));
        match &self.tx_buf[idx] {
            Some(seg) => seg.seq_num == seq && seg.transmit_count > self.max_retransmit,
            None => false,
        }
    }

    /// The payload of a segment.
    pub fn get_segment_data(&self, seq: u8) -> (data: Option<&[u8]>)
        requires
            self.well_formed(),
        ensures
            match data {
                Some(d) => self@.slots[slot(seq)] matches Some(seg) && seg.seq == seq && d@
                    == seg.data,
                None => !(self@.slots[slot(seq)] matches Some(seg) && seg.seq == seq),
            },
    {
        let idx: usize = slot_index(seq);
        assert(self@.slots[idx as int] == slot_content(self.tx_buf@[idx as int]));
        match &self.tx_buf[idx] {
            Some(seg) => if seg.seq_num == seq {
                Some(seg.data.as_slice())
            } else {
                None
            },
            None => None,
        }
    }

    /// Set the timeout to an estimate, held between the floor and the cap.
    pub fn set_estimate(&mut self, estimate: u64)
        requires
            old(self).well_formed(),
        ensures
            final(self).well_formed(),
            final(self)@ == (TxContent {
                rto: held_between(estimate, old(self)@.floor, MAX_RTO),
                ..old(self)@
            }),
    {
        self.rto = if estimate < self.floor {
            self.floor
        } else if estimate > MAX_RTO {
            MAX_RTO
        } else {
            estimate
        };
        assert(self@.slots =~= old(self)@.slots);
        proof {
            lemma_window_stands(old(self)@, self@);
        }
    }

    /// The oldest segment that is not acknowledged.
    pub fn send_base(&self) -> (seq: u8)
        ensures
            seq == self@.base,
    {
        self.send_base
    }

    /// The next number to give out.
    pub fn next_seq(&self) -> (seq: u8)
        ensures
            seq == self@.next,
    {
        self.next_seq
    }

    /// The retransmit timeout.
    pub fn rto(&self) -> (rto: u64)
        ensures
            rto == self@.rto,
    {
        self.rto
    }

    /// The floor of the retransmit timeout.
    pub fn floor(&self) -> (floor: u64)
        ensures
            floor == self@.floor,
    {
        self.floor
    }

    /// Number of segments in flight.
    pub fn in_flight(&self) -> (n: u8)
        ensures
            n == self@.in_flight(),
    {
        distance(self.send_base, self.next_seq)
    }

    /// Whether the window has room.
    pub fn can_send(&self) -> (room: bool)
        ensures
            room == (self@.in_flight() < self@.window),
    {
        self.in_flight() < self.window_size
    }
}

/// A slot of the receive buffer.
#[derive(Debug)]
struct RxSlot {
    received: bool,
    data: Vec<u8>,
}

/// What a receiver holds.
pub struct RxContent {
    /// Number of segments that are accepted from the base on.
    pub window: u8,
    /// The next segment to deliver.
    pub base: u8,
    /// What is buffered, by sequence number modulo the size of the buffer.
    pub slots: Seq<Option<Seq<u8>>>,
}

/// Number of buffered segments in a row from `base` on, counting up to `limit`.
pub open spec fn run(slots: Seq<Option<Seq<u8>>>, base: u8, limit: nat) -> nat
    decreases limit,
{
    if limit == 0 || slots[slot(base)] is None {
        0
    } else {
        1 + run(slots, after(base, 1), (limit - 1) as nat)
    }
}

impl RxContent {
    /// Whether the buffer has its size, the window fits it, and the segment
    /// that the receiver waits for is not there yet.
    pub open spec fn waits(self) -> bool {
        &&& self.slots.len() == MAX_WINDOW_SIZE
        &&& self.window <= MAX_WINDOW_SIZE
        &&& self.slots[slot(self.base)] is None
    }

    /// Whether a segment lies in the window.
    pub open spec fn accepts(self, seq: u8) -> bool {
        ahead(self.base, seq) < self.window
    }

    /// What is buffered once a segment has come in.
    pub open spec fn buffered(self, seq: u8, data: Seq<u8>) -> Seq<Option<Seq<u8>>> {
        if self.slots[slot(seq)] is None {
            self.slots.update(slot(seq), Some(data))
        } else {
            self.slots
        }
    }

    /// Number of segments that can be delivered once a segment has come in.
    pub open spec fn deliverable(self, seq: u8, data: Seq<u8>) -> nat {
        if self.accepts(seq) {
            run(self.buffered(seq, data), self.base, MAX_WINDOW_SIZE as nat)
        } else {
            0
        }
    }

    /// The segments delivered once a segment has come in: those in a row from
    /// the base on.
    pub open spec fn delivered(self, seq: u8, data: Seq<u8>) -> Seq<(u8, Seq<u8>)> {
        Seq::new(
            self.deliverable(seq, data),
            |k: int|
                (
                    after(self.base, k),
                    self.buffered(seq, data)[slot(after(self.base, k))]->0,
                ),
        )
    }

    /// The receiver once a segment has come in.
    pub open spec fn received(self, seq: u8, data: Seq<u8>) -> RxContent {
        if self.accepts(seq) {
            RxContent {
                base: after(self.base, self.deliverable(seq, data) as int),
                slots: emptied(
                    self.buffered(seq, data),
                    self.base,
                    self.deliverable(seq, data),
                ),
                ..self
            }
        } else {
            self
        }
    }
}

/// The buffer without the `n` segments from `base` on.
pub open spec fn emptied(slots: Seq<Option<Seq<u8>>>, base: u8, n: nat) -> Seq<Option<Seq<u8>>>
    decreases n,
{
    if n == 0 {
        slots
    } else {
        emptied(slots, base, (n - 1) as nat).update(slot(after(base, n - 1)), None)
    }
}

/// Segments with their payloads as sequences.
pub open spec fn payloads(list: Seq<(u8, Vec<u8>)>) -> Seq<(u8, Seq<u8>)> {
    Seq::new(list.len(), |k: int| (list[k].0, list[k].1@))
}

/// What the first segments of a row leave behind.
proof fn lemma_emptied(slots: Seq<Option<Seq<u8>>>, base: u8, n: nat, j: int)
    requires
        slots.len() == MAX_WINDOW_SIZE,
        n <= MAX_WINDOW_SIZE,
        0 <= j < MAX_WINDOW_SIZE,
    ensures
        emptied(slots, base, n).len() == MAX_WINDOW_SIZE,
        emptied(slots, base, n)[slot(after(base, j))] == (if j < n {
            None
        } else {
            slots[slot(after(base, j))]
        }),
    decreases n,
{
    lemma_after(after(base, j), 0, 0);
    if n > 0 {
        lemma_emptied(slots, base, (n - 1) as nat, j);
        lemma_after(after(base, n - 1), 0, 0);
        lemma_slots_differ(base, j, n - 1);
    }
}

/// The row of buffered segments: those before its end are there, the one at
/// its end is not.
proof fn lemma_run(slots: Seq<Option<Seq<u8>>>, base: u8, limit: nat)
    ensures
        run(slots, base, limit) <= limit,
        forall|k: int|
            0 <= k < run(slots, base, limit) ==> slots[slot(#[trigger] after(base, k))] is Some,
        run(slots, base, limit) < limit ==> slots[slot(
            after(base, run(slots, base, limit) as int),
        )] is None,
    decreases limit,
{
    if limit > 0 && slots[slot(base)] is Some {
        let up = after(base, 1);
        lemma_run(slots, up, (limit - 1) as nat);
        assert forall|k: int| 0 <= k < run(slots, base, limit) implies slots[slot(
            #[trigger] after(base, k),
        )] is Some by {
            lemma_after(base, 1, k - 1);
            if k > 0 {
                assert(after(up, k - 1) == after(base, k));
            }
        }
        let n = run(slots, base, limit);
        lemma_after(base, 1, n - 1);
    } else {
        lemma_after(base, 0, 0);
    }
}

/// A row is as long as its segments show.
proof fn lemma_run_is(slots: Seq<Option<Seq<u8>>>, base: u8, n: nat, limit: nat)
    requires
        n <= limit,
        forall|k: int| 0 <= k < n ==> slots[slot(#[trigger] after(base, k))] is Some,
        n == limit || slots[slot(after(base, n as int))] is None,
    ensures
        run(slots, base, limit) == n,
    decreases n,
{
    lemma_after(base, 0, 0);
    if n > 0 {
        let up = after(base, 1);
        assert(slots[slot(after(base, 0))] is Some);
        assert forall|k: int| 0 <= k < n - 1 implies slots[slot(#[trigger] after(up, k))] is Some by {
            lemma_after(base, 1, k);
        }
        lemma_after(base, 1, n - 1);
        lemma_run_is(slots, up, (n - 1) as nat, (limit - 1) as nat);
    }
}

/// Receiver side of selective-repeat ARQ.
#[derive(Debug)]
pub struct ArqRx {
    recv_base: u8,
    rx_buf: Vec<RxSlot>,
    window_size: u8,
}

impl View for ArqRx {
    type V = RxContent;

    closed spec fn view(&self) -> RxContent {
        RxContent {
            window: self.window_size,
            base: self.recv_base,
            slots: Seq::new(
                self.rx_buf@.len(),
                |i: int|
                    if self.rx_buf@[i].received {
                        Some(self.rx_buf@[i].data@)
                    } else {
                        None
                    },
            ),
        }
    }
}

proof fn lemma_set_bit(bitmap: u32, b: u32, j: u32)
    requires
        b < 32,
        j < 32,
    ensures
        bitmap_bit(bitmap | (1u32 << b), j) == (j == b || bitmap_bit(bitmap, j)),
        !bitmap_bit(0, j),
{
    assert(((bitmap | (1u32 << b)) >> j) & 1 == 1 <==> (j == b || (bitmap >> j) & 1 == 1))
        by (bit_vector)
        requires
            b < 32,
            j < 32,
    ;
    assert((0u32 >> j) & 1 == 0) by (bit_vector);
}

impl ArqRx {
    /// Whether the buffer has its size, the window fits it, and the segment
    /// that the receiver waits for is not there yet.
    pub open spec fn well_formed(self) -> bool {
        self@.waits()
    }

    /// A receiver with an empty buffer. A window larger than the buffer is cut
    /// to it.
    pub fn new(window_size: u8) -> (rx: Self)
        ensures
            rx.well_formed(),
            rx@ == (RxContent {
                window: if window_size <= MAX_WINDOW_SIZE {
                    window_size
                } else {
                    MAX_WINDOW_SIZE
                },
                base: 0,
                slots: Seq::new(MAX_WINDOW_SIZE as nat, |i: int| None::<Seq<u8>>),
            }),
    {
        let mut rx_buf: Vec<RxSlot> = Vec::new();
        let mut i: usize = 0;
        while i < MAX_WINDOW_SIZE as usize
            invariant
                i <= MAX_WINDOW_SIZE,
                rx_buf@.len() == i,
                forall|k: int| 0 <= k < i ==> !(#[trigger] rx_buf@[k]).received,
            decreases MAX_WINDOW_SIZE - i,
        {
            rx_buf.push(RxSlot { received: false, data: Vec::new() });
            i += 1;
        }
        let rx = ArqRx {
            recv_base: 0,
            rx_buf,
            window_size: if window_size <= MAX_WINDOW_SIZE {
                window_size
            } else {
                MAX_WINDOW_SIZE
            },
        };
        assert(rx@.slots =~= Seq::new(MAX_WINDOW_SIZE as nat, |i: int| None::<Seq<u8>>));
        proof {
            lemma_after(0, 0, 0);
        }
        rx
    }

    /// Take in a segment. The result is what can be delivered in order.
    /// Segments outside the window, and repeats, change nothing.
    pub fn receive(&mut self, seq: u8, data: Vec<u8>) -> (delivered: Vec<(u8, Vec<u8>)>)
        requires
            old(self).well_formed(),
        ensures
            final(self).well_formed(),
            payloads(delivered@) == old(self)@.delivered(seq, data@),
            final(self)@ == old(self)@.received(seq, data@),
    {
        let mut delivered: Vec<(u8, Vec<u8>)> = Vec::new();
        let ghost start = self@;
        let ghost bytes = data@;
        let diff: u8 = distance(self.recv_base, seq);
        if diff >= self.window_size {
            assert(payloads(delivered@) =~= start.delivered(seq, bytes));
            return delivered;
        }
        let idx: usize = slot_index(seq);
        if !self.rx_buf[idx].received {
            self.rx_buf.set(idx, RxSlot { received: true, data });
        }
        let ghost full = start.buffered(seq, bytes);
        assert(self@.slots =~= full);
        let mut n: u8 = 0;
        let mut at: usize = slot_index(self.recv_base);
        proof {
            lemma_after(start.base, 0, 0);
        }
        while n < MAX_WINDOW_SIZE && self.rx_buf[at].received
            invariant
                n <= MAX_WINDOW_SIZE,
                full.len() == MAX_WINDOW_SIZE,
                self@.slots.len() == MAX_WINDOW_SIZE,
                self.rx_buf@.len() == MAX_WINDOW_SIZE,
                self@ == (RxContent {
                    base: after(start.base, n as int),
                    slots: emptied(full, start.base, n as nat),
                    ..start
                }),
                at == slot(self.recv_base),
                at < MAX_WINDOW_SIZE,
                self.recv_base == after(start.base, n as int),
                delivered@.len() == n,
                forall|k: int|
                    0 <= k < n ==> {
                        &&& (#[trigger] delivered@[k]).0 == after(start.base, k)
                        &&& full[slot(after(start.base, k))] == Some(delivered@[k].1@)
                    },
            decreases MAX_WINDOW_SIZE - n,
        {
            let ghost before = self@.slots;
            proof {
                lemma_after(start.base, n as int, 1);
                lemma_emptied(full, start.base, n as nat, n as int);
                assert(before[at as int] == full[slot(after(start.base, n as int))]);
                assert(before[at as int] == Some(self.rx_buf@[at as int].data@));
            }
            let mut slot_data: Vec<u8> = Vec::new();
            std::mem::swap(&mut slot_data, &mut self.rx_buf[at].data);
            self.rx_buf[at].received = false;
            delivered.push((self.recv_base, slot_data));
            self.recv_base = step(self.recv_base, 1);
            at = slot_index(self.recv_base);
            proof {
                assert(self@.slots =~= before.update(slot(after(start.base, n as int)), None));
            }
            n += 1;
        }
        proof {
            assert forall|k: int| 0 <= k < n implies full[slot(
                #[trigger] after(start.base, k),
            )] is Some by {
                assert(delivered@[k].0 == after(start.base, k));
            }
            if n < MAX_WINDOW_SIZE {
                lemma_emptied(full, start.base, n as nat, n as int);
                assert(self@.slots[at as int] is None);
            }
            lemma_run_is(full, start.base, n as nat, MAX_WINDOW_SIZE as nat);
            law_reception(start, seq, bytes);
            assert(payloads(delivered@) =~= start.delivered(seq, bytes));
        }
        delivered
    }

    /// The acknowledgement to send: the first segment that is missing, and
    /// which of those after it are buffered.
    pub fn ack_info(&self) -> (ack: (u8, u32))
        requires
            self.well_formed(),
        ensures
            ack.0 == self@.base,
            is_bitmap_of(ack.1, self@),
    {
        let ack_num: u8 = self.recv_base;
        let mut bitmap: u32 = 0;
        let mut bit: u8 = 0;
        proof {
            assert forall|j: u32| j < 32 implies !#[trigger] bitmap_bit(0, j) by {
                lemma_set_bit(0, 0, j);
            }
        }
        while bit < SACK_RANGE
            invariant
                bit <= SACK_RANGE,
                self.well_formed(),
                self.rx_buf@.len() == MAX_WINDOW_SIZE,
                ack_num == self@.base,
                forall|j: u32|
                    j < 32 ==> #[trigger] bitmap_bit(bitmap, j) == (j < bit
                        && self@.slots[slot(after(ack_num, j + 1))] is Some),
            decreases SACK_RANGE - bit,
        {
            let seq: u8 = step(ack_num, bit + 1);
            let idx: usize = slot_index(seq);
            let shift: u32 = bit as u32;
            proof {
                assert(seq == after(ack_num, bit + 1));
            }
            let ghost before = bitmap;
            if self.rx_buf[idx].received {
                bitmap = bitmap | (1u32 << shift);
            }
            proof {
                assert forall|j: u32| j < 32 implies #[trigger] bitmap_bit(bitmap, j) == (j < bit
                    + 1 && self@.slots[slot(after(ack_num, j + 1))] is Some) by {
                    lemma_set_bit(before, shift, j);
                    assert(bitmap_bit(before, j) == (j < bit && self@.slots[slot(
                        after(ack_num, j + 1),
                    )] is Some));
                    assert(self@.slots[idx as int] is Some == self.rx_buf@[idx as int].received);
                    if j == shift {
                        assert(after(ack_num, j + 1) == seq);
                    }
                }
            }
            bit += 1;
        }
        (ack_num, bitmap)
    }

    /// The next segment to deliver.
    pub fn recv_base(&self) -> (seq: u8)
        ensures
            seq == self@.base,
    {
        self.recv_base
    }
}

/// Whether a bitmap tells which of the segments after the base are buffered.
pub open spec fn is_bitmap_of(bitmap: u32, rx: RxContent) -> bool {
    forall|j: u32|
        j < 32 ==> #[trigger] bitmap_bit(bitmap, j) == (j < SACK_RANGE && rx.slots[slot(
            after(rx.base, j + 1),
        )] is Some)
}

/// An empty buffer with nothing in flight.
proof fn lemma_empty_window(tx: TxContent)
    requires
        tx.window <= MAX_WINDOW_SIZE,
        tx.base == tx.next,
        tx.slots == Seq::new(MAX_WINDOW_SIZE as nat, |i: int| None::<SegmentContent>),
    ensures
        tx.holds_window(),
        tx.in_flight() == 0,
{
    lemma_after(tx.base, 0, 0);
    lemma_ahead(tx.base, tx.base, 0);
    assert forall|k: int| tx.in_flight() <= k < MAX_WINDOW_SIZE implies #[trigger] tx.at(
        k,
    ) is None by {
        lemma_after(after(tx.base, k), 0, 0);
    }
}

/// The window does not depend on the timeout.
proof fn lemma_window_stands(tx: TxContent, tx2: TxContent)
    requires
        tx.holds_window(),
        tx2 == (TxContent { rto: tx2.rto, ..tx }),
    ensures
        tx2.holds_window(),
{
    assert forall|k: int| tx2.at(k) == #[trigger] tx.at(k) by {}
    assert forall|k: int| 0 <= k < tx2.in_flight() implies (#[trigger] tx2.at(k) is Some
        && tx2.at(k)->0.seq == after(tx2.base, k)) by {
        assert(tx.at(k) is Some);
    }
    assert forall|k: int| tx2.in_flight() <= k < MAX_WINDOW_SIZE implies #[trigger] tx2.at(
        k,
    ) is None by {
        assert(tx.at(k) is None);
    }
}

/// A segment may change in its slot as long as its number stays.
proof fn lemma_segment_replaced(tx: TxContent, seq: u8, seg: SegmentContent)
    requires
        tx.holds_window(),
        tx.slots[slot(seq)] is Some,
        tx.slots[slot(seq)]->0.seq == seg.seq,
    ensures
        (TxContent { slots: tx.slots.update(slot(seq), Some(seg)), ..tx }).holds_window(),
{
    lemma_after(seq, 0, 0);
    let tx2 = TxContent { slots: tx.slots.update(slot(seq), Some(seg)), ..tx };
    assert forall|k: int| 0 <= k < tx2.in_flight() implies (#[trigger] tx2.at(k) is Some
        && tx2.at(k)->0.seq == after(tx2.base, k)) by {
        assert(tx.at(k) is Some);
        lemma_after(after(tx.base, k), 0, 0);
    }
    assert forall|k: int| tx2.in_flight() <= k < MAX_WINDOW_SIZE implies #[trigger] tx2.at(
        k,
    ) is None by {
        assert(tx.at(k) is None);
        lemma_after(after(tx.base, k), 0, 0);
    }
}

/// A number is given out only while the window has room, and then the buffer
/// still holds exactly the segments in flight.
pub proof fn law_send_keeps_window(tx: TxContent, data: Seq<u8>, now: u64)
    requires
        tx.holds_window(),
        tx.in_flight() < tx.window,
    ensures
        tx.sent(data, now).holds_window(),
        tx.sent(data, now).in_flight() == tx.in_flight() + 1,
        forall|k: int| 0 <= k < tx.in_flight() ==> #[trigger] tx.sent(data, now).at(k) == tx.at(k),
{
    let n = tx.in_flight();
    let tx2 = tx.sent(data, now);
    lemma_ahead(tx.base, tx.next, n + 1);
    lemma_after(tx.base, n, 1);
    assert(tx2.in_flight() == n + 1);
    lemma_after(tx.next, 0, 0);
    assert forall|k: int| 0 <= k < MAX_WINDOW_SIZE implies #[trigger] tx2.at(k) == (if k == n {
        Some(SegmentContent { seq: tx.next, data, count: 1, sent: Some(now), acked: false })
    } else {
        tx.at(k)
    }) by {
        lemma_slots_differ(tx.base, k, n);
        lemma_after(after(tx.base, k), 0, 0);
    }
}

/// What the cumulative part leaves in the buffer.
proof fn lemma_cumulative(tx: TxContent, n: nat, now: u64, j: int)
    requires
        tx.holds_window(),
        n <= tx.in_flight(),
        0 <= j < MAX_WINDOW_SIZE,
    ensures
        cumulative(tx.slots, tx.base, n, now).slots.len() == MAX_WINDOW_SIZE,
        cumulative(tx.slots, tx.base, n, now).slots[slot(after(tx.base, j))] == (if j < n {
            None
        } else {
            tx.at(j)
        }),
    decreases n,
{
    lemma_after(after(tx.base, j), 0, 0);
    if n > 0 {
        lemma_cumulative(tx, (n - 1) as nat, now, j);
        lemma_after(after(tx.base, n - 1), 0, 0);
        lemma_slots_differ(tx.base, j, n - 1);
    }
}

/// Which segments the cumulative part lists, each once.
proof fn lemma_cumulative_lists(tx: TxContent, n: nat, now: u64, seq: u8)
    requires
        tx.holds_window(),
        n <= tx.in_flight(),
    ensures
        cumulative(tx.slots, tx.base, n, now).acked.contains(seq) == (ahead(tx.base, seq) < n
            && !tx.at(ahead(tx.base, seq))->0.acked),
        cumulative(tx.slots, tx.base, n, now).acked.no_duplicates(),
        cumulative(tx.slots, tx.base, n, now).samples == tx.samples_of(
            cumulative(tx.slots, tx.base, n, now).acked,
            now,
        ),
    decreases n,
{
    lemma_ahead(tx.base, seq, 0);
    if n > 0 {
        let prev = cumulative(tx.slots, tx.base, (n - 1) as nat, now);
        let next = cumulative(tx.slots, tx.base, n, now);
        let last = after(tx.base, n - 1);
        lemma_cumulative_lists(tx, (n - 1) as nat, now, seq);
        lemma_cumulative_lists(tx, (n - 1) as nat, now, last);
        lemma_cumulative(tx, (n - 1) as nat, now, n - 1);
        lemma_ahead(tx.base, last, n - 1);
        assert(tx.at(n - 1) is Some && tx.at(n - 1)->0.seq == last);
        if !tx.at(n - 1)->0.acked {
            assert(next.acked == prev.acked.push(last));
            assert(next.acked.drop_last() =~= prev.acked);
            lemma_contains_push(prev.acked, last, seq);
        } else {
            assert(next.acked == prev.acked);
        }
    }
}

/// Whether an acknowledgement covers the segment `k` after the base: it lies
/// before the number that the receiver misses, or a bit names it.
pub open spec fn covers(tx: TxContent, ack_num: u8, bitmap: u32, k: int) -> bool {
    k < tx.advance(ack_num) || is_named(ack_num, bitmap, SACK_RANGE as nat, after(tx.base, k))
}

/// Whether one of the first `m` bits names a segment: bit `b` names the one
/// that is `b + 1` ahead of the number that the receiver misses.
pub open spec fn is_named(ack_num: u8, bitmap: u32, m: nat, seq: u8) -> bool {
    1 <= ahead(ack_num, seq) <= m && bitmap_bit(bitmap, (ahead(ack_num, seq) - 1) as u32)
}

/// The slot of the segment `j` after the base once `m` bits are read.
spec fn slot_after_bits(tx: TxContent, ack_num: u8, bitmap: u32, m: nat, j: int) -> Option<
    SegmentContent,
> {
    if j < tx.advance(ack_num) || j >= tx.in_flight() {
        None
    } else if is_named(ack_num, bitmap, m, after(tx.base, j)) {
        Some(SegmentContent { acked: true, ..tx.at(j)->0 })
    } else {
        tx.at(j)
    }
}

/// Buffer and results once the cumulative part and `m` bits are read.
spec fn after_bits(tx: TxContent, ack_num: u8, bitmap: u32, m: nat, now: u64) -> AckStep {
    selective(
        cumulative(tx.slots, tx.base, tx.advance(ack_num) as nat, now),
        ack_num,
        bitmap,
        m,
        now,
    )
}

/// A number a buffer or more ahead of the base is not the one in its slot.
proof fn lemma_far_number(base: u8, k: int)
    requires
        MAX_WINDOW_SIZE <= k < 256,
    ensures
        slot(after(base, k)) == slot(after(base, k % 32)),
        after(base, k) != after(base, k % 32),
{
    let r = k % 32;
    lemma_ahead(base, base, k);
    lemma_ahead(base, base, r);
    assert(slot(after(base, k)) == slot(after(base, r))) by {
        reveal(slot);
        reveal(after);
        vstd::arithmetic::div_mod::lemma_mod_mod(base + k, 32, 8);
        vstd::arithmetic::div_mod::lemma_mod_mod(base + r, 32, 8);
        vstd::arithmetic::div_mod::lemma_mod_multiples_vanish(k / 32, base + r, 32);
    }
}

/// What the next bit does, where the slot that it looks at is known.
proof fn lemma_next_bit(tx: TxContent, ack_num: u8, bitmap: u32, m: nat, now: u64)
    requires
        tx.holds_window(),
        m < SACK_RANGE,
        forall|j: int|
            0 <= j < MAX_WINDOW_SIZE ==> after_bits(tx, ack_num, bitmap, m, now).slots[slot(
                #[trigger] after(tx.base, j),
            )] == slot_after_bits(tx, ack_num, bitmap, m, j),
    ensures
        ({
            let prev = after_bits(tx, ack_num, bitmap, m, now);
            let next = after_bits(tx, ack_num, bitmap, m + 1, now);
            let seq = after(ack_num, (m + 1) as int);
            let k = ahead(tx.base, seq);
            if bitmap_bit(bitmap, m as u32) && tx.advance(ack_num) <= k < tx.in_flight() && !tx.at(
                k,
            )->0.acked {
                &&& next.slots == prev.slots.update(
                    slot(seq),
                    Some(SegmentContent { acked: true, ..tx.at(k)->0 }),
                )
                &&& next.acked == prev.acked.push(seq)
                &&& next.samples == prev.listing(tx.at(k)->0, now).samples
            } else {
                next == prev
            }
        }),
{
    let seq = after(ack_num, (m + 1) as int);
    let k = ahead(tx.base, seq);
    lemma_ahead(tx.base, seq, 0);
    lemma_ahead(ack_num, seq, (m + 1) as int);
    let prev = after_bits(tx, ack_num, bitmap, m, now);
    if k < MAX_WINDOW_SIZE {
        assert(prev.slots[slot(after(tx.base, k))] == slot_after_bits(tx, ack_num, bitmap, m, k));
        if k < tx.in_flight() {
            assert(tx.at(k) is Some && tx.at(k)->0.seq == after(tx.base, k));
        }
    } else {
        let o = k % 32;
        lemma_far_number(tx.base, k);
        assert(prev.slots[slot(after(tx.base, o))] == slot_after_bits(tx, ack_num, bitmap, m, o));
        if o < tx.in_flight() {
            assert(tx.at(o) is Some && tx.at(o)->0.seq == after(tx.base, o));
        }
    }
}

/// What the first `m` bits leave in the buffer.
proof fn lemma_slots_after_bits(tx: TxContent, ack_num: u8, bitmap: u32, m: nat, now: u64)
    requires
        tx.holds_window(),
        m <= SACK_RANGE,
    ensures
        after_bits(tx, ack_num, bitmap, m, now).slots.len() == MAX_WINDOW_SIZE,
        forall|j: int|
            0 <= j < MAX_WINDOW_SIZE ==> after_bits(tx, ack_num, bitmap, m, now).slots[slot(
                #[trigger] after(tx.base, j),
            )] == slot_after_bits(tx, ack_num, bitmap, m, j),
    decreases m,
{
    lemma_ahead(tx.base, ack_num, 0);
    lemma_ahead(tx.base, tx.next, 0);
    let adv = tx.advance(ack_num);
    if m == 0 {
        lemma_cumulative(tx, adv as nat, now, 0);
        assert forall|j: int| 0 <= j < MAX_WINDOW_SIZE implies after_bits(
            tx,
            ack_num,
            bitmap,
            m,
            now,
        ).slots[slot(#[trigger] after(tx.base, j))] == slot_after_bits(
            tx,
            ack_num,
            bitmap,
            m,
            j,
        ) by {
            lemma_cumulative(tx, adv as nat, now, j);
            if j >= tx.in_flight() {
                assert(tx.at(j) is None);
            }
        }
    } else {
        let p = (m - 1) as nat;
        lemma_slots_after_bits(tx, ack_num, bitmap, p, now);
        lemma_next_bit(tx, ack_num, bitmap, p, now);
        let prev = after_bits(tx, ack_num, bitmap, p, now);
        let seq = after(ack_num, m as int);
        let k = ahead(tx.base, seq);
        lemma_ahead(tx.base, seq, 0);
        lemma_ahead(ack_num, seq, m as int);
        lemma_after(seq, 0, 0);
        assert forall|j: int| 0 <= j < MAX_WINDOW_SIZE implies after_bits(
            tx,
            ack_num,
            bitmap,
            m,
            now,
        ).slots[slot(#[trigger] after(tx.base, j))] == slot_after_bits(
            tx,
            ack_num,
            bitmap,
            m,
            j,
        ) by {
            let other = after(tx.base, j);
            assert(prev.slots[slot(other)] == slot_after_bits(tx, ack_num, bitmap, p, j));
            lemma_after(other, 0, 0);
            lemma_ahead(ack_num, other, 0);
            lemma_ahead(tx.base, other, j);
            if k < tx.in_flight() {
                lemma_slots_differ(tx.base, j, k);
                assert(tx.at(k) is Some);
            }
            if j != k {
                assert(ahead(ack_num, other) != m);
            }
        }
    }
}

/// Which segments are listed once `m` bits are read, each once.
proof fn lemma_listed_after_bits(
    tx: TxContent,
    ack_num: u8,
    bitmap: u32,
    m: nat,
    now: u64,
    seq: u8,
)
    requires
        tx.holds_window(),
        m <= SACK_RANGE,
    ensures
        after_bits(tx, ack_num, bitmap, m, now).acked.contains(seq) == ({
            let k = ahead(tx.base, seq);
            &&& k < tx.in_flight()
            &&& !tx.at(k)->0.acked
            &&& k < tx.advance(ack_num) || is_named(ack_num, bitmap, m, seq)
        }),
        after_bits(tx, ack_num, bitmap, m, now).acked.no_duplicates(),
        after_bits(tx, ack_num, bitmap, m, now).samples == tx.samples_of(
            after_bits(tx, ack_num, bitmap, m, now).acked,
            now,
        ),
    decreases m,
{
    lemma_ahead(tx.base, ack_num, 0);
    lemma_ahead(tx.base, tx.next, 0);
    let adv = tx.advance(ack_num);
    if m == 0 {
        lemma_cumulative_lists(tx, adv as nat, now, seq);
    } else {
        let p = (m - 1) as nat;
        let named = after(ack_num, m as int);
        lemma_listed_after_bits(tx, ack_num, bitmap, p, now, seq);
        lemma_listed_after_bits(tx, ack_num, bitmap, p, now, named);
        lemma_slots_after_bits(tx, ack_num, bitmap, p, now);
        lemma_next_bit(tx, ack_num, bitmap, p, now);
        let prev = after_bits(tx, ack_num, bitmap, p, now).acked;
        let next = after_bits(tx, ack_num, bitmap, m, now).acked;
        lemma_ahead(ack_num, seq, 0);
        lemma_ahead(ack_num, named, m as int);
        if next != prev {
            assert(next == prev.push(named));
            assert(next.drop_last() =~= prev);
            lemma_contains_push(prev, named, seq);
        }
    }
}

proof fn lemma_contains_push(list: Seq<u8>, last: u8, seq: u8)
    ensures
        list.push(last).contains(seq) == (list.contains(seq) || seq == last),
        list.no_duplicates() && !list.contains(last) ==> list.push(last).no_duplicates(),
{
    assert(list.push(last)[list.len() as int] == last);
    if list.contains(seq) {
        let i = choose|i: int| 0 <= i < list.len() && list[i] == seq;
        assert(list.push(last)[i] == seq);
    }
    if list.push(last).contains(seq) && seq != last {
        let i = choose|i: int| 0 <= i < list.push(last).len() && list.push(last)[i] == seq;
        assert(list[i] == seq);
    }
}

/// An acknowledgement, whatever it says, lists exactly the segments in flight
/// that it covers and that were not acknowledged before, each of them once.
pub proof fn law_ack_lists_what_it_covers(
    tx: TxContent,
    ack_num: u8,
    bitmap: u32,
    now: u64,
    seq: u8,
)
    requires
        tx.holds_window(),
    ensures
        tx.acknowledged(ack_num, bitmap, now).acked.contains(seq) == ({
            let k = ahead(tx.base, seq);
            &&& k < tx.in_flight()
            &&& covers(tx, ack_num, bitmap, k)
            &&& !tx.at(k)->0.acked
        }),
        tx.acknowledged(ack_num, bitmap, now).acked.no_duplicates(),
{
    lemma_ahead(tx.base, seq, 0);
    lemma_listed_after_bits(tx, ack_num, bitmap, SACK_RANGE as nat, now, seq);
}

/// An acknowledgement, whatever it says, leaves exactly those segments in the
/// buffer that are still in flight, with the payloads they had. One of segments
/// that were sent moves the base to the number it names, any other leaves the
/// base where it is, and none changes the next number to give out.
pub proof fn law_ack_keeps_window(tx: TxContent, ack_num: u8, bitmap: u32, now: u64)
    requires
        tx.holds_window(),
    ensures
        tx.moved(ack_num, bitmap, now).holds_window(),
        tx.moved(ack_num, bitmap, now).base == (if ahead(tx.base, ack_num) <= tx.in_flight() {
            ack_num
        } else {
            tx.base
        }),
        tx.moved(ack_num, bitmap, now).next == tx.next,
        tx.moved(ack_num, bitmap, now).in_flight() == tx.in_flight() - tx.advance(ack_num),
        forall|k: int|
            0 <= k < tx.moved(ack_num, bitmap, now).in_flight() ==> (#[trigger] tx.moved(
                ack_num,
                bitmap,
                now,
            ).at(k))->0.data == tx.at(tx.advance(ack_num) + k)->0.data,
{
    let adv = tx.advance(ack_num);
    lemma_ahead(tx.base, ack_num, 0);
    lemma_ahead(tx.base, tx.next, 0);
    lemma_after(tx.base, 0, 0);
    let tx2 = tx.moved(ack_num, bitmap, now);
    let rest = tx.in_flight() - adv;
    lemma_after(tx.base, adv, rest);
    lemma_ahead(tx2.base, tx.next, rest);
    assert(tx2.in_flight() == rest);
    lemma_slots_after_bits(tx, ack_num, bitmap, SACK_RANGE as nat, now);
    assert forall|k: int| 0 <= k < MAX_WINDOW_SIZE implies {
        &&& #[trigger] tx2.at(k) is Some == (k < rest)
        &&& k < rest ==> tx2.at(k)->0.seq == after(tx2.base, k) && tx2.at(k)->0.data == tx.at(
            adv + k,
        )->0.data
    } by {
        lemma_after(tx.base, adv, k);
        let at = adv + k;
        if at < MAX_WINDOW_SIZE {
            assert(tx2.at(k) == slot_after_bits(tx, ack_num, bitmap, SACK_RANGE as nat, at));
            if k < rest {
                assert(tx.at(at) is Some && tx.at(at)->0.seq == after(tx.base, at));
            }
        } else {
            lemma_far_number(tx.base, at);
            assert(tx2.at(k) == slot_after_bits(
                tx,
                ack_num,
                bitmap,
                SACK_RANGE as nat,
                at % 32,
            ));
        }
    }
}

/// The segments to send again are exactly those in flight that are not
/// acknowledged, whose timeout has passed and that may be sent again.
pub proof fn law_due_is_exact(tx: TxContent, now: u64, n: nat, k: int)
    requires
        n <= 256,
        0 <= k < n,
    ensures
        tx.due(now, n).contains(after(tx.base, k)) == tx.is_due(after(tx.base, k), now),
    decreases n,
{
    let seq = after(tx.base, k);
    let last = after(tx.base, n - 1);
    let prev = tx.due(now, (n - 1) as nat);
    lemma_ahead(tx.base, seq, k);
    lemma_ahead(tx.base, last, n - 1);
    if tx.is_due(last, now) {
        lemma_contains_push(prev, last, seq);
    }
    if k < n - 1 {
        law_due_is_exact(tx, now, (n - 1) as nat, k);
    } else {
        lemma_due_before(tx, now, (n - 1) as nat, k);
    }
}

/// Only numbers before the end are listed.
proof fn lemma_due_before(tx: TxContent, now: u64, n: nat, k: int)
    requires
        n <= k < 256,
    ensures
        !tx.due(now, n).contains(after(tx.base, k)),
    decreases n,
{
    if n > 0 {
        lemma_due_before(tx, now, (n - 1) as nat, k);
        let seq = after(tx.base, k);
        lemma_ahead(tx.base, seq, k);
        lemma_ahead(tx.base, seq, n - 1);
        lemma_contains_push(tx.due(now, (n - 1) as nat), after(tx.base, n - 1), seq);
    }
}

/// The timeout after a back-off is twice what it was, up to the cap, and an
/// estimate never brings it below the floor.
pub proof fn law_timeout_bounds(rto: u64, estimate: u64, floor: u64)
    requires
        floor <= MAX_RTO,
    ensures
        rto <= MAX_RTO / 2 ==> backed_off(rto) == 2 * rto,
        rto > MAX_RTO / 2 ==> backed_off(rto) == MAX_RTO,
        floor <= held_between(estimate, floor, MAX_RTO) <= MAX_RTO,
{
}

/// Round trips are measured on the segments that are newly acknowledged and were
/// sent once, on each of them and on no others, in the order in which they are
/// listed.
pub proof fn law_samples_are_of_segments_sent_once(
    tx: TxContent,
    ack_num: u8,
    bitmap: u32,
    now: u64,
)
    requires
        tx.holds_window(),
    ensures
        tx.acknowledged(ack_num, bitmap, now).samples == tx.samples_of(
            tx.acknowledged(ack_num, bitmap, now).acked,
            now,
        ),
{
    lemma_listed_after_bits(tx, ack_num, bitmap, SACK_RANGE as nat, now, 0);
}

/// What one segment does to a receiver. Something is delivered exactly when it
/// is the segment that the receiver waits for; what is delivered is numbered
/// from there on without a gap, and the receiver then waits for the number after
/// the last. A segment outside the window delivers and changes nothing.
pub proof fn law_reception(rx: RxContent, seq: u8, data: Seq<u8>)
    requires
        rx.waits(),
    ensures
        rx.received(seq, data).waits(),
        rx.delivered(seq, data).len() > 0 <==> seq == rx.base && rx.window > 0,
        rx.delivered(seq, data).len() <= MAX_WINDOW_SIZE,
        forall|k: int|
            0 <= k < rx.delivered(seq, data).len() ==> (#[trigger] rx.delivered(seq, data)[k]).0
                == after(rx.base, k),
        rx.received(seq, data).base == after(rx.base, rx.delivered(seq, data).len() as int),
        !rx.accepts(seq) ==> rx.received(seq, data) == rx,
{
    lemma_after(rx.base, 0, 0);
    lemma_after(seq, 0, 0);
    lemma_ahead(rx.base, seq, 0);
    lemma_ahead(rx.base, rx.base, 0);
    if rx.accepts(seq) {
        let full = rx.buffered(seq, data);
        let n = rx.deliverable(seq, data);
        lemma_slots_differ(rx.base, ahead(rx.base, seq), 0);
        lemma_run(full, rx.base, MAX_WINDOW_SIZE as nat);
        lemma_after(after(rx.base, n as int), 0, 0);
        if n < MAX_WINDOW_SIZE {
            lemma_emptied(full, rx.base, n, n as int);
        } else {
            lemma_emptied(full, rx.base, n, 0);
            lemma_far_number(rx.base, n as int);
        }
    }
}

/// A receiver after a number of arrivals, in the order in which they came.
pub open spec fn rx_after(rx: RxContent, arrivals: Seq<(u8, Seq<u8>)>) -> RxContent
    decreases arrivals.len(),
{
    if arrivals.len() == 0 {
        rx
    } else {
        rx_after(rx, arrivals.drop_last()).received(arrivals.last().0, arrivals.last().1)
    }
}

/// Everything that a receiver delivers over a number of arrivals.
pub open spec fn deliveries(rx: RxContent, arrivals: Seq<(u8, Seq<u8>)>) -> Seq<(u8, Seq<u8>)>
    decreases arrivals.len(),
{
    if arrivals.len() == 0 {
        Seq::empty()
    } else {
        deliveries(rx, arrivals.drop_last()) + rx_after(rx, arrivals.drop_last()).delivered(
            arrivals.last().0,
            arrivals.last().1,
        )
    }
}

/// Whether the last arrival is accepted as the segment that is due as the `p`-th
/// delivery, counted from zero.
pub open spec fn stands_for(rx: RxContent, arrivals: Seq<(u8, Seq<u8>)>, p: int) -> bool {
    let before = rx_after(rx, arrivals.drop_last());
    let seq = arrivals.last().0;
    &&& before.accepts(seq)
    &&& p == deliveries(rx, arrivals.drop_last()).len() + ahead(before.base, seq)
}

/// The payload of the first arrival that was accepted as the segment due as the
/// `p`-th delivery.
pub open spec fn first_copy(rx: RxContent, arrivals: Seq<(u8, Seq<u8>)>, p: int) -> Option<Seq<u8>>
    decreases arrivals.len(),
{
    if arrivals.len() == 0 {
        None
    } else {
        match first_copy(rx, arrivals.drop_last(), p) {
            Some(d) => Some(d),
            None => if stands_for(rx, arrivals, p) {
                Some(arrivals.last().1)
            } else {
                None
            },
        }
    }
}

/// Over any arrivals, in whatever order, with whatever losses and repeats, a
/// fresh receiver delivers the segments one after the other from its first
/// number on, without a gap and without a repeat, each with the payload of the
/// first copy that it accepted; and it then waits for the number after the last.
pub proof fn law_deliveries_run_on(rx: RxContent, arrivals: Seq<(u8, Seq<u8>)>)
    requires
        rx.window <= MAX_WINDOW_SIZE,
        rx.slots == Seq::new(MAX_WINDOW_SIZE as nat, |i: int| None::<Seq<u8>>),
    ensures
        rx_after(rx, arrivals).waits(),
        rx_after(rx, arrivals).base == after(rx.base, deliveries(rx, arrivals).len() as int),
        forall|i: int|
            0 <= i < deliveries(rx, arrivals).len() ==> {
                &&& (#[trigger] deliveries(rx, arrivals)[i]).0 == after(rx.base, i)
                &&& first_copy(rx, arrivals, i) == Some(deliveries(rx, arrivals)[i].1)
            },
{
    lemma_history(rx, arrivals);
}

/// Whether a receiver holds, for each of the deliveries that come next, the
/// first copy that it accepted.
spec fn holds_first_copies(rx: RxContent, arrivals: Seq<(u8, Seq<u8>)>) -> bool {
    let now = rx_after(rx, arrivals);
    let n = deliveries(rx, arrivals).len();
    &&& forall|k: int|
        0 <= k < MAX_WINDOW_SIZE ==> now.slots[slot(#[trigger] after(now.base, k))] == first_copy(
            rx,
            arrivals,
            n + k,
        )
    &&& forall|p: int| p >= n + MAX_WINDOW_SIZE ==> #[trigger] first_copy(rx, arrivals, p) is None
}

proof fn lemma_history(rx: RxContent, arrivals: Seq<(u8, Seq<u8>)>)
    requires
        rx.window <= MAX_WINDOW_SIZE,
        rx.slots == Seq::new(MAX_WINDOW_SIZE as nat, |i: int| None::<Seq<u8>>),
    ensures
        rx_after(rx, arrivals).waits(),
        rx_after(rx, arrivals).window == rx.window,
        rx_after(rx, arrivals).base == after(rx.base, deliveries(rx, arrivals).len() as int),
        holds_first_copies(rx, arrivals),
        forall|i: int|
            0 <= i < deliveries(rx, arrivals).len() ==> {
                &&& (#[trigger] deliveries(rx, arrivals)[i]).0 == after(rx.base, i)
                &&& first_copy(rx, arrivals, i) == Some(deliveries(rx, arrivals)[i].1)
            },
    decreases arrivals.len(), 1int,
{
    lemma_after(rx.base, 0, 0);
    if arrivals.len() == 0 {
        assert forall|k: int| 0 <= k < MAX_WINDOW_SIZE implies rx.slots[slot(
            #[trigger] after(rx.base, k),
        )] == first_copy(rx, arrivals, k) by {
            lemma_after(after(rx.base, k), 0, 0);
        }
    } else {
        lemma_arrival(rx, arrivals);
    }
}

/// One more arrival keeps the account.
proof fn lemma_arrival(rx: RxContent, arrivals: Seq<(u8, Seq<u8>)>)
    requires
        rx.window <= MAX_WINDOW_SIZE,
        rx.slots == Seq::new(MAX_WINDOW_SIZE as nat, |i: int| None::<Seq<u8>>),
        arrivals.len() > 0,
    ensures
        rx_after(rx, arrivals).waits(),
        rx_after(rx, arrivals).window == rx.window,
        rx_after(rx, arrivals).base == after(rx.base, deliveries(rx, arrivals).len() as int),
        holds_first_copies(rx, arrivals),
        forall|i: int|
            0 <= i < deliveries(rx, arrivals).len() ==> {
                &&& (#[trigger] deliveries(rx, arrivals)[i]).0 == after(rx.base, i)
                &&& first_copy(rx, arrivals, i) == Some(deliveries(rx, arrivals)[i].1)
            },
    decreases arrivals.len(), 0int,
{
    let earlier = arrivals.drop_last();
    lemma_history(rx, earlier);
    let was = rx_after(rx, earlier);
    let (seq, data) = arrivals.last();
    let now = was.received(seq, data);
    law_reception(was, seq, data);
    let n = deliveries(rx, earlier).len() as int;
    let r = was.delivered(seq, data).len() as int;
    let all = deliveries(rx, arrivals);
    lemma_after(rx.base, n, r);
    lemma_after(was.base, 0, 0);
    lemma_ahead(was.base, seq, 0);
    if !was.accepts(seq) {
        assert(all =~= deliveries(rx, earlier));
        assert forall|p: int| #[trigger] first_copy(rx, arrivals, p) == first_copy(
            rx,
            earlier,
            p,
        ) by {}
        assert forall|p: int| p >= n + MAX_WINDOW_SIZE implies #[trigger] first_copy(
            rx,
            arrivals,
            p,
        ) is None by {
            assert(first_copy(rx, earlier, p) is None);
        }
        assert forall|i: int| 0 <= i < all.len() implies {
            &&& (#[trigger] all[i]).0 == after(rx.base, i)
            &&& first_copy(rx, arrivals, i) == Some(all[i].1)
        } by {
            assert(deliveries(rx, earlier)[i].0 == after(rx.base, i));
        }
    } else {
        let full = was.buffered(seq, data);
        let d = ahead(was.base, seq);
        lemma_after(seq, 0, 0);
        assert forall|k: int| 0 <= k < MAX_WINDOW_SIZE implies full[slot(
            #[trigger] after(was.base, k),
        )] == first_copy(rx, arrivals, n + k) by {
            assert(was.slots[slot(after(was.base, k))] == first_copy(rx, earlier, n + k));
            assert(was.slots[slot(after(was.base, d))] == first_copy(rx, earlier, n + d));
            lemma_slots_differ(was.base, k, d);
            lemma_after(after(was.base, k), 0, 0);
        }
        assert forall|p: int| p >= n + MAX_WINDOW_SIZE implies #[trigger] first_copy(
            rx,
            arrivals,
            p,
        ) is None by {
            assert(first_copy(rx, earlier, p) is None);
        }
        lemma_run(full, was.base, MAX_WINDOW_SIZE as nat);
        assert forall|k: int| 0 <= k < MAX_WINDOW_SIZE implies now.slots[slot(
            #[trigger] after(now.base, k),
        )] == first_copy(rx, arrivals, n + r + k) by {
            lemma_after(was.base, r, k);
            let at = r + k;
            if at < MAX_WINDOW_SIZE {
                lemma_emptied(full, was.base, r as nat, at);
                assert(full[slot(after(was.base, at))] == first_copy(rx, arrivals, n + at));
            } else {
                lemma_far_number(was.base, at);
                lemma_emptied(full, was.base, r as nat, at % 32);
                assert(first_copy(rx, arrivals, n + at) is None);
            }
        }
        assert forall|i: int| 0 <= i < all.len() implies {
            &&& (#[trigger] all[i]).0 == after(rx.base, i)
            &&& first_copy(rx, arrivals, i) == Some(all[i].1)
        } by {
            if i < n {
                assert(deliveries(rx, earlier)[i].0 == after(rx.base, i));
                assert(all[i] == deliveries(rx, earlier)[i]);
            } else {
                let k = i - n;
                assert(all[i] == was.delivered(seq, data)[k]);
                lemma_after(rx.base, n, k);
                assert(full[slot(after(was.base, k))] is Some);
                assert(full[slot(after(was.base, k))] == first_copy(rx, arrivals, n + k));
            }
        }
    }
}

/// Whether a receiver is in step with a transmitter: it waits for a segment in
/// flight, or for the next one, and what it has buffered are segments in
/// flight, with the payloads the transmitter holds.
pub open spec fn in_step(tx: TxContent, rx: RxContent) -> bool {
    let off = ahead(tx.base, rx.base);
    &&& tx.holds_window()
    &&& rx.slots.len() == MAX_WINDOW_SIZE
    &&& rx.window <= MAX_WINDOW_SIZE
    &&& off <= tx.in_flight()
    &&& all_genuine(tx, rx.base, rx.slots)
}

/// Whether what is buffered for the segment `k` after the receiver's base, if
/// anything, is the payload of that segment in flight.
pub open spec fn is_genuine(
    tx: TxContent,
    base: u8,
    slots: Seq<Option<Seq<u8>>>,
    k: int,
) -> bool {
    slots[slot(after(base, k))] matches Some(d) ==> ahead(tx.base, base) + k < tx.in_flight()
        && tx.at(ahead(tx.base, base) + k)->0.data == d
}

/// Whether everything that is buffered is the payload of a segment in flight.
pub open spec fn all_genuine(tx: TxContent, base: u8, slots: Seq<Option<Seq<u8>>>) -> bool {
    forall|k: int| 0 <= k < MAX_WINDOW_SIZE ==> #[trigger] is_genuine(tx, base, slots, k)
}

/// A fresh transmitter and a fresh receiver are in step.
pub proof fn law_fresh_ends_are_in_step(tx: TxContent, rx: RxContent)
    requires
        1 <= tx.window <= MAX_WINDOW_SIZE,
        rx.window <= MAX_WINDOW_SIZE,
        tx.base == 0,
        tx.next == 0,
        rx.base == 0,
        tx.slots == Seq::new(MAX_WINDOW_SIZE as nat, |i: int| None::<SegmentContent>),
        rx.slots == Seq::new(MAX_WINDOW_SIZE as nat, |i: int| None::<Seq<u8>>),
    ensures
        in_step(tx, rx),
{
    lemma_after(0, 0, 0);
    lemma_ahead(0, 0, 0);
    lemma_empty_window(tx);
    assert forall|k: int| 0 <= k < MAX_WINDOW_SIZE implies #[trigger] is_genuine(
        tx,
        rx.base,
        rx.slots,
        k,
    ) by {
        lemma_after(after(rx.base, k), 0, 0);
    }
}

/// Sending keeps the ends in step.
pub proof fn law_send_keeps_step(tx: TxContent, rx: RxContent, data: Seq<u8>, now: u64)
    requires
        in_step(tx, rx),
        tx.in_flight() < tx.window,
    ensures
        in_step(tx.sent(data, now), rx),
{
    law_send_keeps_window(tx, data, now);
    let tx2 = tx.sent(data, now);
    let off = ahead(tx.base, rx.base);
    lemma_ahead(tx.base, rx.base, 0);
    assert forall|k: int| 0 <= k < MAX_WINDOW_SIZE implies #[trigger] is_genuine(
        tx2,
        rx.base,
        rx.slots,
        k,
    ) by {
        assert(is_genuine(tx, rx.base, rx.slots, k));
        if rx.slots[slot(after(rx.base, k))] is Some {
            assert(tx2.at(off + k) == tx.at(off + k));
        }
    }
}

/// A segment in flight that reaches the receiver keeps the ends in step, and
/// what is delivered is what was sent, in order, from the segment on that the
/// receiver waited for.
pub proof fn law_delivery_is_what_was_sent(tx: TxContent, rx: RxContent, k: int)
    requires
        in_step(tx, rx),
        0 <= k < tx.in_flight(),
    ensures
        ({
            let seq = after(tx.base, k);
            let data = tx.at(k)->0.data;
            &&& in_step(tx, rx.received(seq, data))
            &&& forall|i: int|
                0 <= i < rx.delivered(seq, data).len() ==> {
                    &&& (#[trigger] rx.delivered(seq, data)[i]).0 == after(rx.base, i)
                    &&& rx.delivered(seq, data)[i].1 == tx.at(ahead(tx.base, rx.base) + i)->0.data
                }
        }),
{
    let seq = after(tx.base, k);
    let data = tx.at(k)->0.data;
    if rx.accepts(seq) {
        lemma_buffered_is_genuine(tx, rx, k);
        let full = rx.buffered(seq, data);
        lemma_after(seq, 0, 0);
        lemma_delivery_is_genuine(tx, rx, full);
        lemma_run(full, rx.base, MAX_WINDOW_SIZE as nat);
        assert forall|i: int| 0 <= i < rx.delivered(seq, data).len() implies {
            &&& (#[trigger] rx.delivered(seq, data)[i]).0 == after(rx.base, i)
            &&& rx.delivered(seq, data)[i].1 == tx.at(ahead(tx.base, rx.base) + i)->0.data
        } by {
            assert(full[slot(after(rx.base, i))] is Some);
            assert(is_genuine(tx, rx.base, full, i));
        }
    }
}

/// Buffering a segment in flight keeps what is buffered genuine.
proof fn lemma_buffered_is_genuine(tx: TxContent, rx: RxContent, k: int)
    requires
        in_step(tx, rx),
        0 <= k < tx.in_flight(),
        rx.accepts(after(tx.base, k)),
    ensures
        all_genuine(tx, rx.base, rx.buffered(after(tx.base, k), tx.at(k)->0.data)),
{
    let seq = after(tx.base, k);
    let data = tx.at(k)->0.data;
    let off = ahead(tx.base, rx.base);
    let d = ahead(rx.base, seq);
    lemma_ahead(tx.base, rx.base, 0);
    lemma_ahead(rx.base, seq, 0);
    lemma_after(tx.base, off, d);
    lemma_ahead(tx.base, seq, k);
    lemma_ahead(tx.base, seq, off + d);
    assert(k == off + d);
    lemma_after(seq, 0, 0);
    let full = rx.buffered(seq, data);
    assert forall|i: int| 0 <= i < MAX_WINDOW_SIZE implies #[trigger] is_genuine(
        tx,
        rx.base,
        full,
        i,
    ) by {
        assert(is_genuine(tx, rx.base, rx.slots, i));
        lemma_slots_differ(rx.base, i, d);
        lemma_after(after(rx.base, i), 0, 0);
    }
}

/// Delivering a row of genuine segments keeps the ends in step.
proof fn lemma_delivery_is_genuine(tx: TxContent, rx: RxContent, full: Seq<Option<Seq<u8>>>)
    requires
        in_step(tx, rx),
        full.len() == MAX_WINDOW_SIZE,
        all_genuine(tx, rx.base, full),
    ensures
        in_step(
            tx,
            RxContent {
                base: after(rx.base, run(full, rx.base, MAX_WINDOW_SIZE as nat) as int),
                slots: emptied(
                    full,
                    rx.base,
                    run(full, rx.base, MAX_WINDOW_SIZE as nat),
                ),
                ..rx
            },
        ),
{
    let off = ahead(tx.base, rx.base);
    lemma_ahead(tx.base, rx.base, 0);
    let n = run(full, rx.base, MAX_WINDOW_SIZE as nat);
    lemma_run(full, rx.base, MAX_WINDOW_SIZE as nat);
    if n > 0 {
        assert(full[slot(after(rx.base, n - 1))] is Some);
        assert(is_genuine(tx, rx.base, full, n - 1));
    }
    let base2 = after(rx.base, n as int);
    let slots2 = emptied(full, rx.base, n);
    lemma_after(tx.base, off, n as int);
    lemma_ahead(tx.base, base2, off + n);
    lemma_emptied(full, rx.base, n, 0);
    assert forall|j: int| 0 <= j < MAX_WINDOW_SIZE implies #[trigger] is_genuine(
        tx,
        base2,
        slots2,
        j,
    ) by {
        lemma_after(rx.base, n as int, j);
        if n + j < MAX_WINDOW_SIZE {
            lemma_emptied(full, rx.base, n, n + j);
            assert(is_genuine(tx, rx.base, full, n + j));
        } else {
            lemma_far_number(rx.base, n + j);
            lemma_emptied(full, rx.base, n, n + j - 32);
        }
    }
}

/// The receiver's acknowledgement keeps the ends in step, moves the window to
/// the segment that the receiver waits for, and acknowledges what it has
/// buffered.
pub proof fn law_ack_keeps_step(tx: TxContent, rx: RxContent, bitmap: u32, now: u64)
    requires
        in_step(tx, rx),
        is_bitmap_of(bitmap, rx),
    ensures
        in_step(tx.moved(rx.base, bitmap, now), rx),
        tx.moved(rx.base, bitmap, now).base == rx.base,
        tx.moved(rx.base, bitmap, now).in_flight() == tx.in_flight() - ahead(tx.base, rx.base),
        forall|k: int|
            1 <= k < tx.in_flight() - ahead(tx.base, rx.base) && #[trigger] rx.slots[slot(
                after(rx.base, k),
            )] is Some ==> covers(tx, rx.base, bitmap, ahead(tx.base, rx.base) + k),
{
    let off = ahead(tx.base, rx.base);
    lemma_ahead(tx.base, rx.base, 0);
    law_ack_keeps_window(tx, rx.base, bitmap, now);
    let tx2 = tx.moved(rx.base, bitmap, now);
    lemma_ahead(rx.base, rx.base, 0);
    lemma_after(rx.base, 0, 0);
    assert(ahead(tx2.base, rx.base) == 0);
    assert forall|k: int| 0 <= k < MAX_WINDOW_SIZE implies #[trigger] is_genuine(
        tx2,
        rx.base,
        rx.slots,
        k,
    ) by {
        assert(is_genuine(tx, rx.base, rx.slots, k));
        if rx.slots[slot(after(rx.base, k))] is Some {
            assert(tx2.at(k)->0.data == tx.at(off + k)->0.data);
        }
    }
    assert forall|k: int|
        1 <= k < tx.in_flight() - off && #[trigger] rx.slots[slot(
            after(rx.base, k),
        )] is Some implies covers(tx, rx.base, bitmap, off + k) by {
        assert(bitmap_bit(bitmap, (k - 1) as u32) == (k - 1 < SACK_RANGE && rx.slots[slot(
            after(rx.base, k),
        )] is Some));
        lemma_after(tx.base, off, k);
        lemma_ahead(rx.base, rx.base, k);
    }
}

/// Numbers run modulo 256, and a number's slot is its remainder modulo 32.
pub proof fn law_numbering(a: u8, b: u8, k: int)
    ensures
        ahead(a, b) == (b - a) % 256,
        after(a, k) == (a + k) % 256,
        slot(a) == a as int % 32,
{
    reveal(ahead);
    reveal(after);
    reveal(slot);
}

/// Over all numbers, a segment is to be sent again exactly when it is in flight,
/// is not acknowledged, was last sent at least a timeout ago and has been sent
/// no more often than the limit allows, however often that is.
pub proof fn law_overdue_segments_are_sent_again(tx: TxContent, now: u64)
    ensures
        forall|seq: u8| #[trigger]
            tx.due(now, ahead(tx.base, tx.next) as nat).contains(seq) == ((seq - tx.base) % 256 < (
            tx.next - tx.base) % 256 && match tx.slots[seq as int % 32] {
                Some(seg) => match seg.sent {
                    Some(t) => {
                        &&& !seg.acked
                        &&& now - t >= tx.rto || tx.rto == 0
                        &&& seg.count <= tx.max_retransmit
                    },
                    None => false,
                },
                None => false,
            }),
{
    let n = ahead(tx.base, tx.next) as nat;
    lemma_ahead(tx.base, tx.next, 0);
    law_numbering(tx.base, tx.next, 0);
    assert forall|seq: u8| #[trigger] tx.due(now, n).contains(seq) == ((seq - tx.base) % 256 < (
    tx.next - tx.base) % 256 && match tx.slots[seq as int % 32] {
        Some(seg) => match seg.sent {
            Some(t) => {
                &&& !seg.acked
                &&& now - t >= tx.rto || tx.rto == 0
                &&& seg.count <= tx.max_retransmit
            },
            None => false,
        },
        None => false,
    }) by {
        let k = ahead(tx.base, seq);
        lemma_ahead(tx.base, seq, 0);
        law_numbering(tx.base, seq, 0);
        law_numbering(seq, seq, 0);
        if k < n {
            law_due_is_exact(tx, now, n, k);
        } else {
            lemma_due_before(tx, now, n, k);
        }
    }
}

/// Segments are sent again in the order of their numbers, each once.
pub proof fn law_overdue_segments_are_in_order(tx: TxContent, now: u64, n: nat)
    requires
        n <= 256,
    ensures
        forall|i: int, j: int|
            0 <= i < j < tx.due(now, n).len() ==> (#[trigger] tx.due(now, n)[i] - tx.base) % 256 < (
            #[trigger] tx.due(now, n)[j] - tx.base) % 256,
        forall|i: int|
            0 <= i < tx.due(now, n).len() ==> (#[trigger] tx.due(now, n)[i] - tx.base) % 256 < n,
    decreases n,
{
    if n > 0 {
        law_overdue_segments_are_in_order(tx, now, (n - 1) as nat);
        let last = after(tx.base, n - 1);
        let prev = tx.due(now, (n - 1) as nat);
        let list = tx.due(now, n);
        lemma_ahead(tx.base, last, n - 1);
        law_numbering(tx.base, last, n - 1);
        assert forall|i: int| 0 <= i < list.len() implies {
            &&& i < prev.len() ==> list[i] == prev[i] && (list[i] - tx.base) % 256 < n - 1
            &&& i >= prev.len() ==> (list[i] - tx.base) % 256 == n - 1
            &&& (#[trigger] list[i] - tx.base) % 256 < n
        } by {
            if i < prev.len() {
                assert((prev[i] - tx.base) % 256 < n - 1);
            }
        }
        assert forall|i: int, j: int| 0 <= i < j < list.len() implies (#[trigger] list[i] - tx.base)
            % 256 < (#[trigger] list[j] - tx.base) % 256 by {
            if j < prev.len() {
                assert((prev[i] - tx.base) % 256 < (prev[j] - tx.base) % 256);
            }
        }
    }
}

/// A segment that was sent again and is lost again is sent yet again: once
/// another timeout has passed it is due, as long as the limit allows.
pub proof fn law_retransmission_recurs(
    tx: TxContent,
    seq: u8,
    at: u64,
    now: u64,
    seg: SegmentContent,
)
    requires
        tx.holds_window(),
        (seq - tx.base) % 256 < (tx.next - tx.base) % 256,
        tx.slots[seq as int % 32] == Some(seg),
        !seg.acked,
        seg.count < tx.max_retransmit,
        now - at >= tx.rto,
    ensures
        (TxContent {
            slots: tx.slots.update(
                seq as int % 32,
                Some(SegmentContent { count: (seg.count + 1) as u8, sent: Some(at), ..seg }),
            ),
            ..tx
        }).due(now, ahead(tx.base, tx.next) as nat).contains(seq),
{
    let tx2 = TxContent {
        slots: tx.slots.update(
            seq as int % 32,
            Some(SegmentContent { count: (seg.count + 1) as u8, sent: Some(at), ..seg }),
        ),
        ..tx
    };
    law_overdue_segments_are_sent_again(tx2, now);
    assert(tx2.slots[seq as int % 32]->0.sent == Some(at));
    assert(tx2.due(now, ahead(tx2.base, tx2.next) as nat).contains(seq));
}

/// One more segment takes the next number and the slot of that number, marked as
/// sent once at this time and not acknowledged; nothing else changes.
pub proof fn law_sending(tx: TxContent, data: Seq<u8>, now: u64)
    requires
        tx.slots.len() == 32,
    ensures
        tx.sent(data, now).next == (tx.next + 1) % 256,
        tx.sent(data, now).base == tx.base,
        tx.sent(data, now).window == tx.window,
        tx.sent(data, now).max_retransmit == tx.max_retransmit,
        tx.sent(data, now).rto == tx.rto,
        tx.sent(data, now).floor == tx.floor,
        tx.sent(data, now).slots.len() == 32,
        forall|i: int|
            0 <= i < 32 ==> #[trigger] tx.sent(data, now).slots[i] == (if i == tx.next as int % 32 {
                Some(
                    SegmentContent {
                        seq: tx.next,
                        data,
                        count: 1,
                        sent: Some(now),
                        acked: false,
                    },
                )
            } else {
                tx.slots[i]
            }),
{
    law_numbering(tx.next, tx.next, 1);
}

/// An acknowledgement, over all numbers: newly acknowledged is exactly what was
/// in flight and not acknowledged, and lies before `ack_num`, where that is at
/// most the next number, or is named by one of the 31 bits of the bitmap, the
/// lowest of which stands for the number after `ack_num`.
pub proof fn law_acknowledgement(tx: TxContent, ack_num: u8, bitmap: u32, now: u64)
    requires
        tx.holds_window(),
    ensures
        forall|seq: u8| #[trigger]
            tx.acknowledged(ack_num, bitmap, now).acked.contains(seq) == {
                &&& (seq - tx.base) % 256 < (tx.next - tx.base) % 256
                &&& !tx.slots[seq as int % 32]->0.acked
                &&& {
                    ||| (seq - tx.base) % 256 < (ack_num - tx.base) % 256 <= (tx.next - tx.base)
                        % 256
                    ||| 1 <= (seq - ack_num) % 256 <= 31 && (bitmap >> (((seq - ack_num) % 256
                        - 1) as u32)) & 1 == 1
                }
            },
{
    assert forall|seq: u8| #[trigger]
        tx.acknowledged(ack_num, bitmap, now).acked.contains(seq) == {
            &&& (seq - tx.base) % 256 < (tx.next - tx.base) % 256
            &&& !tx.slots[seq as int % 32]->0.acked
            &&& {
                ||| (seq - tx.base) % 256 < (ack_num - tx.base) % 256 <= (tx.next - tx.base) % 256
                ||| 1 <= (seq - ack_num) % 256 <= 31 && (bitmap >> (((seq - ack_num) % 256
                    - 1) as u32)) & 1 == 1
            }
        } by {
        law_ack_lists_what_it_covers(tx, ack_num, bitmap, now, seq);
        law_numbering(tx.base, seq, 0);
        law_numbering(tx.base, tx.next, 0);
        law_numbering(tx.base, ack_num, 0);
        law_numbering(ack_num, seq, 0);
        law_numbering(seq, seq, 0);
        lemma_ahead(tx.base, seq, 0);
    }
}

/// What an acknowledgement leaves of each segment that stays in flight: all that
/// it was, but acknowledged where it was so before or a bit names it.
pub proof fn law_acknowledgement_keeps_segments(
    tx: TxContent,
    ack_num: u8,
    bitmap: u32,
    now: u64,
)
    requires
        tx.holds_window(),
    ensures
        tx.moved(ack_num, bitmap, now).base == (if (ack_num - tx.base) % 256 <= (tx.next - tx.base)
            % 256 {
            ack_num
        } else {
            tx.base
        }),
        tx.moved(ack_num, bitmap, now).next == tx.next,
        tx.moved(ack_num, bitmap, now).window == tx.window,
        tx.moved(ack_num, bitmap, now).max_retransmit == tx.max_retransmit,
        tx.moved(ack_num, bitmap, now).rto == tx.rto,
        tx.moved(ack_num, bitmap, now).floor == tx.floor,
        forall|seq: u8|
            (seq - tx.moved(ack_num, bitmap, now).base) % 256 < (tx.next - tx.moved(
                ack_num,
                bitmap,
                now,
            ).base) % 256 ==> {
                let was = tx.slots[seq as int % 32]->0;
                let is = #[trigger] tx.moved(ack_num, bitmap, now).slots[seq as int % 32];
                &&& is is Some
                &&& is->0.seq == seq
                &&& is->0.data == was.data
                &&& is->0.count == was.count
                &&& is->0.sent == was.sent
                &&& is->0.acked == (was.acked || 1 <= (seq - ack_num) % 256 <= 31 && (bitmap >> (((
                seq - ack_num) % 256 - 1) as u32)) & 1 == 1)
            },
{
    let tx2 = tx.moved(ack_num, bitmap, now);
    let adv = tx.advance(ack_num);
    law_ack_keeps_window(tx, ack_num, bitmap, now);
    lemma_slots_after_bits(tx, ack_num, bitmap, SACK_RANGE as nat, now);
    law_numbering(tx.base, ack_num, 0);
    law_numbering(tx.base, tx.next, 0);
    law_numbering(tx2.base, tx.next, 0);
    lemma_ahead(tx.base, ack_num, 0);
    lemma_ahead(tx.base, tx.next, 0);
    lemma_after(tx.base, 0, 0);
    assert forall|seq: u8|
        (seq - tx2.base) % 256 < (tx.next - tx2.base) % 256 implies {
        let was = tx.slots[seq as int % 32]->0;
        let is = #[trigger] tx2.slots[seq as int % 32];
        &&& is is Some
        &&& is->0.seq == seq
        &&& is->0.data == was.data
        &&& is->0.count == was.count
        &&& is->0.sent == was.sent
        &&& is->0.acked == (was.acked || 1 <= (seq - ack_num) % 256 <= 31 && (bitmap >> (((seq
            - ack_num) % 256 - 1) as u32)) & 1 == 1)
    } by {
        let k = ahead(tx2.base, seq);
        law_numbering(tx2.base, seq, 0);
        law_numbering(ack_num, seq, 0);
        law_numbering(seq, seq, 0);
        lemma_ahead(tx2.base, seq, 0);
        lemma_after(tx.base, adv, k);
        lemma_ahead(tx.base, seq, adv + k);
        assert(after(tx.base, adv + k) == seq);
        assert(tx.at(adv + k) is Some && tx.at(adv + k)->0.seq == seq);
        assert(tx2.slots[slot(seq)] == slot_after_bits(
            tx,
            ack_num,
            bitmap,
            SACK_RANGE as nat,
            adv + k,
        ));
    }
}

/// Round trips are measured on those newly acknowledged segments that were sent
/// once, from their sending to this time.
pub proof fn law_round_trips(tx: TxContent, ack_num: u8, bitmap: u32, now: u64)
    requires
        tx.holds_window(),
    ensures
        ({
            let out = tx.acknowledged(ack_num, bitmap, now);
            out.samples == out.acked.filter(
                |seq: u8|
                    tx.slots[seq as int % 32]->0.count == 1 && tx.slots[seq as int % 32]->0.sent
                        is Some,
            ).map_values(
                |seq: u8|
                    {
                        let t = tx.slots[seq as int % 32]->0.sent->0;
                        if now >= t {
                            (now - t) as u64
                        } else {
                            0u64
                        }
                    },
            )
        }),
{
    law_samples_are_of_segments_sent_once(tx, ack_num, bitmap, now);
    lemma_samples_filter(tx, tx.acknowledged(ack_num, bitmap, now).acked, now);
}

proof fn lemma_samples_filter(tx: TxContent, list: Seq<u8>, now: u64)
    ensures
        tx.samples_of(list, now) == list.filter(
            |seq: u8|
                tx.slots[seq as int % 32]->0.count == 1 && tx.slots[seq as int % 32]->0.sent
                    is Some,
        ).map_values(
            |seq: u8|
                {
                    let t = tx.slots[seq as int % 32]->0.sent->0;
                    if now >= t {
                        (now - t) as u64
                    } else {
                        0u64
                    }
                },
        ),
    decreases list.len(),
{
    let once = |seq: u8|
        tx.slots[seq as int % 32]->0.count == 1 && tx.slots[seq as int % 32]->0.sent is Some;
    let trip = |seq: u8|
        {
            let t = tx.slots[seq as int % 32]->0.sent->0;
            if now >= t {
                (now - t) as u64
            } else {
                0u64
            }
        };
    if list.len() > 0 {
        let front = list.drop_last();
        let seq = list.last();
        lemma_samples_filter(tx, front, now);
        lemma_ahead(tx.base, seq, 0);
        law_numbering(seq, seq, 0);
        assert(tx.at(ahead(tx.base, seq)) == tx.slots[seq as int % 32]);
        if once(seq) {
            assert(front.filter(once).push(seq).map_values(trip) =~= front.filter(once).map_values(
                trip,
            ).push(trip(seq)));
        }
        reveal(Seq::filter);
        assert(list.filter(once) == if once(seq) {
            front.filter(once).push(seq)
        } else {
            front.filter(once)
        });
    } else {
        assert(list.filter(once).map_values(trip) =~= Seq::<u64>::empty());
    }
}

/// A back-off doubles the timeout up to a minute, and an estimate is taken as it
/// is between the floor and a minute.
pub proof fn law_timeout_is_exact(rto: u64, estimate: u64, floor: u64)
    requires
        floor <= 60_000_000_000,
    ensures
        backed_off(rto) == (if 2 * rto < 60_000_000_000 {
            2 * rto
        } else {
            60_000_000_000
        }),
        floor <= estimate <= 60_000_000_000 ==> held_between(estimate, floor, MAX_RTO) == estimate,
        estimate < floor ==> held_between(estimate, floor, MAX_RTO) == floor,
        estimate > 60_000_000_000 ==> held_between(estimate, floor, MAX_RTO) == 60_000_000_000,
{
}

/// The floor leaves time for a burst, its acknowledgement and two turnarounds:
/// one more nanosecond in a frame adds a nanosecond for each segment of the
/// window, one more in the acknowledgement adds one, one more in the turnaround
/// adds two, and nothing takes no time; all up to a minute.
pub proof fn law_floor_is_additive(window: u8, frame: u64, ack: u64, turnaround: u64)
    ensures
        floor_of(window as int, Some(0), Some(0), 0) == 0,
        floor_of(window as int, None, Some(ack), turnaround as int) == 1_000_000_000,
        floor_of(window as int, Some(frame), None, turnaround as int) == 1_000_000_000,
        floor_of(window as int, Some(frame), Some(ack), turnaround as int) <= 60_000_000_000,
        frame < u64::MAX && floor_of(
            window as int,
            Some((frame + 1) as u64),
            Some(ack),
            turnaround as int,
        ) < 60_000_000_000 ==> floor_of(
            window as int,
            Some((frame + 1) as u64),
            Some(ack),
            turnaround as int,
        ) == floor_of(window as int, Some(frame), Some(ack), turnaround as int) + window,
        ack < u64::MAX && floor_of(
            window as int,
            Some(frame),
            Some((ack + 1) as u64),
            turnaround as int,
        ) < 60_000_000_000 ==> floor_of(
            window as int,
            Some(frame),
            Some((ack + 1) as u64),
            turnaround as int,
        ) == floor_of(window as int, Some(frame), Some(ack), turnaround as int) + 1,
        floor_of(window as int, Some(frame), Some(ack), turnaround + 1) < 60_000_000_000
            ==> floor_of(window as int, Some(frame), Some(ack), turnaround + 1) == floor_of(
            window as int,
            Some(frame),
            Some(ack),
            turnaround as int,
        ) + 2,
{
    assert(window * 0 == 0) by (nonlinear_arith);
    assert(window * (frame + 1) == window * frame + window) by (nonlinear_arith);
}

/// The pending segment of a number is the one in the number's slot, where that
/// has this number and is not acknowledged.
pub proof fn law_pending_segment(tx: TxContent, seq: u8, seg: SegmentContent)
    ensures
        tx.pending(seq) == Some(seg) <==> tx.slots[seq as int % 32] == Some(seg) && seg.seq == seq
            && !seg.acked,
{
    law_numbering(seq, seq, 0);
}

/// What one segment does to a receiver's buffer. One outside the window, or one
/// that is there already, changes nothing. One ahead of the segment that is
/// waited for is put in its slot.
pub proof fn law_out_of_order_segments_are_buffered(rx: RxContent, seq: u8, data: Seq<u8>)
    requires
        rx.waits(),
        seq != rx.base,
    ensures
        rx.delivered(seq, data) == Seq::<(u8, Seq<u8>)>::empty(),
        rx.received(seq, data).base == rx.base,
        rx.received(seq, data).window == rx.window,
        rx.received(seq, data).slots == (if (seq - rx.base) % 256 < rx.window
            && rx.slots[seq as int % 32] is None {
            rx.slots.update(seq as int % 32, Some(data))
        } else {
            rx.slots
        }),
{
    law_reception(rx, seq, data);
    law_numbering(rx.base, seq, 0);
    law_numbering(seq, seq, 0);
    assert(rx.delivered(seq, data).len() == 0);
    assert(rx.delivered(seq, data) =~= Seq::<(u8, Seq<u8>)>::empty());
    lemma_after(rx.base, 0, 0);
}

/// The segment that is waited for is delivered, and with it those buffered
/// right behind it, up to the first that is missing; they leave the buffer, and
/// all others stay.
pub proof fn law_waited_segment_is_delivered(rx: RxContent, data: Seq<u8>)
    requires
        rx.waits(),
        rx.window > 0,
    ensures
        ({
            let out = rx.delivered(rx.base, data);
            let rx2 = rx.received(rx.base, data);
            let n = out.len() as int;
            &&& 1 <= n <= 32
            &&& out[0] == (rx.base, data)
            &&& forall|k: int|
                1 <= k < n ==> {
                    &&& (#[trigger] out[k]).0 == (rx.base + k) % 256
                    &&& rx.slots[(rx.base + k) % 32] == Some(out[k].1)
                }
            &&& n < 32 ==> rx.slots[(rx.base + n) % 32] is None
            &&& rx2.base == (rx.base + n) % 256
            &&& rx2.window == rx.window
            &&& rx2.slots.len() == 32
            &&& forall|i: int|
                0 <= i < 32 ==> #[trigger] rx2.slots[i] == (if (i - rx.base) % 32 < n {
                    None
                } else {
                    rx.slots[i]
                })
        }),
{
    let out = rx.delivered(rx.base, data);
    let rx2 = rx.received(rx.base, data);
    let n = out.len() as int;
    law_reception(rx, rx.base, data);
    lemma_after(rx.base, 0, 0);
    lemma_ahead(rx.base, rx.base, 0);
    law_numbering(rx.base, rx.base, n);
    let full = rx.buffered(rx.base, data);
    lemma_run(full, rx.base, MAX_WINDOW_SIZE as nat);
    assert(full == rx.slots.update(slot(rx.base), Some(data)));
    assert forall|k: int| 1 <= k < n implies {
        &&& (#[trigger] out[k]).0 == (rx.base + k) % 256
        &&& rx.slots[(rx.base + k) % 32] == Some(out[k].1)
    } by {
        lemma_places(rx.base, k);
        lemma_slots_differ(rx.base, k, 0);
        assert(full[slot(after(rx.base, k))] is Some);
    }
    if n < 32 {
        lemma_places(rx.base, n);
        lemma_slots_differ(rx.base, n, 0);
    }
    lemma_emptied(full, rx.base, n as nat, 0);
    assert forall|i: int| 0 <= i < 32 implies #[trigger] rx2.slots[i] == (if (i - rx.base) % 32
        < n {
        None
    } else {
        rx.slots[i]
    }) by {
        lemma_slot_after_delivery(rx, data, full, n as nat, i);
    }
}

/// What a slot holds after delivery, by its place behind the base.
proof fn lemma_slot_after_delivery(
    rx: RxContent,
    data: Seq<u8>,
    full: Seq<Option<Seq<u8>>>,
    n: nat,
    i: int,
)
    requires
        rx.slots.len() == 32,
        full == rx.slots.update(slot(rx.base), Some(data)),
        1 <= n <= 32,
        0 <= i < 32,
    ensures
        emptied(full, rx.base, n)[i] == (if (i - rx.base) % 32 < n {
            None
        } else {
            rx.slots[i]
        }),
{
    let j = (i - rx.base) % 32;
    lemma_place_back(rx.base, i);
    lemma_places(rx.base, j);
    lemma_places(rx.base, 0);
    assert(after(rx.base, 0) == rx.base);
    assert(full.len() == 32);
    lemma_emptied(full, rx.base, n, j);
    if j > 0 {
        lemma_slots_differ(rx.base, j, 0);
    }
}

/// A slot is as far behind the base as its number.
proof fn lemma_place_back(base: u8, i: int)
    requires
        0 <= i < 32,
    ensures
        0 <= (i - base) % 32 < 32,
        (base + (i - base) % 32) % 32 == i,
{
    vstd::arithmetic::div_mod::lemma_add_mod_noop_right(base as int, i - base, 32);
    assert(base + (i - base) == i);
}

/// Number and slot of the segment `k` after a number.
proof fn lemma_places(base: u8, k: int)
    requires
        0 <= k < 32,
    ensures
        after(base, k) == (base + k) % 256,
        slot(after(base, k)) == (base + k) % 32,
{
    law_numbering(base, base, k);
    law_numbering(after(base, k), base, k);
    vstd::arithmetic::div_mod::lemma_mod_mod(base + k, 32, 8);
}

/// The bitmap of an acknowledgement: bit `j` tells, for each of the 31 numbers
/// after the one that is waited for, whether that segment is buffered.
pub proof fn law_bitmap_tells_what_is_buffered(bitmap: u32, rx: RxContent)
    requires
        is_bitmap_of(bitmap, rx),
    ensures
        forall|j: u32|
            j < 31 ==> (#[trigger] (bitmap >> j) & 1 == 1) == (rx.slots[(rx.base + j + 1) % 32]
                is Some),
        (bitmap >> 31) & 1 == 0,
{
    assert forall|j: u32| j < 31 implies (#[trigger] (bitmap >> j) & 1 == 1) == (rx.slots[(rx.base
        + j + 1) % 32] is Some) by {
        assert(bitmap_bit(bitmap, j) == (j < SACK_RANGE && rx.slots[slot(
            after(rx.base, j + 1),
        )] is Some));
        lemma_places(rx.base, j + 1);
    }
    assert(!bitmap_bit(bitmap, 31));
    assert((bitmap >> 31) & 1 == 1 || (bitmap >> 31) & 1 == 0) by (bit_vector);
}

/// A new configuration: what was asked for, at speed level 2 in both directions,
/// with 150 ms to change direction and 1.365 s on air for every frame. Without a
/// wish it is a window of 8, five retransmissions and a timeout of five seconds.
pub proof fn law_configuration(window_size: u8, max_retransmit: u8, initial_rto: u64)
    ensures
        config_of(window_size, max_retransmit, initial_rto) == (ArqConfig {
            window_size,
            max_retransmit,
            initial_rto,
            speed_level: 2,
            ack_speed_level: 2,
            turnaround: 150_000_000,
            frame_airtime: Some(1_365_000_000),
            ack_airtime: Some(1_365_000_000),
        }),
        DEFAULT_WINDOW_SIZE == 8,
        DEFAULT_MAX_RETRANSMIT == 5,
        DEFAULT_RTO == 5_000_000_000,
        MAX_WINDOW_SIZE == 32,
{
}

} // verus!
