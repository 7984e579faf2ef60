//! Sender-side rate control.
//!
//! The receiver recommends a speed level with every acknowledgement. The sender
//! raises slowly, one level after a number of higher recommendations in a row,
//! and drops fast: to a lower recommendation at once, and by one level when a
//! frame is lost.
//!
//! With probing, every so many frames one is sent above the current level on
//! purpose, unless recommendations are raising the level already. A probe that
//! gets through raises the level at once; one that fails changes nothing.
use vstd::prelude::*;

verus! {

/// The speed levels, ascending. Level 8 is reserved.
pub const VALID_SPEED_LEVELS: [u8; 9] = [1, 2, 3, 4, 5, 6, 7, 9, 10];

/// Number of levels at the front of a list that are at most `level`.
pub open spec fn not_above(levels: Seq<u8>, level: u8) -> nat
    decreases levels.len(),
{
    if levels.len() == 0 || levels[0] > level {
        0
    } else {
        1 + not_above(levels.skip(1), level)
    }
}

/// The place of the highest level that is at most `level`, or the first place.
pub open spec fn rank_of(levels: Seq<u8>, level: u8) -> int {
    if not_above(levels, level) == 0 {
        0
    } else {
        not_above(levels, level) - 1
    }
}

/// What a controller holds.
pub struct RateContent {
    /// The levels, ascending.
    pub levels: Seq<u8>,
    /// The place of the current one.
    pub idx: int,
    /// Higher recommendations in a row that raise the level.
    pub raise_dwell: u8,
    /// Higher recommendations in a row so far.
    pub raise_run: u8,
    /// Frames from one probe to the next; none where zero.
    pub probe_interval: u32,
    /// How far above the current place a probe goes.
    pub probe_offset: nat,
    /// Frames since the last turn of a probe.
    pub since: u32,
}

impl RateContent {
    /// Whether the places and counts are in range.
    pub open spec fn is_valid(self) -> bool {
        &&& 0 <= self.idx < self.levels.len()
        &&& self.raise_run < self.raise_dwell
        &&& self.since < u32::MAX
    }

    /// The current level.
    pub open spec fn level(self) -> u8 {
        self.levels[self.idx]
    }

    /// At another place, with the count of recommendations started over.
    pub open spec fn moved_to(self, idx: int) -> RateContent {
        RateContent { idx, raise_run: 0, ..self }
    }

    /// One place down, if there is one.
    pub open spec fn dropped(self) -> RateContent {
        self.moved_to(
            if self.idx > 0 {
                self.idx - 1
            } else {
                0
            },
        )
    }

    /// One place up, if there is one.
    pub open spec fn raised(self) -> RateContent {
        self.moved_to(
            if self.idx + 1 < self.levels.len() {
                self.idx + 1
            } else {
                self.levels.len() - 1
            },
        )
    }

    /// After an acknowledgement.
    pub open spec fn acked(self, feedback: u8, delivered: bool) -> RateContent {
        let fb = rank_of(self.levels, feedback);
        if !delivered {
            self.dropped()
        } else if fb < self.idx {
            self.moved_to(fb)
        } else if fb == self.idx {
            self.moved_to(self.idx)
        } else if self.raise_run + 1 >= self.raise_dwell {
            self.raised()
        } else {
            RateContent { raise_run: (self.raise_run + 1) as u8, ..self }
        }
    }

    /// After a probe.
    pub open spec fn probed(self, level: u8, delivered: bool) -> RateContent {
        if delivered {
            self.moved_to(rank_of(self.levels, level))
        } else {
            self
        }
    }

    /// Whether the turn of a probe has come.
    pub open spec fn probe_is_due(self) -> bool {
        self.probe_interval > 0 && self.since + 1 >= self.probe_interval
    }

    /// The place that a probe goes to.
    pub open spec fn probe_place(self) -> int {
        if self.idx + self.probe_offset < self.levels.len() {
            self.idx + self.probe_offset
        } else {
            self.levels.len() - 1
        }
    }

    /// Whether the next frame is a probe: its turn has come, recommendations are
    /// not raising the level, and there is a higher level.
    pub open spec fn probes_next(self) -> bool {
        self.probe_is_due() && self.raise_run == 0 && self.probe_place() != self.idx
    }

    /// After the level of the next frame was asked for.
    pub open spec fn counted(self) -> RateContent {
        if self.probe_interval == 0 {
            self
        } else if self.probe_is_due() {
            RateContent { since: 0, ..self }
        } else {
            RateContent { since: (self.since + 1) as u32, ..self }
        }
    }
}

/// Sender-side rate controller.
#[derive(Debug)]
pub struct RateLoop {
    levels: Vec<u8>,
    idx: usize,
    raise_dwell: u8,
    raise_run: u8,
    probe_interval: u32,
    probe_offset: usize,
    frames_since_probe: u32,
}

impl View for RateLoop {
    type V = RateContent;

    closed spec fn view(&self) -> RateContent {
        RateContent {
            levels: self.levels@,
            idx: self.idx as int,
            raise_dwell: self.raise_dwell,
            raise_run: self.raise_run,
            probe_interval: self.probe_interval,
            probe_offset: self.probe_offset as nat,
            since: self.frames_since_probe,
        }
    }
}

impl RateLoop {
    /// A controller over ascending levels that starts at the highest one not
    /// above `initial_level`, without probing.
    pub fn new(levels: Vec<u8>, raise_dwell: u8, initial_level: u8) -> (r: Self)
        requires
            levels@.len() > 0,
        ensures
            r@.is_valid(),
            r@ == (RateContent {
                levels: levels@,
                idx: rank_of(levels@, initial_level),
                raise_dwell: if raise_dwell == 0 {
                    1
                } else {
                    raise_dwell
                },
                raise_run: 0,
                probe_interval: 0,
                probe_offset: 0,
                since: 0,
            }),
    {
        let idx: usize = Self::rank(levels.as_slice(), initial_level);
        RateLoop {
            levels,
            idx,
            raise_dwell: if raise_dwell == 0 {
                1
            } else {
                raise_dwell
            },
            raise_run: 0,
            probe_interval: 0,
            probe_offset: 0,
            frames_since_probe: 0,
        }
    }

    /// The controller with probes every `probe_interval` frames, `probe_offset`
    /// places above the current level.
    pub fn with_probing(self, probe_interval: u32, probe_offset: usize) -> (r: Self)
        requires
            self@.is_valid(),
        ensures
            r@.is_valid(),
            r@ == (RateContent { probe_interval, probe_offset: probe_offset as nat, ..self@ }),
    {
        RateLoop {
            levels: self.levels,
            idx: self.idx,
            raise_dwell: self.raise_dwell,
            raise_run: self.raise_run,
            probe_interval,
            probe_offset,
            frames_since_probe: self.frames_since_probe,
        }
    }

    /// A controller over the valid levels from the lowest one on, which is
    /// raised after five recommendations.
    pub fn default_coppa() -> (r: Self)
        ensures
            r@.is_valid(),
            r@ == (RateContent {
                levels: VALID_SPEED_LEVELS@,
                idx: 0,
                raise_dwell: 5,
                raise_run: 0,
                probe_interval: 0,
                probe_offset: 0,
                since: 0,
            }),
    {
        let levels: Vec<u8> = vstd::slice::slice_to_vec(VALID_SPEED_LEVELS.as_slice());
        let r = Self::new(levels, 5, 1);
        proof {
            let s = VALID_SPEED_LEVELS@;
            assert(s[0] == 1 && s[1] == 2);
            assert(s.skip(1)[0] == 2);
            reveal_with_fuel(not_above, 3);
            assert(not_above(s, 1) == 1);
        }
        r
    }

    /// The place of the highest level that is at most `level`.
    fn rank(levels: &[u8], level: u8) -> (idx: usize)
        requires
            levels@.len() > 0,
        ensures
            idx == rank_of(levels@, level),
            idx < levels@.len(),
    {
        let mut n: usize = 0;
        assert(levels@.skip(0) =~= levels@);
        while n < levels.len() && levels[n] <= level
            invariant
                n <= levels@.len(),
                not_above(levels@, level) == n + not_above(levels@.skip(n as int), level),
            decreases levels@.len() - n,
        {
            assert(levels@.skip(n as int).skip(1) =~= levels@.skip(n + 1));
            n += 1;
        }
        if n == 0 {
            0
        } else {
            n - 1
        }
    }

    /// The current level.
    pub fn current_level(&self) -> (level: u8)
        requires
            self@.is_valid(),
        ensures
            level == self@.level(),
    {
        self.levels[self.idx]
    }

    /// The level of the next frame, and whether it is a probe.
    pub fn level_for_next_transmission(&mut self) -> (r: (u8, bool))
        requires
            old(self)@.is_valid(),
        ensures
            final(self)@.is_valid(),
            final(self)@ == old(self)@.counted(),
            r.1 == old(self)@.probes_next(),
            r.0 == (if r.1 {
                old(self)@.levels[old(self)@.probe_place()]
            } else {
                old(self)@.level()
            }),
    {
        if self.probe_interval == 0 {
            return (self.levels[self.idx], false);
        }
        let since: u32 = self.frames_since_probe + 1;
        if since < self.probe_interval {
            self.frames_since_probe = since;
            return (self.levels[self.idx], false);
        }
        self.frames_since_probe = 0;
        if self.raise_run != 0 {
            return (self.levels[self.idx], false);
        }
        let last: usize = self.levels.len() - 1;
        let probe_idx: usize = if self.probe_offset <= last - self.idx {
            self.idx + self.probe_offset
        } else {
            last
        };
        if probe_idx == self.idx {
            return (self.levels[self.idx], false);
        }
        (self.levels[probe_idx], true)
    }

    /// Take in how a probe went.
    pub fn on_probe_result(&mut self, probed_level: u8, delivered: bool)
        requires
            old(self)@.is_valid(),
        ensures
            final(self)@.is_valid(),
            final(self)@ == old(self)@.probed(probed_level, delivered),
    {
        if delivered {
            self.idx = Self::rank(self.levels.as_slice(), probed_level);
            self.raise_run = 0;
        }
    }

    /// Take in an acknowledgement: the level that the receiver recommends, and
    /// whether the frame got through.
    pub fn on_ack(&mut self, feedback_level: u8, delivered: bool)
        requires
            old(self)@.is_valid(),
        ensures
            final(self)@.is_valid(),
            final(self)@ == old(self)@.acked(feedback_level, delivered),
    {
        if !delivered {
            self.on_timeout();
            return;
        }
        let fb: usize = Self::rank(self.levels.as_slice(), feedback_level);
        if fb < self.idx {
            self.idx = fb;
            self.raise_run = 0;
        } else if fb > self.idx {
            self.raise_run = self.raise_run + 1;
            if self.raise_run >= self.raise_dwell {
                if self.idx < self.levels.len() - 1 {
                    self.idx = self.idx + 1;
                }
                self.raise_run = 0;
            }
        } else {
            self.raise_run = 0;
        }
    }

    /// A retransmit timeout: one place down.
    pub fn on_timeout(&mut self)
        requires
            old(self)@.is_valid(),
        ensures
            final(self)@.is_valid(),
            final(self)@ == old(self)@.dropped(),
    {
        if self.idx > 0 {
            self.idx = self.idx - 1;
        }
        self.raise_run = 0;
    }
}

/// In an ascending list the ranked level is the highest one not above the
/// recommendation, and the lowest of all where every one is above it.
pub proof fn law_rank_is_highest_not_above(levels: Seq<u8>, level: u8)
    requires
        levels.len() > 0,
        forall|i: int, j: int| 0 <= i < j < levels.len() ==> levels[i] < levels[j],
    ensures
        0 <= rank_of(levels, level) < levels.len(),
        forall|i: int| 0 <= i < levels.len() && #[trigger] levels[i] <= level ==> i <= rank_of(
            levels,
            level,
        ),
        levels[0] <= level ==> levels[rank_of(levels, level)] <= level,
{
    lemma_not_above(levels, level);
}

proof fn lemma_not_above(levels: Seq<u8>, level: u8)
    requires
        forall|i: int, j: int| 0 <= i < j < levels.len() ==> levels[i] < levels[j],
    ensures
        not_above(levels, level) <= levels.len(),
        forall|i: int|
            0 <= i < levels.len() ==> (#[trigger] levels[i] <= level) == (i < not_above(
                levels,
                level,
            )),
    decreases levels.len(),
{
    if levels.len() > 0 && levels[0] <= level {
        let rest = levels.skip(1);
        lemma_not_above(rest, level);
        assert forall|i: int| 0 <= i < levels.len() implies (#[trigger] levels[i] <= level) == (i
            < not_above(levels, level)) by {
            if i > 0 {
                assert(rest[i - 1] == levels[i]);
            }
        }
    }
}

/// The level in use is always one of the list.
pub proof fn law_level_is_in_the_list(r: RateContent, feedback: u8, level: u8, delivered: bool)
    requires
        r.is_valid(),
    ensures
        r.levels.contains(r.level()),
        r.dropped().is_valid(),
        r.acked(feedback, delivered).is_valid(),
        r.probed(level, delivered).is_valid(),
        r.counted().is_valid(),
{
    lemma_rank_in_range(r.levels, feedback);
    lemma_rank_in_range(r.levels, level);
}

proof fn lemma_rank_in_range(levels: Seq<u8>, level: u8)
    requires
        levels.len() > 0,
    ensures
        0 <= rank_of(levels, level) < levels.len(),
{
    lemma_not_above_bound(levels, level);
}

proof fn lemma_not_above_bound(levels: Seq<u8>, level: u8)
    ensures
        not_above(levels, level) <= levels.len(),
    decreases levels.len(),
{
    if levels.len() > 0 && levels[0] <= level {
        lemma_not_above_bound(levels.skip(1), level);
    }
}

/// An acknowledgement raises by one place at most, and only after as many
/// higher recommendations in a row as asked for.
pub proof fn law_raise_is_slow(r: RateContent, feedback: u8, delivered: bool)
    requires
        r.is_valid(),
        r.acked(feedback, delivered).idx > r.idx,
    ensures
        r.acked(feedback, delivered).idx == r.idx + 1,
        r.raise_run == r.raise_dwell - 1,
        rank_of(r.levels, feedback) > r.idx,
        delivered,
{
}

/// A lower recommendation applies at once, and a loss costs one place.
pub proof fn law_drop_is_fast(r: RateContent, feedback: u8)
    requires
        r.is_valid(),
    ensures
        rank_of(r.levels, feedback) < r.idx ==> r.acked(feedback, true).idx == rank_of(
            r.levels,
            feedback,
        ),
        r.idx > 0 ==> r.acked(feedback, false).idx == r.idx - 1,
        r.idx == 0 ==> r.acked(feedback, false).idx == 0,
        r.acked(feedback, false) == r.dropped(),
{
}

/// A probe that fails changes nothing, and one that gets through raises to its
/// level without waiting.
pub proof fn law_probe_outcome(r: RateContent, level: u8)
    ensures
        r.probed(level, false) == r,
        r.probed(level, true).idx == rank_of(r.levels, level),
{
}

/// A probe goes above the current level, and never while recommendations are
/// raising it.
pub proof fn law_probe_is_above(r: RateContent)
    requires
        r.is_valid(),
        r.probes_next(),
    ensures
        r.idx < r.probe_place() < r.levels.len(),
        r.raise_run == 0,
        r.probe_interval > 0,
{
}

/// What an acknowledgement changes: a frame that was lost costs one place, if
/// there is one; a lower recommendation is followed at once; the same level
/// starts the count over; and a higher one is counted, and raises by one place
/// once as many came in a row as asked for. Nothing else changes.
pub proof fn law_acknowledgement(r: RateContent, feedback: u8, delivered: bool)
    requires
        r.is_valid(),
    ensures
        ({
            let a = r.acked(feedback, delivered);
            let fb = rank_of(r.levels, feedback);
            let last = r.levels.len() - 1;
            &&& a.levels == r.levels
            &&& a.raise_dwell == r.raise_dwell
            &&& a.probe_interval == r.probe_interval
            &&& a.probe_offset == r.probe_offset
            &&& a.since == r.since
            &&& !delivered ==> a.raise_run == 0 && a.idx == (if r.idx == 0 {
                0
            } else {
                r.idx - 1
            })
            &&& delivered && fb <= r.idx ==> a.raise_run == 0 && a.idx == fb
            &&& delivered && fb > r.idx && r.raise_run + 1 < r.raise_dwell ==> a.raise_run
                == r.raise_run + 1 && a.idx == r.idx
            &&& delivered && fb > r.idx && r.raise_run + 1 == r.raise_dwell ==> a.raise_run == 0
                && a.idx == (if r.idx == last {
                last
            } else {
                r.idx + 1
            })
        }),
{
}

/// What a probe and a timeout change: a probe that gets through sets the place
/// to that of its level and starts the count over; a timeout costs one place, if
/// there is one, and starts the count over. Nothing else changes.
pub proof fn law_probe_and_timeout(r: RateContent, level: u8)
    requires
        r.is_valid(),
    ensures
        r.probed(level, true) == (RateContent {
            idx: rank_of(r.levels, level),
            raise_run: 0,
            ..r
        }),
        r.probed(level, false) == r,
        r.idx > 0 ==> r.dropped() == (RateContent { idx: r.idx - 1, raise_run: 0, ..r }),
        r.idx == 0 ==> r.dropped() == (RateContent { raise_run: 0, ..r }),
{
}

/// When a probe is sent: at every frame whose number since the last turn is the
/// interval, unless recommendations are being counted or there is no higher
/// place; it goes up by the offset, or to the last place. The count of frames
/// goes up by one with each and starts over at each turn.
pub proof fn law_probe_turns(r: RateContent)
    requires
        r.is_valid(),
    ensures
        r.probe_interval == 0 ==> !r.probes_next() && r.counted() == r,
        r.since + 1 < r.probe_interval ==> !r.probes_next() && r.counted() == (RateContent {
            since: (r.since + 1) as u32,
            ..r
        }),
        0 < r.probe_interval <= r.since + 1 ==> {
            &&& r.counted() == (RateContent { since: 0, ..r })
            &&& r.probes_next() == (r.raise_run == 0 && r.probe_offset > 0 && r.idx
                < r.levels.len() - 1)
        },
        r.idx + r.probe_offset < r.levels.len() ==> r.probe_place() == r.idx + r.probe_offset,
        r.idx + r.probe_offset >= r.levels.len() ==> r.probe_place() == r.levels.len() - 1,
{
}

/// The nine levels, without the reserved one.
pub proof fn law_valid_levels(level: u8)
    ensures
        VALID_SPEED_LEVELS@.contains(level) == (1 <= level <= 10 && level != 8),
        forall|i: int, j: int|
            0 <= i < j < 9 ==> VALID_SPEED_LEVELS@[i] < VALID_SPEED_LEVELS@[j],
{
    let s = VALID_SPEED_LEVELS@;
    assert(s[0] == 1 && s[1] == 2 && s[2] == 3 && s[3] == 4 && s[4] == 5 && s[5] == 6 && s[6] == 7
        && s[7] == 9 && s[8] == 10);
}

/// In any list, the ranked place is the last one of those at the front whose
/// levels are not above the recommendation, or the first place.
pub proof fn law_rank_in_any_list(levels: Seq<u8>, level: u8, n: int)
    requires
        0 <= n <= levels.len(),
        forall|i: int| 0 <= i < n ==> #[trigger] levels[i] <= level,
        n < levels.len() ==> levels[n] > level,
    ensures
        rank_of(levels, level) == (if n == 0 {
            0
        } else {
            n - 1
        }),
{
    lemma_not_above_is(levels, level, n);
}

proof fn lemma_not_above_is(levels: Seq<u8>, level: u8, n: int)
    requires
        0 <= n <= levels.len(),
        forall|i: int| 0 <= i < n ==> #[trigger] levels[i] <= level,
        n < levels.len() ==> levels[n] > level,
    ensures
        not_above(levels, level) == n,
    decreases n,
{
    if n > 0 {
        let rest = levels.skip(1);
        assert(levels[0] <= level);
        assert forall|i: int| 0 <= i < n - 1 implies #[trigger] rest[i] <= level by {
            assert(rest[i] == levels[i + 1]);
        }
        lemma_not_above_is(rest, level, n - 1);
    }
}

} // verus!
