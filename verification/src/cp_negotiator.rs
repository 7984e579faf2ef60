//! Handshake by which two stations change the cyclic prefix together.
//!
//! The station that wants the change sends a Propose. The other one answers
//! with a Confirm, and switches its transmitter only when that Confirm is
//! acknowledged. The proposer switches its receiver on the Confirm, and from
//! then on waits for a third message, Switched, that the other station sends
//! under the new prefix.
//!
//! Whichever message is lost, a station that gives up goes back to the mode it
//! was in before the negotiation began: the last one both stations agreed on.
//! A station gives up when its Confirm or its Switched runs out of
//! retransmissions, or when the wait for Switched passes its deadline.
//!
//! This module only decides. Sending, counting retransmissions and rebuilding
//! the modem are the caller's. Times are counts of nanoseconds from any fixed
//! moment.
use vstd::prelude::*;

verus! {

/// A cyclic prefix.
#[derive(Debug, Clone, Copy, PartialEq, Eq, Structural)]
pub enum CpMode {
    /// The long prefix (6.25 ms).
    LongCp,
    /// The short prefix (3.0 ms).
    ShortCp,
}

impl CpMode {
    /// The byte of a mode.
    pub open spec fn wire(self) -> u8 {
        match self {
            CpMode::LongCp => 0x00,
            CpMode::ShortCp => 0x01,
        }
    }

    /// The mode of a byte. Only the byte of the short prefix gives it.
    pub open spec fn of_wire(byte: u8) -> CpMode {
        if byte == 0x01 {
            CpMode::ShortCp
        } else {
            CpMode::LongCp
        }
    }

    /// The byte of a mode.
    pub fn to_wire(self) -> (b: u8)
        ensures
            b == self.wire(),
    {
        match self {
            CpMode::LongCp => 0x00,
            CpMode::ShortCp => 0x01,
        }
    }

    /// The mode of a byte.
    pub fn from_wire(byte: u8) -> (m: Self)
        ensures
            m == CpMode::of_wire(byte),
    {
        if byte == 0x01 {
            CpMode::ShortCp
        } else {
            CpMode::LongCp
        }
    }
}

/// First byte of a Propose.
pub const KIND_PROPOSE: u8 = 0x01;

/// First byte of a Confirm.
pub const KIND_CONFIRM: u8 = 0x02;

/// First byte of a Switched.
pub const KIND_SWITCHED: u8 = 0x03;

/// How long a proposer that has switched waits for the Switched, in seconds.
pub const SWITCH_PROBATION_SECS: u64 = 180;

/// The same in nanoseconds.
pub const SWITCH_PROBATION: u64 = 180_000_000_000;

/// What to do about a message.
#[derive(Debug, Clone, PartialEq, Eq)]
pub enum ContentAction {
    /// A Propose: answer with this Confirm.
    SendConfirm(Vec<u8>),
    /// A Confirm: switch the own receiver to this mode at once.
    ApplyAsConfirmer(CpMode),
    /// A Switched: the peer now transmits in this mode.
    PeerSwitched(CpMode),
}

/// A deadline that has passed.
#[derive(Debug, Clone, Copy, PartialEq, Eq, Structural)]
pub enum CpTimeout {
    /// The peer did not show that it switched; go back to this mode.
    RevertTo(CpMode),
}

/// What a message asks for. Messages are two bytes, a kind and a mode.
pub enum Asked {
    Confirm(CpMode),
    Apply(CpMode),
    Note(CpMode),
    Nothing,
}

/// What a payload asks for.
pub open spec fn asked_by(payload: Seq<u8>) -> Asked {
    if payload.len() != 2 {
        Asked::Nothing
    } else if payload[0] == KIND_PROPOSE {
        Asked::Confirm(CpMode::of_wire(payload[1]))
    } else if payload[0] == KIND_CONFIRM {
        Asked::Apply(CpMode::of_wire(payload[1]))
    } else if payload[0] == KIND_SWITCHED {
        Asked::Note(CpMode::of_wire(payload[1]))
    } else {
        Asked::Nothing
    }
}

/// What a negotiator holds.
pub struct CpContent {
    /// The mode in effect.
    pub current: CpMode,
    /// The Confirm that waits for its acknowledgement: number and mode.
    pub pending_confirm: Option<(u8, CpMode)>,
    /// The Switched that waits for its acknowledgement.
    pub pending_switched: Option<u8>,
    /// The wait for the peer's Switched: deadline and mode.
    pub probation: Option<(u64, CpMode)>,
    /// The mode from before the negotiation.
    pub revert_to: Option<CpMode>,
}

/// A negotiator at rest in a mode.
pub open spec fn settled(mode: CpMode) -> CpContent {
    CpContent {
        current: mode,
        pending_confirm: None,
        pending_switched: None,
        probation: None,
        revert_to: None,
    }
}

impl CpContent {
    /// The mode that giving up leads to: the one from before the negotiation,
    /// or the present one where none is under way.
    pub open spec fn fallback(self) -> CpMode {
        match self.revert_to {
            Some(m) => m,
            None => self.current,
        }
    }

    /// After a Confirm was sent.
    pub open spec fn confirm_sent(self, seq: u8, mode: CpMode) -> CpContent {
        CpContent {
            revert_to: Some(self.fallback()),
            pending_confirm: Some((seq, mode)),
            ..self
        }
    }

    /// Whether a list of acknowledged numbers has the pending Confirm.
    pub open spec fn confirm_is_in(self, acked: Seq<u8>) -> bool {
        self.pending_confirm matches Some(p) && acked.contains(p.0)
    }

    /// After the Confirm was acknowledged.
    pub open spec fn confirm_done(self) -> CpContent {
        CpContent { pending_confirm: None, current: (self.pending_confirm->0).1, ..self }
    }

    /// After a Confirm came in.
    pub open spec fn applied(self, mode: CpMode, now: u64) -> CpContent {
        CpContent {
            revert_to: Some(self.fallback()),
            current: mode,
            probation: Some(((now + SWITCH_PROBATION) as u64, mode)),
            ..self
        }
    }

    /// Whether a Switched with this mode is the one waited for.
    pub open spec fn waits_for(self, mode: CpMode) -> bool {
        self.probation matches Some(p) && p.1 == mode
    }

    /// After the Switched that was waited for came in.
    pub open spec fn peer_done(self) -> CpContent {
        CpContent { probation: None, revert_to: None, ..self }
    }

    /// After a Switched was sent.
    pub open spec fn switched_sent(self, seq: u8) -> CpContent {
        CpContent { pending_switched: Some(seq), ..self }
    }

    /// Whether a list of acknowledged numbers has the pending Switched.
    pub open spec fn switched_is_in(self, acked: Seq<u8>) -> bool {
        self.pending_switched matches Some(seq) && acked.contains(seq)
    }

    /// After the Switched was acknowledged.
    pub open spec fn switched_done(self) -> CpContent {
        CpContent { pending_switched: None, revert_to: None, ..self }
    }

    /// After giving up.
    pub open spec fn aborted(self) -> CpContent {
        settled(self.fallback())
    }

    /// Whether the wait for the Switched has passed its deadline.
    pub open spec fn is_late(self, now: u64) -> bool {
        self.probation matches Some(p) && now >= p.0
    }

    /// After the clock was looked at.
    pub open spec fn ticked(self, now: u64) -> CpContent {
        if self.is_late(now) {
            CpContent { probation: None, current: self.fallback(), revert_to: None, ..self }
        } else {
            self
        }
    }

    /// What the clock has to report: the mode to go back to, once.
    pub open spec fn timeout(self, now: u64) -> Option<CpTimeout> {
        if self.is_late(now) {
            match self.revert_to {
                Some(m) => Some(CpTimeout::RevertTo(m)),
                None => None,
            }
        } else {
            None
        }
    }
}

/// Whether a list has a number.
fn has(list: &[u8], seq: u8) -> (found: bool)
    ensures
        found == list@.contains(seq),
{
    let mut i: usize = 0;
    while i < list.len()
        invariant
            i <= list@.len(),
            forall|k: int| 0 <= k < i ==> list@[k] != seq,
        decreases list@.len() - i,
    {
        if list[i] == seq {
            return true;
        }
        i += 1;
    }
    false
}

/// Negotiation state of one station on one link.
#[derive(Debug)]
pub struct CpNegotiator {
    current: CpMode,
    pending_confirm: Option<(u8, CpMode)>,
    pending_switched: Option<u8>,
    probation: Option<(u64, CpMode)>,
    revert_to: Option<CpMode>,
}

impl View for CpNegotiator {
    type V = CpContent;

    closed spec fn view(&self) -> CpContent {
        CpContent {
            current: self.current,
            pending_confirm: self.pending_confirm,
            pending_switched: self.pending_switched,
            probation: self.probation,
            revert_to: self.revert_to,
        }
    }
}

impl Default for CpNegotiator {
    fn default() -> (n: Self)
        ensures
            n@ == settled(CpMode::LongCp),
    {
        Self::new()
    }
}

impl CpNegotiator {
    /// A negotiator at rest with the long prefix.
    pub fn new() -> (n: Self)
        ensures
            n@ == settled(CpMode::LongCp),
    {
        CpNegotiator {
            current: CpMode::LongCp,
            pending_confirm: None,
            pending_switched: None,
            probation: None,
            revert_to: None,
        }
    }

    /// The mode in effect.
    pub fn current(&self) -> (m: CpMode)
        ensures
            m == self@.current,
    {
        self.current
    }

    /// A Propose.
    pub fn propose_payload(mode: CpMode) -> (p: Vec<u8>)
        ensures
            p@ == seq![KIND_PROPOSE, mode.wire()],
    {
        let mut p: Vec<u8> = Vec::new();
        p.push(KIND_PROPOSE);
        p.push(mode.to_wire());
        assert(p@ =~= seq![KIND_PROPOSE, mode.wire()]);
        p
    }

    /// A Switched.
    pub fn switched_payload(mode: CpMode) -> (p: Vec<u8>)
        ensures
            p@ == seq![KIND_SWITCHED, mode.wire()],
    {
        let mut p: Vec<u8> = Vec::new();
        p.push(KIND_SWITCHED);
        p.push(mode.to_wire());
        assert(p@ =~= seq![KIND_SWITCHED, mode.wire()]);
        p
    }

    /// What to do about a message. One of another length or kind is ignored.
    pub fn on_content_received(payload: &[u8]) -> (r: Option<ContentAction>)
        ensures
            match asked_by(payload@) {
                Asked::Confirm(m) => r matches Some(ContentAction::SendConfirm(c)) && c@ == seq![
                    KIND_CONFIRM,
                    m.wire(),
                ],
                Asked::Apply(m) => r == Some(ContentAction::ApplyAsConfirmer(m)),
                Asked::Note(m) => r == Some(ContentAction::PeerSwitched(m)),
                Asked::Nothing => r is None,
            },
    {
        if payload.len() != 2 {
            return None;
        }
        let mode: CpMode = CpMode::from_wire(payload[1]);
        let kind: u8 = payload[0];
        if kind == KIND_PROPOSE {
            let mut c: Vec<u8> = Vec::new();
            c.push(KIND_CONFIRM);
            c.push(mode.to_wire());
            assert(c@ =~= seq![KIND_CONFIRM, mode.wire()]);
            Some(ContentAction::SendConfirm(c))
        } else if kind == KIND_CONFIRM {
            Some(ContentAction::ApplyAsConfirmer(mode))
        } else if kind == KIND_SWITCHED {
            Some(ContentAction::PeerSwitched(mode))
        } else {
            None
        }
    }

    /// Remember the mode from before the negotiation, unless one is under way.
    fn arm_fallback(&mut self)
        ensures
            final(self)@ == (CpContent {
                revert_to: Some(old(self)@.fallback()),
                ..old(self)@
            }),
    {
        if self.revert_to.is_none() {
            self.revert_to = Some(self.current);
        }
    }

    /// Take note that a Confirm for `mode` was sent under number `seq`.
    pub fn track_pending_confirm(&mut self, seq: u8, mode: CpMode)
        ensures
            final(self)@ == old(self)@.confirm_sent(seq, mode),
    {
        self.arm_fallback();
        self.pending_confirm = Some((seq, mode));
    }

    /// Take note of acknowledged numbers. If the Confirm is among them, its
    /// mode takes effect and is returned.
    pub fn on_confirm_acked(&mut self, newly_acked: &[u8]) -> (r: Option<CpMode>)
        ensures
            if old(self)@.confirm_is_in(newly_acked@) {
                &&& final(self)@ == old(self)@.confirm_done()
                &&& r == Some((old(self)@.pending_confirm->0).1)
            } else {
                &&& final(self)@ == old(self)@
                &&& r is None
            },
    {
        match self.pending_confirm {
            Some((seq, mode)) => {
                if has(newly_acked, seq) {
                    self.pending_confirm = None;
                    self.current = mode;
                    Some(mode)
                } else {
                    None
                }
            },
            None => None,
        }
    }

    /// A Confirm came in: switch to `mode` and wait for the peer's Switched.
    pub fn apply_as_confirmer(&mut self, mode: CpMode, now: u64)
        requires
            now + SWITCH_PROBATION <= u64::MAX,
        ensures
            final(self)@ == old(self)@.applied(mode, now),
    {
        self.arm_fallback();
        self.current = mode;
        self.probation = Some((now + SWITCH_PROBATION, mode));
    }

    /// A Switched came in. The result tells whether it is the one waited for;
    /// only such a one may be acknowledged.
    pub fn on_peer_switched(&mut self, mode: CpMode) -> (accepted: bool)
        ensures
            accepted == old(self)@.waits_for(mode),
            final(self)@ == (if accepted {
                old(self)@.peer_done()
            } else {
                old(self)@
            }),
    {
        match self.probation {
            Some((_, target)) => {
                if target == mode {
                    self.probation = None;
                    self.revert_to = None;
                    true
                } else {
                    false
                }
            },
            None => false,
        }
    }

    /// Take note that a Switched was sent under number `seq`.
    pub fn track_pending_switched(&mut self, seq: u8)
        ensures
            final(self)@ == old(self)@.switched_sent(seq),
    {
        self.pending_switched = Some(seq);
    }

    /// Take note of acknowledged numbers. The result tells whether the Switched
    /// is among them, which ends the negotiation.
    pub fn on_switched_acked(&mut self, newly_acked: &[u8]) -> (ended: bool)
        ensures
            ended == old(self)@.switched_is_in(newly_acked@),
            final(self)@ == (if ended {
                old(self)@.switched_done()
            } else {
                old(self)@
            }),
    {
        match self.pending_switched {
            Some(seq) => {
                if has(newly_acked, seq) {
                    self.pending_switched = None;
                    self.revert_to = None;
                    true
                } else {
                    false
                }
            },
            None => false,
        }
    }

    /// The number of the Confirm that waits for its acknowledgement.
    pub fn pending_confirm_seq(&self) -> (r: Option<u8>)
        ensures
            r == match self@.pending_confirm {
                Some(p) => Some(p.0),
                None => None,
            },
    {
        match self.pending_confirm {
            Some((seq, _)) => Some(seq),
            None => None,
        }
    }

    /// The number of the Switched that waits for its acknowledgement.
    pub fn pending_switched_seq(&self) -> (r: Option<u8>)
        ensures
            r == self@.pending_switched,
    {
        self.pending_switched
    }

    /// Whether something is waited for.
    pub fn negotiation_in_flight(&self) -> (b: bool)
        ensures
            b == (self@.pending_confirm is Some || self@.pending_switched is Some
                || self@.probation is Some),
    {
        self.pending_confirm.is_some() || self.pending_switched.is_some()
            || self.probation.is_some()
    }

    /// Go back to the mode from before the negotiation, if one is under way.
    fn revert(&mut self) -> (m: CpMode)
        ensures
            m == old(self)@.fallback(),
            final(self)@ == (CpContent { current: m, revert_to: None, ..old(self)@ }),
    {
        if let Some(mode) = self.revert_to {
            self.revert_to = None;
            self.current = mode;
        }
        self.current
    }

    /// Give up. The result is the mode that is in effect afterwards.
    pub fn abort(&mut self) -> (m: CpMode)
        ensures
            m == old(self)@.fallback(),
            final(self)@ == old(self)@.aborted(),
    {
        self.pending_confirm = None;
        self.pending_switched = None;
        self.probation = None;
        self.revert()
    }

    /// Look at the clock. A deadline that has passed is reported once, with the
    /// mode to go back to; where there is none to go back to, the wait ends
    /// without a report.
    pub fn tick(&mut self, now: u64) -> (r: Option<CpTimeout>)
        ensures
            r == old(self)@.timeout(now),
            final(self)@ == old(self)@.ticked(now),
    {
        if let Some((deadline, _)) = self.probation {
            if now >= deadline {
                self.probation = None;
                if self.revert_to.is_none() {
                    return None;
                }
                return Some(CpTimeout::RevertTo(self.revert()));
            }
        }
        None
    }
}

/// A mode survives the wire.
pub proof fn law_wire_roundtrip(mode: CpMode)
    ensures
        CpMode::of_wire(mode.wire()) == mode,
{
}

/// Each message asks for what it was built for, for the mode it was built with.
pub proof fn law_messages_are_understood(mode: CpMode)
    ensures
        asked_by(seq![KIND_PROPOSE, mode.wire()]) == Asked::Confirm(mode),
        asked_by(seq![KIND_CONFIRM, mode.wire()]) == Asked::Apply(mode),
        asked_by(seq![KIND_SWITCHED, mode.wire()]) == Asked::Note(mode),
{
}

/// The confirming station, from rest in `old_mode`, gives up while its Confirm
/// is not acknowledged, or while its Switched is not: either way it is at rest
/// in `old_mode` again.
pub proof fn law_confirmer_gives_up_to_old_mode(
    old_mode: CpMode,
    mode: CpMode,
    confirm_seq: u8,
    switched_seq: u8,
)
    ensures
        settled(old_mode).confirm_sent(confirm_seq, mode).aborted() == settled(old_mode),
        settled(old_mode).confirm_sent(confirm_seq, mode).confirm_done().aborted() == settled(
            old_mode,
        ),
        settled(old_mode).confirm_sent(confirm_seq, mode).confirm_done().switched_sent(
            switched_seq,
        ).aborted() == settled(old_mode),
{
}

/// The proposing station, from rest in `old_mode`, switches and hears no
/// Switched by the deadline: it is at rest in `old_mode` again, and reports
/// that mode. Before the deadline nothing happens.
pub proof fn law_proposer_gives_up_to_old_mode(
    old_mode: CpMode,
    mode: CpMode,
    start: u64,
    now: u64,
)
    requires
        start + SWITCH_PROBATION <= u64::MAX,
    ensures
        now >= start + SWITCH_PROBATION ==> settled(old_mode).applied(mode, start).ticked(now)
            == settled(old_mode) && settled(old_mode).applied(mode, start).timeout(now) == Some(
            CpTimeout::RevertTo(old_mode),
        ),
        now < start + SWITCH_PROBATION ==> settled(old_mode).applied(mode, start).ticked(now)
            == settled(old_mode).applied(mode, start) && settled(old_mode).applied(
            mode,
            start,
        ).timeout(now) is None,
{
}

/// A negotiation in which nothing is lost leaves both stations at rest in the
/// new mode, so that the next one starts from there.
pub proof fn law_completed_negotiation_settles(
    old_mode: CpMode,
    mode: CpMode,
    confirm_seq: u8,
    switched_seq: u8,
    now: u64,
)
    ensures
        settled(old_mode).confirm_sent(confirm_seq, mode).confirm_done().switched_sent(
            switched_seq,
        ).switched_done() == settled(mode),
        settled(old_mode).applied(mode, now).waits_for(mode),
        settled(old_mode).applied(mode, now).peer_done() == settled(mode),
{
}

/// The two ways of giving up lead to one mode, from every state in which the
/// deadline has passed.
pub proof fn law_one_convergence_target(n: CpContent, now: u64)
    requires
        n.is_late(now),
    ensures
        n.ticked(now).current == n.aborted().current,
{
}

/// A deadline is reported at most once.
pub proof fn law_timeout_fires_once(n: CpContent, now: u64, later: u64)
    requires
        n.is_late(now),
    ensures
        n.ticked(now).timeout(later) is None,
        n.ticked(now).ticked(later) == n.ticked(now),
{
}

/// Giving up twice is giving up once, and giving up at rest changes nothing.
pub proof fn law_abort_is_idempotent(n: CpContent, mode: CpMode)
    ensures
        n.aborted().aborted() == n.aborted(),
        settled(mode).aborted() == settled(mode),
{
}

/// A second message inside one negotiation does not move the mode that giving
/// up leads to.
pub proof fn law_fallback_is_kept(n: CpContent, seq: u8, mode: CpMode, now: u64)
    ensures
        n.confirm_sent(seq, mode).fallback() == n.fallback(),
        n.applied(mode, now).fallback() == n.fallback(),
        n.confirm_sent(seq, mode).confirm_done().fallback() == n.fallback(),
        n.switched_sent(seq).fallback() == n.fallback(),
{
}

/// A Switched for another mode is not the one waited for.
pub proof fn law_other_mode_is_not_proof(n: CpContent, mode: CpMode, other: CpMode, now: u64)
    requires
        other != mode,
    ensures
        !n.applied(mode, now).waits_for(other),
{
}

/// The bytes of the modes and the messages, and what every payload asks for.
pub proof fn law_messages(payload: Seq<u8>)
    ensures
        CpMode::LongCp.wire() == 0,
        CpMode::ShortCp.wire() == 1,
        payload.len() != 2 ==> asked_by(payload) == Asked::Nothing,
        payload.len() == 2 ==> {
            let mode = if payload[1] == 1 {
                CpMode::ShortCp
            } else {
                CpMode::LongCp
            };
            &&& payload[0] == 1 ==> asked_by(payload) == Asked::Confirm(mode)
            &&& payload[0] == 2 ==> asked_by(payload) == Asked::Apply(mode)
            &&& payload[0] == 3 ==> asked_by(payload) == Asked::Note(mode)
            &&& payload[0] == 0 || payload[0] > 3 ==> asked_by(payload) == Asked::Nothing
        },
        KIND_PROPOSE == 1,
        KIND_CONFIRM == 2,
        KIND_SWITCHED == 3,
{
}

/// What sending and receiving change, field by field. A message that starts a
/// negotiation notes the mode in effect, unless one is noted already; only a
/// Confirm that came in, or whose acknowledgement did, changes the mode in
/// effect.
pub proof fn law_steps(n: CpContent, seq: u8, mode: CpMode, now: u64)
    requires
        now + 180_000_000_000 <= u64::MAX,
    ensures
        ({
            let noted = if n.revert_to is Some {
                n.revert_to
            } else {
                Some(n.current)
            };
            &&& n.confirm_sent(seq, mode) == (CpContent {
                current: n.current,
                pending_confirm: Some((seq, mode)),
                pending_switched: n.pending_switched,
                probation: n.probation,
                revert_to: noted,
            })
            &&& n.applied(mode, now) == (CpContent {
                current: mode,
                pending_confirm: n.pending_confirm,
                pending_switched: n.pending_switched,
                probation: Some(((now + 180_000_000_000) as u64, mode)),
                revert_to: noted,
            })
        }),
        n.pending_confirm is Some ==> n.confirm_done() == (CpContent {
            current: n.pending_confirm.unwrap().1,
            pending_confirm: None,
            pending_switched: n.pending_switched,
            probation: n.probation,
            revert_to: n.revert_to,
        }),
        n.switched_sent(seq) == (CpContent {
            current: n.current,
            pending_confirm: n.pending_confirm,
            pending_switched: Some(seq),
            probation: n.probation,
            revert_to: n.revert_to,
        }),
        n.switched_done() == (CpContent {
            current: n.current,
            pending_confirm: n.pending_confirm,
            pending_switched: None,
            probation: n.probation,
            revert_to: None,
        }),
        n.peer_done() == (CpContent {
            current: n.current,
            pending_confirm: n.pending_confirm,
            pending_switched: n.pending_switched,
            probation: None,
            revert_to: None,
        }),
{
}

/// When a step is taken: a Confirm or a Switched is done where its own number is
/// among the acknowledged ones, and a Switched of the peer counts where its mode
/// is the one waited for.
pub proof fn law_step_conditions(n: CpContent, acked: Seq<u8>, mode: CpMode, k: int)
    ensures
        n.pending_confirm is None ==> !n.confirm_is_in(acked),
        n.pending_confirm is Some && 0 <= k < acked.len() && acked[k]
            == n.pending_confirm.unwrap().0 ==> n.confirm_is_in(acked),
        n.confirm_is_in(acked) ==> exists|i: int|
            0 <= i < acked.len() && #[trigger] acked[i] == n.pending_confirm.unwrap().0,
        n.pending_switched is None ==> !n.switched_is_in(acked),
        n.pending_switched is Some && 0 <= k < acked.len() && acked[k]
            == n.pending_switched.unwrap() ==> n.switched_is_in(acked),
        n.switched_is_in(acked) ==> exists|i: int|
            0 <= i < acked.len() && #[trigger] acked[i] == n.pending_switched.unwrap(),
        n.waits_for(mode) == (n.probation is Some && n.probation.unwrap().1 == mode),
{
}

/// What giving up changes: everything that was waited for is dropped, and the
/// mode is the noted one, or stays where none is noted. A deadline that has
/// passed drops the wait for it alone, and is reported where a mode is noted.
pub proof fn law_giving_up(n: CpContent, now: u64)
    ensures
        ({
            let mode = if n.revert_to is Some {
                n.revert_to.unwrap()
            } else {
                n.current
            };
            let late = n.probation is Some && n.probation.unwrap().0 <= now;
            &&& n.fallback() == mode
            &&& n.aborted() == (CpContent {
                current: mode,
                pending_confirm: None,
                pending_switched: None,
                probation: None,
                revert_to: None,
            })
            &&& !late ==> n.ticked(now) == n && n.timeout(now) is None
            &&& late ==> n.ticked(now) == (CpContent {
                current: mode,
                pending_confirm: n.pending_confirm,
                pending_switched: n.pending_switched,
                probation: None,
                revert_to: None,
            })
            &&& late && n.revert_to is Some ==> n.timeout(now) == Some(CpTimeout::RevertTo(mode))
            &&& late && n.revert_to is None ==> n.timeout(now) is None
        }),
{
}

} // verus!
