//! When the short cyclic prefix is safe.
//!
//! The short prefix is recommended after a number of frames in a row whose
//! delay spread stayed below a threshold. One frame at or above it takes the
//! recommendation back at once.
use super::float_order::below;
use vstd::prelude::*;

verus! {

/// A recommendation.
#[derive(Debug, Clone, Copy, PartialEq, Eq, Structural)]
pub enum CpRecommendation {
    /// Use the long prefix.
    LongCp,
    /// The short prefix is safe at present.
    ShortCp,
}

/// Bit pattern of 2.5.
pub const DEFAULT_THRESHOLD_MS: u32 = 0x4020_0000;

/// What a gate holds.
pub struct CpGateContent {
    /// Bit pattern of the threshold in milliseconds.
    pub threshold: u32,
    /// Calm frames in a row that are needed.
    pub needed: u8,
    /// Calm frames in a row so far, counted up to the number needed.
    pub run: u8,
    /// The recommendation.
    pub recommendation: CpRecommendation,
}

impl CpGateContent {
    /// After a frame with a delay spread, given as bit pattern.
    pub open spec fn observed(self, spread: u32) -> CpGateContent {
        if super::float_order::is_below(spread, self.threshold) {
            let run = if self.run < self.needed {
                (self.run + 1) as u8
            } else {
                self.needed
            };
            CpGateContent {
                run,
                recommendation: if run >= self.needed {
                    CpRecommendation::ShortCp
                } else {
                    self.recommendation
                },
                ..self
            }
        } else {
            CpGateContent { run: 0, recommendation: CpRecommendation::LongCp, ..self }
        }
    }

    /// After a number of frames.
    pub open spec fn observed_all(self, spreads: Seq<u32>) -> CpGateContent
        decreases spreads.len(),
    {
        if spreads.len() == 0 {
            self
        } else {
            self.observed_all(spreads.drop_last()).observed(spreads.last())
        }
    }

    /// Whether the recommendation is what the count says, as it is from the
    /// start on.
    pub open spec fn is_consistent(self) -> bool {
        &&& 1 <= self.needed
        &&& self.run <= self.needed
        &&& (self.recommendation == CpRecommendation::ShortCp) == (self.run == self.needed)
    }
}

/// Recommends the short prefix on a calm channel.
#[derive(Debug)]
pub struct CpGate {
    threshold: u32,
    consecutive_needed: u8,
    run: u8,
    recommendation: CpRecommendation,
}

impl View for CpGate {
    type V = CpGateContent;

    closed spec fn view(&self) -> CpGateContent {
        CpGateContent {
            threshold: self.threshold,
            needed: self.consecutive_needed,
            run: self.run,
            recommendation: self.recommendation,
        }
    }
}

impl CpGate {
    /// A gate with a threshold in milliseconds, given as bit pattern, and the
    /// number of calm frames needed, at least one.
    pub fn new(threshold_ms: u32, consecutive_needed: u8) -> (g: Self)
        ensures
            g@ == (CpGateContent {
                threshold: threshold_ms,
                needed: if consecutive_needed == 0 {
                    1
                } else {
                    consecutive_needed
                },
                run: 0,
                recommendation: CpRecommendation::LongCp,
            }),
            g@.is_consistent(),
    {
        CpGate {
            threshold: threshold_ms,
            consecutive_needed: if consecutive_needed == 0 {
                1
            } else {
                consecutive_needed
            },
            run: 0,
            recommendation: CpRecommendation::LongCp,
        }
    }

    /// A gate with a threshold of 2.5 ms that needs four calm frames.
    pub fn default_coppa() -> (g: Self)
        ensures
            g@ == (CpGateContent {
                threshold: DEFAULT_THRESHOLD_MS,
                needed: 4,
                run: 0,
                recommendation: CpRecommendation::LongCp,
            }),
            g@.is_consistent(),
    {
        Self::new(DEFAULT_THRESHOLD_MS, 4)
    }

    /// Take in the delay spread of a frame in milliseconds, given as bit
    /// pattern.
    pub fn observe(&mut self, spread_ms: u32) -> (r: CpRecommendation)
        ensures
            final(self)@ == old(self)@.observed(spread_ms),
            r == final(self)@.recommendation,
    {
        if below(spread_ms, self.threshold) {
            self.run = if self.run < self.consecutive_needed {
                self.run + 1
            } else {
                self.consecutive_needed
            };
            if self.run >= self.consecutive_needed {
                self.recommendation = CpRecommendation::ShortCp;
            }
        } else {
            self.run = 0;
            self.recommendation = CpRecommendation::LongCp;
        }
        self.recommendation
    }

    /// The recommendation.
    pub fn current(&self) -> (r: CpRecommendation)
        ensures
            r == self@.recommendation,
    {
        self.recommendation
    }

    /// Calm frames in a row, counted up to the number needed.
    pub fn run_len(&self) -> (n: u8)
        ensures
            n == self@.run,
    {
        self.run
    }
}

/// Number of frames at the end of a list that were calm.
pub open spec fn calm_tail(threshold: u32, spreads: Seq<u32>) -> nat
    decreases spreads.len(),
{
    if spreads.len() == 0 || !super::float_order::is_below(spreads.last(), threshold) {
        0
    } else {
        1 + calm_tail(threshold, spreads.drop_last())
    }
}

/// From the start on, the short prefix is recommended exactly when at least as
/// many of the last frames as needed were calm. The count stops there.
pub proof fn law_recommendation_follows_calm_frames(
    threshold: u32,
    needed: u8,
    spreads: Seq<u32>,
)
    requires
        needed >= 1,
    ensures
        ({
            let start = CpGateContent {
                threshold,
                needed,
                run: 0,
                recommendation: CpRecommendation::LongCp,
            };
            let g = start.observed_all(spreads);
            &&& g.threshold == threshold && g.needed == needed
            &&& g.is_consistent()
            &&& g.run == (if calm_tail(threshold, spreads) < needed {
                calm_tail(threshold, spreads)
            } else {
                needed as nat
            })
            &&& (g.recommendation == CpRecommendation::ShortCp) == (calm_tail(threshold, spreads)
                >= needed)
        }),
    decreases spreads.len(),
{
    if spreads.len() > 0 {
        law_recommendation_follows_calm_frames(threshold, needed, spreads.drop_last());
    }
}

/// One frame that is not calm takes the recommendation back, whatever came
/// before.
pub proof fn law_one_bad_frame_reverts(g: CpGateContent, spread: u32)
    requires
        !super::float_order::is_below(spread, g.threshold),
    ensures
        g.observed(spread).recommendation == CpRecommendation::LongCp,
        g.observed(spread).run == 0,
{
}

/// The number of calm frames at the end is `n` where the last `n` were below the
/// threshold, and the one before them, if there is one, was not.
pub proof fn law_calm_frames_at_the_end(threshold: u32, spreads: Seq<u32>, n: nat)
    requires
        n <= spreads.len(),
        forall|i: int|
            spreads.len() - n <= i < spreads.len() ==> super::float_order::is_below(
                #[trigger] spreads[i],
                threshold,
            ),
        n < spreads.len() ==> !super::float_order::is_below(
            spreads[spreads.len() - n - 1],
            threshold,
        ),
    ensures
        calm_tail(threshold, spreads) == n,
    decreases n,
{
    if n > 0 {
        assert(super::float_order::is_below(spreads[spreads.len() - 1], threshold));
        law_calm_frames_at_the_end(threshold, spreads.drop_last(), (n - 1) as nat);
    }
}

/// What a frame changes: a calm one is counted up to the number needed, at which
/// the short prefix is recommended; any other one starts over with the long one.
pub proof fn law_observation(g: CpGateContent, spread: u32)
    requires
        g.is_consistent(),
    ensures
        ({
            let a = g.observed(spread);
            &&& a.threshold == g.threshold
            &&& a.needed == g.needed
            &&& super::float_order::is_below(spread, g.threshold) && g.run < g.needed ==> a.run
                == g.run + 1
            &&& super::float_order::is_below(spread, g.threshold) && g.run == g.needed ==> a.run
                == g.needed
            &&& !super::float_order::is_below(spread, g.threshold) ==> a.run == 0
            &&& (a.recommendation == CpRecommendation::ShortCp) == (a.run == g.needed)
        }),
        DEFAULT_THRESHOLD_MS == 0x4020_0000,
{
}

} // verus!
