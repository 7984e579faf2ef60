//! When the channel is busy.
//!
//! The share of the band that stands above the noise floor is measured outside.
//! A gate compares it with a limit and reports changes only. The first blocks
//! serve to settle the noise floor and are not compared.
use super::float_order::at_least;
use vstd::prelude::*;

verus! {

/// Blocks that only settle the noise floor.
pub const CALIBRATION_BLOCKS: u32 = 3;

/// Bit pattern of 0.6, the share of the band from which the channel is busy.
pub const MIN_OCCUPIED_FRACTION: u32 = 0x3F19_999A;

/// What a gate holds.
pub struct BusyContent {
    /// Whether the channel is busy.
    pub busy: bool,
    /// Calibration blocks seen.
    pub calibrated: u32,
}

/// What a gate reports.
pub open spec fn report(g: BusyContent, empty: bool, occupancy: u32) -> Option<bool> {
    let busy = super::float_order::is_at_least(occupancy, MIN_OCCUPIED_FRACTION);
    if empty || g.calibrated < CALIBRATION_BLOCKS || busy == g.busy {
        None
    } else {
        Some(busy)
    }
}

/// A gate after a block.
pub open spec fn after_block(g: BusyContent, empty: bool, occupancy: u32) -> BusyContent {
    if empty {
        g
    } else if g.calibrated < CALIBRATION_BLOCKS {
        BusyContent { calibrated: (g.calibrated + 1) as u32, ..g }
    } else {
        BusyContent {
            busy: super::float_order::is_at_least(occupancy, MIN_OCCUPIED_FRACTION),
            ..g
        }
    }
}

/// Reports when the channel becomes busy and when it becomes free.
#[derive(Debug)]
pub struct BusyGate {
    busy: bool,
    calibrated_blocks: u32,
}

impl View for BusyGate {
    type V = BusyContent;

    closed spec fn view(&self) -> BusyContent {
        BusyContent { busy: self.busy, calibrated: self.calibrated_blocks }
    }
}

impl BusyGate {
    /// A gate on a free channel, before calibration.
    pub fn new() -> (g: Self)
        ensures
            g@ == (BusyContent { busy: false, calibrated: 0 }),
    {
        BusyGate { busy: false, calibrated_blocks: 0 }
    }

    /// Whether the next block that is not empty only settles the noise floor.
    pub fn is_calibrating(&self) -> (b: bool)
        ensures
            b == (self@.calibrated < CALIBRATION_BLOCKS),
    {
        self.calibrated_blocks < CALIBRATION_BLOCKS
    }

    /// Take in a block of `samples` samples with an occupied share of the band,
    /// given as bit pattern. The result is the new state where it changed.
    pub fn observe(&mut self, samples: usize, occupancy: u32) -> (r: Option<bool>)
        ensures
            r == report(old(self)@, samples == 0, occupancy),
            final(self)@ == after_block(old(self)@, samples == 0, occupancy),
    {
        if samples == 0 {
            return None;
        }
        if self.calibrated_blocks < CALIBRATION_BLOCKS {
            self.calibrated_blocks = self.calibrated_blocks + 1;
            return None;
        }
        let now_busy: bool = at_least(occupancy, MIN_OCCUPIED_FRACTION);
        if now_busy != self.busy {
            self.busy = now_busy;
            Some(now_busy)
        } else {
            None
        }
    }

    /// Whether the channel is busy.
    pub fn current(&self) -> (b: bool)
        ensures
            b == self@.busy,
    {
        self.busy
    }
}

/// A report is a change, and a change is reported.
pub proof fn law_reports_are_changes(g: BusyContent, empty: bool, occupancy: u32)
    ensures
        match report(g, empty, occupancy) {
            Some(b) => b != g.busy && after_block(g, empty, occupancy).busy == b,
            None => after_block(g, empty, occupancy).busy == g.busy,
        },
{
}

/// What a block changes and reports: an empty one nothing; one of the first
/// three only that it was seen; any other one whether the share of the band is
/// at least 0.6, which is reported where it was otherwise before.
pub proof fn law_block(g: BusyContent, occupancy: u32)
    ensures
        after_block(g, true, occupancy) == g,
        report(g, true, occupancy) is None,
        g.calibrated < 3 ==> {
            &&& after_block(g, false, occupancy).calibrated == g.calibrated + 1
            &&& after_block(g, false, occupancy).busy == g.busy
            &&& report(g, false, occupancy) is None
        },
        g.calibrated >= 3 ==> {
            &&& after_block(g, false, occupancy).calibrated == g.calibrated
            &&& after_block(g, false, occupancy).busy == super::float_order::is_at_least(
                occupancy,
                0x3F19_999A,
            )
            &&& report(g, false, occupancy) == (if after_block(g, false, occupancy).busy != g.busy {
                Some(!g.busy)
            } else {
                None
            })
        },
        CALIBRATION_BLOCKS == 3,
{
}

} // verus!
