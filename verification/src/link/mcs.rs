//! Speed level selection from channel capacity.
//!
//! Capacities and efficiencies are in bits per second and hertz, given as bit
//! patterns of single-precision floats.
use super::float_order::{at_least, below};
use vstd::prelude::*;

verus! {

/// Speed levels with their spectral efficiency, ascending; of two levels with
/// one efficiency the more robust one comes first. The efficiencies are 0.25,
/// 0.5, 1, 1.5, 2, 2, 3, 4 and 5.25.
pub const SPEED_LEVEL_EFFICIENCY: [(u8, u32); 9] = [
    (1, 0x3E80_0000),
    (2, 0x3F00_0000),
    (3, 0x3F80_0000),
    (4, 0x3FC0_0000),
    (5, 0x4000_0000),
    (6, 0x4000_0000),
    (7, 0x4040_0000),
    (9, 0x4080_0000),
    (10, 0x40A8_0000),
];

/// Speed levels with the capacity from which each one gives the most, from
/// measurements: 0, 1.5, 2.2, 2.6, 3, 4, 6.5, 7.2 and 8.
pub const SPEED_LEVEL_MIN_CAPACITY: [(u8, u32); 9] = [
    (1, 0x0000_0000),
    (2, 0x3FC0_0000),
    (3, 0x400C_CCCD),
    (4, 0x4026_6666),
    (5, 0x4040_0000),
    (6, 0x4080_0000),
    (7, 0x40D0_0000),
    (9, 0x40E6_6666),
    (10, 0x4100_0000),
];

/// Whether entry `i` of a table fits a budget.
pub open spec fn fits(table: Seq<(u8, u32)>, budget: u32, i: int) -> bool {
    super::float_order::is_at_least(budget, table[i].1)
}

/// The level of the last of the first `n` entries that fits, or level 1.
pub open spec fn highest_fitting(table: Seq<(u8, u32)>, budget: u32, n: nat) -> u8
    decreases n,
{
    if n == 0 {
        1
    } else if fits(table, budget, n - 1) {
        table[n - 1].0
    } else {
        highest_fitting(table, budget, (n - 1) as nat)
    }
}

/// The first entry with the threshold of entry `i`, in an ascending table.
pub open spec fn first_of_tie(table: Seq<(u8, u32)>, i: nat) -> nat
    decreases i,
{
    if i > 0 && table[i - 1].1 == table[i as int].1 {
        first_of_tie(table, (i - 1) as nat)
    } else {
        i
    }
}

/// The level of the highest of the first `n` entries that fits, the first one
/// at a tie, or level 1.
pub open spec fn most_efficient(table: Seq<(u8, u32)>, budget: u32, n: nat) -> u8
    decreases n,
{
    if n == 0 {
        1
    } else if fits(table, budget, n - 1) {
        table[first_of_tie(table, (n - 1) as nat) as int].0
    } else {
        most_efficient(table, budget, (n - 1) as nat)
    }
}

/// The highest speed level whose minimum capacity is reached, or level 1.
pub fn select_speed_level_calibrated(capacity: u32) -> (level: u8)
    ensures
        level == highest_fitting(SPEED_LEVEL_MIN_CAPACITY@, capacity, 9),
{
    let mut best_level: u8 = 1;
    let mut i: usize = 0;
    while i < 9
        invariant
            i <= 9,
            best_level == highest_fitting(SPEED_LEVEL_MIN_CAPACITY@, capacity, i as nat),
        decreases 9 - i,
    {
        let (level, c_min): (u8, u32) = SPEED_LEVEL_MIN_CAPACITY[i];
        if at_least(capacity, c_min) {
            best_level = level;
        }
        i += 1;
    }
    best_level
}

/// The speed level of the highest efficiency that fits a budget, the more
/// robust one at a tie, or level 1.
pub fn select_speed_level(budget: u32) -> (level: u8)
    ensures
        level == most_efficient(SPEED_LEVEL_EFFICIENCY@, budget, 9),
{
    let mut best_level: u8 = 1;
    let mut i: usize = 0;
    while i < 9
        invariant
            i <= 9,
            best_level == most_efficient(SPEED_LEVEL_EFFICIENCY@, budget, i as nat),
        decreases 9 - i,
    {
        let (level, eta): (u8, u32) = SPEED_LEVEL_EFFICIENCY[i];
        if at_least(budget, eta) {
            proof {
                lemma_ties(SPEED_LEVEL_EFFICIENCY@, budget, i as nat);
            }
            if i == 0 || SPEED_LEVEL_EFFICIENCY[i - 1].1 != eta {
                best_level = level;
            }
        }
        i += 1;
    }
    best_level
}

/// An entry that ties with the one before it fits where that one does.
proof fn lemma_ties(table: Seq<(u8, u32)>, budget: u32, i: nat)
    requires
        i < table.len(),
        fits(table, budget, i as int),
    ensures
        i > 0 && table[i - 1].1 == table[i as int].1 ==> fits(table, budget, i - 1)
            && first_of_tie(table, i) == first_of_tie(table, (i - 1) as nat),
        i == 0 || table[i - 1].1 != table[i as int].1 ==> first_of_tie(table, i) == i,
{
}

/// Whether the levels of a table ascend.
spec fn levels_ascend(table: Seq<(u8, u32)>) -> bool {
    forall|i: int, j: int| 0 <= i < j < table.len() ==> (#[trigger] table[i]).0 < (
    #[trigger] table[j]).0
}

/// More capacity never gives a lower level.
pub proof fn law_more_capacity_never_hurts(lower: u32, higher: u32)
    requires
        super::float_order::is_at_least(higher, lower),
    ensures
        highest_fitting(SPEED_LEVEL_MIN_CAPACITY@, lower, 9) <= highest_fitting(
            SPEED_LEVEL_MIN_CAPACITY@,
            higher,
            9,
        ),
{
    let t = SPEED_LEVEL_MIN_CAPACITY@;
    assert(levels_ascend(t));
    assert(t[0].0 == 1);
    lemma_monotone(t, lower, higher, 9);
}

proof fn lemma_monotone(table: Seq<(u8, u32)>, lower: u32, higher: u32, n: nat)
    requires
        n <= table.len(),
        table.len() > 0,
        table[0].0 == 1,
        levels_ascend(table),
        super::float_order::is_at_least(higher, lower),
    ensures
        1 <= highest_fitting(table, lower, n) <= highest_fitting(table, higher, n),
        n > 0 ==> highest_fitting(table, higher, n) <= table[n - 1].0,
    decreases n,
{
    if n > 0 {
        lemma_monotone(table, lower, higher, (n - 1) as nat);
        if n > 1 {
            assert(table[n - 2].0 < table[n - 1].0);
        }
        if fits(table, lower, n - 1) {
            super::float_order::law_order_is_transitive(higher, lower, table[n - 1].1);
        }
        if n > 1 {
            lemma_level_bound(table, lower, (n - 1) as nat);
        }
    }
}

/// A level comes from the entries that were looked at.
proof fn lemma_level_bound(table: Seq<(u8, u32)>, budget: u32, n: nat)
    requires
        0 < n <= table.len(),
        table[0].0 == 1,
        levels_ascend(table),
    ensures
        1 <= highest_fitting(table, budget, n) <= table[n - 1].0,
    decreases n,
{
    if n > 1 {
        lemma_level_bound(table, budget, (n - 1) as nat);
        assert(table[n - 2].0 < table[n - 1].0);
    } else {
        assert(highest_fitting(table, budget, 0) == 1);
    }
}

/// A larger budget never gives a lower level.
pub proof fn law_larger_budget_never_hurts(lower: u32, higher: u32)
    requires
        super::float_order::is_at_least(higher, lower),
    ensures
        most_efficient(SPEED_LEVEL_EFFICIENCY@, lower, 9) <= most_efficient(
            SPEED_LEVEL_EFFICIENCY@,
            higher,
            9,
        ),
{
    let t = SPEED_LEVEL_EFFICIENCY@;
    assert(levels_ascend(t));
    assert(t[0].0 == 1);
    lemma_efficiency_is_monotone(t, lower, higher, 9);
}

proof fn lemma_first_of_tie(table: Seq<(u8, u32)>, i: nat)
    requires
        i < table.len(),
    ensures
        first_of_tie(table, i) <= i,
        forall|j: int|
            first_of_tie(table, i) <= j <= i ==> (#[trigger] table[j]).1 == table[i as int].1,
    decreases i,
{
    if i > 0 && table[i - 1].1 == table[i as int].1 {
        lemma_first_of_tie(table, (i - 1) as nat);
    }
}

/// Where the entries from `m` to `n` do not fit, they do not count, and the
/// level is none of theirs.
proof fn lemma_unfit_entries(table: Seq<(u8, u32)>, budget: u32, m: nat, n: nat)
    requires
        m <= n <= table.len(),
        forall|j: int| m <= j < n ==> !fits(table, budget, j),
    ensures
        most_efficient(table, budget, n) == most_efficient(table, budget, m),
    decreases n,
{
    if m < n {
        lemma_unfit_entries(table, budget, m, (n - 1) as nat);
    }
}

proof fn lemma_efficiency_bound(table: Seq<(u8, u32)>, budget: u32, n: nat)
    requires
        n <= table.len(),
        table.len() > 0,
        table[0].0 == 1,
        levels_ascend(table),
    ensures
        1 <= most_efficient(table, budget, n),
        n > 0 ==> most_efficient(table, budget, n) <= table[n - 1].0,
    decreases n,
{
    if n > 0 {
        lemma_efficiency_bound(table, budget, (n - 1) as nat);
        lemma_first_of_tie(table, (n - 1) as nat);
        let first = first_of_tie(table, (n - 1) as nat) as int;
        assert(table[0].0 <= table[first].0 <= table[n - 1].0);
        if n > 1 {
            assert(table[n - 2].0 < table[n - 1].0);
        }
    }
}

proof fn lemma_efficiency_is_monotone(table: Seq<(u8, u32)>, lower: u32, higher: u32, n: nat)
    requires
        n <= table.len(),
        table.len() > 0,
        table[0].0 == 1,
        levels_ascend(table),
        super::float_order::is_at_least(higher, lower),
    ensures
        most_efficient(table, lower, n) <= most_efficient(table, higher, n),
    decreases n,
{
    if n > 0 {
        lemma_efficiency_is_monotone(table, lower, higher, (n - 1) as nat);
        let first = first_of_tie(table, (n - 1) as nat);
        lemma_first_of_tie(table, (n - 1) as nat);
        if fits(table, lower, n - 1) {
            super::float_order::law_order_is_transitive(higher, lower, table[n - 1].1);
        } else if fits(table, higher, n - 1) {
            assert forall|j: int| first <= j < n implies !fits(table, lower, j) by {
                assert(table[j].1 == table[n - 1].1);
            }
            lemma_unfit_entries(table, lower, first, n);
            lemma_efficiency_bound(table, lower, first);
            if first > 0 {
                assert(table[first - 1].0 < table[first as int].0);
            }
        }
    }
}

/// Signal-to-noise ratios in dB at which the corrections were measured: 6, 12,
/// 18, 24 and 30.
pub const CORRECTION_SNR_GRID: [u32; 5] = [
    0x40C0_0000,
    0x4140_0000,
    0x4190_0000,
    0x41C0_0000,
    0x41F0_0000,
];

/// The speed levels of the rows of the correction tables.
pub const CORRECTION_LEVELS: [u8; 9] = [1, 2, 3, 4, 5, 6, 7, 9, 10];

/// How much too high a capacity reads when it is measured at a level, by level
/// and signal-to-noise ratio. Level 2 is the reference.
pub const CAPACITY_LEVEL_CORRECTION: [[u32; 5]; 9] = [
    [0x3DCA_57A8, 0x3DF8_A090, 0x3E22_EB1C, 0x3E40_D1B7, 0x3E4A_C083],
    [0x0000_0000, 0x0000_0000, 0x0000_0000, 0x0000_0000, 0x0000_0000],
    [0x3E36_2B6B, 0x3EE4_25AF, 0x3F76_7A10, 0x3FC7_D8AE, 0x3FF3_6AE8],
    [0x3EBF_E5C9, 0x3F0D_21FF, 0x3F85_07C8, 0x3FD2_E48F, 0x3FFF_CB92],
    [0x3F02_FEC5, 0x3F34_60AA, 0x3FAD_A1CB, 0x4016_DE01, 0x4048_816F],
    [0x3F2F_6944, 0x3F54_60AA, 0x3FB7_BB30, 0x4017_212D, 0x4043_1412],
    [0x3F39_EECC, 0x3F55_B574, 0x3FBA_CA58, 0x401D_205C, 0x404E_7BB3],
    [0x3F4E_425B, 0x3F69_930C, 0x3FC4_87FD, 0x4022_5461, 0x4054_EBEE],
    [0x3F60_DED3, 0x3F6C_9EED, 0x3FC3_6E2F, 0x4021_54CA, 0x4053_8034],
];

/// The same for the selectivity.
pub const SELECTIVITY_LEVEL_CORRECTION: [[u32; 5]; 9] = [
    [0xBC22_339C, 0xBC59_E83E, 0xBC6B_EDFA, 0xBC72_7BB3, 0xBC74_1F21],
    [0x0000_0000, 0x0000_0000, 0x0000_0000, 0x0000_0000, 0x0000_0000],
    [0xBD98_2A99, 0xBDBA_5E35, 0xBDC6_0AA6, 0xBDC9_1D15, 0xBDC9_BA5E],
    [0xBD25_119D, 0xBD48_4B5E, 0xBD50_E560, 0xBD52_F1AA, 0xBD53_5A86],
    [0xBD9A_0275, 0xBDC6_A7F0, 0xBDD4_9518, 0xBDD8_793E, 0xBDD9_B3D0],
    [0xBDA5_119D, 0xBDD1_4E3C, 0xBDDC_91D1, 0xBDDF_3B64, 0xBDDF_D8AE],
    [0xBDB3_D07D, 0xBDEB_851F, 0xBDFB_B2FF, 0xBDFF_CB92, 0xBE00_68DC],
    [0xBDC3_2CA5, 0xBDFD_21FF, 0xBE07_4539, 0xBE09_85F0, 0xBE0A_0903],
    [0xBDD7_3EAB, 0xBE14_C986, 0xBE28_DB8C, 0xBE32_7BB3, 0xBE36_45A2],
];

/// Where a correction is read off a table.
#[derive(Debug, Clone, Copy, PartialEq, Eq, Structural)]
pub enum CorrectionPlace {
    /// The level has no row; nothing is corrected.
    NoRow,
    /// Between columns `at` and `at + 1` of a row, at the ratio `snr`.
    Between { row: usize, at: usize, snr: u32 },
    /// The last column of a row.
    LastColumn { row: usize },
}

/// The row of a level among the first `n`.
pub open spec fn row_of(level: u8, n: nat) -> Option<int>
    decreases n,
{
    if n == 0 {
        None
    } else {
        match row_of(level, (n - 1) as nat) {
            Some(r) => Some(r),
            None => if CORRECTION_LEVELS@[n - 1] == level {
                Some(n - 1)
            } else {
                None
            },
        }
    }
}

/// A ratio held inside the grid. What is no number stays what it is.
pub open spec fn held_in_grid(snr: u32) -> u32 {
    if super::float_order::is_below(snr, CORRECTION_SNR_GRID@[0]) {
        CORRECTION_SNR_GRID@[0]
    } else if super::float_order::is_below(CORRECTION_SNR_GRID@[4], snr) {
        CORRECTION_SNR_GRID@[4]
    } else {
        snr
    }
}

/// The first column from `i` on whose right neighbour is not below a ratio.
pub open spec fn column_of(snr: u32, i: int) -> Option<int>
    decreases 4 - i,
{
    if i >= 4 {
        None
    } else if super::float_order::is_at_least(CORRECTION_SNR_GRID@[i + 1], snr) {
        Some(i)
    } else {
        column_of(snr, i + 1)
    }
}

/// Where the correction of a level at a ratio is read off a table.
pub open spec fn place_of(level: u8, snr: u32) -> CorrectionPlace {
    match row_of(level, 9) {
        None => CorrectionPlace::NoRow,
        Some(row) => {
            let held = held_in_grid(snr);
            match column_of(held, 0) {
                Some(at) => CorrectionPlace::Between {
                    row: row as usize,
                    at: at as usize,
                    snr: held,
                },
                None => CorrectionPlace::LastColumn { row: row as usize },
            }
        },
    }
}

/// Where the correction of a level at a signal-to-noise ratio is read off a
/// table. Ratios outside the grid are held at its ends.
pub fn correction_place(level: u8, snr: u32) -> (place: CorrectionPlace)
    ensures
        place == place_of(level, snr),
{
    let mut row: Option<usize> = None;
    let mut r: usize = 0;
    while r < 9
        invariant
            r <= 9,
            match row_of(level, r as nat) {
                Some(x) => row matches Some(y) && y == x,
                None => row is None,
            },
        decreases 9 - r,
    {
        if row.is_none() && CORRECTION_LEVELS[r] == level {
            row = Some(r);
        }
        r += 1;
    }
    match row {
        None => CorrectionPlace::NoRow,
        Some(row) => {
            let held: u32 = if below(snr, CORRECTION_SNR_GRID[0]) {
                CORRECTION_SNR_GRID[0]
            } else if below(CORRECTION_SNR_GRID[4], snr) {
                CORRECTION_SNR_GRID[4]
            } else {
                snr
            };
            let mut at: usize = 0;
            while at < 4 && !at_least(CORRECTION_SNR_GRID[at + 1], held)
                invariant
                    at <= 4,
                    column_of(held, 0) == column_of(held, at as int),
                decreases 4 - at,
            {
                at += 1;
            }
            if at < 4 {
                CorrectionPlace::Between { row, at, snr: held }
            } else {
                CorrectionPlace::LastColumn { row }
            }
        },
    }
}

/// From which capacity on each level is chosen, over all capacities. A level is
/// reached exactly at its own capacity, none of the nine is passed over, and
/// below all of them, or where the capacity is no number, it is level 1.
pub proof fn law_calibrated_levels(capacity: u32)
    ensures
        ({
            let level = highest_fitting(SPEED_LEVEL_MIN_CAPACITY@, capacity, 9);
            &&& 1 <= level <= 10 && level != 8
            &&& (level >= 2) == super::float_order::is_at_least(capacity, 0x3FC0_0000)
            &&& (level >= 3) == super::float_order::is_at_least(capacity, 0x400C_CCCD)
            &&& (level >= 4) == super::float_order::is_at_least(capacity, 0x4026_6666)
            &&& (level >= 5) == super::float_order::is_at_least(capacity, 0x4040_0000)
            &&& (level >= 6) == super::float_order::is_at_least(capacity, 0x4080_0000)
            &&& (level >= 7) == super::float_order::is_at_least(capacity, 0x40D0_0000)
            &&& (level >= 9) == super::float_order::is_at_least(capacity, 0x40E6_6666)
            &&& (level >= 10) == super::float_order::is_at_least(capacity, 0x4100_0000)
        }),
{
    reveal_with_fuel(highest_fitting, 10);
}

/// The level is that of an entry whose capacity is reached, or level 1 where
/// none is, and no entry whose capacity is reached has a higher one.
pub proof fn law_highest_reached_level(capacity: u32)
    ensures
        ({
            let t = SPEED_LEVEL_MIN_CAPACITY@;
            let level = highest_fitting(t, capacity, 9);
            &&& forall|i: int|
                0 <= i < 9 && super::float_order::is_at_least(capacity, (#[trigger] t[i]).1)
                    ==> level >= t[i].0
            &&& {
                ||| exists|i: int|
                    0 <= i < 9 && super::float_order::is_at_least(capacity, (#[trigger] t[i]).1)
                        && level == t[i].0
                ||| level == 1 && forall|i: int|
                    0 <= i < 9 ==> !super::float_order::is_at_least(capacity, (#[trigger] t[i]).1)
            }
        }),
{
    let t = SPEED_LEVEL_MIN_CAPACITY@;
    assert(levels_ascend(t));
    lemma_highest_reached(t, capacity, 9);
}

proof fn lemma_highest_reached(table: Seq<(u8, u32)>, budget: u32, n: nat)
    requires
        n <= table.len(),
        levels_ascend(table),
    ensures
        ({
            let level = highest_fitting(table, budget, n);
            &&& forall|i: int|
                0 <= i < n && super::float_order::is_at_least(budget, (#[trigger] table[i]).1)
                    ==> level >= table[i].0
            &&& {
                ||| exists|i: int|
                    0 <= i < n && super::float_order::is_at_least(budget, (#[trigger] table[i]).1)
                        && level == table[i].0
                ||| level == 1 && forall|i: int|
                    0 <= i < n ==> !super::float_order::is_at_least(budget, (#[trigger] table[i]).1)
            }
        }),
    decreases n,
{
    if n > 0 {
        lemma_highest_reached(table, budget, (n - 1) as nat);
        let last = table[n - 1];
        assert(fits(table, budget, n - 1) == super::float_order::is_at_least(budget, last.1));
    }
}

/// From which budget on each level is chosen, over all budgets: a level is
/// reached exactly where its efficiency fits. Level 6 has the efficiency of the
/// more robust level 5 and is never chosen.
pub proof fn law_efficiency_levels(budget: u32)
    ensures
        ({
            let level = most_efficient(SPEED_LEVEL_EFFICIENCY@, budget, 9);
            &&& 1 <= level <= 10 && level != 6 && level != 8
            &&& (level >= 2) == super::float_order::is_at_least(budget, 0x3F00_0000)
            &&& (level >= 3) == super::float_order::is_at_least(budget, 0x3F80_0000)
            &&& (level >= 4) == super::float_order::is_at_least(budget, 0x3FC0_0000)
            &&& (level >= 5) == super::float_order::is_at_least(budget, 0x4000_0000)
            &&& (level >= 7) == super::float_order::is_at_least(budget, 0x4040_0000)
            &&& (level >= 9) == super::float_order::is_at_least(budget, 0x4080_0000)
            &&& (level >= 10) == super::float_order::is_at_least(budget, 0x40A8_0000)
        }),
{
    reveal_with_fuel(most_efficient, 10);
    reveal_with_fuel(first_of_tie, 10);
}

/// The row of a correction is that of its level among the nine, and level 8 and
/// those beyond 10 have none.
pub proof fn law_correction_row(level: u8, snr: u32)
    ensures
        place_of(level, snr) is NoRow <==> level == 0 || level == 8 || level > 10,
        place_of(level, snr) matches CorrectionPlace::Between { row, at: _, snr: _ } ==> row == (
        if level < 8 {
            level - 1
        } else {
            level - 2
        }),
        place_of(level, snr) matches CorrectionPlace::LastColumn { row } ==> row == (if level < 8 {
            level - 1
        } else {
            level - 2
        }),
{
    reveal_with_fuel(row_of, 10);
}

/// The ratio of a correction is held between 6 and 30, and its columns are those
/// on either side of it: past the second column from above 12 on, past the third
/// from above 18 on, past the fourth from above 24 on. What is no number is read
/// off at the last column.
pub proof fn law_correction_column(level: u8, snr: u32)
    requires
        1 <= level <= 10,
        level != 8,
    ensures
        super::float_order::order_key(snr) is None ==> place_of(level, snr) is LastColumn,
        super::float_order::order_key(snr) is Some ==> {
            &&& place_of(level, snr) matches CorrectionPlace::Between { row: _, at, snr: held }
            &&& held == (if super::float_order::is_below(snr, 0x40C0_0000) {
                0x40C0_0000u32
            } else if super::float_order::is_below(0x41F0_0000, snr) {
                0x41F0_0000
            } else {
                snr
            })
            &&& at <= 3
            &&& (at >= 1) == super::float_order::is_below(0x4140_0000, snr)
            &&& (at >= 2) == super::float_order::is_below(0x4190_0000, snr)
            &&& (at >= 3) == super::float_order::is_below(0x41C0_0000, snr)
        },
{
    reveal_with_fuel(row_of, 10);
    reveal_with_fuel(column_of, 6);
}

} // verus!
