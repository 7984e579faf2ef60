//! QC-LDPC codes of 1944 bits.
//!
//! A code is given by a base matrix and the lifting factor Z = 81. An entry of
//! -1 stands for the Z x Z zero matrix, an entry s from 0 up to Z - 1 for the
//! Z x Z identity shifted right by s. The matrices have the exponents of IEEE
//! Std 802.11-2012, Annex F (n = 1944, Z = 81).
//!
//! In every matrix the parity columns form a staircase: row `r` has shift 0 in
//! parity column `r`, at most one more entry, directly left of it, and nothing
//! to its right. The tables hold what is left: the information columns, and
//! the entries next to the diagonal.
use vstd::prelude::*;

verus! {

/// Lifting factor of all codes.
pub const LIFTING_FACTOR: usize = 81;

/// Number of columns of a base matrix.
pub const BASE_COLS: usize = 24;

/// Length of a coded block in bits.
pub const CODED_BITS: usize = 1944;

/// The value that stands for a zero block in a base matrix.
pub const NO_ENTRY: i16 = -1;

/// The available code rates.
#[derive(Debug, Clone, Copy, PartialEq, Eq, Hash, Structural)]
pub enum CodeRate {
    /// 486 information bits, 1458 parity bits.
    Rate1_4,
    /// 648 information bits, 1296 parity bits.
    Rate1_3,
    /// 972 information bits, 972 parity bits.
    Rate1_2,
    /// 1296 information bits, 648 parity bits.
    Rate2_3,
    /// 1458 information bits, 486 parity bits.
    Rate3_4,
    /// 1701 information bits, 243 parity bits.
    Rate7_8,
}

impl CodeRate {
    /// Number of information columns of the base matrix.
    pub open spec fn info_columns(self) -> int {
        match self {
            CodeRate::Rate1_4 => 6,
            CodeRate::Rate1_3 => 8,
            CodeRate::Rate1_2 => 12,
            CodeRate::Rate2_3 => 16,
            CodeRate::Rate3_4 => 18,
            CodeRate::Rate7_8 => 21,
        }
    }

    /// Number of rows of the base matrix.
    pub open spec fn check_rows(self) -> int {
        BASE_COLS - self.info_columns()
    }

    /// Information bits per block.
    pub fn info_bits(self) -> (n: usize)
        ensures
            n == self.info_columns() * LIFTING_FACTOR,
    {
        match self {
            CodeRate::Rate1_4 => 486,
            CodeRate::Rate1_3 => 648,
            CodeRate::Rate1_2 => 972,
            CodeRate::Rate2_3 => 1296,
            CodeRate::Rate3_4 => 1458,
            CodeRate::Rate7_8 => 1701,
        }
    }

    /// Parity bits per block.
    pub fn parity_bits(self) -> (n: usize)
        ensures
            n == self.check_rows() * LIFTING_FACTOR,
    {
        CODED_BITS - self.info_bits()
    }

    /// Information columns of the base matrix.
    pub fn info_cols(self) -> (n: usize)
        ensures
            n == self.info_columns(),
    {
        self.info_bits() / LIFTING_FACTOR
    }

    /// Check rows of the base matrix.
    pub fn parity_rows(self) -> (n: usize)
        ensures
            n == self.check_rows(),
    {
        self.parity_bits() / LIFTING_FACTOR
    }
}

/// Information part of the rate 1/4 base matrix: 18 check rows, 6 columns.
pub const INFO_1_4: [[i16; 6]; 18] = [
    [57, 50, 11, 79, 3, 1],
    [3, 28, 7, 18, 55, 16],
    [30, -1, 26, -1, 42, -1],
    [62, 56, 10, 14, -1, 67],
    [53, -1, 0, -1, -1, 43],
    [-1, 23, -1, 35, 12, -1],
    [31, -1, 15, -1, 19, 45],
    [-1, 40, 71, -1, -1, -1],
    [48, -1, -1, 17, 64, -1],
    [-1, 69, -1, 75, -1, 33],
    [76, -1, 44, -1, -1, -1],
    [-1, 34, 21, -1, 38, -1],
    [20, -1, -1, 63, -1, 52],
    [-1, 59, 5, -1, -1, -1],
    [46, -1, -1, -1, 22, 68],
    [-1, 41, -1, 36, -1, -1],
    [60, -1, 78, -1, -1, 27],
    [-1, 70, 2, 49, -1, -1],
];

/// Shifts left of the diagonal in the parity part, rate 1/4.
pub const BELOW_1_4: [i16; 18] = [
    -1, 72, 29, 61, 47, 73, 58, 65, 39, 12, 25, 66, 37, 74, 9, 54, 13, 32,
];

/// Information part of the rate 1/3 base matrix: 16 check rows, 8 columns.
pub const INFO_1_3: [[i16; 8]; 16] = [
    [57, 50, 11, 79, 3, 1, 55, 7],
    [3, 28, 7, 18, 55, 16, 27, -1],
    [30, -1, 26, 79, 42, -1, -1, 56],
    [62, 56, 10, -1, 14, 67, -1, 24],
    [53, -1, 0, -1, -1, 43, 70, -1],
    [-1, 23, -1, 35, 12, -1, -1, 50],
    [31, -1, 15, -1, 19, 45, 32, -1],
    [-1, 40, 71, -1, -1, -1, 28, 22],
    [48, -1, -1, 17, 64, -1, -1, 68],
    [-1, 69, -1, 75, -1, 33, 49, -1],
    [76, -1, 44, -1, -1, -1, 60, 52],
    [-1, 34, 21, -1, 38, -1, -1, 46],
    [20, -1, -1, 63, -1, 52, -1, -1],
    [-1, 59, 5, -1, -1, -1, 74, -1],
    [46, -1, -1, -1, 22, 68, -1, -1],
    [-1, 41, -1, 36, -1, -1, 60, 27],
];

/// Shifts left of the diagonal in the parity part, rate 1/3.
pub const BELOW_1_3: [i16; 16] = [
    -1, 72, 29, 61, 47, 73, 58, 65, 39, 12, 25, 66, 37, 9, 54, 13,
];

/// Information part of the rate 1/2 base matrix: 12 check rows, 12 columns.
pub const INFO_1_2: [[i16; 12]; 12] = [
    [57, 50, 11, 50, 79, 3, 1, 0, 55, 7, -1, -1],
    [3, 28, -1, 7, 18, 55, 16, 27, -1, -1, 0, -1],
    [30, -1, 26, 79, -1, 42, -1, -1, 56, -1, -1, 8],
    [62, 56, -1, 10, -1, 14, -1, 67, -1, 24, -1, -1],
    [53, -1, 0, -1, -1, -1, 43, -1, 70, -1, 36, -1],
    [-1, 23, -1, -1, 35, -1, 12, -1, -1, 56, -1, 50],
    [31, -1, 15, -1, -1, 19, -1, 45, -1, -1, 32, -1],
    [-1, 40, -1, 71, -1, -1, -1, -1, 28, -1, -1, 22],
    [48, -1, -1, -1, 17, -1, 64, -1, -1, 68, -1, -1],
    [-1, 69, -1, -1, -1, 75, -1, 33, -1, -1, 49, -1],
    [76, -1, 44, -1, -1, -1, -1, -1, 60, -1, -1, 52],
    [-1, 34, -1, 21, -1, -1, 38, -1, -1, 46, -1, -1],
];

/// Shifts left of the diagonal in the parity part, rate 1/2.
pub const BELOW_1_2: [i16; 12] = [
    -1, 72, 29, 61, 47, 73, 58, 65, 39, 12, 25, 66,
];

/// Information part of the rate 2/3 base matrix: 8 check rows, 16 columns.
pub const INFO_2_3: [[i16; 16]; 8] = [
    [39, 31, 8, 69, -1, 50, 11, -1, 3, -1, 60, 27, -1, 55, -1, 79],
    [-1, 63, 45, -1, 17, 2, -1, 72, -1, 57, -1, -1, 40, -1, 26, -1],
    [14, -1, -1, 22, 68, -1, 46, -1, 74, -1, 5, -1, -1, 37, -1, 19],
    [-1, 76, 10, -1, -1, 43, -1, 58, -1, 30, -1, 66, 15, -1, 71, -1],
    [52, -1, -1, 35, 7, -1, 20, -1, -1, -1, 48, -1, -1, 64, -1, 41],
    [-1, 44, 59, -1, -1, 16, -1, 29, 67, -1, -1, 73, -1, -1, 1, -1],
    [25, -1, -1, 53, -1, -1, 70, -1, -1, 42, -1, -1, 62, 9, -1, 34],
    [-1, 47, 21, -1, 56, -1, -1, 38, -1, -1, 75, -1, -1, -1, 61, -1],
];

/// Shifts left of the diagonal in the parity part, rate 2/3.
pub const BELOW_2_3: [i16; 8] = [
    -1, 33, 54, 23, 78, 36, 18, 13,
];

/// Information part of the rate 3/4 base matrix: 6 check rows, 18 columns.
pub const INFO_3_4: [[i16; 18]; 6] = [
    [61, 31, 50, 7, -1, 11, 53, -1, 3, 42, -1, 79, 27, -1, 55, -1, 24, 70],
    [-1, 28, -1, 18, 40, -1, -1, 16, 0, -1, 56, -1, -1, 73, -1, 62, -1, -1],
    [30, -1, 26, -1, -1, 69, 8, -1, -1, 57, -1, 71, 14, -1, 38, -1, 67, -1],
    [-1, 47, -1, 10, 64, -1, -1, 35, 46, -1, 22, -1, -1, 52, -1, 76, -1, 19],
    [48, -1, 44, -1, -1, 17, 36, -1, -1, 75, -1, 5, 60, -1, 34, -1, 43, -1],
    [-1, 23, -1, 21, 12, -1, -1, 65, 39, -1, 68, -1, -1, 15, -1, 59, -1, 41],
];

/// Shifts left of the diagonal in the parity part, rate 3/4.
pub const BELOW_3_4: [i16; 6] = [
    -1, 45, 33, 58, 29, 66,
];

/// Information part of the rate 7/8 base matrix: 3 check rows, 21 columns.
pub const INFO_7_8: [[i16; 21]; 3] = [
    [57, 50, 11, 79, 3, 1, 55, 7, 42, 56, 14, 62, 31, 53, 30, 48, 76, 20, 46, 60, 39],
    [3, 28, 7, 18, 55, 16, 27, 40, 69, 34, 67, 10, 15, 0, 26, 17, 44, -1, 22, -1, -1],
    [30, -1, 26, -1, 12, 43, 70, 71, 75, 21, 24, -1, 19, -1, 79, 64, -1, 63, 5, 36, 78],
];

/// Shifts left of the diagonal in the parity part, rate 7/8.
pub const BELOW_7_8: [i16; 3] = [
    -1, 72, 33,
];

/// The entry of an information column.
#[verifier::opaque]
pub open spec fn info_entry(rate: CodeRate, r: int, c: int) -> i16 {
    match rate {
        CodeRate::Rate1_4 => INFO_1_4@[r]@[c],
        CodeRate::Rate1_3 => INFO_1_3@[r]@[c],
        CodeRate::Rate1_2 => INFO_1_2@[r]@[c],
        CodeRate::Rate2_3 => INFO_2_3@[r]@[c],
        CodeRate::Rate3_4 => INFO_3_4@[r]@[c],
        CodeRate::Rate7_8 => INFO_7_8@[r]@[c],
    }
}

/// The entry left of the diagonal of the parity part.
#[verifier::opaque]
pub open spec fn below_diagonal(rate: CodeRate, r: int) -> i16 {
    match rate {
        CodeRate::Rate1_4 => BELOW_1_4@[r],
        CodeRate::Rate1_3 => BELOW_1_3@[r],
        CodeRate::Rate1_2 => BELOW_1_2@[r],
        CodeRate::Rate2_3 => BELOW_2_3@[r],
        CodeRate::Rate3_4 => BELOW_3_4@[r],
        CodeRate::Rate7_8 => BELOW_7_8@[r],
    }
}

/// The entry of the base matrix in row `r`, column `c`.
pub open spec fn base_entry(rate: CodeRate, r: int, c: int) -> i16 {
    let k = rate.info_columns();
    if c < k {
        info_entry(rate, r, c)
    } else if c == k + r {
        0
    } else if r > 0 && c == k + r - 1 {
        below_diagonal(rate, r)
    } else {
        NO_ENTRY
    }
}

/// Row `r` of the base matrix.
pub open spec fn base_row(rate: CodeRate, r: int) -> Seq<i16> {
    Seq::new(BASE_COLS as nat, |c: int| base_entry(rate, r, c))
}

/// The base matrix of a rate.
pub open spec fn base_matrix(rate: CodeRate) -> Seq<Seq<i16>> {
    Seq::new(rate.check_rows() as nat, |r: int| base_row(rate, r))
}

/// The rows of a matrix as sequences.
pub open spec fn rows_of(m: Seq<Vec<i16>>) -> Seq<Seq<i16>> {
    Seq::new(m.len(), |r: int| m[r]@)
}

/// One row of a base matrix from its information part and its place.
fn matrix_row(info: &[i16], r: usize, below: i16) -> (row: Vec<i16>)
    requires
        info@.len() + r < BASE_COLS,
    ensures
        row@.len() == BASE_COLS,
        forall|c: int|
            0 <= c < BASE_COLS ==> #[trigger] row@[c] == (if c < info@.len() {
                info@[c]
            } else if c == info@.len() + r {
                0
            } else if r > 0 && c == info@.len() + r - 1 {
                below
            } else {
                NO_ENTRY
            }),
{
    let k: usize = info.len();
    let mut row: Vec<i16> = Vec::new();
    let mut c: usize = 0;
    while c < BASE_COLS
        invariant
            c <= BASE_COLS,
            k == info@.len(),
            k + r < BASE_COLS,
            row@.len() == c,
            forall|q: int|
                0 <= q < c ==> #[trigger] row@[q] == (if q < k {
                    info@[q]
                } else if q == k + r {
                    0
                } else if r > 0 && q == k + r - 1 {
                    below
                } else {
                    NO_ENTRY
                }),
        decreases BASE_COLS - c,
    {
        if c < k {
            row.push(info[c]);
        } else if c == k + r {
            row.push(0);
        } else if r > 0 && c == k + r - 1 {
            row.push(below);
        } else {
            row.push(NO_ENTRY);
        }
        c += 1;
    }
    row
}

/// Base matrix at rate 1/4: 6 information columns, 18 check rows.
pub fn base_matrix_rate_1_4() -> (m: Vec<Vec<i16>>)
    ensures
        rows_of(m@) == base_matrix(CodeRate::Rate1_4),
{
    let mut m: Vec<Vec<i16>> = Vec::new();
    let mut r: usize = 0;
    while r < 18
        invariant
            r <= 18,
            m@.len() == r,
            forall|q: int| 0 <= q < r ==> #[trigger] m@[q]@ == base_row(CodeRate::Rate1_4, q),
        decreases 18 - r,
    {
        let row: Vec<i16> = matrix_row(INFO_1_4[r].as_slice(), r, BELOW_1_4[r]);
        proof {
            reveal(info_entry);
            reveal(below_diagonal);
        }
        assert(row@ =~= base_row(CodeRate::Rate1_4, r as int));
        m.push(row);
        r += 1;
    }
    assert(rows_of(m@) =~= base_matrix(CodeRate::Rate1_4));
    m
}

/// Base matrix at rate 1/3: 8 information columns, 16 check rows.
pub fn base_matrix_rate_1_3() -> (m: Vec<Vec<i16>>)
    ensures
        rows_of(m@) == base_matrix(CodeRate::Rate1_3),
{
    let mut m: Vec<Vec<i16>> = Vec::new();
    let mut r: usize = 0;
    while r < 16
        invariant
            r <= 16,
            m@.len() == r,
            forall|q: int| 0 <= q < r ==> #[trigger] m@[q]@ == base_row(CodeRate::Rate1_3, q),
        decreases 16 - r,
    {
        let row: Vec<i16> = matrix_row(INFO_1_3[r].as_slice(), r, BELOW_1_3[r]);
        proof {
            reveal(info_entry);
            reveal(below_diagonal);
        }
        assert(row@ =~= base_row(CodeRate::Rate1_3, r as int));
        m.push(row);
        r += 1;
    }
    assert(rows_of(m@) =~= base_matrix(CodeRate::Rate1_3));
    m
}

/// Base matrix at rate 1/2: 12 information columns, 12 check rows.
pub fn base_matrix_rate_1_2() -> (m: Vec<Vec<i16>>)
    ensures
        rows_of(m@) == base_matrix(CodeRate::Rate1_2),
{
    let mut m: Vec<Vec<i16>> = Vec::new();
    let mut r: usize = 0;
    while r < 12
        invariant
            r <= 12,
            m@.len() == r,
            forall|q: int| 0 <= q < r ==> #[trigger] m@[q]@ == base_row(CodeRate::Rate1_2, q),
        decreases 12 - r,
    {
        let row: Vec<i16> = matrix_row(INFO_1_2[r].as_slice(), r, BELOW_1_2[r]);
        proof {
            reveal(info_entry);
            reveal(below_diagonal);
        }
        assert(row@ =~= base_row(CodeRate::Rate1_2, r as int));
        m.push(row);
        r += 1;
    }
    assert(rows_of(m@) =~= base_matrix(CodeRate::Rate1_2));
    m
}

/// Base matrix at rate 2/3: 16 information columns, 8 check rows.
pub fn base_matrix_rate_2_3() -> (m: Vec<Vec<i16>>)
    ensures
        rows_of(m@) == base_matrix(CodeRate::Rate2_3),
{
    let mut m: Vec<Vec<i16>> = Vec::new();
    let mut r: usize = 0;
    while r < 8
        invariant
            r <= 8,
            m@.len() == r,
            forall|q: int| 0 <= q < r ==> #[trigger] m@[q]@ == base_row(CodeRate::Rate2_3, q),
        decreases 8 - r,
    {
        let row: Vec<i16> = matrix_row(INFO_2_3[r].as_slice(), r, BELOW_2_3[r]);
        proof {
            reveal(info_entry);
            reveal(below_diagonal);
        }
        assert(row@ =~= base_row(CodeRate::Rate2_3, r as int));
        m.push(row);
        r += 1;
    }
    assert(rows_of(m@) =~= base_matrix(CodeRate::Rate2_3));
    m
}

/// Base matrix at rate 3/4: 18 information columns, 6 check rows.
pub fn base_matrix_rate_3_4() -> (m: Vec<Vec<i16>>)
    ensures
        rows_of(m@) == base_matrix(CodeRate::Rate3_4),
{
    let mut m: Vec<Vec<i16>> = Vec::new();
    let mut r: usize = 0;
    while r < 6
        invariant
            r <= 6,
            m@.len() == r,
            forall|q: int| 0 <= q < r ==> #[trigger] m@[q]@ == base_row(CodeRate::Rate3_4, q),
        decreases 6 - r,
    {
        let row: Vec<i16> = matrix_row(INFO_3_4[r].as_slice(), r, BELOW_3_4[r]);
        proof {
            reveal(info_entry);
            reveal(below_diagonal);
        }
        assert(row@ =~= base_row(CodeRate::Rate3_4, r as int));
        m.push(row);
        r += 1;
    }
    assert(rows_of(m@) =~= base_matrix(CodeRate::Rate3_4));
    m
}

/// Base matrix at rate 7/8: 21 information columns, 3 check rows.
pub fn base_matrix_rate_7_8() -> (m: Vec<Vec<i16>>)
    ensures
        rows_of(m@) == base_matrix(CodeRate::Rate7_8),
{
    let mut m: Vec<Vec<i16>> = Vec::new();
    let mut r: usize = 0;
    while r < 3
        invariant
            r <= 3,
            m@.len() == r,
            forall|q: int| 0 <= q < r ==> #[trigger] m@[q]@ == base_row(CodeRate::Rate7_8, q),
        decreases 3 - r,
    {
        let row: Vec<i16> = matrix_row(INFO_7_8[r].as_slice(), r, BELOW_7_8[r]);
        proof {
            reveal(info_entry);
            reveal(below_diagonal);
        }
        assert(row@ =~= base_row(CodeRate::Rate7_8, r as int));
        m.push(row);
        r += 1;
    }
    assert(rows_of(m@) =~= base_matrix(CodeRate::Rate7_8));
    m
}

/// The base matrix of a rate: each entry is -1 or a shift.
pub fn base_matrix_for_rate(rate: CodeRate) -> (m: Vec<Vec<i16>>)
    ensures
        rows_of(m@) == base_matrix(rate),
{
    match rate {
        CodeRate::Rate1_2 => base_matrix_rate_1_2(),
        CodeRate::Rate2_3 => base_matrix_rate_2_3(),
        CodeRate::Rate3_4 => base_matrix_rate_3_4(),
        CodeRate::Rate1_4 => base_matrix_rate_1_4(),
        CodeRate::Rate1_3 => base_matrix_rate_1_3(),
        CodeRate::Rate7_8 => base_matrix_rate_7_8(),
    }
}

/// A nonzero block of a base matrix.
#[derive(Debug, Clone, Copy, PartialEq, Eq, Structural)]
pub struct SparseEntry {
    /// Row in the base matrix.
    pub base_row: usize,
    /// Column in the base matrix.
    pub base_col: usize,
    /// The identity matrix is shifted right by this much.
    pub shift: usize,
}

/// Whether the base matrix has a nonzero block in row `r`, column `c`.
pub open spec fn has_block(rate: CodeRate, r: int, c: int) -> bool {
    0 <= base_entry(rate, r, c) < LIFTING_FACTOR
}

/// The nonzero blocks among the first `m` places of the base matrix, row by
/// row.
pub open spec fn blocks_before(rate: CodeRate, m: nat) -> Seq<SparseEntry>
    decreases m,
{
    if m == 0 {
        Seq::empty()
    } else {
        let r = (m - 1) / BASE_COLS as int;
        let c = (m - 1) % BASE_COLS as int;
        let before = blocks_before(rate, (m - 1) as nat);
        if has_block(rate, r, c) {
            before.push(
                SparseEntry {
                    base_row: r as usize,
                    base_col: c as usize,
                    shift: base_entry(rate, r, c) as usize,
                },
            )
        } else {
            before
        }
    }
}

/// The nonzero blocks of the base matrix, row by row.
pub open spec fn blocks(rate: CodeRate) -> Seq<SparseEntry> {
    blocks_before(rate, (rate.check_rows() * BASE_COLS) as nat)
}

/// Parity check `i` of block row `r`: the XOR of the bits that take part in it.
pub open spec fn parity_check(rate: CodeRate, word: Seq<u8>, r: int, i: int) -> u8 {
    super::lifted::row_sum(
        blocks(rate),
        LIFTING_FACTOR as int,
        0,
        BASE_COLS as int,
        word,
        0,
        r,
        i,
    )
}

/// Whether a word satisfies every parity check of the code.
pub open spec fn is_codeword(rate: CodeRate, word: Seq<u8>) -> bool {
    &&& word.len() == CODED_BITS
    &&& forall|r: int, i: int|
        0 <= r < rate.check_rows() && 0 <= i < LIFTING_FACTOR ==> #[trigger] parity_check(
            rate,
            word,
            r,
            i,
        ) == 0
}

/// Every block stands inside the base matrix and has a shift below the lifting
/// factor.
pub proof fn lemma_blocks_in_range(rate: CodeRate, m: nat)
    requires
        m <= rate.check_rows() * BASE_COLS,
    ensures
        blocks_before(rate, m).len() <= m,
        forall|k: int|
            0 <= k < blocks_before(rate, m).len() ==> {
                let e = #[trigger] blocks_before(rate, m)[k];
                &&& e.base_row < rate.check_rows()
                &&& e.base_row * BASE_COLS + e.base_col < m
                &&& e.base_col < BASE_COLS
                &&& e.shift < LIFTING_FACTOR
                &&& has_block(rate, e.base_row as int, e.base_col as int)
                &&& e.shift == base_entry(rate, e.base_row as int, e.base_col as int)
            },
    decreases m,
{
    if m > 0 {
        lemma_blocks_in_range(rate, (m - 1) as nat);
    }
}

/// Every nonzero entry of the base matrix has exactly one block.
pub proof fn lemma_block_at(rate: CodeRate, m: nat, r: int, c: int) -> (at: int)
    requires
        m <= rate.check_rows() * BASE_COLS,
        0 <= r,
        0 <= c < BASE_COLS,
        r * BASE_COLS + c < m,
        has_block(rate, r, c),
    ensures
        0 <= at < blocks_before(rate, m).len(),
        blocks_before(rate, m)[at].base_row == r,
        blocks_before(rate, m)[at].base_col == c,
        blocks_before(rate, m)[at].shift == base_entry(rate, r, c),
        forall|k: int|
            0 <= k < blocks_before(rate, m).len() && k != at ==> (#[trigger] blocks_before(
                rate,
                m,
            )[k]).base_row != r || blocks_before(rate, m)[k].base_col != c,
    decreases m,
{
    lemma_blocks_in_range(rate, (m - 1) as nat);
    if r * BASE_COLS + c == m - 1 {
        assert((m - 1) / BASE_COLS as int == r);
        assert((m - 1) % BASE_COLS as int == c);
        blocks_before(rate, (m - 1) as nat).len() as int
    } else {
        lemma_block_at(rate, (m - 1) as nat, r, c)
    }
}

/// Place of a block in the base matrix, counted row by row.
pub open spec fn place_of(e: SparseEntry) -> int {
    e.base_row * BASE_COLS + e.base_col
}

proof fn lemma_blocks_in_order(rate: CodeRate, m: nat)
    requires
        m <= rate.check_rows() * BASE_COLS,
    ensures
        forall|k: int, l: int|
            0 <= k < l < blocks_before(rate, m).len() ==> place_of(
                #[trigger] blocks_before(rate, m)[k],
            ) < place_of(#[trigger] blocks_before(rate, m)[l]),
    decreases m,
{
    if m > 0 {
        lemma_blocks_in_order(rate, (m - 1) as nat);
        lemma_blocks_in_range(rate, (m - 1) as nat);
    }
}

/// The form of every code: as many columns as information and parity columns
/// together; each block inside the matrix, with a shift below the lifting
/// factor; no place with two blocks; and in the parity part a staircase, with an
/// unshifted block on the diagonal of every row, at most one left of it and none
/// elsewhere.
pub proof fn law_code_is_a_staircase(rate: CodeRate)
    ensures
        rate.info_columns() + rate.check_rows() == BASE_COLS,
        forall|k: int|
            0 <= k < blocks(rate).len() ==> {
                let e = #[trigger] blocks(rate)[k];
                &&& e.base_row < rate.check_rows()
                &&& e.base_col < BASE_COLS
                &&& e.shift < LIFTING_FACTOR
                &&& e.base_col <= rate.info_columns() + e.base_row
                &&& e.base_col >= rate.info_columns() ==> e.base_col >= rate.info_columns()
                    + e.base_row - 1
            },
        forall|k: int, l: int|
            0 <= k < blocks(rate).len() && 0 <= l < blocks(rate).len() && k != l
                ==> (#[trigger] blocks(rate)[k]).base_row != (
            #[trigger] blocks(rate)[l]).base_row || blocks(rate)[k].base_col
                != blocks(rate)[l].base_col,
        forall|r: int|
            0 <= r < rate.check_rows() ==> blocks(rate).contains(#[trigger] diagonal(rate, r)),
{
    let m = (rate.check_rows() * BASE_COLS) as nat;
    let all = blocks(rate);
    lemma_blocks_in_range(rate, m);
    lemma_blocks_in_order(rate, m);
    assert forall|k: int| 0 <= k < all.len() implies (#[trigger] all[k]).base_col
        <= rate.info_columns() + all[k].base_row && (all[k].base_col >= rate.info_columns()
        ==> all[k].base_col >= rate.info_columns() + all[k].base_row - 1) by {
        assert(has_block(rate, all[k].base_row as int, all[k].base_col as int));
    }
    assert forall|k: int, l: int|
        0 <= k < all.len() && 0 <= l < all.len() && k != l implies (#[trigger] all[k]).base_row
        != (#[trigger] all[l]).base_row || all[k].base_col != all[l].base_col by {
        if k < l {
            assert(place_of(all[k]) < place_of(all[l]));
        } else {
            assert(place_of(all[l]) < place_of(all[k]));
        }
    }
    assert forall|r: int| 0 <= r < rate.check_rows() implies all.contains(
        #[trigger] diagonal(rate, r),
    ) by {
        let at = lemma_block_at(rate, m, r, rate.info_columns() + r);
        assert(all[at] == diagonal(rate, r));
    }
}

/// The unshifted block on the diagonal of a row's parity part.
pub open spec fn diagonal(rate: CodeRate, r: int) -> SparseEntry {
    SparseEntry {
        base_row: r as usize,
        base_col: (rate.info_columns() + r) as usize,
        shift: 0,
    }
}

/// A QC-LDPC code: the nonzero blocks of its base matrix.
#[derive(Debug)]
pub struct LdpcCode {
    rate: CodeRate,
    entries: Vec<SparseEntry>,
    n_base_rows: usize,
    n_base_cols: usize,
}

/// A code is given by its rate.
impl View for LdpcCode {
    type V = CodeRate;

    closed spec fn view(&self) -> CodeRate {
        self.rate
    }
}

impl Clone for LdpcCode {
    fn clone(&self) -> (r: Self)
        ensures
            r@ == self@,
    {
        proof {
            use_type_invariant(self);
        }
        LdpcCode {
            rate: self.rate,
            entries: vstd::slice::slice_to_vec(self.entries.as_slice()),
            n_base_rows: self.n_base_rows,
            n_base_cols: self.n_base_cols,
        }
    }
}

impl LdpcCode {
    #[verifier::type_invariant]
    spec fn well_formed(self) -> bool {
        &&& self.entries@ == blocks(self.rate)
        &&& self.n_base_rows == self.rate.check_rows()
        &&& self.n_base_cols == BASE_COLS
    }

    /// The code of a rate.
    pub fn new(rate: CodeRate) -> (code: Self)
        ensures
            code@ == rate,
    {
        let base_matrix: Vec<Vec<i16>> = base_matrix_for_rate(rate);
        let n_base_rows: usize = rate.parity_rows();
        let mut entries: Vec<SparseEntry> = Vec::new();
        let mut row: usize = 0;
        while row < n_base_rows
            invariant
                row <= n_base_rows,
                n_base_rows == rate.check_rows(),
                rows_of(base_matrix@) == self::base_matrix(rate),
                entries@ == blocks_before(rate, (row * BASE_COLS) as nat),
            decreases n_base_rows - row,
        {
            assert(rows_of(base_matrix@).len() == n_base_rows);
            assert(rows_of(base_matrix@)[row as int] == base_row(rate, row as int));
            assert(base_matrix@[row as int]@ == base_row(rate, row as int));
            let mut col: usize = 0;
            while col < BASE_COLS
                invariant
                    col <= BASE_COLS,
                    row < n_base_rows <= BASE_COLS,
                    row < base_matrix@.len(),
                    base_matrix@[row as int]@ == base_row(rate, row as int),
                    entries@ == blocks_before(rate, (row * BASE_COLS + col) as nat),
                decreases BASE_COLS - col,
            {
                let val: i16 = base_matrix[row][col];
                proof {
                    let m = row * BASE_COLS + col + 1;
                    assert((m - 1) / BASE_COLS as int == row);
                    assert((m - 1) % BASE_COLS as int == col);
                    assert(base_row(rate, row as int)[col as int] == base_entry(
                        rate,
                        row as int,
                        col as int,
                    ));
                }
                if 0 <= val && val < LIFTING_FACTOR as i16 {
                    entries.push(
                        SparseEntry { base_row: row, base_col: col, shift: val as usize },
                    );
                }
                col += 1;
            }
            row += 1;
        }
        LdpcCode { rate, entries, n_base_rows, n_base_cols: BASE_COLS }
    }

    /// The code rate.
    pub fn rate(&self) -> (r: CodeRate)
        ensures
            r == self@,
    {
        self.rate
    }

    /// Information bits per block.
    pub fn info_bits(&self) -> (n: usize)
        ensures
            n == self@.info_columns() * LIFTING_FACTOR,
    {
        self.rate.info_bits()
    }

    /// Bits of a coded block.
    pub fn coded_bits(&self) -> (n: usize)
        ensures
            n == CODED_BITS,
    {
        CODED_BITS
    }

    /// Parity bits per block.
    pub fn parity_bits(&self) -> (n: usize)
        ensures
            n == self@.check_rows() * LIFTING_FACTOR,
    {
        self.rate.parity_bits()
    }

    /// The lifting factor.
    pub fn lifting_factor(&self) -> (z: usize)
        ensures
            z == LIFTING_FACTOR,
    {
        LIFTING_FACTOR
    }

    /// The nonzero blocks of the base matrix, row by row.
    pub fn entries(&self) -> (e: &[SparseEntry])
        ensures
            e@ == blocks(self@),
    {
        proof {
            use_type_invariant(self);
        }
        self.entries.as_slice()
    }

    /// Rows of the base matrix.
    pub fn base_rows(&self) -> (n: usize)
        ensures
            n == self@.check_rows(),
    {
        proof {
            use_type_invariant(self);
        }
        self.n_base_rows
    }

    /// Columns of the base matrix.
    pub fn base_cols(&self) -> (n: usize)
        ensures
            n == BASE_COLS,
    {
        proof {
            use_type_invariant(self);
        }
        self.n_base_cols
    }

    /// Information columns of the base matrix.
    pub fn info_cols(&self) -> (n: usize)
        ensures
            n == self@.info_columns(),
    {
        self.rate.info_cols()
    }

    /// Parity columns of the base matrix.
    pub fn parity_cols(&self) -> (n: usize)
        ensures
            n == self@.check_rows(),
    {
        proof {
            use_type_invariant(self);
        }
        self.n_base_cols - self.info_cols()
    }

    /// The ones of the lifted parity-check matrix: their rows and their
    /// columns, block by block.
    pub fn expand_h(&self) -> (h: (Vec<usize>, Vec<usize>))
        ensures
            h.0@.len() == blocks(self@).len() * LIFTING_FACTOR,
            h.1@.len() == blocks(self@).len() * LIFTING_FACTOR,
            forall|e: int, i: int|
                0 <= e < blocks(self@).len() && 0 <= i < LIFTING_FACTOR ==> {
                    &&& h.0@[#[trigger] one_index(e, i)] == blocks(self@)[e].base_row
                        * LIFTING_FACTOR + i
                    &&& h.1@[one_index(e, i)] == super::lifted::picked(
                        blocks(self@)[e],
                        LIFTING_FACTOR as int,
                        0,
                        i,
                    )
                },
    {
        proof {
            use_type_invariant(self);
            lemma_blocks_in_range(self.rate, (self.rate.check_rows() * BASE_COLS) as nat);
        }
        let mut rows: Vec<usize> = Vec::new();
        let mut cols: Vec<usize> = Vec::new();
        let mut e: usize = 0;
        let n: usize = self.entries.len();
        while e < n
            invariant
                e <= n,
                n == self.entries@.len(),
                forall|k: int|
                    0 <= k < n ==> (#[trigger] self.entries@[k]).base_row < BASE_COLS
                        && self.entries@[k].base_col < BASE_COLS && self.entries@[k].shift
                        < LIFTING_FACTOR,
                rows@.len() == e * LIFTING_FACTOR,
                cols@.len() == e * LIFTING_FACTOR,
                forall|q: int, i: int|
                    0 <= q < e && 0 <= i < LIFTING_FACTOR ==> {
                        &&& rows@[#[trigger] one_index(q, i)] == self.entries@[q].base_row
                            * LIFTING_FACTOR + i
                        &&& cols@[one_index(q, i)] == super::lifted::picked(
                            self.entries@[q],
                            LIFTING_FACTOR as int,
                            0,
                            i,
                        )
                    },
            decreases n - e,
        {
            let entry: SparseEntry = self.entries[e];
            let mut i: usize = 0;
            while i < LIFTING_FACTOR
                invariant
                    i <= LIFTING_FACTOR,
                    e < n,
                    n == self.entries@.len(),
                    entry == self.entries@[e as int],
                    entry.base_row < BASE_COLS,
                    entry.base_col < BASE_COLS,
                    entry.shift < LIFTING_FACTOR,
                    rows@.len() == e * LIFTING_FACTOR + i,
                    cols@.len() == e * LIFTING_FACTOR + i,
                    forall|q: int, j: int|
                        0 <= q <= e && 0 <= j < LIFTING_FACTOR && (q < e || j < i) ==> {
                            &&& rows@[#[trigger] one_index(q, j)] == self.entries@[q].base_row
                                * LIFTING_FACTOR + j
                            &&& cols@[one_index(q, j)] == super::lifted::picked(
                                self.entries@[q],
                                LIFTING_FACTOR as int,
                                0,
                                j,
                            )
                        },
                decreases LIFTING_FACTOR - i,
            {
                rows.push(entry.base_row * LIFTING_FACTOR + i);
                cols.push(entry.base_col * LIFTING_FACTOR + (i + entry.shift) % LIFTING_FACTOR);
                i += 1;
            }
            e += 1;
        }
        (rows, cols)
    }

    /// Whether a word satisfies every parity check (H * c = 0 mod 2).
    pub fn check_codeword(&self, codeword: &[u8]) -> (ok: bool)
        ensures
            ok == is_codeword(self@, codeword@),
    {
        if codeword.len() != CODED_BITS {
            return false;
        }
        proof {
            use_type_invariant(self);
            lemma_blocks_in_range(self.rate, (self.rate.check_rows() * BASE_COLS) as nat);
        }
        let mut base_row: usize = 0;
        while base_row < self.n_base_rows
            invariant
                base_row <= self.n_base_rows,
                self.n_base_rows == self@.check_rows(),
                self.entries@ == blocks(self@),
                codeword@.len() == CODED_BITS,
                forall|k: int|
                    0 <= k < self.entries@.len() ==> (#[trigger] self.entries@[k]).base_col
                        < BASE_COLS && self.entries@[k].shift < LIFTING_FACTOR,
                forall|r: int, i: int|
                    0 <= r < base_row && 0 <= i < LIFTING_FACTOR ==> #[trigger] parity_check(
                        self@,
                        codeword@,
                        r,
                        i,
                    ) == 0,
            decreases self.n_base_rows - base_row,
        {
            let mut i: usize = 0;
            while i < LIFTING_FACTOR
                invariant
                    i <= LIFTING_FACTOR,
                    base_row < self.n_base_rows,
                    self.n_base_rows == self@.check_rows(),
                    self.entries@ == blocks(self@),
                    codeword@.len() == CODED_BITS,
                    forall|k: int|
                        0 <= k < self.entries@.len() ==> (#[trigger] self.entries@[k]).base_col
                            < BASE_COLS && self.entries@[k].shift < LIFTING_FACTOR,
                    forall|r: int, q: int|
                        0 <= r <= base_row && 0 <= q < LIFTING_FACTOR && (r < base_row || q < i)
                            ==> #[trigger] parity_check(self@, codeword@, r, q) == 0,
                decreases LIFTING_FACTOR - i,
            {
                let syndrome: u8 = sum_of_row(
                    self.entries.as_slice(),
                    LIFTING_FACTOR,
                    BASE_COLS,
                    codeword,
                    base_row,
                    i,
                );
                if syndrome != 0 {
                    assert(parity_check(self@, codeword@, base_row as int, i as int) != 0);
                    return false;
                }
                i += 1;
            }
            base_row += 1;
        }
        true
    }
}

/// Place in the expanded matrix of the one in row `i` of block `e`.
pub open spec fn one_index(e: int, i: int) -> int {
    e * LIFTING_FACTOR + i
}

/// Row `i` of block row `row`, restricted to the first `cols` block columns,
/// times `x`.
pub(crate) fn sum_of_row(
    entries: &[SparseEntry],
    z: usize,
    cols: usize,
    x: &[u8],
    row: usize,
    i: usize,
) -> (sum: u8)
    requires
        0 < z,
        2 * z <= usize::MAX,
        i < z,
        cols * z <= x@.len(),
        forall|k: int| 0 <= k < entries@.len() ==> (#[trigger] entries@[k]).shift < z,
    ensures
        sum == super::lifted::row_sum(
            entries@,
            z as int,
            0,
            cols as int,
            x@,
            0,
            row as int,
            i as int,
        ),
{
    let mut sum: u8 = 0;
    let n: usize = x.len();
    let mut j: usize = 0;
    assert(entries@.take(0) =~= Seq::empty());
    while j < entries.len()
        invariant
            j <= entries@.len(),
            0 < z,
            2 * z <= usize::MAX,
            i < z,
            cols * z <= n,
            n == x@.len(),
            forall|k: int| 0 <= k < entries@.len() ==> (#[trigger] entries@[k]).shift < z,
            sum == super::lifted::row_sum(
                entries@.take(j as int),
                z as int,
                0,
                cols as int,
                x@,
                0,
                row as int,
                i as int,
            ),
        decreases entries@.len() - j,
    {
        let entry: SparseEntry = entries[j];
        proof {
            super::lifted::lemma_row_sum_next(
                entries@,
                j as int,
                z as int,
                0,
                cols as int,
                x@,
                0,
                row as int,
                i as int,
            );
        }
        if entry.base_row == row && entry.base_col < cols {
            let within: usize = (i + entry.shift) % z;
            assert(entry.base_col * z + within < cols * z && entry.base_col * z <= cols * z)
                by (nonlinear_arith)
                requires
                    entry.base_col + 1 <= cols,
                    within < z,
            ;
            sum = sum ^ x[entry.base_col * z + within];
        }
        j += 1;
    }
    assert(entries@.take(j as int) =~= entries@);
    sum
}

/// Every matrix holds its tables in their own places: row and column of an
/// information entry are those of the table, the diagonal of the parity part is
/// zero, left of it stands the entry for the row, and nothing elsewhere.
pub proof fn law_matrices_hold_their_tables(r: int, c: int)
    ensures
        0 <= r < 18 && 0 <= c < 6 ==> base_matrix(CodeRate::Rate1_4)[r][c] == INFO_1_4@[r]@[c],
        0 <= r < 16 && 0 <= c < 8 ==> base_matrix(CodeRate::Rate1_3)[r][c] == INFO_1_3@[r]@[c],
        0 <= r < 12 && 0 <= c < 12 ==> base_matrix(CodeRate::Rate1_2)[r][c] == INFO_1_2@[r]@[c],
        0 <= r < 8 && 0 <= c < 16 ==> base_matrix(CodeRate::Rate2_3)[r][c] == INFO_2_3@[r]@[c],
        0 <= r < 6 && 0 <= c < 18 ==> base_matrix(CodeRate::Rate3_4)[r][c] == INFO_3_4@[r]@[c],
        0 <= r < 3 && 0 <= c < 21 ==> base_matrix(CodeRate::Rate7_8)[r][c] == INFO_7_8@[r]@[c],
        0 < r < 18 ==> base_matrix(CodeRate::Rate1_4)[r][5 + r] == BELOW_1_4@[r],
        0 < r < 16 ==> base_matrix(CodeRate::Rate1_3)[r][7 + r] == BELOW_1_3@[r],
        0 < r < 12 ==> base_matrix(CodeRate::Rate1_2)[r][11 + r] == BELOW_1_2@[r],
        0 < r < 8 ==> base_matrix(CodeRate::Rate2_3)[r][15 + r] == BELOW_2_3@[r],
        0 < r < 6 ==> base_matrix(CodeRate::Rate3_4)[r][17 + r] == BELOW_3_4@[r],
        0 < r < 3 ==> base_matrix(CodeRate::Rate7_8)[r][20 + r] == BELOW_7_8@[r],
{
    reveal(info_entry);
    reveal(below_diagonal);
}

/// The form of every matrix: its size, the zero on the diagonal of the parity
/// part, and no entry beyond the diagonal or more than one place left of it.
pub proof fn law_matrices_are_staircases(rate: CodeRate, r: int, c: int)
    requires
        0 <= r < rate.check_rows(),
        0 <= c < 24,
    ensures
        base_matrix(rate).len() == rate.check_rows(),
        base_matrix(rate)[r].len() == 24,
        rate.info_columns() == match rate {
            CodeRate::Rate1_4 => 6,
            CodeRate::Rate1_3 => 8,
            CodeRate::Rate1_2 => 12,
            CodeRate::Rate2_3 => 16,
            CodeRate::Rate3_4 => 18,
            CodeRate::Rate7_8 => 21int,
        },
        rate.check_rows() == 24 - rate.info_columns(),
        c == rate.info_columns() + r ==> base_matrix(rate)[r][c] == 0,
        c >= rate.info_columns() && c != rate.info_columns() + r && c != rate.info_columns() + r - 1
            ==> base_matrix(rate)[r][c] == -1,
{
}

/// The blocks of a code are the entries of its matrix that are shifts, each with
/// its own row, column and shift.
pub proof fn law_blocks_are_the_shifts(rate: CodeRate, e: SparseEntry)
    ensures
        blocks(rate).contains(e) <==> {
            &&& e.base_row < rate.check_rows()
            &&& e.base_col < 24
            &&& 0 <= base_matrix(rate)[e.base_row as int][e.base_col as int] < 81
            &&& e.shift == base_matrix(rate)[e.base_row as int][e.base_col as int]
        },
{
    let m = (rate.check_rows() * BASE_COLS) as nat;
    lemma_blocks_in_range(rate, m);
    if e.base_row < rate.check_rows() && e.base_col < 24 && has_block(
        rate,
        e.base_row as int,
        e.base_col as int,
    ) {
        let at = lemma_block_at(rate, m, e.base_row as int, e.base_col as int);
        if e.shift == base_matrix(rate)[e.base_row as int][e.base_col as int] {
            assert(blocks(rate)[at] == e);
        }
    }
    if blocks(rate).contains(e) {
        let k = choose|k: int| 0 <= k < blocks(rate).len() && blocks(rate)[k] == e;
        assert(blocks_before(rate, m)[k] == e);
    }
}

/// What a parity check makes of a word with a single one, bit `j` of column `c`:
/// it fails exactly when the matrix has a shift in the check's row and that
/// column that takes the check to that bit.
pub proof fn law_check_of_one_bit(rate: CodeRate, r: int, i: int, c: int, j: int)
    requires
        0 <= r < rate.check_rows(),
        0 <= i < 81,
        0 <= c < 24,
        0 <= j < 81,
    ensures
        parity_check(
            rate,
            Seq::new(
                1944,
                |q: int|
                    if q == c * 81 + j {
                        1u8
                    } else {
                        0u8
                    },
            ),
            r,
            i,
        ) == (if 0 <= base_matrix(rate)[r][c] < 81 && (i + base_matrix(rate)[r][c]) % 81 == j {
            1u8
        } else {
            0u8
        }),
{
    let all = blocks(rate);
    law_code_is_a_staircase(rate);
    super::lifted::law_row_of_unit_vector(all, 81, 24, r, i, c, j);
    let s = base_matrix(rate)[r][c];
    if 0 <= s < 81 && (i + s) % 81 == j {
        let e = SparseEntry { base_row: r as usize, base_col: c as usize, shift: s as usize };
        law_blocks_are_the_shifts(rate, e);
        let k = choose|k: int| 0 <= k < all.len() && all[k] == e;
        assert(all[k].base_row == r);
    } else {
        assert forall|k: int|
            0 <= k < all.len() && (#[trigger] all[k]).base_row == r
                && all[k].base_col == c implies (i + all[k].shift) % 81 != j by {
            law_blocks_are_the_shifts(rate, all[k]);
        }
    }
}

/// The shares of information columns among the 24 of a base matrix, by rate.
pub proof fn law_rates(rate: CodeRate)
    ensures
        CodeRate::Rate1_4.info_columns() * 4 == 24 * 1,
        CodeRate::Rate1_3.info_columns() * 3 == 24 * 1,
        CodeRate::Rate1_2.info_columns() * 2 == 24 * 1,
        CodeRate::Rate2_3.info_columns() * 3 == 24 * 2,
        CodeRate::Rate3_4.info_columns() * 4 == 24 * 3,
        CodeRate::Rate7_8.info_columns() * 8 == 24 * 7,
        rate.check_rows() + rate.info_columns() == 24,
        LIFTING_FACTOR == 81,
        CODED_BITS == 24 * 81,
{
}

} // verus!
