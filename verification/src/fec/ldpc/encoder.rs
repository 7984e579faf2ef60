//! Systematic LDPC encoder.
//!
//! A codeword is the information bits followed by parity bits that make every
//! parity check come out even. Row `r` of the staircase gives the bits of
//! parity column `r` from the information bits and the parity columns before
//! it, so the rows are solved one after the other.
use super::codes::{sum_of_row, CodeRate, LdpcCode, CODED_BITS, LIFTING_FACTOR};
use vstd::prelude::*;
use vstd::string::*;

verus! {

/// Systematic LDPC encoder.
#[derive(Debug)]
pub struct LdpcEncoder {
    code: LdpcCode,
}

/// An encoder is given by the rate of its code.
impl View for LdpcEncoder {
    type V = CodeRate;

    closed spec fn view(&self) -> CodeRate {
        self.code@
    }
}

impl Clone for LdpcEncoder {
    fn clone(&self) -> (r: Self)
        ensures
            r@ == self@,
    {
        LdpcEncoder { code: self.code.clone() }
    }
}

/// Number of information bits at a rate.
pub open spec fn info_len(rate: CodeRate) -> int {
    rate.info_columns() * LIFTING_FACTOR
}

/// Whether a word is a codeword that starts with the information bits.
pub open spec fn encodes(rate: CodeRate, info: Seq<u8>, word: Seq<u8>) -> bool {
    &&& super::codes::is_codeword(rate, word)
    &&& word.take(info_len(rate)) == info
}

/// Place of parity bit `i` of parity column `r`.
pub open spec fn parity_place(rate: CodeRate, r: int, i: int) -> int {
    (rate.info_columns() + r) * LIFTING_FACTOR + i
}

/// The XOR of the bits before the diagonal that take part in check `i` of
/// block row `r`.
pub open spec fn staircase_sum(rate: CodeRate, word: Seq<u8>, r: int, i: int) -> u8 {
    super::lifted::row_sum(
        super::codes::blocks(rate),
        LIFTING_FACTOR as int,
        0,
        rate.info_columns() + r,
        word,
        0,
        r,
        i,
    )
}

/// Whether parity bit `i` of parity column `r` is the one its check asks for.
pub open spec fn solved(rate: CodeRate, word: Seq<u8>, r: int, i: int) -> bool {
    word[parity_place(rate, r, i)] == staircase_sum(rate, word, r, i)
}

/// A parity check is the XOR of the bits before the diagonal and the bit on it.
proof fn lemma_check(rate: CodeRate, word: Seq<u8>, r: int, i: int)
    requires
        0 <= r < rate.check_rows(),
        0 <= i < LIFTING_FACTOR,
    ensures
        super::codes::parity_check(rate, word, r, i) == staircase_sum(rate, word, r, i)
            ^ word[parity_place(rate, r, i)],
        (super::codes::parity_check(rate, word, r, i) == 0) == solved(rate, word, r, i),
{
    let z = LIFTING_FACTOR as int;
    let all = super::codes::blocks(rate);
    let m = (rate.check_rows() * super::codes::BASE_COLS) as nat;
    let d = rate.info_columns() + r;
    let cols = super::codes::BASE_COLS as int;
    super::lifted::lemma_row_sum_split(all, z, 0, d, cols, word, 0, r, i);
    super::lifted::lemma_row_sum_split(all, z, d, d + 1, cols, word, 0, r, i);
    super::codes::lemma_blocks_in_range(rate, m);
    let at = super::codes::lemma_block_at(rate, m, r, d);
    super::lifted::lemma_row_sum_one(all, at, z, d, d + 1, word, 0, r, i);
    assert forall|k: int| 0 <= k < all.len() && (#[trigger] all[k]).base_row == r implies !(d + 1
        <= all[k].base_col < cols) by {
        assert(super::codes::has_block(rate, r, all[k].base_col as int));
    }
    super::lifted::lemma_row_sum_none(all, z, d + 1, cols, word, 0, r, i);
    let a = staircase_sum(rate, word, r, i);
    let b = word[parity_place(rate, r, i)];
    super::lifted::lemma_xor(a, b, 0);
    super::lifted::lemma_xor(b, 0, 0);
}

/// What a row of the staircase asks for does not depend on the bits from its
/// own parity column on.
proof fn lemma_staircase_prefix(rate: CodeRate, x: Seq<u8>, y: Seq<u8>, r: int, i: int)
    requires
        0 <= r < rate.check_rows(),
        0 <= i < LIFTING_FACTOR,
        x.len() == CODED_BITS,
        y.len() == CODED_BITS,
        forall|q: int| 0 <= q < parity_place(rate, r, 0) ==> x[q] == y[q],
    ensures
        staircase_sum(rate, x, r, i) == staircase_sum(rate, y, r, i),
{
    let z = LIFTING_FACTOR as int;
    let d = rate.info_columns() + r;
    assert forall|c: int, j: int|
        0 <= c < d && 0 <= j < z implies #[trigger] super::lifted::element(x, 0, z, c, j)
        == super::lifted::element(y, 0, z, c, j) by {
        assert(0 <= c * 81 + j < d * 81);
    }
    super::lifted::lemma_row_sum_agree(super::codes::blocks(rate), z, 0, d, x, 0, y, 0, r, i);
}

impl LdpcEncoder {
    /// An encoder for a code.
    pub fn new(code: LdpcCode) -> (enc: Self)
        ensures
            enc@ == code@,
    {
        LdpcEncoder { code }
    }

    /// An encoder for a code. Every code has the staircase form that the
    /// encoder needs, so this does not fail.
    pub fn try_new(code: LdpcCode) -> (r: Result<Self, String>)
        ensures
            r matches Ok(enc) && enc@ == code@,
    {
        Ok(LdpcEncoder { code })
    }

    /// The code.
    pub fn code(&self) -> (code: &LdpcCode)
        ensures
            code@ == self@,
    {
        &self.code
    }

    /// The codeword of a block of information bits.
    pub fn encode_block(&self, info_bits: &[u8]) -> (codeword: Vec<u8>)
        requires
            info_bits@.len() == info_len(self@),
        ensures
            encodes(self@, info_bits@, codeword@),
    {
        self.encode_block_inner(info_bits)
    }

    /// The codeword of a block of information bits, or an error when the block
    /// does not have the length of the code.
    pub fn try_encode_block(&self, info_bits: &[u8]) -> (r: Result<Vec<u8>, String>)
        ensures
            if info_bits@.len() == info_len(self@) {
                r matches Ok(codeword) && encodes(self@, info_bits@, codeword@)
            } else {
                r matches Err(e) && e@ == "Expected "@ + crate::text::decimal(
                    info_len(self@) as nat,
                ) + " info bits, got "@ + crate::text::decimal(info_bits@.len())
            },
    {
        let k: usize = self.code.info_bits();
        if info_bits.len() != k {
            let mut e = String::from_str("Expected ");
            crate::text::push_decimal(&mut e, k as u64);
            e.append(" info bits, got ");
            crate::text::push_decimal(&mut e, info_bits.len() as u64);
            return Err(e);
        }
        Ok(self.encode_block_inner(info_bits))
    }

    fn encode_block_inner(&self, info_bits: &[u8]) -> (codeword: Vec<u8>)
        requires
            info_bits@.len() == info_len(self@),
        ensures
            encodes(self@, info_bits@, codeword@),
    {
        let ghost rate = self@;
        let k: usize = self.code.info_bits();
        let info_cols: usize = self.code.info_cols();
        let n_check_rows: usize = self.code.base_rows();
        let entries = self.code.entries();
        proof {
            super::codes::lemma_blocks_in_range(
                rate,
                (rate.check_rows() * super::codes::BASE_COLS) as nat,
            );
        }
        let mut codeword: Vec<u8> = Vec::new();
        codeword.extend_from_slice(info_bits);
        codeword.resize(CODED_BITS, 0);
        assert(codeword@.take(k as int) =~= info_bits@);
        let mut base_row: usize = 0;
        while base_row < n_check_rows
            invariant
                base_row <= n_check_rows,
                n_check_rows == rate.check_rows(),
                info_cols == rate.info_columns(),
                k == info_len(rate),
                entries@ == super::codes::blocks(rate),
                forall|q: int|
                    0 <= q < entries@.len() ==> (#[trigger] entries@[q]).shift < LIFTING_FACTOR,
                codeword@.len() == CODED_BITS,
                codeword@.take(k as int) == info_bits@,
                forall|r: int, i: int|
                    0 <= r < base_row && 0 <= i < LIFTING_FACTOR ==> #[trigger] solved(
                        rate,
                        codeword@,
                        r,
                        i,
                    ),
            decreases n_check_rows - base_row,
        {
            let mut sub_row: usize = 0;
            while sub_row < LIFTING_FACTOR
                invariant
                    sub_row <= LIFTING_FACTOR,
                    base_row < n_check_rows,
                    n_check_rows == rate.check_rows(),
                    info_cols == rate.info_columns(),
                    k == info_len(rate),
                    entries@ == super::codes::blocks(rate),
                    forall|q: int|
                        0 <= q < entries@.len() ==> (#[trigger] entries@[q]).shift
                            < LIFTING_FACTOR,
                    codeword@.len() == CODED_BITS,
                    codeword@.take(k as int) == info_bits@,
                    forall|r: int, i: int|
                        0 <= r <= base_row && 0 <= i < LIFTING_FACTOR && (r < base_row || i
                            < sub_row) ==> #[trigger] solved(rate, codeword@, r, i),
                decreases LIFTING_FACTOR - sub_row,
            {
                let syndrome: u8 = sum_of_row(
                    entries,
                    LIFTING_FACTOR,
                    info_cols + base_row,
                    codeword.as_slice(),
                    base_row,
                    sub_row,
                );
                let parity_pos: usize = (info_cols + base_row) * LIFTING_FACTOR + sub_row;
                let ghost before = codeword@;
                codeword.set(parity_pos, syndrome);
                proof {
                    assert forall|r: int, i: int|
                        0 <= r <= base_row && 0 <= i < LIFTING_FACTOR && (r < base_row || i
                            < sub_row + 1) implies #[trigger] solved(rate, codeword@, r, i) by {
                        assert(parity_place(rate, r, i) <= parity_pos);
                        lemma_staircase_prefix(rate, before, codeword@, r, i);
                        if r < base_row || i < sub_row {
                            assert(solved(rate, before, r, i));
                            assert(parity_place(rate, r, i) < parity_pos);
                        }
                    }
                    assert(codeword@.take(k as int) =~= before.take(k as int));
                }
                sub_row += 1;
            }
            base_row += 1;
        }
        proof {
            assert forall|r: int, i: int|
                0 <= r < rate.check_rows() && 0 <= i
                    < LIFTING_FACTOR implies #[trigger] super::codes::parity_check(
                rate,
                codeword@,
                r,
                i,
            ) == 0 by {
                assert(solved(rate, codeword@, r, i));
                lemma_check(rate, codeword@, r, i);
            }
        }
        codeword
    }
}

/// The information bits fix the codeword.
pub proof fn law_codeword_is_unique(rate: CodeRate, info: Seq<u8>, x: Seq<u8>, y: Seq<u8>)
    requires
        encodes(rate, info, x),
        encodes(rate, info, y),
    ensures
        x == y,
{
    let k = info_len(rate);
    assert forall|q: int| 0 <= q < k implies x[q] == y[q] by {
        assert(x.take(k)[q] == y.take(k)[q]);
    }
    lemma_unique_rows(rate, x, y, rate.check_rows() as nat);
    assert(x =~= y);
}

/// Two codewords that agree on the information bits agree on the first `rows`
/// parity columns.
proof fn lemma_unique_rows(rate: CodeRate, x: Seq<u8>, y: Seq<u8>, rows: nat)
    requires
        rows <= rate.check_rows(),
        super::codes::is_codeword(rate, x),
        super::codes::is_codeword(rate, y),
        forall|q: int| 0 <= q < info_len(rate) ==> x[q] == y[q],
    ensures
        forall|q: int| 0 <= q < parity_place(rate, rows as int, 0) ==> x[q] == y[q],
    decreases rows,
{
    if rows > 0 {
        let r = rows - 1;
        lemma_unique_rows(rate, x, y, r as nat);
        assert forall|q: int| 0 <= q < parity_place(rate, rows as int, 0) implies x[q]
            == y[q] by {
            if q >= parity_place(rate, r, 0) {
                let i = q - parity_place(rate, r, 0);
                lemma_staircase_prefix(rate, x, y, r, i);
                lemma_check(rate, x, r, i);
                lemma_check(rate, y, r, i);
                assert(super::codes::parity_check(rate, x, r, i) == 0);
                assert(super::codes::parity_check(rate, y, r, i) == 0);
            }
        }
    }
}

/// Blocks that differ have codewords that differ.
pub proof fn law_distinct_codewords(
    rate: CodeRate,
    info_x: Seq<u8>,
    info_y: Seq<u8>,
    x: Seq<u8>,
    y: Seq<u8>,
)
    requires
        info_x != info_y,
        encodes(rate, info_x, x),
        encodes(rate, info_y, y),
    ensures
        x != y,
{
}

/// The word of zeros is a codeword, and the codeword of zeros.
pub proof fn law_zero_codeword(rate: CodeRate)
    ensures
        encodes(
            rate,
            Seq::new(info_len(rate) as nat, |i: int| 0u8),
            Seq::new(CODED_BITS as nat, |i: int| 0u8),
        ),
{
    let word = Seq::new(CODED_BITS as nat, |i: int| 0u8);
    assert forall|r: int, i: int|
        0 <= r < rate.check_rows() && 0 <= i
            < LIFTING_FACTOR implies #[trigger] super::codes::parity_check(rate, word, r, i)
        == 0 by {
        super::lifted::lemma_row_sum_zero(
            super::codes::blocks(rate),
            LIFTING_FACTOR as int,
            0,
            super::codes::BASE_COLS as int,
            word,
            0,
            r,
            i,
        );
    }
    assert(word.take(info_len(rate)) =~= Seq::new(info_len(rate) as nat, |i: int| 0u8));
}

/// Parity checks are linear: a check of the XOR of two words gives the XOR of
/// what it gives on each. So a word plus a codeword is a codeword exactly when
/// the word is one.
pub proof fn law_checks_are_linear(rate: CodeRate, x: Seq<u8>, y: Seq<u8>)
    requires
        x.len() == CODED_BITS,
        y.len() == CODED_BITS,
    ensures
        forall|r: int, i: int|
            0 <= r < rate.check_rows() && 0 <= i < LIFTING_FACTOR
                ==> #[trigger] super::codes::parity_check(rate, super::lifted::xor_of(x, y), r, i)
                == super::codes::parity_check(rate, x, r, i) ^ super::codes::parity_check(
                rate,
                y,
                r,
                i,
            ),
        super::codes::is_codeword(rate, x) ==> (super::codes::is_codeword(
            rate,
            super::lifted::xor_of(x, y),
        ) == super::codes::is_codeword(rate, y)),
{
    let sum = super::lifted::xor_of(x, y);
    assert forall|r: int, i: int|
        0 <= r < rate.check_rows() && 0 <= i
            < LIFTING_FACTOR implies #[trigger] super::codes::parity_check(rate, sum, r, i)
        == super::codes::parity_check(rate, x, r, i) ^ super::codes::parity_check(
        rate,
        y,
        r,
        i,
    ) by {
        super::lifted::lemma_row_sum_xor(
            super::codes::blocks(rate),
            LIFTING_FACTOR as int,
            0,
            super::codes::BASE_COLS as int,
            x,
            y,
            0,
            r,
            i,
        );
    }
    if super::codes::is_codeword(rate, x) {
        assert forall|r: int, i: int|
            0 <= r < rate.check_rows() && 0 <= i
                < LIFTING_FACTOR implies super::codes::parity_check(rate, sum, r, i)
            == #[trigger] super::codes::parity_check(rate, y, r, i) by {
            assert(super::codes::parity_check(rate, x, r, i) == 0);
            assert(super::codes::parity_check(rate, sum, r, i) == super::codes::parity_check(
                rate,
                x,
                r,
                i,
            ) ^ super::codes::parity_check(rate, y, r, i));
            super::lifted::lemma_xor(super::codes::parity_check(rate, y, r, i), 0, 0);
        }
        if super::codes::is_codeword(rate, sum) {
            assert forall|r: int, i: int|
                0 <= r < rate.check_rows() && 0 <= i
                    < LIFTING_FACTOR implies #[trigger] super::codes::parity_check(rate, y, r, i)
                == 0 by {
                assert(super::codes::parity_check(rate, sum, r, i) == 0);
            }
        }
    }
}

/// The code is linear: the XOR of two blocks has the XOR of their codewords as
/// its codeword.
pub proof fn law_encoding_is_linear(
    rate: CodeRate,
    info_x: Seq<u8>,
    info_y: Seq<u8>,
    x: Seq<u8>,
    y: Seq<u8>,
)
    requires
        encodes(rate, info_x, x),
        encodes(rate, info_y, y),
    ensures
        encodes(rate, super::lifted::xor_of(info_x, info_y), super::lifted::xor_of(x, y)),
{
    let k = info_len(rate);
    let sum = super::lifted::xor_of(x, y);
    law_checks_are_linear(rate, x, y);
    assert forall|q: int| 0 <= q < k implies sum.take(k)[q] == super::lifted::xor_of(
        info_x,
        info_y,
    )[q] by {
        assert(x.take(k)[q] == info_x[q]);
        assert(y.take(k)[q] == info_y[q]);
    }
    assert(sum.take(k) =~= super::lifted::xor_of(info_x, info_y));
}

/// What a codeword of a block is: 1944 bits that start with the block, and of
/// which every check of every row comes out even.
pub proof fn law_codeword_of_a_block(rate: CodeRate, info: Seq<u8>, word: Seq<u8>)
    requires
        info.len() == 81 * rate.info_columns(),
    ensures
        encodes(rate, info, word) <==> {
            &&& word.len() == 1944
            &&& forall|q: int| 0 <= q < info.len() ==> #[trigger] word[q] == info[q]
            &&& forall|r: int, i: int|
                0 <= r < 24 - rate.info_columns() && 0 <= i < 81
                    ==> #[trigger] super::codes::parity_check(rate, word, r, i) == 0
        },
{
    let k = info_len(rate);
    if word.len() == 1944 {
        if word.take(k) == info {
            assert forall|q: int| 0 <= q < info.len() implies #[trigger] word[q] == info[q] by {
                assert(word.take(k)[q] == info[q]);
            }
        }
        if forall|q: int| 0 <= q < info.len() ==> #[trigger] word[q] == info[q] {
            assert(word.take(k) =~= info);
        }
    }
}

/// One wrong bit is noticed in every column whose matrix has a shift: a codeword
/// with bit `j` of column `c` flipped is none.
pub proof fn law_one_wrong_bit_is_noticed(
    rate: CodeRate,
    word: Seq<u8>,
    r: int,
    c: int,
    j: int,
)
    requires
        super::codes::is_codeword(rate, word),
        0 <= r < rate.check_rows(),
        0 <= c < 24,
        0 <= j < 81,
        0 <= super::codes::base_matrix(rate)[r][c] < 81,
    ensures
        !super::codes::is_codeword(rate, word.update(c * 81 + j, word[c * 81 + j] ^ 1)),
{
    let s = super::codes::base_matrix(rate)[r][c] as int;
    let i = (j - s) % 81;
    let unit = Seq::new(
        1944,
        |q: int|
            if q == c * 81 + j {
                1u8
            } else {
                0u8
            },
    );
    let flipped = word.update(c * 81 + j, word[c * 81 + j] ^ 1);
    assert((i + s) % 81 == j);
    super::codes::law_check_of_one_bit(rate, r, i, c, j);
    law_checks_are_linear(rate, word, unit);
    assert forall|q: int| 0 <= q < 1944 implies super::lifted::xor_of(word, unit)[q]
        == flipped[q] by {
        super::lifted::lemma_xor(word[q], 0, 0);
    }
    assert(super::lifted::xor_of(word, unit) =~= flipped);
    assert(super::codes::parity_check(rate, unit, r, i) == 1);
}

} // verus!
