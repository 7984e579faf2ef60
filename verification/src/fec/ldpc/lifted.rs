//! Sums over the rows of a lifted sparse matrix.
//!
//! A sparse entry with shift `s` stands for the Z x Z identity shifted right by
//! `s`. Its row `i` picks element `(i + s) % Z` of the block of its column, so
//! a row of the lifted matrix times a vector is an XOR of picked elements.
use super::codes::SparseEntry;
use vstd::prelude::*;

verus! {

/// The place, in a vector that starts at block `base`, of the element that an
/// entry picks in row `i` of its block.
pub open spec fn picked(e: SparseEntry, z: int, base: int, i: int) -> int {
    (e.base_col - base) * z + (i + e.shift) % z
}

/// Row `i` of block row `row`, restricted to the block columns from `lo` up to
/// `hi`, times the vector `x` whose first block belongs to column `base`.
pub open spec fn row_sum(
    entries: Seq<SparseEntry>,
    z: int,
    lo: int,
    hi: int,
    x: Seq<u8>,
    base: int,
    row: int,
    i: int,
) -> u8
    decreases entries.len(),
{
    if entries.len() == 0 {
        0
    } else {
        let e = entries.last();
        let rest = row_sum(entries.drop_last(), z, lo, hi, x, base, row, i);
        if e.base_row == row && lo <= e.base_col < hi {
            rest ^ x[picked(e, z, base, i)]
        } else {
            rest
        }
    }
}

pub proof fn lemma_xor(a: u8, b: u8, v: u8)
    ensures
        (a ^ b) ^ v == a ^ (b ^ v),
        (a ^ b) ^ v == (a ^ v) ^ b,
        a ^ 0 == a,
        0u8 ^ a == a,
        (a ^ b == 0) == (a == b),
        (a ^ b) ^ b == a,
{
    assert((a ^ b) ^ v == a ^ (b ^ v) && (a ^ b) ^ v == (a ^ v) ^ b && a ^ 0 == a && 0u8 ^ a == a
        && ((a ^ b == 0) == (a == b)) && (a ^ b) ^ b == a) by (bit_vector);
}

/// One more entry.
pub proof fn lemma_row_sum_next(
    entries: Seq<SparseEntry>,
    j: int,
    z: int,
    lo: int,
    hi: int,
    x: Seq<u8>,
    base: int,
    row: int,
    i: int,
)
    requires
        0 <= j < entries.len(),
    ensures
        row_sum(entries.take(j + 1), z, lo, hi, x, base, row, i) == (if entries[j].base_row == row
            && lo <= entries[j].base_col < hi {
            row_sum(entries.take(j), z, lo, hi, x, base, row, i) ^ x[picked(
                entries[j],
                z,
                base,
                i,
            )]
        } else {
            row_sum(entries.take(j), z, lo, hi, x, base, row, i)
        }),
{
    assert(entries.take(j + 1).drop_last() =~= entries.take(j));
    assert(entries.take(j + 1).last() == entries[j]);
}

/// A sum over a range of columns is the XOR of the sums over its two parts.
pub proof fn lemma_row_sum_split(
    entries: Seq<SparseEntry>,
    z: int,
    lo: int,
    mid: int,
    hi: int,
    x: Seq<u8>,
    base: int,
    row: int,
    i: int,
)
    requires
        lo <= mid <= hi,
    ensures
        row_sum(entries, z, lo, hi, x, base, row, i) == row_sum(
            entries,
            z,
            lo,
            mid,
            x,
            base,
            row,
            i,
        ) ^ row_sum(entries, z, mid, hi, x, base, row, i),
    decreases entries.len(),
{
    if entries.len() == 0 {
        lemma_xor(0, 0, 0);
    } else {
        let rest = entries.drop_last();
        lemma_row_sum_split(rest, z, lo, mid, hi, x, base, row, i);
        let a = row_sum(rest, z, lo, mid, x, base, row, i);
        let b = row_sum(rest, z, mid, hi, x, base, row, i);
        lemma_xor(a, b, x[picked(entries.last(), z, base, i)]);
    }
}

/// Whether two vectors agree on the blocks from `lo` up to `hi`.
pub open spec fn agree(
    z: int,
    lo: int,
    hi: int,
    x: Seq<u8>,
    x_base: int,
    y: Seq<u8>,
    y_base: int,
) -> bool {
    forall|c: int, j: int|
        lo <= c < hi && 0 <= j < z ==> #[trigger] element(x, x_base, z, c, j) == element(
            y,
            y_base,
            z,
            c,
            j,
        )
}

/// Element `j` of block `c` of a vector whose first block is block `base`.
pub open spec fn element(x: Seq<u8>, base: int, z: int, c: int, j: int) -> u8 {
    x[(c - base) * z + j]
}

/// A sum depends only on the blocks that it covers.
pub proof fn lemma_row_sum_agree(
    entries: Seq<SparseEntry>,
    z: int,
    lo: int,
    hi: int,
    x: Seq<u8>,
    x_base: int,
    y: Seq<u8>,
    y_base: int,
    row: int,
    i: int,
)
    requires
        z > 0,
        agree(z, lo, hi, x, x_base, y, y_base),
    ensures
        row_sum(entries, z, lo, hi, x, x_base, row, i) == row_sum(
            entries,
            z,
            lo,
            hi,
            y,
            y_base,
            row,
            i,
        ),
    decreases entries.len(),
{
    if entries.len() > 0 {
        let e = entries.last();
        lemma_row_sum_agree(entries.drop_last(), z, lo, hi, x, x_base, y, y_base, row, i);
        let j = (i + e.shift) % z;
        assert(0 <= j < z) by (nonlinear_arith)
            requires
                z > 0,
                j == (i + e.shift) % z,
        ;
        if e.base_row == row && lo <= e.base_col < hi {
            assert(element(x, x_base, z, e.base_col as int, j) == element(
                y,
                y_base,
                z,
                e.base_col as int,
                j,
            ));
        }
    }
}

/// No entry in the range, no contribution.
pub proof fn lemma_row_sum_none(
    entries: Seq<SparseEntry>,
    z: int,
    lo: int,
    hi: int,
    x: Seq<u8>,
    base: int,
    row: int,
    i: int,
)
    requires
        forall|k: int|
            0 <= k < entries.len() && (#[trigger] entries[k]).base_row == row ==> !(lo
                <= entries[k].base_col < hi),
    ensures
        row_sum(entries, z, lo, hi, x, base, row, i) == 0,
    decreases entries.len(),
{
    if entries.len() > 0 {
        let rest = entries.drop_last();
        assert forall|k: int| 0 <= k < rest.len() && (#[trigger] rest[k]).base_row
            == row implies !(lo <= rest[k].base_col < hi) by {
            assert(rest[k] == entries[k]);
        }
        lemma_row_sum_none(rest, z, lo, hi, x, base, row, i);
        assert(entries.last() == entries[entries.len() - 1]);
    }
}

/// One entry in the range contributes the element that it picks.
pub proof fn lemma_row_sum_one(
    entries: Seq<SparseEntry>,
    at: int,
    z: int,
    lo: int,
    hi: int,
    x: Seq<u8>,
    base: int,
    row: int,
    i: int,
)
    requires
        0 <= at < entries.len(),
        entries[at].base_row == row,
        lo <= entries[at].base_col < hi,
        forall|k: int|
            0 <= k < entries.len() && k != at && (#[trigger] entries[k]).base_row == row ==> !(lo
                <= entries[k].base_col < hi),
    ensures
        row_sum(entries, z, lo, hi, x, base, row, i) == x[picked(entries[at], z, base, i)],
    decreases entries.len(),
{
    let rest = entries.drop_last();
    if at == entries.len() - 1 {
        assert forall|k: int| 0 <= k < rest.len() && (#[trigger] rest[k]).base_row
            == row implies !(lo <= rest[k].base_col < hi) by {
            assert(rest[k] == entries[k]);
        }
        lemma_row_sum_none(rest, z, lo, hi, x, base, row, i);
        lemma_xor(x[picked(entries[at], z, base, i)], 0, 0);
    } else {
        assert(rest[at] == entries[at]);
        assert forall|k: int| 0 <= k < rest.len() && k != at && (#[trigger] rest[k]).base_row
            == row implies !(lo <= rest[k].base_col < hi) by {
            assert(rest[k] == entries[k]);
        }
        lemma_row_sum_one(rest, at, z, lo, hi, x, base, row, i);
        assert(entries.last() == entries[entries.len() - 1]);
    }
}

/// Blocks of zeros sum to zero.
pub proof fn lemma_row_sum_zero(
    entries: Seq<SparseEntry>,
    z: int,
    lo: int,
    hi: int,
    x: Seq<u8>,
    base: int,
    row: int,
    i: int,
)
    requires
        z > 0,
        forall|c: int, j: int|
            lo <= c < hi && 0 <= j < z ==> #[trigger] element(x, base, z, c, j) == 0,
    ensures
        row_sum(entries, z, lo, hi, x, base, row, i) == 0,
    decreases entries.len(),
{
    if entries.len() > 0 {
        let e = entries.last();
        lemma_row_sum_zero(entries.drop_last(), z, lo, hi, x, base, row, i);
        let j = (i + e.shift) % z;
        assert(0 <= j < z) by (nonlinear_arith)
            requires
                z > 0,
                j == (i + e.shift) % z,
        ;
        if e.base_row == row && lo <= e.base_col < hi {
            assert(element(x, base, z, e.base_col as int, j) == 0);
            lemma_xor(0, 0, 0);
        }
    }
}

/// Two words of a length, bit by bit.
pub open spec fn xor_of(x: Seq<u8>, y: Seq<u8>) -> Seq<u8> {
    Seq::new(x.len(), |k: int| x[k] ^ y[k])
}

/// A sum of vectors gives the sum of the row sums.
pub proof fn lemma_row_sum_xor(
    entries: Seq<SparseEntry>,
    z: int,
    lo: int,
    hi: int,
    x: Seq<u8>,
    y: Seq<u8>,
    base: int,
    row: int,
    i: int,
)
    requires
        z > 0,
        x.len() == y.len(),
        x.len() >= (hi - base) * z,
        base <= lo,
    ensures
        row_sum(
            entries,
            z,
            lo,
            hi,
            xor_of(x, y),
            base,
            row,
            i,
        ) == row_sum(entries, z, lo, hi, x, base, row, i) ^ row_sum(
            entries,
            z,
            lo,
            hi,
            y,
            base,
            row,
            i,
        ),
    decreases entries.len(),
{
    if entries.len() == 0 {
        lemma_xor(0, 0, 0);
    } else {
        let rest = entries.drop_last();
        let e = entries.last();
        lemma_row_sum_xor(rest, z, lo, hi, x, y, base, row, i);
        if e.base_row == row && lo <= e.base_col < hi {
            let p = picked(e, z, base, i);
            let j = (i + e.shift) % z;
            let b = e.base_col - base;
            assert(0 <= j < z) by (nonlinear_arith)
                requires
                    z > 0,
                    j == (i + e.shift) % z,
            ;
            assert(0 <= p < (hi - base) * z) by (nonlinear_arith)
                requires
                    0 <= b,
                    b + 1 <= hi - base,
                    0 <= j < z,
                    p == b * z + j,
            ;
            let u = row_sum(rest, z, lo, hi, x, base, row, i);
            let v = row_sum(rest, z, lo, hi, y, base, row, i);
            assert((u ^ v) ^ (x[p] ^ y[p]) == (u ^ x[p]) ^ (v ^ y[p])) by {
                lemma_xor(u ^ v, x[p], y[p]);
                lemma_xor(u, v, x[p]);
                lemma_xor(u ^ x[p], v, y[p]);
            }
        }
    }
}

/// Places in different blocks differ, and stand inside the vector.
proof fn lemma_block_places(z: int, n: int, c: int, j: int, d: int, k: int)
    requires
        0 <= j < z,
        0 <= k < z,
        0 <= c < n,
        0 <= d < n,
    ensures
        0 <= c * z + j < n * z,
        0 <= d * z + k < n * z,
        (c * z + j == d * z + k) == (c == d && j == k),
{
    assert(0 <= c * z + j < n * z) by (nonlinear_arith)
        requires
            0 <= j < z,
            0 <= c < n,
    ;
    assert(0 <= d * z + k < n * z) by (nonlinear_arith)
        requires
            0 <= k < z,
            0 <= d < n,
    ;
    if c * z + j == d * z + k {
        assert(c == d) by (nonlinear_arith)
            requires
                c * z + j == d * z + k,
                0 <= j < z,
                0 <= k < z,
        ;
    }
}

/// What a row of the lifted matrix makes of a vector with a single one, element
/// `j` of block `c`: a one exactly when an entry stands in that row and column
/// whose identity, shifted right, has its one there, that is, when the row
/// within the block plus the shift comes to `j`, around the block.
pub proof fn law_row_of_unit_vector(
    entries: Seq<SparseEntry>,
    z: int,
    cols: int,
    row: int,
    i: int,
    c: int,
    j: int,
)
    requires
        z > 0,
        0 <= i < z,
        0 <= c < cols,
        0 <= j < z,
        forall|k: int, l: int|
            0 <= k < entries.len() && 0 <= l < entries.len() && k != l
                ==> (#[trigger] entries[k]).base_row != (#[trigger] entries[l]).base_row
                || entries[k].base_col != entries[l].base_col,
    ensures
        row_sum(
            entries,
            z,
            0,
            cols,
            Seq::new(
                (cols * z) as nat,
                |q: int|
                    if q == c * z + j {
                        1u8
                    } else {
                        0u8
                    },
            ),
            0,
            row,
            i,
        ) == (if exists|k: int|
            0 <= k < entries.len() && (#[trigger] entries[k]).base_row == row && entries[k].base_col
                == c && (i + entries[k].shift) % z == j {
            1u8
        } else {
            0u8
        }),
{
    let x = Seq::new(
        (cols * z) as nat,
        |q: int|
            if q == c * z + j {
                1u8
            } else {
                0u8
            },
    );
    assert(cols * z >= 0) by (nonlinear_arith)
        requires
            cols >= 0,
            z >= 0,
    ;
    lemma_row_sum_split(entries, z, 0, c, cols, x, 0, row, i);
    lemma_row_sum_split(entries, z, c, c + 1, cols, x, 0, row, i);
    assert forall|d: int, k: int| 0 <= d < cols && 0 <= k < z && d != c implies #[trigger] element(
        x,
        0,
        z,
        d,
        k,
    ) == 0 by {
        lemma_block_places(z, cols, c, j, d, k);
    }
    lemma_row_sum_zero(entries, z, 0, c, x, 0, row, i);
    lemma_row_sum_zero(entries, z, c + 1, cols, x, 0, row, i);
    let mid = row_sum(entries, z, c, c + 1, x, 0, row, i);
    lemma_xor(mid, 0, 0);
    if exists|k: int|
        0 <= k < entries.len() && (#[trigger] entries[k]).base_row == row && entries[k].base_col
            == c {
        let at = choose|k: int|
            0 <= k < entries.len() && (#[trigger] entries[k]).base_row == row
                && entries[k].base_col == c;
        lemma_row_sum_one(entries, at, z, c, c + 1, x, 0, row, i);
        let p = (i + entries[at].shift) % z;
        vstd::arithmetic::div_mod::lemma_mod_bound(i + entries[at].shift, z);
        lemma_block_places(z, cols, c, j, c, p);
        assert(picked(entries[at], z, 0, i) == c * z + p);
        assert forall|k: int|
            0 <= k < entries.len() && (#[trigger] entries[k]).base_row == row
                && entries[k].base_col == c implies k == at by {}
    } else {
        lemma_row_sum_none(entries, z, c, c + 1, x, 0, row, i);
    }
}

} // verus!
