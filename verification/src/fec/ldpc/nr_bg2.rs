//! The NR BG2 mother code at lifting size 176.
//!
//! The base graph has 10 information columns, 4 core parity columns and 38
//! extension columns. Extension column `r + 10` belongs to check row `r` alone,
//! unshifted, so an extension parity bit is the sum of the other bits of its
//! row. The core parity columns meet the first four rows in a square block,
//! which the encoder inverts.
//!
//! Which blocks of the graph are nonzero, and with which shift, is not fixed
//! here: a graph is built from its list of entries and checked for that form.
use super::codes::SparseEntry;
use super::gf2::Gf2Matrix;
use vstd::prelude::*;

verus! {

/// Lifting size.
pub const ZC: usize = 176;

/// Information columns of the base graph.
pub const KB: usize = 10;

/// Check rows of the base graph.
pub const BASE_ROWS: usize = 42;

/// Columns of the base graph.
pub const BASE_COLS: usize = 52;

/// Core parity columns.
pub const CORE_PARITY_COLS: usize = 4;

/// Leading information columns that are never transmitted.
pub const PUNCTURED_INFO_COLS: usize = 2;

/// Whether an entry stands inside the graph and, from the extension columns
/// on, where its row has its own column.
pub open spec fn entry_fits(e: SparseEntry) -> bool {
    &&& e.base_row < BASE_ROWS
    &&& e.base_col < BASE_COLS
    &&& e.shift < ZC
    &&& e.base_col >= KB + CORE_PARITY_COLS ==> e.base_row >= CORE_PARITY_COLS && e.base_col
        == e.base_row + KB && e.shift == 0
}

/// Whether an entry of the list stands in row `r` and column `c`.
pub open spec fn has_entry(entries: Seq<SparseEntry>, r: int, c: int) -> bool {
    exists|k: int|
        0 <= k < entries.len() && (#[trigger] entries[k]).base_row == r && entries[k].base_col == c
}

/// Whether a list of entries has the form of the base graph: every entry fits,
/// no block is listed twice, and every extension row has its own column.
pub open spec fn is_base_graph(entries: Seq<SparseEntry>) -> bool {
    &&& forall|k: int| 0 <= k < entries.len() ==> entry_fits(#[trigger] entries[k])
    &&& forall|j: int, k: int|
        0 <= j < k < entries.len() ==> (#[trigger] entries[j]).base_row != (
        #[trigger] entries[k]).base_row || entries[j].base_col != entries[k].base_col
    &&& forall|r: int|
        CORE_PARITY_COLS <= r < BASE_ROWS ==> #[trigger] has_entry(entries, r, r + KB)
}

/// A base graph.
#[derive(Debug)]
pub struct BaseGraph {
    entries: Vec<SparseEntry>,
}

/// A graph is the list of its entries.
impl View for BaseGraph {
    type V = Seq<SparseEntry>;

    closed spec fn view(&self) -> Seq<SparseEntry> {
        self.entries@
    }
}

impl Clone for BaseGraph {
    fn clone(&self) -> (r: Self)
        ensures
            r@ == self@,
    {
        proof {
            use_type_invariant(self);
        }
        BaseGraph { entries: vstd::slice::slice_to_vec(self.entries.as_slice()) }
    }
}

impl BaseGraph {
    #[verifier::type_invariant]
    spec fn well_formed(self) -> bool {
        is_base_graph(self.entries@)
    }

    /// A graph from its entries, if they have the form of one.
    pub fn new(entries: Vec<SparseEntry>) -> (r: Option<Self>)
        ensures
            match r {
                Some(g) => is_base_graph(entries@) && g@ == entries@,
                None => !is_base_graph(entries@),
            },
    {
        let n: usize = entries.len();
        let mut k: usize = 0;
        while k < n
            invariant
                k <= n,
                n == entries@.len(),
                forall|q: int| 0 <= q < k ==> entry_fits(#[trigger] entries@[q]),
                forall|i: int, j: int|
                    0 <= i < j < k ==> (#[trigger] entries@[i]).base_row != (
                    #[trigger] entries@[j]).base_row || entries@[i].base_col
                        != entries@[j].base_col,
            decreases n - k,
        {
            let e: SparseEntry = entries[k];
            let extension: bool = e.base_col >= KB + CORE_PARITY_COLS;
            if e.base_row >= BASE_ROWS || e.base_col >= BASE_COLS || e.shift >= ZC || (extension
                && (e.base_row < CORE_PARITY_COLS || e.base_col != e.base_row + KB || e.shift
                != 0)) {
                assert(!entry_fits(entries@[k as int]));
                return None;
            }
            let mut i: usize = 0;
            while i < k
                invariant
                    i <= k < n,
                    n == entries@.len(),
                    e == entries@[k as int],
                    forall|q: int|
                        0 <= q < i ==> (#[trigger] entries@[q]).base_row != e.base_row
                            || entries@[q].base_col != e.base_col,
                decreases k - i,
            {
                if entries[i].base_row == e.base_row && entries[i].base_col == e.base_col {
                    assert(entries@[i as int].base_row == entries@[k as int].base_row);
                    return None;
                }
                i += 1;
            }
            k += 1;
        }
        let mut row: usize = CORE_PARITY_COLS;
        while row < BASE_ROWS
            invariant
                CORE_PARITY_COLS <= row <= BASE_ROWS,
                n == entries@.len(),
                forall|q: int| 0 <= q < n ==> entry_fits(#[trigger] entries@[q]),
                forall|i: int, j: int|
                    0 <= i < j < n ==> (#[trigger] entries@[i]).base_row != (
                    #[trigger] entries@[j]).base_row || entries@[i].base_col
                        != entries@[j].base_col,
                forall|r: int|
                    CORE_PARITY_COLS <= r < row ==> #[trigger] has_entry(entries@, r, r + KB),
            decreases BASE_ROWS - row,
        {
            let mut i: usize = 0;
            while i < n && !(entries[i].base_row == row && entries[i].base_col == row + KB)
                invariant
                    i <= n,
                    n == entries@.len(),
                    row < BASE_ROWS,
                    forall|q: int|
                        0 <= q < i ==> !((#[trigger] entries@[q]).base_row == row
                            && entries@[q].base_col == row + KB),
                decreases n - i,
            {
                i += 1;
            }
            if i == n {
                assert(!has_entry(entries@, row as int, row + KB));
                return None;
            }
            assert(entries@[i as int].base_row == row);
            assert(has_entry(entries@, row as int, row + KB));
            row += 1;
        }
        Some(BaseGraph { entries })
    }

    /// The entries of the graph.
    pub fn entries(&self) -> (e: &[SparseEntry])
        ensures
            e@ == self@,
            is_base_graph(self@),
    {
        proof {
            use_type_invariant(self);
        }
        self.entries.as_slice()
    }
}

/// Parity check `i` of block row `r`: the XOR of the bits that take part in it.
pub open spec fn parity_check(graph: Seq<SparseEntry>, word: Seq<u8>, r: int, i: int) -> u8 {
    super::lifted::row_sum(graph, ZC as int, 0, BASE_COLS as int, word, 0, r, i)
}

/// Whether a word satisfies every parity check of the graph.
pub open spec fn is_codeword(graph: Seq<SparseEntry>, word: Seq<u8>) -> bool {
    &&& word.len() == BASE_COLS * ZC
    &&& forall|r: int, i: int|
        0 <= r < BASE_ROWS && 0 <= i < ZC ==> #[trigger] parity_check(graph, word, r, i) == 0
}

/// Whether `mother` is the transmitted part of a codeword that starts with the
/// information bits.
pub open spec fn encodes(graph: Seq<SparseEntry>, info: Seq<u8>, mother: Seq<u8>) -> bool {
    &&& mother.len() == (BASE_COLS - PUNCTURED_INFO_COLS) * ZC
    &&& mother.take((KB - PUNCTURED_INFO_COLS) * ZC) == info.skip(PUNCTURED_INFO_COLS * ZC)
    &&& is_codeword(graph, info.take(PUNCTURED_INFO_COLS * ZC) + mother)
}

/// A block of a lifted matrix times a vector: rows from `row_lo`, columns from
/// `col_lo`.
pub open spec fn block_product(
    entries: Seq<SparseEntry>,
    z: int,
    row_lo: int,
    row_n: int,
    col_lo: int,
    col_n: int,
    x: Seq<u8>,
) -> Seq<u8> {
    Seq::new(
        (row_n * z) as nat,
        |k: int|
            super::lifted::row_sum(
                entries,
                z,
                col_lo,
                col_lo + col_n,
                x,
                col_lo,
                row_lo + k / z,
                k % z,
            ),
    )
}

/// The square core block times a vector.
pub open spec fn core_product(graph: Seq<SparseEntry>, x: Seq<u8>) -> Seq<u8> {
    block_product(
        graph,
        ZC as int,
        0,
        CORE_PARITY_COLS as int,
        KB as int,
        CORE_PARITY_COLS as int,
        x,
    )
}

/// Whether the core block sends some vector other than zero to zero.
pub open spec fn core_is_singular(graph: Seq<SparseEntry>) -> bool {
    exists|x: Seq<u8>|
        x.len() == CORE_PARITY_COLS * ZC && x != super::gf2::zero_vector(
            (CORE_PARITY_COLS * ZC) as nat,
        ) && #[trigger] core_product(graph, x) == super::gf2::zero_vector(
            (CORE_PARITY_COLS * ZC) as nat,
        )
}

proof fn lemma_div_rem(q: int, j: int, z: int)
    requires
        0 <= q,
        0 <= j < z,
    ensures
        (q * z + j) / z == q,
        (q * z + j) % z == j,
{
    vstd::arithmetic::div_mod::lemma_fundamental_div_mod_converse(q * z + j, z, q, j);
}

/// A block of a lifted matrix times a vector.
pub fn lifted_block_matvec(
    entries: &[SparseEntry],
    z: usize,
    row_lo: usize,
    row_n: usize,
    col_lo: usize,
    col_n: usize,
    x: &[u8],
) -> (out: Vec<u8>)
    requires
        0 < z,
        2 * z <= usize::MAX,
        row_n * z <= usize::MAX,
        row_lo + row_n <= usize::MAX,
        col_lo + col_n <= usize::MAX,
        x@.len() == col_n * z,
        forall|k: int| 0 <= k < entries@.len() ==> (#[trigger] entries@[k]).shift < z,
    ensures
        out@ == block_product(
            entries@,
            z as int,
            row_lo as int,
            row_n as int,
            col_lo as int,
            col_n as int,
            x@,
        ),
{
    let total: usize = row_n * z;
    let xn: usize = x.len();
    let mut out: Vec<u8> = vec![0u8; total];
    let ghost (zi, rlo, rn, clo, cn) = (
        z as int,
        row_lo as int,
        row_n as int,
        col_lo as int,
        col_n as int,
    );
    assert(entries@.take(0) =~= Seq::empty());
    assert(out@ =~= block_product(entries@.take(0), zi, rlo, rn, clo, cn, x@));
    let mut j: usize = 0;
    while j < entries.len()
        invariant
            j <= entries@.len(),
            0 < z,
            2 * z <= usize::MAX,
            total == row_n * z,
            xn == x@.len(),
            xn == col_n * z,
            row_lo + row_n <= usize::MAX,
            col_lo + col_n <= usize::MAX,
            zi == z,
            rlo == row_lo,
            rn == row_n,
            clo == col_lo,
            cn == col_n,
            forall|k: int| 0 <= k < entries@.len() ==> (#[trigger] entries@[k]).shift < z,
            out@ == block_product(entries@.take(j as int), zi, rlo, rn, clo, cn, x@),
        decreases entries@.len() - j,
    {
        let e: SparseEntry = entries[j];
        let ghost before = out@;
        let ghost after = block_product(entries@.take(j + 1), zi, rlo, rn, clo, cn, x@);
        let inside: bool = row_lo <= e.base_row && e.base_row < row_lo + row_n && col_lo
            <= e.base_col && e.base_col < col_lo + col_n;
        if inside {
            let rr: usize = e.base_row - row_lo;
            let cc: usize = e.base_col - col_lo;
            proof {
                assert(rr * z + z <= total && cc * z + z <= xn) by (nonlinear_arith)
                    requires
                        rr + 1 <= row_n,
                        cc + 1 <= col_n,
                        total == row_n * z,
                        xn == col_n * z,
                ;
            }
            let mut i: usize = 0;
            while i < z
                invariant
                    i <= z,
                    0 < z,
            2 * z <= usize::MAX,
                    e.shift < z,
                    rr * z + z <= total,
                    cc * z + z <= xn,
                    0 <= rr * z,
                    0 <= cc * z,
                    xn == x@.len(),
                    total == before.len(),
                    out@.len() == total,
                    forall|k: int|
                        0 <= k < total ==> #[trigger] out@[k] == (if rr * z <= k < rr * z + i {
                            before[k] ^ x@[cc * z + (k - rr * z + e.shift) % (z as int)]
                        } else {
                            before[k]
                        }),
                decreases z - i,
            {
                let within: usize = (i + e.shift) % z;
                let old_bit: u8 = out[rr * z + i];
                out.set(rr * z + i, old_bit ^ x[cc * z + within]);
                i += 1;
            }
            proof {
                assert forall|k: int| 0 <= k < total implies #[trigger] out@[k] == after[k] by {
                    let r = rlo + k / zi;
                    super::lifted::lemma_row_sum_next(
                        entries@,
                        j as int,
                        zi,
                        clo,
                        clo + cn,
                        x@,
                        clo,
                        r,
                        k % zi,
                    );
                    vstd::arithmetic::div_mod::lemma_fundamental_div_mod(k, zi);
                    let q = k / zi;
                    assert(zi * q == q * zi) by (nonlinear_arith);
                    if rr * z <= k < rr * z + z {
                        lemma_div_rem(rr as int, k - rr * z, zi);
                    } else if q == rr {
                        assert(false);
                    }
                }
                assert(out@ =~= after);
            }
        } else {
            proof {
                assert forall|k: int| 0 <= k < total implies #[trigger] out@[k] == after[k] by {
                    super::lifted::lemma_row_sum_next(
                        entries@,
                        j as int,
                        zi,
                        clo,
                        clo + cn,
                        x@,
                        clo,
                        rlo + k / zi,
                        k % zi,
                    );
                    assert(0 <= k / zi < rn) by (nonlinear_arith)
                        requires
                            0 <= k < rn * zi,
                            zi > 0,
                    ;
                }
                assert(out@ =~= after);
            }
        }
        j += 1;
    }
    assert(entries@.take(j as int) =~= entries@);
    out
}

/// Whether every one of a matrix stands in a block that the entries list.
spec fn from_entries(m: Seq<Seq<bool>>, entries: Seq<SparseEntry>) -> bool {
    forall|a: int, b: int|
        0 <= a < CORE_PARITY_COLS * ZC && 0 <= b < CORE_PARITY_COLS * ZC && #[trigger] m[a][b]
            ==> has_entry(entries, a / ZC as int, KB + b / ZC as int)
}

/// Whether a matrix acts as the core block of the entries.
pub open spec fn acts_as_core(m: Seq<Seq<bool>>, entries: Seq<SparseEntry>) -> bool {
    forall|x: Seq<u8>|
        x.len() == CORE_PARITY_COLS * ZC ==> #[trigger] super::gf2::product(m, x) == core_product(
            entries,
            x,
        )
}

/// A row of the core block times a vector.
spec fn core_row(entries: Seq<SparseEntry>, x: Seq<u8>, a: int) -> u8 {
    super::lifted::row_sum(
        entries,
        ZC as int,
        KB as int,
        KB + CORE_PARITY_COLS,
        x,
        KB as int,
        a / ZC as int,
        a % ZC as int,
    )
}

/// The matrix with the ones of one more entry acts as the longer list.
proof fn lemma_core_entry(
    entries: Seq<SparseEntry>,
    j: int,
    before: Seq<Seq<bool>>,
    after: Seq<Seq<bool>>,
)
    requires
        is_base_graph(entries),
        0 <= j < entries.len(),
        entries[j].base_row < CORE_PARITY_COLS,
        KB <= entries[j].base_col < KB + CORE_PARITY_COLS,
        super::gf2::has_shape(
            before,
            (CORE_PARITY_COLS * ZC) as nat,
            (CORE_PARITY_COLS * ZC) as nat,
        ),
        after.len() == before.len(),
        from_entries(before, entries.take(j)),
        acts_as_core(before, entries.take(j)),
        forall|a: int|
            0 <= a < CORE_PARITY_COLS * ZC ==> #[trigger] after[a] == (if entries[j].base_row * ZC
                <= a < entries[j].base_row * ZC + ZC {
                before[a].update(
                    (entries[j].base_col - KB) * ZC + (a - entries[j].base_row * ZC
                        + entries[j].shift) % (ZC as int),
                    true,
                )
            } else {
                before[a]
            }),
    ensures
        from_entries(after, entries.take(j + 1)),
        acts_as_core(after, entries.take(j + 1)),
{
    let e = entries[j];
    let n = (CORE_PARITY_COLS * ZC) as nat;
    let short = entries.take(j);
    let long = entries.take(j + 1);
    assert(entry_fits(e));
    assert forall|a: int, b: int|
        0 <= a < n && 0 <= b < n && #[trigger] after[a][b] implies has_entry(
        long,
        a / ZC as int,
        KB + b / ZC as int,
    ) by {
        if before[a][b] {
            let k = choose|k: int|
                0 <= k < short.len() && (#[trigger] short[k]).base_row == a / ZC as int
                    && short[k].base_col == KB + b / ZC as int;
            assert(long[k] == short[k]);
        } else {
            assert(long[j] == e);
            assert(e.base_row * ZC <= a < e.base_row * ZC + ZC);
            assert(a / ZC as int == e.base_row);
            assert(b / ZC as int == e.base_col - KB);
        }
    }
    assert forall|x: Seq<u8>| x.len() == n implies #[trigger] super::gf2::product(after, x)
        == core_product(long, x) by {
        assert(super::gf2::product(before, x) == core_product(short, x));
        assert forall|a: int| 0 <= a < n implies super::gf2::product(after, x)[a] == core_product(
            long,
            x,
        )[a] by {
            super::lifted::lemma_row_sum_next(
                entries,
                j,
                ZC as int,
                KB as int,
                KB + CORE_PARITY_COLS,
                x,
                KB as int,
                a / ZC as int,
                a % ZC as int,
            );
            assert(core_product(long, x)[a] == core_row(long, x, a));
            assert(core_product(short, x)[a] == core_row(short, x, a));
            assert(super::gf2::product(before, x)[a] == core_row(short, x, a));
            assert(super::gf2::product(before, x)[a] == super::gf2::dot(before[a], x));
            assert(super::gf2::product(after, x)[a] == super::gf2::dot(after[a], x));
            if e.base_row * ZC <= a < e.base_row * ZC + ZC {
                let at = (e.base_col - KB) * ZC + (a - e.base_row * ZC + e.shift) % (ZC as int);
                assert(a / ZC as int == e.base_row);
                assert(at / ZC as int == e.base_col - KB);
                if before[a][at] {
                    let k = choose|k: int|
                        0 <= k < short.len() && (#[trigger] short[k]).base_row == e.base_row
                            && short[k].base_col == e.base_col;
                    assert(entries[k] == short[k]);
                    assert(false);
                }
                super::gf2::lemma_dot_set(before[a], at, x, n);
            } else {
                assert(a / ZC as int != e.base_row);
            }
        }
        assert(super::gf2::product(after, x) =~= core_product(long, x));
    }
}

/// The core block of a graph as a dense matrix.
pub fn build_core_matrix(graph: &BaseGraph) -> (m: Gf2Matrix)
    ensures
        m.well_formed(),
        m.row_count() == CORE_PARITY_COLS * ZC,
        m.col_count() == CORE_PARITY_COLS * ZC,
        acts_as_core(m@, graph@),
{
    let entries = graph.entries();
    let n: usize = CORE_PARITY_COLS * ZC;
    let mut m = Gf2Matrix::zeros(n, n);
    proof {
        let none = entries@.take(0);
        assert(none =~= Seq::empty());
        assert forall|x: Seq<u8>| x.len() == n implies #[trigger] super::gf2::product(m@, x)
            == core_product(none, x) by {
            assert forall|a: int| 0 <= a < n implies super::gf2::product(m@, x)[a] == core_product(
                none,
                x,
            )[a] by {
                super::gf2::lemma_dot_none(m@[a], x, n as nat);
            }
            assert(super::gf2::product(m@, x) =~= core_product(none, x));
        }
    }
    let mut j: usize = 0;
    while j < entries.len()
        invariant
            j <= entries@.len(),
            entries@ == graph@,
            is_base_graph(graph@),
            n == CORE_PARITY_COLS * ZC,
            m.well_formed(),
            m.row_count() == n,
            m.col_count() == n,
            from_entries(m@, entries@.take(j as int)),
            acts_as_core(m@, entries@.take(j as int)),
        decreases entries@.len() - j,
    {
        let e: SparseEntry = entries[j];
        assert(entry_fits(entries@[j as int]));
        proof {
            m.lemma_shape();
        }
        let ghost before = m@;
        if e.base_row < CORE_PARITY_COLS && KB <= e.base_col && e.base_col < KB
            + CORE_PARITY_COLS {
            let cc: usize = e.base_col - KB;
            let mut i: usize = 0;
            while i < ZC
                invariant
                    i <= ZC,
                    n == CORE_PARITY_COLS * ZC,
                    e.base_row < CORE_PARITY_COLS,
                    cc < CORE_PARITY_COLS,
                    e.shift < ZC,
                    m.well_formed(),
                    m.row_count() == n,
                    m.col_count() == n,
                    before.len() == n,
                    m@.len() == n,
                    forall|a: int|
                        0 <= a < n ==> #[trigger] m@[a] == (if e.base_row * ZC <= a < e.base_row
                            * ZC + i {
                            before[a].update(
                                cc * ZC + (a - e.base_row * ZC + e.shift) % (ZC as int),
                                true,
                            )
                        } else {
                            before[a]
                        }),
                decreases ZC - i,
            {
                m.set(e.base_row * ZC + i, cc * ZC + (i + e.shift) % ZC, true);
                i += 1;
            }
            proof {
                lemma_core_entry(entries@, j as int, before, m@);
            }
        } else {
            proof {
                lemma_core_skip(entries@, j as int, m@);
            }
        }
        j += 1;
    }
    assert(entries@.take(j as int) =~= entries@);
    m
}

/// An entry outside the core block changes nothing.
proof fn lemma_core_skip(entries: Seq<SparseEntry>, j: int, m: Seq<Seq<bool>>)
    requires
        0 <= j < entries.len(),
        !(entries[j].base_row < CORE_PARITY_COLS && KB <= entries[j].base_col < KB
            + CORE_PARITY_COLS),
        from_entries(m, entries.take(j)),
        acts_as_core(m, entries.take(j)),
    ensures
        from_entries(m, entries.take(j + 1)),
        acts_as_core(m, entries.take(j + 1)),
{
    let n = (CORE_PARITY_COLS * ZC) as nat;
    let short = entries.take(j);
    let long = entries.take(j + 1);
    assert forall|a: int, b: int|
        0 <= a < n && 0 <= b < n && #[trigger] m[a][b] implies has_entry(
        long,
        a / ZC as int,
        KB + b / ZC as int,
    ) by {
        let k = choose|k: int|
            0 <= k < short.len() && (#[trigger] short[k]).base_row == a / ZC as int
                && short[k].base_col == KB + b / ZC as int;
        assert(long[k] == short[k]);
    }
    assert forall|x: Seq<u8>| x.len() == n implies #[trigger] super::gf2::product(m, x)
        == core_product(long, x) by {
        assert forall|a: int| 0 <= a < n implies core_product(long, x)[a] == core_product(
            short,
            x,
        )[a] by {
            super::lifted::lemma_row_sum_next(
                entries,
                j,
                ZC as int,
                KB as int,
                KB + CORE_PARITY_COLS,
                x,
                KB as int,
                a / ZC as int,
                a % ZC as int,
            );
            assert(core_product(long, x)[a] == core_row(long, x, a));
            assert(core_product(short, x)[a] == core_row(short, x, a));
        }
        assert(core_product(long, x) =~= core_product(short, x));
    }
}

/// Whether a matrix undoes the core block.
spec fn undoes_core(inv: Seq<Seq<bool>>, graph: Seq<SparseEntry>) -> bool {
    forall|y: Seq<u8>|
        y.len() == CORE_PARITY_COLS * ZC ==> core_product(
            graph,
            #[trigger] super::gf2::product(inv, y),
        ) == y
}

/// A core block with an inverse sends nothing but zero to zero.
proof fn lemma_core_is_regular(
    graph: Seq<SparseEntry>,
    core: Seq<Seq<bool>>,
    inv: Seq<Seq<bool>>,
)
    requires
        super::gf2::has_shape(core, (CORE_PARITY_COLS * ZC) as nat, (CORE_PARITY_COLS * ZC) as nat),
        super::gf2::has_shape(inv, (CORE_PARITY_COLS * ZC) as nat, (CORE_PARITY_COLS * ZC) as nat),
        super::gf2::are_inverse(core, inv, (CORE_PARITY_COLS * ZC) as nat),
        acts_as_core(core, graph),
    ensures
        !core_is_singular(graph),
{
    let n = (CORE_PARITY_COLS * ZC) as nat;
    if core_is_singular(graph) {
        let x = choose|x: Seq<u8>|
            x.len() == n && x != super::gf2::zero_vector(n) && #[trigger] core_product(graph, x)
                == super::gf2::zero_vector(n);
        assert(super::gf2::product(core, x) == core_product(graph, x));
        super::gf2::law_singular_has_no_inverse(core, inv, n);
    }
}

/// Systematic encoder of the mother code. The inverse of the core block is
/// computed once.
#[derive(Debug)]
pub struct NrBg2Encoder {
    graph: BaseGraph,
    core_inv: Gf2Matrix,
}

/// An encoder is given by its graph.
impl View for NrBg2Encoder {
    type V = Seq<SparseEntry>;

    closed spec fn view(&self) -> Seq<SparseEntry> {
        self.graph@
    }
}

/// The sums that a row of the codeword `info + p_a + p_b` falls into.
proof fn lemma_row_parts(
    graph: Seq<SparseEntry>,
    info: Seq<u8>,
    p_a: Seq<u8>,
    p_b: Seq<u8>,
    r: int,
    i: int,
)
    requires
        is_base_graph(graph),
        info.len() == KB * ZC,
        p_a.len() == CORE_PARITY_COLS * ZC,
        p_b.len() == (BASE_ROWS - CORE_PARITY_COLS) * ZC,
        0 <= r < BASE_ROWS,
        0 <= i < ZC,
    ensures
        parity_check(graph, info + p_a + p_b, r, i) == (super::lifted::row_sum(
            graph,
            ZC as int,
            0,
            KB as int,
            info,
            0,
            r,
            i,
        ) ^ super::lifted::row_sum(
            graph,
            ZC as int,
            KB as int,
            KB + CORE_PARITY_COLS,
            p_a,
            KB as int,
            r,
            i,
        )) ^ (if r < CORE_PARITY_COLS {
            0u8
        } else {
            p_b[(r - CORE_PARITY_COLS) * ZC + i]
        }),
{
    let z = ZC as int;
    let word = info + p_a + p_b;
    super::lifted::lemma_row_sum_split(graph, z, 0, 10, 52, word, 0, r, i);
    super::lifted::lemma_row_sum_split(graph, z, 10, 14, 52, word, 0, r, i);
    assert forall|c: int, j: int| 0 <= c < 10 && 0 <= j < z implies #[trigger] super::lifted::element(
        word,
        0,
        z,
        c,
        j,
    ) == super::lifted::element(info, 0, z, c, j) by {}
    super::lifted::lemma_row_sum_agree(graph, z, 0, 10, word, 0, info, 0, r, i);
    assert forall|c: int, j: int|
        10 <= c < 14 && 0 <= j < z implies #[trigger] super::lifted::element(word, 0, z, c, j)
        == super::lifted::element(p_a, 10, z, c, j) by {}
    super::lifted::lemma_row_sum_agree(graph, z, 10, 14, word, 0, p_a, 10, r, i);
    let s1 = super::lifted::row_sum(graph, z, 0, 10, info, 0, r, i);
    let s2 = super::lifted::row_sum(graph, z, 10, 14, p_a, 10, r, i);
    let s3 = super::lifted::row_sum(graph, z, 14, 52, word, 0, r, i);
    if r < CORE_PARITY_COLS {
        assert forall|k: int| 0 <= k < graph.len() && (#[trigger] graph[k]).base_row == r implies !(
        14 <= graph[k].base_col < 52) by {
            assert(entry_fits(graph[k]));
        }
        super::lifted::lemma_row_sum_none(graph, z, 14, 52, word, 0, r, i);
    } else {
        assert(has_entry(graph, r, r + KB));
        let at = choose|k: int|
            0 <= k < graph.len() && (#[trigger] graph[k]).base_row == r && graph[k].base_col == r
                + KB;
        assert(entry_fits(graph[at]));
        assert forall|k: int|
            0 <= k < graph.len() && k != at && (#[trigger] graph[k]).base_row == r implies !(14
            <= graph[k].base_col < 52) by {
            assert(entry_fits(graph[k]));
        }
        super::lifted::lemma_row_sum_one(graph, at, z, 14, 52, word, 0, r, i);
        assert(s3 == p_b[(r - 4) * z + i]);
    }
    super::lifted::lemma_xor(s1, s2, s3);
}

/// Parity bits that solve the two steps make a codeword.
proof fn lemma_two_steps(
    graph: Seq<SparseEntry>,
    info: Seq<u8>,
    p_a: Seq<u8>,
    p_b: Seq<u8>,
    c1: Seq<u8>,
    c2: Seq<u8>,
)
    requires
        is_base_graph(graph),
        info.len() == KB * ZC,
        p_a.len() == CORE_PARITY_COLS * ZC,
        p_b.len() == (BASE_ROWS - CORE_PARITY_COLS) * ZC,
        core_product(graph, p_a) == block_product(graph, ZC as int, 0, 4, 0, KB as int, info),
        c1 == block_product(graph, ZC as int, 4, 38, 0, KB as int, info),
        c2 == block_product(graph, ZC as int, 4, 38, KB as int, 4, p_a),
        forall|k: int| 0 <= k < p_b.len() ==> #[trigger] p_b[k] == c1[k] ^ c2[k],
    ensures
        is_codeword(graph, info + p_a + p_b),
{
    assert forall|r: int, i: int| 0 <= r < BASE_ROWS && 0 <= i < ZC implies #[trigger] parity_check(
        graph,
        info + p_a + p_b,
        r,
        i,
    ) == 0 by {
        lemma_row_parts(graph, info, p_a, p_b, r, i);
        let s1 = super::lifted::row_sum(graph, ZC as int, 0, 10, info, 0, r, i);
        let s2 = super::lifted::row_sum(graph, ZC as int, 10, 14, p_a, 10, r, i);
        if r < 4 {
            let k = r * ZC + i;
            assert(k / ZC as int == r && k % ZC as int == i);
            assert(core_product(graph, p_a)[k] == s2);
            assert(block_product(graph, ZC as int, 0, 4, 0, KB as int, info)[k] == s1);
            super::lifted::lemma_xor(s1, s2, 0);
            super::lifted::lemma_xor(0, 0, 0);
        } else {
            let k = (r - 4) * ZC + i;
            assert(k / ZC as int == r - 4 && k % ZC as int == i);
            assert(c1[k] == s1);
            assert(c2[k] == s2);
            assert(p_b[k] == s1 ^ s2);
            super::lifted::lemma_xor(s1 ^ s2, s1 ^ s2, 0);
        }
    }
}

impl Clone for NrBg2Encoder {
    fn clone(&self) -> (r: Self)
        ensures
            r@ == self@,
    {
        proof {
            use_type_invariant(self);
        }
        NrBg2Encoder { graph: self.graph.clone(), core_inv: self.core_inv.copied() }
    }
}

impl NrBg2Encoder {
    #[verifier::type_invariant]
    spec fn well_formed(self) -> bool {
        &&& is_base_graph(self.graph@)
        &&& self.core_inv.well_formed()
        &&& self.core_inv.row_count() == CORE_PARITY_COLS * ZC
        &&& self.core_inv.col_count() == CORE_PARITY_COLS * ZC
        &&& undoes_core(self.core_inv@, self.graph@)
        &&& !core_is_singular(self.graph@)
    }

    /// An encoder for a graph, unless its core block is singular.
    pub fn new(graph: BaseGraph) -> (r: Option<Self>)
        ensures
            match r {
                Some(enc) => enc@ == graph@ && !core_is_singular(graph@),
                None => core_is_singular(graph@),
            },
    {
        let core = build_core_matrix(&graph);
        let entries = graph.entries();
        match core.invert() {
            Some(core_inv) => {
                proof {
                    core.lemma_shape();
                    core_inv.lemma_shape();
                    assert forall|y: Seq<u8>|
                        y.len() == CORE_PARITY_COLS * ZC implies core_product(
                        graph@,
                        #[trigger] super::gf2::product(core_inv@, y),
                    ) == y by {
                        let x = super::gf2::product(core_inv@, y);
                        assert(super::gf2::product(core@, x) == core_product(graph@, x));
                    }
                    lemma_core_is_regular(graph@, core@, core_inv@);
                }
                Some(NrBg2Encoder { graph, core_inv })
            },
            None => {
                proof {
                    let n = (CORE_PARITY_COLS * ZC) as nat;
                    let x = choose|x: Seq<u8>|
                        x.len() == n && x != super::gf2::zero_vector(n)
                            && #[trigger] super::gf2::product(core@, x) == super::gf2::zero_vector(
                            n,
                        );
                    assert(core_product(graph@, x) == super::gf2::zero_vector(n));
                }
                None
            },
        }
    }

    /// The graph.
    pub fn graph(&self) -> (g: &BaseGraph)
        ensures
            g@ == self@,
            is_base_graph(self@),
            !core_is_singular(self@),
    {
        proof {
            use_type_invariant(self);
        }
        &self.graph
    }

    /// The transmitted part of the codeword of `info`: the information bits
    /// that are not punctured, the core parity bits and the extension parity
    /// bits. The core block is regular, so there is no other.
    pub fn encode_mother(&self, info: &[u8]) -> (mother: Vec<u8>)
        requires
            info@.len() == KB * ZC,
        ensures
            encodes(self@, info@, mother@),
            forall|other: Seq<u8>| #[trigger]
                encodes(self@, info@, other) ==> other == mother@,
    {
        proof {
            use_type_invariant(self);
        }
        let entries = self.graph.entries();
        proof {
            assert forall|k: int| 0 <= k < entries@.len() implies (#[trigger] entries@[k]).shift
                < ZC by {
                assert(entry_fits(entries@[k]));
            }
        }
        let rhs_a: Vec<u8> = lifted_block_matvec(entries, ZC, 0, CORE_PARITY_COLS, 0, KB, info);
        let p_a: Vec<u8> = self.core_inv.mul_vec(rhs_a.as_slice());
        proof {
            self.core_inv.lemma_shape();
        }
        let ext_rows: usize = BASE_ROWS - CORE_PARITY_COLS;
        let c1: Vec<u8> = lifted_block_matvec(
            entries,
            ZC,
            CORE_PARITY_COLS,
            ext_rows,
            0,
            KB,
            info,
        );
        let c2: Vec<u8> = lifted_block_matvec(
            entries,
            ZC,
            CORE_PARITY_COLS,
            ext_rows,
            KB,
            CORE_PARITY_COLS,
            p_a.as_slice(),
        );
        let mut p_b: Vec<u8> = Vec::new();
        let mut k: usize = 0;
        while k < ext_rows * ZC
            invariant
                k <= ext_rows * ZC,
                ext_rows == 38,
                c1@.len() == ext_rows * ZC,
                c2@.len() == ext_rows * ZC,
                p_b@.len() == k,
                forall|q: int| 0 <= q < k ==> #[trigger] p_b@[q] == c1@[q] ^ c2@[q],
            decreases ext_rows * ZC - k,
        {
            p_b.push(c1[k] ^ c2[k]);
            k += 1;
        }
        proof {
            lemma_two_steps(self.graph@, info@, p_a@, p_b@, c1@, c2@);
        }
        let mut mother: Vec<u8> = vstd::slice::slice_to_vec(
            vstd::slice::slice_subrange(info, PUNCTURED_INFO_COLS * ZC, info.len()),
        );
        mother.extend_from_slice(p_a.as_slice());
        mother.extend_from_slice(p_b.as_slice());
        proof {
            let cut = PUNCTURED_INFO_COLS * ZC;
            assert(info@.take(cut) + mother@ =~= info@ + p_a@ + p_b@);
            assert(mother@.take((KB - PUNCTURED_INFO_COLS) * ZC) =~= info@.skip(cut));
            assert forall|other: Seq<u8>| #[trigger] encodes(self@, info@, other) implies other
                == mother@ by {
                law_codeword_is_unique(self@, info@, other, mother@);
            }
        }
        mother
    }
}

/// With a regular core block the information bits fix the codeword.
pub proof fn law_codeword_is_unique(
    graph: Seq<SparseEntry>,
    info: Seq<u8>,
    x: Seq<u8>,
    y: Seq<u8>,
)
    requires
        is_base_graph(graph),
        !core_is_singular(graph),
        info.len() == KB * ZC,
        encodes(graph, info, x),
        encodes(graph, info, y),
    ensures
        x == y,
{
    let z = ZC as int;
    let n = (CORE_PARITY_COLS * ZC) as nat;
    let cut = PUNCTURED_INFO_COLS * ZC;
    let head = (KB - PUNCTURED_INFO_COLS) * ZC;
    let (xa, xb) = (x.subrange(head, head + n), x.skip(head + n));
    let (ya, yb) = (y.subrange(head, head + n), y.skip(head + n));
    assert(x.take(head) + xa + xb =~= x);
    assert(y.take(head) + ya + yb =~= y);
    assert(info.take(cut) + x =~= info + xa + xb) by {
        assert(info.take(cut) + info.skip(cut) =~= info);
    }
    assert(info.take(cut) + y =~= info + ya + yb) by {
        assert(info.take(cut) + info.skip(cut) =~= info);
    }
    let d = super::lifted::xor_of(xa, ya);
    let zero = super::gf2::zero_vector(n);
    assert forall|k: int| 0 <= k < n implies core_product(graph, d)[k] == zero[k] by {
        let r = k / z;
        let i = k % z;
        lemma_row_parts(graph, info, xa, xb, r, i);
        lemma_row_parts(graph, info, ya, yb, r, i);
        assert(parity_check(graph, info + xa + xb, r, i) == 0);
        assert(parity_check(graph, info + ya + yb, r, i) == 0);
        let s = super::lifted::row_sum(graph, z, 0, 10, info, 0, r, i);
        let u = super::lifted::row_sum(graph, z, 10, 14, xa, 10, r, i);
        let v = super::lifted::row_sum(graph, z, 10, 14, ya, 10, r, i);
        super::lifted::lemma_xor(s ^ u, 0, 0);
        super::lifted::lemma_xor(s ^ v, 0, 0);
        super::lifted::lemma_xor(s, u, 0);
        super::lifted::lemma_xor(s, v, 0);
        super::lifted::lemma_xor(u, v, 0);
        super::lifted::lemma_row_sum_xor(graph, z, 10, 14, xa, ya, 10, r, i);
    }
    assert(core_product(graph, d) =~= zero);
    assert(d == zero);
    assert forall|k: int| 0 <= k < n implies xa[k] == ya[k] by {
        assert(d[k] == zero[k]);
        super::lifted::lemma_xor(xa[k], ya[k], 0);
    }
    assert(xa =~= ya);
    assert forall|k: int| 0 <= k < xb.len() implies xb[k] == yb[k] by {
        let r = 4 + k / z;
        let i = k % z;
        lemma_row_parts(graph, info, xa, xb, r, i);
        lemma_row_parts(graph, info, ya, yb, r, i);
        assert(parity_check(graph, info + xa + xb, r, i) == 0);
        assert(parity_check(graph, info + ya + yb, r, i) == 0);
        let s = super::lifted::row_sum(graph, z, 0, 10, info, 0, r, i);
        let u = super::lifted::row_sum(graph, z, 10, 14, xa, 10, r, i);
        super::lifted::lemma_xor(s ^ u, xb[k], 0);
        super::lifted::lemma_xor(s ^ u, yb[k], 0);
    }
    assert(xb =~= yb);
}

/// The code is linear: the XOR of two blocks of information bits has the XOR of
/// their mother codewords as its mother codeword.
pub proof fn law_encoding_is_linear(
    graph: Seq<SparseEntry>,
    info_x: Seq<u8>,
    info_y: Seq<u8>,
    x: Seq<u8>,
    y: Seq<u8>,
)
    requires
        info_x.len() == KB * ZC,
        info_y.len() == KB * ZC,
        encodes(graph, info_x, x),
        encodes(graph, info_y, y),
    ensures
        encodes(graph, super::lifted::xor_of(info_x, info_y), super::lifted::xor_of(x, y)),
{
    let cut = PUNCTURED_INFO_COLS * ZC;
    let head = (KB - PUNCTURED_INFO_COLS) * ZC;
    let info = super::lifted::xor_of(info_x, info_y);
    let mother = super::lifted::xor_of(x, y);
    let wx = info_x.take(cut) + x;
    let wy = info_y.take(cut) + y;
    assert forall|k: int| 0 <= k < head implies mother.take(head)[k] == info.skip(cut)[k] by {
        assert(x.take(head)[k] == info_x.skip(cut)[k]);
        assert(y.take(head)[k] == info_y.skip(cut)[k]);
    }
    assert(mother.take(head) =~= info.skip(cut));
    assert(info.take(cut) + mother =~= super::lifted::xor_of(wx, wy));
    assert forall|r: int, i: int| 0 <= r < BASE_ROWS && 0 <= i < ZC implies #[trigger] parity_check(
        graph,
        info.take(cut) + mother,
        r,
        i,
    ) == 0 by {
        super::lifted::lemma_row_sum_xor(
            graph,
            ZC as int,
            0,
            BASE_COLS as int,
            wx,
            wy,
            0,
            r,
            i,
        );
        assert(parity_check(graph, wx, r, i) == 0);
        assert(parity_check(graph, wy, r, i) == 0);
        super::lifted::lemma_xor(0, 0, 0);
    }
}

/// Information bits that are all zero have a mother codeword of zeros.
pub proof fn law_zero_codeword(graph: Seq<SparseEntry>)
    ensures
        encodes(
            graph,
            super::gf2::zero_vector((KB * ZC) as nat),
            super::gf2::zero_vector(((BASE_COLS - PUNCTURED_INFO_COLS) * ZC) as nat),
        ),
{
    let info = super::gf2::zero_vector((KB * ZC) as nat);
    let mother = super::gf2::zero_vector(((BASE_COLS - PUNCTURED_INFO_COLS) * ZC) as nat);
    let cut = PUNCTURED_INFO_COLS * ZC;
    let word = info.take(cut) + mother;
    assert(mother.take((KB - PUNCTURED_INFO_COLS) * ZC) =~= info.skip(cut));
    assert forall|r: int, i: int| 0 <= r < BASE_ROWS && 0 <= i < ZC implies #[trigger] parity_check(
        graph,
        word,
        r,
        i,
    ) == 0 by {
        super::lifted::lemma_row_sum_zero(
            graph,
            ZC as int,
            0,
            BASE_COLS as int,
            word,
            0,
            r,
            i,
        );
    }
}

/// What a parity check makes of a word with a single one, bit `j` of column `c`:
/// it fails exactly when the graph has an entry in the check's row and that
/// column whose shift takes the check to that bit.
pub proof fn law_check_of_one_bit(graph: Seq<SparseEntry>, r: int, i: int, c: int, j: int)
    requires
        is_base_graph(graph),
        0 <= r < 42,
        0 <= i < 176,
        0 <= c < 52,
        0 <= j < 176,
    ensures
        parity_check(
            graph,
            Seq::new(
                9152,
                |q: int|
                    if q == c * 176 + j {
                        1u8
                    } else {
                        0u8
                    },
            ),
            r,
            i,
        ) == (if exists|k: int|
            0 <= k < graph.len() && (#[trigger] graph[k]).base_row == r && graph[k].base_col == c
                && (i + graph[k].shift) % 176 == j {
            1u8
        } else {
            0u8
        }),
{
    assert forall|k: int, l: int|
        0 <= k < graph.len() && 0 <= l < graph.len() && k != l implies (
    #[trigger] graph[k]).base_row != (#[trigger] graph[l]).base_row || graph[k].base_col
        != graph[l].base_col by {
        if k > l {
            assert(graph[l].base_row != graph[k].base_row || graph[l].base_col
                != graph[k].base_col);
        }
    }
    super::lifted::law_row_of_unit_vector(graph, 176, 52, r, i, c, j);
}

/// Parity checks are linear: a check of the XOR of two words gives the XOR of
/// what it gives on each.
pub proof fn law_checks_are_linear(
    graph: Seq<SparseEntry>,
    x: Seq<u8>,
    y: Seq<u8>,
    r: int,
    i: int,
)
    requires
        x.len() == 9152,
        y.len() == 9152,
    ensures
        parity_check(graph, Seq::new(9152, |k: int| x[k] ^ y[k]), r, i) == parity_check(
            graph,
            x,
            r,
            i,
        ) ^ parity_check(graph, y, r, i),
{
    super::lifted::lemma_row_sum_xor(graph, ZC as int, 0, BASE_COLS as int, x, y, 0, r, i);
    assert(super::lifted::xor_of(x, y) =~= Seq::new(9152, |k: int| x[k] ^ y[k]));
}

/// What the transmitted part of a codeword is: 8800 bits that start with the
/// information bits from the 353rd on, and that, behind the first 352 of them,
/// make every check of every row come out even.
pub proof fn law_mother_codeword(graph: Seq<SparseEntry>, info: Seq<u8>, mother: Seq<u8>)
    requires
        info.len() == 1760,
    ensures
        encodes(graph, info, mother) <==> {
            &&& mother.len() == 8800
            &&& forall|q: int| 0 <= q < 1408 ==> #[trigger] mother[q] == info[352 + q]
            &&& forall|r: int, i: int|
                0 <= r < 42 && 0 <= i < 176 ==> #[trigger] parity_check(
                    graph,
                    info.take(352) + mother,
                    r,
                    i,
                ) == 0
        },
{
    if mother.len() == 8800 {
        if mother.take(1408) == info.skip(352) {
            assert forall|q: int| 0 <= q < 1408 implies #[trigger] mother[q] == info[352 + q] by {
                assert(mother.take(1408)[q] == info.skip(352)[q]);
            }
        }
        if forall|q: int| 0 <= q < 1408 ==> #[trigger] mother[q] == info[352 + q] {
            assert(mother.take(1408) =~= info.skip(352));
        }
    }
}

/// The form of a base graph: 42 rows, 52 columns and shifts below 176; no place
/// with two entries; and from the fifteenth column on just one unshifted entry
/// in each row from the fifth on, ten columns to the right of its row.
pub proof fn law_base_graph_form(entries: Seq<SparseEntry>)
    ensures
        is_base_graph(entries) <==> {
            &&& forall|k: int|
                0 <= k < entries.len() ==> (#[trigger] entries[k]).base_row < 42
                    && entries[k].base_col < 52 && entries[k].shift < 176
            &&& forall|k: int|
                0 <= k < entries.len() && (#[trigger] entries[k]).base_col >= 14
                    ==> entries[k].base_row >= 4 && entries[k].base_col == entries[k].base_row + 10
                    && entries[k].shift == 0
            &&& forall|j: int, k: int|
                0 <= j < k < entries.len() ==> (#[trigger] entries[j]).base_row != (
                #[trigger] entries[k]).base_row || entries[j].base_col != entries[k].base_col
            &&& forall|r: int| 4 <= r < 42 ==> #[trigger] has_entry(entries, r, r + 10)
        },
        forall|r: int, c: int| #[trigger]
            has_entry(entries, r, c) <==> exists|k: int|
                0 <= k < entries.len() && (#[trigger] entries[k]).base_row == r
                    && entries[k].base_col == c,
{
    if is_base_graph(entries) {
        assert forall|k: int| 0 <= k < entries.len() implies (#[trigger] entries[k]).base_row < 42
            && entries[k].base_col < 52 && entries[k].shift < 176 && (entries[k].base_col >= 14
            ==> entries[k].base_row >= 4 && entries[k].base_col == entries[k].base_row + 10
            && entries[k].shift == 0) by {
            assert(entry_fits(entries[k]));
        }
        assert forall|r: int| 4 <= r < 42 implies #[trigger] has_entry(entries, r, r + 10) by {
            assert(has_entry(entries, r, r + KB));
        }
    }
}

/// What a block of the lifted matrix makes of a vector with a single one,
/// element `j` of its column `c`: in row `i` of its row `r` a one exactly when an
/// entry stands there whose shift and `i` come to `j`, around the block.
pub proof fn law_block_of_single_bit(
    entries: Seq<SparseEntry>,
    z: int,
    row_lo: int,
    row_n: int,
    col_lo: int,
    col_n: int,
    r: int,
    i: int,
    c: int,
    j: int,
)
    requires
        z > 0,
        0 <= row_lo,
        0 <= col_lo,
        0 <= r < row_n,
        0 <= i < z,
        0 <= c < col_n,
        0 <= j < z,
        forall|k: int, l: int|
            0 <= k < entries.len() && 0 <= l < entries.len() && k != l
                ==> (#[trigger] entries[k]).base_row != (#[trigger] entries[l]).base_row
                || entries[k].base_col != entries[l].base_col,
    ensures
        block_product(
            entries,
            z,
            row_lo,
            row_n,
            col_lo,
            col_n,
            Seq::new(
                (col_n * z) as nat,
                |q: int|
                    if q == c * z + j {
                        1u8
                    } else {
                        0u8
                    },
            ),
        )[r * z + i] == (if exists|k: int|
            0 <= k < entries.len() && (#[trigger] entries[k]).base_row == row_lo + r
                && entries[k].base_col == col_lo + c && (i + entries[k].shift) % z == j {
            1u8
        } else {
            0u8
        }),
{
    let x = Seq::new(
        (col_n * z) as nat,
        |q: int|
            if q == c * z + j {
                1u8
            } else {
                0u8
            },
    );
    let hi = col_lo + col_n;
    let d = col_lo + c;
    let y = Seq::new(
        (hi * z) as nat,
        |q: int|
            if q == d * z + j {
                1u8
            } else {
                0u8
            },
    );
    assert(0 <= r * z + i < row_n * z) by (nonlinear_arith)
        requires
            0 <= i < z,
            0 <= r < row_n,
    ;
    lemma_div_rem(r, i, z);
    super::lifted::law_row_of_unit_vector(entries, z, hi, row_lo + r, i, d, j);
    super::lifted::lemma_row_sum_split(entries, z, 0, col_lo, hi, y, 0, row_lo + r, i);
    assert forall|e: int, k: int|
        0 <= e < col_lo && 0 <= k < z implies #[trigger] super::lifted::element(y, 0, z, e, k)
        == 0 by {
        lemma_shifted_block(z, e, k, 0, hi, d, j);
    }
    super::lifted::lemma_row_sum_zero(entries, z, 0, col_lo, y, 0, row_lo + r, i);
    assert forall|e: int, k: int|
        col_lo <= e < hi && 0 <= k < z implies #[trigger] super::lifted::element(
        x,
        col_lo,
        z,
        e,
        k,
    ) == super::lifted::element(y, 0, z, e, k) by {
        lemma_shifted_block(z, e, k, 0, hi, d, j);
        lemma_shifted_block(z, e, k, col_lo, hi, d, j);
    }
    super::lifted::lemma_row_sum_agree(entries, z, col_lo, hi, x, col_lo, y, 0, row_lo + r, i);
    super::lifted::lemma_xor(
        super::lifted::row_sum(entries, z, col_lo, hi, y, 0, row_lo + r, i),
        0,
        0,
    );
}

/// Places of a vector whose first block belongs to column `base`.
proof fn lemma_shifted_block(z: int, e: int, k: int, base: int, hi: int, d: int, j: int)
    requires
        0 <= k < z,
        0 <= j < z,
        base <= e < hi,
        base <= d < hi,
    ensures
        0 <= (e - base) * z + k < (hi - base) * z,
        ((e - base) * z + k == (d - base) * z + j) == (e == d && k == j),
{
    let a = e - base;
    let b = d - base;
    let n = hi - base;
    assert(0 <= a * z + k < n * z) by (nonlinear_arith)
        requires
            0 <= k < z,
            0 <= a < n,
    ;
    if a * z + k == b * z + j {
        assert(a == b) by (nonlinear_arith)
            requires
                a * z + k == b * z + j,
                0 <= j < z,
                0 <= k < z,
        ;
    }
}

} // verus!
