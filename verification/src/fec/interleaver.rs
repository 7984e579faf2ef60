//! Block and frequency interleavers.
//!
//! The block interleaver writes data row by row into a matrix and reads it
//! column by column. The frequency interleaver applies a pseudorandom
//! permutation of subcarriers. Both spread neighbouring symbols apart, so that
//! a burst of errors reaches the decoder as scattered errors.
use vstd::prelude::*;

verus! {

/// Why an interleaver refuses its input.
#[derive(Debug, Clone, Copy, PartialEq, Eq, Structural)]
pub enum InterleaverError {
    /// A matrix dimension is zero.
    ZeroDimension { rows: usize, cols: usize },
    /// There are no carriers.
    NoCarriers,
    /// The data does not fill the interleaver exactly.
    LengthMismatch { len: usize, capacity: usize },
}

/// Block interleaver: write rows, read columns.
#[derive(Debug)]
pub struct BlockInterleaver {
    rows: usize,
    cols: usize,
}

impl Clone for BlockInterleaver {
    fn clone(&self) -> (r: Self)
        ensures
            r == *self,
    {
        proof {
            use_type_invariant(self);
        }
        BlockInterleaver { rows: self.rows, cols: self.cols }
    }
}

/// Data read column by column from a matrix that it fills row by row.
pub open spec fn columns_of<T>(data: Seq<T>, rows: nat, cols: nat) -> Seq<T> {
    Seq::new(
        rows * cols,
        |k: int| data[(k % rows as int) * cols + k / rows as int],
    )
}

/// Data cut to `n` elements or filled up with zeros.
pub open spec fn fitted(data: Seq<u8>, n: nat) -> Seq<u8> {
    Seq::new(
        n,
        |i: int|
            if i < data.len() {
                data[i]
            } else {
                0u8
            },
    )
}

proof fn lemma_matrix_index(r: int, c: int, rows: int, cols: int)
    requires
        0 <= r < rows,
        0 <= c < cols,
    ensures
        0 <= r * cols + c < rows * cols,
        0 <= c * rows + r < rows * cols,
        (r * cols + c) / cols == r,
        (r * cols + c) % cols == c,
        (c * rows + r) / rows == c,
        (c * rows + r) % rows == r,
{
    assert(0 <= r * cols + c < rows * cols) by (nonlinear_arith)
        requires
            0 <= r < rows,
            0 <= c < cols,
    ;
    assert(0 <= c * rows + r < rows * cols) by (nonlinear_arith)
        requires
            0 <= r < rows,
            0 <= c < cols,
    ;
    vstd::arithmetic::div_mod::lemma_fundamental_div_mod_converse(r * cols + c, cols, r, c);
    vstd::arithmetic::div_mod::lemma_fundamental_div_mod_converse(c * rows + r, rows, c, r);
}

/// A place in a matrix and its row and column.
proof fn lemma_place(k: int, rows: int, cols: int)
    requires
        rows > 0,
        cols > 0,
        0 <= k < rows * cols,
    ensures
        0 <= k % cols < cols,
        0 <= k / cols < rows,
        k == (k / cols) * cols + k % cols,
{
    vstd::arithmetic::div_mod::lemma_fundamental_div_mod(k, cols);
    vstd::arithmetic::mul::lemma_mul_is_commutative(cols, k / cols);
    vstd::arithmetic::div_mod::lemma_mod_bound(k, cols);
    let q = k / cols;
    assert(0 <= q < rows) by (nonlinear_arith)
        requires
            0 <= k < rows * cols,
            k == q * cols + k % cols,
            0 <= k % cols < cols,
            cols > 0,
    ;
}

/// Reading columns and then rows gives the data back.
pub proof fn law_columns_then_rows<T>(data: Seq<T>, rows: nat, cols: nat)
    requires
        rows > 0,
        cols > 0,
        data.len() == rows * cols,
    ensures
        columns_of(columns_of(data, rows, cols), cols, rows) == data,
{
    let mid = columns_of(data, rows, cols);
    let back = columns_of(mid, cols, rows);
    vstd::arithmetic::mul::lemma_mul_is_commutative(rows as int, cols as int);
    assert forall|k: int| 0 <= k < data.len() implies back[k] == data[k] by {
        lemma_place(k, rows as int, cols as int);
        let r = k / cols as int;
        let c = k % cols as int;
        lemma_matrix_index(r, c, rows as int, cols as int);
        assert(back[k] == mid[c * rows + r]);
    }
    assert(back =~= data);
}

/// Numbers less than `rows` apart leave different remainders.
proof fn lemma_remainders_differ(k1: int, k2: int, rows: nat)
    requires
        rows > 0,
        0 <= k1 < k2 < k1 + rows,
    ensures
        k1 % (rows as int) != k2 % (rows as int),
{
    let n = rows as int;
    vstd::arithmetic::div_mod::lemma_fundamental_div_mod(k1, n);
    vstd::arithmetic::div_mod::lemma_fundamental_div_mod(k2, n);
    if k1 % n == k2 % n {
        let d = k2 / n - k1 / n;
        assert(k2 - k1 == n * d) by (nonlinear_arith)
            requires
                k1 == n * (k1 / n) + k1 % n,
                k2 == n * (k2 / n) + k2 % n,
                k1 % n == k2 % n,
                d == k2 / n - k1 / n,
        ;
        assert(false) by (nonlinear_arith)
            requires
                0 < n * d < n,
        ;
    }
}

/// A burst is spread: where two interleaved streams differ only within `rows`
/// neighbouring places, what is deinterleaved from them differs at most once in
/// every row of the matrix.
pub proof fn law_burst_is_spread<T>(
    sent: Seq<T>,
    got: Seq<T>,
    rows: nat,
    cols: nat,
    from: int,
    i: int,
    j: int,
)
    requires
        rows > 0,
        cols > 0,
        sent.len() == rows * cols,
        got.len() == rows * cols,
        forall|k: int|
            0 <= k < rows * cols && !(from <= k < from + rows) ==> #[trigger] sent[k] == got[k],
        0 <= i < j < rows * cols,
        columns_of(sent, cols, rows)[i] != columns_of(got, cols, rows)[i],
        columns_of(sent, cols, rows)[j] != columns_of(got, cols, rows)[j],
    ensures
        i / (cols as int) != j / (cols as int),
{
    let n = rows as int;
    let m = cols as int;
    vstd::arithmetic::mul::lemma_mul_is_commutative(n, m);
    lemma_place(i, n, m);
    lemma_place(j, n, m);
    lemma_matrix_index(i / m, i % m, n, m);
    lemma_matrix_index(j / m, j % m, n, m);
    let p = (i % m) * n + i / m;
    let q = (j % m) * n + j / m;
    assert(columns_of(sent, cols, rows)[i] == sent[p]);
    assert(columns_of(got, cols, rows)[i] == got[p]);
    assert(columns_of(sent, cols, rows)[j] == sent[q]);
    assert(columns_of(got, cols, rows)[j] == got[q]);
    if i / m == j / m {
        if p < q {
            lemma_remainders_differ(p, q, rows);
        } else if q < p {
            lemma_remainders_differ(q, p, rows);
        }
        assert(p / n == q / n);
    }
}

impl BlockInterleaver {
    /// Number of rows.
    pub closed spec fn row_count(&self) -> nat {
        self.rows as nat
    }

    /// Number of columns.
    pub closed spec fn col_count(&self) -> nat {
        self.cols as nat
    }

    /// Both dimensions are positive.
    #[verifier::type_invariant]
    spec fn wf(self) -> bool {
        self.rows > 0 && self.cols > 0
    }

    /// Whether the number of cells can be counted.
    pub open spec fn countable(&self) -> bool {
        self.row_count() * self.col_count() <= usize::MAX
    }

    /// Create a block interleaver with the given dimensions.
    pub fn new(rows: usize, cols: usize) -> (r: Result<Self, InterleaverError>)
        ensures
            match r {
                Ok(b) => rows > 0 && cols > 0 && b.row_count() == rows && b.col_count() == cols,
                Err(e) => (rows == 0 || cols == 0) && e == (InterleaverError::ZeroDimension {
                    rows,
                    cols,
                }),
            },
    {
        if rows == 0 || cols == 0 {
            return Err(InterleaverError::ZeroDimension { rows, cols });
        }
        Ok(BlockInterleaver { rows, cols })
    }

    /// Total capacity of the interleaver matrix.
    pub fn capacity(&self) -> (n: usize)
        requires
            self.countable(),
        ensures
            n == self.row_count() * self.col_count(),
    {
        self.rows * self.cols
    }

    /// Number of rows (interleaving depth).
    pub fn rows(&self) -> (n: usize)
        ensures
            n == self.row_count(),
            n > 0,
    {
        proof {
            use_type_invariant(self);
        }
        self.rows
    }

    /// Number of columns.
    pub fn cols(&self) -> (n: usize)
        ensures
            n == self.col_count(),
            n > 0,
    {
        proof {
            use_type_invariant(self);
        }
        self.cols
    }

    /// Interleave: write rows, read columns. The data must fill the matrix.
    pub fn interleave(&self, data: &[u8]) -> (r: Result<Vec<u8>, InterleaverError>)
        requires
            self.countable(),
        ensures
            match r {
                Ok(out) => data@.len() == self.row_count() * self.col_count() && out@
                    == columns_of(data@, self.row_count(), self.col_count()),
                Err(e) => data@.len() != self.row_count() * self.col_count() && e == (
                InterleaverError::LengthMismatch {
                    len: data.len(),
                    capacity: (self.row_count() * self.col_count()) as usize,
                }),
            },
    {
        self.interleave_soft(data)
    }

    /// Deinterleave: write columns, read rows.
    pub fn deinterleave(&self, data: &[u8]) -> (r: Result<Vec<u8>, InterleaverError>)
        requires
            self.countable(),
        ensures
            match r {
                Ok(out) => data@.len() == self.row_count() * self.col_count() && out@
                    == columns_of(data@, self.col_count(), self.row_count()),
                Err(e) => data@.len() != self.row_count() * self.col_count() && e == (
                InterleaverError::LengthMismatch {
                    len: data.len(),
                    capacity: (self.row_count() * self.col_count()) as usize,
                }),
            },
    {
        self.deinterleave_soft(data)
    }

    /// Interleave data of any length: it is cut or filled up with zeros to fill
    /// the matrix.
    pub fn interleave_padded(&self, data: &[u8]) -> (out: Vec<u8>)
        requires
            self.countable(),
        ensures
            out@ == columns_of(
                fitted(data@, self.row_count() * self.col_count()),
                self.row_count(),
                self.col_count(),
            ),
    {
        proof {
            use_type_invariant(self);
        }
        let cap: usize = self.capacity();
        let mut padded = vstd::slice::slice_to_vec(data);
        padded.resize(cap, 0);
        assert(padded@ =~= fitted(data@, cap as nat)) by {
            if cap > data@.len() {
                assert forall|i: int| 0 <= i < data@.len() implies padded@[i] == data@[i] by {
                    assert(padded@.subrange(0, data@.len() as int)[i] == padded@[i]);
                }
            }
        }
        read_columns(padded.as_slice(), self.rows, self.cols)
    }

    /// Deinterleave and cut to the original length.
    pub fn deinterleave_truncated(&self, data: &[u8], original_len: usize) -> (r: Result<
        Vec<u8>,
        InterleaverError,
    >)
        requires
            self.countable(),
        ensures
            match r {
                Ok(out) => data@.len() == self.row_count() * self.col_count() && out@ == ({
                    let rows = columns_of(data@, self.col_count(), self.row_count());
                    if original_len < rows.len() {
                        rows.take(original_len as int)
                    } else {
                        rows
                    }
                }),
                Err(e) => data@.len() != self.row_count() * self.col_count() && e == (
                InterleaverError::LengthMismatch {
                    len: data.len(),
                    capacity: (self.row_count() * self.col_count()) as usize,
                }),
            },
    {
        match self.deinterleave(data) {
            Ok(full) => {
                let mut out = full;
                out.truncate(original_len);
                Ok(out)
            },
            Err(e) => Err(e),
        }
    }

    /// Interleave soft symbols, or any other values.
    pub fn interleave_soft<T: Copy>(&self, data: &[T]) -> (r: Result<Vec<T>, InterleaverError>)
        requires
            self.countable(),
        ensures
            match r {
                Ok(out) => data@.len() == self.row_count() * self.col_count() && out@
                    == columns_of(data@, self.row_count(), self.col_count()),
                Err(e) => data@.len() != self.row_count() * self.col_count() && e == (
                InterleaverError::LengthMismatch {
                    len: data.len(),
                    capacity: (self.row_count() * self.col_count()) as usize,
                }),
            },
    {
        proof {
            use_type_invariant(self);
        }
        let capacity: usize = self.capacity();
        if data.len() != capacity {
            return Err(InterleaverError::LengthMismatch { len: data.len(), capacity });
        }
        Ok(read_columns(data, self.rows, self.cols))
    }

    /// Deinterleave soft symbols, or any other values.
    pub fn deinterleave_soft<T: Copy>(&self, data: &[T]) -> (r: Result<Vec<T>, InterleaverError>)
        requires
            self.countable(),
        ensures
            match r {
                Ok(out) => data@.len() == self.row_count() * self.col_count() && out@
                    == columns_of(data@, self.col_count(), self.row_count()),
                Err(e) => data@.len() != self.row_count() * self.col_count() && e == (
                InterleaverError::LengthMismatch {
                    len: data.len(),
                    capacity: (self.row_count() * self.col_count()) as usize,
                }),
            },
    {
        proof {
            use_type_invariant(self);
        }
        let capacity: usize = self.capacity();
        if data.len() != capacity {
            return Err(InterleaverError::LengthMismatch { len: data.len(), capacity });
        }
        proof {
            vstd::arithmetic::mul::lemma_mul_is_commutative(self.rows as int, self.cols as int);
        }
        Ok(read_columns(data, self.cols, self.rows))
    }
}

/// Read a row-by-row matrix column by column.
fn read_columns<T: Copy>(data: &[T], rows: usize, cols: usize) -> (out: Vec<T>)
    requires
        rows > 0,
        cols > 0,
        data@.len() == rows * cols,
    ensures
        out@ == columns_of(data@, rows as nat, cols as nat),
{
    let mut out: Vec<T> = Vec::new();
    let mut col: usize = 0;
    let ghost expected = columns_of(data@, rows as nat, cols as nat);
    let n: usize = data.len();
    assert(0 * rows == 0) by (nonlinear_arith);
    while col < cols
        invariant
            col <= cols,
            rows > 0,
            n == rows * cols,
            n == data@.len(),
            expected == columns_of(data@, rows as nat, cols as nat),
            out@.len() == col * rows,
            out@ =~= expected.take(col * rows),
        decreases cols - col,
    {
        let mut row: usize = 0;
        proof {
            lemma_matrix_index(rows - 1, col as int, rows as int, cols as int);
        }
        while row < rows
            invariant
                row <= rows,
                col < cols,
                rows > 0,
                n == rows * cols,
                n == data@.len(),
                col * rows + rows <= n,
                expected == columns_of(data@, rows as nat, cols as nat),
                out@.len() == col * rows + row,
                out@ =~= expected.take(col * rows + row),
            decreases rows - row,
        {
            proof {
                lemma_matrix_index(row as int, col as int, rows as int, cols as int);
                assert(row * cols <= n) by (nonlinear_arith)
                    requires
                        row < rows,
                        n == rows * cols,
                ;
            }
            let v: T = data[row * cols + col];
            out.push(v);
            assert(expected[col * rows + row] == v);
            row += 1;
        }
        assert((col + 1) * rows == col * rows + rows) by (nonlinear_arith);
        col += 1;
    }
    proof {
        vstd::arithmetic::mul::lemma_mul_is_commutative(rows as int, cols as int);
        assert(expected.take(n as int) =~= expected);
    }
    out
}

/// Data that fits survives padding, interleaving, deinterleaving and cutting.
pub proof fn law_padded_roundtrip(data: Seq<u8>, rows: nat, cols: nat)
    requires
        rows > 0,
        cols > 0,
        data.len() <= rows * cols,
    ensures
        columns_of(columns_of(fitted(data, rows * cols), rows, cols), cols, rows).take(
            data.len() as int,
        ) == data,
{
    law_columns_then_rows(fitted(data, rows * cols), rows, cols);
    assert(fitted(data, rows * cols).take(data.len() as int) =~= data);
}

/// Frequency interleaver: a pseudorandom permutation of subcarriers, the same
/// for the same number of carriers and seed.
#[derive(Debug)]
pub struct FrequencyInterleaver {
    num_carriers: usize,
    /// Where each input goes.
    perm: Vec<usize>,
    /// Where each output comes from.
    inv_perm: Vec<usize>,
}

impl Clone for FrequencyInterleaver {
    fn clone(&self) -> (r: Self)
        ensures
            r.table() == self.table(),
            r.carriers() == self.carriers(),
    {
        proof {
            use_type_invariant(self);
        }
        let perm = self.perm.clone();
        let inv_perm = self.inv_perm.clone();
        assert(perm@ =~= self.perm@);
        assert(inv_perm@ =~= self.inv_perm@);
        FrequencyInterleaver { num_carriers: self.num_carriers, perm, inv_perm }
    }
}

/// One step of the linear congruential generator modulo 2^64.
pub open spec fn lcg(state: u64) -> u64 {
    state.wrapping_mul(6364136223846793005).wrapping_add(1442695040888963407)
}

/// Two elements exchanged.
pub open spec fn swapped(s: Seq<usize>, i: int, j: int) -> Seq<usize> {
    s.update(i, s[j]).update(j, s[i])
}

/// The shuffle from place `i` down: each place is exchanged with one at or
/// below it that the next generator state picks.
pub open spec fn shuffled(s: Seq<usize>, state: u64, i: int) -> Seq<usize>
    decreases i,
{
    if i <= 0 {
        s
    } else {
        let next = lcg(state);
        let j = (next / 0x2_0000_0000) as int % (i + 1);
        shuffled(swapped(s, i, j), next, i - 1)
    }
}

/// The permutation of `n` carriers for a seed.
pub open spec fn carrier_permutation(n: nat, seed: u32) -> Seq<usize> {
    shuffled(Seq::new(n, |i: int| i as usize), seed as u64, n - 1)
}

/// Whether `g` undoes `p`, and `p` undoes `g`.
pub open spec fn inverse_of(p: Seq<usize>, g: Seq<int>) -> bool {
    &&& g.len() == p.len()
    &&& forall|i: int| 0 <= i < p.len() ==> 0 <= #[trigger] p[i] < p.len() && g[p[i] as int] == i
    &&& forall|k: int| 0 <= k < g.len() ==> 0 <= #[trigger] g[k] < p.len() && p[g[k]] == k
}

/// Whether a table is a permutation of its indices.
pub open spec fn is_permutation(p: Seq<usize>) -> bool {
    exists|g: Seq<int>| inverse_of(p, g)
}

proof fn lemma_swap_keeps_permutation(p: Seq<usize>, i: int, j: int)
    requires
        is_permutation(p),
        0 <= i < p.len(),
        0 <= j < p.len(),
    ensures
        is_permutation(swapped(p, i, j)),
{
    let g = choose|g: Seq<int>| inverse_of(p, g);
    let q = swapped(p, i, j);
    let h = g.update(p[i] as int, j).update(p[j] as int, i);
    assert(p[i] < p.len() && g[p[i] as int] == i);
    assert(p[j] < p.len() && g[p[j] as int] == j);
    assert forall|a: int| 0 <= a < q.len() implies 0 <= #[trigger] q[a] < q.len() && h[q[a] as int]
        == a by {
        assert(p[a] < p.len() && g[p[a] as int] == a);
    }
    assert forall|k: int| 0 <= k < h.len() implies 0 <= #[trigger] h[k] < q.len() && q[h[k]]
        == k by {
        assert(0 <= g[k] < p.len() && p[g[k]] == k);
    }
    assert(inverse_of(q, h));
}

proof fn lemma_shuffled_permutation(s: Seq<usize>, state: u64, i: int)
    requires
        is_permutation(s),
        i < s.len(),
    ensures
        is_permutation(shuffled(s, state, i)),
        shuffled(s, state, i).len() == s.len(),
    decreases i,
{
    if i > 0 {
        let next = lcg(state);
        let j = (next / 0x2_0000_0000) as int % (i + 1);
        lemma_swap_keeps_permutation(s, i, j);
        lemma_shuffled_permutation(swapped(s, i, j), next, i - 1);
    }
}

/// Every number of carriers and seed gives a permutation: each carrier is used
/// exactly once.
pub proof fn law_carriers_are_permuted(n: nat, seed: u32)
    requires
        n <= usize::MAX,
    ensures
        is_permutation(carrier_permutation(n, seed)),
        carrier_permutation(n, seed).len() == n,
{
    let s = Seq::new(n, |i: int| i as usize);
    let g = Seq::new(n, |i: int| i);
    assert(inverse_of(s, g));
    lemma_shuffled_permutation(s, seed as u64, n - 1);
}

/// Values in the places that a permutation sends them to.
pub open spec fn permuted<T>(data: Seq<T>, p: Seq<usize>, out: Seq<T>) -> bool {
    &&& data.len() == p.len()
    &&& out.len() == p.len()
    &&& forall|i: int| 0 <= i < p.len() ==> out[#[trigger] p[i] as int] == data[i]
}

/// Values fetched back from the places that a permutation sent them to.
pub open spec fn unpermuted<T>(data: Seq<T>, p: Seq<usize>, out: Seq<T>) -> bool {
    &&& data.len() == p.len()
    &&& out.len() == p.len()
    &&& forall|i: int| 0 <= i < p.len() ==> out[i] == data[#[trigger] p[i] as int]
}

/// Interleaving then deinterleaving gives the data back, and so does the other
/// order.
pub proof fn law_frequency_roundtrip<T>(
    p: Seq<usize>,
    data: Seq<T>,
    mid: Seq<T>,
    back: Seq<T>,
)
    requires
        is_permutation(p),
        permuted(data, p, mid) && unpermuted(mid, p, back) || unpermuted(data, p, mid) && permuted(
            mid,
            p,
            back,
        ),
    ensures
        back == data,
{
    let g = choose|g: Seq<int>| inverse_of(p, g);
    assert forall|i: int| 0 <= i < data.len() implies back[i] == data[i] by {
        assert(p[i] < p.len());
        assert(0 <= g[i] < p.len() && p[g[i]] == i);
    }
    assert(back =~= data);
}

impl FrequencyInterleaver {
    /// Number of subcarriers.
    pub closed spec fn carriers(&self) -> nat {
        self.num_carriers as nat
    }

    /// Where each input goes.
    pub closed spec fn table(&self) -> Seq<usize> {
        self.perm@
    }

    /// The two tables undo each other.
    #[verifier::type_invariant]
    spec fn wf(self) -> bool {
        &&& self.num_carriers > 0
        &&& self.perm@.len() == self.num_carriers
        &&& inverse_of(self.perm@, self.inv_perm@.map_values(|v: usize| v as int))
    }

    /// Create an interleaver for `num_carriers` subcarriers; the seed picks the
    /// permutation.
    pub fn new(num_carriers: usize, seed: u32) -> (r: Result<Self, InterleaverError>)
        ensures
            match r {
                Ok(f) => num_carriers > 0 && f.carriers() == num_carriers && f.table()
                    == carrier_permutation(num_carriers as nat, seed),
                Err(e) => num_carriers == 0 && e == InterleaverError::NoCarriers,
            },
    {
        if num_carriers == 0 {
            return Err(InterleaverError::NoCarriers);
        }
        let perm = FrequencyInterleaver::generate_permutation(num_carriers, seed);
        let n: usize = num_carriers;
        proof {
            law_carriers_are_permuted(n as nat, seed);
        }
        let ghost g = choose|g: Seq<int>| inverse_of(perm@, g);
        let mut inv_perm: Vec<usize> = vec![0usize; n];
        let mut i: usize = 0;
        while i < n
            invariant
                i <= n,
                perm@.len() == n,
                inv_perm@.len() == n,
                inverse_of(perm@, g),
                forall|k: int| 0 <= k < i ==> inv_perm@[#[trigger] perm@[k] as int] == k,
            decreases n - i,
        {
            let p: usize = perm[i];
            let ghost before = inv_perm@;
            assert(perm@[i as int] < n);
            inv_perm[p] = i;
            assert forall|k: int| 0 <= k < i + 1 implies inv_perm@[#[trigger] perm@[k] as int]
                == k by {
                assert(g[perm@[k] as int] == k);
                assert(g[perm@[i as int] as int] == i);
            }
            i += 1;
        }
        proof {
            let h = inv_perm@.map_values(|v: usize| v as int);
            assert forall|a: int| 0 <= a < perm@.len() implies 0 <= #[trigger] perm@[a]
                < perm@.len() && h[perm@[a] as int] == a by {
                assert(inv_perm@[perm@[a] as int] == a);
            }
            assert forall|k: int| 0 <= k < h.len() implies 0 <= #[trigger] h[k] < perm@.len()
                && perm@[h[k]] == k by {
                assert(0 <= g[k] < n && perm@[g[k]] == k);
                assert(inv_perm@[perm@[g[k]] as int] == g[k]);
            }
            assert(inverse_of(perm@, h));
        }
        Ok(FrequencyInterleaver { num_carriers, perm, inv_perm })
    }

    /// Number of subcarriers.
    pub fn num_carriers(&self) -> (n: usize)
        ensures
            n == self.carriers(),
    {
        self.num_carriers
    }

    /// The forward permutation table.
    pub fn permutation(&self) -> (p: &[usize])
        ensures
            p@ == self.table(),
            p@.len() == self.carriers(),
            is_permutation(p@),
    {
        proof {
            use_type_invariant(self);
        }
        self.perm.as_slice()
    }

    /// Interleave: apply the permutation.
    pub fn interleave<T: Copy>(&self, data: &[T]) -> (r: Result<Vec<T>, InterleaverError>)
        ensures
            match r {
                Ok(out) => permuted(data@, self.table(), out@),
                Err(e) => data@.len() != self.carriers() && e == (
                InterleaverError::LengthMismatch {
                    len: data.len(),
                    capacity: self.carriers() as usize,
                }),
            },
    {
        proof {
            use_type_invariant(self);
        }
        if data.len() != self.num_carriers {
            return Err(
                InterleaverError::LengthMismatch { len: data.len(), capacity: self.num_carriers },
            );
        }
        let ghost h = self.inv_perm@.map_values(|v: usize| v as int);
        assert forall|i: int| 0 <= i < self.inv_perm@.len() implies #[trigger] self.inv_perm@[i]
            < data@.len() by {
            assert(0 <= h[i] < self.perm@.len());
        }
        let out = gather(data, &self.inv_perm);
        assert forall|i: int| 0 <= i < self.perm@.len() implies out@[#[trigger] self.perm@[i] as int]
            == data@[i] by {
            assert(h[self.perm@[i] as int] == i);
        }
        Ok(out)
    }

    /// Deinterleave: undo the permutation.
    pub fn deinterleave<T: Copy>(&self, data: &[T]) -> (r: Result<Vec<T>, InterleaverError>)
        ensures
            match r {
                Ok(out) => unpermuted(data@, self.table(), out@),
                Err(e) => data@.len() != self.carriers() && e == (
                InterleaverError::LengthMismatch {
                    len: data.len(),
                    capacity: self.carriers() as usize,
                }),
            },
    {
        proof {
            use_type_invariant(self);
        }
        if data.len() != self.num_carriers {
            return Err(
                InterleaverError::LengthMismatch { len: data.len(), capacity: self.num_carriers },
            );
        }
        Ok(gather(data, &self.perm))
    }

    /// Shuffle the carriers from the last place down, each place with one that
    /// a linear congruential generator picks.
    fn generate_permutation(n: usize, seed: u32) -> (perm: Vec<usize>)
        requires
            n > 0,
        ensures
            perm@ == carrier_permutation(n as nat, seed),
    {
        let mut perm: Vec<usize> = Vec::new();
        let mut k: usize = 0;
        while k < n
            invariant
                k <= n,
                perm@.len() == k,
                forall|i: int| 0 <= i < k ==> perm@[i] == i,
            decreases n - k,
        {
            perm.push(k);
            k += 1;
        }
        assert(perm@ =~= Seq::new(n as nat, |i: int| i as usize));
        let mut state: u64 = seed as u64;
        let mut i: usize = n - 1;
        while i > 0
            invariant
                i < n,
                perm@.len() == n,
                shuffled(perm@, state, i as int) == carrier_permutation(n as nat, seed),
            decreases i,
        {
            state = state.wrapping_mul(6364136223846793005).wrapping_add(1442695040888963407);
            let pick: u64 = state / 0x2_0000_0000;
            let j: usize = pick as usize % (i + 1);
            let a: usize = perm[i];
            let b: usize = perm[j];
            perm[i] = b;
            perm[j] = a;
            i -= 1;
        }
        perm
    }
}

/// The values of `data` at the given places.
fn gather<T: Copy>(data: &[T], places: &Vec<usize>) -> (out: Vec<T>)
    requires
        places@.len() == data@.len(),
        forall|i: int| 0 <= i < places@.len() ==> #[trigger] places@[i] < data@.len(),
    ensures
        out@.len() == data@.len(),
        forall|i: int| 0 <= i < out@.len() ==> out@[i] == data@[#[trigger] places@[i] as int],
{
    let mut out: Vec<T> = Vec::new();
    let mut i: usize = 0;
    while i < places.len()
        invariant
            i <= places@.len(),
            places@.len() == data@.len(),
            forall|k: int| 0 <= k < places@.len() ==> #[trigger] places@[k] < data@.len(),
            out@.len() == i,
            forall|k: int| 0 <= k < i ==> out@[k] == data@[#[trigger] places@[k] as int],
        decreases places.len() - i,
    {
        out.push(data[places[i]]);
        i += 1;
    }
    out
}

/// The value that stands in row `r` and column `c` of the matrix is read at
/// place `c * rows + r`.
pub proof fn law_cell_is_read_by_column<T>(data: Seq<T>, rows: nat, cols: nat, r: int, c: int)
    requires
        0 <= r < rows,
        0 <= c < cols,
        data.len() == rows * cols,
    ensures
        columns_of(data, rows, cols).len() == rows * cols,
        0 <= r * cols + c < data.len(),
        0 <= c * rows + r < data.len(),
        columns_of(data, rows, cols)[c * rows + r] == data[r * cols + c],
{
    lemma_matrix_index(r, c, rows as int, cols as int);
}

/// Fitting keeps the values that there is room for, and fills up with zeros.
pub proof fn law_fitting(data: Seq<u8>, n: nat, i: int)
    requires
        0 <= i < n,
    ensures
        fitted(data, n).len() == n,
        i < data.len() ==> fitted(data, n)[i] == data[i],
        i >= data.len() ==> fitted(data, n)[i] == 0,
{
}

/// One step of the generator, by arithmetic modulo 2^64.
proof fn lemma_lcg(state: u64)
    ensures
        lcg(state) == (state * 6364136223846793005 + 1442695040888963407)
            % 0x1_0000_0000_0000_0000,
{
    let m = 0x1_0000_0000_0000_0000int;
    let a = state * 6364136223846793005;
    let c = 1442695040888963407int;
    vstd::arithmetic::div_mod::lemma_fundamental_div_mod(a, m);
    let q = a / m;
    let r = a % m;
    assert(state as nat * 6364136223846793005 as nat == a);
    if r + c >= m {
        vstd::arithmetic::div_mod::lemma_fundamental_div_mod_converse(a + c, m, q + 1, r + c - m);
    } else {
        vstd::arithmetic::div_mod::lemma_fundamental_div_mod_converse(a + c, m, q, r + c);
    }
}

/// The permutation is a shuffle from the last place down. Take the generator
/// states from the seed on, each by the one before it times 6364136223846793005
/// plus 1442695040888963407, modulo 2^64; and tables from the identity on, each
/// the one before it with place `i` exchanged with the place that the upper 31
/// bits of the next state give modulo `i + 1`. The last table is the
/// permutation.
pub proof fn law_shuffle(n: nat, seed: u32, states: Seq<int>, tables: Seq<Seq<usize>>)
    requires
        0 < n <= usize::MAX,
        states.len() == n,
        tables.len() == n,
        states[0] == seed,
        forall|k: int|
            0 < k < n ==> #[trigger] states[k] == (states[k - 1] * 6364136223846793005
                + 1442695040888963407) % 0x1_0000_0000_0000_0000,
        tables[0].len() == n,
        forall|i: int| 0 <= i < n ==> #[trigger] tables[0][i] == i,
        forall|k: int|
            0 < k < n ==> {
                let i = n - k;
                let j = states[k] / 0x2_0000_0000 % (i + 1);
                &&& (#[trigger] tables[k]).len() == n
                &&& forall|m: int|
                    0 <= m < n ==> #[trigger] tables[k][m] == (if m == i {
                        tables[k - 1][j]
                    } else if m == j {
                        tables[k - 1][i]
                    } else {
                        tables[k - 1][m]
                    })
            },
    ensures
        carrier_permutation(n, seed) == tables[n - 1],
{
    assert(tables[0] =~= Seq::new(n, |i: int| i as usize));
    lemma_shuffle_from(n, states, tables, 0);
}

/// The shuffle from a table on.
proof fn lemma_shuffle_from(n: nat, states: Seq<int>, tables: Seq<Seq<usize>>, k: int)
    requires
        0 <= k < n <= usize::MAX,
        states.len() == n,
        tables.len() == n,
        0 <= states[k] <= u64::MAX,
        tables[k].len() == n,
        forall|k: int|
            0 < k < n ==> #[trigger] states[k] == (states[k - 1] * 6364136223846793005
                + 1442695040888963407) % 0x1_0000_0000_0000_0000,
        forall|k: int|
            0 < k < n ==> {
                let i = n - k;
                let j = states[k] / 0x2_0000_0000 % (i + 1);
                &&& (#[trigger] tables[k]).len() == n
                &&& forall|m: int|
                    0 <= m < n ==> #[trigger] tables[k][m] == (if m == i {
                        tables[k - 1][j]
                    } else if m == j {
                        tables[k - 1][i]
                    } else {
                        tables[k - 1][m]
                    })
            },
    ensures
        shuffled(tables[k], states[k] as u64, n - 1 - k) == tables[n - 1],
    decreases n - k,
{
    if k < n - 1 {
        let state = states[k] as u64;
        let i = n - 1 - k;
        lemma_lcg(state);
        assert(states[k + 1] == (states[k + 1 - 1] * 6364136223846793005 + 1442695040888963407)
            % 0x1_0000_0000_0000_0000);
        assert(lcg(state) == states[k + 1]);
        let j = (lcg(state) / 0x2_0000_0000) as int % (i + 1);
        assert(0 <= j <= i) by (nonlinear_arith)
            requires
                j == (lcg(state) / 0x2_0000_0000) as int % (i + 1),
                i >= 0,
        ;
        assert(tables[k + 1].len() == n);
        assert(swapped(tables[k], i, j) =~= tables[k + 1]) by {
            assert forall|m: int| 0 <= m < n implies swapped(tables[k], i, j)[m] == tables[k
                + 1][m] by {
                assert(tables[k + 1][m] == (if m == i {
                    tables[k + 1 - 1][j]
                } else if m == j {
                    tables[k + 1 - 1][i]
                } else {
                    tables[k + 1 - 1][m]
                }));
            }
        }
        lemma_shuffle_from(n, states, tables, k + 1);
        assert(states[k + 1] as u64 == lcg(state));
    }
}

} // verus!
