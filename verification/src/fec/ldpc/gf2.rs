//! Dense matrices over GF(2), packed into 64-bit words.
//!
//! A matrix acts on vectors of bytes: row `r` of the product is the XOR of the
//! elements at the places where row `r` has a one. On bytes that are bits this
//! is the product modulo 2.
use vstd::prelude::*;

verus! {

/// Bit `k` of a word.
pub open spec fn bit_of(w: u64, k: u64) -> bool {
    w & (1u64 << k) != 0
}

proof fn lemma_word_bits(a: u64, b: u64, k: u64, j: u64)
    requires
        k < 64,
        j < 64,
    ensures
        bit_of(a | (1u64 << k), j) == (j == k || bit_of(a, j)),
        bit_of(a & !(1u64 << k), j) == (j != k && bit_of(a, j)),
        bit_of(a ^ b, j) == (bit_of(a, j) != bit_of(b, j)),
        !bit_of(0, j),
{
    assert((((a | (1u64 << k)) & (1u64 << j)) != 0) == (j == k || (a & (1u64 << j)) != 0))
        by (bit_vector)
        requires
            k < 64,
            j < 64,
    ;
    assert((((a & !(1u64 << k)) & (1u64 << j)) != 0) == (j != k && (a & (1u64 << j)) != 0))
        by (bit_vector)
        requires
            k < 64,
            j < 64,
    ;
    assert((((a ^ b) & (1u64 << j)) != 0) == (((a & (1u64 << j)) != 0) != ((b & (1u64 << j)) != 0)))
        by (bit_vector);
    assert(0u64 & (1u64 << j) == 0) by (bit_vector);
}

/// XOR of the elements of `x` among the first `m` places where the row has a
/// one.
pub open spec fn dot_to(row: Seq<bool>, x: Seq<u8>, m: nat) -> u8
    decreases m,
{
    if m == 0 {
        0
    } else if row[m - 1] {
        dot_to(row, x, (m - 1) as nat) ^ x[m - 1]
    } else {
        dot_to(row, x, (m - 1) as nat)
    }
}

/// A row times a vector.
pub open spec fn dot(row: Seq<bool>, x: Seq<u8>) -> u8 {
    dot_to(row, x, row.len())
}

/// A matrix times a vector.
pub open spec fn product(m: Seq<Seq<bool>>, x: Seq<u8>) -> Seq<u8> {
    Seq::new(m.len(), |r: int| dot(m[r], x))
}

/// The vector of `n` zeros.
pub open spec fn zero_vector(n: nat) -> Seq<u8> {
    Seq::new(n, |i: int| 0u8)
}

/// The matrix of zeros.
pub open spec fn zero_matrix(rows: nat, cols: nat) -> Seq<Seq<bool>> {
    Seq::new(rows, |r: int| Seq::new(cols, |c: int| false))
}

/// The unit matrix.
pub open spec fn unit_matrix(n: nat) -> Seq<Seq<bool>> {
    Seq::new(n, |r: int| Seq::new(n, |c: int| r == c))
}

/// Whether a matrix has `rows` rows of `cols` elements.
pub open spec fn has_shape(m: Seq<Seq<bool>>, rows: nat, cols: nat) -> bool {
    m.len() == rows && forall|r: int| 0 <= r < rows ==> (#[trigger] m[r]).len() == cols
}

/// Whether each of two square matrices undoes the other.
pub open spec fn are_inverse(a: Seq<Seq<bool>>, b: Seq<Seq<bool>>, n: nat) -> bool {
    forall|x: Seq<u8>|
        x.len() == n ==> #[trigger] product(a, product(b, x)) == x && product(b, product(a, x))
            == x
}

/// Whether a square matrix sends some vector other than zero to zero.
pub open spec fn is_singular(a: Seq<Seq<bool>>, n: nat) -> bool {
    exists|x: Seq<u8>|
        x.len() == n && x != zero_vector(n) && #[trigger] product(a, x) == zero_vector(n)
}

/// The element-wise sum of two rows.
pub open spec fn xor_rows(a: Seq<bool>, b: Seq<bool>) -> Seq<bool> {
    Seq::new(a.len(), |c: int| a[c] != b[c])
}

proof fn lemma_xor(a: u8, b: u8, c: u8, d: u8)
    ensures
        (a ^ b) ^ (c ^ d) == (a ^ c) ^ (b ^ d),
        (a ^ b) ^ c == (a ^ c) ^ b,
        (a ^ b) ^ b == a,
        a ^ 0 == a,
        0u8 ^ a == a,
        a ^ a == 0,
        a ^ b == c ^ b ==> a == c,
{
    assert((a ^ b) ^ (c ^ d) == (a ^ c) ^ (b ^ d) && (a ^ b) ^ c == (a ^ c) ^ b && (a ^ b) ^ b == a
        && a ^ 0 == a && 0u8 ^ a == a && a ^ a == 0 && (a ^ b == c ^ b ==> a == c)) by (bit_vector);
}

/// A sum of rows times a vector is the sum of the products.
proof fn lemma_dot_xor(a: Seq<bool>, b: Seq<bool>, x: Seq<u8>, m: nat)
    requires
        a.len() == b.len(),
        m <= a.len(),
    ensures
        dot_to(xor_rows(a, b), x, m) == dot_to(a, x, m) ^ dot_to(b, x, m),
    decreases m,
{
    if m == 0 {
        lemma_xor(0, 0, 0, 0);
    } else {
        lemma_dot_xor(a, b, x, (m - 1) as nat);
        let p = dot_to(a, x, (m - 1) as nat);
        let q = dot_to(b, x, (m - 1) as nat);
        let v = x[m - 1];
        lemma_xor(p, v, q, v);
        lemma_xor(p ^ q, v, 0, 0);
        lemma_xor(p, q, v, 0);
        lemma_xor(v, 0, 0, 0);
        lemma_xor(p, q, 0, v);
    }
}

/// A row with a single one picks that element.
proof fn lemma_dot_unit(row: Seq<bool>, at: int, x: Seq<u8>, m: nat)
    requires
        m <= row.len(),
        forall|c: int| 0 <= c < m ==> row[c] == (c == at),
    ensures
        dot_to(row, x, m) == (if 0 <= at < m {
            x[at]
        } else {
            0
        }),
    decreases m,
{
    if m > 0 {
        lemma_dot_unit(row, at, x, (m - 1) as nat);
        lemma_xor(x[m - 1], 0, 0, 0);
    }
}

/// A row times zero is zero.
proof fn lemma_dot_zero(row: Seq<bool>, n: nat, m: nat)
    requires
        m <= n,
    ensures
        dot_to(row, zero_vector(n), m) == 0,
    decreases m,
{
    if m > 0 {
        lemma_dot_zero(row, n, (m - 1) as nat);
        lemma_xor(0, 0, 0, 0);
    }
}

/// A row without a one gives zero.
pub(crate) proof fn lemma_dot_none(row: Seq<bool>, x: Seq<u8>, m: nat)
    requires
        forall|c: int| 0 <= c < m ==> !row[c],
    ensures
        dot_to(row, x, m) == 0,
    decreases m,
{
    if m > 0 {
        lemma_dot_none(row, x, (m - 1) as nat);
    }
}

/// One more one in a row adds the element at its place.
pub(crate) proof fn lemma_dot_set(row: Seq<bool>, at: int, x: Seq<u8>, m: nat)
    requires
        m <= row.len(),
        0 <= at < row.len(),
        !row[at],
    ensures
        dot_to(row.update(at, true), x, m) == (if at < m {
            dot_to(row, x, m) ^ x[at]
        } else {
            dot_to(row, x, m)
        }),
    decreases m,
{
    if m > 0 {
        lemma_dot_set(row, at, x, (m - 1) as nat);
        lemma_xor(dot_to(row, x, (m - 1) as nat), x[m - 1], x[at], 0);
    }
}

/// The unit matrix leaves a vector as it is.
proof fn lemma_unit_product(w: Seq<Seq<bool>>, x: Seq<u8>, n: nat)
    requires
        x.len() == n,
        w == unit_matrix(n),
    ensures
        product(w, x) == x,
{
    assert forall|r: int| 0 <= r < n implies product(w, x)[r] == x[r] by {
        lemma_dot_unit(w[r], r, x, n);
    }
    assert(product(w, x) =~= x);
}

/// Whether `w` and `inv` state of every `x` and `y` the same equation as `a`:
/// `a x = y` exactly when `w x = inv y`.
spec fn equivalent(
    a: Seq<Seq<bool>>,
    w: Seq<Seq<bool>>,
    inv: Seq<Seq<bool>>,
    n: nat,
) -> bool {
    forall|x: Seq<u8>, y: Seq<u8>|
        #![trigger product(w, x), product(inv, y)]
        x.len() == n && y.len() == n ==> (product(a, x) == y <==> product(w, x) == product(inv, y))
}

/// Adding one row to another keeps the equations.
proof fn lemma_equivalent_xor(
    a: Seq<Seq<bool>>,
    w: Seq<Seq<bool>>,
    inv: Seq<Seq<bool>>,
    n: nat,
    dst: int,
    src: int,
)
    requires
        equivalent(a, w, inv, n),
        has_shape(w, n, n),
        has_shape(inv, n, n),
        0 <= dst < n,
        0 <= src < n,
        dst != src,
    ensures
        equivalent(
            a,
            w.update(dst, xor_rows(w[dst], w[src])),
            inv.update(dst, xor_rows(inv[dst], inv[src])),
            n,
        ),
{
    let w2 = w.update(dst, xor_rows(w[dst], w[src]));
    let inv2 = inv.update(dst, xor_rows(inv[dst], inv[src]));
    assert forall|x: Seq<u8>, y: Seq<u8>|
        #![trigger product(w2, x), product(inv2, y)]
        x.len() == n && y.len() == n implies (product(a, x) == y <==> product(w2, x) == product(
        inv2,
        y,
    )) by {
        lemma_dot_xor(w[dst], w[src], x, n);
        lemma_dot_xor(inv[dst], inv[src], y, n);
        let p = product(w, x);
        let q = product(inv, y);
        let p2 = product(w2, x);
        let q2 = product(inv2, y);
        assert(p2[dst] == p[dst] ^ p[src]);
        assert(q2[dst] == q[dst] ^ q[src]);
        if p2 == q2 {
            assert forall|r: int| 0 <= r < n implies p[r] == q[r] by {
                assert(p2[r] == q2[r]);
                assert(p2[src] == q2[src]);
                lemma_xor(p[dst], p[src], q[dst], 0);
            }
            assert(p =~= q);
        }
        if p == q {
            assert forall|r: int| 0 <= r < n implies p2[r] == q2[r] by {
                assert(p[r] == q[r]);
            }
            assert(p2 =~= q2);
        }
    }
}

/// Swapping two rows keeps the equations.
proof fn lemma_equivalent_swap(
    a: Seq<Seq<bool>>,
    w: Seq<Seq<bool>>,
    inv: Seq<Seq<bool>>,
    n: nat,
    i: int,
    j: int,
)
    requires
        equivalent(a, w, inv, n),
        has_shape(w, n, n),
        has_shape(inv, n, n),
        0 <= i < n,
        0 <= j < n,
    ensures
        equivalent(
            a,
            w.update(i, w[j]).update(j, w[i]),
            inv.update(i, inv[j]).update(j, inv[i]),
            n,
        ),
{
    let w2 = w.update(i, w[j]).update(j, w[i]);
    let inv2 = inv.update(i, inv[j]).update(j, inv[i]);
    assert forall|x: Seq<u8>, y: Seq<u8>|
        #![trigger product(w2, x), product(inv2, y)]
        x.len() == n && y.len() == n implies (product(a, x) == y <==> product(w2, x) == product(
        inv2,
        y,
    )) by {
        let p = product(w, x);
        let q = product(inv, y);
        let p2 = product(w2, x);
        let q2 = product(inv2, y);
        if p2 == q2 {
            assert forall|r: int| 0 <= r < n implies p[r] == q[r] by {
                assert(p2[r] == q2[r]);
                assert(p2[i] == q2[i]);
                assert(p2[j] == q2[j]);
            }
            assert(p =~= q);
        }
        if p == q {
            assert forall|r: int| 0 <= r < n implies p2[r] == q2[r] by {
                assert(p[r] == q[r]);
                assert(p[i] == q[i]);
                assert(p[j] == q[j]);
            }
            assert(p2 =~= q2);
        }
    }
}

/// Equations with the unit matrix on the left are solved.
proof fn lemma_solved(a: Seq<Seq<bool>>, w: Seq<Seq<bool>>, inv: Seq<Seq<bool>>, n: nat)
    requires
        has_shape(a, n, n),
        has_shape(inv, n, n),
        equivalent(a, w, inv, n),
        w == unit_matrix(n),
    ensures
        are_inverse(a, inv, n),
{
    assert forall|x: Seq<u8>| x.len() == n implies #[trigger] product(a, product(inv, x)) == x
        && product(inv, product(a, x)) == x by {
        let s = product(inv, x);
        lemma_unit_product(w, s, n);
        assert(product(w, s) == product(inv, x));
        let y = product(a, x);
        lemma_unit_product(w, x, n);
        assert(product(w, x) == product(inv, y));
    }
}

/// The row of a partly reduced matrix times the vector that shows it singular.
proof fn lemma_kernel_row(
    row: Seq<bool>,
    r: int,
    col: int,
    x: Seq<u8>,
    m: nat,
)
    requires
        m <= row.len(),
        x.len() == row.len(),
        0 <= col < row.len(),
        0 <= r,
        forall|c: int| 0 <= c < col ==> row[c] == (c == r),
        x[col] == 1,
        forall|c: int| col < c < x.len() ==> x[c] == 0,
    ensures
        dot_to(row, x, m) == (if r < col && r < m {
            x[r]
        } else {
            0u8
        }) ^ (if col < m && row[col] {
            1u8
        } else {
            0u8
        }),
    decreases m,
{
    lemma_xor(0, 0, 0, 0);
    if m > 0 {
        lemma_kernel_row(row, r, col, x, (m - 1) as nat);
        if r < x.len() {
            lemma_xor(x[r], 0, 0, 0);
            lemma_xor(x[r], 1, 0, 0);
        }
        lemma_xor(dot_to(row, x, (m - 1) as nat), 0, 0, 0);
        lemma_xor(1, 0, 0, 0);
    }
}

/// Without a pivot in column `col` the matrix is singular.
proof fn lemma_no_pivot(
    a: Seq<Seq<bool>>,
    w: Seq<Seq<bool>>,
    inv: Seq<Seq<bool>>,
    n: nat,
    col: int,
)
    requires
        has_shape(a, n, n),
        has_shape(w, n, n),
        has_shape(inv, n, n),
        equivalent(a, w, inv, n),
        0 <= col < n,
        reduced_to(w, n, col),
        forall|r: int| col <= r < n ==> !(#[trigger] w[r])[col],
    ensures
        is_singular(a, n),
{
    let x = Seq::new(
        n,
        |c: int|
            if c == col || (c < col && w[c][col]) {
                1u8
            } else {
                0u8
            },
    );
    let zero = zero_vector(n);
    assert forall|r: int| 0 <= r < n implies product(w, x)[r] == product(inv, zero)[r] by {
        assert forall|c: int| 0 <= c < col implies w[r][c] == (c == r) by {
            assert(unit_at(w, r, c));
        }
        lemma_kernel_row(w[r], r, col, x, n);
        lemma_dot_zero(inv[r], n, n);
        lemma_xor(1, 1, 0, 0);
        lemma_xor(0, 0, 0, 0);
    }
    assert(product(w, x) =~= product(inv, zero));
    assert(product(a, x) == zero);
    assert(x[col] != zero[col]);
}

/// Whether an element is the one of the unit matrix.
spec fn unit_at(w: Seq<Seq<bool>>, r: int, c: int) -> bool {
    w[r][c] == (c == r)
}

/// Whether the first `col` columns are those of the unit matrix.
spec fn reduced_to(w: Seq<Seq<bool>>, n: nat, col: int) -> bool {
    forall|r: int, c: int| 0 <= r < n && 0 <= c < col ==> #[trigger] unit_at(w, r, c)
}

/// A singular matrix has no inverse.
pub proof fn law_singular_has_no_inverse(a: Seq<Seq<bool>>, b: Seq<Seq<bool>>, n: nat)
    requires
        has_shape(a, n, n),
        has_shape(b, n, n),
        is_singular(a, n),
    ensures
        !are_inverse(a, b, n),
{
    let x = choose|x: Seq<u8>|
        x.len() == n && x != zero_vector(n) && #[trigger] product(a, x) == zero_vector(n);
    let zero = zero_vector(n);
    assert forall|r: int| 0 <= r < n implies product(b, zero)[r] == zero[r] by {
        lemma_dot_zero(b[r], n, n);
    }
    assert(product(b, zero) =~= zero);
    if are_inverse(a, b, n) {
        assert(product(a, product(b, x)) == x);
        assert(product(b, product(a, x)) == x);
    }
}

/// A matrix of bits, row by row, each row in whole words.
#[derive(Debug)]
pub struct Gf2Matrix {
    rows: usize,
    cols: usize,
    words_per_row: usize,
    data: Vec<u64>,
}

/// A matrix is the sequence of its rows.
impl View for Gf2Matrix {
    type V = Seq<Seq<bool>>;

    closed spec fn view(&self) -> Seq<Seq<bool>> {
        Seq::new(
            self.rows as nat,
            |r: int| Seq::new(self.cols as nat, |c: int| self.bit(r, c)),
        )
    }
}

/// Places in different rows or words are different.
proof fn lemma_places(r: int, w: int, q: int, v: int, n: int)
    requires
        0 <= w < n,
        0 <= v < n,
        r * n + w == q * n + v,
    ensures
        r == q,
        w == v,
{
    assert(r == q) by (nonlinear_arith)
        requires
            0 <= w < n,
            0 <= v < n,
            r * n + w == q * n + v,
    ;
}

/// A place lies inside the data.
proof fn lemma_place_in_range(r: int, w: int, rows: int, n: int)
    requires
        0 <= r < rows,
        0 <= w < n,
    ensures
        0 <= r * n,
        0 <= r * n + w < rows * n,
{
    assert(0 <= r * n && r * n + w < rows * n) by (nonlinear_arith)
        requires
            0 <= r < rows,
            0 <= w < n,
    ;
}

impl Gf2Matrix {
    /// The word that holds an element.
    spec fn place(self, r: int, c: int) -> int {
        r * self.words_per_row + c / 64
    }

    spec fn bit(self, r: int, c: int) -> bool {
        bit_of(self.data@[self.place(r, c)], (c % 64) as u64)
    }

    /// Whether the data has the size that the dimensions ask for.
    pub closed spec fn well_formed(self) -> bool {
        &&& self.words_per_row == (self.cols + 63) / 64
        &&& self.data.len() == self.rows * self.words_per_row
    }

    /// The number of rows.
    pub closed spec fn row_count(self) -> nat {
        self.rows as nat
    }

    /// The number of columns.
    pub closed spec fn col_count(self) -> nat {
        self.cols as nat
    }

    /// The view has the shape that the dimensions give.
    pub proof fn lemma_shape(self)
        ensures
            has_shape(self@, self.row_count(), self.col_count()),
    {
    }

    /// The matrix of zeros.
    pub fn zeros(rows: usize, cols: usize) -> (m: Self)
        requires
            rows * ((cols + 63) / 64) <= usize::MAX,
        ensures
            m.well_formed(),
            m.row_count() == rows,
            m.col_count() == cols,
            m@ == zero_matrix(rows as nat, cols as nat),
    {
        let words_per_row: usize = if cols % 64 == 0 {
            cols / 64
        } else {
            cols / 64 + 1
        };
        assert(words_per_row == (cols + 63) / 64);
        let data: Vec<u64> = vec![0u64; rows * words_per_row];
        let m = Gf2Matrix { rows, cols, words_per_row, data };
        proof {
            assert forall|r: int, c: int| 0 <= r < rows && 0 <= c < cols implies !#[trigger] m.bit(
                r,
                c,
            ) by {
                lemma_place_in_range(r, c / 64, rows as int, words_per_row as int);
                lemma_word_bits(0, 0, 0, (c % 64) as u64);
            }
            assert(m@ =~~= zero_matrix(rows as nat, cols as nat));
        }
        m
    }

    /// One element.
    pub fn get(&self, r: usize, c: usize) -> (b: bool)
        requires
            self.well_formed(),
            r < self.row_count(),
            c < self.col_count(),
        ensures
            b == self@[r as int][c as int],
    {
        proof {
            lemma_place_in_range(
                r as int,
                c as int / 64,
                self.rows as int,
                self.words_per_row as int,
            );
        }
        let k: u64 = (c % 64) as u64;
        self.data[r * self.words_per_row + c / 64] & (1u64 << k) != 0
    }

    /// Set one element.
    pub fn set(&mut self, r: usize, c: usize, v: bool)
        requires
            old(self).well_formed(),
            r < old(self).row_count(),
            c < old(self).col_count(),
        ensures
            final(self).well_formed(),
            final(self).row_count() == old(self).row_count(),
            final(self).col_count() == old(self).col_count(),
            final(self)@ == old(self)@.update(
                r as int,
                old(self)@[r as int].update(c as int, v),
            ),
    {
        proof {
            lemma_place_in_range(
                r as int,
                c as int / 64,
                self.rows as int,
                self.words_per_row as int,
            );
        }
        let idx: usize = r * self.words_per_row + c / 64;
        let k: u64 = (c % 64) as u64;
        let word: u64 = self.data[idx];
        if v {
            self.data.set(idx, word | (1u64 << k));
        } else {
            self.data.set(idx, word & !(1u64 << k));
        }
        proof {
            assert forall|q: int, d: int|
                0 <= q < self.rows && 0 <= d < self.cols implies #[trigger] self.bit(q, d) == (if q
                == r && d == c {
                v
            } else {
                old(self).bit(q, d)
            }) by {
                lemma_place_in_range(q, d / 64, self.rows as int, self.words_per_row as int);
                lemma_word_bits(word, 0, k, (d % 64) as u64);
                if self.place(q, d) == idx {
                    lemma_places(q, d / 64, r as int, c as int / 64, self.words_per_row as int);
                }
            }
            assert(self@ =~~= old(self)@.update(
                r as int,
                old(self)@[r as int].update(c as int, v),
            ));
        }
    }

    /// Add row `src` to row `dst`.
    pub fn xor_row_into(&mut self, dst: usize, src: usize)
        requires
            old(self).well_formed(),
            dst < old(self).row_count(),
            src < old(self).row_count(),
        ensures
            final(self).well_formed(),
            final(self).row_count() == old(self).row_count(),
            final(self).col_count() == old(self).col_count(),
            final(self)@ == old(self)@.update(
                dst as int,
                xor_rows(old(self)@[dst as int], old(self)@[src as int]),
            ),
    {
        let wpr: usize = self.words_per_row;
        let ghost before = self.data@;
        let mut w: usize = 0;
        while w < wpr
            invariant
                w <= wpr,
                wpr == self.words_per_row,
                self.words_per_row == old(self).words_per_row,
                self.rows == old(self).rows,
                self.cols == old(self).cols,
                dst < self.rows,
                src < self.rows,
                before == old(self).data@,
                self.data.len() == self.rows * wpr,
                before.len() == self.rows * wpr,
                forall|p: int|
                    0 <= p < before.len() && !(dst * wpr <= p < dst * wpr + w)
                        ==> #[trigger] self.data@[p] == before[p],
                forall|v: int|
                    0 <= v < w ==> #[trigger] self.data@[dst * wpr + v] == before[dst * wpr + v]
                        ^ before[src * wpr + v],
            decreases wpr - w,
        {
            proof {
                lemma_place_in_range(dst as int, w as int, self.rows as int, wpr as int);
                lemma_place_in_range(src as int, w as int, self.rows as int, wpr as int);
                if dst * wpr <= src * wpr + w < dst * wpr + w {
                    lemma_places(
                        src as int,
                        w as int,
                        dst as int,
                        src * wpr + w - dst * wpr,
                        wpr as int,
                    );
                }
            }
            let a: u64 = self.data[dst * wpr + w];
            let b: u64 = self.data[src * wpr + w];
            self.data.set(dst * wpr + w, a ^ b);
            w += 1;
        }
        proof {
            assert forall|q: int, d: int|
                0 <= q < self.rows && 0 <= d < self.cols implies #[trigger] self.bit(q, d) == (if q
                == dst {
                old(self).bit(q, d) != old(self).bit(src as int, d)
            } else {
                old(self).bit(q, d)
            }) by {
                lemma_place_in_range(q, d / 64, self.rows as int, wpr as int);
                lemma_place_in_range(src as int, d / 64, self.rows as int, wpr as int);
                let p = self.place(q, d);
                if q == dst {
                    assert(self.data@[dst * wpr + d / 64] == before[dst * wpr + d / 64]
                        ^ before[src * wpr + d / 64]);
                    lemma_word_bits(
                        before[dst * wpr + d / 64],
                        before[src * wpr + d / 64],
                        0,
                        (d % 64) as u64,
                    );
                } else {
                    if dst * wpr <= p < dst * wpr + wpr {
                        lemma_places(q, d / 64, dst as int, p - dst * wpr, wpr as int);
                    }
                    assert(self.data@[p] == before[p]);
                }
            }
            assert(self@ =~~= old(self)@.update(
                dst as int,
                xor_rows(old(self)@[dst as int], old(self)@[src as int]),
            ));
        }
    }

    /// Swap two rows.
    pub fn swap_rows(&mut self, i: usize, j: usize)
        requires
            old(self).well_formed(),
            i < old(self).row_count(),
            j < old(self).row_count(),
            i != j,
        ensures
            final(self).well_formed(),
            final(self).row_count() == old(self).row_count(),
            final(self).col_count() == old(self).col_count(),
            final(self)@ == old(self)@.update(i as int, old(self)@[j as int]).update(
                j as int,
                old(self)@[i as int],
            ),
    {
        // Three additions exchange two rows.
        self.xor_row_into(i, j);
        self.xor_row_into(j, i);
        self.xor_row_into(i, j);
        proof {
            old(self).lemma_shape();
            let a = old(self)@[i as int];
            let b = old(self)@[j as int];
            assert(xor_rows(b, xor_rows(a, b)) =~= a);
            assert(xor_rows(xor_rows(a, b), a) =~= b);
            assert(self@ =~= old(self)@.update(i as int, b).update(j as int, a));
        }
    }

    /// A matrix with the same elements.
    pub fn copied(&self) -> (m: Self)
        requires
            self.well_formed(),
        ensures
            m.well_formed(),
            m.row_count() == self.row_count(),
            m.col_count() == self.col_count(),
            m@ == self@,
    {
        let m = Gf2Matrix {
            rows: self.rows,
            cols: self.cols,
            words_per_row: self.words_per_row,
            data: vstd::slice::slice_to_vec(self.data.as_slice()),
        };
        assert(m@ =~~= self@);
        m
    }

    /// The unit matrix of the size of a square matrix.
    fn unit_like(&self) -> (m: Self)
        requires
            self.well_formed(),
            self.row_count() == self.col_count(),
        ensures
            m.well_formed(),
            m.row_count() == self.row_count(),
            m.col_count() == self.row_count(),
            m@ == unit_matrix(self.row_count()),
    {
        let n: usize = self.rows;
        assert(self.data.len() == n * ((n + 63) / 64));
        let mut m = Gf2Matrix::zeros(n, n);
        let mut r: usize = 0;
        while r < n
            invariant
                r <= n,
                m.well_formed(),
                m.row_count() == n,
                m.col_count() == n,
                forall|q: int, c: int|
                    0 <= q < n && 0 <= c < n ==> #[trigger] m@[q][c] == (c == q && q < r),
            decreases n - r,
        {
            proof {
                m.lemma_shape();
            }
            m.set(r, r, true);
            r += 1;
        }
        proof {
            m.lemma_shape();
            assert(m@ =~~= unit_matrix(n as nat));
        }
        m
    }

    /// Gauss-Jordan inversion. There is no inverse exactly when the matrix is
    /// singular.
    pub fn invert(&self) -> (r: Option<Gf2Matrix>)
        requires
            self.well_formed(),
            self.row_count() == self.col_count(),
        ensures
            match r {
                Some(inv) => {
                    &&& inv.well_formed()
                    &&& inv.row_count() == self.row_count()
                    &&& inv.col_count() == self.row_count()
                    &&& are_inverse(self@, inv@, self.row_count())
                },
                None => is_singular(self@, self.row_count()),
            },
    {
        let n: usize = self.rows;
        let mut work = self.copied();
        let mut inv = self.unit_like();
        proof {
            self.lemma_shape();
            assert forall|x: Seq<u8>, y: Seq<u8>|
                #![trigger product(work@, x), product(inv@, y)]
                x.len() == n && y.len() == n implies (product(self@, x) == y <==> product(work@, x)
                == product(inv@, y)) by {
                lemma_unit_product(inv@, y, n as nat);
            }
        }
        let mut col: usize = 0;
        while col < n
            invariant
                col <= n,
                n == self.row_count(),
                n == self.col_count(),
                work.well_formed(),
                work.row_count() == n,
                work.col_count() == n,
                inv.well_formed(),
                inv.row_count() == n,
                inv.col_count() == n,
                equivalent(self@, work@, inv@, n as nat),
                reduced_to(work@, n as nat, col as int),
            decreases n - col,
        {
            proof {
                self.lemma_shape();
                work.lemma_shape();
                inv.lemma_shape();
            }
            let mut pivot: usize = col;
            while pivot < n && !work.get(pivot, col)
                invariant
                    col <= pivot <= n,
                    col < n,
                    work.well_formed(),
                    work.row_count() == n,
                    work.col_count() == n,
                    forall|r: int| col <= r < pivot ==> !(#[trigger] work@[r])[col as int],
                decreases n - pivot,
            {
                pivot += 1;
            }
            if pivot == n {
                proof {
                    lemma_no_pivot(self@, work@, inv@, n as nat, col as int);
                }
                return None;
            }
            assert(work@[pivot as int][col as int]);
            if pivot != col {
                proof {
                    lemma_equivalent_swap(
                        self@,
                        work@,
                        inv@,
                        n as nat,
                        col as int,
                        pivot as int,
                    );
                }
                let ghost before = work@;
                work.swap_rows(col, pivot);
                inv.swap_rows(col, pivot);
                assert forall|r: int, c: int|
                    0 <= r < n && 0 <= c < col implies #[trigger] unit_at(work@, r, c) by {
                    assert(unit_at(before, r, c));
                    assert(unit_at(before, col as int, c));
                    assert(unit_at(before, pivot as int, c));
                }
            }
            Self::clear_column(&mut work, &mut inv, col, Ghost(self@));
            col += 1;
        }
        proof {
            self.lemma_shape();
            work.lemma_shape();
            inv.lemma_shape();
            assert forall|r: int, c: int| 0 <= r < n && 0 <= c < n implies #[trigger] work@[r][c]
                == (r == c) by {
                assert(unit_at(work@, r, c));
            }
            assert(work@ =~~= unit_matrix(n as nat));
            lemma_solved(self@, work@, inv@, n as nat);
        }
        Some(inv)
    }

    /// Clear column `col` outside row `col` by adding row `col` where there is
    /// a one, in both matrices.
    fn clear_column(work: &mut Self, inv: &mut Self, col: usize, Ghost(a): Ghost<Seq<Seq<bool>>>)
        requires
            old(work).well_formed(),
            old(inv).well_formed(),
            old(work).row_count() == old(work).col_count(),
            old(inv).row_count() == old(work).row_count(),
            old(inv).col_count() == old(work).row_count(),
            col < old(work).row_count(),
            equivalent(a, old(work)@, old(inv)@, old(work).row_count()),
            reduced_to(old(work)@, old(work).row_count(), col as int),
            old(work)@[col as int][col as int],
        ensures
            final(work).well_formed(),
            final(inv).well_formed(),
            final(work).row_count() == old(work).row_count(),
            final(work).col_count() == old(work).row_count(),
            final(inv).row_count() == old(work).row_count(),
            final(inv).col_count() == old(work).row_count(),
            equivalent(a, final(work)@, final(inv)@, old(work).row_count()),
            reduced_to(final(work)@, old(work).row_count(), col + 1),
    {
        let n: usize = work.rows;
        let mut r: usize = 0;
        while r < n
            invariant
                r <= n,
                col < n,
                n == old(work).row_count(),
                work.well_formed(),
                work.row_count() == n,
                work.col_count() == n,
                inv.well_formed(),
                inv.row_count() == n,
                inv.col_count() == n,
                equivalent(a, work@, inv@, n as nat),
                reduced_to(work@, n as nat, col as int),
                work@[col as int][col as int],
                forall|q: int| 0 <= q < r ==> #[trigger] unit_at(work@, q, col as int),
            decreases n - r,
        {
            proof {
                work.lemma_shape();
                inv.lemma_shape();
            }
            if r != col && work.get(r, col) {
                proof {
                    lemma_equivalent_xor(a, work@, inv@, n as nat, r as int, col as int);
                }
                let ghost before = work@;
                work.xor_row_into(r, col);
                inv.xor_row_into(r, col);
                proof {
                    assert forall|q: int, c: int|
                        0 <= q < n && 0 <= c < col implies #[trigger] unit_at(work@, q, c) by {
                        assert(unit_at(before, q, c));
                        assert(unit_at(before, col as int, c));
                    }
                    assert forall|q: int| 0 <= q < r implies #[trigger] unit_at(
                        work@,
                        q,
                        col as int,
                    ) by {
                        assert(unit_at(before, q, col as int));
                    }
                }
            }
            r += 1;
        }
    }

    /// The product with a vector.
    pub fn mul_vec(&self, x: &[u8]) -> (out: Vec<u8>)
        requires
            self.well_formed(),
            x@.len() == self.col_count(),
        ensures
            out@ == product(self@, x@),
    {
        let mut out: Vec<u8> = Vec::new();
        let mut r: usize = 0;
        proof {
            self.lemma_shape();
        }
        while r < self.rows
            invariant
                r <= self.rows,
                self.well_formed(),
                has_shape(self@, self.rows as nat, self.cols as nat),
                self.row_count() == self.rows,
                self.col_count() == self.cols,
                x@.len() == self.cols,
                out@.len() == r,
                forall|q: int| 0 <= q < r ==> #[trigger] out@[q] == dot(self@[q], x@),
            decreases self.rows - r,
        {
            let mut acc: u8 = 0;
            let mut c: usize = 0;
            while c < self.cols
                invariant
                    c <= self.cols,
                    r < self.rows,
                    self.well_formed(),
                    self.row_count() == self.rows,
                    self.col_count() == self.cols,
                    x@.len() == self.cols,
                    acc == dot_to(self@[r as int], x@, c as nat),
                decreases self.cols - c,
            {
                if self.get(r, c) {
                    acc = acc ^ x[c];
                }
                c += 1;
            }
            out.push(acc);
            r += 1;
        }
        assert(out@ =~= product(self@, x@));
        out
    }
}

/// A vector with one element `v` other than zero, at place `c`, gives `v` in
/// the rows that have a one there, and zero in all others.
pub proof fn law_product_of_single_element(
    m: Seq<Seq<bool>>,
    rows: nat,
    n: nat,
    c: int,
    v: u8,
    r: int,
)
    requires
        has_shape(m, rows, n),
        0 <= c < n,
        0 <= r < rows,
    ensures
        product(m, zero_vector(n).update(c, v)).len() == rows,
        product(m, zero_vector(n).update(c, v))[r] == (if m[r][c] {
            v
        } else {
            0u8
        }),
{
    lemma_dot_single(m[r], n, c, v, n);
}

proof fn lemma_dot_single(row: Seq<bool>, n: nat, c: int, v: u8, k: nat)
    requires
        row.len() == n,
        0 <= c < n,
        k <= n,
    ensures
        dot_to(row, zero_vector(n).update(c, v), k) == (if c < k && row[c] {
            v
        } else {
            0u8
        }),
    decreases k,
{
    if k > 0 {
        lemma_dot_single(row, n, c, v, (k - 1) as nat);
        lemma_xor(v, 0, 0, 0);
        lemma_xor(0, 0, 0, 0);
    }
}

/// A sum of vectors gives the sum of the products.
pub proof fn law_product_is_linear(m: Seq<Seq<bool>>, x: Seq<u8>, y: Seq<u8>, n: nat, r: int)
    requires
        has_shape(m, m.len(), n),
        x.len() == n,
        y.len() == n,
        0 <= r < m.len(),
    ensures
        product(m, Seq::new(n, |i: int| x[i] ^ y[i]))[r] == product(m, x)[r] ^ product(m, y)[r],
{
    lemma_dot_sum(m[r], x, y, n, n);
}

proof fn lemma_dot_sum(row: Seq<bool>, x: Seq<u8>, y: Seq<u8>, n: nat, k: nat)
    requires
        x.len() == n,
        y.len() == n,
        k <= n,
    ensures
        dot_to(row, Seq::new(n, |i: int| x[i] ^ y[i]), k) == dot_to(row, x, k) ^ dot_to(row, y, k),
    decreases k,
{
    lemma_xor(0, 0, 0, 0);
    if k > 0 {
        lemma_dot_sum(row, x, y, n, (k - 1) as nat);
        lemma_xor(
            dot_to(row, x, (k - 1) as nat),
            dot_to(row, y, (k - 1) as nat),
            x[k - 1],
            y[k - 1],
        );
    }
}

} // verus!
