//! What min-sum decoding of the codes rests on, apart from its arithmetic: the
//! edges between checks and bits, the choice that a check makes among the
//! messages it gets, and the test whether hard decisions are a codeword.
//!
//! Message magnitudes are ordered by integer keys. The bit pattern of a float
//! that is not negative is such a key.
use super::codes::{CodeRate, LdpcCode, SparseEntry, CODED_BITS, LIFTING_FACTOR};
use vstd::prelude::*;

verus! {

/// The key of the largest finite single-precision float.
pub const MAX_KEY: u32 = 0x7F7F_FFFF;

/// Whether `key` is the smallest among `keys` without place `skip`, or the
/// largest key where nothing smaller is left.
pub open spec fn is_least_other(keys: Seq<u32>, skip: int, key: u32) -> bool {
    &&& key <= MAX_KEY
    &&& forall|j: int| 0 <= j < keys.len() && j != skip ==> key <= #[trigger] keys[j]
    &&& key == MAX_KEY || exists|j: int|
        0 <= j < keys.len() && j != skip && #[trigger] keys[j] == key
}

/// The smallest key, its place (the first one), and the smallest of the
/// others. Where there are fewer than two keys below the largest, the largest
/// key stands for what is missing.
pub fn two_smallest(keys: &[u32]) -> (r: (u32, usize, u32))
    ensures
        r.0 <= r.2 <= MAX_KEY,
        is_least_other(keys@, -1, r.0),
        r.0 < MAX_KEY ==> r.1 < keys@.len() && keys@[r.1 as int] == r.0 && (forall|j: int|
            0 <= j < r.1 ==> #[trigger] keys@[j] > r.0) && is_least_other(
            keys@,
            r.1 as int,
            r.2,
        ),
        r.0 == MAX_KEY ==> r.1 == 0 && r.2 == MAX_KEY,
{
    let mut min1: u32 = MAX_KEY;
    let mut min1_idx: usize = 0;
    let mut min2: u32 = MAX_KEY;
    let mut i: usize = 0;
    while i < keys.len()
        invariant
            i <= keys@.len(),
            min1 <= min2 <= MAX_KEY,
            is_least_other(keys@.take(i as int), -1, min1),
            min1 < MAX_KEY ==> min1_idx < i && keys@[min1_idx as int] == min1 && (forall|j: int|
                0 <= j < min1_idx ==> #[trigger] keys@[j] > min1) && is_least_other(
                keys@.take(i as int),
                min1_idx as int,
                min2,
            ),
            min1 == MAX_KEY ==> min1_idx == 0 && min2 == MAX_KEY,
        decreases keys@.len() - i,
    {
        let v: u32 = keys[i];
        let ghost before = keys@.take(i as int);
        let ghost after = keys@.take(i + 1);
        let ghost (old1, old_at, old2) = (min1, min1_idx as int, min2);
        proof {
            assert(after[i as int] == v);
            assert forall|j: int| 0 <= j < i implies #[trigger] after[j] == before[j] by {}
        }
        if v < min1 {
            min2 = min1;
            min1 = v;
            min1_idx = i;
            proof {
                assert forall|j: int| 0 <= j < i implies #[trigger] keys@[j] > v by {
                    assert(old1 <= before[j]);
                }
                assert(is_least_other(after, -1, v));
                if old1 < MAX_KEY {
                    assert(after[old_at] == old1);
                }
                assert forall|j: int| 0 <= j < after.len() && j != i implies old1
                    <= #[trigger] after[j] by {
                    assert(after[j] == before[j]);
                }
                assert(is_least_other(after, i as int, old1));
            }
        } else if v < min2 {
            min2 = v;
            proof {
                if old1 < MAX_KEY {
                    assert(after[old_at] == old1);
                    assert forall|j: int| 0 <= j < after.len() && j != old_at implies v
                        <= #[trigger] after[j] by {
                        if j < i {
                            assert(after[j] == before[j]);
                        }
                    }
                }
                assert forall|j: int| 0 <= j < after.len() && j != -1 implies old1
                    <= #[trigger] after[j] by {
                    if j < i {
                        assert(after[j] == before[j]);
                    }
                }
            }
        } else {
            proof {
                assert forall|j: int| 0 <= j < after.len() && j != -1 implies old1
                    <= #[trigger] after[j] by {
                    if j < i {
                        assert(after[j] == before[j]);
                    }
                }
                if old1 < MAX_KEY {
                    assert(after[old_at] == old1);
                    assert forall|j: int| 0 <= j < after.len() && j != old_at implies old2
                        <= #[trigger] after[j] by {
                        if j < i {
                            assert(after[j] == before[j]);
                        }
                    }
                    if old2 < MAX_KEY {
                        let w = choose|j: int|
                            0 <= j < before.len() && j != old_at && #[trigger] before[j] == old2;
                        assert(after[w] == old2);
                    }
                }
            }
        }
        i += 1;
    }
    assert(keys@.take(i as int) =~= keys@);
    (min1, min1_idx, min2)
}

/// Whether an odd number of the first `m` messages is negative.
pub open spec fn odd_negatives(negative: Seq<bool>, m: nat) -> bool
    decreases m,
{
    if m == 0 {
        false
    } else {
        odd_negatives(negative, (m - 1) as nat) != negative[m - 1]
    }
}

/// The message that a check sends along one edge: its sign, and the key of its
/// magnitude before scaling.
#[derive(Debug, Clone, Copy, PartialEq, Eq, Structural)]
pub struct CheckMessage {
    /// Whether the message is negative.
    pub negative: bool,
    /// The key of the magnitude.
    pub key: u32,
}

/// Signs multiply: leaving one message out leaves out its sign.
proof fn lemma_odd_without(negative: Seq<bool>, k: int, m: nat)
    requires
        0 <= k < negative.len(),
        m <= negative.len(),
    ensures
        odd_negatives(negative.update(k, false), m) == (if k < m {
            odd_negatives(negative, m) != negative[k]
        } else {
            odd_negatives(negative, m)
        }),
    decreases m,
{
    if m > 0 {
        lemma_odd_without(negative, k, (m - 1) as nat);
    }
}

/// The messages of a check node: along each edge the product of the other
/// signs and the smallest of the other magnitudes.
pub fn check_node(negative: &[bool], keys: &[u32]) -> (out: Vec<CheckMessage>)
    requires
        negative@.len() == keys@.len(),
    ensures
        out@.len() == keys@.len(),
        forall|k: int|
            0 <= k < keys@.len() ==> {
                &&& (#[trigger] out@[k]).negative == odd_negatives(
                    negative@.update(k, false),
                    negative@.len(),
                )
                &&& is_least_other(keys@, k, out@[k].key)
            },
{
    let n: usize = keys.len();
    let mut odd: bool = false;
    let mut i: usize = 0;
    while i < n
        invariant
            i <= n,
            n == negative@.len(),
            odd == odd_negatives(negative@, i as nat),
        decreases n - i,
    {
        odd = odd != negative[i];
        i += 1;
    }
    let (min1, min1_idx, min2): (u32, usize, u32) = two_smallest(keys);
    let mut out: Vec<CheckMessage> = Vec::new();
    let mut k: usize = 0;
    while k < n
        invariant
            k <= n,
            n == negative@.len(),
            n == keys@.len(),
            odd == odd_negatives(negative@, n as nat),
            min1 <= min2 <= MAX_KEY,
            is_least_other(keys@, -1, min1),
            min1 < MAX_KEY ==> min1_idx < n && keys@[min1_idx as int] == min1 && is_least_other(
                keys@,
                min1_idx as int,
                min2,
            ),
            min1 == MAX_KEY ==> min2 == MAX_KEY,
            out@.len() == k,
            forall|q: int|
                0 <= q < k ==> {
                    &&& (#[trigger] out@[q]).negative == odd_negatives(
                        negative@.update(q, false),
                        n as nat,
                    )
                    &&& is_least_other(keys@, q, out@[q].key)
                },
        decreases n - k,
    {
        let min_other: u32 = if k == min1_idx {
            min2
        } else {
            min1
        };
        proof {
            lemma_odd_without(negative@, k as int, n as nat);
            assert(is_least_other(keys@, k as int, min_other)) by {
                if k != min1_idx && min1 < MAX_KEY {
                    assert(keys@[min1_idx as int] == min1);
                }
                assert forall|j: int| 0 <= j < keys@.len() && j != k implies min_other
                    <= #[trigger] keys@[j] by {
                    assert(min1 <= keys@[j]);
                }
            }
        }
        out.push(CheckMessage { negative: odd != negative[k], key: min_other });
        k += 1;
    }
    out
}

/// The hard decision on a log-likelihood ratio, given as the bit pattern of a
/// single-precision float: zero where it is not negative, else one.
pub open spec fn hard_bit(llr: u32) -> u8 {
    if crate::link::float_order::is_at_least(llr, 0) {
        0
    } else {
        1
    }
}

/// Hard decisions.
pub fn hard_bits(llrs: &[u32]) -> (bits: Vec<u8>)
    ensures
        bits@ == llrs@.map_values(|l: u32| hard_bit(l)),
{
    let mut bits: Vec<u8> = Vec::new();
    let mut i: usize = 0;
    while i < llrs.len()
        invariant
            i <= llrs@.len(),
            bits@.len() == i,
            forall|k: int| 0 <= k < i ==> #[trigger] bits@[k] == hard_bit(llrs@[k]),
        decreases llrs@.len() - i,
    {
        if crate::link::float_order::at_least(llrs[i], 0) {
            bits.push(0);
        } else {
            bits.push(1);
        }
        i += 1;
    }
    assert(bits@ =~= llrs@.map_values(|l: u32| hard_bit(l)));
    bits
}

/// The check node of edge `e`.
pub open spec fn edge_check(rate: CodeRate, e: int) -> int {
    super::codes::blocks(rate)[e / LIFTING_FACTOR as int].base_row * LIFTING_FACTOR + e
        % LIFTING_FACTOR as int
}

/// The variable node of edge `e`.
pub open spec fn edge_var(rate: CodeRate, e: int) -> int {
    super::lifted::picked(
        super::codes::blocks(rate)[e / LIFTING_FACTOR as int],
        LIFTING_FACTOR as int,
        0,
        e % LIFTING_FACTOR as int,
    )
}

/// The edges of check `c` among the first `n`, with the variable at the other
/// end.
pub open spec fn edges_of_check(rate: CodeRate, c: int, n: nat) -> Seq<(usize, usize)>
    decreases n,
{
    if n == 0 {
        Seq::empty()
    } else if edge_check(rate, n - 1) == c {
        edges_of_check(rate, c, (n - 1) as nat).push(
            ((n - 1) as usize, edge_var(rate, n - 1) as usize),
        )
    } else {
        edges_of_check(rate, c, (n - 1) as nat)
    }
}

/// The edges of variable `v` among the first `n`, with the check at the other
/// end.
pub open spec fn edges_of_var(rate: CodeRate, v: int, n: nat) -> Seq<(usize, usize)>
    decreases n,
{
    if n == 0 {
        Seq::empty()
    } else if edge_var(rate, n - 1) == v {
        edges_of_var(rate, v, (n - 1) as nat).push(
            ((n - 1) as usize, edge_check(rate, n - 1) as usize),
        )
    } else {
        edges_of_var(rate, v, (n - 1) as nat)
    }
}

/// Number of edges of a code.
pub open spec fn edge_count(rate: CodeRate) -> nat {
    (super::codes::blocks(rate).len() * LIFTING_FACTOR) as nat
}

/// The edges of a code by check node and by variable node.
#[derive(Debug)]
pub struct TannerGraph {
    rate: CodeRate,
    check_to_edges: Vec<Vec<(usize, usize)>>,
    var_to_edges: Vec<Vec<(usize, usize)>>,
    num_edges: usize,
    num_checks: usize,
}

/// A graph is given by the rate of its code.
impl View for TannerGraph {
    type V = CodeRate;

    closed spec fn view(&self) -> CodeRate {
        self.rate
    }
}

impl TannerGraph {
    #[verifier::type_invariant]
    spec fn well_formed(self) -> bool {
        &&& self.num_edges == edge_count(self.rate)
        &&& self.num_checks == self.rate.check_rows() * LIFTING_FACTOR
        &&& self.check_to_edges@.len() == self.num_checks
        &&& self.var_to_edges@.len() == CODED_BITS
        &&& forall|c: int|
            0 <= c < self.num_checks ==> (#[trigger] self.check_to_edges@[c])@ == edges_of_check(
                self.rate,
                c,
                self.num_edges as nat,
            )
        &&& forall|v: int|
            0 <= v < CODED_BITS ==> (#[trigger] self.var_to_edges@[v])@ == edges_of_var(
                self.rate,
                v,
                self.num_edges as nat,
            )
    }

    /// The graph of a code.
    pub fn from_code(code: &LdpcCode) -> (g: Self)
        ensures
            g@ == code@,
    {
        let ghost rate = code@;
        let entries = code.entries();
        proof {
            super::codes::lemma_blocks_in_range(
                rate,
                (rate.check_rows() * super::codes::BASE_COLS) as nat,
            );
        }
        let num_checks: usize = code.base_rows() * LIFTING_FACTOR;
        let n: usize = entries.len();
        let num_edges: usize = n * LIFTING_FACTOR;
        let mut check_to_edges: Vec<Vec<(usize, usize)>> = empty_lists(num_checks);
        let mut var_to_edges: Vec<Vec<(usize, usize)>> = empty_lists(CODED_BITS);
        let mut b: usize = 0;
        while b < n
            invariant
                b <= n,
                n == entries@.len(),
                n <= 24 * 24,
                entries@ == super::codes::blocks(rate),
                forall|k: int|
                    0 <= k < n ==> (#[trigger] entries@[k]).base_row < rate.check_rows()
                        && entries@[k].base_col < super::codes::BASE_COLS && entries@[k].shift
                        < LIFTING_FACTOR,
                num_checks == rate.check_rows() * LIFTING_FACTOR,
                check_to_edges@.len() == num_checks,
                var_to_edges@.len() == CODED_BITS,
                forall|c: int|
                    0 <= c < num_checks ==> (#[trigger] check_to_edges@[c])@ == edges_of_check(
                        rate,
                        c,
                        (b * LIFTING_FACTOR) as nat,
                    ),
                forall|v: int|
                    0 <= v < CODED_BITS ==> (#[trigger] var_to_edges@[v])@ == edges_of_var(
                        rate,
                        v,
                        (b * LIFTING_FACTOR) as nat,
                    ),
            decreases n - b,
        {
            let entry: SparseEntry = entries[b];
            let mut i: usize = 0;
            while i < LIFTING_FACTOR
                invariant
                    i <= LIFTING_FACTOR,
                    b < n <= 24 * 24,
                    n == entries@.len(),
                    entries@ == super::codes::blocks(rate),
                    entry == entries@[b as int],
                    entry.base_row < rate.check_rows(),
                    entry.base_col < super::codes::BASE_COLS,
                    entry.shift < LIFTING_FACTOR,
                    num_checks == rate.check_rows() * LIFTING_FACTOR,
                    check_to_edges@.len() == num_checks,
                    var_to_edges@.len() == CODED_BITS,
                    forall|c: int|
                        0 <= c < num_checks ==> (#[trigger] check_to_edges@[c])@ == edges_of_check(
                            rate,
                            c,
                            (b * LIFTING_FACTOR + i) as nat,
                        ),
                    forall|v: int|
                        0 <= v < CODED_BITS ==> (#[trigger] var_to_edges@[v])@ == edges_of_var(
                            rate,
                            v,
                            (b * LIFTING_FACTOR + i) as nat,
                        ),
                decreases LIFTING_FACTOR - i,
            {
                let edge: usize = b * LIFTING_FACTOR + i;
                let check: usize = entry.base_row * LIFTING_FACTOR + i;
                let var: usize = entry.base_col * LIFTING_FACTOR + (i + entry.shift)
                    % LIFTING_FACTOR;
                proof {
                    assert(edge / LIFTING_FACTOR == b);
                    assert(edge % LIFTING_FACTOR == i);
                    assert(edge_check(rate, edge as int) == check);
                    assert(edge_var(rate, edge as int) == var);
                }
                check_to_edges[check].push((edge, var));
                var_to_edges[var].push((edge, check));
                i += 1;
            }
            b += 1;
        }
        TannerGraph { rate: code.rate(), check_to_edges, var_to_edges, num_edges, num_checks }
    }
}

/// XOR of the bits at the far ends of a list of edges.
pub open spec fn list_sum(list: Seq<(usize, usize)>, word: Seq<u8>) -> u8
    decreases list.len(),
{
    if list.len() == 0 {
        0
    } else {
        list_sum(list.drop_last(), word) ^ word[list.last().1 as int]
    }
}

/// The edges that block `b` adds to a check.
proof fn lemma_edges_of_block(rate: CodeRate, r: int, i: int, b: int, q: nat)
    requires
        0 <= b < super::codes::blocks(rate).len(),
        0 <= i < LIFTING_FACTOR,
        q <= LIFTING_FACTOR,
    ensures
        edges_of_check(rate, r * LIFTING_FACTOR + i, (b * LIFTING_FACTOR + q) as nat) == (
        if super::codes::blocks(rate)[b].base_row == r && i < q {
            edges_of_check(rate, r * LIFTING_FACTOR + i, (b * LIFTING_FACTOR) as nat).push(
                (
                    (b * LIFTING_FACTOR + i) as usize,
                    edge_var(rate, b * LIFTING_FACTOR + i) as usize,
                ),
            )
        } else {
            edges_of_check(rate, r * LIFTING_FACTOR + i, (b * LIFTING_FACTOR) as nat)
        }),
    decreases q,
{
    if q > 0 {
        lemma_edges_of_block(rate, r, i, b, (q - 1) as nat);
        let e = b * LIFTING_FACTOR + q - 1;
        assert(e / LIFTING_FACTOR as int == b);
        assert(e % LIFTING_FACTOR as int == q - 1);
    }
}

/// The edges of a check give the sum of its row.
proof fn lemma_list_sum(rate: CodeRate, word: Seq<u8>, r: int, i: int, b: nat)
    requires
        b <= super::codes::blocks(rate).len(),
        0 <= i < LIFTING_FACTOR,
    ensures
        list_sum(
            edges_of_check(rate, r * LIFTING_FACTOR + i, (b * LIFTING_FACTOR) as nat),
            word,
        ) == super::lifted::row_sum(
            super::codes::blocks(rate).take(b as int),
            LIFTING_FACTOR as int,
            0,
            super::codes::BASE_COLS as int,
            word,
            0,
            r,
            i,
        ),
    decreases b,
{
    let all = super::codes::blocks(rate);
    if b > 0 {
        lemma_list_sum(rate, word, r, i, (b - 1) as nat);
        lemma_edges_of_block(rate, r, i, b - 1, LIFTING_FACTOR as nat);
        super::codes::lemma_blocks_in_range(
            rate,
            (rate.check_rows() * super::codes::BASE_COLS) as nat,
        );
        super::lifted::lemma_row_sum_next(
            all,
            b - 1,
            LIFTING_FACTOR as int,
            0,
            super::codes::BASE_COLS as int,
            word,
            0,
            r,
            i,
        );
        assert((b - 1) * LIFTING_FACTOR + LIFTING_FACTOR == b * LIFTING_FACTOR);
        let c = r * LIFTING_FACTOR + i;
        let before = edges_of_check(rate, c, ((b - 1) * LIFTING_FACTOR) as nat);
        let e = (b - 1) * LIFTING_FACTOR + i;
        assert(e / LIFTING_FACTOR as int == b - 1);
        assert(e % LIFTING_FACTOR as int == i);
        let last = (e as usize, edge_var(rate, e) as usize);
        assert(before.push(last).drop_last() =~= before);
        assert(all[b - 1].base_col < super::codes::BASE_COLS);
        assert(0 <= edge_var(rate, e) < CODED_BITS);
    } else {
        assert(all.take(0) =~= Seq::empty());
    }
}

/// Every edge in the lists has its ends inside the graph.
proof fn lemma_edge_range(rate: CodeRate, c: int, n: nat)
    requires
        n <= edge_count(rate),
    ensures
        forall|k: int|
            0 <= k < edges_of_check(rate, c, n).len() ==> (#[trigger] edges_of_check(
                rate,
                c,
                n,
            )[k]).1 < CODED_BITS && edges_of_check(rate, c, n)[k].0 < n,
    decreases n,
{
    if n > 0 {
        lemma_edge_range(rate, c, (n - 1) as nat);
        super::codes::lemma_blocks_in_range(
            rate,
            (rate.check_rows() * super::codes::BASE_COLS) as nat,
        );
        let b = (n - 1) / LIFTING_FACTOR as int;
        assert(super::codes::blocks(rate)[b].base_col < super::codes::BASE_COLS);
        assert(0 <= edge_var(rate, n - 1) < CODED_BITS);
        assert(n <= 24 * 24 * 81);
        let before = edges_of_check(rate, c, (n - 1) as nat);
        let after = edges_of_check(rate, c, n);
        assert forall|k: int| 0 <= k < after.len() implies (#[trigger] after[k]).1 < CODED_BITS
            && after[k].0 < n by {
            if k < before.len() {
                assert(after[k] == before[k]);
            } else {
                assert(after[k].1 == edge_var(rate, n - 1) as usize);
                assert(after[k].0 == (n - 1) as usize);
            }
        }
    }
}

impl TannerGraph {
    /// Number of edges.
    pub fn num_edges(&self) -> (n: usize)
        ensures
            n == edge_count(self@),
    {
        proof {
            use_type_invariant(self);
        }
        self.num_edges
    }

    /// Number of check nodes.
    pub fn num_checks(&self) -> (n: usize)
        ensures
            n == self@.check_rows() * LIFTING_FACTOR,
    {
        proof {
            use_type_invariant(self);
        }
        self.num_checks
    }

    /// The edges of a check: their numbers, and the variables at the other end.
    pub fn check_edges(&self, check: usize) -> (edges: &[(usize, usize)])
        requires
            check < self@.check_rows() * LIFTING_FACTOR,
        ensures
            edges@ == edges_of_check(self@, check as int, edge_count(self@)),
    {
        proof {
            use_type_invariant(self);
        }
        self.check_to_edges[check].as_slice()
    }

    /// The edges of a variable: their numbers, and the checks at the other end.
    pub fn var_edges(&self, var: usize) -> (edges: &[(usize, usize)])
        requires
            var < CODED_BITS,
        ensures
            edges@ == edges_of_var(self@, var as int, edge_count(self@)),
    {
        proof {
            use_type_invariant(self);
        }
        self.var_to_edges[var].as_slice()
    }

    /// Whether hard decisions satisfy every parity check.
    pub fn check_syndrome(&self, hard: &[u8]) -> (ok: bool)
        requires
            hard@.len() == CODED_BITS,
        ensures
            ok == super::codes::is_codeword(self@, hard@),
    {
        proof {
            use_type_invariant(self);
        }
        let mut check: usize = 0;
        while check < self.num_checks
            invariant
                check <= self.num_checks,
                self.num_edges == edge_count(self@),
                self.num_checks == self@.check_rows() * LIFTING_FACTOR,
                self.check_to_edges@.len() == self.num_checks,
                forall|c: int|
                    0 <= c < self.num_checks ==> (#[trigger] self.check_to_edges@[c])@
                        == edges_of_check(self@, c, self.num_edges as nat),
                hard@.len() == CODED_BITS,
                forall|r: int, i: int|
                    0 <= r && 0 <= i < LIFTING_FACTOR && r * LIFTING_FACTOR + i < check
                        ==> #[trigger] super::codes::parity_check(self@, hard@, r, i) == 0,
            decreases self.num_checks - check,
        {
            let edges = &self.check_to_edges[check];
            let ghost list = edges@;
            let ghost r = check as int / LIFTING_FACTOR as int;
            let ghost i = check as int % LIFTING_FACTOR as int;
            proof {
                lemma_edge_range(self@, check as int, edge_count(self@));
                lemma_list_sum(self@, hard@, r, i, super::codes::blocks(self@).len());
                assert(super::codes::blocks(self@).take(super::codes::blocks(self@).len() as int)
                    =~= super::codes::blocks(self@));
            }
            let mut syndrome: u8 = 0;
            let mut k: usize = 0;
            assert(list.take(0) =~= Seq::empty());
            while k < edges.len()
                invariant
                    k <= list.len(),
                    edges@ == list,
                    hard@.len() == CODED_BITS,
                    forall|q: int| 0 <= q < list.len() ==> (#[trigger] list[q]).1 < CODED_BITS,
                    syndrome == list_sum(list.take(k as int), hard@),
                decreases list.len() - k,
            {
                proof {
                    assert(list.take(k + 1).drop_last() =~= list.take(k as int));
                    assert(list.take(k + 1).last() == list[k as int]);
                }
                syndrome = syndrome ^ hard[edges[k].1];
                k += 1;
            }
            proof {
                assert(list.take(k as int) =~= list);
                assert(syndrome == super::codes::parity_check(self@, hard@, r, i));
            }
            if syndrome != 0 {
                return false;
            }
            proof {
                assert forall|p: int, j: int|
                    0 <= p && 0 <= j < LIFTING_FACTOR && p * LIFTING_FACTOR + j < check
                        + 1 implies #[trigger] super::codes::parity_check(self@, hard@, p, j)
                    == 0 by {
                    if p * LIFTING_FACTOR + j == check {
                        assert(p == r && j == i);
                    }
                }
            }
            check += 1;
        }
        true
    }
}

/// A list of `n` empty lists.
fn empty_lists(n: usize) -> (lists: Vec<Vec<(usize, usize)>>)
    ensures
        lists@.len() == n,
        forall|c: int| 0 <= c < n ==> (#[trigger] lists@[c])@ == Seq::<(usize, usize)>::empty(),
{
    let mut lists: Vec<Vec<(usize, usize)>> = Vec::new();
    let mut c: usize = 0;
    while c < n
        invariant
            c <= n,
            lists@.len() == c,
            forall|q: int|
                0 <= q < c ==> (#[trigger] lists@[q])@ == Seq::<(usize, usize)>::empty(),
        decreases n - c,
    {
        lists.push(Vec::new());
        c += 1;
    }
    lists
}

/// The blocks of row `r` among the first `n` entries of a graph: column and
/// shift.
pub open spec fn row_blocks(graph: Seq<SparseEntry>, r: int, n: nat) -> Seq<(usize, usize)>
    decreases n,
{
    if n == 0 {
        Seq::empty()
    } else if graph[n - 1].base_row == r {
        row_blocks(graph, r, (n - 1) as nat).push((graph[n - 1].base_col, graph[n - 1].shift))
    } else {
        row_blocks(graph, r, (n - 1) as nat)
    }
}

/// Number of blocks, among the first `n` entries, in the rows before `r`.
pub open spec fn blocks_above(graph: Seq<SparseEntry>, r: nat, n: nat) -> nat
    decreases r,
{
    if r == 0 {
        0
    } else {
        blocks_above(graph, (r - 1) as nat, n) + row_blocks(graph, r - 1, n).len()
    }
}

/// The variable that sub-row `i` of a block meets.
pub open spec fn block_var(block: (usize, usize), i: int) -> int {
    block.0 * super::nr_bg2::ZC + (i + block.1) % (super::nr_bg2::ZC as int)
}

/// XOR of the bits that sub-row `i` of the first `k` blocks of a row meets.
pub open spec fn sub_row_sum(list: Seq<(usize, usize)>, word: Seq<u8>, i: int, k: nat) -> u8
    decreases k,
{
    if k == 0 {
        0
    } else {
        sub_row_sum(list, word, i, (k - 1) as nat) ^ word[block_var(list[k - 1], i)]
    }
}

/// The sum does not depend on what follows in the list.
proof fn lemma_sub_row_push(
    list: Seq<(usize, usize)>,
    last: (usize, usize),
    word: Seq<u8>,
    i: int,
    k: nat,
)
    requires
        k <= list.len(),
    ensures
        sub_row_sum(list.push(last), word, i, k) == sub_row_sum(list, word, i, k),
    decreases k,
{
    if k > 0 {
        lemma_sub_row_push(list, last, word, i, (k - 1) as nat);
    }
}

/// The blocks of a row give the sum of the row.
proof fn lemma_sub_row_sum(graph: Seq<SparseEntry>, word: Seq<u8>, r: int, i: int, n: nat)
    requires
        n <= graph.len(),
        super::nr_bg2::is_base_graph(graph),
    ensures
        sub_row_sum(row_blocks(graph, r, n), word, i, row_blocks(graph, r, n).len())
            == super::lifted::row_sum(
            graph.take(n as int),
            super::nr_bg2::ZC as int,
            0,
            super::nr_bg2::BASE_COLS as int,
            word,
            0,
            r,
            i,
        ),
    decreases n,
{
    if n > 0 {
        lemma_sub_row_sum(graph, word, r, i, (n - 1) as nat);
        super::lifted::lemma_row_sum_next(
            graph,
            n - 1,
            super::nr_bg2::ZC as int,
            0,
            super::nr_bg2::BASE_COLS as int,
            word,
            0,
            r,
            i,
        );
        assert(super::nr_bg2::entry_fits(graph[n - 1]));
        let before = row_blocks(graph, r, (n - 1) as nat);
        let last = (graph[n - 1].base_col, graph[n - 1].shift);
        lemma_sub_row_push(before, last, word, i, before.len());
    } else {
        assert(graph.take(0) =~= Seq::empty());
    }
}

/// Every block of a row stands inside the graph.
proof fn lemma_row_blocks_range(graph: Seq<SparseEntry>, r: int, n: nat)
    requires
        n <= graph.len(),
        super::nr_bg2::is_base_graph(graph),
    ensures
        row_blocks(graph, r, n).len() <= n,
        forall|k: int|
            0 <= k < row_blocks(graph, r, n).len() ==> (#[trigger] row_blocks(graph, r, n)[k]).0
                < super::nr_bg2::BASE_COLS && row_blocks(graph, r, n)[k].1 < super::nr_bg2::ZC,
    decreases n,
{
    if n > 0 {
        lemma_row_blocks_range(graph, r, (n - 1) as nat);
        assert(super::nr_bg2::entry_fits(graph[n - 1]));
    }
}

/// The number of blocks above a row after one more entry.
proof fn lemma_blocks_above_next(graph: Seq<SparseEntry>, r: nat, n: nat)
    requires
        n < graph.len(),
    ensures
        blocks_above(graph, r, n + 1) == blocks_above(graph, r, n) + (if graph[n as int].base_row
            < r {
            1nat
        } else {
            0nat
        }),
    decreases r,
{
    if r > 0 {
        lemma_blocks_above_next(graph, (r - 1) as nat, n);
    }
}

/// All rows together have every entry.
proof fn lemma_blocks_total(graph: Seq<SparseEntry>, n: nat)
    requires
        n <= graph.len(),
        super::nr_bg2::is_base_graph(graph),
    ensures
        blocks_above(graph, super::nr_bg2::BASE_ROWS as nat, n) == n,
    decreases n,
{
    if n > 0 {
        lemma_blocks_total(graph, (n - 1) as nat);
        lemma_blocks_above_next(graph, super::nr_bg2::BASE_ROWS as nat, (n - 1) as nat);
        assert(super::nr_bg2::entry_fits(graph[n - 1]));
    } else {
        lemma_blocks_above_none(graph, super::nr_bg2::BASE_ROWS as nat);
    }
}

proof fn lemma_blocks_above_none(graph: Seq<SparseEntry>, r: nat)
    ensures
        blocks_above(graph, r, 0) == 0,
    decreases r,
{
    if r > 0 {
        lemma_blocks_above_none(graph, (r - 1) as nat);
    }
}

/// Fewer rows have fewer blocks.
proof fn lemma_blocks_above_grows(graph: Seq<SparseEntry>, r: nat, s: nat, n: nat)
    requires
        r <= s,
    ensures
        blocks_above(graph, r, n) <= blocks_above(graph, s, n),
    decreases s,
{
    if r < s {
        lemma_blocks_above_grows(graph, r, (s - 1) as nat, n);
    }
}

/// The rows of a base graph, each a layer of a row-by-row schedule, with the
/// variable of every edge computed once.
#[derive(Debug)]
pub struct NrBg2Layers {
    graph: super::nr_bg2::BaseGraph,
    rows_edges: Vec<Vec<(usize, usize)>>,
    edge_offset: Vec<usize>,
    total_edges_unlifted: usize,
    var_table: Vec<Vec<usize>>,
}

/// The layers are given by their graph.
impl View for NrBg2Layers {
    type V = Seq<SparseEntry>;

    closed spec fn view(&self) -> Seq<SparseEntry> {
        self.graph@
    }
}

/// Whether a table holds the variables of a row, sub-row by sub-row.
pub open spec fn is_var_table(table: Seq<usize>, list: Seq<(usize, usize)>) -> bool {
    &&& table.len() == super::nr_bg2::ZC * list.len()
    &&& forall|i: int, k: int|
        0 <= i < super::nr_bg2::ZC && 0 <= k < list.len() ==> table[#[trigger] table_index(
            list,
            i,
            k,
        )] == block_var(list[k], i)
}

/// Place in the table of edge `k` of sub-row `i`.
pub open spec fn table_index(list: Seq<(usize, usize)>, i: int, k: int) -> int {
    i * list.len() + k
}

proof fn lemma_table_index(n: int, i: int, k: int, z: int)
    requires
        0 <= i < z,
        0 <= k < n,
    ensures
        0 <= i * n,
        0 <= i * n + k < z * n,
{
    assert(0 <= i * n && i * n + k < z * n) by (nonlinear_arith)
        requires
            0 <= i < z,
            0 <= k < n,
    ;
}

/// The variables of a row, sub-row by sub-row.
fn row_table(edges: &[(usize, usize)]) -> (table: Vec<usize>)
    requires
        forall|k: int|
            0 <= k < edges@.len() ==> (#[trigger] edges@[k]).0 < super::nr_bg2::BASE_COLS
                && edges@[k].1 < super::nr_bg2::ZC,
    ensures
        is_var_table(table@, edges@),
{
    let z: usize = super::nr_bg2::ZC;
    let deg: usize = edges.len();
    let mut table: Vec<usize> = Vec::new();
    let mut i: usize = 0;
    while i < z
        invariant
            i <= z,
            z == 176,
            deg == edges@.len(),
            forall|k: int|
                0 <= k < edges@.len() ==> (#[trigger] edges@[k]).0 < super::nr_bg2::BASE_COLS
                    && edges@[k].1 < super::nr_bg2::ZC,
            table@.len() == i * deg,
            forall|p: int, k: int|
                0 <= p < i && 0 <= k < deg ==> table@[#[trigger] table_index(edges@, p, k)]
                    == block_var(edges@[k], p),
        decreases z - i,
    {
        let mut k: usize = 0;
        while k < deg
            invariant
                k <= deg,
                i < z,
                z == 176,
                deg == edges@.len(),
                forall|k: int|
                    0 <= k < edges@.len() ==> (#[trigger] edges@[k]).0 < super::nr_bg2::BASE_COLS
                        && edges@[k].1 < super::nr_bg2::ZC,
                table@.len() == i * deg + k,
                forall|p: int, q: int|
                    0 <= p <= i && 0 <= q < deg && (p < i || q < k) ==> table@[
                    #[trigger] table_index(edges@, p, q)] == block_var(edges@[q], p),
            decreases deg - k,
        {
            let (col, shift): (usize, usize) = edges[k];
            let ghost before = table@;
            table.push(col * z + (i + shift) % z);
            proof {
                assert forall|p: int, q: int|
                    0 <= p <= i && 0 <= q < deg && (p < i || q < k + 1) implies table@[
                #[trigger] table_index(edges@, p, q)] == block_var(edges@[q], p) by {
                    if p < i {
                        lemma_table_index(deg as int, p, q, i as int);
                    }
                    if p < i || q < k {
                        assert(before[table_index(edges@, p, q)] == block_var(edges@[q], p));
                    }
                }
            }
            k += 1;
        }
        proof {
            assert((i + 1) * deg == i * deg + deg) by (nonlinear_arith);
        }
        i += 1;
    }
    table
}

impl NrBg2Layers {
    #[verifier::type_invariant]
    spec fn well_formed(self) -> bool {
        let graph = self.graph@;
        &&& super::nr_bg2::is_base_graph(graph)
        &&& self.rows_edges@.len() == super::nr_bg2::BASE_ROWS
        &&& self.edge_offset@.len() == super::nr_bg2::BASE_ROWS
        &&& self.var_table@.len() == super::nr_bg2::BASE_ROWS
        &&& self.total_edges_unlifted == graph.len()
        &&& forall|r: int|
            0 <= r < super::nr_bg2::BASE_ROWS ==> {
                &&& (#[trigger] self.rows_edges@[r])@ == row_blocks(graph, r, graph.len())
                &&& self.edge_offset@[r] == blocks_above(graph, r as nat, graph.len())
                &&& is_var_table(self.var_table@[r]@, row_blocks(graph, r, graph.len()))
            }
    }

    /// The layers of a graph.
    pub fn new(graph: &super::nr_bg2::BaseGraph) -> (layers: Self)
        ensures
            layers@ == graph@,
    {
        let entries = graph.entries();
        let ghost g = graph@;
        let n: usize = entries.len();
        let mut rows_edges: Vec<Vec<(usize, usize)>> = empty_lists(super::nr_bg2::BASE_ROWS);
        let mut j: usize = 0;
        while j < n
            invariant
                j <= n,
                n == entries@.len(),
                entries@ == g,
                super::nr_bg2::is_base_graph(g),
                rows_edges@.len() == super::nr_bg2::BASE_ROWS,
                forall|r: int|
                    0 <= r < super::nr_bg2::BASE_ROWS ==> (#[trigger] rows_edges@[r])@
                        == row_blocks(g, r, j as nat),
            decreases n - j,
        {
            let e: SparseEntry = entries[j];
            assert(super::nr_bg2::entry_fits(entries@[j as int]));
            rows_edges[e.base_row].push((e.base_col, e.shift));
            j += 1;
        }
        let mut edge_offset: Vec<usize> = Vec::new();
        let mut var_table: Vec<Vec<usize>> = Vec::new();
        let mut cum: usize = 0;
        let mut r: usize = 0;
        while r < super::nr_bg2::BASE_ROWS
            invariant
                r <= super::nr_bg2::BASE_ROWS,
                n == g.len(),
                super::nr_bg2::is_base_graph(g),
                rows_edges@.len() == super::nr_bg2::BASE_ROWS,
                forall|q: int|
                    0 <= q < super::nr_bg2::BASE_ROWS ==> (#[trigger] rows_edges@[q])@
                        == row_blocks(g, q, n as nat),
                cum == blocks_above(g, r as nat, n as nat),
                edge_offset@.len() == r,
                var_table@.len() == r,
                forall|q: int|
                    0 <= q < r ==> #[trigger] edge_offset@[q] == blocks_above(g, q as nat, n as nat),
                forall|q: int|
                    0 <= q < r ==> is_var_table(
                        (#[trigger] var_table@[q])@,
                        row_blocks(g, q, n as nat),
                    ),
            decreases super::nr_bg2::BASE_ROWS - r,
        {
            proof {
                lemma_row_blocks_range(g, r as int, n as nat);
                lemma_blocks_total(g, n as nat);
                lemma_blocks_above_grows(
                    g,
                    (r + 1) as nat,
                    super::nr_bg2::BASE_ROWS as nat,
                    n as nat,
                );
            }
            edge_offset.push(cum);
            var_table.push(row_table(rows_edges[r].as_slice()));
            cum = cum + rows_edges[r].len();
            r += 1;
        }
        proof {
            lemma_blocks_total(g, n as nat);
        }
        NrBg2Layers {
            graph: graph.clone(),
            rows_edges,
            edge_offset,
            total_edges_unlifted: cum,
            var_table,
        }
    }

    /// Number of variables of the graph.
    pub fn num_vars(&self) -> (n: usize)
        ensures
            n == super::nr_bg2::BASE_COLS * super::nr_bg2::ZC,
    {
        super::nr_bg2::BASE_COLS * super::nr_bg2::ZC
    }

    /// Number of blocks of the graph.
    pub fn total_edges(&self) -> (n: usize)
        ensures
            n == self@.len(),
    {
        proof {
            use_type_invariant(self);
        }
        self.total_edges_unlifted
    }

    /// The blocks of a row: column and shift.
    pub fn row_edges(&self, r: usize) -> (edges: &[(usize, usize)])
        requires
            r < super::nr_bg2::BASE_ROWS,
        ensures
            edges@ == row_blocks(self@, r as int, self@.len()),
    {
        proof {
            use_type_invariant(self);
        }
        self.rows_edges[r].as_slice()
    }

    /// Number of blocks in the rows before a row.
    pub fn edge_offset(&self, r: usize) -> (n: usize)
        requires
            r < super::nr_bg2::BASE_ROWS,
        ensures
            n == blocks_above(self@, r as nat, self@.len()),
    {
        proof {
            use_type_invariant(self);
            assert(self.rows_edges@[r as int]@ == row_blocks(
                self.graph@,
                r as int,
                self.graph@.len(),
            ));
        }
        self.edge_offset[r]
    }

    /// The variables of a row, sub-row by sub-row.
    pub fn row_vars(&self, r: usize) -> (table: &[usize])
        requires
            r < super::nr_bg2::BASE_ROWS,
        ensures
            is_var_table(table@, row_blocks(self@, r as int, self@.len())),
    {
        proof {
            use_type_invariant(self);
            assert(self.rows_edges@[r as int]@ == row_blocks(
                self.graph@,
                r as int,
                self.graph@.len(),
            ));
        }
        self.var_table[r].as_slice()
    }

    /// XOR of the hard decisions that sub-row `i` of row `r` meets.
    fn sub_row_syndrome(&self, hard: &[u8], r: usize, i: usize) -> (sum: u8)
        requires
            hard@.len() == super::nr_bg2::BASE_COLS * super::nr_bg2::ZC,
            r < super::nr_bg2::BASE_ROWS,
            i < super::nr_bg2::ZC,
        ensures
            sum == super::nr_bg2::parity_check(self@, hard@, r as int, i as int),
    {
        proof {
            use_type_invariant(self);
        }
        let ghost list = row_blocks(self@, r as int, self@.len());
        let table = self.row_vars(r);
        let deg: usize = self.row_edges(r).len();
        proof {
            lemma_row_blocks_range(self@, r as int, self@.len());
            lemma_sub_row_sum(self@, hard@, r as int, i as int, self@.len());
            assert(self@.take(self@.len() as int) =~= self@);
        }
        let size: usize = table.len();
        let mut sum: u8 = 0;
        let mut k: usize = 0;
        while k < deg
            invariant
                k <= deg,
                deg == list.len(),
                i < super::nr_bg2::ZC,
                size == table@.len(),
                is_var_table(table@, list),
                hard@.len() == super::nr_bg2::BASE_COLS * super::nr_bg2::ZC,
                forall|q: int|
                    0 <= q < list.len() ==> (#[trigger] list[q]).0 < super::nr_bg2::BASE_COLS
                        && list[q].1 < super::nr_bg2::ZC,
                sum == sub_row_sum(list, hard@, i as int, k as nat),
            decreases deg - k,
        {
            proof {
                lemma_table_index(deg as int, i as int, k as int, 176);
                assert(table@[table_index(list, i as int, k as int)] == block_var(
                    list[k as int],
                    i as int,
                ));
                assert(0 <= block_var(list[k as int], i as int) < hard@.len());
            }
            sum = sum ^ hard[table[i * deg + k]];
            k += 1;
        }
        sum
    }

    /// Whether hard decisions satisfy every parity check.
    pub fn check_syndrome(&self, hard: &[u8]) -> (ok: bool)
        requires
            hard@.len() == super::nr_bg2::BASE_COLS * super::nr_bg2::ZC,
        ensures
            ok == super::nr_bg2::is_codeword(self@, hard@),
    {
        let mut r: usize = 0;
        while r < super::nr_bg2::BASE_ROWS
            invariant
                r <= super::nr_bg2::BASE_ROWS,
                hard@.len() == super::nr_bg2::BASE_COLS * super::nr_bg2::ZC,
                forall|q: int, i: int|
                    0 <= q < r && 0 <= i < super::nr_bg2::ZC
                        ==> #[trigger] super::nr_bg2::parity_check(self@, hard@, q, i) == 0,
            decreases super::nr_bg2::BASE_ROWS - r,
        {
            let mut i: usize = 0;
            while i < super::nr_bg2::ZC
                invariant
                    i <= super::nr_bg2::ZC,
                    r < super::nr_bg2::BASE_ROWS,
                    hard@.len() == super::nr_bg2::BASE_COLS * super::nr_bg2::ZC,
                    forall|q: int, p: int|
                        0 <= q <= r && 0 <= p < super::nr_bg2::ZC && (q < r || p < i)
                            ==> #[trigger] super::nr_bg2::parity_check(self@, hard@, q, p) == 0,
                decreases super::nr_bg2::ZC - i,
            {
                if self.sub_row_syndrome(hard, r, i) != 0 {
                    return false;
                }
                i += 1;
            }
            r += 1;
        }
        true
    }
}

/// The magnitude that a check sends along edge `k`: not above any other one that
/// it got, and one of those, or the largest finite one where they are larger or
/// there are none.
pub proof fn law_least_of_the_others(keys: Seq<u32>, k: int, key: u32)
    requires
        forall|j: int| 0 <= j < keys.len() ==> #[trigger] keys[j] <= 0x7F7F_FFFF,
    ensures
        is_least_other(keys, k, key) ==> key <= 0x7F7F_FFFF,
        is_least_other(keys, k, key) ==> forall|j: int|
            0 <= j < keys.len() && j != k ==> key <= #[trigger] keys[j],
        is_least_other(keys, k, key) && (keys.len() > 1 || keys.len() == 1 && k != 0) ==> exists|
            j: int,
        |
            0 <= j < keys.len() && j != k && #[trigger] keys[j] == key,
        is_least_other(keys, k, key) && (keys.len() == 0 || keys.len() == 1 && k == 0) ==> key
            == 0x7F7F_FFFF,
{
    if is_least_other(keys, k, key) && (keys.len() > 1 || keys.len() == 1 && k != 0) {
        let j: int = if k == 0 {
            1
        } else {
            0
        };
        assert(key <= keys[j]);
        if key == MAX_KEY {
            assert(keys[j] == key);
        }
    }
}

/// A product of signs is negative exactly when the number of negative ones is
/// odd.
pub proof fn law_product_of_signs(negative: Seq<bool>, m: nat)
    ensures
        ({
            let places = Set::new(|i: int| 0 <= i < m && negative[i]);
            &&& places.finite()
            &&& odd_negatives(negative, m) == (places.len() % 2 == 1)
        }),
    decreases m,
{
    let places = Set::new(|i: int| 0 <= i < m && negative[i]);
    if m == 0 {
        assert(places =~= Set::empty());
    } else {
        law_product_of_signs(negative, (m - 1) as nat);
        let before = Set::new(|i: int| 0 <= i < (m - 1) as nat && negative[i]);
        if negative[m - 1] {
            assert(places =~= before.insert(m - 1));
        } else {
            assert(places =~= before);
        }
    }
}

/// The hard decision is zero for patterns of numbers that are not negative, both
/// zeros among them, and one for all others.
pub proof fn law_hard_decision(llr: u32)
    ensures
        (hard_bit(llr) == 0) == (llr <= 0x7F80_0000 || llr == 0x8000_0000),
        hard_bit(llr) <= 1,
{
}

/// Edge `e` belongs to row `e % 81` of block `e / 81`: its check is that row of
/// the block's row, and its variable the element of the block's column that the
/// row plus the shift comes to, around the block.
pub proof fn law_edge_ends(rate: CodeRate, b: int, i: int)
    requires
        0 <= i < 81,
    ensures
        ({
            let block = super::codes::blocks(rate)[b];
            &&& edge_check(rate, b * 81 + i) == block.base_row * 81 + i
            &&& edge_var(rate, b * 81 + i) == block.base_col * 81 + (i + block.shift) % 81
        }),
        edge_count(rate) == super::codes::blocks(rate).len() * 81,
{
    assert((b * 81 + i) / 81 == b);
    assert((b * 81 + i) % 81 == i);
}

/// The list of a check has exactly its edges, each once and in ascending order,
/// each with its variable.
pub proof fn law_edges_of_check(rate: CodeRate, c: int, n: nat)
    requires
        n <= usize::MAX,
    ensures
        forall|e: int|
            0 <= e < n && #[trigger] edge_check(rate, e) == c ==> edges_of_check(rate, c, n).contains(
                (e as usize, edge_var(rate, e) as usize),
            ),
        forall|k: int|
            0 <= k < edges_of_check(rate, c, n).len() ==> {
                let (e, v) = #[trigger] edges_of_check(rate, c, n)[k];
                e < n && edge_check(rate, e as int) == c && v == edge_var(rate, e as int) as usize
            },
        forall|k: int, l: int|
            0 <= k < l < edges_of_check(rate, c, n).len() ==> (#[trigger] edges_of_check(
                rate,
                c,
                n,
            )[k]).0 < (#[trigger] edges_of_check(rate, c, n)[l]).0,
    decreases n,
{
    if n > 0 {
        law_edges_of_check(rate, c, (n - 1) as nat);
        let before = edges_of_check(rate, c, (n - 1) as nat);
        let after = edges_of_check(rate, c, n);
        let last = ((n - 1) as usize, edge_var(rate, n - 1) as usize);
        if edge_check(rate, n - 1) == c {
            assert(after == before.push(last));
            assert(after[before.len() as int] == last);
        }
        assert forall|e: int| 0 <= e < n && #[trigger] edge_check(rate, e) == c implies after.contains(
            (e as usize, edge_var(rate, e) as usize),
        ) by {
            if e < n - 1 {
                let x = (e as usize, edge_var(rate, e) as usize);
                let k = before.index_of(x);
                assert(before.contains(x));
                assert(before[k] == x);
                assert(after[k] == x);
            }
        }
    }
}

/// The list of a variable has exactly its edges, each once and in ascending
/// order, each with its check.
pub proof fn law_edges_of_var(rate: CodeRate, v: int, n: nat)
    requires
        n <= usize::MAX,
    ensures
        forall|e: int|
            0 <= e < n && #[trigger] edge_var(rate, e) == v ==> edges_of_var(rate, v, n).contains(
                (e as usize, edge_check(rate, e) as usize),
            ),
        forall|k: int|
            0 <= k < edges_of_var(rate, v, n).len() ==> {
                let (e, c) = #[trigger] edges_of_var(rate, v, n)[k];
                e < n && edge_var(rate, e as int) == v && c == edge_check(rate, e as int) as usize
            },
        forall|k: int, l: int|
            0 <= k < l < edges_of_var(rate, v, n).len() ==> (#[trigger] edges_of_var(
                rate,
                v,
                n,
            )[k]).0 < (#[trigger] edges_of_var(rate, v, n)[l]).0,
    decreases n,
{
    if n > 0 {
        law_edges_of_var(rate, v, (n - 1) as nat);
        let before = edges_of_var(rate, v, (n - 1) as nat);
        let after = edges_of_var(rate, v, n);
        let last = ((n - 1) as usize, edge_check(rate, n - 1) as usize);
        if edge_var(rate, n - 1) == v {
            assert(after == before.push(last));
            assert(after[before.len() as int] == last);
        }
        assert forall|e: int| 0 <= e < n && #[trigger] edge_var(rate, e) == v implies after.contains(
            (e as usize, edge_check(rate, e) as usize),
        ) by {
            if e < n - 1 {
                let x = (e as usize, edge_check(rate, e) as usize);
                let k = before.index_of(x);
                assert(before.contains(x));
                assert(before[k] == x);
                assert(after[k] == x);
            }
        }
    }
}

/// The blocks of a row of a base graph are its entries in that row, in order,
/// and those before the row are counted.
pub proof fn law_row_blocks(graph: Seq<SparseEntry>, r: nat)
    ensures
        row_blocks(graph, r as int, graph.len()) == graph.filter(
            |e: SparseEntry| e.base_row == r,
        ).map_values(|e: SparseEntry| (e.base_col, e.shift)),
        blocks_above(graph, r, graph.len()) == graph.filter(
            |e: SparseEntry| e.base_row < r,
        ).len(),
{
    lemma_row_blocks_filter(graph, r as int, graph.len());
    lemma_blocks_above_filter(graph, r, graph.len());
    assert(graph.take(graph.len() as int) =~= graph);
}

proof fn lemma_row_blocks_filter(graph: Seq<SparseEntry>, r: int, n: nat)
    requires
        n <= graph.len(),
    ensures
        row_blocks(graph, r, n) == graph.take(n as int).filter(
            |e: SparseEntry| e.base_row == r,
        ).map_values(|e: SparseEntry| (e.base_col, e.shift)),
    decreases n,
{
    reveal(Seq::filter);
    let in_row = |e: SparseEntry| e.base_row == r;
    let block = |e: SparseEntry| (e.base_col, e.shift);
    let all = graph.take(n as int).filter(in_row).map_values(block);
    if n > 0 {
        lemma_row_blocks_filter(graph, r, (n - 1) as nat);
        assert(graph.take(n as int).drop_last() =~= graph.take(n - 1));
        let before = graph.take(n - 1).filter(in_row).map_values(block);
        if graph[n - 1].base_row == r {
            assert(all =~= before.push(block(graph[n - 1])));
        } else {
            assert(all =~= before);
        }
    } else {
        assert(all =~= seq![]);
    }
}

proof fn lemma_blocks_above_filter(graph: Seq<SparseEntry>, r: nat, n: nat)
    requires
        n <= graph.len(),
    ensures
        blocks_above(graph, r, n) == graph.take(n as int).filter(
            |e: SparseEntry| e.base_row < r,
        ).len(),
    decreases n,
{
    reveal(Seq::filter);
    let above = |e: SparseEntry| e.base_row < r;
    if n > 0 {
        lemma_blocks_above_filter(graph, r, (n - 1) as nat);
        lemma_blocks_above_next(graph, r, (n - 1) as nat);
        assert(graph.take(n as int).drop_last() =~= graph.take(n - 1));
    } else {
        lemma_blocks_above_none(graph, r);
        assert(graph.take(0).filter(above) =~= seq![]);
    }
}

/// A row's table of variables: for each of the 176 sub-rows its blocks in order,
/// each by the element of its column that the sub-row plus the shift comes to,
/// around the block.
pub proof fn law_table_of_variables(
    table: Seq<usize>,
    list: Seq<(usize, usize)>,
    i: int,
    k: int,
)
    requires
        is_var_table(table, list),
        0 <= i < 176,
        0 <= k < list.len(),
    ensures
        table.len() == 176 * list.len(),
        table[i * list.len() + k] == list[k].0 * 176 + (i + list[k].1) % 176,
{
    assert(table[table_index(list, i, k)] == block_var(list[k], i));
}

} // verus!
