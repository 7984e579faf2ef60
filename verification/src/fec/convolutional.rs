//! Rate-1/2, constraint length 7 convolutional code with a Viterbi decoder.
//!
//! Generators: G1 = 0o171 and G2 = 0o133, the NASA/CCSDS standard.
use vstd::prelude::*;

verus! {

/// Number of input bits that an output bit depends on.
pub const CONSTRAINT_LENGTH: usize = 7;

/// Number of encoder states.
pub const NUM_STATES: usize = 64;

/// A bit as a number.
pub open spec fn one(b: bool) -> int {
    if b {
        1
    } else {
        0
    }
}

/// The first output bit, by G1 = 0b1111001 over the input bit and the state.
pub open spec fn output1(state: int, bit: bool) -> int {
    (one(bit) + state / 32 % 2 + state / 16 % 2 + state / 8 % 2 + state % 2) % 2
}

/// The second output bit, by G2 = 0b1011011 over the input bit and the state.
pub open spec fn output2(state: int, bit: bool) -> int {
    (one(bit) + state / 16 % 2 + state / 8 % 2 + state / 2 % 2 + state % 2) % 2
}

/// The state after an input bit: the bit enters at the top.
pub open spec fn next_state(state: int, bit: bool) -> int {
    one(bit) * 32 + state / 2
}

/// The state after input bits.
pub open spec fn state_after(state: int, u: Seq<bool>) -> int
    decreases u.len(),
{
    if u.len() == 0 {
        state
    } else {
        next_state(state_after(state, u.drop_last()), u.last())
    }
}

/// The output bits for input bits.
pub open spec fn code_from(state: int, u: Seq<bool>) -> Seq<u8>
    decreases u.len(),
{
    if u.len() == 0 {
        seq![]
    } else {
        let s = state_after(state, u.drop_last());
        code_from(state, u.drop_last()) + seq![
            output1(s, u.last()) as u8,
            output2(s, u.last()) as u8,
        ]
    }
}

/// The input bits of a block: the low bit of each byte, then six zeros that
/// bring the encoder back to state 0.
pub open spec fn terminated(bits: Seq<u8>) -> Seq<bool> {
    bits.map_values(|b: u8| b % 2 == 1) + Seq::new(6, |i: int| false)
}

proof fn lemma_state_bound(state: int, u: Seq<bool>)
    requires
        0 <= state < 64,
    ensures
        0 <= state_after(state, u) < 64,
    decreases u.len(),
{
    if u.len() > 0 {
        lemma_state_bound(state, u.drop_last());
    }
}

/// Output bits and next state for an input bit.
fn step(state: u8, bit: bool) -> (r: (u8, u8, u8))
    requires
        state < 64,
    ensures
        r.0 == output1(state as int, bit),
        r.1 == output2(state as int, bit),
        r.2 == next_state(state as int, bit),
        r.2 < 64,
{
    let b: u8 = if bit {
        1
    } else {
        0
    };
    let c1: u8 = (b + state / 32 % 2 + state / 16 % 2 + state / 8 % 2 + state % 2) % 2;
    let c2: u8 = (b + state / 16 % 2 + state / 8 % 2 + state / 2 % 2 + state % 2) % 2;
    (c1, c2, b * 32 + state / 2)
}

/// Rate-1/2 convolutional encoder.
#[derive(Debug)]
pub struct ConvEncoder {
    state: u8,
}

impl ConvEncoder {
    /// The encoder's state.
    pub closed spec fn state(&self) -> int {
        self.state as int
    }

    #[verifier::type_invariant]
    spec fn wf(self) -> bool {
        self.state < 64
    }

    /// An encoder in state 0.
    pub fn new() -> (e: Self)
        ensures
            e.state() == 0,
    {
        ConvEncoder { state: 0 }
    }

    /// Encode a block and return to state 0: two output bits for each input
    /// bit and for each of the six flush bits.
    pub fn encode(&mut self, bits: &[u8]) -> (out: Vec<u8>)
        ensures
            out@ == code_from(old(self).state(), terminated(bits@)),
            final(self).state() == 0,
    {
        proof {
            use_type_invariant(&*self);
        }
        let ghost start = self.state as int;
        let ghost u = terminated(bits@);
        let mut out: Vec<u8> = Vec::new();
        let mut state: u8 = self.state;
        let n: usize = bits.len();
        let mut i: usize = 0;
        assert(u.take(0) =~= seq![]);
        while i < n
            invariant
                i <= n,
                n == bits@.len(),
                u == terminated(bits@),
                state < 64,
                state == state_after(start, u.take(i as int)),
                out@ == code_from(start, u.take(i as int)),
            decreases n - i,
        {
            let (c1, c2, next) = step(state, bits[i] % 2 == 1);
            out.push(c1);
            out.push(c2);
            state = next;
            i += 1;
            proof {
                assert(u.take(i as int).drop_last() =~= u.take(i - 1));
                assert(out@ =~= code_from(start, u.take(i as int)));
            }
        }
        let mut k: usize = 0;
        while k < 6
            invariant
                k <= 6,
                n == bits@.len(),
                u == terminated(bits@),
                state < 64,
                state == state_after(start, u.take(n + k)),
                out@ == code_from(start, u.take(n + k)),
            decreases 6 - k,
        {
            let (c1, c2, next) = step(state, false);
            out.push(c1);
            out.push(c2);
            state = next;
            k += 1;
            proof {
                assert(u.take(n + k).drop_last() =~= u.take(n + k - 1));
                assert(out@ =~= code_from(start, u.take(n + k)));
            }
        }
        assert(u.take(n + 6) =~= u);
        self.state = 0;
        out
    }
}

impl Default for ConvEncoder {
    fn default() -> (e: Self)
        ensures
            e.state() == 0,
    {
        Self::new()
    }
}

/// Number of received bits of pair `t` that differ from what the encoder sends
/// on an input bit in a state.
#[verifier::opaque]
pub open spec fn branch(rx: Seq<bool>, t: int, state: int, bit: bool) -> nat {
    (if one(rx[2 * t]) != output1(state, bit) {
        1nat
    } else {
        0nat
    }) + (if one(rx[2 * t + 1]) != output2(state, bit) {
        1nat
    } else {
        0nat
    })
}

/// Number of received bits that differ from the code of input bits.
pub open spec fn distance(rx: Seq<bool>, u: Seq<bool>) -> nat
    decreases u.len(),
{
    if u.len() == 0 {
        0
    } else {
        distance(rx, u.drop_last()) + branch(
            rx,
            u.len() - 1,
            state_after(0, u.drop_last()),
            u.last(),
        )
    }
}

/// The fewest differing bits over all inputs that lead from state 0 to a state
/// in `t` steps; none where no input does.
pub open spec fn metric(rx: Seq<bool>, t: nat, s: int) -> Option<nat>
    decreases t, 1int,
{
    if t == 0 {
        if s == 0 {
            Some(0nat)
        } else {
            None
        }
    } else {
        let p = survivor(rx, t, s);
        match metric(rx, (t - 1) as nat, p) {
            Some(m) => Some(m + branch(rx, t - 1, p, s >= 32)),
            None => None,
        }
    }
}

/// The better of the two states that lead to a state at step `t`; the lower
/// one on a tie.
pub open spec fn survivor(rx: Seq<bool>, t: nat, s: int) -> int
    decreases t, 0int,
    when t > 0
{
    let p0 = s % 32 * 2;
    let p1 = p0 + 1;
    match (metric(rx, (t - 1) as nat, p0), metric(rx, (t - 1) as nat, p1)) {
        (Some(m0), Some(m1)) => if m1 + branch(rx, t - 1, p1, s >= 32) < m0 + branch(
            rx,
            t - 1,
            p0,
            s >= 32,
        ) {
            p1
        } else {
            p0
        },
        (None, Some(_)) => p1,
        _ => p0,
    }
}

/// The input bits along the survivors that lead to a state in `t` steps.
pub open spec fn best_inputs(rx: Seq<bool>, t: nat, s: int) -> Seq<bool>
    decreases t,
{
    if t == 0 {
        seq![]
    } else {
        best_inputs(rx, (t - 1) as nat, survivor(rx, t, s)).push(s >= 32)
    }
}

/// Bits as bytes of value 0 and 1.
pub open spec fn bit_bytes(u: Seq<bool>) -> Seq<u8> {
    u.map_values(
        |b: bool|
            if b {
                1u8
            } else {
                0u8
            },
    )
}

/// The data bits of received bits: the inputs of the best path that ends in
/// state 0, without the six flush bits. Six pairs or fewer hold no data.
pub open spec fn decoded(rx: Seq<bool>) -> Seq<u8> {
    let pairs = rx.len() / 2;
    if pairs <= 6 {
        seq![]
    } else {
        bit_bytes(best_inputs(rx, pairs, 0)).take(pairs - 6)
    }
}

/// The input bits along a table of survivors, back from a state.
pub open spec fn table_inputs(table: Seq<Vec<u8>>, t: nat, s: int) -> Seq<bool>
    decreases t,
{
    if t == 0 {
        seq![]
    } else {
        table_inputs(table, (t - 1) as nat, table[t - 1]@[s] as int).push(s >= 32)
    }
}

/// Whether every entry of a table of survivors is a state.
pub open spec fn survivor_table(table: Seq<Vec<u8>>) -> bool {
    forall|t: int|
        0 <= t < table.len() ==> {
            &&& (#[trigger] table[t])@.len() == 64
            &&& forall|s: int| 0 <= s < 64 ==> table[t]@[s] < 64
        }
}

proof fn lemma_survivor_bound(rx: Seq<bool>, t: nat, s: int)
    requires
        t > 0,
    ensures
        0 <= survivor(rx, t, s) < 64,
        survivor(rx, t, s) / 2 == s % 32,
{
}

/// A cost after `t` steps; `usize::MAX` stands for a state that no input leads
/// to.
spec fn cost_is(cost: usize, m: Option<nat>, t: nat) -> bool {
    match m {
        Some(v) => cost == v && v <= 2 * t && cost < usize::MAX,
        None => cost == usize::MAX,
    }
}

/// Viterbi decoder for the rate-1/2, K=7 convolutional code.
#[derive(Debug)]
pub struct ViterbiDecoder {
    /// Output bits and next state, by state and input bit.
    transitions: Vec<[(u8, u8, usize); 2]>,
}

impl ViterbiDecoder {
    /// The table holds every transition of the encoder.
    #[verifier::type_invariant]
    spec fn wf(self) -> bool {
        &&& self.transitions@.len() == 64
        &&& forall|s: int, b: int|
            0 <= s < 64 && 0 <= b < 2 ==> transition_is(
                #[trigger] self.transitions@[s]@[b],
                s,
                b == 1,
            )
    }

    /// The transition that the decoder expects for a state and an input bit.
    pub closed spec fn expects(&self, s: int, bit: bool) -> (u8, u8, usize) {
        self.transitions@[s]@[one(bit)]
    }

    /// A decoder with the encoder's transitions.
    pub fn new() -> (d: Self)
        ensures
            forall|s: int, bit: bool|
                0 <= s < 64 ==> transition_is(#[trigger] d.expects(s, bit), s, bit),
    {
        let mut transitions: Vec<[(u8, u8, usize); 2]> = Vec::new();
        let mut s: u8 = 0;
        while s < 64
            invariant
                s <= 64,
                transitions@.len() == s,
                forall|k: int, b: int|
                    0 <= k < s && 0 <= b < 2 ==> transition_is(
                        #[trigger] transitions@[k]@[b],
                        k,
                        b == 1,
                    ),
            decreases 64 - s,
        {
            let (a1, a2, an) = step(s, false);
            let (b1, b2, bn) = step(s, true);
            let row: [(u8, u8, usize); 2] = [(a1, a2, an as usize), (b1, b2, bn as usize)];
            assert(row@[0] == (a1, a2, an as usize));
            assert(row@[1] == (b1, b2, bn as usize));
            transitions.push(row);
            s += 1;
        }
        let d = ViterbiDecoder { transitions };
        assert forall|s: int, bit: bool| 0 <= s < 64 implies transition_is(
            #[trigger] d.expects(s, bit),
            s,
            bit,
        ) by {
            assert(transition_is(d.transitions@[s]@[one(bit)], s, one(bit) == 1));
        }
        d
    }

    /// Output bits and next state for a state and an input bit.
    pub fn transition(&self, state: usize, bit: bool) -> (r: (u8, u8, usize))
        requires
            state < 64,
        ensures
            transition_is(r, state as int, bit),
    {
        proof {
            use_type_invariant(self);
        }
        let b: usize = if bit {
            1
        } else {
            0
        };
        let row = &self.transitions[state];
        assert(transition_is(self.transitions@[state as int]@[b as int], state as int, b == 1));
        row[b]
    }

    /// Follow a table of survivors back from state 0 and return the input bits
    /// that it stands for, without the six flush bits.
    pub fn traceback(survivors: &Vec<Vec<u8>>) -> (out: Vec<u8>)
        requires
            survivor_table(survivors@),
        ensures
            out@ == (if survivors@.len() <= 6 {
                seq![]
            } else {
                bit_bytes(table_inputs(survivors@, survivors@.len(), 0)).take(
                    survivors@.len() - 6,
                )
            }),
    {
        let n: usize = survivors.len();
        let mut out: Vec<u8> = vec![0u8; n];
        let mut state: usize = 0;
        let mut t: usize = n;
        let ghost all = table_inputs(survivors@, n as nat, 0);
        proof {
            lemma_table_inputs_len(survivors@, n as nat, 0);
            assert(all.skip(n as int) =~= seq![]);
            assert(table_inputs(survivors@, n as nat, 0) + all.skip(n as int) =~= all);
        }
        while t > 0
            invariant
                t <= n,
                n == survivors@.len(),
                out@.len() == n,
                state < 64,
                survivor_table(survivors@),
                all.len() == n,
                table_inputs(survivors@, t as nat, state as int) + all.skip(t as int) == all,
                forall|k: int| t <= k < n ==> out@[k] == bit_bytes(all)[k],
            decreases t,
        {
            let ghost here = table_inputs(survivors@, t as nat, state as int);
            proof {
                lemma_table_inputs_len(survivors@, t as nat, state as int);
                assert(survivors@[t - 1]@.len() == 64);
            }
            let bit: u8 = if state >= 32 {
                1
            } else {
                0
            };
            let prev: usize = survivors[t - 1][state] as usize;
            t -= 1;
            out[t] = bit;
            proof {
                assert(all[t as int] == here[t as int]);
                let before = table_inputs(survivors@, t as nat, prev as int);
                lemma_table_inputs_len(survivors@, t as nat, prev as int);
                assert(before + all.skip(t as int) =~= all) by {
                    assert forall|i: int| 0 <= i < n implies (before + all.skip(t as int))[i]
                        == all[i] by {
                        if i < t {
                            assert(all[i] == here[i]);
                        }
                    }
                }
            }
            state = prev;
        }
        if n <= 6 {
            out.clear();
            return out;
        }
        assert(out@ =~= bit_bytes(all));
        out.truncate(n - 6);
        out
    }

    /// Decode hard bits; every byte but 0 counts as a 1.
    pub fn decode_hard(&self, bits: &[u8]) -> (out: Vec<u8>)
        ensures
            out@ == decoded(bits@.map_values(|b: u8| b != 0)),
    {
        let ghost rx = bits@.map_values(|b: u8| b != 0);
        let pairs: usize = bits.len() / 2;
        if pairs <= 6 {
            return Vec::new();
        }
        let mut costs: Vec<usize> = vec![usize::MAX; 64];
        costs[0] = 0;
        let mut survivors: Vec<Vec<u8>> = Vec::new();
        let mut t: usize = 0;
        assert forall|s: int| 0 <= s < 64 implies cost_is(
            #[trigger] costs@[s],
            metric(rx, 0, s),
            0,
        ) by {}
        while t < pairs
            invariant
                t <= pairs,
                pairs == bits@.len() / 2,
                bits@.len() == bits.len(),
                rx == bits@.map_values(|b: u8| b != 0),
                costs@.len() == 64,
                survivors@.len() == t,
                survivor_table(survivors@),
                forall|s: int|
                    0 <= s < 64 ==> cost_is(
                        #[trigger] costs@[s],
                        metric(rx, t as nat, s),
                        t as nat,
                    ),
                forall|k: int, s: int|
                    0 <= k < t && 0 <= s < 64 ==> #[trigger] survivors@[k]@[s] == survivor(
                        rx,
                        (k + 1) as nat,
                        s,
                    ),
            decreases pairs - t,
        {
            let r0: bool = bits[2 * t] != 0;
            let r1: bool = bits[2 * t + 1] != 0;
            let (next, row) = self.advance(&costs, r0, r1, Ghost(rx), Ghost(t as nat));
            costs = next;
            survivors.push(row);
            t += 1;
        }
        proof {
            lemma_table_is_best(rx, survivors@, pairs as nat, 0);
        }
        ViterbiDecoder::traceback(&survivors)
    }

    /// One trellis step: the new cost of every state, and the state before it.
    fn advance(&self, costs: &Vec<usize>, r0: bool, r1: bool, rx: Ghost<Seq<bool>>, t: Ghost<nat>) -> (r:
        (Vec<usize>, Vec<u8>))
        requires
            costs@.len() == 64,
            r0 == rx@[2 * (t@ as int)],
            r1 == rx@[2 * (t@ as int) + 1],
            2 * t@ + 2 < usize::MAX,
            forall|s: int| 0 <= s < 64 ==> cost_is(#[trigger] costs@[s], metric(rx@, t@, s), t@),
        ensures
            r.0@.len() == 64,
            r.1@.len() == 64,
            forall|s: int|
                0 <= s < 64 ==> cost_is(#[trigger] r.0@[s], metric(rx@, t@ + 1, s), t@ + 1),
            forall|s: int| 0 <= s < 64 ==> #[trigger] r.1@[s] == survivor(rx@, t@ + 1, s),
            forall|s: int| 0 <= s < 64 ==> #[trigger] r.1@[s] < 64,
    {
        let mut next: Vec<usize> = Vec::new();
        let mut row: Vec<u8> = Vec::new();
        let mut s: usize = 0;
        while s < 64
            invariant
                s <= 64,
                costs@.len() == 64,
                r0 == rx@[2 * (t@ as int)],
                r1 == rx@[2 * (t@ as int) + 1],
                2 * t@ + 2 < usize::MAX,
                forall|k: int|
                    0 <= k < 64 ==> cost_is(#[trigger] costs@[k], metric(rx@, t@, k), t@),
                next@.len() == s,
                row@.len() == s,
                forall|k: int|
                    0 <= k < s ==> cost_is(#[trigger] next@[k], metric(rx@, t@ + 1, k), t@ + 1),
                forall|k: int| 0 <= k < s ==> #[trigger] row@[k] == survivor(rx@, t@ + 1, k),
                forall|k: int| 0 <= k < s ==> #[trigger] row@[k] < 64,
            decreases 64 - s,
        {
            let (c, p) = self.select(costs, s, r0, r1, rx, t);
            next.push(c);
            row.push(p);
            s += 1;
        }
        (next, row)
    }

    /// The new cost of a state, and the better of the two states before it.
    fn select(
        &self,
        costs: &Vec<usize>,
        s: usize,
        r0: bool,
        r1: bool,
        rx: Ghost<Seq<bool>>,
        t: Ghost<nat>,
    ) -> (r: (usize, u8))
        requires
            s < 64,
            costs@.len() == 64,
            r0 == rx@[2 * (t@ as int)],
            r1 == rx@[2 * (t@ as int) + 1],
            2 * t@ + 2 < usize::MAX,
            forall|k: int| 0 <= k < 64 ==> cost_is(#[trigger] costs@[k], metric(rx@, t@, k), t@),
        ensures
            cost_is(r.0, metric(rx@, t@ + 1, s as int), t@ + 1),
            r.1 == survivor(rx@, t@ + 1, s as int),
            r.1 < 64,
    {
        let p0: usize = s % 32 * 2;
        let p1: usize = p0 + 1;
        let bit: bool = s >= 32;
        let ghost m0 = metric(rx@, t@, p0 as int);
        let ghost m1 = metric(rx@, t@, p1 as int);
        assert(cost_is(costs@[p0 as int], m0, t@));
        assert(cost_is(costs@[p1 as int], m1, t@));
        let c0: usize = self.branch_cost(costs[p0], p0, bit, r0, r1, rx, t);
        let c1: usize = self.branch_cost(costs[p1], p1, bit, r0, r1, rx, t);
        let ghost p = survivor(rx@, t@ + 1, s as int);
        assert((t@ + 1 - 1) as nat == t@);
        assert(c1 < c0 ==> p == p1);
        assert(c1 >= c0 ==> p == p0);
        assert(metric(rx@, t@ + 1, s as int) == match metric(rx@, t@, p) {
            Some(m) => Some(m + branch(rx@, t@ as int, p, bit)),
            None => None,
        });
        if c1 < c0 {
            (c1, p1 as u8)
        } else {
            (c0, p0 as u8)
        }
    }

    /// The cost of a state plus that of leaving it on an input bit.
    fn branch_cost(
        &self,
        cost: usize,
        state: usize,
        bit: bool,
        r0: bool,
        r1: bool,
        rx: Ghost<Seq<bool>>,
        t: Ghost<nat>,
    ) -> (c: usize)
        requires
            state < 64,
            r0 == rx@[2 * (t@ as int)],
            r1 == rx@[2 * (t@ as int) + 1],
            cost < usize::MAX ==> cost + 2 < usize::MAX,
        ensures
            cost == usize::MAX ==> c == usize::MAX,
            cost < usize::MAX ==> c == cost + branch(rx@, t@ as int, state as int, bit),
            branch(rx@, t@ as int, state as int, bit) <= 2,
    {
        reveal(branch);
        if cost == usize::MAX {
            return usize::MAX;
        }
        let (c1, c2, _) = self.transition(state, bit);
        let mut total: usize = cost;
        if (c1 == 1) != r0 {
            total += 1;
        }
        if (c2 == 1) != r1 {
            total += 1;
        }
        total
    }
}

/// Whether a table entry is the encoder's transition.
pub open spec fn transition_is(e: (u8, u8, usize), state: int, bit: bool) -> bool {
    &&& e.0 == output1(state, bit)
    &&& e.1 == output2(state, bit)
    &&& e.2 == next_state(state, bit)
}

impl Default for ViterbiDecoder {
    fn default() -> (d: Self)
        ensures
            forall|s: int, bit: bool|
                0 <= s < 64 ==> transition_is(#[trigger] d.expects(s, bit), s, bit),
    {
        Self::new()
    }
}

proof fn lemma_table_inputs_len(table: Seq<Vec<u8>>, t: nat, s: int)
    ensures
        table_inputs(table, t, s).len() == t,
    decreases t,
{
    if t > 0 {
        lemma_table_inputs_len(table, (t - 1) as nat, table[t - 1]@[s] as int);
    }
}

proof fn lemma_table_is_best(rx: Seq<bool>, table: Seq<Vec<u8>>, t: nat, s: int)
    requires
        t <= table.len(),
        0 <= s < 64,
        forall|k: int, j: int|
            0 <= k < t && 0 <= j < 64 ==> #[trigger] table[k]@[j] == survivor(
                rx,
                (k + 1) as nat,
                j,
            ),
    ensures
        table_inputs(table, t, s) == best_inputs(rx, t, s),
    decreases t,
{
    if t > 0 {
        let p = survivor(rx, t, s);
        assert(table[t - 1]@[s] == survivor(rx, (t - 1 + 1) as nat, s));
        lemma_survivor_bound(rx, t, s);
        lemma_table_is_best(rx, table, (t - 1) as nat, p);
    }
}

/// The two ways into a state: the state before it, and the input bit.
proof fn lemma_predecessor(p: int, bit: bool)
    requires
        0 <= p < 64,
    ensures
        ({
            let s = next_state(p, bit);
            &&& 0 <= s < 64
            &&& (s >= 32) == bit
            &&& p == s % 32 * 2 || p == s % 32 * 2 + 1
        }),
{
}

/// No input beats the metric of the state that it leads to.
proof fn lemma_metric_is_minimal(rx: Seq<bool>, u: Seq<bool>)
    ensures
        metric(rx, u.len(), state_after(0, u)) matches Some(m) && m <= distance(rx, u),
    decreases u.len(),
{
    if u.len() > 0 {
        let v = u.drop_last();
        let p = state_after(0, v);
        let s = state_after(0, u);
        lemma_state_bound(0, v);
        lemma_predecessor(p, u.last());
        lemma_metric_is_minimal(rx, v);
        let t = (u.len() - 1) as nat;
        let p0 = s % 32 * 2;
        let m0 = metric(rx, t, p0);
        let m1 = metric(rx, t, p0 + 1);
        let q = survivor(rx, u.len(), s);
        assert(v.len() == t);
        assert(q == p0 || q == p0 + 1);
        assert(metric(rx, t, q) is Some);
        assert(metric(rx, t, q).unwrap() + branch(rx, t as int, q, u.last()) <= metric(
            rx,
            t,
            p,
        ).unwrap() + branch(rx, t as int, p, u.last()));
        assert(metric(rx, u.len(), s) == Some(
            metric(rx, t, q).unwrap() + branch(rx, t as int, q, u.last()),
        ));
    }
}

/// The inputs along the survivors lead to the state and cost its metric.
proof fn lemma_best_inputs(rx: Seq<bool>, t: nat, s: int)
    requires
        0 <= s < 64,
        metric(rx, t, s) is Some,
    ensures
        best_inputs(rx, t, s).len() == t,
        state_after(0, best_inputs(rx, t, s)) == s,
        distance(rx, best_inputs(rx, t, s)) == metric(rx, t, s).unwrap(),
    decreases t,
{
    if t > 0 {
        let p = survivor(rx, t, s);
        lemma_survivor_bound(rx, t, s);
        lemma_best_inputs(rx, (t - 1) as nat, p);
        let u = best_inputs(rx, t, s);
        assert(u.drop_last() =~= best_inputs(rx, (t - 1) as nat, p));
        assert(next_state(p, s >= 32) == s);
    }
}

/// No input of the same length that ends in state 0 is at a smaller distance
/// from the received bits than the input along the survivors.
pub proof fn law_decoder_is_optimal(rx: Seq<bool>, u: Seq<bool>)
    requires
        u.len() == rx.len() / 2,
        state_after(0, u) == 0,
    ensures
        best_inputs(rx, u.len(), 0).len() == u.len(),
        state_after(0, best_inputs(rx, u.len(), 0)) == 0,
        distance(rx, best_inputs(rx, u.len(), 0)) <= distance(rx, u),
{
    lemma_metric_is_minimal(rx, u);
    lemma_best_inputs(rx, u.len(), 0);
}

proof fn lemma_code_len(state: int, u: Seq<bool>)
    ensures
        code_from(state, u).len() == 2 * u.len(),
    decreases u.len(),
{
    if u.len() > 0 {
        lemma_code_len(state, u.drop_last());
    }
}

/// The six flush bits bring any input back to state 0.
proof fn lemma_terminated(bits: Seq<u8>)
    ensures
        state_after(0, terminated(bits)) == 0,
{
    let u = terminated(bits);
    let n = bits.len() as int;
    let s0 = state_after(0, u.take(n));
    lemma_state_bound(0, u.take(n));
    assert(u.take(n + 1).drop_last() =~= u.take(n));
    assert(u.take(n + 2).drop_last() =~= u.take(n + 1));
    assert(u.take(n + 3).drop_last() =~= u.take(n + 2));
    assert(u.take(n + 4).drop_last() =~= u.take(n + 3));
    assert(u.take(n + 5).drop_last() =~= u.take(n + 4));
    assert(u.take(n + 6).drop_last() =~= u.take(n + 5));
    assert(u.take(n + 6) =~= u);
    assert(state_after(0, u.take(n + 1)) == s0 / 2);
    assert(state_after(0, u.take(n + 2)) == s0 / 2 / 2);
    assert(state_after(0, u.take(n + 3)) == s0 / 2 / 2 / 2);
    assert(state_after(0, u.take(n + 4)) == s0 / 2 / 2 / 2 / 2);
    assert(state_after(0, u.take(n + 5)) == s0 / 2 / 2 / 2 / 2 / 2);
}

/// An input has distance 0 from its own code.
proof fn lemma_own_code(u: Seq<bool>, rx: Seq<bool>)
    requires
        rx.len() >= 2 * u.len(),
        forall|i: int| 0 <= i < 2 * u.len() ==> one(#[trigger] rx[i]) == code_from(0, u)[i],
    ensures
        distance(rx, u) == 0,
    decreases u.len(),
{
    reveal(branch);
    if u.len() > 0 {
        let v = u.drop_last();
        let n = v.len() as int;
        lemma_code_len(0, v);
        lemma_code_len(0, u);
        assert forall|i: int| 0 <= i < 2 * v.len() implies one(#[trigger] rx[i]) == code_from(
            0,
            v,
        )[i] by {
            assert(code_from(0, u)[i] == code_from(0, v)[i]);
        }
        lemma_own_code(v, rx);
        lemma_state_bound(0, v);
        assert(one(rx[2 * n]) == code_from(0, u)[2 * n]);
        assert(one(rx[2 * n + 1]) == code_from(0, u)[2 * n + 1]);
    }
}

/// Only an input itself has distance 0 from its code: the first output bit
/// tells the input bit, given the state.
proof fn lemma_zero_distance(u: Seq<bool>, w: Seq<bool>, rx: Seq<bool>)
    requires
        w.len() == u.len(),
        rx.len() >= 2 * u.len(),
        forall|i: int| 0 <= i < 2 * u.len() ==> one(#[trigger] rx[i]) == code_from(0, u)[i],
        distance(rx, w) == 0,
    ensures
        w == u,
    decreases u.len(),
{
    reveal(branch);
    if u.len() > 0 {
        let v = u.drop_last();
        let x = w.drop_last();
        let n = v.len() as int;
        lemma_code_len(0, v);
        lemma_code_len(0, u);
        assert forall|i: int| 0 <= i < 2 * v.len() implies one(#[trigger] rx[i]) == code_from(
            0,
            v,
        )[i] by {
            assert(code_from(0, u)[i] == code_from(0, v)[i]);
        }
        lemma_zero_distance(v, x, rx);
        let s = state_after(0, v);
        lemma_state_bound(0, v);
        assert(one(rx[2 * n]) == code_from(0, u)[2 * n]);
        assert(one(rx[2 * n]) == output1(s, u.last()));
        assert(one(rx[2 * n]) == output1(s, w.last()));
        assert(u.last() == w.last());
        assert(w =~= x.push(w.last()));
        assert(u =~= v.push(u.last()));
    } else {
        assert(w =~= u);
    }
}

/// Number of places below `n` at which received bits differ from a code word.
pub open spec fn differing(rx: Seq<bool>, code: Seq<u8>, n: nat) -> nat
    decreases n,
{
    if n == 0 {
        0
    } else {
        differing(rx, code, (n - 1) as nat) + (if one(rx[n - 1]) != code[n - 1] {
            1nat
        } else {
            0nat
        })
    }
}

/// The front of a code word decides the differences in it.
proof fn lemma_differing_front(rx: Seq<bool>, a: Seq<u8>, b: Seq<u8>, n: nat)
    requires
        forall|i: int| 0 <= i < n ==> a[i] == b[i],
    ensures
        differing(rx, a, n) == differing(rx, b, n),
    decreases n,
{
    if n > 0 {
        lemma_differing_front(rx, a, b, (n - 1) as nat);
    }
}

/// The distance of an input is the number of places at which its code word
/// differs from the received bits.
proof fn lemma_distance_counts(rx: Seq<bool>, u: Seq<bool>)
    ensures
        distance(rx, u) == differing(rx, code_from(0, u), 2 * u.len()),
    decreases u.len(),
{
    if u.len() > 0 {
        let v = u.drop_last();
        let s = state_after(0, v);
        let code = code_from(0, u);
        let n = 2 * v.len();
        lemma_distance_counts(rx, v);
        lemma_code_len(0, v);
        lemma_state_bound(0, v);
        lemma_differing_front(rx, code_from(0, v), code, n);
        assert(0 <= output1(s, u.last()) <= 1 && 0 <= output2(s, u.last()) <= 1);
        let a = n as int;
        assert(code[a] == output1(s, u.last()));
        assert(code[a + 1] == output2(s, u.last()));
        reveal(branch);
        reveal_with_fuel(differing, 3);
        assert(2 * u.len() == n + 2);
    }
}

/// An input that leads to a state below `m` ends in a zero, where `m` is at
/// most 32, and comes from a state below twice that.
proof fn lemma_low_state(u: Seq<bool>, m: int)
    requires
        u.len() > 0,
        state_after(0, u) < m <= 32,
    ensures
        !u.last(),
        state_after(0, u.drop_last()) < 2 * m,
{
    lemma_state_bound(0, u.drop_last());
}

/// An input that ends in state 0 is a message with its six flush bits.
proof fn lemma_ends_in_zeros(u: Seq<bool>)
    requires
        u.len() >= 6,
        state_after(0, u) == 0,
    ensures
        terminated(bit_bytes(u).take(u.len() - 6)) == u,
{
    let n = u.len() as int;
    let u1 = u.drop_last();
    let u2 = u1.drop_last();
    let u3 = u2.drop_last();
    let u4 = u3.drop_last();
    let u5 = u4.drop_last();
    lemma_low_state(u, 1);
    lemma_low_state(u1, 2);
    lemma_low_state(u2, 4);
    lemma_low_state(u3, 8);
    lemma_low_state(u4, 16);
    lemma_low_state(u5, 32);
    assert(!u[n - 1] && !u[n - 2] && !u[n - 3] && !u[n - 4] && !u[n - 5] && !u[n - 6]);
    assert(terminated(bit_bytes(u).take(n - 6)) =~= u);
}

/// The decoder is a maximum-likelihood decoder on a symmetric channel: what it
/// gives is a message of the right length, and the code word of no other
/// message of that length differs from the received bits at fewer places.
pub proof fn law_decoded_is_closest(rx: Seq<bool>, bits: Seq<u8>)
    requires
        rx.len() >= 12,
        bits.len() == rx.len() / 2 - 6,
    ensures
        decoded(rx).len() == rx.len() / 2 - 6,
        forall|i: int| 0 <= i < decoded(rx).len() ==> #[trigger] decoded(rx)[i] <= 1,
        ({
            let n = (rx.len() / 2 * 2) as nat;
            differing(rx, code_from(0, terminated(decoded(rx))), n) <= differing(
                rx,
                code_from(0, terminated(bits)),
                n,
            )
        }),
{
    let u = terminated(bits);
    lemma_terminated(bits);
    law_decoder_is_optimal(rx, u);
    let w = best_inputs(rx, u.len(), 0);
    lemma_ends_in_zeros(w);
    assert(decoded(rx) =~= bit_bytes(w).take(w.len() - 6));
    lemma_distance_counts(rx, u);
    lemma_distance_counts(rx, w);
}

/// Encoding and decoding without errors gives the bits back.
pub proof fn law_roundtrip(bits: Seq<u8>)
    requires
        forall|i: int| 0 <= i < bits.len() ==> bits[i] <= 1,
    ensures
        decoded(code_from(0, terminated(bits)).map_values(|b: u8| b != 0)) == bits,
{
    let u = terminated(bits);
    let code = code_from(0, u);
    let rx = code.map_values(|b: u8| b != 0);
    lemma_code_len(0, u);
    lemma_code_values(0, u);
    assert(rx.len() / 2 == u.len());
    if bits.len() == 0 {
        assert(decoded(rx) =~= bits);
    } else {
        assert forall|i: int| 0 <= i < 2 * u.len() implies one(#[trigger] rx[i]) == code_from(
            0,
            u,
        )[i] by {
            assert(code[i] <= 1);
        }
        lemma_own_code(u, rx);
        lemma_terminated(bits);
        law_decoder_is_optimal(rx, u);
        let w = best_inputs(rx, u.len(), 0);
        lemma_zero_distance(u, w, rx);
        assert(decoded(rx) =~= bits);
    }
}

proof fn lemma_code_values(state: int, u: Seq<bool>)
    requires
        0 <= state < 64,
    ensures
        forall|i: int| 0 <= i < code_from(state, u).len() ==> #[trigger] code_from(state, u)[i] <= 1,
    decreases u.len(),
{
    if u.len() > 0 {
        lemma_code_values(state, u.drop_last());
        lemma_state_bound(state, u.drop_last());
        let front = code_from(state, u.drop_last());
        let s = state_after(state, u.drop_last());
        assert(0 <= output1(s, u.last()) <= 1);
        assert(0 <= output2(s, u.last()) <= 1);
        assert forall|i: int| 0 <= i < code_from(state, u).len() implies #[trigger] code_from(
            state,
            u,
        )[i] <= 1 by {
            if i < front.len() {
                assert(code_from(state, u)[i] == front[i]);
            }
        }
    }
}

/// The state is made of the last six input bits, the newest at the top.
proof fn lemma_state_holds_inputs(u: Seq<bool>)
    ensures
        ({
            let n = u.len() as int;
            state_after(0, u) == 32 * one(n > 0 && u[n - 1]) + 16 * one(n > 1 && u[n - 2]) + 8
                * one(n > 2 && u[n - 3]) + 4 * one(n > 3 && u[n - 4]) + 2 * one(
                n > 4 && u[n - 5],
            ) + one(n > 5 && u[n - 6])
        }),
    decreases u.len(),
{
    if u.len() > 0 {
        lemma_state_holds_inputs(u.drop_last());
    }
}

/// The output bits of an input bit are decided by the inputs up to it.
proof fn lemma_code_at(u: Seq<bool>, t: int)
    requires
        0 <= t < u.len(),
    ensures
        code_from(0, u)[2 * t] == output1(state_after(0, u.take(t)), u[t]),
        code_from(0, u)[2 * t + 1] == output2(state_after(0, u.take(t)), u[t]),
    decreases u.len(),
{
    let v = u.drop_last();
    lemma_code_len(0, v);
    lemma_state_bound(0, v);
    if t == u.len() - 1 {
        assert(u.take(t) =~= v);
        assert(0 <= output1(state_after(0, v), u.last()) <= 1);
        assert(0 <= output2(state_after(0, v), u.last()) <= 1);
    } else {
        lemma_code_at(v, t);
        assert(v.take(t) =~= u.take(t));
    }
}

/// The code word of a message, by the generators 0o171 and 0o133: the first
/// output bit for input bit `t` is the parity of the input bits `t`, `t - 1`,
/// `t - 2`, `t - 3` and `t - 6`, the second that of `t`, `t - 2`, `t - 3`,
/// `t - 5` and `t - 6`, where what lies before the message is zero. Six zeros
/// follow the message.
pub proof fn law_code_is_given_by_the_generators(bits: Seq<u8>, t: int)
    requires
        0 <= t < bits.len() + 6,
    ensures
        ({
            let code = code_from(0, terminated(bits));
            let u = |k: int|
                if 0 <= k < bits.len() && bits[k] % 2 == 1 {
                    1int
                } else {
                    0int
                };
            &&& code.len() == 2 * (bits.len() + 6)
            &&& code[2 * t] == (u(t) + u(t - 1) + u(t - 2) + u(t - 3) + u(t - 6)) % 2
            &&& code[2 * t + 1] == (u(t) + u(t - 2) + u(t - 3) + u(t - 5) + u(t - 6)) % 2
        }),
{
    let inputs = terminated(bits);
    lemma_code_len(0, inputs);
    lemma_code_by_inputs(inputs, t);
    let u = |k: int|
        if 0 <= k < bits.len() && bits[k] % 2 == 1 {
            1int
        } else {
            0int
        };
    assert(u(t) == one(inputs[t]));
    assert(u(t - 1) == one(t > 0 && inputs[t - 1]));
    assert(u(t - 2) == one(t > 1 && inputs[t - 2]));
    assert(u(t - 3) == one(t > 2 && inputs[t - 3]));
    assert(u(t - 5) == one(t > 4 && inputs[t - 5]));
    assert(u(t - 6) == one(t > 5 && inputs[t - 6]));
}

/// The output bits for input bit `t` as parities of input bits.
proof fn lemma_code_by_inputs(u: Seq<bool>, t: int)
    requires
        0 <= t < u.len(),
    ensures
        code_from(0, u)[2 * t] == (one(u[t]) + one(t > 0 && u[t - 1]) + one(t > 1 && u[t - 2])
            + one(t > 2 && u[t - 3]) + one(t > 5 && u[t - 6])) % 2,
        code_from(0, u)[2 * t + 1] == (one(u[t]) + one(t > 1 && u[t - 2]) + one(t > 2 && u[t - 3])
            + one(t > 4 && u[t - 5]) + one(t > 5 && u[t - 6])) % 2,
{
    let v = u.take(t);
    lemma_code_at(u, t);
    lemma_state_holds_inputs(v);
    lemma_places_of_state(
        t > 0 && v[t - 1],
        t > 1 && v[t - 2],
        t > 2 && v[t - 3],
        t > 3 && v[t - 4],
        t > 4 && v[t - 5],
        t > 5 && v[t - 6],
    );
    let s = state_after(0, v);
    assert(s / 32 % 2 == one(t > 0 && u[t - 1]));
    assert(s / 16 % 2 == one(t > 1 && u[t - 2]));
    assert(s / 8 % 2 == one(t > 2 && u[t - 3]));
    assert(s / 2 % 2 == one(t > 4 && u[t - 5]));
    assert(s % 2 == one(t > 5 && u[t - 6]));
}

/// The bits of a state.
proof fn lemma_places_of_state(b1: bool, b2: bool, b3: bool, b4: bool, b5: bool, b6: bool)
    ensures
        ({
            let s = 32 * one(b1) + 16 * one(b2) + 8 * one(b3) + 4 * one(b4) + 2 * one(b5) + one(
                b6,
            );
            &&& s / 32 % 2 == one(b1)
            &&& s / 16 % 2 == one(b2)
            &&& s / 8 % 2 == one(b3)
            &&& s / 2 % 2 == one(b5)
            &&& s % 2 == one(b6)
        }),
{
}

/// The transition of the decoder's table for the last six input bits, the
/// newest first, and the next one.
pub proof fn law_transition(
    e: (u8, u8, usize),
    b0: bool,
    b1: bool,
    b2: bool,
    b3: bool,
    b4: bool,
    b5: bool,
    b6: bool,
)
    requires
        transition_is(
            e,
            32 * one(b1) + 16 * one(b2) + 8 * one(b3) + 4 * one(b4) + 2 * one(b5) + one(b6),
            b0,
        ),
    ensures
        (e.0 == 1) == (b0 != (b1 != (b2 != (b3 != b6)))),
        (e.1 == 1) == (b0 != (b2 != (b3 != (b5 != b6)))),
        e.0 <= 1,
        e.1 <= 1,
        e.2 == 32 * one(b0) + 16 * one(b1) + 8 * one(b2) + 4 * one(b3) + 2 * one(b4) + one(b5),
{
    lemma_places_of_state(b1, b2, b3, b4, b5, b6);
}

/// The count of differing places is the size of the set of them.
proof fn lemma_differing_counts(rx: Seq<bool>, code: Seq<u8>, n: nat)
    ensures
        ({
            let places = Set::new(|i: int| 0 <= i < n && one(rx[i]) != code[i]);
            places.finite() && places.len() == differing(rx, code, n)
        }),
    decreases n,
{
    let places = Set::new(|i: int| 0 <= i < n && one(rx[i]) != code[i]);
    if n == 0 {
        assert(places =~= Set::empty());
    } else {
        lemma_differing_counts(rx, code, (n - 1) as nat);
        let before = Set::new(|i: int| 0 <= i < (n - 1) as nat && one(rx[i]) != code[i]);
        if one(rx[n - 1]) != code[n - 1] {
            assert(places =~= before.insert(n - 1));
        } else {
            assert(places =~= before);
        }
    }
}

/// Among the paths into a state that are as close, the one along the survivors
/// has a zero at the last input at which it differs from the other.
proof fn lemma_tie(rx: Seq<bool>, u: Seq<bool>, s: int, d: int)
    requires
        0 <= s < 64,
        state_after(0, u) == s,
        0 <= d < u.len(),
        distance(rx, u) == distance(rx, best_inputs(rx, u.len(), s)),
        best_inputs(rx, u.len(), s)[d] != u[d],
        forall|k: int|
            d < k < u.len() ==> #[trigger] best_inputs(rx, u.len(), s)[k] == u[k],
    ensures
        !best_inputs(rx, u.len(), s)[d],
    decreases u.len(),
{
    let t = u.len();
    let w = best_inputs(rx, t, s);
    lemma_metric_is_minimal(rx, u);
    lemma_best_inputs(rx, t, s);
    let v = u.drop_last();
    let x = w.drop_last();
    let pw = survivor(rx, t, s);
    let pu = state_after(0, v);
    lemma_survivor_bound(rx, t, s);
    lemma_state_bound(0, v);
    lemma_predecessor(pu, u.last());
    assert(x =~= best_inputs(rx, v.len(), pw));
    assert(u.last() == (s >= 32));
    assert(w.last() == (s >= 32));
    assert(d < t - 1);
    lemma_metric_is_minimal(rx, v);
    assert(metric(rx, v.len(), pw) is Some);
    lemma_best_inputs(rx, v.len(), pw);
    if pw == pu {
        assert forall|k: int| d < k < v.len() implies #[trigger] best_inputs(rx, v.len(), pu)[k]
            == v[k] by {
            assert(w[k] == u[k]);
        }
        lemma_tie(rx, v, pu, d);
    } else {
        let p0 = s % 32 * 2;
        assert(pu == p0 || pu == p0 + 1);
        assert(pw == p0);
        lemma_state_holds_inputs(v);
        lemma_state_holds_inputs(x);
        let n = v.len() as int;
        assert(pw / 2 == pu / 2);
        assert(pw % 2 == 0 && pu % 2 == 1);
        assert(n > 5 && v[n - 6] && !x[n - 6]);
        if d != n - 6 {
            if d < n - 6 {
                assert(w[n - 6] == u[n - 6]);
            }
            lemma_same_upper_inputs(v, x);
            assert(v[d] == u[d] && x[d] == w[d]);
        }
    }
}

/// States that differ in the lowest bit alone are reached by the same last five
/// input bits.
proof fn lemma_same_upper_inputs(v: Seq<bool>, x: Seq<bool>)
    requires
        v.len() == x.len(),
        v.len() > 5,
        state_after(0, v) / 2 == state_after(0, x) / 2,
    ensures
        forall|k: int| v.len() - 6 < k < v.len() ==> #[trigger] v[k] == x[k],
{
    lemma_state_holds_inputs(v);
    lemma_state_holds_inputs(x);
    let n = v.len() as int;
    assert(v[n - 1] == x[n - 1] && v[n - 2] == x[n - 2] && v[n - 3] == x[n - 3] && v[n - 4] == x[n
        - 4] && v[n - 5] == x[n - 5]);
}

/// What the decoder gives, by the sets of places at which received bits differ
/// from code words: no message of the right length has a code word with fewer
/// of them, and where another one has as many, the decoder's has a zero at the
/// last bit at which the two messages differ.
pub proof fn law_decoded_message(rx: Seq<bool>, bits: Seq<u8>, d: int)
    requires
        rx.len() >= 14,
        bits.len() == rx.len() / 2 - 6,
        forall|i: int| 0 <= i < bits.len() ==> bits[i] <= 1,
    ensures
        ({
            let n = (rx.len() / 2 * 2) as nat;
            let ours = code_from(0, terminated(decoded(rx)));
            let theirs = code_from(0, terminated(bits));
            let our_places = Set::new(|i: int| 0 <= i < n && one(rx[i]) != ours[i]);
            let their_places = Set::new(|i: int| 0 <= i < n && one(rx[i]) != theirs[i]);
            &&& our_places.len() <= their_places.len()
            &&& our_places.len() == their_places.len() && 0 <= d < bits.len() && decoded(rx)[d]
                != bits[d] && (forall|k: int|
                d < k < bits.len() ==> #[trigger] decoded(rx)[k] == bits[k])
                ==> decoded(rx)[d] == 0
        }),
{
    let n = (rx.len() / 2 * 2) as nat;
    let u = terminated(bits);
    law_decoded_is_closest(rx, bits);
    lemma_differing_counts(rx, code_from(0, terminated(decoded(rx))), n);
    lemma_differing_counts(rx, code_from(0, u), n);
    lemma_terminated(bits);
    law_decoder_is_optimal(rx, u);
    let w = best_inputs(rx, u.len(), 0);
    lemma_ends_in_zeros(w);
    assert(decoded(rx) =~= bit_bytes(w).take(w.len() - 6));
    lemma_distance_counts(rx, u);
    lemma_distance_counts(rx, w);
    if differing(rx, code_from(0, terminated(decoded(rx))), n) == differing(rx, code_from(0, u), n)
        && 0 <= d < bits.len() && decoded(rx)[d] != bits[d] && (forall|k: int|
        d < k < bits.len() ==> #[trigger] decoded(rx)[k] == bits[k]) {
        assert(terminated(decoded(rx)) == w);
        assert forall|k: int| d < k < u.len() implies #[trigger] w[k] == u[k] by {
            if k < bits.len() {
                assert(decoded(rx)[k] == bits[k]);
            } else {
                assert(!terminated(decoded(rx))[k]);
            }
        }
        lemma_tie(rx, u, 0, d);
    }
}

/// Received bits for six input bits or fewer hold no message.
pub proof fn law_too_short_for_a_message(rx: Seq<bool>)
    requires
        rx.len() < 14,
    ensures
        decoded(rx).len() == 0,
{
}

/// Following a table of survivors back from state 0 visits the states that the
/// table leads to, and the input bit of each step is the top bit of the state
/// after it.
pub proof fn law_traceback_follows_the_table(
    table: Seq<Vec<u8>>,
    states: Seq<int>,
    n: nat,
    t: int,
)
    requires
        n <= table.len(),
        states.len() >= n + 1,
        forall|k: int|
            0 <= k < n ==> #[trigger] states[k] == table[k]@[states[k + 1]],
        0 <= t < n,
    ensures
        table_inputs(table, n, states[n as int]).len() == n,
        table_inputs(table, n, states[n as int])[t] == (states[t + 1] >= 32),
    decreases n,
{
    lemma_table_inputs_len(table, n, states[n as int]);
    assert(states[n - 1] == table[n - 1]@[states[n - 1 + 1]]);
    lemma_table_inputs_len(table, (n - 1) as nat, states[n - 1]);
    if t < n - 1 {
        law_traceback_follows_the_table(table, states, (n - 1) as nat, t);
    }
}

} // verus!
