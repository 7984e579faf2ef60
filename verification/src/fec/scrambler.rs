//! PRBS scrambler.
//!
//! Bits are XORed with the output of the shift register x^15 + x^14 + 1 from a
//! fixed seed. XOR undoes itself, so scrambling twice gives the bits back.
use vstd::prelude::*;

verus! {

/// Initial state of the shift register.
pub const PRBS_SEED: u16 = 0x4A80;

/// The output bit of a register state.
pub open spec fn output_bit(state: u16) -> u8 {
    ((state / 16384 + state / 8192 % 2) % 2) as u8
}

/// The state of the shift register after `i` steps.
pub open spec fn register(i: nat) -> u16
    decreases i,
{
    if i == 0 {
        PRBS_SEED
    } else {
        let s = register((i - 1) as nat);
        (s * 2 % 32768 + output_bit(s)) as u16
    }
}

/// Bit `i` of the keystream.
pub open spec fn keystream(i: int) -> u8 {
    output_bit(register(i as nat))
}

/// Bits after scrambling.
pub open spec fn scrambled(bits: Seq<u8>) -> Seq<u8> {
    Seq::new(bits.len(), |i: int| bits[i] ^ keystream(i))
}

/// XOR `bits` in place with the keystream.
pub fn scramble(bits: &mut [u8])
    ensures
        final(bits)@ == scrambled(old(bits)@),
{
    let mut state: u16 = PRBS_SEED;
    let n: usize = bits.len();
    let mut i: usize = 0;
    while i < n
        invariant
            i <= n,
            n == bits@.len(),
            n == old(bits)@.len(),
            state == register(i as nat),
            state < 32768,
            forall|k: int| 0 <= k < i ==> bits@[k] == old(bits)@[k] ^ keystream(k),
            forall|k: int| i <= k < n ==> bits@[k] == old(bits)@[k],
        decreases n - i,
    {
        let out: u8 = ((state / 16384 + state / 8192 % 2) % 2) as u8;
        bits[i] = bits[i] ^ out;
        state = (state % 16384) * 2 + out as u16;
        i += 1;
    }
    assert(bits@ =~= scrambled(old(bits)@));
}

/// The first `len` bits of the keystream.
///
/// The register depends on nothing but its own state, so a zero bit at place
/// `i` is scrambled to the keystream bit `i` whatever stands before it.
pub fn prbs_bits(len: usize) -> (bits: Vec<u8>)
    ensures
        bits@ == Seq::new(len as nat, |i: int| keystream(i)),
{
    let mut bits: Vec<u8> = vec![0u8; len];
    let ghost zeros = bits@;
    scramble(bits.as_mut_slice());
    proof {
        assert forall|i: int| 0 <= i < len implies bits@[i] == keystream(i) by {
            lemma_xor(zeros[i], keystream(i));
        }
        assert(bits@ =~= Seq::new(len as nat, |i: int| keystream(i)));
    }
    bits
}

proof fn lemma_xor(b: u8, k: u8)
    ensures
        (b ^ k) ^ k == b,
        0u8 ^ k == k,
        b <= 1 && k <= 1 ==> b ^ k <= 1,
{
    assert((b ^ k) ^ k == b && 0u8 ^ k == k && (b <= 1 && k <= 1 ==> b ^ k <= 1)) by (bit_vector);
}

/// Scrambling twice gives the bits back.
pub proof fn law_self_inverse(bits: Seq<u8>)
    ensures
        scrambled(scrambled(bits)) == bits,
{
    assert forall|i: int| 0 <= i < bits.len() implies scrambled(scrambled(bits))[i]
        == bits[i] by {
        lemma_xor(bits[i], keystream(i));
    }
    assert(scrambled(scrambled(bits)) =~= bits);
}

/// Zero padding is scrambled to the keystream at its own place, whatever the
/// bits before it are.
pub proof fn law_padding_is_keystream(payload: Seq<u8>, pad: nat, i: int)
    requires
        payload.len() <= i < payload.len() + pad,
    ensures
        scrambled(payload + Seq::new(pad, |k: int| 0u8))[i] == keystream(i),
{
    lemma_xor(0, keystream(i));
}

/// Scrambling keeps bits bits.
pub proof fn law_bits_stay_bits(bits: Seq<u8>)
    requires
        forall|i: int| 0 <= i < bits.len() ==> bits[i] <= 1,
    ensures
        forall|i: int| 0 <= i < bits.len() ==> scrambled(bits)[i] <= 1,
{
    assert forall|i: int| 0 <= i < bits.len() implies scrambled(bits)[i] <= 1 by {
        lemma_xor(bits[i], keystream(i));
    }
}

/// Bit `j` of a register state.
spec fn state_bit(s: u16, j: u16) -> u16 {
    (s >> j) & 1
}

/// The keystream, with the bits of the seed before its first bit, the highest
/// one first.
spec fn stream(i: int) -> u16 {
    if i >= 0 {
        keystream(i) as u16
    } else {
        state_bit(PRBS_SEED, (-1 - i) as u16)
    }
}

/// What a step does to each bit of the register.
proof fn lemma_step(s: u16, n: u16, o: u16, j: u16)
    requires
        s < 32768,
        o <= 1,
        n == s * 2 % 32768 + o,
        j < 14,
    ensures
        n < 32768,
        state_bit(n, (j + 1) as u16) == state_bit(s, j),
        state_bit(n, 0) == o,
        (s / 16384 + s / 8192 % 2) % 2 == ((s >> 14u16) & 1) ^ ((s >> 13u16) & 1),
        ((s >> 14u16) & 1) ^ ((s >> 13u16) & 1) <= 1,
{
    let k: u16 = (j + 1) as u16;
    assert(n < 32768 && (n >> k) & 1 == (s >> j) & 1 && (n >> 0u16) & 1 == o) by (bit_vector)
        requires
            s < 32768,
            o <= 1,
            n == s * 2 % 32768 + o,
            j < 14,
            k == j + 1,
    ;
    let a = s / 16384;
    let b = s / 8192 % 2;
    assert(a <= 1 && b <= 1 && a == (s >> 14u16) & 1 && b == (s >> 13u16) & 1) by (bit_vector)
        requires
            s < 32768,
            a == s / 16384,
            b == s / 8192 % 2,
    ;
    assert(0u16 ^ 0 == 0u16 && 0u16 ^ 1 == 1u16 && 1u16 ^ 0 == 1u16 && 1u16 ^ 1 == 0u16)
        by (bit_vector);
}

/// The register holds the last fifteen bits of the stream, the latest lowest.
proof fn lemma_register_holds_stream(i: nat)
    ensures
        register(i) < 32768,
        forall|j: u16| j < 15 ==> #[trigger] state_bit(register(i), j) == stream(i - 1 - j),
    decreases i,
{
    if i > 0 {
        let s = register((i - 1) as nat);
        let n = register(i);
        let o = output_bit(s) as u16;
        lemma_register_holds_stream((i - 1) as nat);
        assert forall|j: u16| j < 15 implies #[trigger] state_bit(n, j) == stream(i - 1 - j) by {
            if j == 0 {
                lemma_step(s, n, o, 0);
            } else {
                lemma_step(s, n, o, (j - 1) as u16);
                assert(state_bit(s, (j - 1) as u16) == stream(i - 2 - (j - 1)));
            }
        }
        lemma_step(s, n, o, 0);
    }
}

/// The keystream obeys the recurrence of x^15 + x^14 + 1 at every place: each
/// bit is the XOR of the bits fifteen and fourteen places before it. Before the
/// first bit stand the fifteen bits of the seed.
pub proof fn law_keystream_recurrence(i: int)
    requires
        i >= 0,
    ensures
        keystream(i + 15) == keystream(i) ^ keystream(i + 1),
        keystream(i) <= 1,
        i < 14 ==> keystream(i) == ((0x4A80u16 >> ((14 - i) as u16)) & 1) ^ ((0x4A80u16 >> ((13
            - i) as u16)) & 1),
        i == 14 ==> keystream(i) == (0x4A80u16 & 1) ^ keystream(0) as u16,
{
    lemma_stream(i);
    lemma_stream(i + 15);
    assert(0x4A80u16 >> 0u16 == 0x4A80u16) by (bit_vector);
}

proof fn lemma_stream(i: int)
    requires
        i >= 0,
    ensures
        keystream(i) == stream(i - 15) ^ stream(i - 14),
        keystream(i) <= 1,
{
    let s = register(i as nat);
    lemma_register_holds_stream(i as nat);
    lemma_step(s, (s * 2 % 32768) as u16, 0, 0);
    assert(state_bit(s, 14) == stream(i - 1 - 14));
    assert(state_bit(s, 13) == stream(i - 1 - 13));
}

/// Scrambling is a XOR with the keystream, place by place, whatever the bits
/// are and however many there are.
pub proof fn law_scrambling_adds_the_keystream(bits: Seq<u8>)
    ensures
        scrambled(bits).len() == bits.len(),
        forall|i: int|
            0 <= i < bits.len() ==> #[trigger] scrambled(bits)[i] ^ bits[i] == keystream(i),
{
    assert forall|i: int| 0 <= i < bits.len() implies #[trigger] scrambled(bits)[i] ^ bits[i]
        == keystream(i) by {
        let (b, k) = (bits[i], keystream(i));
        assert((b ^ k) ^ b == k) by (bit_vector);
    }
}

} // verus!
