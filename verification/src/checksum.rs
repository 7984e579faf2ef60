//! The frame check sequence that AX.25 and the PHY frame share.
use vstd::prelude::*;

verus! {

/// The register after one bit was shifted out at its low end. The polynomial
/// is 0x1021, with its bits in reverse.
pub open spec fn shifted(register: u16) -> u16 {
    if register & 1 == 1 {
        (register >> 1) ^ 0x8408
    } else {
        register >> 1
    }
}

/// The register after a byte, which goes in with its low bit first.
pub open spec fn after_byte(register: u16, byte: u8) -> u16 {
    let r = register ^ (byte as u16);
    shifted(shifted(shifted(shifted(shifted(shifted(shifted(shifted(r))))))))
}

/// The register after some bytes. It starts with all bits set.
pub open spec fn register_after(bytes: Seq<u8>) -> u16
    decreases bytes.len(),
{
    if bytes.len() == 0 {
        0xFFFF
    } else {
        after_byte(register_after(bytes.drop_last()), bytes.last())
    }
}

/// The CRC-16/IBM-SDLC checksum of a byte string: the register with all its
/// bits inverted.
pub open spec fn crc16(bytes: Seq<u8>) -> u16 {
    register_after(bytes) ^ 0xFFFF
}

/// Calls `crc::Crc::<u16>::checksum` with the algorithm `CRC_16_IBM_SDLC`:
/// sixteen bits, polynomial 0x1021, start value 0xFFFF, bits of input and
/// output reversed, result XORed with 0xFFFF.
#[verifier::external_body]
pub(crate) fn checksum(bytes: &[u8]) -> (r: u16)
    ensures
        r == crc16(bytes@),
{
    crc::Crc::<u16>::new(&crc::CRC_16_IBM_SDLC).checksum(bytes)
}

/// Equal registers were equal before a shift.
proof fn lemma_shift_is_injective(a: u16, b: u16)
    requires
        shifted(a) == shifted(b),
    ensures
        a == b,
{
    assert(shifted(a) == shifted(b) ==> a == b) by (bit_vector);
}

/// Registers that are equal after a byte each held the same XOR of register
/// and byte.
proof fn lemma_byte_is_injective(r1: u16, b1: u8, r2: u16, b2: u8)
    requires
        after_byte(r1, b1) == after_byte(r2, b2),
    ensures
        r1 ^ (b1 as u16) == r2 ^ (b2 as u16),
{
    let x = r1 ^ (b1 as u16);
    let y = r2 ^ (b2 as u16);
    let (x1, y1) = (shifted(x), shifted(y));
    let (x2, y2) = (shifted(x1), shifted(y1));
    let (x3, y3) = (shifted(x2), shifted(y2));
    let (x4, y4) = (shifted(x3), shifted(y3));
    let (x5, y5) = (shifted(x4), shifted(y4));
    let (x6, y6) = (shifted(x5), shifted(y5));
    let (x7, y7) = (shifted(x6), shifted(y6));
    lemma_shift_is_injective(x7, y7);
    lemma_shift_is_injective(x6, y6);
    lemma_shift_is_injective(x5, y5);
    lemma_shift_is_injective(x4, y4);
    lemma_shift_is_injective(x3, y3);
    lemma_shift_is_injective(x2, y2);
    lemma_shift_is_injective(x1, y1);
    lemma_shift_is_injective(x, y);
}

/// Different bytes into one register make the high half differ.
proof fn lemma_high_half(r: u16, b1: u8, b2: u8)
    requires
        b1 != b2,
    ensures
        after_byte(r, b1) >> 8 != after_byte(r, b2) >> 8,
{
    assert(b1 != b2 ==> after_byte(r, b1) >> 8 != after_byte(r, b2) >> 8) by (bit_vector);
}

/// Different registers stay different over common bytes.
proof fn lemma_common_tail(s: Seq<u8>, t: Seq<u8>, n: int)
    requires
        s.len() == t.len(),
        0 <= n <= s.len(),
        register_after(s.take(n)) != register_after(t.take(n)),
        forall|j: int| n <= j < s.len() ==> s[j] == t[j],
    ensures
        register_after(s) != register_after(t),
    decreases s.len() - n,
{
    if n == s.len() {
        assert(s.take(n) =~= s);
        assert(t.take(n) =~= t);
    } else {
        let (a, b) = (s.take(n + 1), t.take(n + 1));
        assert(a.drop_last() =~= s.take(n));
        assert(b.drop_last() =~= t.take(n));
        let (r1, r2, c) = (register_after(s.take(n)), register_after(t.take(n)), s[n]);
        if after_byte(r1, c) == after_byte(r2, c) {
            lemma_byte_is_injective(r1, c, r2, c);
            assert(r1 ^ (c as u16) == r2 ^ (c as u16) ==> r1 == r2) by (bit_vector);
        }
        lemma_common_tail(s, t, n + 1);
    }
}

/// A change within two neighbouring bytes changes the checksum.
pub proof fn law_burst_changes_checksum(s: Seq<u8>, t: Seq<u8>, i: int)
    requires
        s.len() == t.len(),
        0 <= i < s.len(),
        s[i] != t[i],
        forall|j: int| 0 <= j < s.len() && j != i && j != i + 1 ==> s[j] == t[j],
    ensures
        crc16(s) != crc16(t),
{
    let r = register_after(s.take(i));
    assert(s.take(i) =~= t.take(i));
    let (a, b) = (s.take(i + 1), t.take(i + 1));
    assert(a.drop_last() =~= s.take(i));
    assert(b.drop_last() =~= t.take(i));
    let (r1, r2) = (register_after(a), register_after(b));
    lemma_high_half(r, s[i], t[i]);
    if i + 1 < s.len() {
        let (c, d) = (s.take(i + 2), t.take(i + 2));
        assert(c.drop_last() =~= a);
        assert(d.drop_last() =~= b);
        let (b1, b2) = (s[i + 1], t[i + 1]);
        if after_byte(r1, b1) == after_byte(r2, b2) {
            lemma_byte_is_injective(r1, b1, r2, b2);
            assert(r1 ^ (b1 as u16) == r2 ^ (b2 as u16) ==> r1 >> 8 == r2 >> 8) by (bit_vector);
        }
        lemma_common_tail(s, t, i + 2);
    } else {
        lemma_common_tail(s, t, i + 1);
    }
    let (x, y) = (register_after(s), register_after(t));
    assert(x != y ==> x ^ 0xFFFF != y ^ 0xFFFF) by (bit_vector);
}

/// Bytes end with their own checksum, low byte first, exactly where the
/// register is 0xF0B8 after all of them.
pub proof fn law_residue(b: Seq<u8>)
    requires
        b.len() >= 2,
    ensures
        (register_after(b) == 0xF0B8) == (crc16(b.take(b.len() - 2)) == b[b.len() - 2] + 256
            * b[b.len() - 1]),
{
    let n = b.len() - 2;
    let one = b.take(n + 1);
    assert(one.drop_last() =~= b.take(n));
    assert(b.drop_last() =~= one);
    let (r, lo, hi) = (register_after(b.take(n)), b[n], b[n + 1]);
    let m = after_byte(r, lo);
    let q = after_byte(m, hi);
    assert(register_after(one) == m);
    assert(register_after(b) == q);
    assert((q == 0xF0B8) == (r ^ 0xFFFF == lo + 256 * hi)) by (bit_vector)
        requires
            m == after_byte(r, lo),
            q == after_byte(m, hi),
    ;
}

/// Of bytes that end with their own checksum, none that differ within two
/// neighbouring bytes do.
pub proof fn law_burst_breaks_checked_bytes(b: Seq<u8>, c: Seq<u8>, i: int)
    requires
        b.len() >= 2,
        crc16(b.take(b.len() - 2)) == b[b.len() - 2] + 256 * b[b.len() - 1],
        b.len() == c.len(),
        0 <= i < b.len(),
        b[i] != c[i],
        forall|j: int| 0 <= j < b.len() && j != i && j != i + 1 ==> b[j] == c[j],
    ensures
        crc16(c.take(c.len() - 2)) != c[c.len() - 2] + 256 * c[c.len() - 1],
{
    law_residue(b);
    law_residue(c);
    law_burst_changes_checksum(b, c, i);
}

} // verus!
