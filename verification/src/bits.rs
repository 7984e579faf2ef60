//! Bit sequences, most significant bit first, and the numbers they stand for.
use vstd::arithmetic::power2::pow2;
use vstd::prelude::*;

verus! {

/// The number that a bit sequence stands for.
pub open spec fn value(s: Seq<bool>) -> nat
    decreases s.len(),
{
    if s.len() == 0 {
        0
    } else {
        2 * value(s.drop_last()) + if s.last() {
            1nat
        } else {
            0nat
        }
    }
}

/// The low `n` bits of a number.
pub open spec fn bits_of(v: nat, n: nat) -> Seq<bool>
    decreases n,
{
    if n == 0 {
        seq![]
    } else {
        bits_of(v / 2, (n - 1) as nat).push(v % 2 == 1)
    }
}

/// `n` zero bits.
pub open spec fn zeros(n: nat) -> Seq<bool> {
    Seq::new(n, |i: int| false)
}

/// The bits of a byte string.
pub open spec fn unpacked(bytes: Seq<u8>) -> Seq<bool>
    decreases bytes.len(),
{
    if bytes.len() == 0 {
        seq![]
    } else {
        bits_of(bytes[0] as nat, 8) + unpacked(bytes.skip(1))
    }
}

/// Number of zero bits that fill up the last byte.
pub open spec fn padding(len: nat) -> nat {
    ((8 - len % 8) % 8) as nat
}

/// Bits as bytes, the last byte filled up with zero bits.
pub open spec fn packed(s: Seq<bool>) -> Seq<u8>
    decreases s.len(),
{
    if s.len() == 0 {
        seq![]
    } else if s.len() < 8 {
        seq![value(s + zeros((8 - s.len()) as nat)) as u8]
    } else {
        seq![value(s.take(8)) as u8] + packed(s.skip(8))
    }
}

pub proof fn lemma_bits_of_len(v: nat, n: nat)
    ensures
        bits_of(v, n).len() == n,
    decreases n,
{
    if n > 0 {
        lemma_bits_of_len(v / 2, (n - 1) as nat);
    }
}

pub proof fn lemma_value_bound(s: Seq<bool>)
    ensures
        value(s) < pow2(s.len()),
    decreases s.len(),
{
    if s.len() == 0 {
        vstd::arithmetic::power2::lemma2_to64();
    } else {
        lemma_value_bound(s.drop_last());
        vstd::arithmetic::power2::lemma_pow2_unfold(s.len());
    }
}

pub proof fn lemma_value_of_bits(v: nat, n: nat)
    requires
        v < pow2(n),
    ensures
        value(bits_of(v, n)) == v,
    decreases n,
{
    if n == 0 {
        vstd::arithmetic::power2::lemma2_to64();
    } else {
        vstd::arithmetic::power2::lemma_pow2_unfold(n);
        lemma_value_of_bits(v / 2, (n - 1) as nat);
        let front = bits_of(v / 2, (n - 1) as nat);
        assert(bits_of(v, n).drop_last() =~= front);
    }
}

pub proof fn lemma_bits_of_value(s: Seq<bool>)
    ensures
        bits_of(value(s), s.len()) == s,
    decreases s.len(),
{
    if s.len() > 0 {
        lemma_bits_of_value(s.drop_last());
        assert(bits_of(value(s), s.len()) =~= s);
    }
}

/// The number of a prefix is the whole number without its low bits.
pub proof fn lemma_value_prefix(s: Seq<bool>, m: nat)
    requires
        m <= s.len(),
    ensures
        value(s) / pow2((s.len() - m) as nat) == value(s.take(m as int)),
    decreases s.len() - m,
{
    if m == s.len() {
        vstd::arithmetic::power2::lemma2_to64();
        assert(s.take(m as int) =~= s);
        assert(value(s) / 1 == value(s)) by (nonlinear_arith);
    } else {
        let t = s.drop_last();
        let d = (s.len() - m) as nat;
        lemma_value_prefix(t, m);
        assert(t.take(m as int) =~= s.take(m as int));
        vstd::arithmetic::power2::lemma_pow2_unfold(d);
        vstd::arithmetic::power2::lemma_pow2_pos((d - 1) as nat);
        let p = pow2((d - 1) as nat) as int;
        vstd::arithmetic::div_mod::lemma_div_denominator(value(s) as int, 2, p);
        assert(value(s) / 2 == value(t));
    }
}

/// The number of two bit sequences in a row.
pub proof fn lemma_value_concat(a: Seq<bool>, b: Seq<bool>)
    ensures
        value(a + b) == value(a) * pow2(b.len()) + value(b),
    decreases b.len(),
{
    if b.len() == 0 {
        assert(a + b =~= a);
        vstd::arithmetic::power2::lemma2_to64();
        assert(value(a) * 1 == value(a)) by (nonlinear_arith);
    } else {
        lemma_value_concat(a, b.drop_last());
        assert((a + b).drop_last() =~= a + b.drop_last());
        assert((a + b).last() == b.last());
        vstd::arithmetic::power2::lemma_pow2_unfold(b.len());
        let p = pow2((b.len() - 1) as nat);
        assert(pow2(b.len()) == 2 * p);
        assert(value(a) * (2 * p) == 2 * (value(a) * p)) by (nonlinear_arith);
    }
}

pub proof fn lemma_byte_value(b: u8)
    ensures
        value(bits_of(b as nat, 8)) == b,
        bits_of(b as nat, 8).len() == 8,
{
    vstd::arithmetic::power2::lemma2_to64();
    lemma_value_of_bits(b as nat, 8);
    lemma_bits_of_len(b as nat, 8);
}

pub proof fn lemma_value_byte(s: Seq<bool>)
    requires
        s.len() == 8,
    ensures
        value(s) < 256,
        bits_of(value(s), 8) == s,
{
    vstd::arithmetic::power2::lemma2_to64();
    lemma_value_bound(s);
    lemma_bits_of_value(s);
}

pub proof fn lemma_unpacked_len(bytes: Seq<u8>)
    ensures
        unpacked(bytes).len() == 8 * bytes.len(),
    decreases bytes.len(),
{
    if bytes.len() > 0 {
        lemma_bits_of_len(bytes[0] as nat, 8);
        lemma_unpacked_len(bytes.skip(1));
    }
}

/// Unpacking what was packed gives the bits back, followed by the fill.
pub proof fn lemma_unpack_pack(s: Seq<bool>)
    ensures
        unpacked(packed(s)) == s + zeros(padding(s.len())),
    decreases s.len(),
{
    if s.len() == 0 {
        assert(s + zeros(padding(0)) =~= seq![]);
    } else if s.len() < 8 {
        let full = s + zeros((8 - s.len()) as nat);
        lemma_value_byte(full);
        assert(packed(s).skip(1) =~= seq![]);
        assert(unpacked(packed(s).skip(1)) =~= seq![]);
        assert(unpacked(packed(s)) =~= full);
    } else {
        let rest = s.skip(8);
        lemma_value_byte(s.take(8));
        lemma_unpack_pack(rest);
        assert(packed(s).skip(1) =~= packed(rest));
        assert(unpacked(packed(s)) =~= s.take(8) + (rest + zeros(padding(rest.len()))));
        assert(s.take(8) + rest =~= s);
        assert(unpacked(packed(s)) =~= s + zeros(padding(s.len())));
    }
}

/// Append the low `n` bits of `v`.
pub fn push_bits(out: &mut Vec<bool>, v: u32, n: u8)
    ensures
        final(out)@ == old(out)@ + bits_of(v as nat, n as nat),
    decreases n,
{
    if n > 0 {
        push_bits(out, v / 2, n - 1);
        out.push(v % 2 == 1);
    }
    assert(out@ =~= old(out)@ + bits_of(v as nat, n as nat));
}

/// The number that up to 32 bits of a buffer stand for.
pub fn read_bits(bits: &Vec<bool>, pos: usize, n: usize) -> (v: u32)
    requires
        pos + n <= bits.len(),
        n <= 32,
    ensures
        v == value(bits@.subrange(pos as int, pos + n)),
{
    let mut v: u32 = 0;
    let mut i: usize = 0;
    while i < n
        invariant
            i <= n <= 32,
            pos + n <= bits.len(),
            v == value(bits@.subrange(pos as int, pos + i)),
        decreases n - i,
    {
        let ghost s = bits@.subrange(pos as int, pos + i + 1);
        proof {
            assert(s.drop_last() =~= bits@.subrange(pos as int, pos + i));
            vstd::arithmetic::power2::lemma2_to64();
            lemma_value_bound(s);
            if i + 1 < 32 {
                vstd::arithmetic::power2::lemma_pow2_strictly_increases((i + 1) as nat, 32);
            }
        }
        v = 2 * v + if bits[pos + i] {
            1
        } else {
            0
        };
        i += 1;
    }
    v
}

/// Bits as bytes, the last byte filled up with zero bits.
pub fn pack(bits: &Vec<bool>) -> (out: Vec<u8>)
    ensures
        out@ == packed(bits@),
{
    let mut out: Vec<u8> = Vec::new();
    let mut pos: usize = 0;
    assert(bits@.skip(0) =~= bits@);
    while bits.len() - pos >= 8
        invariant
            pos <= bits@.len(),
            out@ + packed(bits@.skip(pos as int)) == packed(bits@),
        decreases bits.len() - pos,
    {
        let ghost before = out@;
        let ghost rest = bits@.skip(pos as int);
        let v = read_bits(bits, pos, 8);
        proof {
            assert(rest.take(8) =~= bits@.subrange(pos as int, pos + 8));
            lemma_value_byte(rest.take(8));
            assert(rest.skip(8) =~= bits@.skip(pos + 8));
        }
        out.push(v as u8);
        pos += 8;
        assert(out@ + packed(bits@.skip(pos as int)) =~= before + (seq![v as u8] + packed(
            bits@.skip(pos as int),
        )));
    }
    let n: usize = bits.len() - pos;
    let ghost rest = bits@.skip(pos as int);
    if n > 0 {
        let mut v = read_bits(bits, pos, n);
        let ghost mut s = rest;
        proof {
            assert(rest =~= bits@.subrange(pos as int, pos + n));
        }
        let mut k: usize = n;
        assert(s =~= rest + zeros(0));
        while k < 8
            invariant
                n <= k <= 8,
                rest.len() == n,
                s == rest + zeros((k - n) as nat),
                v == value(s),
            decreases 8 - k,
        {
            let ghost next = s.push(false);
            proof {
                assert(next.drop_last() =~= s);
                lemma_value_bound(next);
                vstd::arithmetic::power2::lemma2_to64();
                if k + 1 < 8 {
                    vstd::arithmetic::power2::lemma_pow2_strictly_increases((k + 1) as nat, 8);
                }
            }
            v = 2 * v;
            k += 1;
            proof {
                s = next;
                assert(s =~= rest + zeros((k - n) as nat));
            }
        }
        proof {
            lemma_value_byte(s);
        }
        let ghost before = out@;
        out.push(v as u8);
        assert(out@ =~= before + packed(rest));
    } else {
        assert(rest =~= seq![]);
        assert(out@ =~= out@ + packed(rest));
    }
    out
}

/// The bits of a byte string.
pub fn unpack(bytes: &[u8]) -> (out: Vec<bool>)
    ensures
        out@ == unpacked(bytes@),
{
    let mut out: Vec<bool> = Vec::new();
    let mut i: usize = 0;
    assert(bytes@.skip(0) =~= bytes@);
    assert(out@ + unpacked(bytes@) =~= unpacked(bytes@));
    while i < bytes.len()
        invariant
            i <= bytes@.len(),
            out@ + unpacked(bytes@.skip(i as int)) == unpacked(bytes@),
        decreases bytes.len() - i,
    {
        let ghost before = out@;
        push_bits(&mut out, bytes[i] as u32, 8);
        proof {
            assert(bytes@.skip(i as int).skip(1) =~= bytes@.skip(i + 1));
            assert(out@ + unpacked(bytes@.skip(i + 1)) =~= before + (bits_of(
                bytes@[i as int] as nat,
                8,
            ) + unpacked(bytes@.skip(i + 1))));
        }
        i += 1;
    }
    assert(bytes@.skip(i as int) =~= seq![]);
    assert(out@ =~= out@ + unpacked(bytes@.skip(i as int)));
    out
}

/// Bit `j` of the low `n` bits of a number is that of its place, the highest
/// place first.
pub proof fn law_bits_of_at(v: nat, n: nat, j: int)
    requires
        0 <= j < n,
    ensures
        bits_of(v, n).len() == n,
        bits_of(v, n)[j] == (v as int / pow2((n - 1 - j) as nat) as int % 2 == 1),
    decreases n,
{
    lemma_bits_of_len(v, n);
    lemma_bits_of_len(v / 2, (n - 1) as nat);
    if j == n - 1 {
        vstd::arithmetic::power2::lemma2_to64();
        assert(v as int / 1 == v) by (nonlinear_arith);
    } else {
        law_bits_of_at(v / 2, (n - 1) as nat, j);
        let d = (n - 1 - j) as nat;
        vstd::arithmetic::power2::lemma_pow2_unfold(d);
        vstd::arithmetic::power2::lemma_pow2_pos((d - 1) as nat);
        vstd::arithmetic::div_mod::lemma_div_denominator(v as int, 2, pow2((d - 1) as nat) as int);
    }
}

/// Packed bits stand in their bytes from the highest place down, and the last
/// byte is filled up with zeros: unpacking gives the bits back, and then zeros,
/// fewer than eight.
pub proof fn law_unpack_pack(s: Seq<bool>)
    ensures
        packed(s).len() == (s.len() + 7) / 8,
        forall|k: int| 0 <= k < s.len() ==> #[trigger] unpacked(packed(s))[k] == s[k],
        forall|k: int|
            s.len() <= k < 8 * ((s.len() + 7) / 8) ==> !#[trigger] unpacked(packed(s))[k],
{
    lemma_unpack_pack(s);
    lemma_unpacked_len(packed(s));
    assert(unpacked(packed(s)).len() == s.len() + padding(s.len()));
}

/// Bit `j` of byte `k`, highest first, is bit `8 * k + j` of a byte string.
pub proof fn law_unpacked_at(bytes: Seq<u8>, k: int, j: int)
    requires
        0 <= k < bytes.len(),
        0 <= j < 8,
    ensures
        unpacked(bytes).len() == 8 * bytes.len(),
        unpacked(bytes)[8 * k + j] == (bytes[k] as int / pow2((7 - j) as nat) as int % 2 == 1),
    decreases bytes.len(),
{
    lemma_unpacked_len(bytes);
    lemma_bits_of_len(bytes[0] as nat, 8);
    if k == 0 {
        law_bits_of_at(bytes[0] as nat, 8, j);
    } else {
        law_unpacked_at(bytes.skip(1), k - 1, j);
        assert(unpacked(bytes)[8 * k + j] == unpacked(bytes.skip(1))[8 * (k - 1) + j]);
    }
}

} // verus!
