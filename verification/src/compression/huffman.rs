//! Fixed Huffman code for ham radio text.
//!
//! The code is canonical and prefix-free. Bytes without a code of their own
//! travel as an escape code followed by the byte itself.
use vstd::arithmetic::power2::pow2;
use vstd::prelude::*;
use vstd::string::*;

verus! {

/// A fixed Huffman code entry.
#[derive(Debug, Clone, Copy)]
pub struct HuffmanEntry {
    pub symbol: u8,
    pub code: u32,
    pub bits: u8,
}

/// The code table as (symbol, code, code length), shortest codes first.
pub const HAM_RADIO_TABLE: [(u8, u32, u8); 64] = [
    (0x20, 0b00, 2),
    (0x45, 0b010, 3),
    (0x54, 0b0110, 4),
    (0x41, 0b0111, 4),
    (0x4F, 0b10000, 5),
    (0x49, 0b10001, 5),
    (0x4E, 0b10010, 5),
    (0x53, 0b10011, 5),
    (0x52, 0b101000, 6),
    (0x48, 0b101001, 6),
    (0x4C, 0b101010, 6),
    (0x44, 0b101011, 6),
    (0x43, 0b101100, 6),
    (0x55, 0b101101, 6),
    (0x4D, 0b101110, 6),
    (0x57, 0b101111, 6),
    (0x46, 0b1100000, 7),
    (0x47, 0b1100001, 7),
    (0x59, 0b1100010, 7),
    (0x50, 0b1100011, 7),
    (0x42, 0b1100100, 7),
    (0x56, 0b1100101, 7),
    (0x4B, 0b1100110, 7),
    (0x4A, 0b1100111, 7),
    (0x58, 0b1101000, 7),
    (0x51, 0b1101001, 7),
    (0x5A, 0b1101010, 7),
    (0x30, 0b1101011, 7),
    (0x31, 0b1101100, 7),
    (0x32, 0b1101101, 7),
    (0x33, 0b1101110, 7),
    (0x34, 0b1101111, 7),
    (0x35, 0b11100000, 8),
    (0x36, 0b11100001, 8),
    (0x37, 0b11100010, 8),
    (0x38, 0b11100011, 8),
    (0x39, 0b11100100, 8),
    (0x2E, 0b11100101, 8),
    (0x2C, 0b11100110, 8),
    (0x3F, 0b11100111, 8),
    (0x2F, 0b11101000, 8),
    (0x2D, 0b11101001, 8),
    (0x3A, 0b11101010, 8),
    (0x0A, 0b11101011, 8),
    (0x0D, 0b11101100, 8),
    (0x21, 0b11101101, 8),
    (0x40, 0b11101110, 8),
    (0x23, 0b11101111, 8),
    (0x24, 0b11110000, 8),
    (0x28, 0b11110001, 8),
    (0x29, 0b11110010, 8),
    (0x2B, 0b11110011, 8),
    (0x3D, 0b11110100, 8),
    (0x61, 0b11110101, 8),
    (0x65, 0b11110110, 8),
    (0x69, 0b11110111, 8),
    (0x6F, 0b11111000, 8),
    (0x6E, 0b11111001, 8),
    (0x74, 0b11111010, 8),
    (0x73, 0b11111011, 8),
    (0x72, 0b11111100, 8),
    (0x5F, 0b11111101, 8),
    (0x2A, 0b11111110, 8),
    (0x7E, 0b11111111, 8),
];

/// The symbol whose code announces a raw byte.
pub const ESCAPE: u8 = 0x7E;

/// What keeps a bitstream from being decoded.
#[derive(Debug, Clone, Copy, PartialEq, Eq, Structural)]
pub enum HuffmanFault {
    /// The stream announces more padding than a byte can hold.
    InvalidPadding { count: u8 },
    /// An escape code with fewer than eight bits behind it.
    TruncatedEscape,
    /// No code starts at this bit position.
    NoCode { position: usize },
}

/// The symbol of table entry `k`.
pub open spec fn symbol(k: int) -> u8 {
    HAM_RADIO_TABLE@[k].0
}

/// The code of table entry `k`.
pub open spec fn code(k: int) -> u32 {
    HAM_RADIO_TABLE@[k].1
}

/// The code length of table entry `k`.
pub open spec fn code_len(k: int) -> u8 {
    HAM_RADIO_TABLE@[k].2
}

/// The code of table entry `k`, as bits.
pub open spec fn code_bits(k: int) -> Seq<bool> {
    crate::bits::bits_of(code(k) as nat, code_len(k) as nat)
}

/// The code and code length of the last of the first `n` entries that stands
/// for a byte; a length of 0 where none does.
pub open spec fn lookup(b: u8, n: int) -> (u32, u8)
    decreases n,
{
    if n <= 0 {
        (0, 0)
    } else if symbol(n - 1) == b {
        (code(n - 1), code_len(n - 1))
    } else {
        lookup(b, n - 1)
    }
}

/// The bits that stand for a byte: its own code, or the escape code and the
/// byte itself where it has none or is the escape symbol.
pub open spec fn byte_code(b: u8) -> Seq<bool> {
    let (c, n) = lookup(b, 64);
    if n > 0 && b != ESCAPE {
        crate::bits::bits_of(c as nat, n as nat)
    } else {
        let (ec, en) = lookup(ESCAPE, 64);
        crate::bits::bits_of(ec as nat, en as nat) + crate::bits::bits_of(b as nat, 8)
    }
}

/// The bits that stand for a text.
pub open spec fn text_code(data: Seq<u8>) -> Seq<bool>
    decreases data.len(),
{
    if data.len() == 0 {
        seq![]
    } else {
        byte_code(data[0]) + text_code(data.skip(1))
    }
}

/// The compressed form: the number of fill bits, then the bits as bytes.
pub open spec fn encoded(data: Seq<u8>) -> Seq<u8> {
    let bits = text_code(data);
    seq![crate::bits::padding(bits.len()) as u8] + crate::bits::packed(bits)
}

/// Whether bits start with the code of entry `k`.
pub open spec fn starts_with_code(s: Seq<bool>, k: int) -> bool {
    code_len(k) <= s.len() && s.take(code_len(k) as int) == code_bits(k)
}

/// The first entry from `k` on whose code bits start with.
pub open spec fn first_match(s: Seq<bool>, k: int) -> Option<int>
    decreases 64 - k,
{
    if k >= 64 {
        None
    } else if starts_with_code(s, k) {
        Some(k)
    } else {
        first_match(s, k + 1)
    }
}

/// The text that bits stand for, up to where they stop making sense. An
/// escape code without a whole byte behind it stands for nothing.
pub open spec fn decoded(s: Seq<bool>) -> Seq<u8>
    decreases s.len(),
{
    match first_match(s, 0) {
        None => seq![],
        Some(k) => {
            let rest = s.skip(code_len(k) as int);
            if rest.len() >= s.len() {
                seq![]
            } else if symbol(k) != ESCAPE {
                seq![symbol(k)] + decoded(rest)
            } else if rest.len() >= 8 {
                seq![crate::bits::value(rest.take(8)) as u8] + decoded(rest.skip(8))
            } else {
                decoded(rest)
            }
        },
    }
}

/// The text that bits stand for, or the first fault; `pos` is the position of
/// the first bit in the stream.
pub open spec fn strictly_decoded(s: Seq<bool>, pos: int) -> Result<Seq<u8>, HuffmanFault>
    decreases s.len(),
{
    if s.len() == 0 {
        Ok(seq![])
    } else {
        match first_match(s, 0) {
            None => Err(HuffmanFault::NoCode { position: pos as usize }),
            Some(k) => {
                let n = code_len(k) as int;
                let rest = s.skip(n);
                if rest.len() >= s.len() {
                    Ok(seq![])
                } else if symbol(k) != ESCAPE {
                    prepended(symbol(k), strictly_decoded(rest, pos + n))
                } else if rest.len() >= 8 {
                    prepended(
                        crate::bits::value(rest.take(8)) as u8,
                        strictly_decoded(rest.skip(8), pos + n + 8),
                    )
                } else {
                    Err(HuffmanFault::TruncatedEscape)
                }
            },
        }
    }
}

/// A byte before a decoded text; a fault stays a fault.
pub open spec fn prepended(b: u8, r: Result<Seq<u8>, HuffmanFault>) -> Result<
    Seq<u8>,
    HuffmanFault,
> {
    match r {
        Ok(t) => Ok(seq![b] + t),
        Err(e) => Err(e),
    }
}

/// The code bits of a compressed text: without the announced fill, where
/// there are as many bits.
pub open spec fn stream_bits(data: Seq<u8>) -> Seq<bool> {
    let all = crate::bits::unpacked(data.skip(1));
    if data[0] <= all.len() {
        all.take(all.len() - data[0])
    } else {
        all
    }
}

/// What a compressed text stands for when faults are reported.
pub open spec fn strict_result(data: Seq<u8>) -> Result<Seq<u8>, HuffmanFault> {
    if data.len() == 0 {
        Ok(seq![])
    } else if data[0] > 7 {
        Err(HuffmanFault::InvalidPadding { count: data[0] })
    } else {
        strictly_decoded(stream_bits(data), 0)
    }
}

/// A fault in words.
pub open spec fn fault_text(f: HuffmanFault) -> Seq<char> {
    match f {
        HuffmanFault::InvalidPadding { count } => "Invalid padding count: "@
            + crate::text::decimal(count as nat),
        HuffmanFault::TruncatedEscape => "Truncated escape sequence"@,
        HuffmanFault::NoCode { position } => "Corrupt bitstream: no valid code at bit position "@
            + crate::text::decimal(position as nat),
    }
}

/// Where the codes of the table lie: entry 0 has two bits; the entries from
/// `2^j` to `2^(j+1) - 1` have `j + 3` bits, of which the first three are the
/// number `j + 2`.
spec fn shape(k: int) -> bool {
    &&& code_len(k) == (if k == 0 {
        2int
    } else if k < 2 {
        3
    } else if k < 4 {
        4
    } else if k < 8 {
        5
    } else if k < 16 {
        6
    } else if k < 32 {
        7
    } else {
        8
    })
    &&& code(k) == (if k == 0 {
        0int
    } else if k < 2 {
        k + 1
    } else if k < 4 {
        k + 4
    } else if k < 8 {
        k + 12
    } else if k < 16 {
        k + 32
    } else if k < 32 {
        k + 80
    } else {
        k + 192
    })
    &&& (symbol(k) == ESCAPE <==> k == 63)
}

proof fn lemma_shape(k: int)
    requires
        0 <= k < 64,
    ensures
        shape(k),
{
    assert forall|j: int| 0 <= j < 64 implies shape(j) by {
        assert(shape(0));
        assert(shape(1));
        assert(shape(2));
        assert(shape(3));
        assert(shape(4));
        assert(shape(5));
        assert(shape(6));
        assert(shape(7));
        assert(shape(8));
        assert(shape(9));
        assert(shape(10));
        assert(shape(11));
        assert(shape(12));
        assert(shape(13));
        assert(shape(14));
        assert(shape(15));
        assert(shape(16));
        assert(shape(17));
        assert(shape(18));
        assert(shape(19));
        assert(shape(20));
        assert(shape(21));
        assert(shape(22));
        assert(shape(23));
        assert(shape(24));
        assert(shape(25));
        assert(shape(26));
        assert(shape(27));
        assert(shape(28));
        assert(shape(29));
        assert(shape(30));
        assert(shape(31));
        assert(shape(32));
        assert(shape(33));
        assert(shape(34));
        assert(shape(35));
        assert(shape(36));
        assert(shape(37));
        assert(shape(38));
        assert(shape(39));
        assert(shape(40));
        assert(shape(41));
        assert(shape(42));
        assert(shape(43));
        assert(shape(44));
        assert(shape(45));
        assert(shape(46));
        assert(shape(47));
        assert(shape(48));
        assert(shape(49));
        assert(shape(50));
        assert(shape(51));
        assert(shape(52));
        assert(shape(53));
        assert(shape(54));
        assert(shape(55));
        assert(shape(56));
        assert(shape(57));
        assert(shape(58));
        assert(shape(59));
        assert(shape(60));
        assert(shape(61));
        assert(shape(62));
        assert(shape(63));
    }
}

proof fn lemma_code_fits(k: int)
    requires
        0 <= k < 64,
    ensures
        code(k) < pow2(code_len(k) as nat),
        2 <= code_len(k) <= 8,
        code_bits(k).len() == code_len(k),
        crate::bits::value(code_bits(k)) == code(k),
{
    lemma_shape(k);
    vstd::arithmetic::power2::lemma2_to64();
    crate::bits::lemma_bits_of_len(code(k) as nat, code_len(k) as nat);
    crate::bits::lemma_value_of_bits(code(k) as nat, code_len(k) as nat);
}

proof fn lemma_starts_with_code(s: Seq<bool>, k: int)
    requires
        0 <= k < 64,
        code_len(k) <= s.len(),
    ensures
        starts_with_code(s, k) <==> crate::bits::value(s.take(code_len(k) as int)) == code(k),
{
    lemma_code_fits(k);
    crate::bits::lemma_bits_of_value(s.take(code_len(k) as int));
}

/// The first three bits of anything that starts with a code of at least three
/// bits.
proof fn lemma_leading_three(s: Seq<bool>, k: int)
    requires
        0 < k < 64,
        starts_with_code(s, k),
    ensures
        s.len() >= 3,
        crate::bits::value(s.take(3)) == code_len(k) - 1,
{
    lemma_shape(k);
    lemma_code_fits(k);
    vstd::arithmetic::power2::lemma2_to64();
    let head = s.take(code_len(k) as int);
    crate::bits::lemma_value_prefix(head, 3);
    assert(head.take(3) =~= s.take(3));
    let c = code(k) as nat;
    let d = (code_len(k) - 3) as nat;
    if d == 0 {
        assert(c / pow2(d) == c / 1);
    } else if d == 1 {
        assert(c / pow2(d) == c / 2);
    } else if d == 2 {
        assert(c / pow2(d) == c / 4);
    } else if d == 3 {
        assert(c / pow2(d) == c / 8);
    } else if d == 4 {
        assert(c / pow2(d) == c / 16);
    } else {
        assert(c / pow2(d) == c / 32);
    }
}

proof fn lemma_leading_two(s: Seq<bool>)
    requires
        s.len() >= 3,
        starts_with_code(s, 0),
    ensures
        crate::bits::value(s.take(3)) < 2,
{
    lemma_shape(0);
    lemma_code_fits(0);
    vstd::arithmetic::power2::lemma2_to64();
    crate::bits::lemma_value_prefix(s.take(3), 2);
    assert(s.take(3).take(2) =~= s.take(2));
}

/// No code is the beginning of another: bits start with at most one code.
pub proof fn law_prefix_free(s: Seq<bool>, k1: int, k2: int)
    requires
        0 <= k1 < 64,
        0 <= k2 < 64,
        starts_with_code(s, k1),
        starts_with_code(s, k2),
    ensures
        k1 == k2,
{
    lemma_shape(k1);
    lemma_shape(k2);
    if k1 > 0 {
        lemma_leading_three(s, k1);
    }
    if k2 > 0 {
        lemma_leading_three(s, k2);
    }
    if k1 == 0 && k2 != 0 || k1 != 0 && k2 == 0 {
        lemma_leading_two(s);
    }
    lemma_starts_with_code(s, k1);
    lemma_starts_with_code(s, k2);
}

proof fn lemma_first_match(s: Seq<bool>, k: int)
    requires
        0 <= k,
    ensures
        match first_match(s, k) {
            Some(j) => k <= j < 64 && starts_with_code(s, j),
            None => forall|j: int| k <= j < 64 ==> !starts_with_code(s, j),
        },
    decreases 64 - k,
{
    if k < 64 && !starts_with_code(s, k) {
        lemma_first_match(s, k + 1);
    }
}

proof fn lemma_lookup(b: u8, n: int)
    requires
        0 <= n <= 64,
    ensures
        lookup(b, n).1 > 0 ==> exists|k: int|
            0 <= k < n && symbol(k) == b && lookup(b, n) == (code(k), code_len(k)),
        lookup(b, n).1 == 0 ==> lookup(b, n).0 == 0 && forall|k: int| 0 <= k < n ==> symbol(k) != b,
    decreases n,
{
    if n > 0 {
        lemma_shape(n - 1);
        lemma_lookup(b, n - 1);
        if symbol(n - 1) == b {
            assert(lookup(b, n) == (code(n - 1), code_len(n - 1)));
        } else if lookup(b, n - 1).1 > 0 {
            let k = choose|k: int|
                0 <= k < n - 1 && symbol(k) == b && lookup(b, n - 1) == (code(k), code_len(k));
            assert(symbol(k) == b && lookup(b, n) == (code(k), code_len(k)));
        }
    }
}

proof fn lemma_escape_code()
    ensures
        lookup(ESCAPE, 64) == (code(63), code_len(63)),
        code_len(63) == 8,
        symbol(63) == ESCAPE,
{
    lemma_shape(63);
}

/// Reading off the code of one byte.
proof fn lemma_decode_one(b: u8, t: Seq<bool>, pos: int)
    ensures
        decoded(byte_code(b) + t) == seq![b] + decoded(t),
        strictly_decoded(byte_code(b) + t, pos) == prepended(
            b,
            strictly_decoded(t, pos + byte_code(b).len()),
        ),
        byte_code(b).len() > 0,
{
    let s = byte_code(b) + t;
    lemma_lookup(b, 64);
    lemma_escape_code();
    let plain = lookup(b, 64).1 > 0 && b != ESCAPE;
    let k: int = if plain {
        choose|k: int| 0 <= k < 64 && symbol(k) == b && lookup(b, 64) == (code(k), code_len(k))
    } else {
        63
    };
    lemma_code_fits(k);
    lemma_shape(k);
    assert(s.take(code_len(k) as int) =~= code_bits(k));
    assert(starts_with_code(s, k));
    lemma_first_match(s, 0);
    law_prefix_free(s, k, first_match(s, 0).unwrap());
    let rest = s.skip(code_len(k) as int);
    if plain {
        assert(rest =~= t);
    } else {
        crate::bits::lemma_byte_value(b);
        assert(rest =~= crate::bits::bits_of(b as nat, 8) + t);
        assert(rest.take(8) =~= crate::bits::bits_of(b as nat, 8));
        assert(rest.skip(8) =~= t);
    }
}

proof fn lemma_decode_text(data: Seq<u8>, pos: int)
    ensures
        decoded(text_code(data)) == data,
        strictly_decoded(text_code(data), pos) == Ok::<Seq<u8>, HuffmanFault>(data),
    decreases data.len(),
{
    if data.len() == 0 {
        lemma_first_match(seq![], 0);
        if first_match(seq![], 0) is Some {
            lemma_code_fits(first_match(seq![], 0).unwrap());
        }
        assert(data =~= seq![]);
    } else {
        let b = data[0];
        lemma_decode_one(b, text_code(data.skip(1)), pos);
        lemma_decode_text(data.skip(1), pos + byte_code(b).len());
        assert(seq![b] + data.skip(1) =~= data);
    }
}

/// Every byte string survives: decoding what was encoded gives it back, and
/// the strict decoder finds no fault in it.
pub proof fn law_roundtrip(data: Seq<u8>)
    ensures
        decoded(stream_bits(encoded(data))) == data,
        strict_result(encoded(data)) == Ok::<Seq<u8>, HuffmanFault>(data),
{
    let bits = text_code(data);
    let e = encoded(data);
    crate::bits::lemma_unpack_pack(bits);
    assert(e.skip(1) =~= crate::bits::packed(bits));
    assert(stream_bits(e) =~= bits);
    lemma_decode_text(data, 0);
}

/// Where the strict decoder finds no fault, the lenient one gives the same
/// text.
pub proof fn law_decoders_agree(s: Seq<bool>, pos: int)
    requires
        strictly_decoded(s, pos) is Ok,
    ensures
        decoded(s) == strictly_decoded(s, pos).unwrap(),
    decreases s.len(),
{
    lemma_first_match(s, 0);
    if s.len() == 0 {
        if first_match(s, 0) is Some {
            lemma_code_fits(first_match(s, 0).unwrap());
        }
    } else {
        let k = first_match(s, 0).unwrap();
        lemma_code_fits(k);
        let n = code_len(k) as int;
        let rest = s.skip(n);
        if symbol(k) != ESCAPE {
            law_decoders_agree(rest, pos + n);
        } else {
            law_decoders_agree(rest.skip(8), pos + n + 8);
        }
    }
}

/// The table entry at a place of the table.
pub fn table_entry(k: usize) -> (e: HuffmanEntry)
    requires
        k < 64,
    ensures
        e.symbol == symbol(k as int),
        e.code == code(k as int),
        e.bits == code_len(k as int),
{
    let t = HAM_RADIO_TABLE[k];
    HuffmanEntry { symbol: t.0, code: t.1, bits: t.2 }
}

/// A fault in words, as owned text.
fn describe(f: HuffmanFault) -> (s: String)
    ensures
        s@ == fault_text(f),
{
    match f {
        HuffmanFault::InvalidPadding { count } => {
            let mut s = String::from_str("Invalid padding count: ");
            crate::text::push_decimal(&mut s, count as u64);
            s
        },
        HuffmanFault::TruncatedEscape => String::from_str("Truncated escape sequence"),
        HuffmanFault::NoCode { position } => {
            let mut s = String::from_str("Corrupt bitstream: no valid code at bit position ");
            crate::text::push_decimal(&mut s, position as u64);
            s
        },
    }
}

/// The table entry whose code starts at `pos`.
fn match_code(bits: &Vec<bool>, pos: usize) -> (r: Option<usize>)
    requires
        pos <= bits.len(),
    ensures
        match r {
            Some(k) => first_match(bits@.skip(pos as int), 0) == Some(k as int),
            None => first_match(bits@.skip(pos as int), 0) is None,
        },
        r matches Some(k) ==> k < 64 && pos + code_len(k as int) <= bits.len() && code_len(k as int)
            >= 2,
{
    let ghost s = bits@.skip(pos as int);
    let mut k: usize = 0;
    while k < 64
        invariant
            k <= 64,
            pos <= bits.len(),
            s == bits@.skip(pos as int),
            first_match(s, 0) == first_match(s, k as int),
        decreases 64 - k,
    {
        let entry = table_entry(k);
        let n: usize = entry.bits as usize;
        proof {
            lemma_code_fits(k as int);
        }
        if n <= bits.len() - pos {
            let v = crate::bits::read_bits(bits, pos, n);
            proof {
                assert(s.take(n as int) =~= bits@.subrange(pos as int, pos + n));
                lemma_starts_with_code(s, k as int);
            }
            if v == entry.code {
                return Some(k);
            }
        }
        k += 1;
    }
    None
}

/// The code bits of a compressed text.
fn read_stream(data: &[u8]) -> (bits: Vec<bool>)
    requires
        data@.len() > 0,
    ensures
        bits@ == stream_bits(data@),
{
    let body = vstd::slice::slice_subrange(data, 1, data.len());
    assert(body@ =~= data@.skip(1));
    let mut bits = crate::bits::unpack(body);
    let fill: usize = data[0] as usize;
    if fill <= bits.len() {
        let keep: usize = bits.len() - fill;
        bits.truncate(keep);
    }
    bits
}

/// Fixed Huffman codec for ham radio text.
pub struct HuffmanCodec {
    encode_table: [(u32, u8); 256],
}

impl HuffmanCodec {
    /// The lookup array holds the code of every byte.
    #[verifier::type_invariant]
    spec fn wf(self) -> bool {
        forall|b: u8| self.encode_table@[b as int] == #[trigger] lookup(b, 64)
    }

    /// The code and code length that the codec uses for each byte.
    pub closed spec fn codes(&self) -> Seq<(u32, u8)> {
        self.encode_table@
    }

    /// Create a codec from the ham radio table.
    pub fn new() -> (c: Self)
        ensures
            forall|b: u8| c.codes()[b as int] == #[trigger] lookup(b, 64),
    {
        let mut encode_table: [(u32, u8); 256] = [(0u32, 0u8); 256];
        let mut i: usize = 0;
        while i < 64
            invariant
                i <= 64,
                forall|b: u8| encode_table@[b as int] == #[trigger] lookup(b, i as int),
            decreases 64 - i,
        {
            let entry = table_entry(i);
            let ghost before = encode_table@;
            encode_table[entry.symbol as usize] = (entry.code, entry.bits);
            i += 1;
            assert forall|b: u8| encode_table@[b as int] == #[trigger] lookup(b, i as int) by {
                assert(before[b as int] == lookup(b, i - 1));
            }
        }
        HuffmanCodec { encode_table }
    }

    /// Encode text to compressed bytes.
    ///
    /// The first byte is the number of fill bits at the end. Bytes without a
    /// code, and the escape symbol itself, are escaped.
    pub fn encode(&self, data: &[u8]) -> (out: Vec<u8>)
        ensures
            out@ == encoded(data@),
    {
        proof {
            use_type_invariant(self);
        }
        let mut bits: Vec<bool> = Vec::new();
        let (esc_code, esc_bits) = self.encode_table[ESCAPE as usize];
        assert(lookup(ESCAPE, 64) == (esc_code, esc_bits));
        let mut i: usize = 0;
        assert(data@.skip(0) =~= data@);
        assert(bits@ + text_code(data@) =~= text_code(data@));
        while i < data.len()
            invariant
                i <= data.len(),
                forall|b: u8| self.encode_table@[b as int] == #[trigger] lookup(b, 64),
                lookup(ESCAPE, 64) == (esc_code, esc_bits),
                bits@ + text_code(data@.skip(i as int)) == text_code(data@),
            decreases data.len() - i,
        {
            let byte: u8 = data[i];
            let (code, nbits) = self.encode_table[byte as usize];
            assert(lookup(byte, 64) == (code, nbits));
            let ghost before = bits@;
            if nbits > 0 && byte != ESCAPE {
                crate::bits::push_bits(&mut bits, code, nbits);
            } else {
                crate::bits::push_bits(&mut bits, esc_code, esc_bits);
                crate::bits::push_bits(&mut bits, byte as u32, 8);
            }
            proof {
                assert(bits@ =~= before + byte_code(byte));
                assert(data@.skip(i as int).skip(1) =~= data@.skip(i + 1));
                assert(bits@ + text_code(data@.skip(i + 1)) =~= before + (byte_code(byte)
                    + text_code(data@.skip(i + 1))));
            }
            i += 1;
        }
        proof {
            assert(data@.skip(i as int) =~= seq![]);
            assert(bits@ =~= text_code(data@));
        }
        let fill: usize = (8 - bits.len() % 8) % 8;
        let mut out: Vec<u8> = Vec::new();
        out.push(fill as u8);
        let mut body = crate::bits::pack(&bits);
        out.append(&mut body);
        assert(out@ =~= encoded(data@));
        out
    }

    /// Decode compressed bytes back to text, as far as they make sense.
    ///
    /// An empty input gives an empty text. Decoding stops without an error
    /// where the remaining bits form no code.
    pub fn decode(&self, data: &[u8]) -> (out: Vec<u8>)
        ensures
            out@ == (if data@.len() == 0 {
                seq![]
            } else {
                decoded(stream_bits(data@))
            }),
    {
        let mut out: Vec<u8> = Vec::new();
        if data.len() == 0 {
            return out;
        }
        let bits = read_stream(data);
        let mut pos: usize = 0;
        assert(bits@.skip(0) =~= bits@);
        assert(out@ + decoded(bits@) =~= decoded(bits@));
        proof {
            if bits@.len() == 0 {
                lemma_decode_nothing(bits@);
            }
        }
        while pos < bits.len()
            invariant_except_break
                pos <= bits.len(),
                pos == bits.len() ==> out@ == decoded(bits@),
                out@ + decoded(bits@.skip(pos as int)) == decoded(bits@),
            ensures
                out@ == decoded(bits@),
            decreases bits.len() - pos,
        {
            let ghost s = bits@.skip(pos as int);
            let ghost before = out@;
            match match_code(&bits, pos) {
                None => {
                    assert(out@ =~= decoded(bits@));
                    break ;
                },
                Some(k) => {
                    let entry = table_entry(k);
                    pos += entry.bits as usize;
                    let ghost rest = bits@.skip(pos as int);
                    assert(s.skip(entry.bits as int) =~= rest);
                    if entry.symbol != ESCAPE {
                        out.push(entry.symbol);
                        assert(out@ + decoded(rest) =~= before + (seq![entry.symbol] + decoded(
                            rest,
                        )));
                    } else if bits.len() - pos >= 8 {
                        let byte = crate::bits::read_bits(&bits, pos, 8);
                        proof {
                            assert(rest.take(8) =~= bits@.subrange(pos as int, pos + 8));
                            crate::bits::lemma_value_byte(rest.take(8));
                            assert(rest.skip(8) =~= bits@.skip(pos + 8));
                        }
                        out.push(byte as u8);
                        pos += 8;
                        assert(out@ + decoded(bits@.skip(pos as int)) =~= before + (seq![
                            byte as u8,
                        ] + decoded(bits@.skip(pos as int))));
                    }
                },
            }
            proof {
                if pos == bits.len() {
                    lemma_decode_nothing(bits@.skip(pos as int));
                    assert(out@ =~= decoded(bits@));
                }
            }
        }
        out
    }

    /// Decode compressed bytes, reporting what makes no sense.
    ///
    /// Unlike [`HuffmanCodec::decode`], this returns an error where the
    /// remaining bits form no code, an escape lacks its byte, or the padding
    /// count is impossible.
    pub fn try_decode(&self, data: &[u8]) -> (r: Result<Vec<u8>, String>)
        ensures
            match strict_result(data@) {
                Ok(t) => r matches Ok(v) && v@ == t,
                Err(f) => r matches Err(e) && e@ == fault_text(f),
            },
    {
        let mut out: Vec<u8> = Vec::new();
        if data.len() == 0 {
            assert(out@ =~= seq![]);
            return Ok(out);
        }
        if data[0] > 7 {
            return Err(describe(HuffmanFault::InvalidPadding { count: data[0] }));
        }
        let bits = read_stream(data);
        let mut pos: usize = 0;
        let ghost goal = strictly_decoded(bits@, 0);
        assert(bits@.skip(0) =~= bits@);
        proof {
            if goal is Ok {
                assert(seq![] + goal.unwrap() =~= goal.unwrap());
            }
        }
        while pos < bits.len()
            invariant
                pos <= bits.len(),
                goal == strictly_decoded(bits@, 0),
                goal == strict_result(data@),
                goal == joined_result(out@, strictly_decoded(bits@.skip(pos as int), pos as int)),
            decreases bits.len() - pos,
        {
            let ghost s = bits@.skip(pos as int);
            let ghost before = out@;
            match match_code(&bits, pos) {
                None => {
                    return Err(describe(HuffmanFault::NoCode { position: pos }));
                },
                Some(k) => {
                    let entry = table_entry(k);
                    let ghost start = pos as int;
                    pos += entry.bits as usize;
                    let ghost rest = bits@.skip(pos as int);
                    assert(s.skip(entry.bits as int) =~= rest);
                    if entry.symbol != ESCAPE {
                        out.push(entry.symbol);
                        proof {
                            lemma_joined_result(
                                before,
                                entry.symbol,
                                strictly_decoded(rest, pos as int),
                            );
                        }
                    } else if bits.len() - pos >= 8 {
                        let byte = crate::bits::read_bits(&bits, pos, 8);
                        proof {
                            assert(rest.take(8) =~= bits@.subrange(pos as int, pos + 8));
                            crate::bits::lemma_value_byte(rest.take(8));
                            assert(rest.skip(8) =~= bits@.skip(pos + 8));
                        }
                        out.push(byte as u8);
                        pos += 8;
                        proof {
                            lemma_joined_result(
                                before,
                                byte as u8,
                                strictly_decoded(bits@.skip(pos as int), pos as int),
                            );
                        }
                    } else {
                        return Err(describe(HuffmanFault::TruncatedEscape));
                    }
                },
            }
        }
        assert(out@ + seq![] =~= out@);
        Ok(out)
    }
}

/// What was decoded so far, followed by the outcome of the rest.
spec fn joined_result(front: Seq<u8>, r: Result<Seq<u8>, HuffmanFault>) -> Result<
    Seq<u8>,
    HuffmanFault,
> {
    match r {
        Ok(t) => Ok(front + t),
        Err(e) => Err(e),
    }
}

proof fn lemma_joined_result(front: Seq<u8>, b: u8, r: Result<Seq<u8>, HuffmanFault>)
    ensures
        joined_result(front, prepended(b, r)) == joined_result(front.push(b), r),
{
    if r is Ok {
        assert(front + (seq![b] + r.unwrap()) =~= front.push(b) + r.unwrap());
    }
}

proof fn lemma_decode_nothing(s: Seq<bool>)
    requires
        s.len() == 0,
    ensures
        decoded(s) == Seq::<u8>::empty(),
{
    lemma_first_match(s, 0);
    if first_match(s, 0) is Some {
        lemma_code_fits(first_match(s, 0).unwrap());
    }
}

impl Default for HuffmanCodec {
    fn default() -> (c: Self)
        ensures
            forall|b: u8| c.codes()[b as int] == #[trigger] lookup(b, 64),
    {
        Self::new()
    }
}

/// The table: which byte each entry stands for, and its code. Entry 0 has the
/// two bits 00; the entries from `2^j` to `2^(j+1) - 1` have `j + 3` bits and
/// are numbered in order behind the three bits of the number `j + 2`.
pub proof fn law_code_table(k: int)
    requires
        0 <= k < 64,
    ensures
        code_len(k) == (if k == 0 {
            2int
        } else if k < 2 {
            3
        } else if k < 4 {
            4
        } else if k < 8 {
            5
        } else if k < 16 {
            6
        } else if k < 32 {
            7
        } else {
            8
        }),
        code(k) == (if k == 0 {
            0int
        } else if k < 2 {
            2 + (k - 1)
        } else if k < 4 {
            6 + (k - 2)
        } else if k < 8 {
            16 + (k - 4)
        } else if k < 16 {
            40 + (k - 8)
        } else if k < 32 {
            96 + (k - 16)
        } else {
            224 + (k - 32)
        }),
        symbol(k) as char == " ETAOINSRHLDCUMWFGYPBVKJXQZ0123456789.,?/-:\n\r!@#$()+=aeiontsr_*~"@[k],
{
    lemma_shape(k);
    reveal_strlit(" ETAOINSRHLDCUMWFGYPBVKJXQZ0123456789.,?/-:\n\r!@#$()+=aeiontsr_*~");
}

/// The bits of a byte: a table entry's code where the byte is that entry's and
/// no `~`; else eight ones and the byte itself.
pub proof fn law_byte_code(b: u8)
    ensures
        b != 0x7E && (exists|k: int| 0 <= k < 64 && #[trigger] symbol(k) == b) ==> exists|k: int|
            0 <= k < 64 && #[trigger] symbol(k) == b && byte_code(b) == code_bits(k),
        b == 0x7E || (forall|k: int| 0 <= k < 64 ==> #[trigger] symbol(k) != b) ==> byte_code(b)
            == seq![true, true, true, true, true, true, true, true] + crate::bits::bits_of(
            b as nat,
            8,
        ),
{
    lemma_lookup(b, 64);
    lemma_escape_code();
    lemma_shape(63);
    assert(code_bits(63) =~= seq![true, true, true, true, true, true, true, true]) by {
        reveal_with_fuel(crate::bits::bits_of, 9);
    }
    if b != 0x7E && (exists|k: int| 0 <= k < 64 && #[trigger] symbol(k) == b) {
        let k = choose|k: int|
            0 <= k < 64 && symbol(k) == b && lookup(b, 64) == (code(k), code_len(k));
        assert(symbol(k) == b && byte_code(b) == code_bits(k));
    }
}

/// A text is coded byte by byte.
pub proof fn law_text_code(data: Seq<u8>)
    ensures
        text_code(data) == data.map_values(|b: u8| byte_code(b)).flatten(),
    decreases data.len(),
{
    let parts = data.map_values(|b: u8| byte_code(b));
    if data.len() > 0 {
        law_text_code(data.skip(1));
        assert(parts.drop_first() =~= data.skip(1).map_values(|b: u8| byte_code(b)));
    }
}

/// The compressed form is the number of zeros that fill the last byte, fewer
/// than eight, and the bits of the text, the first of each byte at the top,
/// followed by those zeros.
pub proof fn law_compressed_form(data: Seq<u8>, i: int)
    ensures
        ({
            let bits = text_code(data);
            let e = encoded(data);
            let body = crate::bits::unpacked(e.skip(1));
            &&& e.len() > 0
            &&& e[0] < 8
            &&& body.len() == 8 * (e.len() - 1)
            &&& body.len() == bits.len() + e[0]
            &&& 0 <= i < bits.len() ==> body[i] == bits[i]
            &&& bits.len() <= i < body.len() ==> !body[i]
        }),
{
    let bits = text_code(data);
    let e = encoded(data);
    assert(e.skip(1) =~= crate::bits::packed(bits));
    crate::bits::law_unpack_pack(bits);
    crate::bits::lemma_unpack_pack(bits);
    crate::bits::lemma_unpacked_len(e.skip(1));
}

/// How bits are read: each code as its byte, eight ones and eight bits as the
/// byte of those; eight ones with fewer bits behind them say nothing, and
/// reading ends where no code starts.
pub proof fn law_bits_are_read(k: int, b: u8, t: Seq<bool>)
    requires
        0 <= k < 64,
    ensures
        k < 63 ==> decoded(code_bits(k) + t) == seq![symbol(k)] + decoded(t),
        decoded(code_bits(63) + crate::bits::bits_of(b as nat, 8) + t) == seq![b] + decoded(t),
        t.len() < 8 ==> decoded(code_bits(63) + t) == decoded(t),
        (forall|j: int| 0 <= j < 64 ==> !#[trigger] starts_with_code(t, j)) ==> decoded(t)
            == Seq::<u8>::empty(),
{
    lemma_code_is_found(k, t);
    lemma_shape(k);
    assert((code_bits(k) + t).skip(code_len(k) as int) =~= t) by {
        lemma_code_fits(k);
    }
    let byte = crate::bits::bits_of(b as nat, 8);
    crate::bits::lemma_byte_value(b);
    lemma_code_is_found(63, t);
    lemma_code_is_found(63, byte + t);
    lemma_shape(63);
    lemma_code_fits(63);
    assert((code_bits(63) + t).skip(8) =~= t);
    let s = code_bits(63) + byte + t;
    assert(s =~= code_bits(63) + (byte + t));
    assert(s.skip(8) =~= byte + t);
    assert((byte + t).take(8) =~= byte);
    assert((byte + t).skip(8) =~= t);
    lemma_code_fits(k);
    lemma_first_match(t, 0);
}

/// Bits that start with the code of an entry match that entry.
proof fn lemma_code_is_found(k: int, t: Seq<bool>)
    requires
        0 <= k < 64,
    ensures
        first_match(code_bits(k) + t, 0) == Some(k),
{
    let s = code_bits(k) + t;
    lemma_code_fits(k);
    assert(s.take(code_len(k) as int) =~= code_bits(k));
    assert(starts_with_code(s, k));
    lemma_first_match(s, 0);
    law_prefix_free(s, k, first_match(s, 0).unwrap());
}

/// How bits are read when faults are reported: codes and escaped bytes as
/// without; eight ones with fewer than eight bits behind them, and bits with
/// which no code starts, are faults, the second with the place of the first of
/// those bits.
pub proof fn law_bits_are_read_strictly(k: int, b: u8, t: Seq<bool>, pos: int)
    requires
        0 <= k < 64,
    ensures
        strictly_decoded(seq![], pos) == Ok::<Seq<u8>, HuffmanFault>(seq![]),
        k < 63 ==> (match strictly_decoded(t, pos + code_len(k)) {
            Ok(text) => strictly_decoded(code_bits(k) + t, pos) == Ok::<Seq<u8>, HuffmanFault>(
                seq![symbol(k)] + text,
            ),
            Err(f) => strictly_decoded(code_bits(k) + t, pos) == Err::<Seq<u8>, HuffmanFault>(f),
        }),
        (match strictly_decoded(t, pos + 16) {
            Ok(text) => strictly_decoded(
                code_bits(63) + crate::bits::bits_of(b as nat, 8) + t,
                pos,
            ) == Ok::<Seq<u8>, HuffmanFault>(seq![b] + text),
            Err(f) => strictly_decoded(
                code_bits(63) + crate::bits::bits_of(b as nat, 8) + t,
                pos,
            ) == Err::<Seq<u8>, HuffmanFault>(f),
        }),
        t.len() < 8 ==> strictly_decoded(code_bits(63) + t, pos) == Err::<Seq<u8>, HuffmanFault>(
            HuffmanFault::TruncatedEscape,
        ),
        t.len() > 0 && (forall|j: int| 0 <= j < 64 ==> !#[trigger] starts_with_code(t, j))
            ==> strictly_decoded(t, pos) == Err::<Seq<u8>, HuffmanFault>(
            HuffmanFault::NoCode { position: pos as usize },
        ),
{
    lemma_code_is_found(k, t);
    lemma_shape(k);
    lemma_code_fits(k);
    assert((code_bits(k) + t).skip(code_len(k) as int) =~= t);
    let byte = crate::bits::bits_of(b as nat, 8);
    crate::bits::lemma_byte_value(b);
    lemma_code_is_found(63, t);
    lemma_code_is_found(63, byte + t);
    lemma_shape(63);
    lemma_code_fits(63);
    assert((code_bits(63) + t).skip(8) =~= t);
    let s = code_bits(63) + byte + t;
    assert(s =~= code_bits(63) + (byte + t));
    assert(s.skip(8) =~= byte + t);
    assert((byte + t).take(8) =~= byte);
    assert((byte + t).skip(8) =~= t);
    lemma_first_match(t, 0);
}

/// Which bits of a compressed text are read: all behind the first byte but as
/// many at the end as that byte says, or all where it says more than there are.
/// A first byte over 7 is a fault when faults are reported, and nothing at all
/// is an empty text.
pub proof fn law_stream(data: Seq<u8>)
    ensures
        data.len() == 0 ==> strict_result(data) == Ok::<Seq<u8>, HuffmanFault>(seq![]),
        data.len() > 0 && data[0] > 7 ==> strict_result(data) == Err::<Seq<u8>, HuffmanFault>(
            HuffmanFault::InvalidPadding { count: data[0] },
        ),
        data.len() > 0 && data[0] <= 7 ==> strict_result(data) == strictly_decoded(
            stream_bits(data),
            0,
        ),
        data.len() > 0 && data[0] <= 8 * (data.len() - 1) ==> stream_bits(data)
            == crate::bits::unpacked(data.skip(1)).take(8 * (data.len() - 1) - data[0]),
        data.len() > 0 && data[0] > 8 * (data.len() - 1) ==> stream_bits(data)
            == crate::bits::unpacked(data.skip(1)),
{
    if data.len() > 0 {
        crate::bits::lemma_unpacked_len(data.skip(1));
    }
}

} // verus!
