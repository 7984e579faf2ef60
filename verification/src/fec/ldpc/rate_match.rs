//! Circular-buffer rate matching for the NR BG2 mother code.
//!
//! The buffer of a speed level is the part of the mother codeword that the
//! level can send: the first `k_used - 352` information bits, and all parity
//! bits. `e` bits are read from it, around and around, from an offset that the
//! redundancy version gives.
use super::nr_bg2::{KB, PUNCTURED_INFO_COLS, ZC};
use vstd::prelude::*;

verus! {

/// Length of the information part of the mother codeword.
pub const INFO_NONPUNCTURED_LEN: usize = 1408;

/// Length of the information prefix that is never sent.
pub const PUNCTURED_LEN: usize = 352;

/// Whether a level's width and a mother codeword's length fit the code.
pub open spec fn fits(k_used: int, mother_len: int) -> bool {
    &&& PUNCTURED_INFO_COLS * ZC <= k_used <= KB * ZC
    &&& (KB - PUNCTURED_INFO_COLS) * ZC <= mother_len
}

/// Length of the buffer.
pub open spec fn buffer_len(k_used: int, mother_len: int) -> int {
    k_used - PUNCTURED_LEN + mother_len - INFO_NONPUNCTURED_LEN
}

/// The buffer of a mother codeword.
pub open spec fn buffer<T>(mother: Seq<T>, k_used: int) -> Seq<T> {
    mother.take(k_used - PUNCTURED_LEN) + mother.skip(INFO_NONPUNCTURED_LEN as int)
}

/// `rv` quarters of the buffer.
pub open spec fn quarters(buf_len: int, rv: int) -> int {
    if rv == 0 {
        0
    } else if rv == 1 {
        buf_len / 4
    } else if rv == 2 {
        buf_len / 2
    } else {
        3 * buf_len / 4
    }
}

/// Where reading starts: `rv` quarters into the buffer, rounded down to a
/// lifted block.
pub open spec fn start(buf_len: int, rv: int) -> int {
    quarters(buf_len, rv) / ZC as int * ZC
}

/// Place in the buffer of the bit that is sent at place `i`.
pub open spec fn buffer_place(k_used: int, mother_len: int, rv: int, i: int) -> int {
    let n = buffer_len(k_used, mother_len);
    (start(n, rv) + i) % n
}

/// Place in the mother codeword of the bit that is sent at place `i`.
pub open spec fn mother_place(k_used: int, mother_len: int, rv: int, i: int) -> int {
    let p = buffer_place(k_used, mother_len, rv, i);
    if p < k_used - PUNCTURED_LEN {
        p
    } else {
        p - (k_used - PUNCTURED_LEN) + INFO_NONPUNCTURED_LEN
    }
}

/// The buffer of a mother codeword at a level's width.
pub fn matching_buffer<T: Copy>(mother: &[T], k_used: usize) -> (buf: Vec<T>)
    requires
        fits(k_used as int, mother@.len() as int),
    ensures
        buf@ == buffer(mother@, k_used as int),
{
    let info_len: usize = k_used - PUNCTURED_LEN;
    let mut buf: Vec<T> = vstd::slice::slice_to_vec(
        vstd::slice::slice_subrange(mother, 0, info_len),
    );
    let mut tail: Vec<T> = vstd::slice::slice_to_vec(
        vstd::slice::slice_subrange(mother, INFO_NONPUNCTURED_LEN, mother.len()),
    );
    buf.append(&mut tail);
    assert(buf@ =~= buffer(mother@, k_used as int));
    buf
}

/// Offset of a redundancy version into the buffer.
pub fn k0_offset(buf_len: usize, rv: u8) -> (k0: usize)
    requires
        rv <= 3,
    ensures
        k0 == start(buf_len as int, rv as int),
        k0 <= buf_len,
        buf_len > 0 ==> k0 < buf_len,
{
    let raw: usize = if rv == 0 {
        0
    } else if rv == 1 {
        buf_len / 4
    } else if rv == 2 {
        buf_len / 2
    } else {
        // Three quarters, without forming three times the length.
        buf_len / 4 * 3 + buf_len % 4 * 3 / 4
    };
    proof {
        let q = buf_len as int / 4;
        let r = buf_len as int % 4;
        assert(3 * buf_len / 4 == 3 * q + 3 * r / 4);
    }
    raw / ZC * ZC
}

/// `e` coded bits of a mother codeword at a level's width and a redundancy
/// version.
pub fn rate_match(mother: &[u8], k_used: usize, e: usize, rv: u8) -> (out: Vec<u8>)
    requires
        fits(k_used as int, mother@.len() as int),
        rv <= 3,
        e > 0 ==> buffer_len(k_used as int, mother@.len() as int) > 0,
    ensures
        out@ == Seq::new(
            e as nat,
            |i: int|
                buffer(mother@, k_used as int)[buffer_place(
                    k_used as int,
                    mother@.len() as int,
                    rv as int,
                    i,
                )],
        ),
{
    let buf: Vec<u8> = matching_buffer(mother, k_used);
    let buf_len: usize = buf.len();
    let k0: usize = k0_offset(buf_len, rv);
    let mut out: Vec<u8> = Vec::new();
    let mut pos: usize = k0;
    let mut i: usize = 0;
    proof {
        if e > 0 {
            vstd::arithmetic::div_mod::lemma_small_mod(k0 as nat, buf_len as nat);
        }
    }
    while i < e
        invariant
            i <= e,
            buf@ == buffer(mother@, k_used as int),
            buf_len == buf@.len(),
            buf_len == buffer_len(k_used as int, mother@.len() as int),
            e > 0 ==> pos < buf_len,
            e > 0 ==> pos == buffer_place(k_used as int, mother@.len() as int, rv as int, i as int),
            out@.len() == i,
            forall|q: int|
                0 <= q < i ==> #[trigger] out@[q] == buf@[buffer_place(
                    k_used as int,
                    mother@.len() as int,
                    rv as int,
                    q,
                )],
        decreases e - i,
    {
        out.push(buf[pos]);
        proof {
            lemma_next_place(start(buf_len as int, rv as int) + i, buf_len as int);
        }
        pos = pos + 1;
        if pos == buf_len {
            pos = 0;
        }
        i += 1;
    }
    assert(out@ =~= Seq::new(
        e as nat,
        |i: int|
            buffer(mother@, k_used as int)[buffer_place(
                k_used as int,
                mother@.len() as int,
                rv as int,
                i,
            )],
    ));
    out
}

/// The place after a place, around the buffer.
proof fn lemma_next_place(x: int, n: int)
    requires
        0 <= x,
        0 < n,
    ensures
        0 <= x % n < n,
        (x + 1) % n == (if x % n + 1 == n {
            0
        } else {
            x % n + 1
        }),
{
    vstd::arithmetic::div_mod::lemma_fundamental_div_mod(x, n);
    let q = x / n;
    let r = x % n;
    assert(0 <= r < n) by (nonlinear_arith)
        requires
            0 < n,
            r == x % n,
    ;
    if r + 1 == n {
        assert(x + 1 == (q + 1) * n + 0) by (nonlinear_arith)
            requires
                x == n * q + r,
                r + 1 == n,
        ;
        vstd::arithmetic::div_mod::lemma_fundamental_div_mod_converse(x + 1, n, q + 1, 0);
    } else {
        assert(x + 1 == q * n + (r + 1)) by (nonlinear_arith)
            requires
                x == n * q + r,
        ;
        vstd::arithmetic::div_mod::lemma_fundamental_div_mod_converse(x + 1, n, q, r + 1);
    }
}

/// For each of `e` received values the place of the mother codeword that it is
/// an observation of.
///
/// The values that fall on one place are to be added up; a place that none
/// falls on was not observed.
pub fn dematch_places(k_used: usize, e: usize, rv: u8, mother_len: usize) -> (places: Vec<usize>)
    requires
        fits(k_used as int, mother_len as int),
        rv <= 3,
        e > 0 ==> buffer_len(k_used as int, mother_len as int) > 0,
        buffer_len(k_used as int, mother_len as int) <= usize::MAX,
    ensures
        places@.len() == e,
        forall|i: int|
            0 <= i < e ==> #[trigger] places@[i] == mother_place(
                k_used as int,
                mother_len as int,
                rv as int,
                i,
            ) && places@[i] < mother_len,
{
    let info_len: usize = k_used - PUNCTURED_LEN;
    let buf_len: usize = info_len + (mother_len - INFO_NONPUNCTURED_LEN);
    let k0: usize = k0_offset(buf_len, rv);
    let mut places: Vec<usize> = Vec::new();
    let mut pos: usize = k0;
    let mut i: usize = 0;
    proof {
        if e > 0 {
            vstd::arithmetic::div_mod::lemma_small_mod(k0 as nat, buf_len as nat);
        }
    }
    while i < e
        invariant
            i <= e,
            fits(k_used as int, mother_len as int),
            info_len == k_used - PUNCTURED_LEN,
            buf_len == buffer_len(k_used as int, mother_len as int),
            e > 0 ==> pos < buf_len,
            e > 0 ==> pos == buffer_place(k_used as int, mother_len as int, rv as int, i as int),
            places@.len() == i,
            forall|q: int|
                0 <= q < i ==> #[trigger] places@[q] == mother_place(
                    k_used as int,
                    mother_len as int,
                    rv as int,
                    q,
                ) && places@[q] < mother_len,
        decreases e - i,
    {
        if pos < info_len {
            places.push(pos);
        } else {
            places.push(pos - info_len + INFO_NONPUNCTURED_LEN);
        }
        proof {
            lemma_next_place(start(buf_len as int, rv as int) + i, buf_len as int);
        }
        pos = pos + 1;
        if pos == buf_len {
            pos = 0;
        }
        i += 1;
    }
    places
}

/// Dematching undoes matching: what is sent at place `i` is the bit of the
/// mother codeword that the place is an observation of.
pub proof fn law_sent_bit_is_mother_bit(mother: Seq<u8>, k_used: int, rv: int, i: int)
    requires
        fits(k_used, mother.len() as int),
        0 <= rv <= 3,
        0 <= i,
        buffer_len(k_used, mother.len() as int) > 0,
    ensures
        0 <= mother_place(k_used, mother.len() as int, rv, i) < mother.len(),
        buffer(mother, k_used)[buffer_place(k_used, mother.len() as int, rv, i)]
            == mother[mother_place(k_used, mother.len() as int, rv, i)],
{
    let n = buffer_len(k_used, mother.len() as int);
    let p = buffer_place(k_used, mother.len() as int, rv, i);
    assert(0 <= p < n) by (nonlinear_arith)
        requires
            0 < n,
            p == (start(n, rv) + i) % n,
    ;
}

/// Version 0 starts at the front, and later versions start later, each on a
/// lifted block.
pub proof fn law_starts_are_ordered(buf_len: int, rv: int)
    requires
        0 <= buf_len,
        0 <= rv < 3,
    ensures
        start(buf_len, 0) == 0,
        start(buf_len, rv) <= start(buf_len, rv + 1) <= buf_len,
        start(buf_len, rv) % ZC as int == 0,
{
    let a = quarters(buf_len, rv);
    let b = quarters(buf_len, rv + 1);
    assert(a / ZC as int <= b / ZC as int);
}

/// A level never sends the bits from its width on: those places stay
/// unobserved.
pub proof fn law_shortened_bits_are_not_sent(k_used: int, mother_len: int, rv: int, i: int)
    requires
        fits(k_used, mother_len),
        0 <= rv <= 3,
        0 <= i,
        buffer_len(k_used, mother_len) > 0,
    ensures
        !(k_used - PUNCTURED_LEN <= mother_place(k_used, mother_len, rv, i)
            < INFO_NONPUNCTURED_LEN),
{
}

/// Which bit of the mother codeword is sent at place `i`: `rv` quarters into
/// the buffer of `k_used - 352` information bits and all bits from 1408 on,
/// rounded down to a multiple of 176, `i` places further, around the buffer.
pub proof fn law_sent_place(k_used: int, mother_len: int, rv: int, i: int, p: int)
    requires
        352 <= k_used <= 1760,
        1408 <= mother_len,
        k_used - 352 + mother_len - 1408 > 0,
        0 <= rv <= 3,
        0 <= i,
        0 <= p < mother_len,
    ensures
        fits(k_used, mother_len),
        (mother_place(k_used, mother_len, rv, i) == p) == ({
            let n = k_used - 352 + mother_len - 1408;
            let sent = if p < k_used - 352 {
                p
            } else {
                p - 1408 + (k_used - 352)
            };
            !(k_used - 352 <= p < 1408) && sent == (rv * n / 4 / 176 * 176 + i) % n
        }),
        buffer_len(k_used, mother_len) == k_used - 352 + mother_len - 1408,
{
    let n = k_used - 352 + mother_len - 1408;
    let at = (start(n, rv) + i) % n;
    assert(0 <= at < n) by (nonlinear_arith)
        requires
            0 < n,
            at == (start(n, rv) + i) % n,
    ;
    assert(rv * n == (if rv == 0 {
        0
    } else if rv == 1 {
        n
    } else if rv == 2 {
        2 * n
    } else {
        3 * n
    }));
    assert(quarters(n, rv) == rv * n / 4);
}

/// The buffer is the mother codeword without the information bits beyond the
/// level's width.
pub proof fn law_buffer<T>(mother: Seq<T>, k_used: int, p: int)
    requires
        352 <= k_used <= 1760,
        1408 <= mother.len(),
        0 <= p < k_used - 352 + mother.len() - 1408,
    ensures
        buffer(mother, k_used).len() == k_used - 352 + mother.len() - 1408,
        buffer(mother, k_used)[p] == mother[if p < k_used - 352 {
            p
        } else {
            p - (k_used - 352) + 1408
        }],
{
}

/// A redundancy version starts at the last multiple of 176 within its number of
/// quarters of the buffer.
pub proof fn law_start(buf_len: int, rv: int, k0: int)
    requires
        0 <= buf_len,
        0 <= rv <= 3,
        k0 % 176 == 0,
    ensures
        (start(buf_len, rv) == k0) == (k0 <= rv * buf_len / 4 < k0 + 176),
{
    assert(rv * buf_len == (if rv == 0 {
        0
    } else if rv == 1 {
        buf_len
    } else if rv == 2 {
        2 * buf_len
    } else {
        3 * buf_len
    }));
    assert(quarters(buf_len, rv) == rv * buf_len / 4);
}

} // verus!
