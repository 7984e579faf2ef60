//! LZ4 block compression with the size in front.
//!
//! A compressed text is the length of the text in four bytes, lowest first, and
//! an LZ4 block. Texts that claim more than 16 KiB are refused unread, and so
//! are inputs far longer than any such text needs.
use vstd::prelude::*;

verus! {

/// Largest length that a compressed text may claim.
pub const MAX_DECOMPRESS_SIZE: usize = 16_384;

/// Largest input that is read. Counts inside a block of this size stay below
/// 2^32. A block spends at most 20 bytes and a tenth of the text beyond the
/// text itself, so the longest text that is let through needs far less.
pub const MAX_INPUT_SIZE: usize = 0xFF_FFFF;

/// Why a compressed text is refused.
#[derive(Debug, Clone, Copy, PartialEq, Eq, Structural)]
pub enum Lz4Error {
    /// The text claims to be longer than allowed.
    ClaimTooLarge { claimed: u32 },
    /// The input is longer than what is read.
    InputTooLong { len: usize },
    /// The block holds more than the text claims.
    OutputTooSmall { expected: usize, actual: usize },
    /// A literal runs past the end.
    LiteralOutOfBounds,
    /// The text ends too early.
    ExpectedAnotherByte,
    /// A match points at itself.
    OffsetZero,
    /// A match points before the beginning.
    OffsetOutOfBounds,
    /// The block is faulty in another way.
    Other,
}

/// The length that a compressed text claims.
pub open spec fn claimed(bytes: Seq<u8>) -> int {
    bytes[0] + 256 * bytes[1] + 65_536 * bytes[2] + 16_777_216 * bytes[3]
}

/// The result of `lz4_flex::decompress_size_prepended` on some bytes.
pub uninterp spec fn block_text(bytes: Seq<u8>) -> Result<Seq<u8>, Lz4Error>;

/// Whether a result is a given text.
pub open spec fn gives(result: Result<Seq<u8>, Lz4Error>, text: Seq<u8>) -> bool {
    result matches Ok(t) && t == text
}

/// A result with its bytes as a sequence.
pub open spec fn outcome(r: Result<Vec<u8>, Lz4Error>) -> Result<Seq<u8>, Lz4Error> {
    match r {
        Ok(v) => Ok(v@),
        Err(e) => Err(e),
    }
}

/// Longest compressed form of a text.
pub open spec fn longest_form(len: int) -> int {
    4 + 20 + 110 * len / 100
}

/// Whether data of a length can be compressed on this machine.
pub open spec fn is_compressible(len: int) -> bool {
    len <= u32::MAX && 110 * len <= usize::MAX
}

/// Calls `lz4_flex::compress_prepend_size`. Which block comes out depends on the
/// machine. Claimed of every outcome: it starts with the length of the data,
/// `lz4_flex::decompress_size_prepended` gives the data back from it, and it is
/// no longer than the buffer that the crate takes for it, four bytes and
/// `lz4_flex::block::get_maximum_output_size`. The length has to fit the four
/// bytes in front, and that bound has to be computed without overflow.
#[verifier::external_body]
fn compress_block(data: &[u8]) -> (r: Vec<u8>)
    requires
        is_compressible(data@.len() as int),
    ensures
        r@.len() >= 4,
        claimed(r@) == data@.len(),
        gives(block_text(r@), data@),
        r@.len() <= longest_form(data@.len() as int),
{
    lz4_flex::compress_prepend_size(data)
}

/// Calls `lz4_flex::decompress_size_prepended`. The result is named
/// `block_text`; claimed besides: without four bytes of length a byte is
/// missed, and a text is no longer than it claims. Each error of the crate has
/// its own variant.
#[verifier::external_body]
fn decompress_block(data: &[u8]) -> (r: Result<Vec<u8>, Lz4Error>)
    requires
        data@.len() <= MAX_INPUT_SIZE,
        data@.len() >= 4 ==> claimed(data@) <= MAX_DECOMPRESS_SIZE,
    ensures
        outcome(r) == block_text(data@),
        match r {
            Ok(text) => data@.len() >= 4 && text@.len() <= claimed(data@),
            Err(e) => data@.len() < 4 ==> e == Lz4Error::ExpectedAnotherByte,
        },
{
    lz4_flex::decompress_size_prepended(data).map_err(|e| match e {
        lz4_flex::block::DecompressError::OutputTooSmall { expected, actual } =>
            Lz4Error::OutputTooSmall { expected, actual },
        lz4_flex::block::DecompressError::LiteralOutOfBounds => Lz4Error::LiteralOutOfBounds,
        lz4_flex::block::DecompressError::ExpectedAnotherByte => Lz4Error::ExpectedAnotherByte,
        lz4_flex::block::DecompressError::OffsetZero => Lz4Error::OffsetZero,
        lz4_flex::block::DecompressError::OffsetOutOfBounds => Lz4Error::OffsetOutOfBounds,
        _ => Lz4Error::Other,
    })
}

/// Whether some bytes are a compressed form of a text.
pub open spec fn is_compressed(text: Seq<u8>, bytes: Seq<u8>) -> bool {
    &&& 4 <= bytes.len() <= longest_form(text.len() as int)
    &&& claimed(bytes) == text.len()
    &&& gives(block_text(bytes), text)
}

/// What a compressed text holds, or why it is refused.
pub open spec fn decompressed(bytes: Seq<u8>) -> Result<Seq<u8>, Lz4Error> {
    if bytes.len() >= 4 && claimed(bytes) > MAX_DECOMPRESS_SIZE {
        Err(Lz4Error::ClaimTooLarge { claimed: claimed(bytes) as u32 })
    } else if bytes.len() > MAX_INPUT_SIZE {
        Err(Lz4Error::InputTooLong { len: bytes.len() as usize })
    } else {
        block_text(bytes)
    }
}

/// Compress data.
pub fn lz4_compress(data: &[u8]) -> (r: Vec<u8>)
    requires
        is_compressible(data@.len() as int),
    ensures
        is_compressed(data@, r@),
{
    compress_block(data)
}

/// The length that a compressed text claims, if it has the four bytes.
pub fn claimed_size(data: &[u8]) -> (n: Option<u32>)
    ensures
        match n {
            Some(n) => data@.len() >= 4 && n == claimed(data@),
            None => data@.len() < 4,
        },
{
    if data.len() < 4 {
        return None;
    }
    Some(
        data[0] as u32 + 256 * (data[1] as u32) + 65_536 * (data[2] as u32) + 16_777_216 * (
        data[3] as u32),
    )
}

/// Decompress data. A claim of more than 16 KiB is refused before anything is
/// read or allocated, and then an input that is too long.
pub fn lz4_decompress(data: &[u8]) -> (r: Result<Vec<u8>, Lz4Error>)
    ensures
        outcome(r) == decompressed(data@),
        r matches Ok(text) ==> text@.len() <= MAX_DECOMPRESS_SIZE,
        data@.len() < 4 ==> r == Err::<Vec<u8>, Lz4Error>(Lz4Error::ExpectedAnotherByte),
{
    if let Some(n) = claimed_size(data) {
        if n as usize > MAX_DECOMPRESS_SIZE {
            return Err(Lz4Error::ClaimTooLarge { claimed: n });
        }
    }
    if data.len() > MAX_INPUT_SIZE {
        return Err(Lz4Error::InputTooLong { len: data.len() });
    }
    decompress_block(data)
}

/// Decompressing what was compressed gives the data back, up to the largest
/// length that may be claimed.
pub proof fn law_roundtrip(text: Seq<u8>, bytes: Seq<u8>)
    requires
        is_compressed(text, bytes),
        text.len() <= MAX_DECOMPRESS_SIZE,
    ensures
        gives(decompressed(bytes), text),
{
}

/// A compressed text that claims too much is refused, whatever follows.
pub proof fn law_large_claims_are_refused(bytes: Seq<u8>)
    requires
        bytes.len() >= 4,
        claimed(bytes) > MAX_DECOMPRESS_SIZE,
    ensures
        decompressed(bytes) is Err,
{
}

/// What is refused before a block is read: a claim over 16384, in four bytes
/// with the lowest first, and then an input of 2^24 bytes or more.
pub proof fn law_refusals(bytes: Seq<u8>)
    ensures
        ({
            let n = bytes[0] + 256 * (bytes[1] + 256 * (bytes[2] + 256 * bytes[3]));
            &&& bytes.len() >= 4 && n > 16384 ==> decompressed(bytes) == Err::<
                Seq<u8>,
                Lz4Error,
            >(Lz4Error::ClaimTooLarge { claimed: n as u32 })
            &&& bytes.len() >= 0x100_0000 && n <= 16384 ==> decompressed(bytes) == Err::<
                Seq<u8>,
                Lz4Error,
            >(Lz4Error::InputTooLong { len: bytes.len() as usize })
            &&& bytes.len() < 4 || (n <= 16384 && bytes.len() < 0x100_0000) ==> decompressed(bytes)
                == block_text(bytes)
        }),
{
}

} // verus!
