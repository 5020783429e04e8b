//! The LZ4 block codec of the `lz4_flex` crate, as far as the store relies on
//! it. Nothing in this file is proved: each contract states what the crate
//! documents.

use vstd::prelude::*;

verus! {

#[verifier::external_type_specification]
#[verifier::external_body]
pub struct ExCompressError(lz4_flex::block::CompressError);

#[verifier::external_type_specification]
#[verifier::external_body]
pub struct ExDecompressError(lz4_flex::block::DecompressError);

/// The length of a run of bytes `0xFF` that no block may hold. A length in
/// an LZ4 block is the sum of consecutive bytes, which goes on for as long
/// as they are `0xFF`. The decompressor adds them up in 32-bit arithmetic,
/// and adds a length to a position in its output; with no run of this
/// length neither sum can overflow, on a 32-bit machine either.
pub const MAX_LENGTH_RUN: usize = 0x80_0000;

/// How many bytes one byte of an LZ4 block can stand for at most: a byte
/// that extends a length adds 255 to it, and no other byte gives more.
pub const MAX_EXPANSION: usize = 255;

/// Whether the bytes of `block` from `from` up to `to` are all `0xFF`.
pub open spec fn all_ones(block: Seq<u8>, from: int, to: int) -> bool {
    forall|i: int| from <= i < to ==> block[i] == 0xffu8
}

/// Whether the store hands `block` to the decompressor: it holds no run of
/// [`MAX_LENGTH_RUN`] bytes `0xFF`.
pub open spec fn readable(block: Seq<u8>) -> bool {
    forall|from: int|
        0 <= from && from + MAX_LENGTH_RUN <= block.len() ==> !#[trigger] all_ones(
            block,
            from,
            from + MAX_LENGTH_RUN,
        )
}

/// What `lz4_flex::block::decompress_into` writes when it is given `block`
/// and an output buffer of `capacity` bytes: the bytes that it reports as
/// written, or `None` where it reports an error.
pub uninterp spec fn lz4_decompressed(block: Seq<u8>, capacity: nat) -> Option<Seq<u8>>;

/// `lz4_flex::block::get_maximum_output_size`: the size of an output buffer
/// that is large enough to compress `input_len` bytes, which the crate
/// computes as 20 bytes more than 110% of the input.
#[verifier::external_body]
pub(crate) fn max_compressed_size(input_len: usize) -> (size: usize)
    requires
        input_len * 110 <= usize::MAX,
    ensures
        size == 20 + (input_len * 110) / 100,
{
    lz4_flex::block::get_maximum_output_size(input_len)
}

/// `lz4_flex::block::compress_into`: compresses `input` into the front of
/// `output` and returns the number of bytes written, or an error where
/// `output` is too small. The contract claims that a block so written, if it
/// is [`readable`], decompresses into a buffer of the input's length to the
/// input itself. Which bytes are written is left open: they differ between
/// machines.
#[verifier::external_body]
pub(crate) fn compress_into(input: &[u8], output: &mut Vec<u8>) -> (res: Result<
    usize,
    lz4_flex::block::CompressError,
>)
    requires
        input@.len() * 110 <= usize::MAX,
    ensures
        final(output)@.len() == old(output)@.len(),
        res matches Ok(n) ==> (n <= final(output)@.len() && readable(
            final(output)@.take(n as int),
        ) ==> lz4_decompressed(final(output)@.take(n as int), input@.len()) == Some(input@)),
{
    lz4_flex::block::compress_into(input, output.as_mut_slice())
}

/// `lz4_flex::block::decompress_into`: decompresses `block` into the front of
/// `output` and returns the number of bytes written, or an error where the
/// block is malformed or does not fit. The contract names what was written;
/// it leaves out blocks that are not [`readable`].
#[verifier::external_body]
pub(crate) fn decompress_into(block: &[u8], output: &mut Vec<u8>) -> (res: Result<
    usize,
    lz4_flex::block::DecompressError,
>)
    requires
        readable(block@),
    ensures
        final(output)@.len() == old(output)@.len(),
        match res {
            Ok(n) => n <= final(output)@.len() && lz4_decompressed(block@, old(output)@.len())
                == Some(final(output)@.take(n as int)),
            Err(_) => lz4_decompressed(block@, old(output)@.len()) is None,
        },
{
    lz4_flex::block::decompress_into(block, output.as_mut_slice())
}

} // verus!
