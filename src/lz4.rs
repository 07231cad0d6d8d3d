//! The LZ4 block decompressor that framed blocks rely on.
use vstd::prelude::*;

verus! {

/// The error of `lz4_flex::block::decompress`; callers only tell it apart from success.
#[verifier::external_type_specification]
#[verifier::external_body]
pub struct ExDecompressError(lz4_flex::block::DecompressError);

/// What the LZ4 block decoder makes of `frame` when it may write at most
/// `cap` bytes: the decompressed bytes, or `None` when it rejects the frame.
pub uninterp spec fn lz4_block_decoded(frame: Seq<u8>, cap: nat) -> Option<Seq<u8>>;

/// Longest frame handed to the decompressor. It sums runs of `0xFF` length
/// bytes in a `u32` and then adds that sum to a `usize`; a frame of at most
/// 1 MiB keeps both far from overflow on 32-bit targets too. No LZ4 block
/// that decodes into at most 64 KiB comes near this length.
pub const MAX_FRAME_INPUT: usize = 1_048_576;

/// Relies on `lz4_flex::block::decompress` (LZ4 block format, not frame format):
/// its outcome depends on the input bytes and the output bound alone, and it
/// writes into `cap` bytes and truncates to what it wrote.
#[verifier::external_body]
pub(crate) fn decompress_block(frame: &[u8], cap: usize) -> (r: Result<
    Vec<u8>,
    lz4_flex::block::DecompressError,
>)
    requires
        frame@.len() <= MAX_FRAME_INPUT,
    ensures
        r is Ok <==> lz4_block_decoded(frame@, cap as nat) is Some,
        r matches Ok(v) ==> lz4_block_decoded(frame@, cap as nat) == Some(v@),
        r matches Ok(v) ==> v@.len() <= cap,
{
    lz4_flex::block::decompress(frame, cap)
}

} // verus!
