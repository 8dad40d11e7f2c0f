//! Block decompression of archive payloads.

use vstd::prelude::*;

verus! {

/// What LZ4 block decompression of `input` yields into a buffer of `capacity` bytes:
/// the decompressed bytes, or `None` where the block is corrupt or does not fit.
pub uninterp spec fn lz4_block_decompress(input: Seq<u8>, capacity: nat) -> Option<Seq<u8>>;

/// Relies on `lz4_flex::decompress` (safe decoding): a block either fails with an error
/// or yields its bytes in a buffer of `capacity` bytes truncated to what was written.
/// The buffer is allocated up front, which panics beyond `isize::MAX` bytes.
#[verifier::external_body]
pub(crate) fn decompress_block(input: &[u8], capacity: usize) -> (r: Option<Vec<u8>>)
    requires
        capacity <= isize::MAX,
    ensures
        r is Some <==> lz4_block_decompress(input@, capacity as nat) is Some,
        r is Some ==> r->0@ == lz4_block_decompress(input@, capacity as nat)->0,
        r is Some ==> r->0@.len() <= capacity,
{
    match lz4_flex::decompress(input, capacity) {
        Ok(v) => Some(v),
        Err(_) => None,
    }
}

} // verus!
