//! The block compression layer: zlib decompression of data blocks through
//! `libdeflater`.

use vstd::prelude::*;

verus! {

/// The bytes that the given zlib data decompresses to, as libdeflate reads
/// it, or `None` where it refuses the data. The result depends on the input
/// bytes alone.
pub uninterp spec fn zlib_inflate(data: Seq<u8>) -> Option<Seq<u8>>;

/// Relies on `libdeflater::Decompressor::zlib_decompress` (with a fresh
/// `Decompressor`): it fills the output buffer with the decompressed bytes
/// and returns their count, failing exactly when the input is not one valid
/// zlib stream (`BadData`) or the decompressed form does not fit the buffer
/// (`InsufficientSpace`).
#[verifier::external_body]
pub(crate) fn zlib_decompress_block(data: &Vec<u8>, buf_size: usize) -> (r: Option<Vec<u8>>)
    ensures
        match r {
            Some(v) => zlib_inflate(data@) == Some(v@) && v@.len() <= buf_size,
            None => zlib_inflate(data@) is None || zlib_inflate(data@).unwrap().len() > buf_size,
        },
{
    let mut decompressor = libdeflater::Decompressor::new();
    let mut outbuf = vec![0u8; buf_size];
    match decompressor.zlib_decompress(data, &mut outbuf) {
        Ok(n) => {
            outbuf.truncate(n);
            Some(outbuf)
        },
        Err(_) => None,
    }
}

} // verus!
