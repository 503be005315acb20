//! The LZMA2 boundary: the two calls into `lzma_rs` that the codec makes.
use vstd::prelude::*;
use crate::v0::error::Error;

verus! {

/// The LZMA2 stream that `lzma_rs::lzma2_compress` produces for these bytes.
/// The encoder frames its input in chunks read from an in-memory cursor, so
/// the stream is a function of the input bytes alone.
pub uninterp spec fn lzma2_of(data: Seq<u8>) -> Seq<u8>;

/// Relies on `lzma_rs::lzma2_compress`: it frames the input in LZMA2 chunks
/// and ends with a terminator byte, so the output is never empty; reading
/// from a cursor over a slice and writing to a `Vec` cannot fail, which is
/// the encoder's only error source.
#[verifier::external_body]
pub(crate) fn lzma2_compress_bytes(data: &Vec<u8>) -> (r: Vec<u8>)
    ensures
        r@ == lzma2_of(data@),
        r@.len() > 0,
{
    let mut input = std::io::Cursor::new(data.as_slice());
    let mut out: Vec<u8> = Vec::new();
    lzma_rs::lzma2_compress(&mut input, &mut out).expect("in-memory lzma2 framing cannot fail");
    out
}

/// Relies on `lzma_rs::lzma2_decompress`: decoding a stream that
/// `lzma_rs::lzma2_compress` produced yields exactly the bytes that were
/// compressed; every decoder failure is surfaced as `DecompressError`.
#[verifier::external_body]
pub(crate) fn lzma2_decompress_bytes(data: &Vec<u8>) -> (r: Result<Vec<u8>, Error>)
    ensures
        r matches Ok(v) ==> forall|d: Seq<u8>| data@ == lzma2_of(d) ==> v@ == d,
        r is Err ==> forall|d: Seq<u8>| data@ != lzma2_of(d),
        r is Err ==> r == (Err::<Vec<u8>, Error>(Error::DecompressError)),
{
    let mut input = std::io::Cursor::new(data.as_slice());
    let mut out: Vec<u8> = Vec::new();
    match lzma_rs::lzma2_decompress(&mut input, &mut out) {
        Ok(()) => Ok(out),
        Err(_) => Err(Error::DecompressError),
    }
}

} // verus!
