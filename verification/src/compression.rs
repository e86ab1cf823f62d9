//! Gzip decompression of a layer-0 block.

use vstd::prelude::*;
use std::io::Read;

verus! {

#[verifier::external_type_specification]
#[verifier::external_body]
pub struct ExIoError(std::io::Error);

/// What flate2's `GzDecoder` yields when it is read to the end over `data`: the
/// decompressed bytes, or `None` when it reports an error.
pub uninterp spec fn gzip_decode(data: Seq<u8>) -> Option<Seq<u8>>;

/// `flate2::read::GzDecoder::new(data)` read to its end with `Read::read_to_end`. The
/// decoder reads nothing but `data`, so what it yields is a function of `data` alone, and
/// this item only names it (`gzip_decode`); nothing of the gzip format is stated.
#[verifier::external_body]
fn gunzip(data: &[u8]) -> (r: Result<Vec<u8>, std::io::Error>)
    ensures
        r matches Ok(v) ==> gzip_decode(data@) == Some(v@),
        r is Err ==> gzip_decode(data@) is None,
{
    let mut decoder = flate2::read::GzDecoder::new(data);
    let mut out: Vec<u8> = Vec::new();
    match decoder.read_to_end(&mut out) {
        Ok(_) => Ok(out),
        Err(e) => Err(e),
    }
}

/// Decompresses a gzip block: `None` when the decoder rejects it.
pub fn decompress_gzip(compressed: &[u8]) -> (r: Option<Vec<u8>>)
    ensures
        r matches Some(v) ==> gzip_decode(compressed@) == Some(v@),
        r is None ==> gzip_decode(compressed@) is None,
{
    match gunzip(compressed) {
        Ok(v) => Some(v),
        Err(_) => None,
    }
}

} // verus!
