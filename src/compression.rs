//! The reversible transform applied to objects at rest (zlib).
use vstd::prelude::*;
use std::io::Write;
use std::io::Read;

verus! {

/// The zlib stream that the encoder produces for `data` at the default level.
pub uninterp spec fn zlib_of(data: Seq<u8>) -> Seq<u8>;

/// What the zlib decoder reads out of `data`: `None` where it reports an error.
pub uninterp spec fn inflate_of(data: Seq<u8>) -> Option<Seq<u8>>;

/// Relies on `flate2::write::ZlibEncoder` (`new`, `write_all`, `finish`)
/// writing into a vector: the stream it produces, which the zlib decoder
/// reads back to the same bytes. Its writer fails only where the target
/// fails, and writing into a vector does not.
#[verifier::external_body]
pub fn compress(content: &[u8]) -> (r: Vec<u8>)
    ensures
        r@ == zlib_of(content@),
        inflate_of(r@) == Some(content@),
{
    let mut encoder = flate2::write::ZlibEncoder::new(Vec::new(), flate2::Compression::default());
    let _ = encoder.write_all(content);
    encoder.finish().unwrap_or_default()
}

/// Relies on `flate2::read::ZlibDecoder` (`new`, `read_to_end`): the bytes
/// that the stream in `content` decodes to, or `None` on a decoding error.
#[verifier::external_body]
pub fn decompress(content: &[u8]) -> (r: Option<Vec<u8>>)
    ensures
        r is Some <==> inflate_of(content@) is Some,
        r matches Some(v) ==> v@ == inflate_of(content@)->0,
{
    let mut decoder = flate2::read::ZlibDecoder::new(content);
    let mut out = Vec::new();
    match decoder.read_to_end(&mut out) {
        Ok(_) => Some(out),
        Err(_) => None,
    }
}

} // verus!
