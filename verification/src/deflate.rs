//! The compression of the image payload.
//!
//! The payload of a file is stored as a raw DEFLATE stream. The streams are
//! made and read by the `flate2` crate; this module is where the library
//! meets it, and what it states of `flate2` is taken on trust.

use vstd::prelude::*;

verus! {

/// What `flate2` makes of `data` when it compresses it at level 9: the
/// DEFLATE stream, or the category of the failure it reports.
pub uninterp spec fn deflated(data: Seq<u8>) -> Result<Seq<u8>, std::io::ErrorKind>;

/// What `flate2` makes of `packed` when it reads it as a DEFLATE stream: the
/// data that the stream holds, or the category of the failure it reports.
pub uninterp spec fn inflated(packed: Seq<u8>) -> Result<Seq<u8>, std::io::ErrorKind>;

/// Compresses `data` with `flate2::write::DeflateEncoder` at level 9:
/// everything is written to the encoder, which is then finished.
///
/// The contract names the outcome and claims one thing of it: DEFLATE is
/// lossless, so a stream that the encoder has finished is read back by
/// `flate2`'s decoder as the data that went in.
#[verifier::external_body]
pub(crate) fn deflate(data: &[u8]) -> (result: Result<Vec<u8>, std::io::ErrorKind>)
    ensures
        match result {
            Ok(packed) => deflated(data@) == Ok::<Seq<u8>, std::io::ErrorKind>(packed@)
                && inflated(packed@) == Ok::<Seq<u8>, std::io::ErrorKind>(data@),
            Err(kind) => deflated(data@) == Err::<Seq<u8>, std::io::ErrorKind>(kind),
        },
{
    let level = flate2::Compression::new(9);
    let mut encoder = flate2::write::DeflateEncoder::new(Vec::new(), level);
    match std::io::Write::write_all(&mut encoder, data) {
        Ok(()) => match encoder.finish() {
            Ok(packed) => Ok(packed),
            Err(error) => Err(error.kind()),
        },
        Err(error) => Err(error.kind()),
    }
}

/// Reads `packed` to its end with `flate2::read::DeflateDecoder`.
///
/// The decoder stops at the end of the DEFLATE stream; bytes behind it are
/// not looked at. The contract names the outcome.
#[verifier::external_body]
pub(crate) fn inflate(packed: &[u8]) -> (result: Result<Vec<u8>, std::io::ErrorKind>)
    ensures
        match result {
            Ok(data) => inflated(packed@) == Ok::<Seq<u8>, std::io::ErrorKind>(data@),
            Err(kind) => inflated(packed@) == Err::<Seq<u8>, std::io::ErrorKind>(kind),
        },
{
    let mut data = Vec::new();
    let mut decoder = flate2::read::DeflateDecoder::new(packed);
    match std::io::Read::read_to_end(&mut decoder, &mut data) {
        Ok(_) => Ok(data),
        Err(error) => Err(error.kind()),
    }
}

} // verus!
