use std::io::{Read, Write};
use vstd::prelude::*;

verus! {

/// The error type of the `std::io` traits through which flate2 streams report.
#[verifier::external_type_specification]
#[verifier::external_body]
pub struct ExIoError(std::io::Error);

/// What flate2's zlib decoder produces from `compressed`, read to its end: the
/// inflated bytes, or `None` when it reports an error.
pub uninterp spec fn zlib_decompressed(compressed: Seq<u8>) -> Option<Seq<u8>>;

/// What flate2's zlib encoder at compression `level` produces from `payload`: the
/// finished zlib stream, or `None` when writing or finishing reports an error.
pub uninterp spec fn zlib_compressed(payload: Seq<u8>, level: u32) -> Option<Seq<u8>>;

/// Whether writing `payload` into flate2's zlib encoder at compression `level`
/// reports an error, before the stream is finished.
pub uninterp spec fn zlib_write_fails(payload: Seq<u8>, level: u32) -> bool;

/// Inflates with `flate2::read::ZlibDecoder::new` and `Read::read_to_end`.
/// Claims only that the outcome is the one named for `compressed`: which bytes
/// come out of which zlib stream is the decoder's business and is not stated.
#[verifier::external_body]
pub(crate) fn zlib_decompress(compressed: &[u8]) -> (res: Result<Vec<u8>, std::io::Error>)
    ensures
        match res {
            Ok(v) => zlib_decompressed(compressed@) == Some(v@),
            Err(_) => zlib_decompressed(compressed@) is None,
        },
{
    let mut decoder = flate2::read::ZlibDecoder::new(compressed);
    let mut out = Vec::new();
    match decoder.read_to_end(&mut out) {
        Ok(_) => Ok(out),
        Err(e) => Err(e),
    }
}

/// The step of zlib compression that failed.
pub enum CompressStep {
    Write,
    Finish,
}

/// Deflates with `flate2::write::ZlibEncoder::new` at `Compression::new(level)`
/// into a `Vec<u8>`, `Write::write_all` and `ZlibEncoder::finish`. Claims that
/// the outcome, and the step that failed, are the ones named for `payload` and
/// `level`, and that a finished stream is inflated by the zlib decoder back into
/// `payload`, which is what a zlib stream is for. Which bytes the stream holds is
/// not stated. Levels above 10 are refused: the miniz_oxide backend asserts
/// against them.
#[verifier::external_body]
pub(crate) fn zlib_compress(payload: &[u8], level: u32) -> (res: Result<
    Vec<u8>,
    (CompressStep, std::io::Error),
>)
    requires
        level <= 10,
    ensures
        match res {
            Ok(c) => {
                &&& zlib_compressed(payload@, level) == Some(c@)
                &&& !zlib_write_fails(payload@, level)
                &&& zlib_decompressed(c@) == Some(payload@)
            },
            Err((step, _)) => {
                &&& zlib_compressed(payload@, level) is None
                &&& (step is Write <==> zlib_write_fails(payload@, level))
            },
        },
{
    let mut encoder = flate2::write::ZlibEncoder::new(Vec::new(), flate2::Compression::new(level));
    if let Err(e) = encoder.write_all(payload) {
        return Err((CompressStep::Write, e));
    }
    match encoder.finish() {
        Ok(c) => Ok(c),
        Err(e) => Err((CompressStep::Finish, e)),
    }
}

} // verus!
