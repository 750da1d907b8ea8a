use std::io::Read;
use std::io::Write;
use vstd::prelude::*;

verus! {

/// The zlib stream that flate2's `ZlibEncoder` writes for `data` at the
/// given compression level, or `None` where the encoder reports an error.
pub uninterp spec fn zlib_compressed(data: Seq<u8>, level: u32) -> Option<Seq<u8>>;

/// What flate2's `ZlibDecoder` reads out of `stream`, or `None` where it
/// reports an error.
pub uninterp spec fn zlib_decompressed(stream: Seq<u8>) -> Option<Seq<u8>>;

/// Calls `flate2::Compression::default().level()`. Trusted: flate2's
/// source defines the default level as 6.
#[verifier::external_body]
pub(crate) fn default_compression_level() -> (level: u32)
    ensures
        level == 6,
{
    flate2::Compression::default().level()
}

/// Compresses `data` with `flate2::write::ZlibEncoder` (`write_all`, then
/// `finish`) at `level`. Trusted: the result is `zlib_compressed` of the
/// arguments, and a stream that was produced decodes back to `data`
/// (zlib is lossless). Levels above 10 are left out: flate2's miniz
/// backend has a `debug_assert!` against them, so a debug build panics
/// there (a release build clamps such a level instead).
#[verifier::external_body]
pub(crate) fn zlib_compress(data: &[u8], level: u32) -> (r: Option<Vec<u8>>)
    requires
        level <= 10,
    ensures
        match r {
            Some(c) => zlib_compressed(data@, level) == Some(c@) && zlib_decompressed(c@) == Some(
                data@,
            ),
            None => zlib_compressed(data@, level).is_none(),
        },
{
    let mut encoder = flate2::write::ZlibEncoder::new(Vec::new(), flate2::Compression::new(level));
    if encoder.write_all(data).is_err() {
        return None;
    }
    encoder.finish().ok()
}

/// Decompresses a zlib stream with `flate2::read::ZlibDecoder`
/// (`read_to_end`). Trusted: the result is `zlib_decompressed` of the
/// stream given.
#[verifier::external_body]
pub(crate) fn zlib_decompress(stream: &[u8]) -> (r: Option<Vec<u8>>)
    ensures
        match r {
            Some(out) => zlib_decompressed(stream@) == Some(out@),
            None => zlib_decompressed(stream@).is_none(),
        },
{
    let mut decoder = flate2::read::ZlibDecoder::new(stream);
    let mut out = Vec::new();
    match decoder.read_to_end(&mut out) {
        Ok(_) => Some(out),
        Err(_) => None,
    }
}

} // verus!
