//! The two content codings, behind the crates that implement them.
use std::io::Write;

use vstd::prelude::*;

verus! {

/// The gzip stream that `flate2::write::GzEncoder` makes of some bytes at some
/// level.
pub uninterp spec fn gzip_bytes(data: Seq<u8>, level: u32) -> Seq<u8>;

/// What `flate2::read::GzDecoder` reads out of a gzip stream, where it reads one
/// to its end.
pub uninterp spec fn gunzipped(stream: Seq<u8>) -> Option<Seq<u8>>;

/// What `brotli::Decompressor` reads out of a brotli stream, where it reads one
/// to its end.
pub uninterp spec fn unbrotlied(stream: Seq<u8>) -> Option<Seq<u8>>;

/// Whether `brotli::CompressorWriter`, with a window of 22 bits, may make this
/// stream of some bytes at some quality. There can be several: the encoder weighs
/// its choices with logarithms in floating point, whose precision is left to the
/// machine.
pub uninterp spec fn brotli_may_give(data: Seq<u8>, quality: u32, stream: Seq<u8>) -> bool;

/// `flate2::write::GzEncoder` over a `Vec`: all of `data` is written and the
/// stream finished. The encoder sets no time and no name in the stream's header
/// and works on integers alone, so the stream follows from the bytes and the
/// level; decoded, it gives the bytes back. Levels above ten trip an assertion
/// of the encoder's.
#[verifier::external_body]
fn gzip_encode(data: &[u8], level: u32) -> (r: Vec<u8>)
    requires
        level <= 10,
    ensures
        r@ == gzip_bytes(data@, level),
        gunzipped(r@) == Some(data@),
{
    let mut e = flate2::write::GzEncoder::new(Vec::new(), flate2::Compression::new(level));
    let _ = e.write_all(data);
    e.finish().unwrap_or_default()
}

/// `brotli::CompressorWriter` over a `Vec`, with a window of 22 bits: all of
/// `data` is written and the stream closed. The stream is one that the encoder may
/// make of these bytes at this quality; decoded, it gives the bytes back. Which of
/// those streams it is rests on the precision of the machine's logarithm, and is
/// left unsaid.
#[verifier::external_body]
fn brotli_encode(data: &[u8], quality: u32) -> (r: Vec<u8>)
    ensures
        brotli_may_give(data@, quality, r@),
        unbrotlied(r@) == Some(data@),
{
    let mut out = Vec::new();
    {
        let mut w = brotli::CompressorWriter::new(&mut out, 4096, quality, 22);
        let _ = w.write_all(data);
    }
    out
}

/// Compresses to gzip.
pub fn gzip_compress(data: &[u8], level: u32) -> (r: Vec<u8>)
    requires
        level <= 10,
    ensures
        r@ == gzip_bytes(data@, level),
        gunzipped(r@) == Some(data@),
{
    gzip_encode(data, level)
}

/// Compresses to brotli. The quality is the boot-cost knob: 11 is the slowest
/// and densest.
pub fn brotli_compress(data: &[u8], quality: u32) -> (r: Vec<u8>)
    ensures
        brotli_may_give(data@, quality, r@),
        unbrotlied(r@) == Some(data@),
{
    brotli_encode(data, quality)
}

} // verus!
