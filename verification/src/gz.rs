//! Gzip compression, through the `flate2` crate.

use vstd::prelude::*;

verus! {

/// What `flate2`'s gzip decoder reads out of `data`: the decompressed bytes,
/// or `None` where `data` is not a gzip stream it can decode.
pub uninterp spec fn gunzip_result(data: Seq<u8>) -> Option<Seq<u8>>;

/// What `flate2`'s gzip encoder writes for `data` at the best compression
/// level.
pub uninterp spec fn gzip_best_result(data: Seq<u8>) -> Seq<u8>;

/// Decompresses a gzip stream with `flate2::read::GzDecoder`, reading it to
/// its end (`std::io::Read::read_to_end`). Trusted: the outcome is the
/// decoder's, named `gunzip_result`; `None` stands for any read error.
#[verifier::external_body]
pub fn gunzip(data: &[u8]) -> (res: Option<Vec<u8>>)
    ensures
        match res {
            Some(v) => gunzip_result(data@) == Some(v@),
            None => gunzip_result(data@) is None,
        },
{
    let mut out = Vec::new();
    match std::io::Read::read_to_end(&mut flate2::read::GzDecoder::new(data), &mut out) {
        Ok(_) => Some(out),
        Err(_) => None,
    }
}

/// Compresses `data` with `flate2::write::GzEncoder` at
/// `flate2::Compression::best()`, writing into a `Vec`, which cannot fail.
/// Trusted: the bytes are the encoder's, named `gzip_best_result`, and the
/// gzip decoder reads `data` back out of them.
#[verifier::external_body]
pub fn gzip_best(data: &[u8]) -> (res: Vec<u8>)
    ensures
        res@ == gzip_best_result(data@),
        gunzip_result(res@) == Some(data@),
{
    let mut encoder = flate2::write::GzEncoder::new(Vec::new(), flate2::Compression::best());
    std::io::Write::write_all(&mut encoder, data).unwrap();
    encoder.finish().unwrap()
}

} // verus!
