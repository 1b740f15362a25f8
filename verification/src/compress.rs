//! Optional payload compression for literal data.  Each codec is an outside
//! implementation; what matters to the engine is that decompression inverts
//! compression, which each compression wrapper states of its own output.

use vstd::prelude::*;
use std::io::Write;
use crate::error::RsyncError;
use crate::options::CompressionAlgorithm;

verus! {

/// What `zstd::encode_all` returns for the given input at level 0.
pub uninterp spec fn zstd_compressed(data: Seq<u8>) -> Seq<u8>;

/// What `zstd::decode_all` reconstructs from the given frame, when it
/// succeeds.
pub uninterp spec fn zstd_decompressed(data: Seq<u8>) -> Option<Seq<u8>>;

/// What `lz4_flex::compress_prepend_size` returns for the given input.
pub uninterp spec fn lz4_compressed(data: Seq<u8>) -> Seq<u8>;

/// What `lz4_flex::decompress_size_prepended` reconstructs, when it succeeds.
pub uninterp spec fn lz4_decompressed(data: Seq<u8>) -> Option<Seq<u8>>;

/// What the zlib encoder of `flate2` returns for the given input at the
/// default level.
pub uninterp spec fn zlib_compressed(data: Seq<u8>) -> Seq<u8>;

/// What the zlib decoder of `flate2` reconstructs, when it succeeds.
pub uninterp spec fn zlib_decompressed(data: Seq<u8>) -> Option<Seq<u8>>;

/// Relies on `zstd::encode_all` at level 0: deterministic for a given
/// input, `zstd::decode_all` restores the input from its output, and
/// writing into an in-memory vector does not fail (allocation aside).
#[verifier::external_body]
fn zstd_compress(data: &[u8]) -> (r: Result<Vec<u8>, RsyncError>)
    ensures
        r is Ok,
        r matches Ok(v) ==> v@ == zstd_compressed(data@)
            && zstd_decompressed(v@) == Some(data@),
{
    match zstd::encode_all(data, 0) {
        Ok(v) => Ok(v),
        Err(e) => Err(RsyncError::Other(format!("zstd compression failed: {}", e))),
    }
}

/// Relies on `zstd::decode_all`: succeeds exactly on well-formed frames and
/// returns the bytes the frame encodes.
#[verifier::external_body]
fn zstd_decompress(data: &[u8]) -> (r: Result<Vec<u8>, RsyncError>)
    ensures
        r matches Ok(v) ==> zstd_decompressed(data@) == Some(v@),
        r is Err ==> zstd_decompressed(data@) is None,
{
    match zstd::decode_all(data) {
        Ok(v) => Ok(v),
        Err(e) => Err(RsyncError::Other(format!("zstd decompression failed: {}", e))),
    }
}

/// Relies on `lz4_flex::compress_prepend_size`: deterministic, and
/// `decompress_size_prepended` restores the input from its output.
#[verifier::external_body]
fn lz4_compress(data: &[u8]) -> (r: Vec<u8>)
    ensures
        r@ == lz4_compressed(data@),
        lz4_decompressed(r@) == Some(data@),
{
    lz4_flex::compress_prepend_size(data)
}

/// Relies on `lz4_flex::decompress_size_prepended`: succeeds exactly on
/// well-formed blocks and returns the bytes the block encodes.
#[verifier::external_body]
fn lz4_decompress(data: &[u8]) -> (r: Result<Vec<u8>, RsyncError>)
    ensures
        r matches Ok(v) ==> lz4_decompressed(data@) == Some(v@),
        r is Err ==> lz4_decompressed(data@) is None,
{
    match lz4_flex::decompress_size_prepended(data) {
        Ok(v) => Ok(v),
        Err(e) => Err(RsyncError::Other(format!("lz4 decompression failed: {}", e))),
    }
}

/// Relies on `flate2::write::ZlibEncoder` at the default level:
/// deterministic, the zlib decoder restores the input from its output, and
/// writing into an in-memory vector does not fail (allocation aside).
#[verifier::external_body]
fn zlib_compress(data: &[u8]) -> (r: Result<Vec<u8>, RsyncError>)
    ensures
        r is Ok,
        r matches Ok(v) ==> v@ == zlib_compressed(data@)
            && zlib_decompressed(v@) == Some(data@),
{
    let mut encoder = flate2::write::ZlibEncoder::new(
        Vec::new(), flate2::Compression::default());
    match encoder.write_all(data).and_then(|_| encoder.finish()) {
        Ok(v) => Ok(v),
        Err(e) => Err(RsyncError::Other(format!("zlib compression failed: {}", e))),
    }
}

/// Relies on `flate2::write::ZlibDecoder`: succeeds exactly on well-formed
/// streams and returns the bytes the stream encodes.
#[verifier::external_body]
fn zlib_decompress(data: &[u8]) -> (r: Result<Vec<u8>, RsyncError>)
    ensures
        r matches Ok(v) ==> zlib_decompressed(data@) == Some(v@),
        r is Err ==> zlib_decompressed(data@) is None,
{
    let mut decoder = flate2::write::ZlibDecoder::new(Vec::new());
    match decoder.write_all(data).and_then(|_| decoder.finish()) {
        Ok(v) => Ok(v),
        Err(e) => Err(RsyncError::Other(format!("zlib decompression failed: {}", e))),
    }
}

/// The compressed form of `data` under `alg`.
pub open spec fn compressed_with(alg: CompressionAlgorithm, data: Seq<u8>) -> Seq<u8> {
    match alg {
        CompressionAlgorithm::Zstd => zstd_compressed(data),
        CompressionAlgorithm::Lz4 => lz4_compressed(data),
        CompressionAlgorithm::Zlib => zlib_compressed(data),
    }
}

/// The decompressed form of `data` under `alg`, when the payload is
/// well-formed.
pub open spec fn decompressed_with(alg: CompressionAlgorithm, data: Seq<u8>) -> Option<Seq<u8>> {
    match alg {
        CompressionAlgorithm::Zstd => zstd_decompressed(data),
        CompressionAlgorithm::Lz4 => lz4_decompressed(data),
        CompressionAlgorithm::Zlib => zlib_decompressed(data),
    }
}

/// A payload codec bound to one compression algorithm.
pub struct Compressor {
    algorithm: CompressionAlgorithm,
}

impl Compressor {
    pub fn new(algorithm: CompressionAlgorithm) -> (r: Self)
        ensures
            r.algorithm() == algorithm,
    {
        Compressor { algorithm }
    }

    /// The configured algorithm.
    pub closed spec fn algorithm(&self) -> CompressionAlgorithm {
        self.algorithm
    }

    /// Compresses a payload: always succeeds, and the result is exactly the
    /// configured codec's output, which `decompress` restores to `data`.
    pub fn compress(&self, data: &[u8]) -> (r: Result<Vec<u8>, RsyncError>)
        ensures
            r is Ok,
            r matches Ok(v) ==> v@ == compressed_with(self.algorithm(), data@)
                && decompressed_with(self.algorithm(), v@) == Some(data@),
    {
        match self.algorithm {
            CompressionAlgorithm::Zstd => zstd_compress(data),
            CompressionAlgorithm::Lz4 => Ok(lz4_compress(data)),
            CompressionAlgorithm::Zlib => zlib_compress(data),
        }
    }

    /// Decompresses a payload: succeeds exactly on well-formed input and
    /// returns the bytes it encodes.
    pub fn decompress(&self, data: &[u8]) -> (r: Result<Vec<u8>, RsyncError>)
        ensures
            r matches Ok(v) ==> decompressed_with(self.algorithm(), data@) == Some(v@),
            r is Err ==> decompressed_with(self.algorithm(), data@) is None,
    {
        match self.algorithm {
            CompressionAlgorithm::Zstd => zstd_decompress(data),
            CompressionAlgorithm::Lz4 => lz4_decompress(data),
            CompressionAlgorithm::Zlib => zlib_decompress(data),
        }
    }
}

} // verus!
