//! The block compressor used for compressed pages.
use vstd::prelude::*;

verus! {

/// The zstd frame that the default compression level makes of `data`.
pub uninterp spec fn zstd_frame(data: Seq<u8>) -> Seq<u8>;

/// Relies on `zstd::stream::encode_all` at level 0 (zstd's default): one
/// complete frame over `data`, the same for the same input. Compressing a
/// slice into memory fails only when memory runs out.
#[verifier::external_body]
pub(crate) fn compress_frame(data: &[u8]) -> (r: Option<Vec<u8>>)
    ensures
        r is Some,
        r matches Some(frame) ==> frame@ == zstd_frame(data@),
{
    zstd::stream::encode_all(data, 0).ok()
}

/// Relies on `zstd::stream::decode_all`: decoding is lossless, so a frame
/// that compression made of `d` decodes to `d`.
#[verifier::external_body]
pub(crate) fn decompress_frame(frame: &[u8]) -> (r: Option<Vec<u8>>)
    ensures
        r is Some || forall|d: Seq<u8>| #[trigger] zstd_frame(d) != frame@,
        r matches Some(v) ==> forall|d: Seq<u8>| #[trigger] zstd_frame(d) == frame@ ==> v@ == d,
{
    zstd::stream::decode_all(frame).ok()
}

} // verus!
