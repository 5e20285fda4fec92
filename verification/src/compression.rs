//! zstd compression of whole byte buffers, done by the `zstd` crate.

use vstd::prelude::*;

verus! {

/// The zstd frame that compressing `data` at `level` produces.
pub uninterp spec fn zstd_frame(data: Seq<u8>, level: i32) -> Seq<u8>;

/// The bytes that `zstd::stream::decode_all` gives for `frame`; `None` where
/// it gives an error (the bytes are not a sequence of complete zstd frames).
pub uninterp spec fn zstd_content(frame: Seq<u8>) -> Option<Seq<u8>>;

/// Calls `zstd::stream::encode_all` on the bytes. Trusted: the result is `Ok`,
/// the frame for these bytes and level (a function of the two), and it
/// decompresses to the bytes (zstd is lossless). Reading from a slice and
/// writing to a `Vec` cannot fail, and zstd clamps any level into its bounds
/// (`ZSTD_cParam_clampBounds`), so the source shows no error but the C
/// library running out of memory, which is not modelled here, as it is not
/// for `Vec`.
#[verifier::external_body]
pub(crate) fn zstd_compress(data: &[u8], level: i32) -> (res: Result<Vec<u8>, std::io::Error>)
    ensures
        res is Ok,
        res matches Ok(frame) ==> frame@ == zstd_frame(data@, level) && zstd_content(frame@) == Some(data@),
{
    zstd::stream::encode_all(data, level)
}

/// Calls `zstd::stream::decode_all` on the bytes. Trusted: it succeeds
/// exactly where `zstd_content` is some content (that name stands for what
/// `decode_all` gives, a function of the bytes alone), and then gives it.
#[verifier::external_body]
pub(crate) fn zstd_decompress(frame: &[u8]) -> (res: Result<Vec<u8>, std::io::Error>)
    ensures
        res is Ok <==> zstd_content(frame@) is Some,
        res matches Ok(data) ==> zstd_content(frame@) == Some(data@),
{
    zstd::stream::decode_all(frame)
}

} // verus!
