use vstd::prelude::*;

verus! {

/// The 32-byte BLAKE3 digest of `data`.
pub uninterp spec fn blake3_of(data: Seq<u8>) -> [u8; 32];

/// The zstd frame that compressing `raw` at `level` produces.
pub uninterp spec fn zstd_frame_of(raw: Seq<u8>, level: i32) -> Seq<u8>;

/// Whether `frame` holds zstd frames that decompress without error.
pub uninterp spec fn zstd_decodes(frame: Seq<u8>) -> bool;

/// The content that decompressing the zstd frame `frame` yields.
pub uninterp spec fn zstd_content_of(frame: Seq<u8>) -> Seq<u8>;

/// Relies on `blake3::hash`: the 32-byte digest of the input, which depends
/// on the input bytes alone.
#[verifier::external_body]
pub(crate) fn blake3_digest(data: &[u8]) -> (r: [u8; 32])
    ensures
        r == blake3_of(data@),
{
    blake3::hash(data).into()
}

/// Relies on `zstd::encode_all`: on success, one zstd frame for the input at
/// the given level, a function of those two alone. Compressing from a slice
/// into a `Vec` fails only on a level that zstd refuses, and levels 1 to 22
/// are accepted.
#[verifier::external_body]
pub(crate) fn zstd_compress(raw: &[u8], level: i32) -> (r: Result<Vec<u8>, String>)
    ensures
        r matches Ok(v) ==> v@ == zstd_frame_of(raw@, level),
        1 <= level <= 22 ==> r is Ok,
{
    zstd::encode_all(raw, level).map_err(|e| e.to_string())
}

/// Relies on `zstd::decode_all`: whether it succeeds, and the decompressed
/// content of the frames in the input, depend on the input alone.
#[verifier::external_body]
pub(crate) fn zstd_decompress(frame: &[u8]) -> (r: Result<Vec<u8>, String>)
    ensures
        r is Ok <==> zstd_decodes(frame@),
        r matches Ok(v) ==> v@ == zstd_content_of(frame@),
{
    zstd::decode_all(frame).map_err(|e| e.to_string())
}

} // verus!
