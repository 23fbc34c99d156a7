//! Zstandard compression of save blobs.
use vstd::prelude::*;

use crate::error::CoreError;

verus! {

/// Default zstd level: good ratio, fast.
pub const DEFAULT_LEVEL: i32 = 3;

/// `zstd::encode_all` of `data` at `level`: the compressed frame, or the
/// text of the error the call reports.
pub uninterp spec fn zstd_encoded(data: Seq<u8>, level: i32) -> Result<Seq<u8>, Seq<char>>;

/// `zstd::decode_all` of `data`: the decompressed bytes, or the text of the
/// error the call reports.
pub uninterp spec fn zstd_decoded(data: Seq<u8>) -> Result<Seq<u8>, Seq<char>>;

/// The plain value of a result holding bytes or an error text.
pub open spec fn outcome_view(r: Result<Vec<u8>, String>) -> Result<Seq<u8>, Seq<char>> {
    match r {
        Ok(v) => Ok(v@),
        Err(m) => Err(m@),
    }
}

/// A successful outcome holding `d`.
pub open spec fn ok_bytes(d: Seq<u8>) -> Result<Seq<u8>, Seq<char>> {
    Ok(d)
}

/// A failed outcome with error text `m`.
pub open spec fn err_text(m: Seq<char>) -> Result<Seq<u8>, Seq<char>> {
    Err(m)
}

/// `zstd::encode_all`, with the error turned into its text. The contract
/// claims that the outcome is a function of the data and the level.
#[verifier::external_body]
fn zstd_encode(data: &[u8], level: i32) -> (r: Result<Vec<u8>, String>)
    ensures
        outcome_view(r) == zstd_encoded(data@, level),
{
    match zstd::encode_all(data, level) {
        Ok(v) => Ok(v),
        Err(e) => Err(e.to_string()),
    }
}

/// `zstd::decode_all`, with the error turned into its text. The contract
/// claims that the outcome is a function of the data, and that decoding a
/// frame that `encode_all` produced gives back the input bytes (zstd is
/// lossless).
#[verifier::external_body]
fn zstd_decode(data: &[u8]) -> (r: Result<Vec<u8>, String>)
    ensures
        outcome_view(r) == zstd_decoded(data@),
        forall|d: Seq<u8>, level: i32|
            #[trigger] zstd_encoded(d, level) == ok_bytes(data@) ==> outcome_view(r)
                == ok_bytes(d),
{
    match zstd::decode_all(data) {
        Ok(v) => Ok(v),
        Err(e) => Err(e.to_string()),
    }
}

/// Compress `data` with zstd at `level`.
pub fn compress(data: &[u8], level: i32) -> (r: Result<Vec<u8>, CoreError>)
    ensures
        r matches Ok(v) ==> zstd_encoded(data@, level) == ok_bytes(v@),
        r matches Err(e) ==> (e matches CoreError::Compress(m) && zstd_encoded(data@, level)
            == err_text(m@)),
{
    match zstd_encode(data, level) {
        Ok(v) => Ok(v),
        Err(m) => Err(CoreError::Compress(m)),
    }
}

/// Decompress zstd data produced by [`compress`].
pub fn decompress(data: &[u8]) -> (r: Result<Vec<u8>, CoreError>)
    ensures
        r matches Ok(v) ==> zstd_decoded(data@) == ok_bytes(v@),
        r matches Err(e) ==> (e matches CoreError::Decompress(m) && zstd_decoded(data@)
            == err_text(m@)),
        forall|d: Seq<u8>, level: i32|
            #[trigger] zstd_encoded(d, level) == ok_bytes(data@) ==> (r matches Ok(
                v,
            ) && v@ == d),
{
    match zstd_decode(data) {
        Ok(v) => Ok(v),
        Err(m) => Err(CoreError::Decompress(m)),
    }
}

} // verus!
