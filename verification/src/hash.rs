//! Content hashing (BLAKE3), used for dedupe and change detection.
use vstd::prelude::*;

verus! {

/// BLAKE3 of `data`, as `Hash::to_hex` writes it.
pub uninterp spec fn blake3_hex(data: Seq<u8>) -> Seq<char>;

/// A lowercase hexadecimal digit.
pub open spec fn is_lower_hex(c: char) -> bool {
    ('0' <= c && c <= '9') || ('a' <= c && c <= 'f')
}

/// Lowercase hex BLAKE3 hash of `data` (64 hex characters): a call of
/// `blake3::hash` and `Hash::to_hex`. The contract claims what the crate's
/// source shows: the text is a function of the data, 64 characters long,
/// each from `0123456789abcdef`.
#[verifier::external_body]
pub fn content_hash(data: &[u8]) -> (r: String)
    ensures
        r@ == blake3_hex(data@),
        r@.len() == 64,
        forall|i: int| 0 <= i < r@.len() ==> is_lower_hex(#[trigger] r@[i]),
{
    blake3::hash(data).to_hex().to_string()
}

} // verus!
