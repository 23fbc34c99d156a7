//! The full save-blob recipe: compress then encrypt (`seal`) and its inverse
//! (`open`). This is the exact byte format the vault stores.
use vstd::prelude::*;

use crate::cipher::{decrypt, decrypted, encrypt, encrypt_with_nonce, encrypts, gcm_max_plaintext, sealed_with, NONCE_LEN};
use crate::compress::{compress, decompress, zstd_decoded, zstd_encoded, DEFAULT_LEVEL};
use crate::error::CoreError;

verus! {

/// `blob` is the sealed form of `plain` under `key`: `plain` compressed with
/// zstd at the default level, then encrypted with AES-256-GCM.
pub open spec fn seals(key: Seq<u8>, plain: Seq<u8>, blob: Seq<u8>) -> bool {
    match zstd_encoded(plain, 3) {
        Ok(c) => encrypts(key, c, blob),
        Err(_) => false,
    }
}

/// What opening `blob` under `key` gives: the decompressed plaintext, or
/// nothing when decryption or decompression fails.
pub open spec fn opened(key: Seq<u8>, blob: Seq<u8>) -> Option<Seq<u8>> {
    match decrypted(key, blob) {
        None => None,
        Some(c) => match zstd_decoded(c) {
            Ok(d) => Some(d),
            Err(_) => None,
        },
    }
}

/// Compress (zstd) then encrypt (AES-256-GCM). Produces the stored save blob.
pub fn seal(key: &[u8; 32], plaintext: &[u8]) -> (r: Result<Vec<u8>, CoreError>)
    ensures
        r matches Ok(b) ==> seals(key@, plaintext@, b@),
        r matches Err(e) ==> match zstd_encoded(plaintext@, 3) {
            Err(m) => e matches CoreError::Compress(t) && t@ == m,
            Ok(_) => e is Encrypt,
        },
        zstd_encoded(plaintext@, 3) matches Ok(c) && c.len() > gcm_max_plaintext() ==> r is Err,
{
    let compressed = match compress(plaintext, DEFAULT_LEVEL) {
        Ok(c) => c,
        Err(e) => {
            return Err(e);
        },
    };
    encrypt(key, compressed.as_slice())
}

/// What sealing `plain` under `key` with `nonce` gives: the compressed
/// plaintext encrypted with that nonce, or the message of the compression
/// error; `None` inside when the compressed text is longer than AES-GCM
/// accepts.
pub open spec fn sealed_blob(key: Seq<u8>, nonce: Seq<u8>, plain: Seq<u8>) -> Result<Option<Seq<u8>>, Seq<char>> {
    match zstd_encoded(plain, 3) {
        Err(m) => Err(m),
        Ok(c) => if c.len() <= gcm_max_plaintext() {
            Ok(Some(sealed_with(key, nonce, c)))
        } else {
            Ok(None)
        },
    }
}

/// [`seal`] with the given 12-byte `nonce` in place of a random one.
pub fn seal_with_nonce(key: &[u8; 32], nonce: &[u8], plaintext: &[u8]) -> (r: Result<Vec<u8>, CoreError>)
    requires
        nonce@.len() == NONCE_LEN,
    ensures
        match sealed_blob(key@, nonce@, plaintext@) {
            Err(m) => r matches Err(CoreError::Compress(t)) && t@ == m,
            Ok(Some(b)) => r matches Ok(v) && v@ == b,
            Ok(None) => r matches Err(CoreError::Encrypt),
        },
        r matches Ok(b) ==> seals(key@, plaintext@, b@),
{
    let compressed = match compress(plaintext, DEFAULT_LEVEL) {
        Ok(c) => c,
        Err(e) => {
            return Err(e);
        },
    };
    encrypt_with_nonce(key, nonce, compressed.as_slice())
}

/// Inverse of [`seal`]: decrypt then decompress. Opening what [`seal`]
/// produced under the same key gives back the plaintext.
pub fn open(key: &[u8; 32], blob: &[u8]) -> (r: Result<Vec<u8>, CoreError>)
    ensures
        decrypted(key@, blob@) is None ==> r matches Err(CoreError::Decrypt),
        decrypted(key@, blob@) matches Some(c) ==> match zstd_decoded(c) {
            Ok(d) => r matches Ok(v) && v@ == d,
            Err(m) => r matches Err(CoreError::Decompress(t)) && t@ == m,
        },
        forall|p: Seq<u8>| #[trigger] seals(key@, p, blob@) ==> (r matches Ok(v) && v@ == p),
{
    let compressed = match decrypt(key, blob) {
        Ok(c) => c,
        Err(e) => {
            return Err(e);
        },
    };
    proof {
        assert forall|p: Seq<u8>| #[trigger] seals(key@, p, blob@) implies compressed@
            == zstd_encoded(p, 3)->Ok_0 by {
            let c = zstd_encoded(p, 3)->Ok_0;
            assert(encrypts(key@, c, blob@));
        }
    }
    decompress(compressed.as_slice())
}

} // verus!
