//! Authenticated encryption with AES-256-GCM.
//!
//! Output format: `nonce (12 bytes) || ciphertext || tag (16 bytes)`.
//! A fresh random nonce is generated for every encryption.
use vstd::prelude::*;

use crate::chunk::copy_range;
use crate::error::CoreError;

verus! {

/// Length in bytes of the AES-GCM nonce prefixed to every ciphertext.
pub const NONCE_LEN: usize = 12;

/// The largest plaintext AES-GCM accepts: 2^36 bytes.
pub open spec fn gcm_max_plaintext() -> nat {
    0x10_0000_0000
}

/// AES-256-GCM with no associated data: the ciphertext of `plaintext` under
/// `key` and `nonce`, followed by its 16-byte tag.
pub uninterp spec fn aes_gcm_sealed(key: Seq<u8>, nonce: Seq<u8>, plaintext: Seq<u8>) -> Seq<u8>;

/// AES-256-GCM decryption with no associated data: the plaintext when the
/// tag of `ciphertext` checks out under `key` and `nonce`, else nothing.
pub uninterp spec fn aes_gcm_opened(key: Seq<u8>, nonce: Seq<u8>, ciphertext: Seq<u8>) -> Option<
    Seq<u8>,
>;

/// `Aead::encrypt` of `aes_gcm::Aes256Gcm`. The contract claims what the
/// crate's source shows: it fails only on a plaintext over 2^36 bytes, and
/// otherwise returns the ciphertext and tag, 16 bytes longer than the
/// plaintext, as a function of key, nonce and plaintext.
#[verifier::external_body]
fn aes_gcm_encrypt(key: &[u8; 32], nonce: &[u8], plaintext: &[u8]) -> (r: Option<Vec<u8>>)
    requires
        nonce@.len() == 12,
    ensures
        r is Some <==> plaintext@.len() <= gcm_max_plaintext(),
        r matches Some(c) ==> c@ == aes_gcm_sealed(key@, nonce@, plaintext@) && c@.len()
            == plaintext@.len() + 16,
{
    let cipher = <aes_gcm::Aes256Gcm as aes_gcm::aead::KeyInit>::new(
        aes_gcm::Key::<aes_gcm::Aes256Gcm>::from_slice(key),
    );
    aes_gcm::aead::Aead::encrypt(&cipher, aes_gcm::Nonce::from_slice(nonce), plaintext).ok()
}

/// The bytes an optional vector holds.
pub open spec fn bytes_view(r: Option<Vec<u8>>) -> Option<Seq<u8>> {
    match r {
        Some(v) => Some(v@),
        None => None,
    }
}

/// `Aead::decrypt` of `aes_gcm::Aes256Gcm`. The contract claims: the result
/// is a function of key, nonce and ciphertext; and decrypting what
/// encryption produced under the same key and nonce gives the plaintext back.
#[verifier::external_body]
fn aes_gcm_decrypt(key: &[u8; 32], nonce: &[u8], ciphertext: &[u8]) -> (r: Option<Vec<u8>>)
    requires
        nonce@.len() == 12,
    ensures
        bytes_view(r) == aes_gcm_opened(key@, nonce@, ciphertext@),
        forall|p: Seq<u8>|
            p.len() <= gcm_max_plaintext() && #[trigger] aes_gcm_sealed(key@, nonce@, p)
                == ciphertext@ ==> bytes_view(r) == Some(p),
{
    let cipher = <aes_gcm::Aes256Gcm as aes_gcm::aead::KeyInit>::new(
        aes_gcm::Key::<aes_gcm::Aes256Gcm>::from_slice(key),
    );
    aes_gcm::aead::Aead::decrypt(&cipher, aes_gcm::Nonce::from_slice(nonce), ciphertext).ok()
}

/// `getrandom::getrandom` into a fresh buffer of `len` bytes. Nothing is
/// claimed of the bytes (they come from the OS random source), only their
/// number; the call may fail.
#[verifier::external_body]
pub(crate) fn os_random(len: usize) -> (r: Option<Vec<u8>>)
    ensures
        r matches Some(v) ==> v@.len() == len,
{
    let mut buf = vec![0u8; len];
    match getrandom::getrandom(&mut buf) {
        Ok(()) => Some(buf),
        Err(_) => None,
    }
}

/// `blob` is `nonce || AES-256-GCM(key, nonce, plain)` for some nonce, with
/// `plain` within the size AES-GCM accepts.
pub open spec fn encrypts(key: Seq<u8>, plain: Seq<u8>, blob: Seq<u8>) -> bool {
    &&& blob.len() >= 12
    &&& plain.len() <= gcm_max_plaintext()
    &&& blob.skip(12) == aes_gcm_sealed(key, blob.take(12), plain)
}

/// What decrypting `data` under `key` gives: nothing when it is shorter than
/// a nonce or its tag does not check out.
pub open spec fn decrypted(key: Seq<u8>, data: Seq<u8>) -> Option<Seq<u8>> {
    if data.len() < 12 {
        None
    } else {
        aes_gcm_opened(key, data.take(12), data.skip(12))
    }
}

/// What encrypting `plain` under `key` with `nonce` gives:
/// `nonce || ciphertext || tag`.
pub open spec fn sealed_with(key: Seq<u8>, nonce: Seq<u8>, plain: Seq<u8>) -> Seq<u8> {
    nonce + aes_gcm_sealed(key, nonce, plain)
}

/// Encrypt `plaintext` under `key` with the given 12-byte `nonce`. Returns
/// `nonce || ciphertext || tag`; fails when the plaintext is longer than
/// AES-GCM accepts.
pub fn encrypt_with_nonce(key: &[u8; 32], nonce: &[u8], plaintext: &[u8]) -> (r: Result<Vec<u8>, CoreError>)
    requires
        nonce@.len() == NONCE_LEN,
    ensures
        plaintext@.len() <= gcm_max_plaintext() ==> (r matches Ok(b) && b@ == sealed_with(
            key@,
            nonce@,
            plaintext@,
        ) && b@.len() == 12 + plaintext@.len() + 16),
        plaintext@.len() > gcm_max_plaintext() ==> r matches Err(CoreError::Encrypt),
        r matches Ok(b) ==> encrypts(key@, plaintext@, b@),
{
    let ct = match aes_gcm_encrypt(key, nonce, plaintext) {
        Some(c) => c,
        None => {
            return Err(CoreError::Encrypt);
        },
    };
    let mut out: Vec<u8> = Vec::new();
    let mut i: usize = 0;
    while i < nonce.len()
        invariant
            i <= nonce@.len(),
            out@ == nonce@.take(i as int),
        decreases nonce@.len() - i,
    {
        out.push(nonce[i]);
        i = i + 1;
        assert(out@ =~= nonce@.take(i as int));
    }
    let mut j: usize = 0;
    while j < ct.len()
        invariant
            j <= ct@.len(),
            nonce@.len() == 12,
            out@ == nonce@ + ct@.take(j as int),
        decreases ct@.len() - j,
    {
        out.push(ct[j]);
        j = j + 1;
        assert(out@ =~= nonce@ + ct@.take(j as int));
    }
    assert(nonce@.take(12) =~= nonce@);
    assert(out@.take(12) =~= nonce@);
    assert(out@.skip(12) =~= ct@);
    assert(ct@.take(ct@.len() as int) =~= ct@);
    Ok(out)
}

/// Encrypt `plaintext` under `key` with a fresh random nonce. Returns
/// `nonce || ciphertext || tag`.
pub fn encrypt(key: &[u8; 32], plaintext: &[u8]) -> (r: Result<Vec<u8>, CoreError>)
    ensures
        r matches Ok(b) ==> encrypts(key@, plaintext@, b@) && b@.len() == 12 + plaintext@.len() + 16
            && b@ == sealed_with(key@, b@.take(12), plaintext@),
        r matches Err(e) ==> e is Encrypt,
        plaintext@.len() > gcm_max_plaintext() ==> r is Err,
{
    let nonce = match os_random(NONCE_LEN) {
        Some(n) => n,
        None => {
            return Err(CoreError::Encrypt);
        },
    };
    let r = encrypt_with_nonce(key, nonce.as_slice(), plaintext);
    proof {
        if r is Ok {
            assert(nonce@ + aes_gcm_sealed(key@, nonce@, plaintext@) =~= sealed_with(key@, nonce@, plaintext@));
            let b = r->Ok_0@;
            assert(b.take(12) =~= nonce@);
        }
    }
    r
}

/// Decrypt a blob produced by [`encrypt`]. Fails with `Decrypt` on a wrong
/// key, tampered data, or input shorter than a nonce.
pub fn decrypt(key: &[u8; 32], data: &[u8]) -> (r: Result<Vec<u8>, CoreError>)
    ensures
        r matches Ok(p) ==> decrypted(key@, data@) == Some(p@),
        r matches Err(e) ==> e is Decrypt && decrypted(key@, data@) is None,
        forall|p: Seq<u8>| #[trigger] encrypts(key@, p, data@) ==> (r matches Ok(q) && q@ == p),
{
    if data.len() < NONCE_LEN {
        return Err(CoreError::Decrypt);
    }
    let nonce = copy_range(data, 0, NONCE_LEN);
    let ct = copy_range(data, NONCE_LEN, data.len());
    assert(nonce@ =~= data@.take(12));
    assert(ct@ =~= data@.skip(12));
    match aes_gcm_decrypt(key, nonce.as_slice(), ct.as_slice()) {
        Some(p) => Ok(p),
        None => Err(CoreError::Decrypt),
    }
}

} // verus!
