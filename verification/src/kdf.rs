//! Password-based key derivation (Argon2id).
use vstd::prelude::*;

use crate::cipher::os_random;
use crate::error::CoreError;
use vstd::utf8::encode_utf8;

verus! {

/// Length in bytes of a derived key (AES-256).
pub const KEY_LEN: usize = 32;

/// Length in bytes of a generated salt.
pub const SALT_LEN: usize = 16;

/// Argon2id (version 0x13, default parameters) of `password` with `salt`,
/// into a 32-byte key.
pub uninterp spec fn argon2id_key(password: Seq<u8>, salt: Seq<u8>) -> Seq<u8>;

/// When Argon2 accepts the inputs: a password of at most `0xFFFF_FFFF` bytes
/// and a salt of 8 to `0xFFFF_FFFF` bytes.
pub open spec fn argon2_accepts(password: Seq<u8>, salt: Seq<u8>) -> bool {
    password.len() <= 0xFFFF_FFFF && 8 <= salt.len() <= 0xFFFF_FFFF
}

/// The text of the error Argon2 reports for inputs it does not accept.
pub open spec fn argon2_refusal(password: Seq<u8>, salt: Seq<u8>) -> Seq<char> {
    if password.len() > 0xFFFF_FFFF {
        "password is too long"@
    } else if salt.len() < 8 {
        "salt is too short"@
    } else {
        "salt is too long"@
    }
}

/// `Argon2::hash_password_into` with Argon2id, version 0x13 and default
/// parameters, into a 32-byte buffer. The contract claims what the crate's
/// source shows: with a 32-byte output the call fails exactly when the
/// password or salt length is out of range, with the error texts of its
/// `Display`; otherwise the key is a function of password and salt.
#[verifier::external_body]
fn argon2id_hash(password: &[u8], salt: &[u8]) -> (r: Result<[u8; 32], String>)
    ensures
        r is Ok <==> argon2_accepts(password@, salt@),
        r matches Ok(k) ==> k@ == argon2id_key(password@, salt@),
        r matches Err(m) ==> m@ == argon2_refusal(password@, salt@),
{
    let argon2 = argon2::Argon2::new(
        argon2::Algorithm::Argon2id,
        argon2::Version::V0x13,
        argon2::Params::default(),
    );
    let mut key = [0u8; 32];
    match argon2.hash_password_into(password, salt, &mut key) {
        Ok(()) => Ok(key),
        Err(e) => Err(e.to_string()),
    }
}

/// Derive a 32-byte key from `password` and `salt` using Argon2id.
pub fn derive_key(password: &str, salt: &[u8]) -> (r: Result<[u8; 32], CoreError>)
    ensures
        r is Ok <==> argon2_accepts(encode_utf8(password@), salt@),
        r matches Ok(k) ==> k@ == argon2id_key(encode_utf8(password@), salt@),
        r matches Err(e) ==> (e matches CoreError::Kdf(m) && m@ == argon2_refusal(
            encode_utf8(password@),
            salt@,
        )),
{
    match argon2id_hash(password.as_bytes(), salt) {
        Ok(k) => Ok(k),
        Err(m) => Err(CoreError::Kdf(m)),
    }
}

/// A fresh random 16-byte salt from the OS random source, or `None` when
/// that source fails.
pub fn generate_salt() -> (r: Option<Vec<u8>>)
    ensures
        r matches Some(s) ==> s@.len() == SALT_LEN,
{
    os_random(SALT_LEN)
}

} // verus!
