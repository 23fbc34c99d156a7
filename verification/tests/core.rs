use salvae::chunk::{join, split};
use salvae::cipher::{decrypt, encrypt, encrypt_with_nonce, NONCE_LEN};
use salvae::compress::{compress, decompress, DEFAULT_LEVEL};
use salvae::error::{ConfigError, CoreError, DetectError, SyncError, VaultError};
use salvae::hash::content_hash;
use salvae::kdf::{derive_key, generate_salt, KEY_LEN, SALT_LEN};
use salvae::seal::{open, seal, seal_with_nonce};
use salvae::seed::{open_from_token, seal_to_token, seal_to_token_with_nonce, seed_from_message};

#[test]
fn splits_into_bounded_chunks_and_rejoins() {
    let data: Vec<u8> = (0..=255u8).collect(); // 256 bytes
    let chunks = split(&data, 100).unwrap();
    assert_eq!(chunks.len(), 3); // 100 + 100 + 56
    assert_eq!(chunks[0].len(), 100);
    assert_eq!(chunks[2].len(), 56);
    assert_eq!(join(&chunks), data);
}

#[test]
fn data_smaller_than_chunk_is_single_chunk() {
    let data = vec![1, 2, 3];
    let chunks = split(&data, 100).unwrap();
    assert_eq!(chunks.len(), 1);
    assert_eq!(join(&chunks), data);
}

#[test]
fn empty_data_produces_one_empty_chunk() {
    let chunks = split(&[], 100).unwrap();
    assert_eq!(chunks.len(), 1);
    assert!(chunks[0].is_empty());
    assert_eq!(join(&chunks), Vec::<u8>::new());
}

#[test]
fn zero_max_size_is_rejected() {
    assert!(matches!(split(&[1, 2, 3], 0), Err(CoreError::Chunk(_))));
}

#[test]
fn chunk_of_exactly_max_size_is_single_piece() {
    let data = vec![7u8; 100];
    let chunks = split(&data, 100).unwrap();
    assert_eq!(chunks.len(), 1);
    assert_eq!(chunks[0], data);
    let chunks = split(&vec![7u8; 101], 100).unwrap();
    assert_eq!(chunks.len(), 2);
    assert_eq!(chunks[1], vec![7u8]);
}

#[test]
fn zero_max_size_message() {
    match split(&[1], 0) {
        Err(e) => assert_eq!(e.to_string(), "invalid chunk data: max_size must be greater than 0"),
        Ok(_) => panic!("expected an error"),
    }
}

#[test]
fn seal_then_open_recovers_plaintext() {
    let key = [5u8; 32];
    let data = b"Valheim world data ".repeat(200);
    let blob = seal(&key, &data).unwrap();
    assert_eq!(open(&key, &blob).unwrap(), data);
}

#[test]
fn sealed_blob_is_not_plaintext() {
    let key = [5u8; 32];
    let data = b"plain readable text".repeat(20);
    let blob = seal(&key, &data).unwrap();
    // The plaintext substring must not appear verbatim in the sealed blob.
    assert!(blob.windows(data.len()).all(|w| w != &data[..]));
}

#[test]
fn wrong_key_cannot_open() {
    let blob = seal(&[1u8; 32], b"secret save").unwrap();
    assert!(matches!(open(&[2u8; 32], &blob), Err(CoreError::Decrypt)));
}

#[test]
fn open_of_short_blob_is_decrypt_error() {
    assert!(matches!(open(&[1u8; 32], &[0u8; 5]), Err(CoreError::Decrypt)));
}

#[test]
fn token_round_trips_with_the_right_key() {
    let key = [7u8; 32];
    let token = seal_to_token(&key, b"hello metadata").unwrap();
    assert_eq!(open_from_token(&key, &token).unwrap(), b"hello metadata");
}

#[test]
fn wrong_key_or_garbage_decodes_to_none() {
    let token = seal_to_token(&[1u8; 32], b"secret").unwrap();
    assert!(open_from_token(&[2u8; 32], &token).is_none());
    assert!(open_from_token(&[1u8; 32], "not base64!!").is_none());
}

#[test]
fn token_with_surrounding_whitespace_still_opens() {
    let key = [3u8; 32];
    let token = seal_to_token(&key, b"x").unwrap();
    let padded = format!("  {token}\n");
    assert_eq!(open_from_token(&key, &padded).unwrap(), b"x");
}

#[test]
fn seed_is_extracted_from_a_friendly_message() {
    let msg = "Milana sincronizou: Valheim\n\nSeed: AAAA";
    assert_eq!(seed_from_message(msg).as_deref(), Some("AAAA"));
    assert!(seed_from_message("just a normal chat line").is_none());
}

#[test]
fn seed_line_may_be_indented_and_crlf_terminated() {
    assert_eq!(seed_from_message("hi\r\n   Seed:  BBBB  \r\nrest").as_deref(), Some("BBBB"));
    // The first Seed line wins.
    assert_eq!(seed_from_message("Seed: one\nSeed: two").as_deref(), Some("one"));
    // The label must start the line.
    assert!(seed_from_message("see Seed: CCC").is_none());
}

#[test]
fn round_trip_recovers_plaintext() {
    let key = [9u8; 32];
    let msg = b"save data: world seed 12345";
    let blob = encrypt(&key, msg).unwrap();
    let back = decrypt(&key, &blob).unwrap();
    assert_eq!(back, msg);
}

#[test]
fn ciphertext_is_not_plaintext_and_has_nonce_prefix() {
    let key = [9u8; 32];
    let msg = b"hello";
    let blob = encrypt(&key, msg).unwrap();
    assert!(blob.len() > NONCE_LEN + msg.len()); // nonce + ciphertext + 16-byte tag
    assert_ne!(&blob[NONCE_LEN..NONCE_LEN + msg.len()], msg);
}

#[test]
fn ciphertext_length_is_nonce_plus_text_plus_tag() {
    let blob = encrypt(&[4u8; 32], b"abcdef").unwrap();
    assert_eq!(blob.len(), 12 + 6 + 16);
}

#[test]
fn two_encryptions_differ_due_to_random_nonce() {
    let key = [9u8; 32];
    let a = encrypt(&key, b"same").unwrap();
    let b = encrypt(&key, b"same").unwrap();
    assert_ne!(a, b);
}

#[test]
fn wrong_key_fails_to_decrypt() {
    let blob = encrypt(&[1u8; 32], b"secret").unwrap();
    let err = decrypt(&[2u8; 32], &blob);
    assert!(matches!(err, Err(CoreError::Decrypt)));
}

#[test]
fn tampered_ciphertext_fails_to_decrypt() {
    let key = [9u8; 32];
    let mut blob = encrypt(&key, b"secret").unwrap();
    let last = blob.len() - 1;
    blob[last] ^= 0xFF;
    assert!(matches!(decrypt(&key, &blob), Err(CoreError::Decrypt)));
}

#[test]
fn too_short_input_fails_to_decrypt() {
    assert!(matches!(decrypt(&[0u8; 32], &[0u8; 4]), Err(CoreError::Decrypt)));
}

#[test]
fn round_trip_recovers_data() {
    let data = b"AAAAAAAAAAAAAAAAAAAAAAAAAAAAAAAABBBBBBBBBB".repeat(50);
    let packed = compress(&data, DEFAULT_LEVEL).unwrap();
    let back = decompress(&packed).unwrap();
    assert_eq!(back, data);
}

#[test]
fn compressible_data_gets_smaller() {
    let data = vec![0u8; 10_000];
    let packed = compress(&data, DEFAULT_LEVEL).unwrap();
    assert!(packed.len() < data.len());
}

#[test]
fn empty_round_trips() {
    let packed = compress(&[], DEFAULT_LEVEL).unwrap();
    assert_eq!(decompress(&packed).unwrap(), Vec::<u8>::new());
}

#[test]
fn garbage_fails_to_decompress() {
    assert!(matches!(decompress(&[1, 2, 3, 4]), Err(CoreError::Decompress(_))));
}

#[test]
fn same_content_same_hash() {
    assert_eq!(content_hash(b"abc"), content_hash(b"abc"));
}

#[test]
fn different_content_different_hash() {
    assert_ne!(content_hash(b"abc"), content_hash(b"abd"));
}

#[test]
fn hash_is_64_hex_chars() {
    let h = content_hash(b"anything");
    assert_eq!(h.len(), 64);
    assert!(h.chars().all(|c| c.is_ascii_hexdigit()));
}

#[test]
fn hash_of_empty_input_is_the_blake3_empty_digest() {
    assert_eq!(
        content_hash(b""),
        "af1349b9f5f9a1a6a0404dea36dcc9499bcb25c9adc112b7cc9a93cae41f3262"
    );
}

#[test]
fn same_password_and_salt_yield_same_key() {
    let salt = [7u8; SALT_LEN];
    let a = derive_key("hunter2", &salt).unwrap();
    let b = derive_key("hunter2", &salt).unwrap();
    assert_eq!(a, b);
    assert_eq!(a.len(), KEY_LEN);
}

#[test]
fn different_password_yields_different_key() {
    let salt = [7u8; SALT_LEN];
    let a = derive_key("hunter2", &salt).unwrap();
    let b = derive_key("hunter3", &salt).unwrap();
    assert_ne!(a, b);
}

#[test]
fn different_salt_yields_different_key() {
    let a = derive_key("hunter2", &[1u8; SALT_LEN]).unwrap();
    let b = derive_key("hunter2", &[2u8; SALT_LEN]).unwrap();
    assert_ne!(a, b);
}

#[test]
fn short_salt_is_a_kdf_error() {
    match derive_key("pw", &[1u8; 7]) {
        Err(e) => assert_eq!(e.to_string(), "key derivation failed: salt is too short"),
        Ok(_) => panic!("expected an error"),
    }
    assert!(derive_key("pw", &[1u8; 8]).is_ok());
}

#[test]
fn generated_salts_differ() {
    let a = generate_salt().unwrap();
    let b = generate_salt().unwrap();
    assert_eq!(a.len(), SALT_LEN);
    assert_ne!(a, b);
}

#[test]
fn full_save_pipeline_round_trips() {
    let key = derive_key("group-pw", &[3u8; SALT_LEN]).unwrap();
    let data = b"a save file".repeat(300);
    let blob = seal(&key, &data).unwrap();
    let chunks = split(&blob, 1000).unwrap();
    let back = open(&key, &join(&chunks)).unwrap();
    assert_eq!(back, data);
}

#[test]
fn wrong_password_cannot_open_pipeline() {
    let right = derive_key("right", &[3u8; SALT_LEN]).unwrap();
    let wrong = derive_key("wrong", &[3u8; SALT_LEN]).unwrap();
    let blob = seal(&right, b"save").unwrap();
    assert!(matches!(open(&wrong, &blob), Err(CoreError::Decrypt)));
}

#[test]
fn error_messages_are_human_readable() {
    assert_eq!(
        CoreError::Decrypt.to_string(),
        "decryption failed (wrong password or corrupted data)"
    );
    assert_eq!(CoreError::Kdf("boom".into()).to_string(), "key derivation failed: boom");
    assert_eq!(DetectError::Parse("bad".into()).to_string(), "parse error: bad");
    assert_eq!(DetectError::Io("disk".into()).to_string(), "io error: disk");
}

#[test]
fn lib_error_messages_are_human_readable() {
    assert_eq!(
        ConfigError::WrongPassword.to_string(),
        "wrong password or corrupted invite"
    );
    assert_eq!(
        ConfigError::GroupNotFound("g1".into()).to_string(),
        "group not found: g1"
    );
    assert_eq!(SyncError::Pack("boom".into()).to_string(), "pack error: boom");
    assert_eq!(SyncError::Io("disk".into()).to_string(), "io error: disk");
}

#[test]
fn nested_error_messages_include_the_cause() {
    assert_eq!(
        ConfigError::Core(CoreError::Encrypt).to_string(),
        "core error: encryption failed"
    );
    assert_eq!(
        SyncError::Vault(VaultError::Transport("down".into())).to_string(),
        "vault error: transport error: down"
    );
    assert_eq!(
        SyncError::Core(CoreError::Compress("x".into())).to_string(),
        "crypto error: compression failed: x"
    );
}

#[test]
fn core_errors_convert() {
    let v: ConfigError = CoreError::Decrypt.into();
    assert!(matches!(v, ConfigError::Core(_)));
}

#[test]
fn vault_errors_convert() {
    let v: SyncError = VaultError::NotFound.into();
    assert!(matches!(v, SyncError::Vault(_)));
    let c: SyncError = CoreError::Encrypt.into();
    assert!(matches!(c, SyncError::Core(_)));
}

#[test]
fn encryption_with_a_given_nonce_is_exact() {
    let key = [9u8; 32];
    let nonce = [5u8; NONCE_LEN];
    let a = encrypt_with_nonce(&key, &nonce, b"save data").unwrap();
    let b = encrypt_with_nonce(&key, &nonce, b"save data").unwrap();
    assert_eq!(a, b);
    assert_eq!(&a[..NONCE_LEN], &nonce);
    assert_eq!(a.len(), NONCE_LEN + 9 + 16);
    assert_eq!(decrypt(&key, &a).unwrap(), b"save data");
    assert_ne!(encrypt_with_nonce(&key, &[6u8; NONCE_LEN], b"save data").unwrap(), a);
}

#[test]
fn sealing_with_a_given_nonce_is_exact() {
    let key = [9u8; 32];
    let nonce = [5u8; NONCE_LEN];
    let blob = seal_with_nonce(&key, &nonce, b"world.db contents").unwrap();
    assert_eq!(blob, seal_with_nonce(&key, &nonce, b"world.db contents").unwrap());
    assert_eq!(&blob[..NONCE_LEN], &nonce);
    assert_eq!(open(&key, &blob).unwrap(), b"world.db contents");
    let compressed = compress(b"world.db contents", DEFAULT_LEVEL).unwrap();
    assert_eq!(blob, encrypt_with_nonce(&key, &nonce, &compressed).unwrap());
    let token = seal_to_token_with_nonce(&key, &nonce, b"world.db contents").unwrap();
    assert_eq!(open_from_token(&key, &token).unwrap(), b"world.db contents");
    assert_eq!(token, seal_to_token_with_nonce(&key, &nonce, b"world.db contents").unwrap());
}
