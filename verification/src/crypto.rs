//! Password encryption: AES-256-GCM with a key derived by Argon2id.
//!
//! Format: `[16-byte salt] [12-byte nonce] [ciphertext with its 16-byte tag]`.
use vstd::prelude::*;
use aes_gcm::aead::{Aead, KeyInit};
use argon2::Argon2;
use rand::RngCore;
use crate::bytes::append_bytes;
use vstd::string::StringSliceAdditionalSpecFns;

verus! {

pub const SALT_LEN: usize = 16;
pub const NONCE_LEN: usize = 12;
pub const KEY_LEN: usize = 32;

/// The largest plaintext AES-GCM seals (2^36 bytes).
pub const MAX_PLAINTEXT: u64 = 0x10_0000_0000;

/// The 32-byte key Argon2id (default parameters) derives from a password and a salt.
pub uninterp spec fn argon2_key(password: Seq<u8>, salt: Seq<u8>) -> Seq<u8>;

/// The AES-256-GCM sealing of a plaintext (ciphertext and tag) under a key and nonce.
pub uninterp spec fn gcm_sealed(key: Seq<u8>, nonce: Seq<u8>, plaintext: Seq<u8>) -> Seq<u8>;

/// The AES-256-GCM opening of a ciphertext under a key and nonce: the plaintext, or `None`
/// when authentication fails.
pub uninterp spec fn gcm_opened(key: Seq<u8>, nonce: Seq<u8>, ciphertext: Seq<u8>) -> Option<Seq<u8>>;

/// Derives the key with `argon2::Argon2::default().hash_password_into`, which fails only for
/// passwords over `u32::MAX` bytes or salts outside 8 ..= `u32::MAX` bytes. Claims: 32 bytes,
/// the named function of password and salt.
#[verifier::external_body]
fn derive_key(password: &[u8], salt: &[u8]) -> (key: Vec<u8>)
    requires
        password@.len() <= u32::MAX,
        8 <= salt@.len() <= u32::MAX,
    ensures
        key@.len() == KEY_LEN,
        key@ == argon2_key(password@, salt@),
{
    let mut key = [0u8; KEY_LEN];
    let _ = Argon2::default().hash_password_into(password, salt, &mut key);
    key.to_vec()
}

/// `n` bytes from `rand::thread_rng().fill_bytes`. Claims only the length.
#[verifier::external_body]
fn random_bytes(n: usize) -> (r: Vec<u8>)
    ensures
        r@.len() == n,
{
    let mut v = vec![0u8; n];
    rand::thread_rng().fill_bytes(&mut v);
    v
}

/// Seals with `aes_gcm::Aes256Gcm::encrypt`, which fails only above `MAX_PLAINTEXT` bytes.
/// Claims: the result is the named sealing, 16 bytes (the tag) longer than the plaintext, and
/// opening it with the same key and nonce gives the plaintext back.
#[verifier::external_body]
fn gcm_encrypt(key: &[u8], nonce: &[u8], plaintext: &[u8]) -> (r: Vec<u8>)
    requires
        key@.len() == KEY_LEN,
        nonce@.len() == NONCE_LEN,
        plaintext@.len() <= MAX_PLAINTEXT,
    ensures
        r@ == gcm_sealed(key@, nonce@, plaintext@),
        r@.len() == plaintext@.len() + 16,
        gcm_opened(key@, nonce@, r@) == Some(plaintext@),
{
    let cipher = aes_gcm::Aes256Gcm::new_from_slice(key).unwrap();
    match cipher.encrypt(aes_gcm::Nonce::from_slice(nonce), plaintext) {
        Ok(c) => c,
        Err(_) => Vec::new(),
    }
}

/// Opens with `aes_gcm::Aes256Gcm::decrypt`. Claims: the result is the named opening.
#[verifier::external_body]
fn gcm_decrypt(key: &[u8], nonce: &[u8], ciphertext: &[u8]) -> (r: Option<Vec<u8>>)
    requires
        key@.len() == KEY_LEN,
        nonce@.len() == NONCE_LEN,
    ensures
        match r {
            Some(v) => gcm_opened(key@, nonce@, ciphertext@) == Some(v@),
            None => gcm_opened(key@, nonce@, ciphertext@) is None,
        },
{
    let cipher = aes_gcm::Aes256Gcm::new_from_slice(key).unwrap();
    cipher.decrypt(aes_gcm::Nonce::from_slice(nonce), ciphertext).ok()
}

/// What decrypting `data` with `password` gives: the plaintext, or an error when the input is
/// too short or does not authenticate.
pub open spec fn decrypted(data: Seq<u8>, password: Seq<u8>) -> Option<Seq<u8>> {
    if data.len() < SALT_LEN + NONCE_LEN + 16 {
        None
    } else {
        gcm_opened(
            argon2_key(password, data.subrange(0, 16)),
            data.subrange(16, 28),
            data.subrange(28, data.len() as int),
        )
    }
}

/// Encrypts `data` under `password` with a fresh random salt and nonce. Decrypting the result
/// with the same password gives the data back.
pub fn encrypt(data: &[u8], password: &str) -> (r: Vec<u8>)
    requires
        data@.len() <= MAX_PLAINTEXT,
        password.spec_bytes().len() <= u32::MAX,
    ensures
        decrypted(r@, password.spec_bytes()) == Some(data@),
        r@.len() >= SALT_LEN + NONCE_LEN,
        r@.subrange(28, r@.len() as int) == gcm_sealed(
            argon2_key(password.spec_bytes(), r@.subrange(0, 16)),
            r@.subrange(16, 28),
            data@,
        ),
{
    let salt = random_bytes(SALT_LEN);
    let nonce = random_bytes(NONCE_LEN);
    let key = derive_key(password.as_bytes(), salt.as_slice());
    let ciphertext = gcm_encrypt(key.as_slice(), nonce.as_slice(), data);
    let mut out: Vec<u8> = Vec::new();
    append_bytes(&mut out, salt.as_slice());
    append_bytes(&mut out, nonce.as_slice());
    append_bytes(&mut out, ciphertext.as_slice());
    proof {
        assert(out@.subrange(0, 16) =~= salt@);
        assert(out@.subrange(16, 28) =~= nonce@);
        assert(out@.subrange(28, out@.len() as int) =~= ciphertext@);
    }
    out
}

/// Decrypts `data` with `password`; an error when the input is too short to hold salt, nonce
/// and tag, or when it does not authenticate (wrong password or corrupted data).
pub fn decrypt(data: &[u8], password: &str) -> (r: Result<Vec<u8>, &'static str>)
    requires
        password.spec_bytes().len() <= u32::MAX,
    ensures
        match r {
            Ok(v) => decrypted(data@, password.spec_bytes()) == Some(v@),
            Err(_) => decrypted(data@, password.spec_bytes()) is None,
        },
        data@.len() < SALT_LEN + NONCE_LEN + 16 ==> r == Err::<Vec<u8>, &'static str>("data too short"),
        data@.len() >= SALT_LEN + NONCE_LEN + 16 && r is Err ==> r == Err::<Vec<u8>, &'static str>("wrong password or corrupted data"),
{
    if data.len() < SALT_LEN + NONCE_LEN + 16 {
        return Err("data too short");
    }
    let salt = &data[0..SALT_LEN];
    let nonce = &data[SALT_LEN..SALT_LEN + NONCE_LEN];
    let ciphertext = &data[SALT_LEN + NONCE_LEN..data.len()];
    let key = derive_key(password.as_bytes(), salt);
    match gcm_decrypt(key.as_slice(), nonce, ciphertext) {
        Some(v) => Ok(v),
        None => Err("wrong password or corrupted data"),
    }
}

} // verus!
