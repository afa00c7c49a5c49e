use hypercompress::crypto::{decrypt, encrypt, NONCE_LEN, SALT_LEN};

#[test]
fn crypto_roundtrip() {
    let data = b"secret data that must be protected";
    let enc = encrypt(data, "mypassword123");
    let dec = decrypt(&enc, "mypassword123").unwrap();
    assert_eq!(&dec[..], &data[..]);
}

#[test]
fn wrong_password_fails() {
    let enc = encrypt(b"secret", "correct");
    assert!(decrypt(&enc, "wrong").is_err());
}

#[test]
fn different_encryptions_differ() {
    let data = b"same data";
    let e1 = encrypt(data, "pass");
    let e2 = encrypt(data, "pass");
    assert_ne!(e1, e2);
}

#[test]
fn ciphertext_layout_has_salt_nonce_and_tag() {
    let data = b"twelve bytes";
    let enc = encrypt(data, "pw");
    // salt, nonce, then the ciphertext with its 16-byte tag
    assert_eq!(enc.len(), SALT_LEN + NONCE_LEN + data.len() + 16);
    assert_ne!(&enc[SALT_LEN + NONCE_LEN..SALT_LEN + NONCE_LEN + data.len()], &data[..]);
}

#[test]
fn too_short_input_is_refused() {
    assert!(decrypt(&[0u8; 10], "pw").is_err());
    assert_eq!(decrypt(&[0u8; 43], "pw"), Err("data too short"));
}

#[test]
fn tampered_ciphertext_is_refused() {
    let mut enc = encrypt(b"do not touch", "pw");
    let last = enc.len() - 1;
    enc[last] ^= 0x01;
    assert_eq!(decrypt(&enc, "pw"), Err("wrong password or corrupted data"));
}

#[test]
fn empty_plaintext_roundtrip() {
    let enc = encrypt(b"", "pw");
    assert_eq!(decrypt(&enc, "pw").unwrap(), Vec::<u8>::new());
}
