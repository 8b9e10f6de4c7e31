use omegaupload::crypto::{open_in_place, seal_in_place, Error, Key, Nonce, Salt};

#[test]
fn roundtrip_no_password() {
    let mut buffer = b"hello world".to_vec();
    let key = seal_in_place(&mut buffer, None).unwrap();
    assert_ne!(buffer, b"hello world".to_vec());
    open_in_place(&mut buffer, &key, None).unwrap();
    assert_eq!(buffer, b"hello world".to_vec());
}

#[test]
fn roundtrip_empty_message() {
    let mut buffer = Vec::new();
    let key = seal_in_place(&mut buffer, None).unwrap();
    assert_eq!(buffer.len(), 16 + 24);
    open_in_place(&mut buffer, &key, None).unwrap();
    assert!(buffer.is_empty());
}

#[test]
fn roundtrip_large_message() {
    let message: Vec<u8> = (0..65536u32).map(|v| (v % 251) as u8).collect();
    let mut buffer = message.clone();
    let key = seal_in_place(&mut buffer, None).unwrap();
    open_in_place(&mut buffer, &key, None).unwrap();
    assert_eq!(buffer, message);
}

#[test]
fn roundtrip_with_password() {
    let password = b"correct horse battery staple".to_vec();
    let mut buffer = b"attack at dawn".to_vec();
    let key = seal_in_place(&mut buffer, Some(password.clone())).unwrap();
    open_in_place(&mut buffer, &key, Some(password)).unwrap();
    assert_eq!(buffer, b"attack at dawn".to_vec());
}

#[test]
fn sealed_length_no_password() {
    // 11 message bytes + 16-byte tag + 24-byte nonce.
    let mut buffer = b"hello world".to_vec();
    let key = seal_in_place(&mut buffer, None).unwrap();
    assert_eq!(buffer.len(), 11 + 16 + 24);
    open_in_place(&mut buffer, &key, None).unwrap();
    assert_eq!(buffer, b"hello world".to_vec());
}

#[test]
fn sealed_length_with_password() {
    // 5 message bytes + two 16-byte tags + 24-byte nonce + 16-byte salt.
    let mut buffer = b"later".to_vec();
    seal_in_place(&mut buffer, Some(b"pw".to_vec())).unwrap();
    assert_eq!(buffer.len(), 5 + 16 + 16 + 24 + 16);
}

#[test]
fn wrong_password_rejected() {
    let mut buffer = b"secret contents".to_vec();
    let key = seal_in_place(&mut buffer, Some(b"first".to_vec())).unwrap();
    let result = open_in_place(&mut buffer, &key, Some(b"second".to_vec()));
    assert_eq!(result.unwrap_err(), Error::Password);
}

#[test]
fn wrong_key_rejected() {
    let mut buffer = b"secret contents".to_vec();
    let _key = seal_in_place(&mut buffer, None).unwrap();
    let other_key = Key::new_secret(vec![0xAB; 32]).unwrap();
    let result = open_in_place(&mut buffer, &other_key, None);
    assert_eq!(result.unwrap_err(), Error::SecretKey);
}

#[test]
fn corrupted_buffer_rejected() {
    let mut buffer = b"payload".to_vec();
    let key = seal_in_place(&mut buffer, None).unwrap();
    buffer[0] ^= 0x01;
    let result = open_in_place(&mut buffer, &key, None);
    assert_eq!(result.unwrap_err(), Error::SecretKey);
}

#[test]
fn truncated_buffer_rejected() {
    let key = Key::new_secret(vec![7; 32]).unwrap();
    let mut short = vec![1u8, 2, 3];
    assert_eq!(open_in_place(&mut short, &key, None).unwrap_err(), Error::SecretKey);
    let mut short_for_salt = vec![0u8; 30];
    assert_eq!(
        open_in_place(&mut short_for_salt, &key, Some(b"pw".to_vec())).unwrap_err(),
        Error::SecretKey
    );
}

#[test]
fn missing_password_fails_to_open() {
    let mut buffer = b"guarded".to_vec();
    let key = seal_in_place(&mut buffer, Some(b"pw".to_vec())).unwrap();
    assert!(open_in_place(&mut buffer, &key, None).is_err());
}

#[test]
fn key_wrapping_and_zeroize() {
    assert!(Key::new_secret(vec![1; 31]).is_none());
    assert!(Key::new_secret(vec![1; 33]).is_none());
    let mut key = Key::new_secret(vec![9; 32]).unwrap();
    assert_eq!(key.expose_secret().len(), 32);
    assert_eq!(key.expose_secret()[0], 9);
    key.zeroize();
    assert!(key.expose_secret().iter().all(|&b| b == 0));
}

#[test]
fn nonce_increment_changes_first_byte_only() {
    let mut raw = vec![0u8; 24];
    raw[1] = 200;
    let nonce = Nonce::from_slice(&raw);
    let bumped = nonce.increment();
    assert_eq!(bumped.as_bytes()[0], 1);
    assert_eq!(bumped.as_bytes()[1], 200);
    assert_eq!(bumped.as_bytes().len(), 24);

    let mut wrapping = vec![0u8; 24];
    wrapping[0] = 255;
    let wrapped = Nonce::from_slice(&wrapping).increment();
    assert_eq!(wrapped.as_bytes()[0], 0);
}

#[test]
fn salt_is_salt_length() {
    assert_eq!(Salt::random().as_bytes().len(), 16);
}

#[test]
fn error_messages_name_the_failure() {
    assert_eq!(Error::Password.message(), "invalid password");
    assert_eq!(Error::SecretKey.message(), "invalid secret key");
    assert!(!Error::Encryption.message().is_empty());
    assert!(!Error::Kdf.message().is_empty());
}
