use omegaupload::base64::{decode, encode, DecodeError};

#[test]
fn encode_known_values() {
    assert_eq!(encode(&Vec::new()), "");
    assert_eq!(encode(&b"f".to_vec()), "Zg==");
    assert_eq!(encode(&b"fo".to_vec()), "Zm8=");
    assert_eq!(encode(&b"foo".to_vec()), "Zm9v");
    assert_eq!(encode(&b"hello world".to_vec()), "aGVsbG8gd29ybGQ=");
}

#[test]
fn encode_uses_url_safe_alphabet() {
    // 0xfb 0xff encodes to characters outside the standard alphabet.
    assert_eq!(encode(&vec![0xfb, 0xff]), "-_8=");
}

#[test]
fn decode_inverts_encode() {
    let cases: Vec<Vec<u8>> = vec![
        Vec::new(),
        vec![0],
        vec![255],
        b"ab".to_vec(),
        b"hello world".to_vec(),
        (0u8..=255).collect(),
    ];
    for bytes in cases {
        assert_eq!(decode(&encode(&bytes)).unwrap(), bytes);
    }
}

#[test]
fn decode_accepts_unpadded_input() {
    assert_eq!(decode("Zm8").unwrap(), b"fo".to_vec());
    assert_eq!(decode("Zm9v").unwrap(), b"foo".to_vec());
}

#[test]
fn decode_rejects_bad_symbols() {
    assert_eq!(decode("Zm9!").unwrap_err(), DecodeError::InvalidSymbol);
    assert_eq!(decode("a bc").unwrap_err(), DecodeError::InvalidSymbol);
    assert_eq!(decode("Zm=v").unwrap_err(), DecodeError::InvalidSymbol);
}

#[test]
fn decode_rejects_bad_lengths() {
    assert_eq!(decode("Zm9vZ").unwrap_err(), DecodeError::InvalidLength);
    assert_eq!(decode("Zg=").unwrap_err(), DecodeError::InvalidLength);
}

#[test]
fn decode_rejects_nonzero_trailing_bits() {
    // 'B' carries low bits that no encoded byte string leaves behind.
    assert_eq!(decode("AB").unwrap_err(), DecodeError::InvalidLastSymbol);
    assert_eq!(decode("AAB").unwrap_err(), DecodeError::InvalidLastSymbol);
}
