use omegaupload::base64;
use omegaupload::crypto::Key;
use omegaupload::fragment::{Builder, ParseUrlError, PartialParsedUrl, PartialParsedUrlParseError};

const DECRYPTION_KEY_STRING: &str = "ddLod7sGy_EjFDjWqZoH4i5n_XU8bIpEuEo3-pjfAIE=";

fn decryption_key() -> Option<Key> {
    Key::new_secret(base64::decode(DECRYPTION_KEY_STRING).unwrap())
}

#[test]
fn empty() {
    assert_eq!("".parse(), Ok(PartialParsedUrl::default()));
}

#[test]
fn clean_no_password() {
    assert_eq!(
        DECRYPTION_KEY_STRING.parse(),
        Ok(PartialParsedUrl {
            decryption_key: decryption_key(),
            ..Default::default()
        })
    );
}

#[test]
fn no_password() {
    let input = "key:ddLod7sGy_EjFDjWqZoH4i5n_XU8bIpEuEo3-pjfAIE=";
    assert_eq!(
        input.parse(),
        Ok(PartialParsedUrl {
            decryption_key: decryption_key(),
            ..Default::default()
        })
    );
}

#[test]
fn with_password() {
    let input = "key:ddLod7sGy_EjFDjWqZoH4i5n_XU8bIpEuEo3-pjfAIE=!pw";
    assert_eq!(
        input.parse(),
        Ok(PartialParsedUrl {
            decryption_key: decryption_key(),
            needs_password: true,
            ..Default::default()
        })
    );
}

#[test]
fn with_name() {
    let input = "key:ddLod7sGy_EjFDjWqZoH4i5n_XU8bIpEuEo3-pjfAIE=!name:test_file.rs";
    assert_eq!(
        input.parse(),
        Ok(PartialParsedUrl {
            decryption_key: decryption_key(),
            name: Some("test_file.rs".to_owned()),
            ..Default::default()
        })
    );
}

#[test]
fn with_lang() {
    let input = "key:ddLod7sGy_EjFDjWqZoH4i5n_XU8bIpEuEo3-pjfAIE=!lang:rust";
    assert_eq!(
        input.parse(),
        Ok(PartialParsedUrl {
            decryption_key: decryption_key(),
            language: Some("rust".to_owned()),
            ..Default::default()
        })
    );
}

#[test]
fn order_does_not_matter() {
    let input = "pw!key:ddLod7sGy_EjFDjWqZoH4i5n_XU8bIpEuEo3-pjfAIE=";
    assert_eq!(
        input.parse(),
        Ok(PartialParsedUrl {
            decryption_key: decryption_key(),
            needs_password: true,
            ..Default::default()
        })
    );
}

#[test]
fn empty_key_pair_gracefully_fails() {
    let input = "!!!key:ddLod7sGy_EjFDjWqZoH4i5n_XU8bIpEuEo3-pjfAIE=!!!";
    assert_eq!(
        input.parse(),
        Ok(PartialParsedUrl {
            decryption_key: decryption_key(),
            ..Default::default()
        })
    );
}

#[test]
fn invalid_decryption_key_fails() {
    assert!("invalid key".parse::<PartialParsedUrl>().is_err());
}

#[test]
fn unknown_fields_fail() {
    assert!("!!a!!b!!c".parse::<PartialParsedUrl>().is_err());
}

#[test]
fn malformed_key_segment_rejected() {
    // "not-valid-base64" is base64url text of twelve bytes: not a key.
    assert_eq!(
        "key:not-valid-base64!!!".parse::<PartialParsedUrl>(),
        Err(PartialParsedUrlParseError::InvalidDecryptionKey)
    );
}

#[test]
fn password_and_name_segments() {
    let key_text = "A".repeat(43) + "=";
    let input = format!("key:{}!pw!name:test.txt", key_text);
    let parsed: PartialParsedUrl = input.parse().unwrap();
    assert!(parsed.needs_password);
    assert_eq!(parsed.name, Some("test.txt".to_owned()));
    assert_eq!(
        parsed.decryption_key,
        Key::new_secret(base64::decode(&key_text).unwrap())
    );
}

#[test]
fn builder_bare_key() {
    let built = Builder::new(DECRYPTION_KEY_STRING.to_owned()).build();
    assert_eq!(built, DECRYPTION_KEY_STRING);
}

#[test]
fn builder_all_segments() {
    let built = Builder::new(DECRYPTION_KEY_STRING.to_owned())
        .needs_password()
        .file_name("notes.md".to_owned())
        .language("markdown".to_owned())
        .build();
    assert_eq!(
        built,
        format!("key:{DECRYPTION_KEY_STRING}!pw!name:notes.md!lang:markdown")
    );
}

#[test]
fn build_then_parse_round_trip() {
    let raw_key: Vec<u8> = (0u8..32).collect();
    let encoded = base64::encode(&raw_key);
    let built = Builder::new(encoded)
        .needs_password()
        .file_name("report.pdf".to_owned())
        .language("latex".to_owned())
        .build();
    let parsed: PartialParsedUrl = built.parse().unwrap();
    assert_eq!(parsed.decryption_key, Key::new_secret(raw_key));
    assert!(parsed.needs_password);
    assert_eq!(parsed.name, Some("report.pdf".to_owned()));
    assert_eq!(parsed.language, Some("latex".to_owned()));
}

#[test]
fn bare_key_round_trip() {
    let raw_key: Vec<u8> = (100u8..132).collect();
    let built = Builder::new(base64::encode(&raw_key)).build();
    let parsed: PartialParsedUrl = built.parse().unwrap();
    assert_eq!(parsed.decryption_key, Key::new_secret(raw_key));
    assert!(!parsed.needs_password);
    assert_eq!(parsed.name, None);
    assert_eq!(parsed.language, None);
}

#[test]
fn url_fragment_needs_key() {
    assert_eq!(
        omegaupload::fragment::parse_url_fragment("").unwrap_err(),
        ParseUrlError::NeedKey
    );
    assert_eq!(
        omegaupload::fragment::parse_url_fragment("pw!monkey:b").unwrap_err(),
        ParseUrlError::NeedKey
    );
    let (key, needs_password) =
        omegaupload::fragment::parse_url_fragment(&format!("key:{DECRYPTION_KEY_STRING}!pw"))
            .unwrap();
    assert_eq!(Some(key), decryption_key());
    assert!(needs_password);
}

#[test]
fn short_key_segment_rejected() {
    // 40 base64url characters decode to 29 bytes: not a full-length key.
    let input = format!("key:{}=!pw!name:test.txt", "A".repeat(39));
    assert_eq!(
        input.parse::<PartialParsedUrl>(),
        Err(PartialParsedUrlParseError::InvalidDecryptionKey)
    );
}
