use omegaupload::short_code::{Generator, ShortCode};

#[test]
fn valid_code_accepted() {
    let code: ShortCode<12> = ShortCode::try_from_str("23CFcfghjmpq").unwrap();
    assert_eq!(code.as_bytes(), b"23CFcfghjmpq".to_vec());
}

#[test]
fn wrong_length_rejected() {
    assert!(ShortCode::<12>::try_from_str("23CF").is_none());
    assert!(ShortCode::<2>::try_from_str("23CF").is_none());
}

#[test]
fn characters_outside_alphabet_rejected() {
    // '0', '1', 'O' and 'l' are left out of the alphabet on purpose.
    assert!(ShortCode::<4>::try_from_str("0123").is_none());
    assert!(ShortCode::<4>::try_from_str("23Ol").is_none());
    assert!(ShortCode::<4>::try_from_str("23C\u{e9}").is_none());
}

#[test]
fn generator_covers_alphabet() {
    let expected = "23456789CFGHJMPQRVWXcfghjmpqrvwx";
    let drawn: String = (0..32).map(Generator::char_for).collect();
    assert_eq!(drawn, expected);
}
