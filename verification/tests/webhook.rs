use server::webhook::{generate_secret, hex_encode, verify_secret};

#[test]
fn secret_is_unique_and_hex() {
    let a = generate_secret().unwrap();
    let b = generate_secret().unwrap();
    assert_eq!(a.len(), 64);
    assert!(a.chars().all(|c| c.is_ascii_hexdigit()));
    assert_ne!(a, b);
}

#[test]
fn verify_matches_only_exact() {
    let secret = generate_secret().unwrap();
    assert!(verify_secret(&secret, &secret));
    assert!(!verify_secret(&secret, "wrong"));
    assert!(!verify_secret(&secret, ""));
    assert!(!verify_secret("", ""));
}

#[test]
fn hex_encoding_is_lowercase_two_digits_per_byte() {
    assert_eq!(hex_encode(&[0x00, 0x0f, 0xa0, 0xff]), "000fa0ff");
    assert!(!verify_secret("abcd", "abce"));
    assert!(verify_secret("é", "é"));
}
