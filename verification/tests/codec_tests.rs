//! Codec behaviour: serialization shape, round trips, tamper detection.

use grimoire::codec::{decrypt_secret, encrypt_secret, parse_secret, serialize_secret};
use grimoire::errors::VaultError;
use grimoire::secret::Secret;

fn secret(name: &str, user: &str, pass: &str) -> Secret {
    Secret::new(name.to_string(), user.to_string(), pass.to_string()).unwrap()
}

fn key_a() -> Vec<u8> {
    vec![7u8; 32]
}

fn key_b() -> Vec<u8> {
    let mut k = vec![7u8; 32];
    k[31] = 8;
    k
}

#[test]
fn serialize_canonical_form() {
    let s = secret("github", "alice", "p@ss");
    let bytes = serialize_secret(&s);
    assert_eq!(
        String::from_utf8(bytes).unwrap(),
        "{\"name\":\"github\",\"username\":\"alice\",\"password\":\"p@ss\"}"
    );
}

#[test]
fn serialize_escapes_quote_and_backslash() {
    let s = secret("n", "u", "a\"b\\c");
    let bytes = serialize_secret(&s);
    assert_eq!(
        String::from_utf8(bytes).unwrap(),
        "{\"name\":\"n\",\"username\":\"u\",\"password\":\"a\\\"b\\\\c\"}"
    );
}

#[test]
fn encrypt_decrypt_round_trip() {
    let k = key_a();
    let s = secret("github", "alice", "p@ss");
    let blob = encrypt_secret(&k, &s).unwrap();
    let back = decrypt_secret(&k, &blob).unwrap();
    assert_eq!(back.name().as_str(), "github");
    assert_eq!(back.username().as_str(), "alice");
    assert_eq!(back.password().as_str(), "p@ss");
}

#[test]
fn encrypt_decrypt_round_trip_unicode() {
    let k = key_a();
    let s = secret("bücher", "ünïcode", "pässwörd ωμέγα");
    let blob = encrypt_secret(&k, &s).unwrap();
    let back = decrypt_secret(&k, &blob).unwrap();
    assert_eq!(back.name().as_str(), "bücher");
    assert_eq!(back.username().as_str(), "ünïcode");
    assert_eq!(back.password().as_str(), "pässwörd ωμέγα");
}

#[test]
fn image_size_is_plaintext_plus_28() {
    let k = key_a();
    let s = secret("github", "alice", "p@ss");
    let plain = serialize_secret(&s);
    assert_eq!(plain.len(), 54);
    let blob = encrypt_secret(&k, &s).unwrap();
    assert_eq!(blob.len(), 28 + 54);
}

#[test]
fn wrong_key_is_rejected() {
    let s = secret("github", "alice", "p@ss");
    let blob = encrypt_secret(&key_a(), &s).unwrap();
    assert!(matches!(decrypt_secret(&key_b(), &blob), Err(VaultError::AuthTag)));
}

#[test]
fn every_flipped_byte_is_rejected() {
    let k = key_a();
    let s = secret("n", "u", "p");
    let blob = encrypt_secret(&k, &s).unwrap();
    for i in 0..blob.len() {
        let mut bad = blob.clone();
        bad[i] ^= 0x01;
        assert!(decrypt_secret(&k, &bad).is_err(), "flip at {} accepted", i);
    }
}

#[test]
fn short_image_is_malformed() {
    let k = key_a();
    assert!(matches!(decrypt_secret(&k, &vec![0u8; 27]), Err(VaultError::Malformed)));
    assert!(matches!(decrypt_secret(&k, &Vec::new()), Err(VaultError::Malformed)));
}

#[test]
fn nonces_are_fresh() {
    let k = key_a();
    let s = secret("n", "u", "p");
    let mut nonces = std::collections::HashSet::new();
    for _ in 0..1000 {
        let blob = encrypt_secret(&k, &s).unwrap();
        assert!(nonces.insert(blob[..12].to_vec()), "nonce repeated");
    }
}

#[test]
fn parse_accepts_canonical_object() {
    let b = b"{\"name\":\"a\",\"username\":\"b\",\"password\":\"c\"}".to_vec();
    let s = parse_secret(&b).unwrap();
    assert_eq!(s.name().as_str(), "a");
    assert_eq!(s.username().as_str(), "b");
    assert_eq!(s.password().as_str(), "c");
}

#[test]
fn parse_rejects_non_canonical_forms() {
    let cases: Vec<&[u8]> = vec![
        b"",
        b"{}",
        b"{\"name\":\"a\",\"username\":\"b\"}",
        b"{\"name\":\"a\",\"username\":\"b\",\"password\":\"c\",\"extra\":\"d\"}",
        b"{ \"name\":\"a\",\"username\":\"b\",\"password\":\"c\"}",
        b"{\"username\":\"b\",\"name\":\"a\",\"password\":\"c\"}",
        b"{\"name\":\"a\",\"username\":\"b\",\"password\":\"c\"} ",
        b"{\"name\":\"a\",\"username\":\"b\",\"password\":\"c\\x\"}",
        b"{\"name\":\"\",\"username\":\"b\",\"password\":\"c\"}",
        b"{\"name\":\"a/b\",\"username\":\"b\",\"password\":\"c\"}",
        b"{\"name\":\".a\",\"username\":\"b\",\"password\":\"c\"}",
        b"{\"name\":\"a\",\"username\":\"b\",\"password\":\"c\x07\"}",
    ];
    for c in cases {
        assert!(
            matches!(parse_secret(&c.to_vec()), Err(VaultError::Decode)),
            "accepted {:?}",
            String::from_utf8_lossy(c)
        );
    }
}

#[test]
fn secret_new_validates() {
    assert!(matches!(
        Secret::new("".into(), "u".into(), "p".into()),
        Err(VaultError::InvalidName)
    ));
    assert!(matches!(
        Secret::new("a/b".into(), "u".into(), "p".into()),
        Err(VaultError::InvalidName)
    ));
    assert!(matches!(
        Secret::new(".hidden".into(), "u".into(), "p".into()),
        Err(VaultError::InvalidName)
    ));
    assert!(matches!(
        Secret::new("a\u{0}b".into(), "u".into(), "p".into()),
        Err(VaultError::InvalidName)
    ));
    assert!(matches!(
        Secret::new("n".into(), "u\u{7}".into(), "p".into()),
        Err(VaultError::Decode)
    ));
    assert!(matches!(
        Secret::new("n".into(), "u".into(), "p\u{1f}".into()),
        Err(VaultError::Decode)
    ));
    // Tab and newline are not in the forbidden ranges.
    assert!(Secret::new("n".into(), "u".into(), "a\tb\nc".into()).is_ok());
}
