//! Password generator: length, alphabet, and rough uniformity.

use grimoire::errors::VaultError;
use grimoire::passgen::generate_password;

#[test]
fn zero_length_is_invalid() {
    assert_eq!(generate_password(0, false).unwrap_err(), VaultError::InvalidLength);
    assert_eq!(generate_password(0, true).unwrap_err(), VaultError::InvalidLength);
}

#[test]
fn alphanumeric_length_and_alphabet() {
    let p = generate_password(16, false).unwrap();
    assert_eq!(p.chars().count(), 16);
    assert!(p.chars().all(|c| c.is_ascii_alphanumeric()));
    let long = generate_password(255, false).unwrap();
    assert_eq!(long.chars().count(), 255);
    assert!(long.chars().all(|c| c.is_ascii_alphanumeric()));
}

#[test]
fn symbol_length_and_alphabet() {
    let p = generate_password(64, true).unwrap();
    assert_eq!(p.chars().count(), 64);
    assert!(p.chars().all(|c| {
        let v = c as u32;
        (0x21..=0x7e).contains(&v)
    }));
}

#[test]
fn alphanumeric_distribution_is_roughly_uniform() {
    let alphabet: Vec<char> = ('A'..='Z').chain('a'..='z').chain('0'..='9').collect();
    let mut counts = std::collections::HashMap::new();
    let draws: usize = 10_000;
    let mut drawn: usize = 0;
    while drawn < draws {
        let p = generate_password(200, false).unwrap();
        for c in p.chars() {
            *counts.entry(c).or_insert(0usize) += 1;
            drawn += 1;
        }
    }
    let expected = drawn as f64 / alphabet.len() as f64;
    let mut chi2 = 0.0f64;
    for c in &alphabet {
        let observed = *counts.get(c).unwrap_or(&0) as f64;
        let d = observed - expected;
        chi2 += d * d / expected;
    }
    // 61 degrees of freedom; 200 is far beyond any plausible tail.
    assert!(chi2 < 200.0, "chi-square {} too large", chi2);
    for c in &alphabet {
        assert!(counts.contains_key(c), "character {} never drawn", c);
    }
}

#[test]
fn symbol_distribution_covers_alphabet() {
    let mut counts = std::collections::HashMap::new();
    for _ in 0..100 {
        let p = generate_password(200, true).unwrap();
        for c in p.chars() {
            *counts.entry(c).or_insert(0usize) += 1;
        }
    }
    for v in 0x21u32..=0x7e {
        let c = char::from_u32(v).unwrap();
        assert!(counts.contains_key(&c), "character {:?} never drawn", c);
    }
}
