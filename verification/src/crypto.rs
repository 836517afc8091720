//! Trusted boundary to the cipher, the random source, and UTF-8 decoding.
//!
//! The records are sealed with ChaCha20-Poly1305: a 32-byte key, a 96-bit
//! nonce, and a 128-bit tag appended to the ciphertext.  What the cipher
//! returns is a function of key, nonce, and plaintext alone, so it is given
//! the names `seal_of` and `open_of`, about which only the documented facts
//! are stated: sealing adds exactly 16 bytes, and opening what was sealed
//! gives the plaintext back.

use vstd::prelude::*;

use chacha20poly1305::aead::{Aead, KeyInit};

verus! {

use vstd::utf8::{encode_utf8, valid_utf8};

/// The ciphertext-with-tag that ChaCha20-Poly1305 produces for this key,
/// nonce, and plaintext.
pub uninterp spec fn seal_of(key: Seq<u8>, nonce: Seq<u8>, pt: Seq<u8>) -> Seq<u8>;

/// The plaintext that ChaCha20-Poly1305 recovers from this key, nonce, and
/// ciphertext-with-tag, or `None` when the tag does not authenticate.
pub uninterp spec fn open_of(key: Seq<u8>, nonce: Seq<u8>, ct: Seq<u8>) -> Option<Seq<u8>>;

/// Relies on chacha20poly1305's `Aead::encrypt` with empty associated data:
/// the result is the ciphertext with the 16-byte tag appended, and
/// `Aead::decrypt` under the same key and nonce recovers the plaintext.
#[verifier::external_body]
pub(crate) fn aead_seal(key: &Vec<u8>, nonce: &Vec<u8>, pt: &Vec<u8>) -> (r: Result<Vec<u8>, ()>)
    requires
        key@.len() == 32,
        nonce@.len() == 12,
    ensures
        r is Ok ==> r.unwrap()@ == seal_of(key@, nonce@, pt@),
        r is Ok ==> r.unwrap()@.len() == pt@.len() + 16,
        r is Ok ==> open_of(key@, nonce@, r.unwrap()@) == Some(pt@),
{
    let cipher = match chacha20poly1305::ChaCha20Poly1305::new_from_slice(key.as_slice()) {
        Ok(c) => c,
        Err(_) => return Err(()),
    };
    let n = chacha20poly1305::Nonce::from_slice(nonce.as_slice());
    match cipher.encrypt(n, pt.as_slice()) {
        Ok(v) => Ok(v),
        Err(_) => Err(()),
    }
}

/// Relies on chacha20poly1305's `Aead::decrypt` with empty associated data:
/// it returns the plaintext exactly when the tag authenticates the
/// ciphertext under this key and nonce.
#[verifier::external_body]
pub(crate) fn aead_open(key: &Vec<u8>, nonce: &Vec<u8>, ct: &Vec<u8>) -> (r: Option<Vec<u8>>)
    requires
        key@.len() == 32,
        nonce@.len() == 12,
    ensures
        r is Some <==> open_of(key@, nonce@, ct@) is Some,
        r is Some ==> Some(r.unwrap()@) == open_of(key@, nonce@, ct@),
{
    let cipher = match chacha20poly1305::ChaCha20Poly1305::new_from_slice(key.as_slice()) {
        Ok(c) => c,
        Err(_) => return None,
    };
    let n = chacha20poly1305::Nonce::from_slice(nonce.as_slice());
    match cipher.decrypt(n, ct.as_slice()) {
        Ok(v) => Some(v),
        Err(_) => None,
    }
}

/// Relies on rand's `OsRng::try_fill_bytes`: the operating-system random
/// source fills the buffer, or reports failure.  Nothing is stated of the
/// bytes themselves.
#[verifier::external_body]
pub(crate) fn os_random_bytes(n: usize) -> (r: Result<Vec<u8>, ()>)
    ensures
        r is Ok ==> r.unwrap()@.len() == n,
{
    let mut buf = vec![0u8; n];
    match rand::TryRngCore::try_fill_bytes(&mut rand::rngs::OsRng, buf.as_mut_slice()) {
        Ok(()) => Ok(buf),
        Err(_) => Err(()),
    }
}

/// Relies on `String::from_utf8`: it succeeds exactly on valid UTF-8 and
/// returns the string whose encoding is the input.
#[verifier::external_body]
pub(crate) fn bytes_to_string(v: Vec<u8>) -> (r: Option<String>)
    ensures
        r is Some <==> valid_utf8(v@),
        r is Some ==> encode_utf8(r.unwrap()@) == v@,
{
    match String::from_utf8(v) {
        Ok(s) => Some(s),
        Err(_) => None,
    }
}

} // verus!
