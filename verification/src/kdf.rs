//! Trusted boundary to Argon2id: master-hash creation, verification, salt
//! extraction, and key derivation.
//!
//! All four calls run `Argon2::default()`, so creation, verification, and
//! derivation share one parameter profile (Argon2id v19, 19 MiB, 2
//! iterations, 1 lane, 32-byte output).  Their results are functions of their
//! arguments alone and are given the names below:
//!
//! - `phc_salt_of(h)` is the 16-byte salt embedded in the PHC string `h`, or
//!   `None` when `h` does not parse as a PHC string carrying such a salt —
//!   the corrupt-master-hash condition.
//! - `phc_verifies(p, h)` says whether the passphrase bytes `p` re-hash under
//!   the parameters and salt of `h` to the hash that `h` embeds.
//! - `argon2_key_of(p, s)` is the 32-byte key Argon2id derives from
//!   passphrase bytes `p` and 16-byte salt `s`.

use vstd::prelude::*;

use argon2::password_hash::{PasswordHash, PasswordHasher, PasswordVerifier, SaltString};

verus! {

use vstd::utf8::encode_utf8;

/// The 16-byte salt embedded in a PHC string, or `None` when the string does
/// not parse or carries no such salt.
pub uninterp spec fn phc_salt_of(hash: Seq<char>) -> Option<Seq<u8>>;

/// Whether the passphrase bytes re-hash to the hash a PHC string embeds.
pub uninterp spec fn phc_verifies(pass: Seq<u8>, hash: Seq<char>) -> bool;

/// The 32 bytes Argon2id derives from passphrase bytes and a 16-byte salt.
pub uninterp spec fn argon2_key_of(pass: Seq<u8>, salt: Seq<u8>) -> Seq<u8>;

/// Relies on argon2's `PasswordHasher::hash_password` over
/// `SaltString::encode_b64(salt)`: the PHC string it returns embeds exactly
/// this salt, and `verify_password` accepts the same passphrase against it.
#[verifier::external_body]
pub(crate) fn create_master_hash(pass: &str, salt: &Vec<u8>) -> (r: Result<String, ()>)
    requires
        salt@.len() == 16,
    ensures
        r is Ok ==> phc_verifies(encode_utf8(pass@), r.unwrap()@),
        r is Ok ==> phc_salt_of(r.unwrap()@) == Some(salt@),
{
    let s = match SaltString::encode_b64(salt.as_slice()) {
        Ok(s) => s,
        Err(_) => return Err(()),
    };
    match argon2::Argon2::default().hash_password(pass.as_bytes(), &s) {
        Ok(h) => Ok(h.to_string()),
        Err(_) => Err(()),
    }
}

/// Relies on argon2's `PasswordVerifier::verify_password` over
/// `PasswordHash::new(hash)`: verification recomputes the hash under the
/// embedded parameters and salt and compares in constant time.  Fails
/// exactly when the string does not parse as a PHC string with a 16-byte
/// salt.
#[verifier::external_body]
pub(crate) fn verify_master_hash(pass: &str, hash: &str) -> (r: Result<bool, ()>)
    ensures
        r is Err <==> phc_salt_of(hash@) is None,
        r is Ok ==> r.unwrap() == phc_verifies(encode_utf8(pass@), hash@),
{
    let parsed = match PasswordHash::new(hash) {
        Ok(p) => p,
        Err(_) => return Err(()),
    };
    let salt = match parsed.salt {
        Some(s) => s,
        None => return Err(()),
    };
    let mut buf = [0u8; 64];
    match salt.decode_b64(&mut buf) {
        Ok(b) if b.len() == 16 => (),
        _ => return Err(()),
    }
    Ok(argon2::Argon2::default().verify_password(pass.as_bytes(), &parsed).is_ok())
}

/// Relies on `PasswordHash::new` and `Salt::decode_b64`: returns the 16-byte
/// salt a PHC string embeds, failing exactly when the string does not parse
/// as a PHC string with a 16-byte salt.
#[verifier::external_body]
pub(crate) fn master_salt(hash: &str) -> (r: Result<Vec<u8>, ()>)
    ensures
        r is Err <==> phc_salt_of(hash@) is None,
        r is Ok ==> Some(r.unwrap()@) == phc_salt_of(hash@),
        r is Ok ==> r.unwrap()@.len() == 16,
{
    let parsed = match PasswordHash::new(hash) {
        Ok(p) => p,
        Err(_) => return Err(()),
    };
    let salt = match parsed.salt {
        Some(s) => s,
        None => return Err(()),
    };
    let mut buf = [0u8; 64];
    match salt.decode_b64(&mut buf) {
        Ok(b) if b.len() == 16 => Ok(b.to_vec()),
        _ => Err(()),
    }
}

/// Relies on argon2's `hash_password_into`: Argon2id writes 32 bytes of key
/// material derived from the passphrase and the salt alone.  Key derivation
/// draws no randomness: with a 16-byte salt, a 32-byte output, and the
/// default parameters, `verify_inputs` rejects only a passphrase longer than
/// 0xFFFFFFFF bytes, so the call succeeds on every shorter passphrase.
#[verifier::external_body]
pub(crate) fn derive_key(pass: &str, salt: &Vec<u8>) -> (r: Result<Vec<u8>, ()>)
    requires
        salt@.len() == 16,
    ensures
        r is Ok ==> r.unwrap()@ == argon2_key_of(encode_utf8(pass@), salt@),
        r is Ok ==> r.unwrap()@.len() == 32,
        r is Err ==> encode_utf8(pass@).len() > 0xFFFFFFFF,
{
    let mut out = vec![0u8; 32];
    match argon2::Argon2::default().hash_password_into(pass.as_bytes(), salt.as_slice(), out.as_mut_slice()) {
        Ok(()) => Ok(out),
        Err(_) => Err(()),
    }
}

} // verus!
