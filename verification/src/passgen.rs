//! The password generator: uniform draws from a fixed alphabet.
//!
//! Each character is taken from the operating-system random source by
//! rejection sampling, so accepted characters are uniform over the alphabet:
//! with symbols, the 94 printable ASCII code points 0x21..0x7E; without, the
//! 62 characters `A`..`Z`, `a`..`z`, `0`..`9`.

use vstd::prelude::*;

verus! {

use crate::crypto::os_random_bytes;
use crate::errors::VaultError;

/// Whether a character belongs to the generator's alphabet.
pub open spec fn in_alphabet(symbols: bool, c: char) -> bool {
    if symbols {
        33 <= c as u32 && c as u32 <= 126
    } else {
        (65 <= c as u32 && c as u32 <= 90) || (97 <= c as u32 && c as u32 <= 122) || (48 <= c as u32
            && c as u32 <= 57)
    }
}

/// Relies on `String::push`: appends exactly one character.
#[verifier::external_body]
fn push_char(s: &mut String, c: char)
    ensures
        final(s)@ == old(s)@ + seq![c],
{
    s.push(c);
}

/// Produces a password of exactly `length` characters, each drawn uniformly
/// from the alphabet.  A zero length is `InvalidLength`; a failing random
/// source (or one that keeps yielding rejected bytes until the drawn pool is
/// exhausted, which is astronomically unlikely) is `RngFailure`.
pub fn generate_password(length: u8, symbols: bool) -> (r: Result<String, VaultError>)
    ensures
        match r {
            Ok(p) => {
                &&& length != 0
                &&& p@.len() == length as nat
                &&& forall|i: int| 0 <= i < p@.len() ==> in_alphabet(symbols, #[trigger] p@[i])
            },
            Err(e) => {
                &&& (e == VaultError::InvalidLength <==> length == 0)
                &&& (e == VaultError::InvalidLength || e == VaultError::RngFailure)
            },
        },
{
    if length == 0 {
        return Err(VaultError::InvalidLength);
    }
    let want: usize = length as usize;
    let pool: usize = want * 2 + 256;
    let buf = match os_random_bytes(pool) {
        Ok(v) => v,
        Err(_) => {
            return Err(VaultError::RngFailure);
        },
    };
    let mut out = String::new();
    let mut made: usize = 0;
    let mut i: usize = 0;
    while i < pool && made < want
        invariant
            0 <= i <= pool,
            0 <= made <= want,
            pool == buf@.len(),
            made == out@.len(),
            forall|k: int| 0 <= k < out@.len() ==> in_alphabet(symbols, #[trigger] out@[k]),
        decreases pool - i,
    {
        let b = buf[i];
        if symbols {
            if b < 188 {
                let c = (33 + (b % 94)) as char;
                push_char(&mut out, c);
                made = made + 1;
            }
        } else {
            if b < 248 {
                let idx = b % 62;
                let cb: u8 = if idx < 26 {
                    65 + idx
                } else if idx < 52 {
                    97 + (idx - 26)
                } else {
                    48 + (idx - 52)
                };
                let c = cb as char;
                push_char(&mut out, c);
                made = made + 1;
            }
        }
        i = i + 1;
    }
    if made < want {
        return Err(VaultError::RngFailure);
    }
    Ok(out)
}

} // verus!
