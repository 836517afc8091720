//! The plaintext credential record and its validity rules.
//!
//! Validity is stated over the UTF-8 encodings of the three fields: no field
//! may contain a control byte that would break a terminal (0x00..0x08 and
//! 0x0E..0x1F), and the name must further be usable as a file basename:
//! non-empty, free of path separators and NUL, and not starting with a dot.

use vstd::prelude::*;

verus! {

use vstd::utf8::encode_utf8;
use crate::errors::VaultError;

/// A byte a stored record must never contain: 0x00..0x08 or 0x0E..0x1F.
pub open spec fn forbidden_byte(b: u8) -> bool {
    b <= 0x08 || (0x0E <= b && b <= 0x1F)
}

/// Every byte of the sequence is allowed in a record field.
pub open spec fn field_bytes_ok(bs: Seq<u8>) -> bool {
    forall|i: int| 0 <= i < bs.len() ==> !forbidden_byte(#[trigger] bs[i])
}

/// The sequence is acceptable as a record name (and so as a file basename):
/// non-empty, no leading dot, no path separator, no forbidden control byte.
pub open spec fn name_bytes_ok(bs: Seq<u8>) -> bool {
    &&& bs.len() > 0
    &&& bs[0] != 0x2E
    &&& forall|i: int| 0 <= i < bs.len() ==> #[trigger] bs[i] != 0x2F
    &&& field_bytes_ok(bs)
}

/// The mathematical model of a record: its three fields as character
/// sequences.
pub struct SecretView {
    pub name: Seq<char>,
    pub username: Seq<char>,
    pub password: Seq<char>,
}

/// A model is well formed when its name is a valid basename and no field
/// holds a forbidden control byte.
pub open spec fn wf_view(v: SecretView) -> bool {
    &&& name_bytes_ok(encode_utf8(v.name))
    &&& field_bytes_ok(encode_utf8(v.username))
    &&& field_bytes_ok(encode_utf8(v.password))
}

/// A plaintext credential record.  Values of this type are always well
/// formed: the constructor rejects anything else.
pub struct Secret {
    name: String,
    username: String,
    password: String,
}

impl View for Secret {
    type V = SecretView;

    closed spec fn view(&self) -> SecretView {
        SecretView { name: self.name@, username: self.username@, password: self.password@ }
    }
}

/// Checks that every byte of the slice is allowed in a record field.
pub(crate) fn bytes_field_ok(bs: &[u8]) -> (r: bool)
    ensures
        r == field_bytes_ok(bs@),
{
    let n = bs.len();
    let mut i: usize = 0;
    while i < n
        invariant
            0 <= i <= n,
            n == bs@.len(),
            forall|j: int| 0 <= j < i ==> !forbidden_byte(#[trigger] bs@[j]),
        decreases n - i,
    {
        let b = bs[i];
        if b <= 0x08 || (0x0E <= b && b <= 0x1F) {
            return false;
        }
        i = i + 1;
    }
    true
}

/// Checks that the slice is acceptable as a record name.
pub(crate) fn bytes_name_ok(bs: &[u8]) -> (r: bool)
    ensures
        r == name_bytes_ok(bs@),
{
    if bs.len() == 0 {
        return false;
    }
    if bs[0] == 0x2E {
        return false;
    }
    let n = bs.len();
    let mut i: usize = 0;
    while i < n
        invariant
            0 <= i <= n,
            n == bs@.len(),
            forall|j: int| 0 <= j < i ==> #[trigger] bs@[j] != 0x2F,
        decreases n - i,
    {
        if bs[i] == 0x2F {
            return false;
        }
        i = i + 1;
    }
    bytes_field_ok(bs)
}

impl Secret {
    #[verifier::type_invariant]
    pub open spec fn wf(self) -> bool {
        wf_view(self@)
    }

    /// Builds a record, rejecting an unusable name with `InvalidName` and a
    /// username or password holding a forbidden control byte with `Decode`
    /// (such a record could never survive the codec).
    pub fn new(name: String, username: String, password: String) -> (r: Result<Secret, VaultError>)
        ensures
            r is Ok <==> wf_view(SecretView { name: name@, username: username@, password: password@ }),
            r is Ok ==> r.unwrap()@ == (SecretView { name: name@, username: username@, password: password@ }),
            !name_bytes_ok(encode_utf8(name@)) ==> r == Err::<Secret, VaultError>(VaultError::InvalidName),
            name_bytes_ok(encode_utf8(name@)) && !(field_bytes_ok(encode_utf8(username@))
                && field_bytes_ok(encode_utf8(password@))) ==> r == Err::<Secret, VaultError>(
                VaultError::Decode,
            ),
    {
        if !bytes_name_ok(name.as_str().as_bytes()) {
            return Err(VaultError::InvalidName);
        }
        if !bytes_field_ok(username.as_str().as_bytes()) {
            return Err(VaultError::Decode);
        }
        if !bytes_field_ok(password.as_str().as_bytes()) {
            return Err(VaultError::Decode);
        }
        Ok(Secret { name, username, password })
    }

    /// The record's name.
    pub fn name(&self) -> (r: &String)
        ensures
            r@ == self@.name,
    {
        &self.name
    }

    /// The record's username.
    pub fn username(&self) -> (r: &String)
        ensures
            r@ == self@.username,
    {
        &self.username
    }

    /// The record's password.
    pub fn password(&self) -> (r: &String)
        ensures
            r@ == self@.password,
    {
        &self.password
    }
}

impl Clone for Secret {
    /// A clone carries the same three fields.
    fn clone(&self) -> (r: Self)
        ensures
            r@ == self@,
    {
        proof {
            use_type_invariant(self);
        }
        Secret {
            name: self.name.clone(),
            username: self.username.clone(),
            password: self.password.clone(),
        }
    }
}

} // verus!
