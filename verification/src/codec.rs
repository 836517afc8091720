//! The secret codec: canonical plaintext serialization and the encrypted
//! file image.
//!
//! A record is serialized as the canonical textual object
//! `{"name":N,"username":U,"password":P}` where each field is a quoted UTF-8
//! string in which `"` and `\` are escaped with a backslash and no other
//! escape exists.  The decoder accepts exactly the strings the encoder
//! produces: `serial_of` and `parse_of` below are proved inverse by
//! [`lemma_parse_serial`].
//!
//! The file image of a record is `nonce || ciphertext || tag`: 12 random
//! nonce bytes, then the sealed serialization with its 16-byte tag, so the
//! image is 28 bytes longer than the plaintext.

use vstd::prelude::*;

verus! {

use vstd::utf8::{decode_utf8, encode_utf8, valid_utf8};
use vstd::utf8::{decode_utf8_encode_utf8, encode_utf8_decode_utf8, encode_utf8_valid_utf8};
use crate::crypto::{aead_open, aead_seal, bytes_to_string, open_of, os_random_bytes};
use crate::errors::VaultError;
use crate::secret::{field_bytes_ok, forbidden_byte, name_bytes_ok, wf_view, Secret, SecretView};

/// The opening bytes of a serialized record: `{"name":"`.
pub open spec fn lit_head() -> Seq<u8> {
    seq![0x7bu8, 0x22, 0x6e, 0x61, 0x6d, 0x65, 0x22, 0x3a, 0x22]
}

/// The bytes between the name and the username: `,"username":"`.
pub open spec fn lit_user() -> Seq<u8> {
    seq![0x2cu8, 0x22, 0x75, 0x73, 0x65, 0x72, 0x6e, 0x61, 0x6d, 0x65, 0x22, 0x3a, 0x22]
}

/// The bytes between the username and the password: `,"password":"`.
pub open spec fn lit_pass() -> Seq<u8> {
    seq![0x2cu8, 0x22, 0x70, 0x61, 0x73, 0x73, 0x77, 0x6f, 0x72, 0x64, 0x22, 0x3a, 0x22]
}

/// How one byte is written inside a quoted field: `"` and `\` take a
/// backslash before them, every other byte stands as itself.
pub open spec fn esc1(x: u8) -> Seq<u8> {
    if x == 0x22 || x == 0x5c {
        seq![0x5cu8, x]
    } else {
        seq![x]
    }
}

/// The escaped form of a field's bytes.
pub open spec fn escape(bs: Seq<u8>) -> Seq<u8>
    decreases bs.len(),
{
    if bs.len() == 0 {
        Seq::empty()
    } else {
        esc1(bs[0]) + escape(bs.drop_first())
    }
}

/// Reads one quoted field from the front of `b`: the unescaped content up to
/// an unescaped closing quote, and what follows the quote.  Rejects a lone
/// or ill-formed escape, a forbidden control byte, and a missing quote.
pub open spec fn unescape_prefix(b: Seq<u8>) -> Option<(Seq<u8>, Seq<u8>)>
    decreases b.len(),
{
    if b.len() == 0 {
        None
    } else if b[0] == 0x22 {
        Some((Seq::empty(), b.drop_first()))
    } else if b[0] == 0x5c {
        if b.len() >= 2 && (b[1] == 0x22 || b[1] == 0x5c) {
            match unescape_prefix(b.skip(2)) {
                Some(fr) => Some((seq![b[1]] + fr.0, fr.1)),
                None => None,
            }
        } else {
            None
        }
    } else if forbidden_byte(b[0]) {
        None
    } else {
        match unescape_prefix(b.drop_first()) {
            Some(fr) => Some((seq![b[0]] + fr.0, fr.1)),
            None => None,
        }
    }
}

/// The canonical serialization of a record.
pub open spec fn serial_of(v: SecretView) -> Seq<u8> {
    lit_head() + escape(encode_utf8(v.name)) + seq![0x22u8] + lit_user() + escape(
        encode_utf8(v.username),
    ) + seq![0x22u8] + lit_pass() + escape(encode_utf8(v.password)) + seq![0x22u8, 0x7d]
}

/// Whether `p` is a prefix of `b`.
pub open spec fn starts_with(b: Seq<u8>, p: Seq<u8>) -> bool {
    p.len() <= b.len() && b.subrange(0, p.len() as int) == p
}

/// The record a serialization denotes, or `None` when the bytes are not the
/// canonical serialization of any well-formed record.
pub open spec fn parse_of(b: Seq<u8>) -> Option<SecretView> {
    if !starts_with(b, lit_head()) {
        None
    } else {
        match unescape_prefix(b.skip(lit_head().len() as int)) {
            None => None,
            Some(n_fr) => if !starts_with(n_fr.1, lit_user()) {
                None
            } else {
                match unescape_prefix(n_fr.1.skip(lit_user().len() as int)) {
                    None => None,
                    Some(u_fr) => if !starts_with(u_fr.1, lit_pass()) {
                        None
                    } else {
                        match unescape_prefix(u_fr.1.skip(lit_pass().len() as int)) {
                            None => None,
                            Some(p_fr) => if p_fr.1 == seq![0x7du8] && valid_utf8(n_fr.0)
                                && valid_utf8(u_fr.0) && valid_utf8(p_fr.0) && name_bytes_ok(
                                n_fr.0,
                            ) {
                                Some(
                                    SecretView {
                                        name: decode_utf8(n_fr.0),
                                        username: decode_utf8(u_fr.0),
                                        password: decode_utf8(p_fr.0),
                                    },
                                )
                            } else {
                                None
                            },
                        }
                    },
                }
            },
        }
    }
}

/// A field read out of a quoted string never holds a forbidden control byte.
pub proof fn lemma_unescape_field_ok(b: Seq<u8>)
    ensures
        unescape_prefix(b) is Some ==> field_bytes_ok(unescape_prefix(b).unwrap().0),
    decreases b.len(),
{
    if b.len() == 0 {
    } else if b[0] == 0x22 {
    } else if b[0] == 0x5c {
        if b.len() >= 2 && (b[1] == 0x22 || b[1] == 0x5c) {
            lemma_unescape_field_ok(b.skip(2));
        }
    } else if forbidden_byte(b[0]) {
    } else {
        lemma_unescape_field_ok(b.drop_first());
    }
}

/// Appending one byte to a field appends its escaped form.
pub proof fn lemma_escape_snoc(s: Seq<u8>, x: u8)
    ensures
        escape(s.push(x)) == escape(s) + esc1(x),
    decreases s.len(),
{
    assert(s.push(x)[0 as int] == if s.len() == 0 { x } else { s[0] });
    if s.len() == 0 {
        assert(s.push(x).drop_first() =~= Seq::<u8>::empty());
        assert(escape(s.push(x)) == esc1(x) + escape(Seq::<u8>::empty()));
        assert(escape(s.push(x)) =~= escape(s) + esc1(x));
    } else {
        assert(s.push(x).drop_first() =~= s.drop_first().push(x));
        lemma_escape_snoc(s.drop_first(), x);
        assert(escape(s.push(x)) == esc1(s[0]) + (escape(s.drop_first()) + esc1(x)));
        assert(escape(s) == esc1(s[0]) + escape(s.drop_first()));
        assert(escape(s.push(x)) =~= escape(s) + esc1(x));
    }
}

/// Reading a quoted field back out of its escaped form gives the field and
/// leaves exactly what followed the closing quote.
pub proof fn lemma_unescape_escape(f: Seq<u8>, rest: Seq<u8>)
    requires
        field_bytes_ok(f),
    ensures
        unescape_prefix(escape(f) + seq![0x22u8] + rest) == Some((f, rest)),
    decreases f.len(),
{
    let b = escape(f) + seq![0x22u8] + rest;
    if f.len() == 0 {
        assert(b =~= seq![0x22u8] + rest);
        assert(b.drop_first() =~= rest);
        assert(unescape_prefix(b) == Some((Seq::<u8>::empty(), rest)));
        assert(Seq::<u8>::empty() =~= f);
    } else {
        let x = f[0];
        let f2 = f.drop_first();
        assert(field_bytes_ok(f2)) by {
            assert(forall|i: int| 0 <= i < f2.len() ==> f2[i] == f[i + 1]);
        }
        lemma_unescape_escape(f2, rest);
        let tail = escape(f2) + seq![0x22u8] + rest;
        if x == 0x22 || x == 0x5c {
            assert(b =~= seq![0x5cu8, x] + tail);
            assert(b[0] == 0x5c && b[1] == x);
            assert(b.skip(2) =~= tail);
            assert(seq![x] + f2 =~= f);
        } else {
            assert(b =~= seq![x] + tail);
            assert(b[0] == x);
            assert(!forbidden_byte(x));
            assert(b.drop_first() =~= tail);
            assert(seq![x] + f2 =~= f);
        }
    }
}

/// The codec round trip: parsing the canonical serialization of any
/// well-formed record gives that record back.
pub proof fn lemma_parse_serial(v: SecretView)
    requires
        wf_view(v),
    ensures
        parse_of(serial_of(v)) == Some(v),
{
    let nb = encode_utf8(v.name);
    let ub = encode_utf8(v.username);
    let pb = encode_utf8(v.password);
    encode_utf8_valid_utf8(v.name);
    encode_utf8_valid_utf8(v.username);
    encode_utf8_valid_utf8(v.password);
    encode_utf8_decode_utf8(v.name);
    encode_utf8_decode_utf8(v.username);
    encode_utf8_decode_utf8(v.password);
    let b = serial_of(v);
    let r1 = lit_user() + escape(ub) + seq![0x22u8] + lit_pass() + escape(pb) + seq![
        0x22u8,
        0x7d,
    ];
    let r2 = lit_pass() + escape(pb) + seq![0x22u8, 0x7d];
    let r3 = seq![0x7du8];
    assert(starts_with(b, lit_head())) by {
        assert(b.subrange(0, lit_head().len() as int) =~= lit_head());
    }
    assert(b.skip(lit_head().len() as int) =~= escape(nb) + seq![0x22u8] + r1);
    lemma_unescape_escape(nb, r1);
    assert(starts_with(r1, lit_user())) by {
        assert(r1.subrange(0, lit_user().len() as int) =~= lit_user());
    }
    assert(r1.skip(lit_user().len() as int) =~= escape(ub) + seq![0x22u8] + r2);
    lemma_unescape_escape(ub, r2);
    assert(starts_with(r2, lit_pass())) by {
        assert(r2.subrange(0, lit_pass().len() as int) =~= lit_pass());
    }
    assert(r2.skip(lit_pass().len() as int) =~= escape(pb) + seq![0x22u8] + r3);
    lemma_unescape_escape(pb, r3);
}

/// Pushes the opening literal `{"name":"`.
fn push_lit_head(out: &mut Vec<u8>)
    ensures
        final(out)@ == old(out)@ + lit_head(),
{
    out.push(0x7b);
    out.push(0x22);
    out.push(0x6e);
    out.push(0x61);
    out.push(0x6d);
    out.push(0x65);
    out.push(0x22);
    out.push(0x3a);
    out.push(0x22);
    proof {
        assert(out@ =~= old(out)@ + lit_head());
    }
}

/// Pushes the separator literal `,"username":"`.
fn push_lit_user(out: &mut Vec<u8>)
    ensures
        final(out)@ == old(out)@ + lit_user(),
{
    out.push(0x2c);
    out.push(0x22);
    out.push(0x75);
    out.push(0x73);
    out.push(0x65);
    out.push(0x72);
    out.push(0x6e);
    out.push(0x61);
    out.push(0x6d);
    out.push(0x65);
    out.push(0x22);
    out.push(0x3a);
    out.push(0x22);
    proof {
        assert(out@ =~= old(out)@ + lit_user());
    }
}

/// Pushes the separator literal `,"password":"`.
fn push_lit_pass(out: &mut Vec<u8>)
    ensures
        final(out)@ == old(out)@ + lit_pass(),
{
    out.push(0x2c);
    out.push(0x22);
    out.push(0x70);
    out.push(0x61);
    out.push(0x73);
    out.push(0x73);
    out.push(0x77);
    out.push(0x6f);
    out.push(0x72);
    out.push(0x64);
    out.push(0x22);
    out.push(0x3a);
    out.push(0x22);
    proof {
        assert(out@ =~= old(out)@ + lit_pass());
    }
}

/// Pushes a field in its escaped form.
fn push_escaped(out: &mut Vec<u8>, f: &[u8])
    ensures
        final(out)@ == old(out)@ + escape(f@),
{
    let n = f.len();
    let mut i: usize = 0;
    while i < n
        invariant
            0 <= i <= n,
            n == f@.len(),
            out@ == old(out)@ + escape(f@.take(i as int)),
        decreases n - i,
    {
        let x = f[i];
        if x == 0x22 || x == 0x5c {
            out.push(0x5c);
            out.push(x);
        } else {
            out.push(x);
        }
        proof {
            lemma_escape_snoc(f@.take(i as int), f@[i as int]);
            assert(f@.take(i + 1 as int) =~= f@.take(i as int).push(f@[i as int]));
            assert(out@ =~= old(out)@ + escape(f@.take(i + 1 as int)));
        }
        i = i + 1;
    }
    proof {
        assert(f@.take(n as int) =~= f@);
    }
}

/// Serializes a record into its canonical byte form.
pub fn serialize_secret(s: &Secret) -> (r: Vec<u8>)
    ensures
        r@ == serial_of(s@),
{
    let mut out: Vec<u8> = Vec::new();
    push_lit_head(&mut out);
    push_escaped(&mut out, s.name().as_str().as_bytes());
    out.push(0x22);
    push_lit_user(&mut out);
    push_escaped(&mut out, s.username().as_str().as_bytes());
    out.push(0x22);
    push_lit_pass(&mut out);
    push_escaped(&mut out, s.password().as_str().as_bytes());
    out.push(0x22);
    out.push(0x7d);
    proof {
        assert(out@ =~= serial_of(s@));
    }
    out
}

/// `Some(o)` with the field of `o` extended on the left by `p`.
pub open spec fn prepend(p: Seq<u8>, o: Option<(Seq<u8>, Seq<u8>)>) -> Option<(Seq<u8>, Seq<u8>)> {
    match o {
        Some(fr) => Some((p + fr.0, fr.1)),
        None => None,
    }
}

/// Reads one quoted field out of `b` starting at `start`, returning the
/// unescaped content and the position after the closing quote.
fn take_field(b: &Vec<u8>, start: usize) -> (r: Option<(Vec<u8>, usize)>)
    requires
        start <= b@.len(),
    ensures
        match r {
            Some(fj) => {
                &&& unescape_prefix(b@.skip(start as int)) == Some(
                    (fj.0@, b@.skip(fj.1 as int)),
                )
                &&& start <= fj.1 <= b@.len()
            },
            None => unescape_prefix(b@.skip(start as int)) is None,
        },
{
    let n = b.len();
    let mut i: usize = start;
    let mut acc: Vec<u8> = Vec::new();
    proof {
        let o = unescape_prefix(b@.skip(start as int));
        if o is Some {
            assert(Seq::<u8>::empty() + o.unwrap().0 =~= o.unwrap().0);
        }
        assert(unescape_prefix(b@.skip(start as int)) == prepend(acc@, o));
    }
    while i < n
        invariant
            start <= i <= n,
            n == b@.len(),
            unescape_prefix(b@.skip(start as int)) == prepend(
                acc@,
                unescape_prefix(b@.skip(i as int)),
            ),
        decreases n - i,
    {
        let ghost s_i = b@.skip(i as int);
        proof {
            assert(s_i.len() == n - i);
            assert(s_i[0] == b@[i as int]);
        }
        let c = b[i];
        if c == 0x22 {
            proof {
                assert(s_i.drop_first() =~= b@.skip(i + 1 as int));
                assert(unescape_prefix(s_i) == Some((Seq::<u8>::empty(), b@.skip(i + 1 as int))));
                assert(acc@ + Seq::<u8>::empty() =~= acc@);
            }
            return Some((acc, i + 1));
        } else if c == 0x5c {
            if i + 1 < n {
                let d = b[i + 1];
                proof {
                    assert(s_i[1] == b@[i + 1 as int]);
                }
                if d == 0x22 || d == 0x5c {
                    proof {
                        assert(s_i.skip(2) =~= b@.skip(i + 2 as int));
                        let o2 = unescape_prefix(b@.skip(i + 2 as int));
                        assert(unescape_prefix(s_i) == prepend(seq![d], o2));
                        if o2 is Some {
                            assert(acc@ + (seq![d] + o2.unwrap().0) =~= acc@.push(d)
                                + o2.unwrap().0);
                        }
                    }
                    acc.push(d);
                    i = i + 2;
                } else {
                    proof {
                        assert(unescape_prefix(s_i) is None);
                    }
                    return None;
                }
            } else {
                proof {
                    assert(s_i.len() == 1);
                    assert(unescape_prefix(s_i) is None);
                }
                return None;
            }
        } else if c <= 0x08 || (0x0e <= c && c <= 0x1f) {
            proof {
                assert(forbidden_byte(s_i[0]));
                assert(unescape_prefix(s_i) is None);
            }
            return None;
        } else {
            proof {
                assert(s_i.drop_first() =~= b@.skip(i + 1 as int));
                let o2 = unescape_prefix(b@.skip(i + 1 as int));
                assert(unescape_prefix(s_i) == prepend(seq![c], o2));
                if o2 is Some {
                    assert(acc@ + (seq![c] + o2.unwrap().0) =~= acc@.push(c) + o2.unwrap().0);
                }
            }
            acc.push(c);
            i = i + 1;
        }
    }
    proof {
        assert(b@.skip(n as int) =~= Seq::<u8>::empty());
        assert(unescape_prefix(b@.skip(n as int)) is None);
    }
    None
}

/// Compares the bytes of `b` from `at` on against a literal.
fn match_lit(b: &Vec<u8>, at: usize, lit: &Vec<u8>) -> (r: bool)
    requires
        at <= b@.len(),
    ensures
        r == starts_with(b@.skip(at as int), lit@),
{
    let m = lit.len();
    let n = b.len();
    if n - at < m {
        return false;
    }
    let mut j: usize = 0;
    while j < m
        invariant
            0 <= j <= m,
            m == lit@.len(),
            n == b@.len(),
            at + m <= n,
            forall|k: int| 0 <= k < j ==> b@[at + k] == lit@[k],
        decreases m - j,
    {
        if b[at + j] != lit[j] {
            proof {
                let s = b@.skip(at as int);
                assert(s[j as int] == b@[at + j]);
                assert(!starts_with(s, lit@)) by {
                    if s.subrange(0, m as int) == lit@ {
                        assert(s.subrange(0, m as int)[j as int] == s[j as int]);
                    }
                }
            }
            return false;
        }
        j = j + 1;
    }
    proof {
        let s = b@.skip(at as int);
        assert(s.subrange(0, m as int) =~= lit@);
    }
    true
}

/// The literal `{"name":"` as a vector.
fn lit_head_vec() -> (r: Vec<u8>)
    ensures
        r@ == lit_head(),
{
    let mut out: Vec<u8> = Vec::new();
    push_lit_head(&mut out);
    proof {
        assert(out@ =~= lit_head());
    }
    out
}

/// The literal `,"username":"` as a vector.
fn lit_user_vec() -> (r: Vec<u8>)
    ensures
        r@ == lit_user(),
{
    let mut out: Vec<u8> = Vec::new();
    push_lit_user(&mut out);
    proof {
        assert(out@ =~= lit_user());
    }
    out
}

/// The literal `,"password":"` as a vector.
fn lit_pass_vec() -> (r: Vec<u8>)
    ensures
        r@ == lit_pass(),
{
    let mut out: Vec<u8> = Vec::new();
    push_lit_pass(&mut out);
    proof {
        assert(out@ =~= lit_pass());
    }
    out
}

/// Parses the canonical serialization of a record.  Succeeds exactly on the
/// byte strings that [`parse_of`] accepts, and then returns that record;
/// everything else is rejected with `Decode`.
pub fn parse_secret(pt: &Vec<u8>) -> (r: Result<Secret, VaultError>)
    ensures
        match r {
            Ok(s) => parse_of(pt@) == Some(s@),
            Err(e) => parse_of(pt@) is None && e == VaultError::Decode,
        },
{
    proof {
        assert(pt@.skip(0) =~= pt@);
    }
    let total = pt.len();
    let lh = lit_head_vec();
    if !match_lit(pt, 0, &lh) {
        return Err(VaultError::Decode);
    }
    let nf = match take_field(pt, lh.len()) {
        Some(x) => x,
        None => {
            return Err(VaultError::Decode);
        },
    };
    let (nb, j1) = nf;
    let lu = lit_user_vec();
    if !match_lit(pt, j1, &lu) {
        return Err(VaultError::Decode);
    }
    proof {
        assert(pt@.skip(j1 as int).len() == pt@.len() - j1);
        assert(j1 + lu@.len() <= pt@.len());
        assert(pt@.skip(j1 as int).skip(lu@.len() as int) =~= pt@.skip(
            j1 + lu@.len() as int,
        ));
    }
    let uf = match take_field(pt, j1 + lu.len()) {
        Some(x) => x,
        None => {
            return Err(VaultError::Decode);
        },
    };
    let (ub, j2) = uf;
    let lp = lit_pass_vec();
    if !match_lit(pt, j2, &lp) {
        return Err(VaultError::Decode);
    }
    proof {
        assert(pt@.skip(j2 as int).len() == pt@.len() - j2);
        assert(j2 + lp@.len() <= pt@.len());
        assert(pt@.skip(j2 as int).skip(lp@.len() as int) =~= pt@.skip(
            j2 + lp@.len() as int,
        ));
    }
    let pf = match take_field(pt, j2 + lp.len()) {
        Some(x) => x,
        None => {
            return Err(VaultError::Decode);
        },
    };
    let (pb, j3) = pf;
    let tail_ok = j3 < total && total - j3 == 1 && pt[j3] == 0x7d;
    proof {
        let r3 = pt@.skip(j3 as int);
        if tail_ok {
            assert(r3 =~= seq![0x7du8]);
        } else {
            assert(r3 != seq![0x7du8]) by {
                if r3 == seq![0x7du8] {
                    assert(r3.len() == 1);
                    assert(r3[0] == pt@[j3 as int]);
                }
            }
        }
    }
    if !tail_ok {
        return Err(VaultError::Decode);
    }
    proof {
        lemma_unescape_field_ok(pt@.skip(j1 + lu@.len() as int));
        lemma_unescape_field_ok(pt@.skip(j2 + lp@.len() as int));
    }
    let ghost nb_v = nb@;
    let ghost ub_v = ub@;
    let ghost pb_v = pb@;
    let name_s = match bytes_to_string(nb) {
        Some(s) => s,
        None => {
            return Err(VaultError::Decode);
        },
    };
    let user_s = match bytes_to_string(ub) {
        Some(s) => s,
        None => {
            return Err(VaultError::Decode);
        },
    };
    let pass_s = match bytes_to_string(pb) {
        Some(s) => s,
        None => {
            return Err(VaultError::Decode);
        },
    };
    if !crate::secret::bytes_name_ok(name_s.as_str().as_bytes()) {
        return Err(VaultError::Decode);
    }
    proof {
        decode_utf8_encode_utf8(nb_v);
        encode_utf8_decode_utf8(name_s@);
        encode_utf8_decode_utf8(user_s@);
        encode_utf8_decode_utf8(pass_s@);
    }
    match Secret::new(name_s, user_s, pass_s) {
        Ok(s) => {
            proof {
                assert(parse_of(pt@) == Some(s@));
            }
            Ok(s)
        },
        Err(_) => {
            proof {
                assert(false);
            }
            Err(VaultError::Decode)
        },
    }
}

/// The record a file image denotes under a key: split off the 12-byte nonce,
/// open the remainder, and parse the plaintext.  `None` when the image is too
/// short, the tag does not authenticate, or the plaintext does not parse.
pub open spec fn decrypt_file_of(key: Seq<u8>, b: Seq<u8>) -> Option<SecretView> {
    if b.len() < 28 {
        None
    } else {
        match open_of(key, b.subrange(0, 12), b.subrange(12, b.len() as int)) {
            Some(pt) => parse_of(pt),
            None => None,
        }
    }
}

/// Seals a record into its file image: a fresh random 96-bit nonce, then the
/// serialized record encrypted with its 16-byte tag.  The image is 28 bytes
/// longer than the serialization, and decrypting it under the same key gives
/// the record back.  Fails only with `RngFailure`, when the random source or
/// the cipher fails.
pub fn encrypt_secret(key: &Vec<u8>, s: &Secret) -> (r: Result<Vec<u8>, VaultError>)
    requires
        key@.len() == 32,
    ensures
        match r {
            Ok(b) => {
                &&& decrypt_file_of(key@, b@) == Some(s@)
                &&& b@.len() == 28 + serial_of(s@).len()
            },
            Err(e) => e == VaultError::RngFailure,
        },
{
    let nonce = match os_random_bytes(12) {
        Ok(v) => v,
        Err(_) => {
            return Err(VaultError::RngFailure);
        },
    };
    let pt = serialize_secret(s);
    let mut out = match aead_seal(key, &nonce, &pt) {
        Ok(v) => v,
        Err(_) => {
            return Err(VaultError::RngFailure);
        },
    };
    let ghost sealed_v = out@;
    let mut image = nonce;
    let ghost nonce_v = image@;
    image.append(&mut out);
    proof {
        use_type_invariant(s);
        lemma_parse_serial(s@);
        assert(image@.subrange(0, 12) =~= nonce_v);
        assert(image@.subrange(12, image@.len() as int) =~= sealed_v);
    }
    Ok(image)
}

/// Opens a file image under a key.  Returns exactly the record that
/// [`decrypt_file_of`] denotes; an image shorter than 28 bytes is
/// `Malformed`, a tag that does not authenticate is `AuthTag`, and a
/// plaintext that is not a canonical serialization is `Decode`.
pub fn decrypt_secret(key: &Vec<u8>, b: &Vec<u8>) -> (r: Result<Secret, VaultError>)
    requires
        key@.len() == 32,
    ensures
        match r {
            Ok(s) => decrypt_file_of(key@, b@) == Some(s@),
            Err(e) => {
                &&& decrypt_file_of(key@, b@) is None
                &&& (e == VaultError::Malformed <==> b@.len() < 28)
                &&& b@.len() >= 28 ==> (e == VaultError::AuthTag <==> open_of(
                    key@,
                    b@.subrange(0, 12),
                    b@.subrange(12, b@.len() as int),
                ) is None)
                &&& (b@.len() >= 28 && open_of(
                    key@,
                    b@.subrange(0, 12),
                    b@.subrange(12, b@.len() as int),
                ) is Some) ==> e == VaultError::Decode
            },
        },
{
    if b.len() < 28 {
        return Err(VaultError::Malformed);
    }
    let mut nonce: Vec<u8> = Vec::new();
    nonce.extend_from_slice(&b.as_slice()[0..12]);
    let mut ct: Vec<u8> = Vec::new();
    ct.extend_from_slice(&b.as_slice()[12..b.len()]);
    proof {
        assert(nonce@ =~= b@.subrange(0, 12));
        assert(ct@ =~= b@.subrange(12, b@.len() as int));
    }
    let pt = match aead_open(key, &nonce, &ct) {
        Some(v) => v,
        None => {
            return Err(VaultError::AuthTag);
        },
    };
    match parse_secret(&pt) {
        Ok(s) => Ok(s),
        Err(_) => Err(VaultError::Decode),
    }
}

} // verus!
