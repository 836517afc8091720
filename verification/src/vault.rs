//! The vault: lifecycle and CRUD over the in-memory index of records.
//!
//! A vault is either never constructed (sealed) or holds the derived key and
//! the decrypted index.  The index is kept sorted by the byte-wise order of
//! the encoded names, with no name repeated, and every entry keeps the file
//! image it was loaded from or last written to, which decrypts to exactly
//! that record under the active key.  All file input and output belongs to
//! the caller: `unlock` consumes the images read from the store, and the
//! mutating operations hand back the image to write (the caller persists it
//! before relying on the vault, and backs the change out if the write
//! fails).

use vstd::prelude::*;

verus! {

use vstd::pervasive::VecAdditionalExecFns;
use vstd::utf8::encode_utf8;
use crate::codec::{decrypt_file_of, decrypt_secret, encrypt_secret, serial_of};
use crate::crypto::os_random_bytes;
use crate::errors::VaultError;
use crate::kdf::{argon2_key_of, create_master_hash, derive_key, master_salt, phc_salt_of,
    phc_verifies, verify_master_hash};
use crate::order::{bytes_eq, bytes_lt, lemma_lex_asym, lemma_lex_trans, lemma_lex_trichotomy,
    lex_lt};
use crate::secret::{Secret, SecretView};

/// One indexed record together with its current file image.
struct Entry {
    secret: Secret,
    image: Vec<u8>,
}

/// The name of a record model, as its encoded bytes.
pub open spec fn view_name(v: SecretView) -> Seq<u8> {
    encode_utf8(v.name)
}

/// The first record with the given encoded name.
pub open spec fn find_name(s: Seq<SecretView>, nb: Seq<u8>) -> Option<SecretView>
    decreases s.len(),
{
    if s.len() == 0 {
        None
    } else if view_name(s[0]) == nb {
        Some(s[0])
    } else {
        find_name(s.drop_first(), nb)
    }
}

/// The sequence without its first record of the given name.
pub open spec fn remove_name(s: Seq<SecretView>, nb: Seq<u8>) -> Seq<SecretView>
    decreases s.len(),
{
    if s.len() == 0 {
        s
    } else if view_name(s[0]) == nb {
        s.drop_first()
    } else {
        seq![s[0]] + remove_name(s.drop_first(), nb)
    }
}

/// Insertion in name order.
pub open spec fn insert_sorted(s: Seq<SecretView>, v: SecretView) -> Seq<SecretView>
    decreases s.len(),
{
    if s.len() == 0 {
        seq![v]
    } else if lex_lt(view_name(v), view_name(s[0])) {
        seq![v] + s
    } else {
        seq![s[0]] + insert_sorted(s.drop_first(), v)
    }
}

/// Strictly ascending names: sorted, and no name twice.
pub open spec fn entries_sorted(s: Seq<SecretView>) -> bool {
    forall|i: int, j: int|
        0 <= i < j < s.len() ==> lex_lt(view_name(#[trigger] s[i]), view_name(#[trigger] s[j]))
}

/// What unlocking a store with these file images yields: each image in turn
/// is decrypted and placed in name order; an image that does not decrypt to
/// a record, and a record whose name is already present, are skipped.
pub open spec fn load_of(key: Seq<u8>, files: Seq<Seq<u8>>) -> Seq<SecretView>
    decreases files.len(),
{
    if files.len() == 0 {
        Seq::empty()
    } else {
        let prev = load_of(key, files.drop_last());
        match decrypt_file_of(key, files.last()) {
            Some(v) => if find_name(prev, view_name(v)) is Some {
                prev
            } else {
                insert_sorted(prev, v)
            },
            None => prev,
        }
    }
}

/// The byte views of a vector of file images.
pub open spec fn images_of(files: Seq<Vec<u8>>) -> Seq<Seq<u8>> {
    files.map_values(|f: Vec<u8>| f@)
}

/// No record of the sequence carries the name.
pub proof fn lemma_find_none_iff(s: Seq<SecretView>, nb: Seq<u8>)
    ensures
        (find_name(s, nb) is None) <==> (forall|k: int|
            0 <= k < s.len() ==> view_name(#[trigger] s[k]) != nb),
    decreases s.len(),
{
    if s.len() > 0 {
        lemma_find_none_iff(s.drop_first(), nb);
        assert(forall|k: int|
            0 <= k < s.drop_first().len() ==> s.drop_first()[k] == s[k + 1]);
        if view_name(s[0]) != nb && (find_name(s.drop_first(), nb) is None) {
            assert(forall|k: int| 0 <= k < s.len() ==> view_name(#[trigger] s[k]) != nb) by {
                assert(forall|k: int|
                    1 <= k < s.len() ==> s[k] == s.drop_first()[k - 1]);
            }
        }
    }
}

/// Removing the record of one name removes the name from a sorted index.
pub proof fn lemma_remove_find_none(s: Seq<SecretView>, nb: Seq<u8>)
    requires
        entries_sorted(s),
    ensures
        find_name(remove_name(s, nb), nb) is None,
    decreases s.len(),
{
    if s.len() == 0 {
    } else if view_name(s[0]) == nb {
        assert forall|k: int| 0 <= k < s.drop_first().len() implies view_name(
            #[trigger] s.drop_first()[k],
        ) != nb by {
            assert(s.drop_first()[k] == s[k + 1]);
            assert(lex_lt(view_name(s[0]), view_name(s[k + 1])));
            lemma_lex_asym(view_name(s[0]), view_name(s[k + 1]));
        }
        lemma_find_none_iff(s.drop_first(), nb);
    } else {
        assert(entries_sorted(s.drop_first())) by {
            assert(forall|k: int|
                0 <= k < s.drop_first().len() ==> s.drop_first()[k] == s[k + 1]);
        }
        lemma_remove_find_none(s.drop_first(), nb);
        let rest = remove_name(s.drop_first(), nb);
        assert((seq![s[0]] + rest).drop_first() =~= rest);
        assert((seq![s[0]] + rest)[0] == s[0]);
    }
}

/// A name that is absent stays absent when another name is removed.
pub proof fn lemma_remove_keeps_absent(s: Seq<SecretView>, nb1: Seq<u8>, nb2: Seq<u8>)
    requires
        find_name(s, nb2) is None,
    ensures
        find_name(remove_name(s, nb1), nb2) is None,
    decreases s.len(),
{
    if s.len() == 0 {
    } else if view_name(s[0]) == nb1 {
        assert(find_name(s.drop_first(), nb2) is None);
    } else {
        lemma_remove_keeps_absent(s.drop_first(), nb1, nb2);
        let rest = remove_name(s.drop_first(), nb1);
        assert((seq![s[0]] + rest).drop_first() =~= rest);
        assert((seq![s[0]] + rest)[0] == s[0]);
    }
}

/// After insertion in name order of a record whose name was absent, the
/// record is found under its name.
pub proof fn lemma_find_inserted(s: Seq<SecretView>, v: SecretView)
    requires
        find_name(s, view_name(v)) is None,
    ensures
        find_name(insert_sorted(s, v), view_name(v)) == Some(v),
    decreases s.len(),
{
    let nb = view_name(v);
    if s.len() == 0 {
        assert(insert_sorted(s, v)[0] == v);
    } else if lex_lt(nb, view_name(s[0])) {
        assert((seq![v] + s)[0] == v);
    } else {
        lemma_find_inserted(s.drop_first(), v);
        let rest = insert_sorted(s.drop_first(), v);
        assert((seq![s[0]] + rest).drop_first() =~= rest);
        assert((seq![s[0]] + rest)[0] == s[0]);
    }
}

/// A file image that does not decrypt is skipped at load: the index built
/// from the store is the same with or without it, wherever it stands among
/// the files.
pub proof fn lemma_load_skips_bad(key: Seq<u8>, a: Seq<Seq<u8>>, b: Seq<Seq<u8>>, bad: Seq<u8>)
    requires
        decrypt_file_of(key, bad) is None,
    ensures
        load_of(key, a + seq![bad] + b) == load_of(key, a + b),
    decreases b.len(),
{
    if b.len() == 0 {
        assert((a + seq![bad] + b).drop_last() =~= a);
        assert((a + seq![bad] + b).last() == bad);
        assert(a + b =~= a);
    } else {
        lemma_load_skips_bad(key, a, b.drop_last(), bad);
        assert((a + seq![bad] + b).drop_last() =~= a + seq![bad] + b.drop_last());
        assert((a + seq![bad] + b).last() == b.last());
        assert((a + b).drop_last() =~= a + b.drop_last());
        assert((a + b).last() == b.last());
    }
}

/// A record whose image joins the store files is found under its name at
/// the next load, provided the other files do not already claim that name.
pub proof fn lemma_load_finds_added(key: Seq<u8>, files: Seq<Seq<u8>>, img: Seq<u8>, v: SecretView)
    requires
        decrypt_file_of(key, img) == Some(v),
        find_name(load_of(key, files), view_name(v)) is None,
    ensures
        find_name(load_of(key, files.push(img)), view_name(v)) == Some(v),
{
    assert(files.push(img).drop_last() =~= files);
    assert(files.push(img).last() == img);
    lemma_find_inserted(load_of(key, files), v);
}

/// Removing the first occurrence of a name at its index.
proof fn lemma_remove_name_at(s: Seq<SecretView>, nb: Seq<u8>, idx: int)
    requires
        0 <= idx < s.len(),
        view_name(s[idx]) == nb,
        forall|k: int| 0 <= k < idx ==> view_name(#[trigger] s[k]) != nb,
    ensures
        remove_name(s, nb) == s.remove(idx),
    decreases idx,
{
    if idx == 0 {
        assert(remove_name(s, nb) == s.drop_first());
        assert(s.remove(0) =~= s.drop_first());
    } else {
        let s2 = s.drop_first();
        assert(forall|k: int| 0 <= k < s2.len() ==> s2[k] == s[k + 1]);
        lemma_remove_name_at(s2, nb, idx - 1);
        assert(remove_name(s, nb) == seq![s[0]] + remove_name(s2, nb));
        assert(seq![s[0]] + s2.remove(idx - 1) =~= s.remove(idx));
    }
}

/// Insertion in name order lands at the scanned position.
proof fn lemma_insert_sorted_at(s: Seq<SecretView>, v: SecretView, idx: int)
    requires
        0 <= idx <= s.len(),
        forall|k: int| 0 <= k < idx ==> !lex_lt(view_name(v), view_name(#[trigger] s[k])),
        idx < s.len() ==> lex_lt(view_name(v), view_name(s[idx])),
    ensures
        insert_sorted(s, v) == s.take(idx) + seq![v] + s.skip(idx),
    decreases idx,
{
    if s.len() == 0 {
        assert(insert_sorted(s, v) == seq![v]);
        assert(s.take(0) + seq![v] + s.skip(0) =~= seq![v]);
    } else if idx == 0 {
        assert(insert_sorted(s, v) == seq![v] + s);
        assert(s.take(0) + seq![v] + s.skip(0) =~= seq![v] + s);
    } else {
        let s2 = s.drop_first();
        assert(forall|k: int| 0 <= k < s2.len() ==> s2[k] == s[k + 1]);
        lemma_insert_sorted_at(s2, v, idx - 1);
        assert(insert_sorted(s, v) == seq![s[0]] + insert_sorted(s2, v));
        assert(seq![s[0]] + (s2.take(idx - 1) + seq![v] + s2.skip(idx - 1)) =~= s.take(idx)
            + seq![v] + s.skip(idx));
    }
}

/// The unlocked vault: the derived key and the sorted index of records.
pub struct Vault {
    key: Vec<u8>,
    entries: Vec<Entry>,
}

impl View for Vault {
    type V = Seq<SecretView>;

    closed spec fn view(&self) -> Seq<SecretView> {
        self.entries@.map_values(|e: Entry| e.secret@)
    }
}

impl Vault {
    /// The active derived key (opaque to callers).
    pub closed spec fn key_view(self) -> Seq<u8> {
        self.key@
    }

    spec fn entry_ok(key: Seq<u8>, e: Entry) -> bool {
        decrypt_file_of(key, e.image@) == Some(e.secret@)
    }

    #[verifier::type_invariant]
    closed spec fn inv(self) -> bool {
        &&& self.key@.len() == 32
        &&& entries_sorted(self@)
        &&& forall|i: int|
            0 <= i < self.entries@.len() ==> Self::entry_ok(self.key@, #[trigger] self.entries@[i])
    }

    /// How many records are indexed.  The index is always sorted by name,
    /// with no name twice.
    pub fn len(&self) -> (r: usize)
        ensures
            r == self@.len(),
            entries_sorted(self@),
    {
        proof {
            use_type_invariant(self);
        }
        self.entries.len()
    }

    /// The index of the record with these name bytes, scanning from the
    /// front.
    fn find_index(&self, nb: &[u8]) -> (r: Option<usize>)
        ensures
            match r {
                Some(i) => {
                    &&& i < self@.len()
                    &&& view_name(self@[i as int]) == nb@
                    &&& find_name(self@, nb@) == Some(self@[i as int])
                    &&& forall|k: int| 0 <= k < i ==> view_name(#[trigger] self@[k]) != nb@
                },
                None => find_name(self@, nb@) is None,
            },
    {
        let n = self.entries.len();
        proof {
            assert(self@.skip(0) =~= self@);
        }
        let mut i: usize = 0;
        while i < n
            invariant
                0 <= i <= n,
                n == self.entries@.len(),
                n == self@.len(),
                find_name(self@, nb@) == find_name(self@.skip(i as int), nb@),
                forall|k: int| 0 <= k < i ==> view_name(#[trigger] self@[k]) != nb@,
            decreases n - i,
        {
            proof {
                assert(self@.skip(i as int)[0] == self@[i as int]);
            }
            if bytes_eq(self.entries[i].secret.name().as_str().as_bytes(), nb) {
                return Some(i);
            }
            proof {
                assert(self@.skip(i as int).drop_first() =~= self@.skip(i + 1 as int));
            }
            i = i + 1;
        }
        proof {
            assert(self@.skip(n as int) =~= Seq::<SecretView>::empty());
        }
        None
    }

    /// The position of the first entry whose name is not below `nb`.
    fn lower_bound(&self, nb: &[u8]) -> (r: usize)
        ensures
            r <= self@.len(),
            forall|k: int| 0 <= k < r ==> lex_lt(view_name(#[trigger] self@[k]), nb@),
            r < self@.len() ==> !lex_lt(view_name(self@[r as int]), nb@),
    {
        let n = self.entries.len();
        proof {
            assert(n == self@.len());
        }
        let mut i: usize = 0;
        while i < n
            invariant
                0 <= i <= n,
                n == self.entries@.len(),
                n == self@.len(),
                forall|k: int| 0 <= k < i ==> lex_lt(view_name(#[trigger] self@[k]), nb@),
            decreases n - i,
        {
            if !bytes_lt(self.entries[i].secret.name().as_str().as_bytes(), nb) {
                return i;
            }
            i = i + 1;
        }
        n
    }

    /// Places a record and its image into the index, keeping name order.
    /// Returns false, changing nothing, when the name is already present.
    fn place(&mut self, s: Secret, image: Vec<u8>) -> (r: bool)
        requires
            decrypt_file_of(old(self).key_view(), image@) == Some(s@),
        ensures
            final(self).key_view() == old(self).key_view(),
            r == (find_name(old(self)@, view_name(s@)) is None),
            r ==> final(self)@ == insert_sorted(old(self)@, s@),
            !r ==> final(self)@ == old(self)@,
    {
        proof {
            use_type_invariant(&*self);
        }
        let ghost old_view = self@;
        let ghost sv = s@;
        let ghost nbv = view_name(sv);
        let pos = self.lower_bound(s.name().as_str().as_bytes());
        let dup = if pos < self.entries.len() {
            bytes_eq(self.entries[pos].secret.name().as_str().as_bytes(), s.name().as_str().as_bytes())
        } else {
            false
        };
        if dup {
            proof {
                assert(view_name(old_view[pos as int]) == nbv);
                assert(find_name(old_view, nbv) is Some) by {
                    lemma_find_none_iff(old_view, nbv);
                }
            }
            return false;
        }
        proof {
            assert forall|k: int| 0 <= k < old_view.len() implies view_name(
                #[trigger] old_view[k],
            ) != nbv by {
                if k < pos {
                    lemma_lex_asym(view_name(old_view[k]), nbv);
                } else if k == pos {
                } else {
                    lemma_lex_trichotomy(view_name(old_view[pos as int]), nbv);
                    lemma_lex_trans(nbv, view_name(old_view[pos as int]), view_name(old_view[k]));
                    lemma_lex_asym(nbv, view_name(old_view[k]));
                }
            }
            lemma_find_none_iff(old_view, nbv);
            assert forall|k: int| 0 <= k < pos implies !lex_lt(
                nbv,
                view_name(#[trigger] old_view[k]),
            ) by {
                lemma_lex_asym(view_name(old_view[k]), nbv);
            }
            if pos < old_view.len() {
                lemma_lex_trichotomy(view_name(old_view[pos as int]), nbv);
            }
            lemma_insert_sorted_at(old_view, sv, pos as int);
        }
        let mut entries: Vec<Entry> = Vec::new();
        core::mem::swap(&mut entries, &mut self.entries);
        entries.insert(pos, Entry { secret: s, image });
        proof {
            let new_view = entries@.map_values(|e: Entry| e.secret@);
            assert(new_view =~= old_view.take(pos as int) + seq![sv] + old_view.skip(pos as int));
            assert(entries_sorted(new_view)) by {
                assert forall|i: int, j: int| 0 <= i < j < new_view.len() implies lex_lt(
                    view_name(#[trigger] new_view[i]),
                    view_name(#[trigger] new_view[j]),
                ) by {
                    if i < pos && j < pos {
                    } else if i < pos && j == pos {
                        lemma_lex_trichotomy(view_name(old_view[pos as int]), nbv);
                    } else if i == pos {
                        if j > pos {
                            let oj = j - 1;
                            if pos < old_view.len() {
                                lemma_lex_trichotomy(view_name(old_view[pos as int]), nbv);
                                if oj > pos {
                                    lemma_lex_trans(
                                        nbv,
                                        view_name(old_view[pos as int]),
                                        view_name(old_view[oj]),
                                    );
                                }
                            }
                        }
                    } else if i > pos && j > pos {
                    } else if i < pos && j > pos {
                    }
                }
            }
        }
        self.entries = entries;
        true
    }

    /// First-run provisioning: a fresh 16-byte salt, the master hash over
    /// it, and the key derived from the same salt; the index starts empty.
    /// The caller writes the returned hash string to the master-hash file.
    pub fn bootstrap(passphrase: &str) -> (r: Result<(Vault, String), VaultError>)
        ensures
            match r {
                Ok(vm) => {
                    &&& vm.0@ == Seq::<SecretView>::empty()
                    &&& phc_verifies(encode_utf8(passphrase@), vm.1@)
                    &&& phc_salt_of(vm.1@) is Some
                    &&& vm.0.key_view() == argon2_key_of(
                        encode_utf8(passphrase@),
                        phc_salt_of(vm.1@).unwrap(),
                    )
                },
                Err(e) => e == VaultError::RngFailure,
            },
    {
        let salt = match os_random_bytes(16) {
            Ok(v) => v,
            Err(_) => {
                return Err(VaultError::RngFailure);
            },
        };
        let master = match create_master_hash(passphrase, &salt) {
            Ok(h) => h,
            Err(_) => {
                return Err(VaultError::RngFailure);
            },
        };
        let key = match derive_key(passphrase, &salt) {
            Ok(k) => k,
            Err(_) => {
                return Err(VaultError::RngFailure);
            },
        };
        let v = Vault { key, entries: Vec::new() };
        proof {
            assert(v@ =~= Seq::<SecretView>::empty());
        }
        Ok((v, master))
    }

    /// Authenticates the passphrase against the master hash; on success,
    /// derives the key from the hash's own salt and loads the index from
    /// the file images, skipping any image that does not decrypt.  A master
    /// hash that does not parse is `CorruptMasterHash`; a wrong passphrase
    /// is `AuthFailed`, and no key is derived from it.  Unlocking draws no
    /// randomness, so a verifying passphrase is owed success; `RngFailure`
    /// stands only for the one rejected input of key derivation, a
    /// passphrase over 0xFFFFFFFF bytes.
    pub fn unlock(passphrase: &str, master: &str, files: &Vec<Vec<u8>>) -> (r: Result<
        Vault,
        VaultError,
    >)
        ensures
            (phc_salt_of(master@) is Some && phc_verifies(encode_utf8(passphrase@), master@)
                && encode_utf8(passphrase@).len() <= 0xFFFFFFFF) ==> r is Ok,
            match r {
                Ok(v) => {
                    &&& phc_salt_of(master@) is Some
                    &&& phc_verifies(encode_utf8(passphrase@), master@)
                    &&& v.key_view() == argon2_key_of(
                        encode_utf8(passphrase@),
                        phc_salt_of(master@).unwrap(),
                    )
                    &&& v@ == load_of(v.key_view(), images_of(files@))
                },
                Err(e) => {
                    &&& (e == VaultError::CorruptMasterHash <==> phc_salt_of(master@) is None)
                    &&& (phc_salt_of(master@) is Some ==> (e == VaultError::AuthFailed <==> !phc_verifies(
                        encode_utf8(passphrase@),
                        master@,
                    )))
                    &&& (e == VaultError::CorruptMasterHash || e == VaultError::AuthFailed || e
                        == VaultError::RngFailure)
                },
            },
    {
        let ok = match verify_master_hash(passphrase, master) {
            Ok(b) => b,
            Err(_) => {
                return Err(VaultError::CorruptMasterHash);
            },
        };
        if !ok {
            return Err(VaultError::AuthFailed);
        }
        let salt = match master_salt(master) {
            Ok(s) => s,
            Err(_) => {
                proof {
                    assert(false);
                }
                return Err(VaultError::CorruptMasterHash);
            },
        };
        let key = match derive_key(passphrase, &salt) {
            Ok(k) => k,
            Err(_) => {
                return Err(VaultError::RngFailure);
            },
        };
        let mut v = Vault { key, entries: Vec::new() };
        let ghost key0 = v.key@;
        let n = files.len();
        proof {
            assert(v@ =~= Seq::<SecretView>::empty());
            assert(images_of(files@).take(0) =~= Seq::<Seq<u8>>::empty());
        }
        let mut i: usize = 0;
        while i < n
            invariant
                0 <= i <= n,
                n == files@.len(),
                v.key_view() == key0,
                key0.len() == 32,
                v@ == load_of(key0, images_of(files@).take(i as int)),
            decreases n - i,
        {
            let ghost prefix = images_of(files@).take(i as int);
            proof {
                use_type_invariant(&v);
                assert(images_of(files@).take(i + 1 as int).drop_last() =~= prefix);
                assert(images_of(files@).take(i + 1 as int).last() == files@[i as int]@);
            }
            match decrypt_secret(&v.key, &files[i]) {
                Ok(s) => {
                    let mut stored: Vec<u8> = Vec::new();
                    stored.extend_from_slice(files[i].as_slice());
                    proof {
                        assert(stored@ =~= files@[i as int]@);
                    }
                    let _ = v.place(s, stored);
                },
                Err(_) => {},
            }
            i = i + 1;
        }
        proof {
            assert(images_of(files@).take(n as int) =~= images_of(files@));
        }
        Ok(v)
    }

    /// Adds a record under its own name.  On success, the returned image is
    /// the new file for the caller to write; it decrypts to the record
    /// under the vault's key and is 28 bytes longer than the record's
    /// serialization.  A name already indexed is `DuplicateName` and leaves
    /// the vault unchanged.
    pub fn add(&mut self, s: Secret) -> (r: Result<Vec<u8>, VaultError>)
        ensures
            final(self).key_view() == old(self).key_view(),
            match r {
                Ok(image) => {
                    &&& find_name(old(self)@, view_name(s@)) is None
                    &&& final(self)@ == insert_sorted(old(self)@, s@)
                    &&& decrypt_file_of(old(self).key_view(), image@) == Some(s@)
                    &&& image@.len() == 28 + serial_of(s@).len()
                },
                Err(e) => {
                    &&& final(self)@ == old(self)@
                    &&& (e == VaultError::DuplicateName <==> find_name(
                        old(self)@,
                        view_name(s@),
                    ) is Some)
                    &&& (e == VaultError::DuplicateName || e == VaultError::RngFailure)
                },
            },
    {
        proof {
            use_type_invariant(&*self);
        }
        if self.find_index(s.name().as_str().as_bytes()).is_some() {
            return Err(VaultError::DuplicateName);
        }
        let image = match encrypt_secret(&self.key, &s) {
            Ok(v) => v,
            Err(_) => {
                return Err(VaultError::RngFailure);
            },
        };
        let mut stored: Vec<u8> = Vec::new();
        stored.extend_from_slice(image.as_slice());
        proof {
            assert(stored@ =~= image@);
        }
        let placed = self.place(s, stored);
        proof {
            assert(placed);
        }
        Ok(image)
    }

    /// Removes the record of this name; the caller deletes its file first
    /// and calls this only after the delete succeeded.  An absent name is
    /// `NotFound` and leaves the vault unchanged.
    pub fn remove(&mut self, name: &str) -> (r: Result<(), VaultError>)
        ensures
            final(self).key_view() == old(self).key_view(),
            match r {
                Ok(u) => {
                    &&& find_name(old(self)@, encode_utf8(name@)) is Some
                    &&& final(self)@ == remove_name(old(self)@, encode_utf8(name@))
                },
                Err(e) => {
                    &&& e == VaultError::NotFound
                    &&& find_name(old(self)@, encode_utf8(name@)) is None
                    &&& final(self)@ == old(self)@
                },
            },
    {
        proof {
            use_type_invariant(&*self);
        }
        let idx = match self.find_index(name.as_bytes()) {
            Some(i) => i,
            None => {
                return Err(VaultError::NotFound);
            },
        };
        let ghost old_view = self@;
        let mut entries: Vec<Entry> = Vec::new();
        core::mem::swap(&mut entries, &mut self.entries);
        let _removed = entries.remove(idx);
        proof {
            lemma_remove_name_at(old_view, encode_utf8(name@), idx as int);
            let new_view = entries@.map_values(|e: Entry| e.secret@);
            assert(new_view =~= old_view.remove(idx as int));
            assert(entries_sorted(new_view)) by {
                assert forall|i: int, j: int| 0 <= i < j < new_view.len() implies lex_lt(
                    view_name(#[trigger] new_view[i]),
                    view_name(#[trigger] new_view[j]),
                ) by {
                    let oi = if i < idx {
                        i
                    } else {
                        i + 1
                    };
                    let oj = if j < idx {
                        j
                    } else {
                        j + 1
                    };
                    assert(new_view[i] == old_view[oi]);
                    assert(new_view[j] == old_view[oj]);
                }
            }
        }
        self.entries = entries;
        Ok(())
    }

    /// Replaces the record stored under `name` with `s`, allowing a rename.
    /// On success the returned image is the new file to write, and the flag
    /// says whether the name changed (the caller then deletes the old file
    /// once the new one is durable).  `NotFound` when `name` is absent;
    /// `DuplicateName` when renaming onto a name already indexed.
    pub fn update(&mut self, name: &str, s: Secret) -> (r: Result<(Vec<u8>, bool), VaultError>)
        ensures
            final(self).key_view() == old(self).key_view(),
            match r {
                Ok(ib) => {
                    &&& find_name(old(self)@, encode_utf8(name@)) is Some
                    &&& final(self)@ == insert_sorted(
                        remove_name(old(self)@, encode_utf8(name@)),
                        s@,
                    )
                    &&& decrypt_file_of(old(self).key_view(), ib.0@) == Some(s@)
                    &&& ib.1 == (view_name(s@) != encode_utf8(name@))
                    &&& (ib.1 ==> find_name(old(self)@, view_name(s@)) is None)
                },
                Err(e) => {
                    &&& final(self)@ == old(self)@
                    &&& (e == VaultError::NotFound <==> find_name(
                        old(self)@,
                        encode_utf8(name@),
                    ) is None)
                    &&& (e == VaultError::DuplicateName <==> (find_name(
                        old(self)@,
                        encode_utf8(name@),
                    ) is Some && view_name(s@) != encode_utf8(name@) && find_name(
                        old(self)@,
                        view_name(s@),
                    ) is Some))
                    &&& (e == VaultError::NotFound || e == VaultError::DuplicateName || e
                        == VaultError::RngFailure)
                },
            },
    {
        proof {
            use_type_invariant(&*self);
        }
        let ghost old_view = self@;
        let renamed = !bytes_eq(s.name().as_str().as_bytes(), name.as_bytes());
        if self.find_index(name.as_bytes()).is_none() {
            return Err(VaultError::NotFound);
        }
        if renamed {
            if self.find_index(s.name().as_str().as_bytes()).is_some() {
                return Err(VaultError::DuplicateName);
            }
        }
        let image = match encrypt_secret(&self.key, &s) {
            Ok(v) => v,
            Err(_) => {
                return Err(VaultError::RngFailure);
            },
        };
        let mut stored: Vec<u8> = Vec::new();
        stored.extend_from_slice(image.as_slice());
        proof {
            assert(stored@ =~= image@);
        }
        let rr = self.remove(name);
        proof {
            assert(rr is Ok);
            if renamed {
                lemma_remove_keeps_absent(old_view, encode_utf8(name@), view_name(s@));
            } else {
                lemma_remove_find_none(old_view, encode_utf8(name@));
            }
        }
        let placed = self.place(s, stored);
        proof {
            assert(placed);
        }
        Ok((image, renamed))
    }

    /// A copy of the record stored under this name, or `NotFound`.
    pub fn get(&self, name: &str) -> (r: Result<Secret, VaultError>)
        ensures
            match r {
                Ok(s) => find_name(self@, encode_utf8(name@)) == Some(s@),
                Err(e) => {
                    &&& e == VaultError::NotFound
                    &&& find_name(self@, encode_utf8(name@)) is None
                },
            },
    {
        match self.find_index(name.as_bytes()) {
            Some(i) => Ok(self.entries[i].secret.clone()),
            None => Err(VaultError::NotFound),
        }
    }

    /// The indexed names, in ascending byte-wise name order.
    pub fn names(&self) -> (r: Vec<String>)
        ensures
            r@.len() == self@.len(),
            forall|i: int| 0 <= i < r@.len() ==> (#[trigger] r@[i])@ == self@[i].name,
            entries_sorted(self@),
    {
        proof {
            use_type_invariant(self);
        }
        let n = self.entries.len();
        let mut out: Vec<String> = Vec::new();
        let mut i: usize = 0;
        while i < n
            invariant
                0 <= i <= n,
                n == self.entries@.len(),
                n == self@.len(),
                out@.len() == i,
                forall|k: int| 0 <= k < i ==> (#[trigger] out@[k])@ == self@[k].name,
            decreases n - i,
        {
            out.push(self.entries[i].secret.name().clone());
            i = i + 1;
        }
        out
    }

    /// Produces a random password of exactly `length` characters from the
    /// generator's alphabet; see [`crate::passgen::generate_password`].
    pub fn generate(&self, length: u8, symbols: bool) -> (r: Result<String, VaultError>)
        ensures
            match r {
                Ok(p) => {
                    &&& length != 0
                    &&& p@.len() == length as nat
                    &&& forall|i: int|
                        0 <= i < p@.len() ==> crate::passgen::in_alphabet(
                            symbols,
                            #[trigger] p@[i],
                        )
                },
                Err(e) => {
                    &&& (e == VaultError::InvalidLength <==> length == 0)
                    &&& (e == VaultError::InvalidLength || e == VaultError::RngFailure)
                },
            },
    {
        crate::passgen::generate_password(length, symbols)
    }

    /// Ends the session: overwrites the key bytes with zeros and drops the
    /// index.
    pub fn lock(self) {
        let Vault { key, entries } = self;
        let mut k = key;
        let n = k.len();
        let mut i: usize = 0;
        while i < n
            invariant
                0 <= i <= n,
                n == k@.len(),
            decreases n - i,
        {
            k.set(i, 0);
            i = i + 1;
        }
    }
}

} // verus!
