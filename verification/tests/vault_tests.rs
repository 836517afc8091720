//! Vault lifecycle: bootstrap, unlock, CRUD, persistence round trips.

use grimoire::errors::VaultError;
use grimoire::secret::Secret;
use grimoire::vault::Vault;

fn secret(name: &str, user: &str, pass: &str) -> Secret {
    Secret::new(name.to_string(), user.to_string(), pass.to_string()).unwrap()
}

#[test]
fn bootstrap_then_unlock_empty() {
    let (vault, master) = Vault::bootstrap("correct horse").unwrap();
    assert_eq!(vault.len(), 0);
    vault.lock();
    let vault2 = Vault::unlock("correct horse", &master, &Vec::new()).unwrap();
    assert_eq!(vault2.len(), 0);
}

#[test]
fn unlock_wrong_passphrase_fails() {
    let (vault, master) = Vault::bootstrap("correct horse").unwrap();
    vault.lock();
    let master_before = master.clone();
    for wrong in ["wrong", "correct hors", "correct horsee", ""] {
        let r = Vault::unlock(wrong, &master, &Vec::new());
        assert!(matches!(r, Err(VaultError::AuthFailed)), "accepted {:?}", wrong);
    }
    assert_eq!(master, master_before);
}

#[test]
fn unlock_corrupt_master_hash_fails() {
    let r = Vault::unlock("anything", "not a phc string", &Vec::new());
    assert!(matches!(r, Err(VaultError::CorruptMasterHash)));
    let r2 = Vault::unlock("anything", "", &Vec::new());
    assert!(matches!(r2, Err(VaultError::CorruptMasterHash)));
}

#[test]
fn add_persists_across_unlock() {
    let (mut vault, master) = Vault::bootstrap("correct horse").unwrap();
    let image = vault.add(secret("github", "alice", "p@ss")).unwrap();
    assert_eq!(vault.len(), 1);
    vault.lock();
    let vault2 = Vault::unlock("correct horse", &master, &vec![image]).unwrap();
    let got = vault2.get("github").unwrap();
    assert_eq!(got.name().as_str(), "github");
    assert_eq!(got.username().as_str(), "alice");
    assert_eq!(got.password().as_str(), "p@ss");
}

#[test]
fn removed_record_is_gone() {
    let (mut vault, _master) = Vault::bootstrap("pw").unwrap();
    vault.add(secret("github", "alice", "p@ss")).unwrap();
    vault.remove("github").unwrap();
    assert!(matches!(vault.get("github"), Err(VaultError::NotFound)));
    assert_eq!(vault.remove("github").unwrap_err(), VaultError::NotFound);
    assert_eq!(vault.len(), 0);
}

#[test]
fn tampered_file_is_skipped_others_load() {
    let (mut vault, master) = Vault::bootstrap("pw").unwrap();
    let good = vault.add(secret("good", "u1", "p1")).unwrap();
    let mut bad = vault.add(secret("evil", "u2", "p2")).unwrap();
    let last = bad.len() - 1;
    bad[last] ^= 0xff;
    vault.lock();
    let vault2 = Vault::unlock("pw", &master, &vec![good, bad]).unwrap();
    assert_eq!(vault2.len(), 1);
    assert!(vault2.get("good").is_ok());
    assert!(matches!(vault2.get("evil"), Err(VaultError::NotFound)));
}

#[test]
fn truncated_file_is_skipped_others_load() {
    let (mut vault, master) = Vault::bootstrap("pw").unwrap();
    let good = vault.add(secret("good", "u1", "p1")).unwrap();
    let cut = vault.add(secret("cut", "u2", "p2")).unwrap();
    let truncated = cut[..10].to_vec();
    vault.lock();
    let vault2 = Vault::unlock("pw", &master, &vec![truncated, good]).unwrap();
    assert_eq!(vault2.len(), 1);
    assert!(vault2.get("good").is_ok());
    assert!(matches!(vault2.get("cut"), Err(VaultError::NotFound)));
}

#[test]
fn duplicate_name_is_rejected() {
    let (mut vault, _master) = Vault::bootstrap("pw").unwrap();
    vault.add(secret("github", "alice", "p1")).unwrap();
    let r = vault.add(secret("github", "bob", "p2"));
    assert_eq!(r.unwrap_err(), VaultError::DuplicateName);
    assert_eq!(vault.get("github").unwrap().username().as_str(), "alice");
}

#[test]
fn update_in_place_and_rename() {
    let (mut vault, _master) = Vault::bootstrap("pw").unwrap();
    vault.add(secret("a", "u1", "p1")).unwrap();
    vault.add(secret("b", "u2", "p2")).unwrap();

    let (_image, renamed) = vault.update("a", secret("a", "u1", "p9")).unwrap();
    assert!(!renamed);
    assert_eq!(vault.get("a").unwrap().password().as_str(), "p9");

    let r = vault.update("a", secret("b", "u1", "p9"));
    assert_eq!(r.unwrap_err(), VaultError::DuplicateName);

    let (_image, renamed) = vault.update("a", secret("c", "u1", "p9")).unwrap();
    assert!(renamed);
    assert!(matches!(vault.get("a"), Err(VaultError::NotFound)));
    assert_eq!(vault.get("c").unwrap().password().as_str(), "p9");

    let r = vault.update("missing", secret("zz", "u", "p"));
    assert_eq!(r.unwrap_err(), VaultError::NotFound);
}

#[test]
fn names_are_sorted() {
    let (mut vault, _master) = Vault::bootstrap("pw").unwrap();
    vault.add(secret("mango", "u", "p")).unwrap();
    vault.add(secret("apple", "u", "p")).unwrap();
    vault.add(secret("zebra", "u", "p")).unwrap();
    vault.add(secret("banana", "u", "p")).unwrap();
    assert_eq!(vault.names(), vec!["apple", "banana", "mango", "zebra"]);
}

#[test]
fn update_persists_across_unlock() {
    let (mut vault, master) = Vault::bootstrap("pw").unwrap();
    vault.add(secret("site", "old-user", "old-pass")).unwrap();
    let (image, renamed) = vault.update("site", secret("site", "new-user", "new-pass")).unwrap();
    assert!(!renamed);
    vault.lock();
    let vault2 = Vault::unlock("pw", &master, &vec![image]).unwrap();
    let got = vault2.get("site").unwrap();
    assert_eq!(got.username().as_str(), "new-user");
    assert_eq!(got.password().as_str(), "new-pass");
}

#[test]
fn duplicate_names_on_disk_keep_first() {
    let (mut vault, master) = Vault::bootstrap("pw").unwrap();
    let first = vault.add(secret("dup", "first", "p1")).unwrap();
    vault.remove("dup").unwrap();
    let second = vault.add(secret("dup", "second", "p2")).unwrap();
    vault.lock();
    let vault2 = Vault::unlock("pw", &master, &vec![first, second]).unwrap();
    assert_eq!(vault2.len(), 1);
    assert_eq!(vault2.get("dup").unwrap().username().as_str(), "first");
}

#[test]
fn master_hash_uses_fixed_argon2id_profile() {
    let (_vault, master) = Vault::bootstrap("pw").unwrap();
    assert!(
        master.starts_with("$argon2id$v=19$m=19456,t=2,p=1$"),
        "unexpected profile in {}",
        master
    );
}

#[test]
fn unlock_orders_names_regardless_of_file_order() {
    let (mut vault, master) = Vault::bootstrap("pw").unwrap();
    let m = vault.add(secret("mango", "u", "p")).unwrap();
    let a = vault.add(secret("apple", "u", "p")).unwrap();
    let z = vault.add(secret("zebra", "u", "p")).unwrap();
    vault.lock();
    let vault2 = Vault::unlock("pw", &master, &vec![z, m, a]).unwrap();
    assert_eq!(vault2.names(), vec!["apple", "mango", "zebra"]);
}

#[test]
fn vault_generate_delegates_to_generator() {
    let (vault, _master) = Vault::bootstrap("pw").unwrap();
    let p = vault.generate(12, false).unwrap();
    assert_eq!(p.chars().count(), 12);
    assert!(p.chars().all(|c| c.is_ascii_alphanumeric()));
    assert!(matches!(vault.generate(0, true), Err(VaultError::InvalidLength)));
}
