use credvault::errors::{CryptoError, VaultError};
use credvault::vault::{
    create_password, delete_password, get_all_passwords, get_password, update_password,
    CreatePassword, Password, UpdatePassword, VaultStore,
};

const KEY: &str = "0123456789abcdef0123456789abcdef";
const ALICE: u128 = 0xa11ce;
const BOB: u128 = 0xb0b;

fn entry_for(site: &str, secret: &str) -> CreatePassword {
    CreatePassword {
        site_name: site.to_string(),
        site_url: Some(format!("https://{}.example.com", site)),
        username: "alice".to_string(),
        password: secret.to_string(),
        notes: None,
    }
}

#[test]
fn create_echoes_the_secret_once() {
    let mut store = VaultStore::new();
    let response = create_password(&mut store, ALICE, &entry_for("mail", "hunter2"), KEY, 7).unwrap();
    assert_eq!(response.password, "hunter2");
    assert_eq!(response.site_name, "mail");
    assert_eq!(response.created_at, 7);
    // the stored entry never holds the plaintext
    assert_eq!(store.entries.len(), 1);
    assert_ne!(store.entries[0].encrypted_password, "hunter2");
    assert!(!store.entries[0].encrypted_password.contains("hunter2"));
}

#[test]
fn create_rejects_a_short_key() {
    let mut store = VaultStore::new();
    let outcome = create_password(&mut store, ALICE, &entry_for("mail", "x"), "short", 7);
    assert_eq!(outcome.unwrap_err(), VaultError::Crypto(CryptoError::InvalidKeyLength));
    assert_eq!(store.entries.len(), 0);
}

#[test]
fn get_decrypts_the_owned_entry() {
    let mut store = VaultStore::new();
    let created = create_password(&mut store, ALICE, &entry_for("mail", "hunter2"), KEY, 7).unwrap();
    let fetched = get_password(&store, ALICE, created.id, KEY).unwrap();
    assert_eq!(fetched.password, "hunter2");
    assert_eq!(fetched.site_name, "mail");
    assert_eq!(fetched.username, "alice");
}

#[test]
fn three_records() {
    // P-style scenario: another identity's entry and a missing entry give
    // the same outcome
    let mut store = VaultStore::new();
    let a1 = create_password(&mut store, ALICE, &entry_for("mail", "a-secret"), KEY, 1).unwrap();
    let b1 = create_password(&mut store, BOB, &entry_for("bank", "b-secret"), KEY, 2).unwrap();
    let b2 = create_password(&mut store, BOB, &entry_for("work", "b-other"), KEY, 3).unwrap();

    // the owner reads freely
    assert_eq!(get_password(&store, ALICE, a1.id, KEY).unwrap().password, "a-secret");
    assert_eq!(get_password(&store, BOB, b1.id, KEY).unwrap().password, "b-secret");

    // someone else's entry and a nonexistent id are indistinguishable
    let missing: u128 = 0xdead;
    assert_eq!(get_password(&store, ALICE, b1.id, KEY).unwrap_err(), VaultError::NotFound);
    assert_eq!(get_password(&store, ALICE, missing, KEY).unwrap_err(), VaultError::NotFound);

    let update = UpdatePassword {
        site_name: Some("stolen".to_string()),
        site_url: None,
        username: None,
        password: None,
        notes: None,
    };
    let upd_other = update_password(&mut store, ALICE, b2.id, update, KEY, 9);
    assert_eq!(upd_other.unwrap_err(), VaultError::NotFound);
    let update2 = UpdatePassword {
        site_name: Some("stolen".to_string()),
        site_url: None,
        username: None,
        password: None,
        notes: None,
    };
    assert_eq!(
        update_password(&mut store, ALICE, missing, update2, KEY, 9).unwrap_err(),
        VaultError::NotFound
    );

    assert_eq!(delete_password(&mut store, ALICE, b1.id).unwrap_err(), VaultError::NotFound);
    assert_eq!(delete_password(&mut store, ALICE, missing).unwrap_err(), VaultError::NotFound);

    // nothing changed for the owner
    assert_eq!(store.entries.len(), 3);
    assert_eq!(get_password(&store, BOB, b2.id, KEY).unwrap().site_name, "work");
}

#[test]
fn listing_decrypts_only_the_owners_entries() {
    let mut store = VaultStore::new();
    create_password(&mut store, ALICE, &entry_for("mail", "a-secret"), KEY, 1).unwrap();
    create_password(&mut store, BOB, &entry_for("bank", "b-secret"), KEY, 2).unwrap();
    create_password(&mut store, ALICE, &entry_for("work", "a-other"), KEY, 3).unwrap();
    let listed = get_all_passwords(&store, ALICE, KEY);
    assert_eq!(listed.len(), 2);
    assert_eq!(listed[0].site_name, "mail");
    assert_eq!(listed[0].password, "a-secret");
    assert_eq!(listed[1].site_name, "work");
    assert_eq!(listed[1].password, "a-other");
}

#[test]
fn listing_skips_an_entry_that_fails_to_decrypt() {
    let mut store = VaultStore::new();
    create_password(&mut store, ALICE, &entry_for("mail", "a-secret"), KEY, 1).unwrap();
    store.entries.push(Password {
        id: 99,
        user_id: ALICE,
        site_name: "corrupt".to_string(),
        site_url: None,
        username: "alice".to_string(),
        encrypted_password: "not hex at all".to_string(),
        encryption_iv: "also not hex".to_string(),
        notes: None,
        created_at: 2,
        updated_at: 2,
    });
    let listed = get_all_passwords(&store, ALICE, KEY);
    assert_eq!(listed.len(), 1);
    assert_eq!(listed[0].site_name, "mail");
}

#[test]
fn update_overwrites_only_present_fields() {
    let mut store = VaultStore::new();
    let created = create_password(&mut store, ALICE, &entry_for("mail", "hunter2"), KEY, 1).unwrap();
    let old_ct = store.entries[0].encrypted_password.clone();
    let old_iv = store.entries[0].encryption_iv.clone();
    let update = UpdatePassword {
        site_name: Some("mail2".to_string()),
        site_url: None,
        username: None,
        password: None,
        notes: Some("renamed".to_string()),
    };
    let updated = update_password(&mut store, ALICE, created.id, update, KEY, 9).unwrap();
    assert_eq!(updated.site_name, "mail2");
    assert_eq!(updated.notes, Some("renamed".to_string()));
    assert_eq!(updated.username, "alice");
    assert_eq!(updated.password, "hunter2");
    // the stored secret was not touched
    assert_eq!(store.entries[0].encrypted_password, old_ct);
    assert_eq!(store.entries[0].encryption_iv, old_iv);
    assert_eq!(store.entries[0].updated_at, 9);
    assert_eq!(store.entries[0].created_at, 1);
}

#[test]
fn updating_the_secret_uses_a_fresh_iv() {
    let mut store = VaultStore::new();
    let created = create_password(&mut store, ALICE, &entry_for("mail", "hunter2"), KEY, 1).unwrap();
    let old_iv = store.entries[0].encryption_iv.clone();
    let update = UpdatePassword {
        site_name: None,
        site_url: None,
        username: None,
        password: Some("hunter3".to_string()),
        notes: None,
    };
    let updated = update_password(&mut store, ALICE, created.id, update, KEY, 9).unwrap();
    assert_eq!(updated.password, "hunter3");
    assert_ne!(store.entries[0].encryption_iv, old_iv);
    assert_eq!(get_password(&store, ALICE, created.id, KEY).unwrap().password, "hunter3");
}

#[test]
fn delete_removes_the_owned_entry() {
    let mut store = VaultStore::new();
    let created = create_password(&mut store, ALICE, &entry_for("mail", "hunter2"), KEY, 1).unwrap();
    assert!(delete_password(&mut store, ALICE, created.id).is_ok());
    assert_eq!(store.entries.len(), 0);
    assert_eq!(get_password(&store, ALICE, created.id, KEY).unwrap_err(), VaultError::NotFound);
}
