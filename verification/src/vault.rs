//! Vault entries: ownership-scoped create, read, update and delete over
//! encrypted secrets.
//!
//! Every lookup filters on the entry id and the owner id at once, so an
//! entry owned by someone else and a missing entry yield the same
//! not-found outcome; `lemma_ownership_isolation` states that law.  The
//! store is modelled in memory: a well-formed store has unique entry ids.

use vstd::prelude::*;

use crate::cipher::{
    decrypt_model, decrypt_password, encrypt_password, lemma_stored_secret_decrypts, stores_secret,
};
use crate::errors::{CryptoError, VaultError};
use crate::ids::new_uuid;
use vstd::utf8::encode_utf8;

verus! {

/// A stored vault entry: site metadata and the encrypted secret with its
/// initialization vector, both as hex text.
#[derive(Debug)]
pub struct Password {
    pub id: u128,
    pub user_id: u128,
    pub site_name: String,
    pub site_url: Option<String>,
    pub username: String,
    pub encrypted_password: String,
    pub encryption_iv: String,
    pub notes: Option<String>,
    pub created_at: i64,
    pub updated_at: i64,
}

/// An entry ready for insertion.
#[derive(Debug)]
pub struct NewPassword {
    pub id: u128,
    pub user_id: u128,
    pub site_name: String,
    pub site_url: Option<String>,
    pub username: String,
    pub encrypted_password: String,
    pub encryption_iv: String,
    pub notes: Option<String>,
    pub created_at: i64,
    pub updated_at: i64,
}

/// A creation request: the secret arrives in plaintext and is encrypted
/// before it is stored.
#[derive(Debug)]
pub struct CreatePassword {
    pub site_name: String,
    pub site_url: Option<String>,
    pub username: String,
    pub password: String,
    pub notes: Option<String>,
}

/// A partial update: only the fields that are present overwrite stored
/// fields; a present secret is re-encrypted under a fresh iv.
#[derive(Debug)]
pub struct UpdatePassword {
    pub site_name: Option<String>,
    pub site_url: Option<String>,
    pub username: Option<String>,
    pub password: Option<String>,
    pub notes: Option<String>,
}

/// An entry as its owner sees it: the secret decrypted for display.
#[derive(Debug)]
pub struct PasswordResponse {
    pub id: u128,
    pub site_name: String,
    pub site_url: Option<String>,
    pub username: String,
    pub password: String,
    pub notes: Option<String>,
    pub created_at: i64,
}

impl Password {
    /// The entry as its owner sees it, with the given decrypted secret.
    pub fn to_response(&self, decrypted_password: String) -> (r: PasswordResponse)
        ensures
            r.id == self.id,
            r.site_name@ == self.site_name@,
            r.site_url.deep_view() == self.site_url.deep_view(),
            r.username@ == self.username@,
            r.password == decrypted_password,
            r.notes.deep_view() == self.notes.deep_view(),
            r.created_at == self.created_at,
    {
        PasswordResponse {
            id: self.id,
            site_name: self.site_name.clone(),
            site_url: clone_opt_string(&self.site_url),
            username: self.username.clone(),
            password: decrypted_password,
            notes: clone_opt_string(&self.notes),
            created_at: self.created_at,
        }
    }
}

/// Clones an optional string, keeping its text.
fn clone_opt_string(o: &Option<String>) -> (r: Option<String>)
    ensures
        r == *o,
{
    match o {
        Some(s) => Some(s.clone()),
        None => None,
    }
}

/// The index of the first entry with this id owned by this identity.
pub open spec fn entry_index(entries: Seq<Password>, id: u128, owner: u128) -> Option<int>
    decreases entries.len(),
{
    if entries.len() == 0 {
        None
    } else if entries[0].id == id && entries[0].user_id == owner {
        Some(0)
    } else {
        match entry_index(entries.skip(1), id, owner) {
            Some(i) => Some(i + 1),
            None => None,
        }
    }
}

proof fn lemma_entry_index_is(entries: Seq<Password>, id: u128, owner: u128, i: int)
    requires
        0 <= i < entries.len(),
        entries[i].id == id && entries[i].user_id == owner,
        forall|j: int| 0 <= j < i ==> !(entries[j].id == id && entries[j].user_id == owner),
    ensures
        entry_index(entries, id, owner) == Some(i),
    decreases i,
{
    if i > 0 {
        let t = entries.skip(1);
        assert forall|j: int| 0 <= j < i - 1 implies !(t[j].id == id && t[j].user_id == owner) by {
            assert(t[j] == entries[j + 1]);
        }
        assert(t[i - 1] == entries[i]);
        lemma_entry_index_is(t, id, owner, i - 1);
    }
}

proof fn lemma_entry_index_none(entries: Seq<Password>, id: u128, owner: u128)
    requires
        forall|j: int| 0 <= j < entries.len() ==> !(entries[j].id == id && entries[j].user_id
            == owner),
    ensures
        entry_index(entries, id, owner) is None,
    decreases entries.len(),
{
    if entries.len() > 0 {
        let t = entries.skip(1);
        assert forall|j: int| 0 <= j < t.len() implies !(t[j].id == id && t[j].user_id == owner) by {
            assert(t[j] == entries[j + 1]);
        }
        lemma_entry_index_none(t, id, owner);
    }
}

/// Law: to an identity that owns no entry with the requested id, the store
/// looks exactly as if the entry did not exist — whether it is absent or
/// owned by someone else, every ownership-scoped lookup misses, so read,
/// update and delete all yield the same not-found outcome.
pub proof fn lemma_ownership_isolation(entries: Seq<Password>, requester: u128, id: u128)
    requires
        forall|i: int|
            0 <= i < entries.len() ==> ((#[trigger] entries[i].id) == id ==> entries[i].user_id
                != requester),
    ensures
        entry_index(entries, id, requester) is None,
{
    lemma_entry_index_none(entries, id, requester);
}

/// The in-memory model of the entry store.
pub struct VaultStore {
    pub entries: Vec<Password>,
}

impl VaultStore {
    /// Well-formed: entry ids are unique.
    pub open spec fn wf(&self) -> bool {
        forall|i: int, j: int|
            0 <= i < j < self.entries@.len() ==> (#[trigger] self.entries@[i].id)
                != (#[trigger] self.entries@[j].id)
    }

    /// An empty store.
    pub fn new() -> (r: Self)
        ensures
            r.entries@.len() == 0,
            r.wf(),
    {
        VaultStore { entries: Vec::new() }
    }

    /// The first entry with this id owned by this identity, if any: one
    /// atomic lookup over both conditions.
    fn find_owned(&self, id: u128, owner: u128) -> (r: Option<usize>)
        ensures
            r matches Some(i) ==> i < self.entries@.len() && entry_index(self.entries@, id, owner)
                == Some(i as int) && self.entries@[i as int].id == id
                && self.entries@[i as int].user_id == owner,
            r is None ==> entry_index(self.entries@, id, owner) is None,
    {
        let n = self.entries.len();
        let mut i: usize = 0;
        while i < n
            invariant
                i <= n,
                n == self.entries@.len(),
                forall|j: int|
                    0 <= j < i ==> !(self.entries@[j].id == id && self.entries@[j].user_id
                        == owner),
            decreases n - i,
        {
            if self.entries[i].id == id && self.entries[i].user_id == owner {
                proof {
                    lemma_entry_index_is(self.entries@, id, owner, i as int);
                }
                return Some(i);
            }
            i += 1;
        }
        proof {
            lemma_entry_index_none(self.entries@, id, owner);
        }
        None
    }

    /// Inserts a fresh entry, as the store's key constraint would: it
    /// fails exactly when the drawn id is already in use, whoever owns
    /// that entry.
    fn insert(&mut self, entry: Password) -> (r: Result<(), VaultError>)
        requires
            old(self).wf(),
        ensures
            final(self).wf(),
            r is Ok <==> !(exists|j: int|
                0 <= j < old(self).entries@.len() && (#[trigger] old(self).entries@[j].id)
                    == entry.id),
            r is Ok ==> final(self).entries@ == old(self).entries@.push(entry),
            r is Err ==> final(self).entries@ == old(self).entries@ && r == Err::<(), VaultError>(
                VaultError::DuplicateId,
            ) && old(self).entries@.len() > 0,
    {
        let n = self.entries.len();
        let mut i: usize = 0;
        while i < n
            invariant
                i <= n,
                n == self.entries@.len(),
                self.entries@ == old(self).entries@,
                old(self).wf(),
                forall|j: int| 0 <= j < i ==> (#[trigger] self.entries@[j].id) != entry.id,
            decreases n - i,
        {
            if self.entries[i].id == entry.id {
                return Err(VaultError::DuplicateId);
            }
            i += 1;
        }
        self.entries.push(entry);
        Ok(())
    }
}

/// Creates an entry: the secret is encrypted under a fresh iv, the entry
/// is stored for the authenticated owner, and the response echoes the
/// secret exactly once, decrypted from what was stored.
pub fn create_password(
    store: &mut VaultStore,
    owner: u128,
    data: &CreatePassword,
    encryption_key: &str,
    now: i64,
) -> (r: Result<PasswordResponse, VaultError>)
    requires
        old(store).wf(),
        encode_utf8(data.password@).len() + 16 <= usize::MAX / 2,
    ensures
        final(store).wf(),
        r matches Err(e) ==> final(store).entries@ == old(store).entries@ && (e
            == VaultError::Crypto(CryptoError::InvalidKeyLength) <==> encode_utf8(
            encryption_key@,
        ).len() < 32) && (e == VaultError::Crypto(CryptoError::InvalidKeyLength) || e
            == VaultError::DuplicateId) && (e == VaultError::DuplicateId
            ==> old(store).entries@.len() > 0),
        r matches Ok(p) ==> ({
            let e = final(store).entries@.last();
            &&& encode_utf8(encryption_key@).len() >= 32
            &&& final(store).entries@ == old(store).entries@.push(e)
            &&& e.user_id == owner
            &&& e.site_name@ == data.site_name@
            &&& e.site_url.deep_view() == data.site_url.deep_view()
            &&& e.username@ == data.username@
            &&& e.notes.deep_view() == data.notes.deep_view()
            &&& stores_secret(
                e.encrypted_password@,
                e.encryption_iv@,
                data.password@,
                encryption_key@,
            )
            &&& e.created_at == now && e.updated_at == now
            &&& p.id == e.id && p.site_name@ == e.site_name@ && p.username@ == e.username@
            &&& p.password@ == data.password@
            &&& p.created_at == now
        }),
{
    let (encrypted_password, encryption_iv) = match encrypt_password(
        data.password.as_str(),
        encryption_key,
    ) {
        Ok(pair) => pair,
        Err(e) => {
            return Err(VaultError::Crypto(e));
        },
    };
    let id = new_uuid();
    let new_entry = NewPassword {
        id,
        user_id: owner,
        site_name: data.site_name.clone(),
        site_url: clone_opt_string(&data.site_url),
        username: data.username.clone(),
        encrypted_password,
        encryption_iv,
        notes: clone_opt_string(&data.notes),
        created_at: now,
        updated_at: now,
    };
    let entry = Password {
        id: new_entry.id,
        user_id: new_entry.user_id,
        site_name: new_entry.site_name,
        site_url: new_entry.site_url,
        username: new_entry.username,
        encrypted_password: new_entry.encrypted_password,
        encryption_iv: new_entry.encryption_iv,
        notes: new_entry.notes,
        created_at: new_entry.created_at,
        updated_at: new_entry.updated_at,
    };
    proof {
        lemma_stored_secret_decrypts(
            entry.encrypted_password@,
            entry.encryption_iv@,
            data.password@,
            encryption_key@,
        );
    }
    let decrypted = match decrypt_password(
        entry.encrypted_password.as_str(),
        entry.encryption_iv.as_str(),
        encryption_key,
    ) {
        Ok(s) => s,
        Err(_) => {
            proof {
                assert(false);
            }
            return Err(VaultError::Crypto(CryptoError::EncodingError));
        },
    };
    let response = entry.to_response(decrypted);
    match store.insert(entry) {
        Ok(()) => Ok(response),
        Err(e) => Err(e),
    }
}

/// Reads one entry: the id and the owner are filtered together, so a miss
/// on either gives the same not-found outcome.
pub fn get_password(store: &VaultStore, owner: u128, id: u128, encryption_key: &str) -> (r: Result<
    PasswordResponse,
    VaultError,
>)
    ensures
        entry_index(store.entries@, id, owner) is None ==> r == Err::<PasswordResponse, VaultError>(
            VaultError::NotFound,
        ),
        entry_index(store.entries@, id, owner) matches Some(i) ==> ({
            let e = store.entries@[i];
            match decrypt_model(
                encode_utf8(e.encrypted_password@),
                encode_utf8(e.encryption_iv@),
                encryption_key@,
            ) {
                Ok(s) => r matches Ok(p) && p.id == e.id && p.site_name@ == e.site_name@
                    && p.site_url.deep_view() == e.site_url.deep_view() && p.username@
                    == e.username@ && p.password@ == s && p.notes.deep_view()
                    == e.notes.deep_view() && p.created_at == e.created_at,
                Err(err) => r == Err::<PasswordResponse, VaultError>(VaultError::Crypto(err)),
            }
        }),
{
    let idx = match store.find_owned(id, owner) {
        Some(i) => i,
        None => {
            return Err(VaultError::NotFound);
        },
    };
    let entry = &store.entries[idx];
    let decrypted = match decrypt_password(
        entry.encrypted_password.as_str(),
        entry.encryption_iv.as_str(),
        encryption_key,
    ) {
        Ok(s) => s,
        Err(e) => {
            return Err(VaultError::Crypto(e));
        },
    };
    Ok(entry.to_response(decrypted))
}

/// The indices of the owner's entries whose secrets decrypt, in store
/// order, among the first `n` entries.  An entry that fails to decrypt is
/// silently left out, matching the observed listing behaviour; whether a
/// partial-failure marker would serve callers better is an open question.
pub open spec fn listed_indices(entries: Seq<Password>, owner: u128, key: Seq<char>, n: int) -> Seq<
    int,
>
    decreases n,
{
    if n <= 0 {
        Seq::empty()
    } else {
        let prev = listed_indices(entries, owner, key, n - 1);
        let e = entries[n - 1];
        if e.user_id == owner && decrypt_model(
            encode_utf8(e.encrypted_password@),
            encode_utf8(e.encryption_iv@),
            key,
        ) is Ok {
            prev + seq![n - 1]
        } else {
            prev
        }
    }
}

/// Lists every entry of the owner whose secret decrypts, each with its
/// secret decrypted for display.
pub fn get_all_passwords(store: &VaultStore, owner: u128, encryption_key: &str) -> (r: Vec<
    PasswordResponse,
>)
    ensures
        ({
            let idxs = listed_indices(
                store.entries@,
                owner,
                encryption_key@,
                store.entries@.len() as int,
            );
            &&& r@.len() == idxs.len()
            &&& forall|k: int|
                0 <= k < idxs.len() ==> ({
                    let e = store.entries@[idxs[k]];
                    let p = #[trigger] r@[k];
                    p.id == e.id && p.site_name@ == e.site_name@ && p.username@ == e.username@
                        && p.site_url.deep_view() == e.site_url.deep_view() && p.notes.deep_view()
                        == e.notes.deep_view() && p.created_at == e.created_at && decrypt_model(
                        encode_utf8(e.encrypted_password@),
                        encode_utf8(e.encryption_iv@),
                        encryption_key@,
                    ) == Ok::<Seq<char>, CryptoError>(p.password@)
                })
        }),
{
    let n = store.entries.len();
    let mut out: Vec<PasswordResponse> = Vec::new();
    let mut i: usize = 0;
    while i < n
        invariant
            i <= n,
            n == store.entries@.len(),
            ({
                let idxs = listed_indices(store.entries@, owner, encryption_key@, i as int);
                &&& out@.len() == idxs.len()
                &&& forall|k: int|
                    0 <= k < idxs.len() ==> ({
                        let e = store.entries@[idxs[k]];
                        let p = #[trigger] out@[k];
                        p.id == e.id && p.site_name@ == e.site_name@ && p.username@ == e.username@
                            && p.site_url.deep_view() == e.site_url.deep_view()
                            && p.notes.deep_view() == e.notes.deep_view() && p.created_at
                            == e.created_at && decrypt_model(
                            encode_utf8(e.encrypted_password@),
                            encode_utf8(e.encryption_iv@),
                            encryption_key@,
                        ) == Ok::<Seq<char>, CryptoError>(p.password@)
                    })
            }),
        decreases n - i,
    {
        let entry = &store.entries[i];
        if entry.user_id == owner {
            match decrypt_password(
                entry.encrypted_password.as_str(),
                entry.encryption_iv.as_str(),
                encryption_key,
            ) {
                Ok(s) => {
                    let response = entry.to_response(s);
                    out.push(response);
                },
                Err(_) => {},
            }
        }
        i += 1;
    }
    out
}

/// The stored entry after a partial update of its metadata: present fields
/// overwrite, the update instant is refreshed, and everything else —
/// identity, ownership, stored secret — stays.
pub open spec fn apply_meta(e: Password, data: UpdatePassword, now: i64) -> Password {
    Password {
        id: e.id,
        user_id: e.user_id,
        site_name: if data.site_name is Some {
            data.site_name->Some_0
        } else {
            e.site_name
        },
        site_url: if data.site_url is Some {
            Some(data.site_url->Some_0)
        } else {
            e.site_url
        },
        username: if data.username is Some {
            data.username->Some_0
        } else {
            e.username
        },
        encrypted_password: e.encrypted_password,
        encryption_iv: e.encryption_iv,
        notes: if data.notes is Some {
            Some(data.notes->Some_0)
        } else {
            e.notes
        },
        created_at: e.created_at,
        updated_at: now,
    }
}

/// Updates an entry in place: only present fields overwrite; a present
/// secret is re-encrypted under a fresh iv, never the old one.  The whole
/// set of changes becomes visible together or not at all, and a miss on
/// the id or the owner gives the same not-found outcome.
pub fn update_password(
    store: &mut VaultStore,
    owner: u128,
    id: u128,
    data: UpdatePassword,
    encryption_key: &str,
    now: i64,
) -> (r: Result<PasswordResponse, VaultError>)
    requires
        old(store).wf(),
        data.password matches Some(p) ==> encode_utf8(p@).len() + 16 <= usize::MAX / 2,
    ensures
        final(store).wf(),
        entry_index(old(store).entries@, id, owner) is None ==> r == Err::<
            PasswordResponse,
            VaultError,
        >(VaultError::NotFound) && final(store).entries@ == old(store).entries@,
        entry_index(old(store).entries@, id, owner) matches Some(i) ==> data.password is None
            ==> ({
            let e0 = old(store).entries@[i];
            let e1 = apply_meta(e0, data, now);
            match decrypt_model(
                encode_utf8(e0.encrypted_password@),
                encode_utf8(e0.encryption_iv@),
                encryption_key@,
            ) {
                Ok(s) => r matches Ok(p) && final(store).entries@ == old(store).entries@.update(
                    i,
                    e1,
                ) && p.id == e1.id && p.site_name@ == e1.site_name@ && p.username@ == e1.username@
                    && p.site_url.deep_view() == e1.site_url.deep_view() && p.notes.deep_view()
                    == e1.notes.deep_view() && p.password@ == s && p.created_at == e1.created_at,
                Err(err) => r == Err::<PasswordResponse, VaultError>(VaultError::Crypto(err))
                    && final(store).entries@ == old(store).entries@.update(i, e1),
            }
        }),
        entry_index(old(store).entries@, id, owner) matches Some(i) ==> data.password matches Some(
            np,
        ) ==> ({
            let e0 = old(store).entries@[i];
            if encode_utf8(encryption_key@).len() < 32 {
                r == Err::<PasswordResponse, VaultError>(
                    VaultError::Crypto(CryptoError::InvalidKeyLength),
                ) && final(store).entries@ == old(store).entries@
            } else {
                r matches Ok(p) && ({
                    let e1 = final(store).entries@[i];
                    &&& final(store).entries@ == old(store).entries@.update(i, e1)
                    &&& e1.id == e0.id && e1.user_id == e0.user_id && e1.created_at
                        == e0.created_at && e1.updated_at == now
                    &&& e1.site_name@ == apply_meta(e0, data, now).site_name@
                    &&& e1.username@ == apply_meta(e0, data, now).username@
                    &&& e1.site_url.deep_view() == apply_meta(e0, data, now).site_url.deep_view()
                    &&& e1.notes.deep_view() == apply_meta(e0, data, now).notes.deep_view()
                    &&& stores_secret(
                        e1.encrypted_password@,
                        e1.encryption_iv@,
                        np@,
                        encryption_key@,
                    )
                    &&& p.id == e0.id && p.password@ == np@ && p.created_at == e0.created_at
                })
            }
        }),
{
    let ghost d = data;
    let idx = match store.find_owned(id, owner) {
        Some(i) => i,
        None => {
            return Err(VaultError::NotFound);
        },
    };
    let ghost e0 = store.entries@[idx as int];
    let entry = &store.entries[idx];
    let mut updated_site_name = entry.site_name.clone();
    let mut updated_site_url = clone_opt_string(&entry.site_url);
    let mut updated_username = entry.username.clone();
    let mut updated_notes = clone_opt_string(&entry.notes);
    let mut updated_encrypted = entry.encrypted_password.clone();
    let mut updated_iv = entry.encryption_iv.clone();
    let created_at = entry.created_at;
    if let Some(site_name) = data.site_name {
        updated_site_name = site_name;
    }
    if let Some(site_url) = data.site_url {
        updated_site_url = Some(site_url);
    }
    if let Some(username) = data.username {
        updated_username = username;
    }
    if let Some(notes) = data.notes {
        updated_notes = Some(notes);
    }
    let secret_updated = match data.password {
        Some(new_password) => {
            match encrypt_password(new_password.as_str(), encryption_key) {
                Ok(pair) => {
                    updated_encrypted = pair.0;
                    updated_iv = pair.1;
                    proof {
                        lemma_stored_secret_decrypts(
                            updated_encrypted@,
                            updated_iv@,
                            new_password@,
                            encryption_key@,
                        );
                    }
                    Some(new_password)
                },
                Err(e) => {
                    return Err(VaultError::Crypto(e));
                },
            }
        },
        None => None,
    };
    let updated = Password {
        id,
        user_id: owner,
        site_name: updated_site_name,
        site_url: updated_site_url,
        username: updated_username,
        encrypted_password: updated_encrypted,
        encryption_iv: updated_iv,
        notes: updated_notes,
        created_at,
        updated_at: now,
    };
    proof {
        if d.password is None {
            assert(updated == apply_meta(e0, d, now));
        }
    }
    let decrypted = match decrypt_password(
        updated.encrypted_password.as_str(),
        updated.encryption_iv.as_str(),
        encryption_key,
    ) {
        Ok(s) => s,
        Err(e) => {
            if secret_updated.is_some() {
                proof {
                    assert(false);
                }
            }
            store.entries[idx] = updated;
            proof {
                lemma_update_keeps_wf(old(store).entries@, store.entries@, idx as int, id);
            }
            return Err(VaultError::Crypto(e));
        },
    };
    let response = updated.to_response(decrypted);
    store.entries[idx] = updated;
    proof {
        lemma_update_keeps_wf(old(store).entries@, store.entries@, idx as int, id);
    }
    Ok(response)
}

/// Replacing one entry by another with the same id keeps ids unique.
proof fn lemma_update_keeps_wf(olds: Seq<Password>, news: Seq<Password>, idx: int, id: u128)
    requires
        0 <= idx < olds.len(),
        olds[idx].id == id,
        news == olds.update(idx, news[idx]),
        news[idx].id == id,
        forall|i: int, j: int|
            0 <= i < j < olds.len() ==> (#[trigger] olds[i].id) != (#[trigger] olds[j].id),
    ensures
        forall|i: int, j: int|
            0 <= i < j < news.len() ==> (#[trigger] news[i].id) != (#[trigger] news[j].id),
{
    assert forall|i: int, j: int|
        0 <= i < j < news.len() implies (#[trigger] news[i].id) != (#[trigger] news[j].id) by {
        if i != idx {
            assert(news[i] == olds[i]);
        }
        if j != idx {
            assert(news[j] == olds[j]);
        }
        assert(olds[i].id != olds[j].id);
    }
}

/// Deletes an entry: a miss on the id or the owner gives the same
/// not-found outcome and changes nothing.
pub fn delete_password(store: &mut VaultStore, owner: u128, id: u128) -> (r: Result<
    (),
    VaultError,
>)
    requires
        old(store).wf(),
    ensures
        final(store).wf(),
        entry_index(old(store).entries@, id, owner) is None ==> r == Err::<(), VaultError>(
            VaultError::NotFound,
        ) && final(store).entries@ == old(store).entries@,
        entry_index(old(store).entries@, id, owner) matches Some(i) ==> r is Ok
            && final(store).entries@ == old(store).entries@.remove(i),
{
    let idx = match store.find_owned(id, owner) {
        Some(i) => i,
        None => {
            return Err(VaultError::NotFound);
        },
    };
    store.entries.remove(idx);
    proof {
        assert forall|a: int, b: int|
            0 <= a < b < store.entries@.len() implies (#[trigger] store.entries@[a].id)
            != (#[trigger] store.entries@[b].id) by {
            let olds = old(store).entries@;
            if a < idx {
                assert(store.entries@[a] == olds[a]);
            } else {
                assert(store.entries@[a] == olds[a + 1]);
            }
            if b < idx {
                assert(store.entries@[b] == olds[b]);
            } else {
                assert(store.entries@[b] == olds[b + 1]);
            }
        }
    }
    Ok(())
}

} // verus!
