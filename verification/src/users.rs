//! Identities: registration, login and profile lookup.
//!
//! The identity store is modelled in memory: a well-formed store has
//! unique ids and unique emails, registration preserves that, and login
//! is deliberately coarse — unknown email and wrong password yield one
//! indistinguishable outcome.

use vstd::prelude::*;

use crate::errors::{AccountError, IssueError};
use crate::ids::{
    current_timestamp, lemma_uuid_text_claim_safe, new_uuid, uuid_text, uuid_to_string,
};
use crate::token::{generate_token, token_model, TOKEN_LIFETIME_SECS};
use vstd::utf8::encode_utf8;

verus! {

/// A stored identity.
#[derive(Debug)]
pub struct User {
    pub id: u128,
    pub username: String,
    pub email: String,
    pub password_hash: String,
    pub created_at: i64,
    pub updated_at: i64,
}

/// An identity row ready for insertion.
#[derive(Debug)]
pub struct NewUser {
    pub id: u128,
    pub username: String,
    pub email: String,
    pub password_hash: String,
    pub created_at: i64,
    pub updated_at: i64,
}

/// A registration request.
#[derive(Debug)]
pub struct RegisterUser {
    pub username: String,
    pub email: String,
    pub password: String,
}

/// A login request.
#[derive(Debug)]
pub struct LoginUser {
    pub email: String,
    pub password: String,
}

/// An identity as callers see it: no password verifier.
#[derive(Debug)]
pub struct UserResponse {
    pub id: u128,
    pub username: String,
    pub email: String,
    pub created_at: i64,
}

/// A fresh token together with the identity it names.
#[derive(Debug)]
pub struct AuthResponse {
    pub token: String,
    pub user: UserResponse,
}

/// What the library names as the password check: whether the one-way hash
/// was made from this password — a function of the two texts alone.
pub uninterp spec fn bcrypt_matches(password: Seq<char>, hash: Seq<char>) -> bool;

/// Relies on bcrypt::verify: whether the password matches the hash; an
/// unreadable hash counts as no match, as the caller treats it.
#[verifier::external_body]
fn bcrypt_verify(password: &str, hash: &str) -> (r: bool)
    ensures
        r == bcrypt_matches(password@, hash@),
{
    bcrypt::verify(password, hash).unwrap_or(false)
}

/// Relies on bcrypt::hash with the default cost: on success the result is
/// a hash that bcrypt::verify accepts for this password.
#[verifier::external_body]
fn bcrypt_hash(password: &str) -> (r: Option<String>)
    ensures
        r matches Some(h) ==> bcrypt_matches(password@, h@),
{
    bcrypt::hash(password, bcrypt::DEFAULT_COST).ok()
}

impl User {
    /// The identity as callers see it.
    pub fn to_response(&self) -> (r: UserResponse)
        ensures
            r.id == self.id,
            r.username@ == self.username@,
            r.email@ == self.email@,
            r.created_at == self.created_at,
    {
        UserResponse {
            id: self.id,
            username: self.username.clone(),
            email: self.email.clone(),
            created_at: self.created_at,
        }
    }

    /// Whether the submitted password matches this identity's verifier.
    pub fn verify_password(&self, password: &str) -> (r: bool)
        ensures
            r == bcrypt_matches(password@, self.password_hash@),
    {
        bcrypt_verify(password, self.password_hash.as_str())
    }
}

impl RegisterUser {
    /// Builds the identity row: a fresh id, the one-way hash of the
    /// password, and one instant for both timestamps.
    pub fn to_new_user(&self) -> (r: Result<NewUser, AccountError>)
        ensures
            r matches Ok(u) ==> u.username@ == self.username@ && u.email@ == self.email@
                && bcrypt_matches(self.password@, u.password_hash@) && u.created_at
                == u.updated_at,
            r matches Err(e) ==> e == AccountError::HashingFailed,
    {
        let hashed = match bcrypt_hash(self.password.as_str()) {
            Some(h) => h,
            None => {
                return Err(AccountError::HashingFailed);
            },
        };
        let now = current_timestamp();
        Ok(
            NewUser {
                id: new_uuid(),
                username: self.username.clone(),
                email: self.email.clone(),
                password_hash: hashed,
                created_at: now,
                updated_at: now,
            },
        )
    }
}

/// The index of the first identity with this email.
pub open spec fn user_index_by_email(users: Seq<User>, email: Seq<char>) -> Option<int>
    decreases users.len(),
{
    if users.len() == 0 {
        None
    } else if users[0].email@ == email {
        Some(0)
    } else {
        match user_index_by_email(users.skip(1), email) {
            Some(i) => Some(i + 1),
            None => None,
        }
    }
}

/// The index of the first identity with this id.
pub open spec fn user_index_by_id(users: Seq<User>, id: u128) -> Option<int>
    decreases users.len(),
{
    if users.len() == 0 {
        None
    } else if users[0].id == id {
        Some(0)
    } else {
        match user_index_by_id(users.skip(1), id) {
            Some(i) => Some(i + 1),
            None => None,
        }
    }
}

proof fn lemma_user_email_is(users: Seq<User>, email: Seq<char>, i: int)
    requires
        0 <= i < users.len(),
        users[i].email@ == email,
        forall|j: int| 0 <= j < i ==> users[j].email@ != email,
    ensures
        user_index_by_email(users, email) == Some(i),
    decreases i,
{
    if i > 0 {
        let t = users.skip(1);
        assert forall|j: int| 0 <= j < i - 1 implies t[j].email@ != email by {
            assert(t[j] == users[j + 1]);
        }
        assert(t[i - 1] == users[i]);
        lemma_user_email_is(t, email, i - 1);
    }
}

proof fn lemma_user_email_none(users: Seq<User>, email: Seq<char>)
    requires
        forall|j: int| 0 <= j < users.len() ==> users[j].email@ != email,
    ensures
        user_index_by_email(users, email) is None,
    decreases users.len(),
{
    if users.len() > 0 {
        let t = users.skip(1);
        assert forall|j: int| 0 <= j < t.len() implies t[j].email@ != email by {
            assert(t[j] == users[j + 1]);
        }
        lemma_user_email_none(t, email);
    }
}

proof fn lemma_user_id_is(users: Seq<User>, id: u128, i: int)
    requires
        0 <= i < users.len(),
        users[i].id == id,
        forall|j: int| 0 <= j < i ==> users[j].id != id,
    ensures
        user_index_by_id(users, id) == Some(i),
    decreases i,
{
    if i > 0 {
        let t = users.skip(1);
        assert forall|j: int| 0 <= j < i - 1 implies t[j].id != id by {
            assert(t[j] == users[j + 1]);
        }
        assert(t[i - 1] == users[i]);
        lemma_user_id_is(t, id, i - 1);
    }
}

proof fn lemma_user_id_none(users: Seq<User>, id: u128)
    requires
        forall|j: int| 0 <= j < users.len() ==> users[j].id != id,
    ensures
        user_index_by_id(users, id) is None,
    decreases users.len(),
{
    if users.len() > 0 {
        let t = users.skip(1);
        assert forall|j: int| 0 <= j < t.len() implies t[j].id != id by {
            assert(t[j] == users[j + 1]);
        }
        lemma_user_id_none(t, id);
    }
}

/// The in-memory model of the identity store.
pub struct UserStore {
    pub users: Vec<User>,
}

impl UserStore {
    /// Well-formed: ids and emails are unique.
    pub open spec fn wf(&self) -> bool {
        forall|i: int, j: int|
            0 <= i < j < self.users@.len() ==> (#[trigger] self.users@[i].id != #[trigger] self.users@[j].id
                && self.users@[i].email@ != self.users@[j].email@)
    }

    /// An empty store.
    pub fn new() -> (r: Self)
        ensures
            r.users@.len() == 0,
            r.wf(),
    {
        UserStore { users: Vec::new() }
    }

    /// The first identity with this email, if any.
    fn find_by_email(&self, email: &String) -> (r: Option<usize>)
        ensures
            r matches Some(i) ==> i < self.users@.len() && user_index_by_email(
                self.users@,
                email@,
            ) == Some(i as int),
            r is None ==> user_index_by_email(self.users@, email@) is None && (forall|j: int|
                0 <= j < self.users@.len() ==> self.users@[j].email@ != email@),
    {
        let n = self.users.len();
        let mut i: usize = 0;
        while i < n
            invariant
                i <= n,
                n == self.users@.len(),
                forall|j: int| 0 <= j < i ==> self.users@[j].email@ != email@,
            decreases n - i,
        {
            if self.users[i].email == *email {
                proof {
                    lemma_user_email_is(self.users@, email@, i as int);
                }
                return Some(i);
            }
            i += 1;
        }
        proof {
            lemma_user_email_none(self.users@, email@);
        }
        None
    }

    /// Inserts a fresh identity row, as the store's key constraint would:
    /// it fails exactly when the drawn id is already in use.
    fn insert(&mut self, user: User) -> (r: Result<(), AccountError>)
        requires
            old(self).wf(),
            forall|j: int|
                0 <= j < old(self).users@.len() ==> old(self).users@[j].email@ != user.email@,
        ensures
            final(self).wf(),
            r is Ok <==> user_index_by_id(old(self).users@, user.id) is None,
            r is Ok ==> final(self).users@ == old(self).users@.push(user),
            r is Err ==> final(self).users@ == old(self).users@ && r == Err::<(), AccountError>(
                AccountError::DuplicateId,
            ) && old(self).users@.len() > 0,
    {
        if self.find_by_id(user.id).is_some() {
            return Err(AccountError::DuplicateId);
        }
        self.users.push(user);
        Ok(())
    }

    /// The first identity with this id, if any.
    fn find_by_id(&self, id: u128) -> (r: Option<usize>)
        ensures
            r matches Some(i) ==> i < self.users@.len() && user_index_by_id(self.users@, id)
                == Some(i as int),
            r is None ==> user_index_by_id(self.users@, id) is None && (forall|j: int|
                0 <= j < self.users@.len() ==> self.users@[j].id != id),
    {
        let n = self.users.len();
        let mut i: usize = 0;
        while i < n
            invariant
                i <= n,
                n == self.users@.len(),
                forall|j: int| 0 <= j < i ==> self.users@[j].id != id,
            decreases n - i,
        {
            if self.users[i].id == id {
                proof {
                    lemma_user_id_is(self.users@, id, i as int);
                }
                return Some(i);
            }
            i += 1;
        }
        proof {
            lemma_user_id_none(self.users@, id);
        }
        None
    }
}

/// Registers a new identity: the email must be free; the password is
/// stored only as its one-way hash; a token is issued for the new id.
pub fn register(store: &mut UserStore, data: &RegisterUser, jwt_secret: &[u8], now: usize) -> (r:
    Result<AuthResponse, AccountError>)
    requires
        old(store).wf(),
        now + TOKEN_LIFETIME_SECS <= usize::MAX,
    ensures
        final(store).wf(),
        r matches Err(e) ==> final(store).users@ == old(store).users@ && (e
            == AccountError::EmailTaken <==> user_index_by_email(old(store).users@, data.email@)
            is Some) && (e == AccountError::EmailTaken || e == AccountError::HashingFailed || e
            == AccountError::DuplicateId) && (e == AccountError::DuplicateId
            ==> old(store).users@.len() > 0),
        r matches Ok(a) ==> ({
            let u = final(store).users@.last();
            &&& user_index_by_email(old(store).users@, data.email@) is None
            &&& final(store).users@ == old(store).users@.push(u)
            &&& u.username@ == data.username@
            &&& u.email@ == data.email@
            &&& bcrypt_matches(data.password@, u.password_hash@)
            &&& u.created_at == u.updated_at
            &&& a.user.id == u.id
            &&& a.user.username@ == u.username@
            &&& a.user.email@ == u.email@
            &&& a.user.created_at == u.created_at
            &&& encode_utf8(a.token@) == token_model(
                uuid_text(u.id),
                jwt_secret@,
                now,
            )
        }),
{
    if store.find_by_email(&data.email).is_some() {
        return Err(AccountError::EmailTaken);
    }
    let new_user = match data.to_new_user() {
        Ok(u) => u,
        Err(e) => {
            return Err(e);
        },
    };
    let user = User {
        id: new_user.id,
        username: new_user.username,
        email: new_user.email,
        password_hash: new_user.password_hash,
        created_at: new_user.created_at,
        updated_at: new_user.updated_at,
    };
    let id_text = uuid_to_string(user.id);
    proof {
        lemma_uuid_text_claim_safe(user.id);
    }
    let token = match generate_token(id_text.as_str(), jwt_secret, now) {
        Ok(t) => t,
        Err(_) => {
            proof {
                assert(false);
            }
            return Err(AccountError::TokenIssue(IssueError::InvalidIdentity));
        },
    };
    let response_user = user.to_response();
    match store.insert(user) {
        Ok(()) => Ok(AuthResponse { token, user: response_user }),
        Err(e) => Err(e),
    }
}

/// Logs an identity in: unknown email and wrong password give the same
/// outcome; on success a fresh token is issued.
pub fn login(store: &UserStore, data: &LoginUser, jwt_secret: &[u8], now: usize) -> (r: Result<
    AuthResponse,
    AccountError,
>)
    requires
        now + TOKEN_LIFETIME_SECS <= usize::MAX,
    ensures
        user_index_by_email(store.users@, data.email@) is None ==> r == Err::<
            AuthResponse,
            AccountError,
        >(AccountError::InvalidCredentials),
        user_index_by_email(store.users@, data.email@) matches Some(i) ==> ({
            let u = store.users@[i];
            if bcrypt_matches(data.password@, u.password_hash@) {
                r matches Ok(a) && a.user.id == u.id && a.user.username@ == u.username@
                    && a.user.email@ == u.email@ && a.user.created_at == u.created_at
                    && encode_utf8(a.token@) == token_model(
                    uuid_text(u.id),
                    jwt_secret@,
                    now,
                )
            } else {
                r == Err::<AuthResponse, AccountError>(AccountError::InvalidCredentials)
            }
        }),
{
    let idx = match store.find_by_email(&data.email) {
        Some(i) => i,
        None => {
            return Err(AccountError::InvalidCredentials);
        },
    };
    let u = &store.users[idx];
    if !u.verify_password(data.password.as_str()) {
        return Err(AccountError::InvalidCredentials);
    }
    let id_text = uuid_to_string(u.id);
    proof {
        lemma_uuid_text_claim_safe(u.id);
    }
    let token = match generate_token(id_text.as_str(), jwt_secret, now) {
        Ok(t) => t,
        Err(_) => {
            proof {
                assert(false);
            }
            return Err(AccountError::TokenIssue(IssueError::InvalidIdentity));
        },
    };
    let response_user = u.to_response();
    Ok(AuthResponse { token, user: response_user })
}

/// The profile of the authenticated identity, if it still exists.
pub fn get_profile(store: &UserStore, user_id: u128) -> (r: Option<UserResponse>)
    ensures
        user_index_by_id(store.users@, user_id) is None ==> r is None,
        user_index_by_id(store.users@, user_id) matches Some(i) ==> (r matches Some(p) && ({
            let u = store.users@[i];
            p.id == u.id && p.username@ == u.username@ && p.email@ == u.email@ && p.created_at
                == u.created_at
        })),
{
    match store.find_by_id(user_id) {
        Some(i) => Some(store.users[i].to_response()),
        None => None,
    }
}

} // verus!
