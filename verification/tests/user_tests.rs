use credvault::errors::AccountError;
use credvault::token::validate_token;
use credvault::users::{get_profile, login, register, LoginUser, RegisterUser, User, UserStore};

const SECRET: &[u8] = b"a signing secret nobody else has";

fn alice() -> RegisterUser {
    RegisterUser {
        username: "alice".to_string(),
        email: "alice@example.com".to_string(),
        password: "hunter2".to_string(),
    }
}

#[test]
fn register_issues_a_verifiable_token() {
    let mut store = UserStore::new();
    let auth = register(&mut store, &alice(), SECRET, 1000).unwrap();
    assert_eq!(auth.user.username, "alice");
    assert_eq!(auth.user.email, "alice@example.com");
    let claims = validate_token(&auth.token, SECRET, 1000).unwrap();
    assert_eq!(claims.user_id, uuid::Uuid::from_u128(auth.user.id).hyphenated().to_string());
    // the password is never stored in plaintext
    assert_ne!(store.users[0].password_hash, "hunter2");
    assert!(!store.users[0].password_hash.contains("hunter2"));
}

#[test]
fn register_rejects_a_taken_email() {
    let mut store = UserStore::new();
    register(&mut store, &alice(), SECRET, 1000).unwrap();
    let again = RegisterUser {
        username: "alice2".to_string(),
        email: "alice@example.com".to_string(),
        password: "other".to_string(),
    };
    assert_eq!(register(&mut store, &again, SECRET, 1000).unwrap_err(), AccountError::EmailTaken);
    assert_eq!(store.users.len(), 1);
}

#[test]
fn login_accepts_the_registered_password() {
    let mut store = UserStore::new();
    let registered = register(&mut store, &alice(), SECRET, 1000).unwrap();
    let auth = login(
        &store,
        &LoginUser { email: "alice@example.com".to_string(), password: "hunter2".to_string() },
        SECRET,
        2000,
    )
    .unwrap();
    assert_eq!(auth.user.id, registered.user.id);
    assert!(validate_token(&auth.token, SECRET, 2000).is_ok());
}

#[test]
fn login_rejects_a_wrong_password() {
    let mut store = UserStore::new();
    register(&mut store, &alice(), SECRET, 1000).unwrap();
    let outcome = login(
        &store,
        &LoginUser { email: "alice@example.com".to_string(), password: "hunter3".to_string() },
        SECRET,
        2000,
    );
    assert_eq!(outcome.unwrap_err(), AccountError::InvalidCredentials);
}

#[test]
fn login_rejects_an_unknown_email_with_the_same_outcome() {
    let store = UserStore::new();
    let outcome = login(
        &store,
        &LoginUser { email: "nobody@example.com".to_string(), password: "hunter2".to_string() },
        SECRET,
        2000,
    );
    assert_eq!(outcome.unwrap_err(), AccountError::InvalidCredentials);
}

#[test]
fn profile_is_found_by_id_only() {
    let mut store = UserStore::new();
    store.users.push(User {
        id: 7,
        username: "bob".to_string(),
        email: "bob@example.com".to_string(),
        password_hash: "$2b$12$nothing".to_string(),
        created_at: 5,
        updated_at: 5,
    });
    let profile = get_profile(&store, 7).unwrap();
    assert_eq!(profile.username, "bob");
    assert_eq!(profile.email, "bob@example.com");
    assert_eq!(profile.created_at, 5);
    assert!(get_profile(&store, 8).is_none());
}
