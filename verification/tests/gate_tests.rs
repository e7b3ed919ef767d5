use credvault::errors::AuthError;
use credvault::gate::AuthMiddleware;
use credvault::token::generate_token;

const SECRET: &[u8] = b"a signing secret nobody else has";
const ID_TEXT: &str = "2c18f5f6-22f3-4fcb-9673-3e0a60e0a282";

#[test]
fn gate_binds_the_identity_from_a_bearer_token() {
    let token = generate_token(ID_TEXT, SECRET, 1000).unwrap();
    let header = format!("Bearer {}", token);
    let gate = AuthMiddleware;
    let id = gate.authorize(Some(&header), SECRET, 1000).unwrap();
    assert_eq!(id, uuid::Uuid::parse_str(ID_TEXT).unwrap().as_u128());
}

#[test]
fn gate_rejects_a_missing_header() {
    let gate = AuthMiddleware;
    assert_eq!(gate.authorize(None, SECRET, 0).unwrap_err(), AuthError::Unauthorized);
}

#[test]
fn gate_rejects_a_non_bearer_scheme() {
    let gate = AuthMiddleware;
    assert_eq!(
        gate.authorize(Some("Basic dXNlcjpwdw"), SECRET, 0).unwrap_err(),
        AuthError::Unauthorized
    );
    assert_eq!(gate.authorize(Some("Bearer"), SECRET, 0).unwrap_err(), AuthError::Unauthorized);
}

#[test]
fn gate_rejects_a_garbage_token() {
    let gate = AuthMiddleware;
    assert_eq!(
        gate.authorize(Some("Bearer not.a.token"), SECRET, 0).unwrap_err(),
        AuthError::Malformed
    );
}

#[test]
fn gate_rejects_an_expired_token() {
    let token = generate_token(ID_TEXT, SECRET, 1000).unwrap();
    let header = format!("Bearer {}", token);
    let gate = AuthMiddleware;
    assert_eq!(
        gate.authorize(Some(&header), SECRET, 1000 + 86401).unwrap_err(),
        AuthError::TokenExpired
    );
}

#[test]
fn gate_rejects_a_subject_that_is_no_identity_id() {
    let token = generate_token("not-a-uuid", SECRET, 1000).unwrap();
    let header = format!("Bearer {}", token);
    let gate = AuthMiddleware;
    assert_eq!(gate.authorize(Some(&header), SECRET, 1000).unwrap_err(), AuthError::Unauthorized);
}

#[test]
fn gate_rejects_a_token_signed_with_another_secret() {
    let token = generate_token(ID_TEXT, b"some other signing secret......", 1000).unwrap();
    let header = format!("Bearer {}", token);
    let gate = AuthMiddleware;
    assert_eq!(
        gate.authorize(Some(&header), SECRET, 1000).unwrap_err(),
        AuthError::SignatureInvalid
    );
}
