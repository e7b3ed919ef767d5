use credvault::base64url::{b64_decode_bytes, b64_encode_bytes};
use credvault::decimal::{decimal_to_usize, usize_to_decimal};
use credvault::errors::{AuthError, IssueError};
use credvault::token::{generate_token, validate_token, TOKEN_LIFETIME_SECS};

const SECRET: &[u8] = b"a signing secret nobody else has";

#[test]
fn issue_then_verify_yields_the_identity() {
    let token = generate_token("alice", SECRET, 1000).unwrap();
    let claims = validate_token(&token, SECRET, 1000).unwrap();
    assert_eq!(claims.sub, "auth");
    assert_eq!(claims.user_id, "alice");
    assert_eq!(claims.iat, 1000);
    assert_eq!(claims.exp, 1000 + TOKEN_LIFETIME_SECS);
}

#[test]
fn token_lifetime_window() {
    let t0: usize = 1_700_000_000;
    let token = generate_token("2c18f5f6-22f3-4fcb-9673-3e0a60e0a282", SECRET, t0).unwrap();
    // 23h59m after issue: still valid
    assert!(validate_token(&token, SECRET, t0 + 86340).is_ok());
    // exactly at expiry: still valid
    assert!(validate_token(&token, SECRET, t0 + 86400).is_ok());
    // one second past the window: expired
    assert_eq!(validate_token(&token, SECRET, t0 + 86401).unwrap_err(), AuthError::TokenExpired);
}

#[test]
fn token_has_standard_header_segment() {
    let token = generate_token("alice", SECRET, 1000).unwrap();
    assert!(token.starts_with("eyJhbGciOiJIUzI1NiIsInR5cCI6IkpXVCJ9."));
    assert_eq!(token.split('.').count(), 3);
}

#[test]
fn signature_interoperates_with_jsonwebtoken() {
    let token = generate_token("alice", SECRET, 1000).unwrap();
    let parts: Vec<&str> = token.splitn(3, '.').collect();
    let message = format!("{}.{}", parts[0], parts[1]);
    let ok = jsonwebtoken::crypto::verify(
        parts[2],
        message.as_bytes(),
        &jsonwebtoken::DecodingKey::from_secret(SECRET),
        jsonwebtoken::Algorithm::HS256,
    )
    .unwrap();
    assert!(ok);
}

#[test]
fn wrong_secret_is_rejected() {
    let token = generate_token("alice", SECRET, 1000).unwrap();
    assert_eq!(
        validate_token(&token, b"another secret entirely........", 1000).unwrap_err(),
        AuthError::SignatureInvalid
    );
}

#[test]
fn tampered_signature_is_rejected() {
    let token = generate_token("alice", SECRET, 1000).unwrap();
    let flipped = if token.ends_with('A') { "B" } else { "A" };
    let mut tampered = token[..token.len() - 1].to_string();
    tampered.push_str(flipped);
    assert_eq!(validate_token(&tampered, SECRET, 1000).unwrap_err(), AuthError::SignatureInvalid);
}

#[test]
fn malformed_tokens_are_rejected() {
    assert_eq!(validate_token("", SECRET, 0).unwrap_err(), AuthError::Malformed);
    assert_eq!(validate_token("abc", SECRET, 0).unwrap_err(), AuthError::Malformed);
    assert_eq!(validate_token("a.b", SECRET, 0).unwrap_err(), AuthError::Malformed);
    assert_eq!(validate_token("a.b.c", SECRET, 0).unwrap_err(), AuthError::Malformed);
}

#[test]
fn identity_with_a_quote_cannot_be_issued() {
    assert_eq!(generate_token("al\"ice", SECRET, 0).unwrap_err(), IssueError::InvalidIdentity);
    assert_eq!(generate_token("al\\ice", SECRET, 0).unwrap_err(), IssueError::InvalidIdentity);
}

#[test]
fn base64url_matches_known_vectors() {
    let cases: &[(&[u8], &str)] = &[
        (b"", ""),
        (b"f", "Zg"),
        (b"fo", "Zm8"),
        (b"foo", "Zm9v"),
        (b"foob", "Zm9vYg"),
        (b"fooba", "Zm9vYmE"),
        (b"foobar", "Zm9vYmFy"),
        (&[0xfb, 0xff, 0xfe], "-__-"),
    ];
    for (input, expected) in cases {
        let encoded = b64_encode_bytes(&input.to_vec());
        assert_eq!(String::from_utf8(encoded.clone()).unwrap(), *expected);
        assert_eq!(b64_decode_bytes(&encoded), Some(input.to_vec()));
    }
}

#[test]
fn base64url_rejects_non_canonical_text() {
    // a padding character
    assert_eq!(b64_decode_bytes(&b"Zg==".to_vec()), None);
    // a lone character
    assert_eq!(b64_decode_bytes(&b"Z".to_vec()), None);
    // nonzero trailing bits
    assert_eq!(b64_decode_bytes(&b"Zh".to_vec()), None);
    // a byte outside the alphabet
    assert_eq!(b64_decode_bytes(&b"Zm+v".to_vec()), None);
}

#[test]
fn decimal_text_round_trips() {
    for n in [0usize, 1, 9, 10, 86400, 1_700_000_000, usize::MAX] {
        let text = usize_to_decimal(n);
        assert_eq!(String::from_utf8(text.clone()).unwrap(), n.to_string());
        assert_eq!(decimal_to_usize(&text), Some(n));
    }
}

#[test]
fn decimal_parser_rejects_bad_text() {
    assert_eq!(decimal_to_usize(&b"".to_vec()), None);
    assert_eq!(decimal_to_usize(&b"01".to_vec()), None);
    assert_eq!(decimal_to_usize(&b"1a".to_vec()), None);
    assert_eq!(decimal_to_usize(&b"-1".to_vec()), None);
    assert_eq!(decimal_to_usize(&b"99999999999999999999999".to_vec()), None);
}
