//! The token service: issuance and verification of signed, time-bounded
//! identity tokens.
//!
//! A token is three dot-separated base64url segments: a fixed header, a
//! claim set, and a keyed digest of the first two segments.  The segment
//! format, the claim text and its parser are implemented and verified
//! here; only the keyed digest itself is computed by an outside crate.
//! Verification is a pure function of the token, the signing secret and
//! the current time.

use vstd::prelude::*;

use crate::base64url::{
    b64_decode, b64_decode_bytes, b64_encode, b64_encode_bytes, b64_text_valid, is_b64_char,
    lemma_b64_round_trip, lemma_b64_text_chars,
};
use crate::decimal::{
    dec_digits, dec_text_valid, dec_value, decimal_to_usize, is_digit, lemma_dec_round_trip,
    usize_to_decimal,
};
use crate::errors::{AuthError, IssueError};
use vstd::slice::{slice_subrange, slice_to_vec};
use vstd::string::{StrSliceExecFns, StringExecFns, StringSliceAdditionalSpecFns};
use vstd::utf8::{
    decode_utf8, encode_utf8, is_ascii_chars, is_leading_byte_width_1, pop_first_scalar,
    valid_first_scalar, valid_utf8,
};

verus! {

broadcast use vstd::utf8::encode_utf8_valid_utf8, vstd::utf8::encode_utf8_decode_utf8, vstd::utf8::is_ascii_chars_encode_utf8, vstd::utf8::char_is_scalar;

/// How long a token stays valid, in seconds: twenty-four hours.
pub const TOKEN_LIFETIME_SECS: usize = 86400;

/// The claim set carried by a token.
#[derive(Debug)]
pub struct Claims {
    /// The claim subject; always the authentication subject.
    pub sub: String,
    /// The identity the token was issued for.
    pub user_id: String,
    /// Expiry instant, in seconds.
    pub exp: usize,
    /// Issue instant, in seconds.
    pub iat: usize,
}

/// The claim set as verification reports it, in mathematical form.
pub struct ClaimsModel {
    pub user_id: Seq<char>,
    pub exp: usize,
    pub iat: usize,
}

/// What the token names as the result of the keyed digest: the base64url
/// text of the HMAC-SHA256 of the message under the secret.
pub uninterp spec fn hmac_sig_of(secret: Seq<u8>, message: Seq<u8>) -> Seq<char>;

/// Relies on jsonwebtoken::crypto::sign with Algorithm::HS256: the result
/// is the base64url (hence ASCII) text of the keyed digest, a function of
/// the secret and the message alone; the HS256 arm never returns an error.
#[verifier::external_body]
fn sign_hs256(secret: &[u8], message: &Vec<u8>) -> (r: String)
    ensures
        r@ == hmac_sig_of(secret@, message@),
        is_ascii_chars(r@),
{
    jsonwebtoken::crypto::sign(
        message.as_slice(),
        &jsonwebtoken::EncodingKey::from_secret(secret),
        jsonwebtoken::Algorithm::HS256,
    ).expect("the HS256 arm of sign is infallible")
}

/// A sequence of bytes below 0x80 is valid UTF-8 and decodes byte for
/// byte.
pub proof fn lemma_ascii_bytes_utf8(b: Seq<u8>)
    requires
        forall|i: int| 0 <= i < b.len() ==> b[i] < 0x80,
    ensures
        valid_utf8(b),
        decode_utf8(b) == Seq::new(b.len(), |i: int| b[i] as char),
    decreases b.len(),
{
    if b.len() > 0 {
        assert(is_leading_byte_width_1(b[0]));
        let b0 = b[0];
        assert((b0 & 0x7f) == b0) by (bit_vector)
            requires
                b0 < 0x80,
        ;
        assert(valid_first_scalar(b));
        assert(pop_first_scalar(b) =~= b.skip(1));
        lemma_ascii_bytes_utf8(b.skip(1));
        assert(decode_utf8(b) =~= Seq::new(b.len(), |i: int| b[i] as char));
    } else {
        assert(decode_utf8(b) =~= Seq::new(b.len(), |i: int| b[i] as char));
    }
}

/// The bytes of the fixed token header, a JSON object naming the signing
/// scheme and token type.
pub open spec fn header_json() -> Seq<u8> {
    // {"alg":"HS256","typ":"JWT"}
    seq![
        0x7b, 0x22, 0x61, 0x6c, 0x67, 0x22, 0x3a, 0x22, 0x48, 0x53, 0x32, 0x35, 0x36, 0x22, 0x2c,
        0x22, 0x74, 0x79, 0x70, 0x22, 0x3a, 0x22, 0x4a, 0x57, 0x54, 0x22, 0x7d,
    ]
}

/// The first token segment: base64url text of the fixed header.
pub open spec fn header_b64() -> Seq<u8> {
    b64_encode(header_json())
}

/// The claim text up to the identity id.
pub open spec fn claims_prefix() -> Seq<u8> {
    // {"sub":"auth","user_id":"
    seq![
        0x7b, 0x22, 0x73, 0x75, 0x62, 0x22, 0x3a, 0x22, 0x61, 0x75, 0x74, 0x68, 0x22, 0x2c, 0x22,
        0x75, 0x73, 0x65, 0x72, 0x5f, 0x69, 0x64, 0x22, 0x3a, 0x22,
    ]
}

/// The claim text between the identity id and the expiry instant.
pub open spec fn exp_label() -> Seq<u8> {
    // ","exp":
    seq![0x22, 0x2c, 0x22, 0x65, 0x78, 0x70, 0x22, 0x3a]
}

/// The claim text between the expiry and issue instants.
pub open spec fn iat_label() -> Seq<u8> {
    // ,"iat":
    seq![0x2c, 0x22, 0x69, 0x61, 0x74, 0x22, 0x3a]
}

/// The claim text of a claim set: one JSON object with the fixed subject,
/// the identity id, and the two instants in canonical decimal.
pub open spec fn claims_json(uid: Seq<u8>, exp: nat, iat: nat) -> Seq<u8> {
    claims_prefix() + uid + exp_label() + dec_digits(exp) + iat_label() + dec_digits(iat) + seq![
        0x7d,
    ]
}

/// Whether an identity id can stand in the claim text: no quote, no
/// backslash, no control bytes.
pub open spec fn uid_ok(b: Seq<u8>) -> bool {
    forall|i: int| 0 <= i < b.len() ==> (#[trigger] b[i] != 0x22 && b[i] != 0x5c && b[i] >= 0x20)
}

/// The index of the first occurrence of a byte.
pub open spec fn find_byte(s: Seq<u8>, c: u8) -> Option<int>
    decreases s.len(),
{
    if s.len() == 0 {
        None
    } else if s[0] == c {
        Some(0)
    } else {
        match find_byte(s.skip(1), c) {
            Some(i) => Some(i + 1),
            None => None,
        }
    }
}

pub proof fn lemma_find_byte_is(s: Seq<u8>, c: u8, i: int)
    requires
        0 <= i < s.len(),
        s[i] == c,
        forall|j: int| 0 <= j < i ==> s[j] != c,
    ensures
        find_byte(s, c) == Some(i),
    decreases i,
{
    if i > 0 {
        assert(s[0] != c);
        let t = s.skip(1);
        assert forall|j: int| 0 <= j < i - 1 implies t[j] != c by {
            assert(t[j] == s[j + 1]);
        }
        assert(t[i - 1] == s[i]);
        lemma_find_byte_is(t, c, i - 1);
    }
}

pub proof fn lemma_find_byte_none(s: Seq<u8>, c: u8)
    requires
        forall|j: int| 0 <= j < s.len() ==> s[j] != c,
    ensures
        find_byte(s, c) is None,
    decreases s.len(),
{
    if s.len() > 0 {
        let t = s.skip(1);
        assert forall|j: int| 0 <= j < t.len() implies t[j] != c by {
            assert(t[j] == s[j + 1]);
        }
        lemma_find_byte_none(t, c);
    }
}

/// The token split at its first two dots: header, claim segment, and the
/// whole remainder as the signature segment.
pub open spec fn split3(t: Seq<u8>) -> Option<(Seq<u8>, Seq<u8>, Seq<u8>)> {
    match find_byte(t, 0x2e) {
        None => None,
        Some(i) => {
            let rest = t.skip(i + 1);
            match find_byte(rest, 0x2e) {
                None => None,
                Some(j) => Some((t.take(i), rest.take(j), rest.skip(j + 1))),
            }
        },
    }
}

/// The exact claim text a claim set parses out of a byte sequence, if any:
/// the fixed prefix, an identity id up to the next quote, the two labelled
/// canonical decimal instants, and the closing brace as the last byte.
pub open spec fn parse_claims(s: Seq<u8>) -> Option<(Seq<u8>, usize, usize)> {
    if !(s.len() >= 25 && s.take(25) == claims_prefix()) {
        None
    } else {
        let rest = s.skip(25);
        match find_byte(rest, 0x22) {
            None => None,
            Some(q) => {
                let uid = rest.take(q);
                let rest2 = rest.skip(q);
                if !(rest2.len() >= 8 && rest2.take(8) == exp_label()) {
                    None
                } else {
                    let rest3 = rest2.skip(8);
                    match find_byte(rest3, 0x2c) {
                        None => None,
                        Some(k) => {
                            let expd = rest3.take(k);
                            let rest4 = rest3.skip(k);
                            if !(rest4.len() >= 7 && rest4.take(7) == iat_label()) {
                                None
                            } else {
                                let rest5 = rest4.skip(7);
                                if !(rest5.len() >= 2 && rest5.last() == 0x7d) {
                                    None
                                } else {
                                    let iatd = rest5.take(rest5.len() - 1);
                                    if dec_text_valid(expd) && dec_value(expd) <= usize::MAX
                                        && dec_text_valid(iatd) && dec_value(iatd) <= usize::MAX {
                                        Some(
                                            (
                                                uid,
                                                dec_value(expd) as usize,
                                                dec_value(iatd) as usize,
                                            ),
                                        )
                                    } else {
                                        None
                                    }
                                }
                            }
                        },
                    }
                }
            },
        }
    }
}

/// The first two token segments, ready to be signed.
pub open spec fn signing_input(uid: Seq<u8>, exp: nat, iat: nat) -> Seq<u8> {
    header_b64() + seq![0x2e] + b64_encode(claims_json(uid, exp, iat))
}

/// The whole token issued for an identity at an instant.
pub open spec fn token_model(uid: Seq<u8>, secret: Seq<u8>, iat: usize) -> Seq<u8> {
    let si = signing_input(uid, (iat + TOKEN_LIFETIME_SECS) as nat, iat as nat);
    si + seq![0x2e] + encode_utf8(hmac_sig_of(secret, si))
}

/// The exact outcome of verifying a token against a secret at an instant:
/// structural checks first, then the signature, then expiry.
pub open spec fn validate_model(token: Seq<u8>, secret: Seq<u8>, now: usize) -> Result<
    ClaimsModel,
    AuthError,
> {
    match split3(token) {
        None => Err(AuthError::Malformed),
        Some((h, p, sg)) => {
            if h != header_b64() {
                Err(AuthError::Malformed)
            } else if !b64_text_valid(p) {
                Err(AuthError::Malformed)
            } else {
                match parse_claims(b64_decode(p)) {
                    None => Err(AuthError::Malformed),
                    Some((uid, exp, iat)) => {
                        if !valid_utf8(uid) {
                            Err(AuthError::Malformed)
                        } else if sg != encode_utf8(hmac_sig_of(secret, h + seq![0x2e] + p)) {
                            Err(AuthError::SignatureInvalid)
                        } else if now > exp {
                            Err(AuthError::TokenExpired)
                        } else {
                            Ok(ClaimsModel { user_id: decode_utf8(uid), exp, iat })
                        }
                    },
                }
            }
        },
    }
}

/// The claim prefix as bytes.
fn claims_prefix_vec() -> (r: Vec<u8>)
    ensures
        r@ == claims_prefix(),
{
    let mut v: Vec<u8> = Vec::new();
    v.push(0x7b);
    v.push(0x22);
    v.push(0x73);
    v.push(0x75);
    v.push(0x62);
    v.push(0x22);
    v.push(0x3a);
    v.push(0x22);
    v.push(0x61);
    v.push(0x75);
    v.push(0x74);
    v.push(0x68);
    v.push(0x22);
    v.push(0x2c);
    v.push(0x22);
    v.push(0x75);
    v.push(0x73);
    v.push(0x65);
    v.push(0x72);
    v.push(0x5f);
    v.push(0x69);
    v.push(0x64);
    v.push(0x22);
    v.push(0x3a);
    v.push(0x22);
    assert(v@ =~= claims_prefix());
    v
}

/// The expiry label as bytes.
fn exp_label_vec() -> (r: Vec<u8>)
    ensures
        r@ == exp_label(),
{
    let mut v: Vec<u8> = Vec::new();
    v.push(0x22);
    v.push(0x2c);
    v.push(0x22);
    v.push(0x65);
    v.push(0x78);
    v.push(0x70);
    v.push(0x22);
    v.push(0x3a);
    assert(v@ =~= exp_label());
    v
}

/// The issue-instant label as bytes.
fn iat_label_vec() -> (r: Vec<u8>)
    ensures
        r@ == iat_label(),
{
    let mut v: Vec<u8> = Vec::new();
    v.push(0x2c);
    v.push(0x22);
    v.push(0x69);
    v.push(0x61);
    v.push(0x74);
    v.push(0x22);
    v.push(0x3a);
    assert(v@ =~= iat_label());
    v
}

/// The first token segment as bytes.
fn make_header_segment() -> (r: Vec<u8>)
    ensures
        r@ == header_b64(),
{
    let mut j: Vec<u8> = Vec::new();
    j.push(0x7b);
    j.push(0x22);
    j.push(0x61);
    j.push(0x6c);
    j.push(0x67);
    j.push(0x22);
    j.push(0x3a);
    j.push(0x22);
    j.push(0x48);
    j.push(0x53);
    j.push(0x32);
    j.push(0x35);
    j.push(0x36);
    j.push(0x22);
    j.push(0x2c);
    j.push(0x22);
    j.push(0x74);
    j.push(0x79);
    j.push(0x70);
    j.push(0x22);
    j.push(0x3a);
    j.push(0x22);
    j.push(0x4a);
    j.push(0x57);
    j.push(0x54);
    j.push(0x22);
    j.push(0x7d);
    assert(j@ =~= header_json());
    b64_encode_bytes(&j)
}

/// Scans for the first occurrence of a byte at or after an offset.
fn find_byte_from(s: &Vec<u8>, from: usize, c: u8) -> (r: Option<usize>)
    requires
        from <= s@.len(),
    ensures
        r matches Some(i) ==> from <= i < s@.len() && s@[i as int] == c && (forall|j: int|
            from <= j < i ==> s@[j] != c),
        r is None ==> forall|j: int| from <= j < s@.len() ==> s@[j] != c,
{
    let n = s.len();
    let mut i = from;
    while i < n
        invariant
            from <= i <= n,
            n == s@.len(),
            forall|j: int| from <= j < i ==> s@[j] != c,
        decreases n - i,
    {
        if s[i] == c {
            return Some(i);
        }
        i += 1;
    }
    None
}

/// Whether the bytes at an offset are exactly the pattern.
pub(crate) fn match_at(s: &Vec<u8>, at: usize, pat: &Vec<u8>) -> (r: bool)
    requires
        at <= s@.len(),
    ensures
        r == (at + pat@.len() <= s@.len() && s@.subrange(at as int, at + pat@.len()) == pat@),
{
    let m = pat.len();
    let n = s.len();
    if n - at < m {
        return false;
    }
    let mut i: usize = 0;
    while i < m
        invariant
            i <= m,
            at + m <= n,
            n == s@.len(),
            m == pat@.len(),
            forall|j: int| 0 <= j < i ==> s@[at + j] == pat@[j],
        decreases m - i,
    {
        if s[at + i] != pat[i] {
            proof {
                assert(s@.subrange(at as int, at + pat@.len())[i as int] == s@[at + i]);
            }
            return false;
        }
        i += 1;
    }
    proof {
        assert(s@.subrange(at as int, at + pat@.len()) =~= pat@);
    }
    true
}

/// Parses the claim text, accepting exactly what `parse_claims` accepts.
fn parse_claims_exec(s: &Vec<u8>) -> (r: Option<(Vec<u8>, usize, usize)>)
    ensures
        r is Some <==> parse_claims(s@) is Some,
        r matches Some(t) ==> parse_claims(s@) == Some((t.0@, t.1, t.2)),
{
    let n = s.len();
    let prefix = claims_prefix_vec();
    if !match_at(s, 0, &prefix) {
        proof {
            if s@.len() >= 25 {
                assert(s@.subrange(0, 25) =~= s@.take(25));
            }
        }
        return None;
    }
    proof {
        assert(s@.take(25) =~= s@.subrange(0, 25));
    }
    let ghost rest = s@.skip(25);
    let q_abs = match find_byte_from(s, 25, 0x22) {
        Some(q) => q,
        None => {
            proof {
                assert forall|j: int| 0 <= j < rest.len() implies rest[j] != 0x22 by {
                    assert(rest[j] == s@[25 + j]);
                }
                lemma_find_byte_none(rest, 0x22);
            }
            return None;
        },
    };
    proof {
        assert(rest[q_abs - 25] == s@[q_abs as int]);
        assert forall|j: int| 0 <= j < q_abs - 25 implies rest[j] != 0x22 by {
            assert(rest[j] == s@[25 + j]);
        }
        lemma_find_byte_is(rest, 0x22, q_abs - 25);
    }
    let uid_vec = slice_to_vec(slice_subrange(s.as_slice(), 25, q_abs));
    let ghost q = q_abs - 25int;
    let ghost rest2 = rest.skip(q);
    proof {
        assert(rest.take(q) =~= s@.subrange(25, q_abs as int));
    }
    let elabel = exp_label_vec();
    if !match_at(s, q_abs, &elabel) {
        proof {
            assert(rest2.len() == s@.len() - q_abs);
            if rest2.len() >= 8 {
                assert(rest2.take(8) =~= s@.subrange(q_abs as int, q_abs + 8));
            }
        }
        return None;
    }
    proof {
        assert(rest2.take(8) =~= s@.subrange(q_abs as int, q_abs + 8));
    }
    let ghost rest3 = rest2.skip(8);
    let exp_start = q_abs + 8;
    let k_abs = match find_byte_from(s, exp_start, 0x2c) {
        Some(k) => k,
        None => {
            proof {
                assert forall|j: int| 0 <= j < rest3.len() implies rest3[j] != 0x2c by {
                    assert(rest3[j] == s@[exp_start + j]);
                }
                lemma_find_byte_none(rest3, 0x2c);
            }
            return None;
        },
    };
    proof {
        assert(rest3[k_abs - exp_start] == s@[k_abs as int]);
        assert forall|j: int| 0 <= j < k_abs - exp_start implies rest3[j] != 0x2c by {
            assert(rest3[j] == s@[exp_start + j]);
        }
        lemma_find_byte_is(rest3, 0x2c, k_abs - exp_start);
    }
    let expd_vec = slice_to_vec(slice_subrange(s.as_slice(), exp_start, k_abs));
    let ghost k = k_abs - exp_start;
    let ghost rest4 = rest3.skip(k);
    proof {
        assert(rest3.take(k) =~= s@.subrange(exp_start as int, k_abs as int));
    }
    let ilabel = iat_label_vec();
    if !match_at(s, k_abs, &ilabel) {
        proof {
            assert(rest4.len() == s@.len() - k_abs);
            if rest4.len() >= 7 {
                assert(rest4.take(7) =~= s@.subrange(k_abs as int, k_abs + 7));
            }
        }
        return None;
    }
    proof {
        assert(rest4.take(7) =~= s@.subrange(k_abs as int, k_abs + 7));
    }
    let iat_start = k_abs + 7;
    let ghost rest5 = rest4.skip(7);
    proof {
        assert(rest5.len() == s@.len() - iat_start);
    }
    if n - iat_start < 2 {
        return None;
    }
    if s[n - 1] != 0x7d {
        proof {
            assert(rest5.last() == s@[n - 1]);
        }
        return None;
    }
    proof {
        assert(rest5.last() == s@[n - 1]);
    }
    let iatd_vec = slice_to_vec(slice_subrange(s.as_slice(), iat_start, n - 1));
    proof {
        assert(rest5.take(rest5.len() - 1) =~= s@.subrange(iat_start as int, n - 1));
    }
    let exp = match decimal_to_usize(&expd_vec) {
        Some(v) => v,
        None => {
            return None;
        },
    };
    let iat = match decimal_to_usize(&iatd_vec) {
        Some(v) => v,
        None => {
            return None;
        },
    };
    Some((uid_vec, exp, iat))
}

/// Whether every byte of an identity id can stand in the claim text.
fn check_uid(uid: &Vec<u8>) -> (r: bool)
    ensures
        r == uid_ok(uid@),
{
    let n = uid.len();
    let mut i: usize = 0;
    while i < n
        invariant
            i <= n,
            n == uid@.len(),
            forall|j: int|
                0 <= j < i ==> (#[trigger] uid@[j] != 0x22 && uid@[j] != 0x5c && uid@[j] >= 0x20),
        decreases n - i,
    {
        let c = uid[i];
        if c == 0x22 || c == 0x5c || c < 0x20 {
            return false;
        }
        i += 1;
    }
    true
}

/// Issues a signed token for an identity: claims with the fixed subject,
/// the issue instant, and an expiry a fixed window later, signed with the
/// configured secret.
pub fn generate_token(user_id: &str, secret: &[u8], now: usize) -> (r: Result<String, IssueError>)
    requires
        now + TOKEN_LIFETIME_SECS <= usize::MAX,
    ensures
        r is Ok <==> uid_ok(encode_utf8(user_id@)),
        r matches Ok(t) ==> encode_utf8(t@) == token_model(encode_utf8(user_id@), secret@, now),
        r matches Err(e) ==> e == IssueError::InvalidIdentity,
{
    let uid = user_id.as_bytes_vec();
    if !check_uid(&uid) {
        return Err(IssueError::InvalidIdentity);
    }
    let exp = now + TOKEN_LIFETIME_SECS;
    let mut json = claims_prefix_vec();
    json.extend_from_slice(uid.as_slice());
    let elabel = exp_label_vec();
    json.extend_from_slice(elabel.as_slice());
    let expd = usize_to_decimal(exp);
    json.extend_from_slice(expd.as_slice());
    let ilabel = iat_label_vec();
    json.extend_from_slice(ilabel.as_slice());
    let iatd = usize_to_decimal(now);
    json.extend_from_slice(iatd.as_slice());
    json.push(0x7d);
    proof {
        assert(json@ =~= claims_json(uid@, exp as nat, now as nat));
    }
    let payload = b64_encode_bytes(&json);
    let mut si = make_header_segment();
    si.push(0x2e);
    si.extend_from_slice(payload.as_slice());
    proof {
        assert(si@ =~= signing_input(uid@, exp as nat, now as nat));
    }
    let sig = sign_hs256(secret, &si);
    let sig_bytes = sig.as_bytes_vec();
    let mut tok = si;
    tok.push(0x2e);
    tok.extend_from_slice(sig_bytes.as_slice());
    proof {
        assert(tok@ =~= token_model(uid@, secret@, now));
        lemma_b64_round_trip(header_json());
        lemma_b64_text_chars(header_b64());
        lemma_b64_round_trip(json@);
        lemma_b64_text_chars(payload@);
        broadcast use vstd::utf8::is_ascii_chars_nat_bound;

        assert forall|i: int| 0 <= i < tok@.len() implies tok@[i] < 0x80 by {
            if i < si@.len() {
                let h = header_b64();
                if i < h.len() {
                    assert(si@[i] == h[i]);
                    assert(is_b64_char(h[i]));
                } else if i == h.len() {
                    assert(si@[i] == 0x2e);
                } else {
                    assert(si@[i] == payload@[i - h.len() - 1]);
                    assert(is_b64_char(payload@[i - h.len() - 1]));
                }
            } else if i == si@.len() {
                assert(tok@[i] == 0x2e);
            } else {
                let j = i - si@.len() - 1;
                assert(tok@[i] == sig_bytes@[j]);
                assert(sig_bytes@[j] == sig@[j] as u8);
                assert(sig@[j] <= '\u{7f}');
            }
        }
        lemma_ascii_bytes_utf8(tok@);
    }
    match crate::cipher::bytes_to_string(tok) {
        Some(t) => Ok(t),
        None => {
            proof {
                assert(false);
            }
            Err(IssueError::InvalidIdentity)
        },
    }
}

/// Verifies a token against the signing secret at the given instant:
/// structural validity, then signature correctness, then expiry.  The
/// outcome is a pure function of these three inputs.
pub fn validate_token(token: &str, secret: &[u8], now: usize) -> (r: Result<Claims, AuthError>)
    ensures
        r matches Ok(c) ==> (validate_model(token.spec_bytes(), secret@, now) matches Ok(m)
            && c.user_id@ == m.user_id && c.exp == m.exp && c.iat == m.iat && c.sub@ == "auth"@),
        r matches Err(e) ==> validate_model(token.spec_bytes(), secret@, now) == Err::<
            ClaimsModel,
            AuthError,
        >(e),
{
    let bytes = token.as_bytes_vec();
    validate_token_bytes(bytes, secret, now)
}

/// Verifies a token given as its bytes; the byte-level core of
/// `validate_token`, shared with the access gate.
pub(crate) fn validate_token_bytes(bytes: Vec<u8>, secret: &[u8], now: usize) -> (r: Result<
    Claims,
    AuthError,
>)
    ensures
        r matches Ok(c) ==> (validate_model(bytes@, secret@, now) matches Ok(m) && c.user_id@
            == m.user_id && c.exp == m.exp && c.iat == m.iat && c.sub@ == "auth"@),
        r matches Err(e) ==> validate_model(bytes@, secret@, now) == Err::<ClaimsModel, AuthError>(
            e,
        ),
{
    let n = bytes.len();
    let d1 = match find_byte_from(&bytes, 0, 0x2e) {
        Some(i) => i,
        None => {
            proof {
                lemma_find_byte_none(bytes@, 0x2e);
            }
            return Err(AuthError::Malformed);
        },
    };
    proof {
        lemma_find_byte_is(bytes@, 0x2e, d1 as int);
    }
    let ghost rest = bytes@.skip(d1 + 1);
    let d2 = match find_byte_from(&bytes, d1 + 1, 0x2e) {
        Some(i) => i,
        None => {
            proof {
                assert forall|j: int| 0 <= j < rest.len() implies rest[j] != 0x2e by {
                    assert(rest[j] == bytes@[d1 + 1 + j]);
                }
                lemma_find_byte_none(rest, 0x2e);
            }
            return Err(AuthError::Malformed);
        },
    };
    proof {
        assert(rest[d2 - d1 - 1] == bytes@[d2 as int]);
        assert forall|j: int| 0 <= j < d2 - d1 - 1 implies rest[j] != 0x2e by {
            assert(rest[j] == bytes@[d1 + 1 + j]);
        }
        lemma_find_byte_is(rest, 0x2e, d2 - d1 - 1);
    }
    let ghost hpart = bytes@.take(d1 as int);
    let ghost ppart = rest.take(d2 - d1 - 1);
    let ghost sgpart = rest.skip(d2 - d1);
    proof {
        assert(split3(bytes@) == Some((hpart, ppart, sgpart)));
    }
    let header_vec = slice_to_vec(slice_subrange(bytes.as_slice(), 0, d1));
    let payload_vec = slice_to_vec(slice_subrange(bytes.as_slice(), d1 + 1, d2));
    let sig_vec = slice_to_vec(slice_subrange(bytes.as_slice(), d2 + 1, n));
    proof {
        assert(header_vec@ =~= hpart);
        assert(payload_vec@ =~= ppart);
        assert(sig_vec@ =~= sgpart);
    }
    let expected_header = make_header_segment();
    if !(header_vec == expected_header) {
        return Err(AuthError::Malformed);
    }
    let decoded = match b64_decode_bytes(&payload_vec) {
        Some(v) => v,
        None => {
            return Err(AuthError::Malformed);
        },
    };
    let (uid_vec, exp, iat) = match parse_claims_exec(&decoded) {
        Some(t) => t,
        None => {
            return Err(AuthError::Malformed);
        },
    };
    let ghost uid_seq = uid_vec@;
    proof {
        assert(split3(bytes@) == Some((hpart, ppart, sgpart)));
        assert(hpart == header_b64());
        assert(b64_text_valid(ppart));
        assert(decoded@ == b64_decode(ppart));
        assert(parse_claims(b64_decode(ppart)) == Some((uid_seq, exp, iat)));
    }
    let user_id = match crate::cipher::bytes_to_string(uid_vec) {
        Some(s) => s,
        None => {
            return Err(AuthError::Malformed);
        },
    };
    proof {
        assert(valid_utf8(uid_seq));
        assert(encode_utf8(user_id@) == uid_seq);
        assert(decode_utf8(uid_seq) == user_id@);
    }
    let mut si = header_vec;
    si.push(0x2e);
    si.extend_from_slice(payload_vec.as_slice());
    proof {
        assert(si@ =~= hpart + seq![0x2e] + ppart);
    }
    let expected_sig = sign_hs256(secret, &si);
    let expected_sig_bytes = expected_sig.as_bytes_vec();
    if !(sig_vec == expected_sig_bytes) {
        return Err(AuthError::SignatureInvalid);
    }
    proof {
        assert(sig_vec@ == sgpart);
        assert(expected_sig_bytes@ == encode_utf8(expected_sig@));
        assert(expected_sig@ == hmac_sig_of(secret@, si@));
        assert(si@ == hpart + seq![0x2e] + ppart);
        assert(sgpart == encode_utf8(hmac_sig_of(secret@, hpart + seq![0x2e] + ppart)));
    }
    if now > exp {
        return Err(AuthError::TokenExpired);
    }
    let sub = String::from_str("auth");
    proof {
        assert(sub@ == "auth"@);
        assert(validate_model(bytes@, secret@, now) matches Ok(m) && m.user_id == user_id@ && m.exp
            == exp && m.iat == iat);
    }
    Ok(Claims { sub, user_id, exp, iat })
}

/// Law: the claim parser accepts exactly the claim text the issuer wrote
/// and returns the same claim set.
#[verifier::rlimit(100)]
pub proof fn lemma_claims_json_round_trip(uid: Seq<u8>, exp: usize, iat: usize)
    requires
        forall|i: int| 0 <= i < uid.len() ==> uid[i] != 0x22,
    ensures
        parse_claims(claims_json(uid, exp as nat, iat as nat)) == Some((uid, exp, iat)),
{
    let s = claims_json(uid, exp as nat, iat as nat);
    let dd_e = dec_digits(exp as nat);
    let dd_i = dec_digits(iat as nat);
    lemma_dec_round_trip(exp as nat);
    lemma_dec_round_trip(iat as nat);
    assert(s.take(25) =~= claims_prefix());
    let rest = s.skip(25);
    assert(rest =~= uid + exp_label() + dd_e + iat_label() + dd_i + seq![0x7d]);
    assert forall|j: int| 0 <= j < uid.len() implies rest[j] != 0x22 by {
        assert(rest[j] == uid[j]);
    }
    assert(rest[uid.len() as int] == 0x22);
    lemma_find_byte_is(rest, 0x22, uid.len() as int);
    assert(rest.take(uid.len() as int) =~= uid);
    let rest2 = rest.skip(uid.len() as int);
    assert(rest2 =~= exp_label() + dd_e + iat_label() + dd_i + seq![0x7d]);
    assert(rest2.take(8) =~= exp_label());
    let rest3 = rest2.skip(8);
    assert(rest3 =~= dd_e + iat_label() + dd_i + seq![0x7d]);
    assert forall|j: int| 0 <= j < dd_e.len() implies rest3[j] != 0x2c by {
        assert(rest3[j] == dd_e[j]);
        assert(is_digit(dd_e[j]));
    }
    assert(rest3[dd_e.len() as int] == 0x2c);
    lemma_find_byte_is(rest3, 0x2c, dd_e.len() as int);
    assert(rest3.take(dd_e.len() as int) =~= dd_e);
    let rest4 = rest3.skip(dd_e.len() as int);
    assert(rest4 =~= iat_label() + dd_i + seq![0x7d]);
    assert(rest4.take(7) =~= iat_label());
    let rest5 = rest4.skip(7);
    assert(rest5 =~= dd_i + seq![0x7d]);
    assert(rest5.len() == dd_i.len() + 1);
    assert(rest5.last() == 0x7d);
    assert(rest5.take(rest5.len() - 1) =~= dd_i);
}

/// Law: a token issued for an identity verifies while its window lasts and
/// reports exactly that identity and those instants; one second past the
/// window it fails as expired.
pub proof fn lemma_issue_verify(user_id: Seq<char>, secret: Seq<u8>, iat: usize, now: usize)
    requires
        uid_ok(encode_utf8(user_id)),
        iat + TOKEN_LIFETIME_SECS <= usize::MAX,
    ensures
        now <= iat + TOKEN_LIFETIME_SECS ==> validate_model(
            token_model(encode_utf8(user_id), secret, iat),
            secret,
            now,
        ) == Ok::<ClaimsModel, AuthError>(
            ClaimsModel {
                user_id: user_id,
                exp: (iat + TOKEN_LIFETIME_SECS) as usize,
                iat: iat,
            },
        ),
        now > iat + TOKEN_LIFETIME_SECS ==> validate_model(
            token_model(encode_utf8(user_id), secret, iat),
            secret,
            now,
        ) == Err::<ClaimsModel, AuthError>(AuthError::TokenExpired),
{
    let uidb = encode_utf8(user_id);
    let exp = (iat + TOKEN_LIFETIME_SECS) as usize;
    let json = claims_json(uidb, exp as nat, iat as nat);
    let h = header_b64();
    let p = b64_encode(json);
    let si = signing_input(uidb, exp as nat, iat as nat);
    let sgb = encode_utf8(hmac_sig_of(secret, si));
    let tok = token_model(uidb, secret, iat);
    assert(si =~= h + seq![0x2e] + p);
    lemma_b64_round_trip(header_json());
    lemma_b64_text_chars(h);
    lemma_b64_round_trip(json);
    lemma_b64_text_chars(p);
    assert forall|j: int| 0 <= j < h.len() implies tok[j] != 0x2e by {
        assert(tok[j] == h[j]);
        assert(is_b64_char(h[j]));
    }
    assert(tok[h.len() as int] == 0x2e);
    lemma_find_byte_is(tok, 0x2e, h.len() as int);
    assert(tok.take(h.len() as int) =~= h);
    let rest = tok.skip(h.len() as int + 1);
    assert(rest =~= p + seq![0x2e] + sgb);
    assert forall|j: int| 0 <= j < p.len() implies rest[j] != 0x2e by {
        assert(rest[j] == p[j]);
        assert(is_b64_char(p[j]));
    }
    assert(rest[p.len() as int] == 0x2e);
    lemma_find_byte_is(rest, 0x2e, p.len() as int);
    assert(rest.take(p.len() as int) =~= p);
    assert(rest.skip(p.len() as int + 1) =~= sgb);
    assert(split3(tok) == Some((h, p, sgb)));
    assert forall|i: int| 0 <= i < uidb.len() implies uidb[i] != 0x22 by {}
    lemma_claims_json_round_trip(uidb, exp, iat);
    assert(h + seq![0x2e] + p =~= si);
    assert(decode_utf8(uidb) == user_id);
}

} // verus!
