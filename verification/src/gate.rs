//! The access gate: from a request's authorization header to a bound
//! identity, or a terminal rejection.
//!
//! Its state machine has no fallthrough: a request must present a
//! header, under the bearer scheme, holding a valid token whose subject
//! denotes an identity id.  Any failure is terminal, and such a request
//! never reaches vault logic.

use vstd::prelude::*;

use crate::errors::AuthError;
use crate::ids::{parse_uuid, uuid_of};
use crate::token::{match_at, validate_model, validate_token_bytes};
use vstd::slice::{slice_subrange, slice_to_vec};
use vstd::string::{StrSliceExecFns, StringSliceAdditionalSpecFns};

verus! {

/// The bytes of the bearer scheme prefix, `Bearer ` with its space.
pub open spec fn bearer_prefix() -> Seq<u8> {
    seq![0x42, 0x65, 0x61, 0x72, 0x65, 0x72, 0x20]
}

/// The exact outcome of one request's authorization header: no header,
/// or one under another scheme, is turned away at once; otherwise the
/// token after the scheme marker is verified, and its subject must
/// denote an identity id.
pub open spec fn gate_model(header: Option<Seq<u8>>, secret: Seq<u8>, now: usize) -> Result<
    u128,
    AuthError,
> {
    match header {
        None => Err(AuthError::Unauthorized),
        Some(hb) => {
            if hb.len() < 7 || hb.take(7) != bearer_prefix() {
                Err(AuthError::Unauthorized)
            } else {
                match validate_model(hb.skip(7), secret, now) {
                    Err(e) => Err(e),
                    Ok(m) => match uuid_of(m.user_id) {
                        None => Err(AuthError::Unauthorized),
                        Some(id) => Ok(id),
                    },
                }
            }
        },
    }
}

/// The stateless authentication gate.
pub struct AuthMiddleware;

impl AuthMiddleware {
    /// Decides one request: binds the authenticated identity from the
    /// authorization header, or turns the request away.
    pub fn authorize(&self, header: Option<&str>, secret: &[u8], now: usize) -> (r: Result<
        u128,
        AuthError,
    >)
        ensures
            header is None ==> r == Err::<u128, AuthError>(AuthError::Unauthorized),
            header matches Some(h) ==> r == gate_model(Some(h.spec_bytes()), secret@, now),
    {
        let h = match header {
            Some(h) => h,
            None => {
                return Err(AuthError::Unauthorized);
            },
        };
        let bytes = h.as_bytes_vec();
        let mut prefix: Vec<u8> = Vec::new();
        prefix.push(0x42);
        prefix.push(0x65);
        prefix.push(0x61);
        prefix.push(0x72);
        prefix.push(0x65);
        prefix.push(0x72);
        prefix.push(0x20);
        proof {
            assert(prefix@ =~= bearer_prefix());
        }
        if !match_at(&bytes, 0, &prefix) {
            proof {
                if bytes@.len() >= 7 {
                    assert(bytes@.subrange(0, 7) =~= bytes@.take(7));
                }
            }
            return Err(AuthError::Unauthorized);
        }
        proof {
            assert(bytes@.take(7) =~= bytes@.subrange(0, 7));
        }
        let n = bytes.len();
        let tok = slice_to_vec(slice_subrange(bytes.as_slice(), 7, n));
        proof {
            assert(tok@ =~= bytes@.skip(7));
        }
        let claims = match validate_token_bytes(tok, secret, now) {
            Ok(c) => c,
            Err(e) => {
                return Err(e);
            },
        };
        match parse_uuid(claims.user_id.as_str()) {
            Some(id) => Ok(id),
            None => Err(AuthError::Unauthorized),
        }
    }
}

} // verus!
