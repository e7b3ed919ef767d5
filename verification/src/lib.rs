//! A credential vault core: symmetric encryption-at-rest for stored
//! secrets and a stateless, signed-token authentication gate that binds
//! every vault operation to an identity.
//!
//! The cipher engine derives its key by a digest over the whole configured
//! secret, chains whole blocks against a random initialization vector over
//! a placeholder block transform, and validates reversible padding
//! with one uniform error.  The token service issues and verifies
//! dot-separated base64url tokens whose claim text and codecs are
//! implemented here; only the keyed digest, the password hash, hex text
//! and id generation come from outside crates, behind trusted wrappers.
//! The identity and entry stores are modelled in memory, with ownership
//! isolation stated and proved.

pub mod base64url;
pub mod cipher;
pub mod decimal;
pub mod errors;
pub mod gate;
pub mod hexcode;
pub mod ids;
pub mod token;
pub mod users;
pub mod vault;
