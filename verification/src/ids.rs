//! Identity ids and the two process-wide collaborators the lifecycle logic
//! draws on: fresh random ids and the current instant.
//!
//! An id is held as its 128-bit value; its canonical text form travels in
//! tokens and is read back by the access gate.

use vstd::prelude::*;

use crate::hexcode::hex_digit;

verus! {

/// What the library names as uuid text parsing: the 128-bit value a uuid
/// string denotes, or nothing — a function of the text alone.
pub uninterp spec fn uuid_of(s: Seq<char>) -> Option<u128>;

/// The nibble of an id at position `k`, highest first.
pub open spec fn uuid_nibble(id: u128, k: int) -> u8 {
    ((id >> ((124 - 4 * k) as u128)) & 0xf) as u8
}

/// The canonical text of an id, as bytes: its thirty-two lowercase hex
/// digits, highest first, with hyphens after the eighth, twelfth,
/// sixteenth and twentieth.
pub open spec fn uuid_text(id: u128) -> Seq<u8> {
    Seq::new(
        36,
        |i: int|
            if i == 8 || i == 13 || i == 18 || i == 23 {
                0x2d
            } else {
                let k = if i < 8 {
                    i
                } else if i < 13 {
                    i - 1
                } else if i < 18 {
                    i - 2
                } else if i < 23 {
                    i - 3
                } else {
                    i - 4
                };
                hex_digit(uuid_nibble(id, k))
            },
    )
}

/// Relies on uuid::Uuid::parse_str and Uuid::as_u128: the value a uuid
/// string denotes, if it is one of the crate's accepted text forms.
#[verifier::external_body]
pub(crate) fn parse_uuid(s: &str) -> (r: Option<u128>)
    ensures
        r == uuid_of(s@),
{
    uuid::Uuid::parse_str(s).ok().map(|u| u.as_u128())
}

/// Relies on uuid::Uuid::from_u128 and the hyphenated formatter: the
/// canonical hyphenated lowercase text of the id, which
/// uuid::Uuid::parse_str reads back to the same id.
#[verifier::external_body]
pub(crate) fn uuid_to_string(id: u128) -> (r: String)
    ensures
        vstd::utf8::encode_utf8(r@) == uuid_text(id),
        uuid_of(r@) == Some(id),
{
    uuid::Uuid::from_u128(id).hyphenated().to_string()
}

/// Relies on uuid::Uuid::new_v4: a fresh random id; nothing is promised of
/// a random value.
#[verifier::external_body]
pub(crate) fn new_uuid() -> (r: u128) {
    uuid::Uuid::new_v4().as_u128()
}

/// Relies on chrono::Utc::now and timestamp: the current instant in whole
/// seconds; nothing is promised of the clock.
#[verifier::external_body]
pub(crate) fn current_timestamp() -> (r: i64) {
    chrono::Utc::now().timestamp()
}

/// The canonical text of an id is safe to stand in a token's claim text:
/// hex digits and hyphens hold no quote, backslash or control byte.
pub proof fn lemma_uuid_text_claim_safe(id: u128)
    ensures
        crate::token::uid_ok(uuid_text(id)),
{
    let b = uuid_text(id);
    assert forall|i: int|
        0 <= i < b.len() implies (#[trigger] b[i] != 0x22 && b[i] != 0x5c && b[i] >= 0x20) by {
        if !(i == 8 || i == 13 || i == 18 || i == 23) {
            let k = if i < 8 {
                i
            } else if i < 13 {
                i - 1
            } else if i < 18 {
                i - 2
            } else if i < 23 {
                i - 3
            } else {
                i - 4
            };
            let x = id >> ((124 - 4 * k) as u128);
            assert((x & 0xf) < 16) by (bit_vector);
            assert(uuid_nibble(id, k) < 16);
            assert(b[i] == hex_digit(uuid_nibble(id, k)));
        }
    }
}

} // verus!
