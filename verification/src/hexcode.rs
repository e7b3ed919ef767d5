//! Hex text for stored ciphertext and initialization vectors.
//!
//! Entries persist their secret bytes as hex strings.  The encoding and its
//! inverse are specified here exactly; the executable work is done by the
//! `hex` crate behind two trusted wrappers.

use vstd::prelude::*;

verus! {

/// The lowercase hex digit for a value below sixteen, as an ASCII byte.
pub open spec fn hex_digit(v: u8) -> u8 {
    if v < 10 {
        (0x30 + v) as u8
    } else {
        (0x57 + v) as u8
    }
}

/// Lowercase hex text of a byte sequence: two digits per byte, high
/// nibble first.
pub open spec fn hex_bytes(b: Seq<u8>) -> Seq<u8> {
    Seq::new(
        b.len() * 2,
        |i: int|
            if i % 2 == 0 {
                hex_digit(b[i / 2] / 16)
            } else {
                hex_digit(b[i / 2] % 16)
            },
    )
}

/// Whether an ASCII byte is a hex digit, in either case.
pub open spec fn is_hex_digit(c: u8) -> bool {
    (0x30 <= c <= 0x39) || (0x41 <= c <= 0x46) || (0x61 <= c <= 0x66)
}

/// The value of a hex digit byte (meaningful only when `is_hex_digit`).
pub open spec fn hex_digit_val(c: u8) -> u8 {
    if 0x30 <= c <= 0x39 {
        (c - 0x30) as u8
    } else if 0x61 <= c <= 0x66 {
        (c - 0x57) as u8
    } else {
        (c - 0x37) as u8
    }
}

/// Whether a byte sequence is decodable hex text: even length, every byte
/// a digit of either case.
pub open spec fn hex_text_valid(s: Seq<u8>) -> bool {
    &&& s.len() % 2 == 0
    &&& forall|i: int| 0 <= i < s.len() ==> is_hex_digit(#[trigger] s[i])
}

/// The bytes encoded by valid hex text.
pub open spec fn hex_parse(s: Seq<u8>) -> Seq<u8> {
    Seq::new(s.len() / 2, |i: int| (hex_digit_val(s[2 * i]) * 16 + hex_digit_val(s[2 * i + 1])) as u8)
}

/// Hex text is valid and decodes to the bytes it was made from.
pub proof fn lemma_hex_round_trip(b: Seq<u8>)
    ensures
        hex_text_valid(hex_bytes(b)),
        hex_parse(hex_bytes(b)) == b,
{
    let h = hex_bytes(b);
    assert forall|i: int| 0 <= i < h.len() implies is_hex_digit(#[trigger] h[i]) by {
        let v = if i % 2 == 0 { b[i / 2] / 16 } else { b[i / 2] % 16 };
        assert(v < 16);
    }
    assert forall|i: int| 0 <= i < b.len() implies hex_parse(h)[i] == b[i] by {
        let x = b[i];
        assert(h[2 * i] == hex_digit(x / 16));
        assert(h[2 * i + 1] == hex_digit(x % 16));
        assert(hex_digit_val(hex_digit(x / 16)) == x / 16);
        assert(hex_digit_val(hex_digit(x % 16)) == x % 16);
        assert((x / 16) * 16 + x % 16 == x);
    }
    assert(hex_parse(h) =~= b);
}

/// Relies on `hex::encode`: the result is lowercase hex text, two digits
/// per byte of the input, high nibble first.
#[verifier::external_body]
pub(crate) fn bytes_to_hex(b: &Vec<u8>) -> (r: String)
    requires
        b@.len() * 2 <= usize::MAX,
    ensures
        vstd::utf8::encode_utf8(r@) == hex_bytes(b@),
{
    hex::encode(b)
}

/// Relies on `hex::decode`: it accepts digits of either case, fails on an
/// odd length or any other byte, and returns the encoded bytes.
#[verifier::external_body]
pub(crate) fn hex_to_bytes(s: &str) -> (r: Option<Vec<u8>>)
    ensures
        r is Some <==> hex_text_valid(vstd::utf8::encode_utf8(s@)),
        r matches Some(v) ==> v@ == hex_parse(vstd::utf8::encode_utf8(s@)),
{
    hex::decode(s).ok()
}

} // verus!
