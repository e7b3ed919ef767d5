//! Base64url text without padding, for the token's dot-separated segments.
//!
//! The codec is implemented and verified here: encoding is total, decoding
//! accepts exactly the canonical encodings (no padding characters, zero
//! trailing bits), and the two are proved inverse.

use vstd::prelude::*;

verus! {

/// The base64url alphabet character (as an ASCII byte) for a six-bit value.
pub open spec fn b64_char(v: u8) -> u8 {
    if v < 26 {
        (0x41 + v) as u8
    } else if v < 52 {
        (0x61 + (v - 26)) as u8
    } else if v < 62 {
        (0x30 + (v - 52)) as u8
    } else if v == 62 {
        0x2d
    } else {
        0x5f
    }
}

/// Whether an ASCII byte belongs to the base64url alphabet.
pub open spec fn is_b64_char(c: u8) -> bool {
    (0x41 <= c <= 0x5a) || (0x61 <= c <= 0x7a) || (0x30 <= c <= 0x39) || c == 0x2d || c == 0x5f
}

/// The six-bit value of a base64url alphabet byte (meaningful only when
/// `is_b64_char`).
pub open spec fn b64_val(c: u8) -> u8 {
    if 0x41 <= c <= 0x5a {
        (c - 0x41) as u8
    } else if 0x61 <= c <= 0x7a {
        (c - 0x61 + 26) as u8
    } else if 0x30 <= c <= 0x39 {
        (c - 0x30 + 52) as u8
    } else if c == 0x2d {
        62
    } else {
        63
    }
}

/// Base64url text of a byte sequence: four characters per three bytes,
/// a two or three character group for a one or two byte remainder, and no
/// padding characters.
pub open spec fn b64_encode(s: Seq<u8>) -> Seq<u8>
    decreases s.len(),
{
    if s.len() == 0 {
        Seq::empty()
    } else if s.len() == 1 {
        seq![b64_char(s[0] / 4), b64_char(((s[0] % 4) * 16) as u8)]
    } else if s.len() == 2 {
        seq![
            b64_char(s[0] / 4),
            b64_char(((s[0] % 4) * 16 + s[1] / 16) as u8),
            b64_char(((s[1] % 16) * 4) as u8),
        ]
    } else {
        seq![
            b64_char(s[0] / 4),
            b64_char(((s[0] % 4) * 16 + s[1] / 16) as u8),
            b64_char(((s[1] % 16) * 4 + s[2] / 64) as u8),
            b64_char((s[2] % 64) as u8),
        ] + b64_encode(s.skip(3))
    }
}

/// Whether a byte sequence is canonical base64url text: whole four
/// character groups with a two or three character remainder whose unused
/// low bits are zero.
pub open spec fn b64_text_valid(s: Seq<u8>) -> bool
    decreases s.len(),
{
    if s.len() == 0 {
        true
    } else if s.len() == 1 {
        false
    } else if s.len() == 2 {
        is_b64_char(s[0]) && is_b64_char(s[1]) && b64_val(s[1]) % 16 == 0
    } else if s.len() == 3 {
        is_b64_char(s[0]) && is_b64_char(s[1]) && is_b64_char(s[2]) && b64_val(s[2]) % 4 == 0
    } else {
        is_b64_char(s[0]) && is_b64_char(s[1]) && is_b64_char(s[2]) && is_b64_char(s[3])
            && b64_text_valid(s.skip(4))
    }
}

/// The bytes encoded by canonical base64url text.
pub open spec fn b64_decode(s: Seq<u8>) -> Seq<u8>
    decreases s.len(),
{
    if s.len() < 2 {
        Seq::empty()
    } else if s.len() == 2 {
        seq![(b64_val(s[0]) * 4 + b64_val(s[1]) / 16) as u8]
    } else if s.len() == 3 {
        seq![
            (b64_val(s[0]) * 4 + b64_val(s[1]) / 16) as u8,
            ((b64_val(s[1]) % 16) * 16 + b64_val(s[2]) / 4) as u8,
        ]
    } else {
        seq![
            (b64_val(s[0]) * 4 + b64_val(s[1]) / 16) as u8,
            ((b64_val(s[1]) % 16) * 16 + b64_val(s[2]) / 4) as u8,
            ((b64_val(s[2]) % 4) * 64 + b64_val(s[3])) as u8,
        ] + b64_decode(s.skip(4))
    }
}

/// The alphabet byte of any six-bit value decodes back to that value, and
/// is a printable ASCII byte that is neither a dot nor a quote.
pub proof fn lemma_b64_char_val(v: u8)
    requires
        v < 64,
    ensures
        is_b64_char(b64_char(v)),
        b64_val(b64_char(v)) == v,
        b64_char(v) != 0x2e,
        b64_char(v) != 0x22,
        0x20 <= b64_char(v) < 0x80,
{
}

/// Law: encoding always yields canonical base64url text, and decoding it
/// yields the original bytes.
pub proof fn lemma_b64_round_trip(s: Seq<u8>)
    ensures
        b64_text_valid(b64_encode(s)),
        b64_decode(b64_encode(s)) == s,
    decreases s.len(),
{
    let e = b64_encode(s);
    if s.len() == 0 {
        assert(b64_decode(e) =~= s);
    } else if s.len() == 1 {
        let a = s[0];
        lemma_b64_char_val(a / 4);
        lemma_b64_char_val(((a % 4) * 16) as u8);
        assert(b64_val(e[1]) % 16 == 0);
        assert((b64_val(e[0]) * 4 + b64_val(e[1]) / 16) as u8 == a);
        assert(b64_decode(e) =~= s);
    } else if s.len() == 2 {
        let a = s[0];
        let b = s[1];
        lemma_b64_char_val(a / 4);
        lemma_b64_char_val(((a % 4) * 16 + b / 16) as u8);
        lemma_b64_char_val(((b % 16) * 4) as u8);
        assert((b64_val(e[0]) * 4 + b64_val(e[1]) / 16) as u8 == a);
        assert(((b64_val(e[1]) % 16) * 16 + b64_val(e[2]) / 4) as u8 == b);
        assert(b64_decode(e) =~= s);
    } else {
        let a = s[0];
        let b = s[1];
        let c = s[2];
        lemma_b64_char_val(a / 4);
        lemma_b64_char_val(((a % 4) * 16 + b / 16) as u8);
        lemma_b64_char_val(((b % 16) * 4 + c / 64) as u8);
        lemma_b64_char_val((c % 64) as u8);
        lemma_b64_round_trip(s.skip(3));
        assert(e.skip(4) =~= b64_encode(s.skip(3)));
        assert((b64_val(e[0]) * 4 + b64_val(e[1]) / 16) as u8 == a);
        assert(((b64_val(e[1]) % 16) * 16 + b64_val(e[2]) / 4) as u8 == b);
        assert(((b64_val(e[2]) % 4) * 64 + b64_val(e[3])) as u8 == c);
        assert(b64_decode(e) =~= seq![a, b, c] + b64_decode(e.skip(4)));
        assert(seq![a, b, c] + s.skip(3) =~= s);
    }
}

/// Law: canonical base64url text holds only alphabet bytes; in particular
/// it never holds a dot, so it can stand between the token's separators.
pub proof fn lemma_b64_text_chars(s: Seq<u8>)
    requires
        b64_text_valid(s),
    ensures
        forall|i: int| 0 <= i < s.len() ==> is_b64_char(#[trigger] s[i]),
    decreases s.len(),
{
    if s.len() >= 4 {
        lemma_b64_text_chars(s.skip(4));
        assert forall|i: int| 0 <= i < s.len() implies is_b64_char(#[trigger] s[i]) by {
            if i >= 4 {
                assert(s.skip(4)[i - 4] == s[i]);
            }
        }
    }
}

/// The alphabet byte for a six-bit value.
fn b64_char_of(v: u8) -> (r: u8)
    requires
        v < 64,
    ensures
        r == b64_char(v),
{
    if v < 26 {
        0x41 + v
    } else if v < 52 {
        0x61 + (v - 26)
    } else if v < 62 {
        0x30 + (v - 52)
    } else if v == 62 {
        0x2d
    } else {
        0x5f
    }
}

/// Whether a byte belongs to the alphabet.
fn is_b64_char_of(c: u8) -> (r: bool)
    ensures
        r == is_b64_char(c),
{
    (0x41 <= c && c <= 0x5a) || (0x61 <= c && c <= 0x7a) || (0x30 <= c && c <= 0x39) || c == 0x2d
        || c == 0x5f
}

/// The six-bit value of an alphabet byte.
fn b64_val_of(c: u8) -> (r: u8)
    requires
        is_b64_char(c),
    ensures
        r == b64_val(c),
{
    if 0x41 <= c && c <= 0x5a {
        c - 0x41
    } else if 0x61 <= c && c <= 0x7a {
        c - 0x61 + 26
    } else if 0x30 <= c && c <= 0x39 {
        c - 0x30 + 52
    } else if c == 0x2d {
        62
    } else {
        63
    }
}

/// Encodes bytes as canonical base64url text.
pub fn b64_encode_bytes(data: &Vec<u8>) -> (r: Vec<u8>)
    ensures
        r@ == b64_encode(data@),
{
    let n = data.len();
    let mut out: Vec<u8> = Vec::new();
    let mut i: usize = 0;
    proof {
        assert(data@.skip(0) =~= data@);
    }
    while n - i >= 3
        invariant
            i <= n,
            n == data@.len(),
            i % 3 == 0,
            b64_encode(data@) == out@ + b64_encode(data@.skip(i as int)),
        decreases n - i,
    {
        let a = data[i];
        let b = data[i + 1];
        let c = data[i + 2];
        let ghost tail = data@.skip(i as int);
        out.push(b64_char_of(a / 4));
        out.push(b64_char_of((a % 4) * 16 + b / 16));
        out.push(b64_char_of((b % 16) * 4 + c / 64));
        out.push(b64_char_of(c % 64));
        proof {
            assert(tail[0] == a && tail[1] == b && tail[2] == c);
            assert(tail.skip(3) =~= data@.skip(i + 3));
        }
        i += 3;
    }
    if n - i == 1 {
        let a = data[i];
        let ghost tail = data@.skip(i as int);
        out.push(b64_char_of(a / 4));
        out.push(b64_char_of((a % 4) * 16));
        proof {
            assert(tail[0] == a && tail.len() == 1);
            assert(out@ =~= b64_encode(data@));
        }
    } else if n - i == 2 {
        let a = data[i];
        let b = data[i + 1];
        let ghost tail = data@.skip(i as int);
        out.push(b64_char_of(a / 4));
        out.push(b64_char_of((a % 4) * 16 + b / 16));
        out.push(b64_char_of((b % 16) * 4));
        proof {
            assert(tail[0] == a && tail[1] == b && tail.len() == 2);
            assert(out@ =~= b64_encode(data@));
        }
    } else {
        proof {
            assert(data@.skip(i as int).len() == 0);
            assert(out@ =~= b64_encode(data@));
        }
    }
    out
}

/// Decodes canonical base64url text; any other text is rejected.
pub fn b64_decode_bytes(data: &Vec<u8>) -> (r: Option<Vec<u8>>)
    ensures
        r is Some <==> b64_text_valid(data@),
        r matches Some(v) ==> v@ == b64_decode(data@),
{
    let n = data.len();
    let mut out: Vec<u8> = Vec::new();
    let mut i: usize = 0;
    proof {
        assert(data@.skip(0) =~= data@);
    }
    while n - i >= 4
        invariant
            i <= n,
            n == data@.len(),
            b64_text_valid(data@) == b64_text_valid(data@.skip(i as int)),
            b64_decode(data@) == out@ + b64_decode(data@.skip(i as int)),
        decreases n - i,
    {
        let c0 = data[i];
        let c1 = data[i + 1];
        let c2 = data[i + 2];
        let c3 = data[i + 3];
        let ghost tail = data@.skip(i as int);
        proof {
            assert(tail[0] == c0 && tail[1] == c1 && tail[2] == c2 && tail[3] == c3);
            assert(tail.len() >= 4);
        }
        if !(is_b64_char_of(c0) && is_b64_char_of(c1) && is_b64_char_of(c2) && is_b64_char_of(c3)) {
            assert(!b64_text_valid(data@.skip(i as int)));
            return None;
        }
        let v0 = b64_val_of(c0);
        let v1 = b64_val_of(c1);
        let v2 = b64_val_of(c2);
        let v3 = b64_val_of(c3);
        out.push(v0 * 4 + v1 / 16);
        out.push((v1 % 16) * 16 + v2 / 4);
        out.push((v2 % 4) * 64 + v3);
        proof {
            assert(tail.skip(4) =~= data@.skip(i + 4));
        }
        i += 4;
    }
    let ghost tail = data@.skip(i as int);
    if i == n {
        proof {
            assert(tail.len() == 0);
            assert(out@ =~= b64_decode(data@));
        }
        Some(out)
    } else if n - i == 2 {
        let c0 = data[i];
        let c1 = data[i + 1];
        proof {
            assert(tail[0] == c0 && tail[1] == c1 && tail.len() == 2);
        }
        if !(is_b64_char_of(c0) && is_b64_char_of(c1)) {
            return None;
        }
        let v0 = b64_val_of(c0);
        let v1 = b64_val_of(c1);
        if v1 % 16 != 0 {
            return None;
        }
        out.push(v0 * 4 + v1 / 16);
        proof {
            assert(out@ =~= b64_decode(data@));
        }
        Some(out)
    } else if n - i == 3 {
        let c0 = data[i];
        let c1 = data[i + 1];
        let c2 = data[i + 2];
        proof {
            assert(tail[0] == c0 && tail[1] == c1 && tail[2] == c2 && tail.len() == 3);
        }
        if !(is_b64_char_of(c0) && is_b64_char_of(c1) && is_b64_char_of(c2)) {
            return None;
        }
        let v0 = b64_val_of(c0);
        let v1 = b64_val_of(c1);
        let v2 = b64_val_of(c2);
        if v2 % 4 != 0 {
            return None;
        }
        out.push(v0 * 4 + v1 / 16);
        out.push((v1 % 16) * 16 + v2 / 4);
        proof {
            assert(out@ =~= b64_decode(data@));
        }
        Some(out)
    } else {
        assert(tail.len() == 1);
        None
    }
}

} // verus!
