//! The credential encryption engine.
//!
//! Secrets are padded to whole blocks, chained block by block against a
//! random initialization vector, run through the block transform, and
//! stored as hex text together with the hex of the iv.  Decryption inverts
//! the chain and validates the padding with one uniform error.
//!
//! The block transform itself is a plain byte-wise XOR with the key — a
//! placeholder, not a vetted cipher.  It stands behind the same one-block
//! interface an audited primitive would, but the chaining, padding and
//! round-trip laws proved here are proved of this transform; swapping in
//! an outside cipher would leave its inverse property an unproved
//! assumption, so the placeholder is kept and named for what it is.

use vstd::prelude::*;

use crate::errors::CryptoError;
use crate::hexcode::{bytes_to_hex, hex_bytes, hex_parse, hex_text_valid, hex_to_bytes, lemma_hex_round_trip};
use vstd::slice::{slice_subrange, slice_to_vec};
use vstd::string::StringSliceAdditionalSpecFns;
use vstd::utf8::{decode_utf8, encode_utf8, valid_utf8};

verus! {

broadcast use vstd::utf8::encode_utf8_valid_utf8, vstd::utf8::encode_utf8_decode_utf8;

/// How many padding bytes a message of length `n` receives: always between
/// one and a whole block.
pub open spec fn pad_len(n: nat) -> nat {
    (16 - n % 16) as nat
}

/// Reversible padding: the message followed by `pad_len` copies of the
/// padding length itself.
pub open spec fn pkcs7_pad(data: Seq<u8>) -> Seq<u8> {
    data + Seq::new(pad_len(data.len()), |i: int| pad_len(data.len()) as u8)
}

/// Padding removal: the final byte must encode a length between one and a
/// block, and exactly that many trailing bytes must equal it.
pub open spec fn pkcs7_unpad(data: Seq<u8>) -> Option<Seq<u8>> {
    if data.len() == 0 {
        None
    } else {
        let p = data.last() as int;
        if 1 <= p <= 16 && p <= data.len() && (forall|i: int|
            data.len() - p <= i < data.len() ==> data[i] == data.last()) {
            Some(data.take(data.len() - p))
        } else {
            None
        }
    }
}

/// Pointwise XOR of `a` with the first `a.len()` bytes of `b`.
pub open spec fn xor_seq(a: Seq<u8>, b: Seq<u8>) -> Seq<u8> {
    Seq::new(a.len(), |i: int| a[i] ^ b[i])
}

/// Block chaining over whole blocks: each plaintext block is combined with
/// the previous ciphertext block (the iv for the first) and run through the
/// placeholder block transform.
pub open spec fn cbc_encrypt(pt: Seq<u8>, prev: Seq<u8>, key: Seq<u8>) -> Seq<u8>
    decreases pt.len(),
{
    if pt.len() < 16 {
        Seq::empty()
    } else {
        let c = xor_seq(xor_seq(pt.take(16), prev), key);
        c + cbc_encrypt(pt.skip(16), c, key)
    }
}

/// The inverse chain: each ciphertext block is run through the inverse
/// transform and combined with the previous ciphertext block (the iv for
/// the first).
pub open spec fn cbc_decrypt(ct: Seq<u8>, prev: Seq<u8>, key: Seq<u8>) -> Seq<u8>
    decreases ct.len(),
{
    if ct.len() < 16 {
        Seq::empty()
    } else {
        xor_seq(xor_seq(ct.take(16), key), prev) + cbc_decrypt(ct.skip(16), ct.take(16), key)
    }
}

pub proof fn lemma_cbc_encrypt_len(pt: Seq<u8>, prev: Seq<u8>, key: Seq<u8>)
    requires
        pt.len() % 16 == 0,
    ensures
        cbc_encrypt(pt, prev, key).len() == pt.len(),
    decreases pt.len(),
{
    if pt.len() >= 16 {
        assert(pt.skip(16).len() % 16 == 0);
        let c = xor_seq(xor_seq(pt.take(16), prev), key);
        lemma_cbc_encrypt_len(pt.skip(16), c, key);
    }
}

pub proof fn lemma_cbc_decrypt_len(ct: Seq<u8>, prev: Seq<u8>, key: Seq<u8>)
    requires
        ct.len() % 16 == 0,
    ensures
        cbc_decrypt(ct, prev, key).len() == ct.len(),
    decreases ct.len(),
{
    if ct.len() >= 16 {
        assert(ct.skip(16).len() % 16 == 0);
        lemma_cbc_decrypt_len(ct.skip(16), ct.take(16), key);
    }
}

/// Law: the inverse chain undoes the chain, block by block.
pub proof fn lemma_cbc_round_trip(pt: Seq<u8>, prev: Seq<u8>, key: Seq<u8>)
    requires
        pt.len() % 16 == 0,
        prev.len() == 16,
        key.len() >= 16,
    ensures
        cbc_decrypt(cbc_encrypt(pt, prev, key), prev, key) == pt,
    decreases pt.len(),
{
    if pt.len() < 16 {
        assert(cbc_decrypt(cbc_encrypt(pt, prev, key), prev, key) =~= pt);
    } else {
        let c = xor_seq(xor_seq(pt.take(16), prev), key);
        let rest = cbc_encrypt(pt.skip(16), c, key);
        let ct = c + rest;
        assert(ct.take(16) =~= c);
        assert(ct.skip(16) =~= rest);
        assert(xor_seq(xor_seq(c, key), prev) =~= pt.take(16)) by {
            assert forall|i: int| 0 <= i < 16 implies xor_seq(xor_seq(c, key), prev)[i] == pt.take(
                16,
            )[i] by {
                let a = pt.take(16)[i];
                let b = prev[i];
                let k = key[i];
                assert((((a ^ b) ^ k) ^ k) ^ b == a) by (bit_vector);
            }
        }
        assert(pt.skip(16).len() % 16 == 0);
        lemma_cbc_round_trip(pt.skip(16), c, key);
        assert(cbc_decrypt(ct, prev, key) =~= pt.take(16) + pt.skip(16));
        assert(pt.take(16) + pt.skip(16) =~= pt);
    }
}

/// Law: the chain also undoes the inverse chain, so for a fixed key and iv
/// each plaintext has exactly one ciphertext.
pub proof fn lemma_cbc_inverse(ct: Seq<u8>, prev: Seq<u8>, key: Seq<u8>)
    requires
        ct.len() % 16 == 0,
        prev.len() == 16,
        key.len() >= 16,
    ensures
        cbc_encrypt(cbc_decrypt(ct, prev, key), prev, key) == ct,
    decreases ct.len(),
{
    if ct.len() < 16 {
        assert(cbc_encrypt(cbc_decrypt(ct, prev, key), prev, key) =~= ct);
    } else {
        let d = xor_seq(xor_seq(ct.take(16), key), prev);
        assert(ct.skip(16).len() % 16 == 0);
        lemma_cbc_decrypt_len(ct.skip(16), ct.take(16), key);
        let rest = cbc_decrypt(ct.skip(16), ct.take(16), key);
        let dec = d + rest;
        assert(dec.take(16) =~= d);
        assert(dec.skip(16) =~= rest);
        assert(dec.len() % 16 == 0);
        assert(xor_seq(xor_seq(d, prev), key) =~= ct.take(16)) by {
            assert forall|i: int| 0 <= i < 16 implies xor_seq(xor_seq(d, prev), key)[i] == ct.take(
                16,
            )[i] by {
                let a = ct.take(16)[i];
                let b = prev[i];
                let k = key[i];
                assert((((a ^ k) ^ b) ^ b) ^ k == a) by (bit_vector);
            }
        }
        lemma_cbc_inverse(ct.skip(16), ct.take(16), key);
        assert(cbc_encrypt(dec, prev, key) =~= ct.take(16) + ct.skip(16));
        assert(ct.take(16) + ct.skip(16) =~= ct);
    }
}

/// Law: padding then removing the padding yields the message back, and the
/// padded form is a nonempty whole number of blocks.
pub proof fn lemma_pad_round_trip(data: Seq<u8>)
    ensures
        pkcs7_pad(data).len() == data.len() + pad_len(data.len()),
        pkcs7_pad(data).len() % 16 == 0,
        pkcs7_pad(data).len() > 0,
        pkcs7_unpad(pkcs7_pad(data)) == Some(data),
{
    let p = pad_len(data.len());
    let padded = pkcs7_pad(data);
    assert(1 <= p <= 16);
    assert(padded.len() == data.len() + p);
    assert(padded.last() == p as u8);
    assert forall|i: int| padded.len() - p <= i < padded.len() implies padded[i]
        == padded.last() by {}
    assert(padded.take(padded.len() - p as int) =~= data);
}

/// Law: on a whole number of blocks, padding removal is injective — the
/// only input it maps to a message is that message's padded form.
pub proof fn lemma_unpad_inverse(x: Seq<u8>)
    requires
        x.len() % 16 == 0,
        pkcs7_unpad(x) is Some,
    ensures
        x == pkcs7_pad(pkcs7_unpad(x)->Some_0),
{
    let p = x.last() as int;
    let u = x.take(x.len() - p);
    assert(u.len() == x.len() - p);
    assert((u.len() as int % 16) == (16 - p) % 16) by (nonlinear_arith)
        requires
            x.len() % 16 == 0,
            1 <= p <= 16,
            p <= x.len(),
            u.len() == x.len() - p,
    ;
    assert(pad_len(u.len()) == p);
    assert(pkcs7_pad(u) =~= x);
}

/// The whole forward path below the hex layer: pad, then chain.
pub open spec fn encrypt_core(msg: Seq<u8>, iv: Seq<u8>, key: Seq<u8>) -> Seq<u8> {
    cbc_encrypt(pkcs7_pad(msg), iv, key)
}

/// The whole backward path below the hex layer: validate the lengths,
/// invert the chain, then validate and strip the padding.
pub open spec fn decrypt_core(ct: Seq<u8>, iv: Seq<u8>, key: Seq<u8>) -> Option<Seq<u8>> {
    if iv.len() == 16 && ct.len() > 0 && ct.len() % 16 == 0 {
        pkcs7_unpad(cbc_decrypt(ct, iv, key))
    } else {
        None
    }
}

/// Law: decryption recovers exactly what encryption stored.
pub proof fn lemma_core_round_trip(msg: Seq<u8>, iv: Seq<u8>, key: Seq<u8>)
    requires
        iv.len() == 16,
        key.len() >= 16,
    ensures
        decrypt_core(encrypt_core(msg, iv, key), iv, key) == Some(msg),
{
    lemma_pad_round_trip(msg);
    lemma_cbc_encrypt_len(pkcs7_pad(msg), iv, key);
    lemma_cbc_round_trip(pkcs7_pad(msg), iv, key);
}

/// Law: any change to the stored ciphertext alone, or to the stored iv
/// alone, makes decryption fail or yield something other than the original
/// plaintext.  This covers flipping any bit of either value.
pub proof fn lemma_tampering_detected(
    msg: Seq<u8>,
    key: Seq<u8>,
    iv: Seq<u8>,
    ct2: Seq<u8>,
    iv2: Seq<u8>,
)
    requires
        key.len() >= 16,
        iv.len() == 16,
        iv2.len() == 16,
        (ct2 == encrypt_core(msg, iv, key) && iv2 != iv) || (ct2 != encrypt_core(msg, iv, key)
            && iv2 == iv),
    ensures
        decrypt_core(ct2, iv2, key) != Some(msg),
{
    if decrypt_core(ct2, iv2, key) == Some(msg) {
        let dec = cbc_decrypt(ct2, iv2, key);
        lemma_cbc_decrypt_len(ct2, iv2, key);
        lemma_unpad_inverse(dec);
        assert(dec == pkcs7_pad(msg));
        lemma_cbc_inverse(ct2, iv2, key);
        assert(ct2 == cbc_encrypt(pkcs7_pad(msg), iv2, key));
        if iv2 == iv {
            assert(ct2 == encrypt_core(msg, iv, key));
            assert(false);
        } else {
            let ct = encrypt_core(msg, iv, key);
            assert(ct2 == ct);
            lemma_pad_round_trip(msg);
            let padded = pkcs7_pad(msg);
            let c1 = xor_seq(xor_seq(padded.take(16), iv), key);
            let c2 = xor_seq(xor_seq(padded.take(16), iv2), key);
            assert(ct.take(16) =~= c1);
            assert(ct2.take(16) =~= c2);
            assert(iv =~= iv2) by {
                assert forall|i: int| 0 <= i < 16 implies iv[i] == iv2[i] by {
                    let a = padded.take(16)[i];
                    let b = iv[i];
                    let b2 = iv2[i];
                    let k = key[i];
                    assert(c1[i] == (a ^ b) ^ k);
                    assert(c2[i] == (a ^ b2) ^ k);
                    assert(((a ^ b) ^ k == (a ^ b2) ^ k) ==> b == b2) by (bit_vector);
                }
            }
            assert(false);
        }
    }
}

/// What the engine names as the key-derivation digest: the SHA-256 of a
/// byte sequence — a function of its argument alone.
pub uninterp spec fn sha256_of(b: Seq<u8>) -> Seq<u8>;

/// The key the engine works with: the thirty-two-byte derivation digest of
/// the whole configured key string, never a truncation of it.
pub open spec fn key_material(key: Seq<char>) -> Seq<u8> {
    Seq::new(32, |i: int| sha256_of(encode_utf8(key))[i])
}

/// Relies on sha2::Sha256: the digest of the input bytes, a function of
/// them alone, and always exactly thirty-two bytes — which is why the
/// `key_material` form below agrees with the digest itself.
#[verifier::external_body]
fn derive_key(key_str: &str) -> (r: Vec<u8>)
    ensures
        r@ == Seq::new(32, |i: int| sha256_of(encode_utf8(key_str@))[i]),
{
    <sha2::Sha256 as sha2::Digest>::digest(key_str.as_bytes()).to_vec()
}

/// Prepares the block transform key: the configured key string must reach
/// the minimum length, and the key is then derived from the whole of it
/// by a digest, not by truncation.
pub fn prepare_key(key_str: &str) -> (r: Result<Vec<u8>, CryptoError>)
    ensures
        r is Ok <==> encode_utf8(key_str@).len() >= 32,
        r matches Ok(k) ==> k@ == key_material(key_str@) && k@.len() == 32,
        r matches Err(e) ==> e == CryptoError::InvalidKeyLength,
{
    let bytes = key_str.as_bytes();
    if bytes.len() < 32 {
        return Err(CryptoError::InvalidKeyLength);
    }
    Ok(derive_key(key_str))
}

/// One block through the placeholder transform, in place: each byte is
/// XORed with the matching key byte.  This is not a vetted cipher; it
/// keeps the one-block interface a real primitive would stand behind.
pub fn encrypt_block(key: &Vec<u8>, block: &mut Vec<u8>) -> (r: Result<(), CryptoError>)
    requires
        key@.len() == 32,
    ensures
        r is Ok <==> old(block)@.len() == 16,
        r is Ok ==> final(block)@ == xor_seq(old(block)@, key@),
        r matches Err(e) ==> final(block)@ == old(block)@ && e
            == CryptoError::InvalidCiphertextLength,
{
    if block.len() != 16 {
        return Err(CryptoError::InvalidCiphertextLength);
    }
    let mut i: usize = 0;
    while i < 16
        invariant
            i <= 16,
            key@.len() == 32,
            block@.len() == 16,
            old(block)@.len() == 16,
            forall|j: int| 0 <= j < i ==> block@[j] == (old(block)@[j] ^ key@[j]),
            forall|j: int| i <= j < 16 ==> block@[j] == old(block)@[j],
        decreases 16 - i,
    {
        let b = block[i];
        let k = key[i];
        block[i] = b ^ k;
        i += 1;
    }
    assert(block@ =~= xor_seq(old(block)@, key@));
    Ok(())
}

/// The inverse block transform.  The placeholder transform is an
/// involution, so it is the same operation as `encrypt_block`.
pub fn decrypt_block(key: &Vec<u8>, block: &mut Vec<u8>) -> (r: Result<(), CryptoError>)
    requires
        key@.len() == 32,
    ensures
        r is Ok <==> old(block)@.len() == 16,
        r is Ok ==> final(block)@ == xor_seq(old(block)@, key@),
        r matches Err(e) ==> final(block)@ == old(block)@ && e
            == CryptoError::InvalidCiphertextLength,
{
    encrypt_block(key, block)
}

/// Appends reversible padding so the length becomes a whole number of
/// blocks.
pub fn pad_pkcs7(data: &[u8]) -> (r: Vec<u8>)
    requires
        data@.len() + 16 <= usize::MAX,
    ensures
        r@ == pkcs7_pad(data@),
{
    let padding_size: usize = 16 - (data.len() % 16);
    let padding_byte: u8 = padding_size as u8;
    let mut padded = slice_to_vec(data);
    let mut i: usize = 0;
    while i < padding_size
        invariant
            i <= padding_size,
            padding_size == pad_len(data@.len()),
            padding_byte == pad_len(data@.len()) as u8,
            padded@ == data@ + Seq::new(i as nat, |j: int| padding_byte),
        decreases padding_size - i,
    {
        padded.push(padding_byte);
        assert(padded@ =~= data@ + Seq::new((i + 1) as nat, |j: int| padding_byte));
        i += 1;
    }
    assert(padded@ =~= pkcs7_pad(data@));
    padded
}

/// Validates and strips the padding.  Every failure yields the same error,
/// so a caller cannot tell which padding check failed.
pub fn unpad_pkcs7(data: &[u8]) -> (r: Result<Vec<u8>, CryptoError>)
    ensures
        r is Ok <==> pkcs7_unpad(data@) is Some,
        r matches Ok(v) ==> Some(v@) == pkcs7_unpad(data@),
        r matches Err(e) ==> e == CryptoError::PaddingValidationFailed,
{
    let n = data.len();
    if n == 0 {
        return Err(CryptoError::PaddingValidationFailed);
    }
    let padding_byte = data[n - 1];
    let padding_size = padding_byte as usize;
    if padding_size == 0 || padding_size > 16 || n < padding_size {
        return Err(CryptoError::PaddingValidationFailed);
    }
    let mut i: usize = 1;
    while i <= padding_size
        invariant
            1 <= i <= padding_size + 1,
            n == data@.len(),
            n >= 1,
            padding_byte == data@.last(),
            padding_size == padding_byte as int,
            1 <= padding_size <= 16,
            padding_size <= n,
            forall|j: int| n - i < j < n ==> data@[j] == data@.last(),
        decreases padding_size + 1 - i,
    {
        if data[n - i] != padding_byte {
            assert(pkcs7_unpad(data@) is None) by {
                assert(data@[n - i] != data@.last());
            }
            return Err(CryptoError::PaddingValidationFailed);
        }
        i += 1;
    }
    let m = n - padding_size;
    let mut out: Vec<u8> = Vec::new();
    let mut k: usize = 0;
    while k < m
        invariant
            k <= m,
            m == n - padding_size,
            padding_size <= n,
            n == data@.len(),
            out@ == data@.take(k as int),
        decreases m - k,
    {
        out.push(data[k]);
        assert(out@ =~= data@.take(k + 1));
        k += 1;
    }
    assert(pkcs7_unpad(data@) == Some(out@));
    Ok(out)
}

/// Chains and transforms every block of a padded message.
fn cbc_encrypt_blocks(padded: &Vec<u8>, iv: &Vec<u8>, key: &Vec<u8>) -> (r: Vec<u8>)
    requires
        padded@.len() % 16 == 0,
        iv@.len() == 16,
        key@.len() == 32,
    ensures
        r@ == cbc_encrypt(padded@, iv@, key@),
{
    let n = padded.len();
    let nblocks = n / 16;
    let mut out: Vec<u8> = Vec::new();
    let mut prev: Vec<u8> = slice_to_vec(iv.as_slice());
    let mut b: usize = 0;
    proof {
        assert(padded@.skip(0) =~= padded@);
    }
    while b < nblocks
        invariant
            b <= nblocks,
            nblocks == padded@.len() / 16,
            n == padded@.len(),
            n % 16 == 0,
            key@.len() == 32,
            prev@.len() == 16,
            out@.len() == 16 * b,
            cbc_encrypt(padded@, iv@, key@) == out@ + cbc_encrypt(
                padded@.skip(16 * b),
                prev@,
                key@,
            ),
        decreases nblocks - b,
    {
        assert(16 * b + 16 <= n) by (nonlinear_arith)
            requires
                b < nblocks,
                nblocks == n / 16,
                n % 16 == 0,
        ;
        let base = 16 * b;
        let ghost tail = padded@.skip(16 * b);
        let ghost cblk = xor_seq(xor_seq(tail.take(16), prev@), key@);
        let mut c: Vec<u8> = Vec::new();
        let mut i: usize = 0;
        proof {
            assert(tail.take(16) =~= padded@.subrange(base as int, base as int + 16));
        }
        while i < 16
            invariant
                i <= 16,
                base == 16 * b,
                base + 16 <= n,
                n == padded@.len(),
                key@.len() == 32,
                prev@.len() == 16,
                cblk == xor_seq(
                    xor_seq(padded@.subrange(base as int, base as int + 16), prev@),
                    key@,
                ),
                c@ == cblk.take(i as int),
            decreases 16 - i,
        {
            let x = padded[base + i] ^ prev[i];
            let y = x ^ key[i];
            c.push(y);
            assert(c@ =~= cblk.take(i + 1));
            i += 1;
        }
        proof {
            assert(c@ =~= cblk);
            assert(tail.skip(16) =~= padded@.skip(16 * (b + 1)));
            assert(cbc_encrypt(tail, prev@, key@) == cblk + cbc_encrypt(
                padded@.skip(16 * (b + 1)),
                cblk,
                key@,
            ));
        }
        out.extend_from_slice(c.as_slice());
        prev = c;
        b += 1;
        assert(out@ + cbc_encrypt(padded@.skip(16 * b), prev@, key@) =~= cbc_encrypt(
            padded@,
            iv@,
            key@,
        ));
    }
    proof {
        assert(16 * b == n);
        assert(padded@.skip(16 * b) =~= Seq::<u8>::empty());
        assert(out@ =~= cbc_encrypt(padded@, iv@, key@));
    }
    out
}

/// Inverts the chain over every block of the stored ciphertext.
fn cbc_decrypt_blocks(ct: &Vec<u8>, iv: &Vec<u8>, key: &Vec<u8>) -> (r: Vec<u8>)
    requires
        ct@.len() % 16 == 0,
        iv@.len() == 16,
        key@.len() == 32,
    ensures
        r@ == cbc_decrypt(ct@, iv@, key@),
{
    let n = ct.len();
    let nblocks = n / 16;
    let mut out: Vec<u8> = Vec::new();
    let mut prev: Vec<u8> = slice_to_vec(iv.as_slice());
    let mut b: usize = 0;
    proof {
        assert(ct@.skip(0) =~= ct@);
    }
    while b < nblocks
        invariant
            b <= nblocks,
            nblocks == ct@.len() / 16,
            n == ct@.len(),
            n % 16 == 0,
            key@.len() == 32,
            prev@.len() == 16,
            out@.len() == 16 * b,
            cbc_decrypt(ct@, iv@, key@) == out@ + cbc_decrypt(ct@.skip(16 * b), prev@, key@),
        decreases nblocks - b,
    {
        assert(16 * b + 16 <= n) by (nonlinear_arith)
            requires
                b < nblocks,
                nblocks == n / 16,
                n % 16 == 0,
        ;
        let base = 16 * b;
        let ghost tail = ct@.skip(16 * b);
        let ghost dblk = xor_seq(xor_seq(tail.take(16), key@), prev@);
        proof {
            assert(tail.take(16) =~= ct@.subrange(base as int, base as int + 16));
        }
        let mut d: Vec<u8> = Vec::new();
        let mut i: usize = 0;
        while i < 16
            invariant
                i <= 16,
                base == 16 * b,
                base + 16 <= n,
                n == ct@.len(),
                key@.len() == 32,
                prev@.len() == 16,
                dblk == xor_seq(
                    xor_seq(ct@.subrange(base as int, base as int + 16), key@),
                    prev@,
                ),
                d@ == dblk.take(i as int),
            decreases 16 - i,
        {
            let x = ct[base + i] ^ key[i];
            let y = x ^ prev[i];
            d.push(y);
            assert(d@ =~= dblk.take(i + 1));
            i += 1;
        }
        proof {
            assert(d@ =~= dblk);
            assert(tail.skip(16) =~= ct@.skip(16 * (b + 1)));
            assert(cbc_decrypt(tail, prev@, key@) == dblk + cbc_decrypt(
                ct@.skip(16 * (b + 1)),
                tail.take(16),
                key@,
            ));
        }
        let current = slice_subrange(ct.as_slice(), base, base + 16);
        prev = slice_to_vec(current);
        out.extend_from_slice(d.as_slice());
        b += 1;
        assert(out@ + cbc_decrypt(ct@.skip(16 * b), prev@, key@) =~= cbc_decrypt(
            ct@,
            iv@,
            key@,
        ));
    }
    proof {
        assert(16 * b == n);
        assert(ct@.skip(16 * b) =~= Seq::<u8>::empty());
        assert(out@ =~= cbc_decrypt(ct@, iv@, key@));
    }
    out
}

/// Relies on rand::thread_rng and rand::Rng::fill: the sixteen-byte buffer
/// is filled; nothing more is promised of a random value.
#[verifier::external_body]
fn generate_random_iv() -> (r: Vec<u8>)
    ensures
        r@.len() == 16,
{
    let mut rng = rand::thread_rng();
    let mut iv = vec![0u8; 16];
    rand::Rng::fill(&mut rng, &mut iv[..]);
    iv
}

/// Relies on String::from_utf8: it succeeds exactly on valid UTF-8 and the
/// returned string holds those bytes.
#[verifier::external_body]
pub(crate) fn bytes_to_string(v: Vec<u8>) -> (r: Option<String>)
    ensures
        r is Some <==> valid_utf8(v@),
        r matches Some(s) ==> encode_utf8(s@) == v@,
{
    String::from_utf8(v).ok()
}

/// Encrypts a secret for storage: pad to whole blocks, chain against a
/// fresh random iv, and return hex text of the ciphertext and of the iv,
/// in that order.
pub fn encrypt_password(password: &str, encryption_key: &str) -> (r: Result<
    (String, String),
    CryptoError,
>)
    requires
        encode_utf8(password@).len() + 16 <= usize::MAX / 2,
    ensures
        r is Ok <==> encode_utf8(encryption_key@).len() >= 32,
        r matches Ok(p) ==> exists|ivs: Seq<u8>|
            #![auto]
            ivs.len() == 16 && encode_utf8(p.1@) == hex_bytes(ivs) && encode_utf8(p.0@)
                == hex_bytes(encrypt_core(encode_utf8(password@), ivs, key_material(encryption_key@))),
        r matches Err(e) ==> e == CryptoError::InvalidKeyLength,
{
    let key = match prepare_key(encryption_key) {
        Ok(k) => k,
        Err(e) => {
            return Err(e);
        },
    };
    let iv = generate_random_iv();
    let plaintext = password.as_bytes();
    let padded = pad_pkcs7(plaintext);
    proof {
        lemma_pad_round_trip(encode_utf8(password@));
    }
    let ciphertext = cbc_encrypt_blocks(&padded, &iv, &key);
    proof {
        lemma_cbc_encrypt_len(padded@, iv@, key@);
    }
    let encrypted_hex = bytes_to_hex(&ciphertext);
    let iv_hex = bytes_to_hex(&iv);
    proof {
        let ivs = iv@;
        assert(ivs.len() == 16 && encode_utf8(iv_hex@) == hex_bytes(ivs) && encode_utf8(
            encrypted_hex@,
        ) == hex_bytes(encrypt_core(encode_utf8(password@), ivs, key_material(encryption_key@))));
    }
    Ok((encrypted_hex, iv_hex))
}

/// The exact outcome of decrypting stored hex material with a configured
/// key string.
pub open spec fn decrypt_model(ct_hex: Seq<u8>, iv_hex: Seq<u8>, key: Seq<char>) -> Result<
    Seq<char>,
    CryptoError,
> {
    if encode_utf8(key).len() < 32 {
        Err(CryptoError::InvalidKeyLength)
    } else if !hex_text_valid(ct_hex) || !hex_text_valid(iv_hex) {
        Err(CryptoError::EncodingError)
    } else if hex_parse(iv_hex).len() != 16 {
        Err(CryptoError::InvalidIVLength)
    } else if hex_parse(ct_hex).len() == 0 || hex_parse(ct_hex).len() % 16 != 0 {
        Err(CryptoError::InvalidCiphertextLength)
    } else {
        match pkcs7_unpad(cbc_decrypt(hex_parse(ct_hex), hex_parse(iv_hex), key_material(key))) {
            Some(pt) => if valid_utf8(pt) {
                Ok(decode_utf8(pt))
            } else {
                Err(CryptoError::EncodingError)
            },
            None => Err(CryptoError::PaddingValidationFailed),
        }
    }
}

/// Decrypts a stored (ciphertext hex, iv hex) pair back to the secret.
pub fn decrypt_password(encrypted_hex: &str, iv_hex: &str, encryption_key: &str) -> (r: Result<
    String,
    CryptoError,
>)
    ensures
        r matches Ok(s) ==> decrypt_model(
            encode_utf8(encrypted_hex@),
            encode_utf8(iv_hex@),
            encryption_key@,
        ) == Ok::<Seq<char>, CryptoError>(s@),
        r matches Err(e) ==> decrypt_model(
            encode_utf8(encrypted_hex@),
            encode_utf8(iv_hex@),
            encryption_key@,
        ) == Err::<Seq<char>, CryptoError>(e),
{
    let key = match prepare_key(encryption_key) {
        Ok(k) => k,
        Err(e) => {
            return Err(e);
        },
    };
    let encrypted = match hex_to_bytes(encrypted_hex) {
        Some(v) => v,
        None => {
            return Err(CryptoError::EncodingError);
        },
    };
    let iv = match hex_to_bytes(iv_hex) {
        Some(v) => v,
        None => {
            return Err(CryptoError::EncodingError);
        },
    };
    if iv.len() != 16 {
        return Err(CryptoError::InvalidIVLength);
    }
    if encrypted.len() == 0 || encrypted.len() % 16 != 0 {
        return Err(CryptoError::InvalidCiphertextLength);
    }
    let padded = cbc_decrypt_blocks(&encrypted, &iv, &key);
    let unpadded = match unpad_pkcs7(padded.as_slice()) {
        Ok(v) => v,
        Err(e) => {
            return Err(e);
        },
    };
    match bytes_to_string(unpadded) {
        Some(s) => Ok(s),
        None => Err(CryptoError::EncodingError),
    }
}

/// Law: a stored pair whose ciphertext bytes alone, or iv bytes alone,
/// were changed — by flipping any bit or otherwise — never decrypts to
/// the original password: decryption fails, or yields something else.
pub proof fn lemma_stored_tampering_detected(
    password: Seq<char>,
    key: Seq<char>,
    iv: Seq<u8>,
    ct2: Seq<u8>,
    iv2: Seq<u8>,
)
    requires
        encode_utf8(key).len() >= 32,
        iv.len() == 16,
        iv2.len() == 16,
        (ct2 == encrypt_core(encode_utf8(password), iv, key_material(key)) && iv2 != iv) || (ct2
            != encrypt_core(encode_utf8(password), iv, key_material(key)) && iv2 == iv),
    ensures
        decrypt_model(hex_bytes(ct2), hex_bytes(iv2), key) != Ok::<Seq<char>, CryptoError>(
            password,
        ),
{
    broadcast use vstd::utf8::decode_utf8_encode_utf8;

    let msg = encode_utf8(password);
    let km = key_material(key);
    lemma_hex_round_trip(ct2);
    lemma_hex_round_trip(iv2);
    lemma_tampering_detected(msg, km, iv, ct2, iv2);
    if decrypt_model(hex_bytes(ct2), hex_bytes(iv2), key) == Ok::<Seq<char>, CryptoError>(
        password,
    ) {
        let pt = pkcs7_unpad(cbc_decrypt(ct2, iv2, km))->Some_0;
        assert(decode_utf8(pt) == password);
        assert(encode_utf8(decode_utf8(pt)) == pt);
        assert(decrypt_core(ct2, iv2, km) == Some(msg));
        assert(false);
    }
}

/// Whether a stored (ciphertext hex, iv hex) pair is what encrypting this
/// secret under this key with some one-block iv produces.
pub open spec fn stores_secret(
    ct_hex: Seq<char>,
    iv_hex: Seq<char>,
    secret: Seq<char>,
    key: Seq<char>,
) -> bool {
    exists|ivs: Seq<u8>|
        #![auto]
        ivs.len() == 16 && encode_utf8(iv_hex) == hex_bytes(ivs) && encode_utf8(ct_hex)
            == hex_bytes(encrypt_core(encode_utf8(secret), ivs, key_material(key)))
}

/// Law: a stored pair always decrypts back to the secret it was made from.
pub proof fn lemma_stored_secret_decrypts(
    ct_hex: Seq<char>,
    iv_hex: Seq<char>,
    secret: Seq<char>,
    key: Seq<char>,
)
    requires
        encode_utf8(key).len() >= 32,
        stores_secret(ct_hex, iv_hex, secret, key),
    ensures
        decrypt_model(encode_utf8(ct_hex), encode_utf8(iv_hex), key) == Ok::<Seq<char>, CryptoError>(
            secret,
        ),
{
    let ivs = choose|ivs: Seq<u8>|
        #![auto]
        ivs.len() == 16 && encode_utf8(iv_hex) == hex_bytes(ivs) && encode_utf8(ct_hex)
            == hex_bytes(encrypt_core(encode_utf8(secret), ivs, key_material(key)));
    lemma_password_round_trip(secret, key, ivs);
}

/// Law: decrypting the stored pair that encryption produced yields exactly
/// the original password, whatever the iv was.
pub proof fn lemma_password_round_trip(password: Seq<char>, key: Seq<char>, iv: Seq<u8>)
    requires
        encode_utf8(key).len() >= 32,
        iv.len() == 16,
    ensures
        decrypt_model(
            hex_bytes(encrypt_core(encode_utf8(password), iv, key_material(key))),
            hex_bytes(iv),
            key,
        ) == Ok::<Seq<char>, CryptoError>(password),
{
    let msg = encode_utf8(password);
    let ct = encrypt_core(msg, iv, key_material(key));
    lemma_hex_round_trip(ct);
    lemma_hex_round_trip(iv);
    lemma_pad_round_trip(msg);
    lemma_cbc_encrypt_len(pkcs7_pad(msg), iv, key_material(key));
    lemma_core_round_trip(msg, iv, key_material(key));
}

} // verus!
