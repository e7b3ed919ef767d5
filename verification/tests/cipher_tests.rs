use credvault::cipher::{
    decrypt_password, decrypt_block, encrypt_block, encrypt_password, pad_pkcs7, prepare_key,
    unpad_pkcs7,
};
use credvault::errors::CryptoError;

const KEY: &str = "0123456789abcdef0123456789abcdef";

#[test]
fn encrypt_decrypt_round_trip() {
    let (ct, iv) = encrypt_password("hunter2", KEY).unwrap();
    let back = decrypt_password(&ct, &iv, KEY).unwrap();
    assert_eq!(back, "hunter2");
}

#[test]
fn hunter2_is_one_padded_block() {
    let (ct, iv) = encrypt_password("hunter2", KEY).unwrap();
    // one 16-byte block of ciphertext and a 16-byte iv, each as hex text
    assert_eq!(ct.len(), 32);
    assert_eq!(iv.len(), 32);
    assert_eq!(hex::decode(&ct).unwrap().len(), 16);
    assert_eq!(hex::decode(&iv).unwrap().len(), 16);
    assert_eq!(decrypt_password(&ct, &iv, KEY).unwrap(), "hunter2");
}

#[test]
fn two_encrypt_calls_differ() {
    let (ct1, iv1) = encrypt_password("hunter2", KEY).unwrap();
    let (ct2, iv2) = encrypt_password("hunter2", KEY).unwrap();
    assert_ne!(iv1, iv2);
    assert_ne!(ct1, ct2);
}

#[test]
fn empty_password_round_trip() {
    let (ct, iv) = encrypt_password("", KEY).unwrap();
    assert_eq!(ct.len(), 32);
    assert_eq!(decrypt_password(&ct, &iv, KEY).unwrap(), "");
}

#[test]
fn unicode_password_round_trip() {
    let secret = "p\u{e2}ssw\u{f6}rd \u{1f511} tr\u{e8}s secret";
    let (ct, iv) = encrypt_password(secret, KEY).unwrap();
    let back = decrypt_password(&ct, &iv, KEY).unwrap();
    assert_eq!(back, secret);
}

#[test]
fn long_password_round_trip() {
    let secret: String = std::iter::repeat("correct horse battery staple ").take(10).collect();
    let (ct, iv) = encrypt_password(&secret, KEY).unwrap();
    assert_eq!(ct.len() % 32, 0);
    assert_eq!(decrypt_password(&ct, &iv, KEY).unwrap(), secret);
}

#[test]
fn short_key_rejected() {
    let short = "0123456789abcdef0123456789abcde";
    assert_eq!(encrypt_password("x", short), Err(CryptoError::InvalidKeyLength));
    assert_eq!(
        decrypt_password("00112233445566778899aabbccddeeff", "00112233445566778899aabbccddeeff", short),
        Err(CryptoError::InvalidKeyLength)
    );
}

#[test]
fn key_derivation_covers_the_whole_secret() {
    // a longer key is not cut down: its tail changes the derived key
    let long_key = "0123456789abcdef0123456789abcdefEXTRA";
    let (ct, iv) = encrypt_password("hunter2", long_key).unwrap();
    assert_eq!(decrypt_password(&ct, &iv, long_key).unwrap(), "hunter2");
    assert_ne!(decrypt_password(&ct, &iv, KEY), Ok("hunter2".to_string()));
}

#[test]
fn decrypt_rejects_bad_hex() {
    let (ct, iv) = encrypt_password("hunter2", KEY).unwrap();
    assert_eq!(decrypt_password("zzzz", &iv, KEY), Err(CryptoError::EncodingError));
    assert_eq!(decrypt_password(&ct, "abc", KEY), Err(CryptoError::EncodingError));
}

#[test]
fn decrypt_accepts_uppercase_hex() {
    let (ct, iv) = encrypt_password("hunter2", KEY).unwrap();
    let back = decrypt_password(&ct.to_uppercase(), &iv.to_uppercase(), KEY).unwrap();
    assert_eq!(back, "hunter2");
}

#[test]
fn decrypt_rejects_wrong_iv_length() {
    let (ct, _) = encrypt_password("hunter2", KEY).unwrap();
    assert_eq!(decrypt_password(&ct, "00ff", KEY), Err(CryptoError::InvalidIVLength));
}

#[test]
fn decrypt_rejects_wrong_ciphertext_length() {
    let (_, iv) = encrypt_password("hunter2", KEY).unwrap();
    assert_eq!(decrypt_password("", &iv, KEY), Err(CryptoError::InvalidCiphertextLength));
    assert_eq!(decrypt_password("00ff", &iv, KEY), Err(CryptoError::InvalidCiphertextLength));
}

#[test]
fn ciphertext_tampering_never_recovers_plaintext() {
    let (ct, iv) = encrypt_password("hunter2", KEY).unwrap();
    let mut ct_bytes = hex::decode(&ct).unwrap();
    for byte in 0..ct_bytes.len() {
        for bit in 0..8 {
            ct_bytes[byte] ^= 1 << bit;
            let tampered = hex::encode(&ct_bytes);
            let outcome = decrypt_password(&tampered, &iv, KEY);
            assert_ne!(outcome, Ok("hunter2".to_string()), "byte {} bit {}", byte, bit);
            ct_bytes[byte] ^= 1 << bit;
        }
    }
}

#[test]
fn iv_tampering_never_recovers_plaintext() {
    let (ct, iv) = encrypt_password("hunter2", KEY).unwrap();
    let mut iv_bytes = hex::decode(&iv).unwrap();
    for byte in 0..iv_bytes.len() {
        for bit in 0..8 {
            iv_bytes[byte] ^= 1 << bit;
            let tampered = hex::encode(&iv_bytes);
            let outcome = decrypt_password(&ct, &tampered, KEY);
            assert_ne!(outcome, Ok("hunter2".to_string()), "byte {} bit {}", byte, bit);
            iv_bytes[byte] ^= 1 << bit;
        }
    }
}

#[test]
fn padding_fills_to_whole_blocks() {
    assert_eq!(pad_pkcs7(b""), vec![16u8; 16]);
    let padded = pad_pkcs7(b"hunter2");
    assert_eq!(padded.len(), 16);
    assert_eq!(&padded[..7], b"hunter2");
    assert!(padded[7..].iter().all(|&b| b == 9));
    let sixteen = pad_pkcs7(&[0xabu8; 16]);
    assert_eq!(sixteen.len(), 32);
    assert!(sixteen[16..].iter().all(|&b| b == 16));
}

#[test]
fn unpad_inverts_pad() {
    for len in 0..40usize {
        let data: Vec<u8> = (0..len).map(|i| i as u8).collect();
        let padded = pad_pkcs7(&data);
        assert_eq!(unpad_pkcs7(&padded), Ok(data));
    }
}

#[test]
fn unpad_rejects_bad_padding() {
    assert_eq!(unpad_pkcs7(&[]), Err(CryptoError::PaddingValidationFailed));
    // final byte encodes zero
    assert_eq!(unpad_pkcs7(&[1, 2, 0]), Err(CryptoError::PaddingValidationFailed));
    // final byte encodes more than a block
    assert_eq!(unpad_pkcs7(&[17u8; 17]), Err(CryptoError::PaddingValidationFailed));
    // final byte encodes more than is there
    assert_eq!(unpad_pkcs7(&[5, 5, 5]), Err(CryptoError::PaddingValidationFailed));
    // one padding byte has the wrong value
    assert_eq!(unpad_pkcs7(&[1, 2, 3, 4, 4, 3]), Err(CryptoError::PaddingValidationFailed));
}

#[test]
fn prepare_key_validates_and_derives() {
    let prepared = prepare_key(KEY).unwrap();
    assert_eq!(prepared.len(), 32);
    // the derivation digest of the whole secret, not its leading bytes
    let digest = <sha2::Sha256 as sha2::Digest>::digest(KEY.as_bytes()).to_vec();
    assert_eq!(prepared, digest);
    assert_ne!(prepared, KEY.as_bytes().to_vec());
    assert_eq!(prepare_key("too short"), Err(CryptoError::InvalidKeyLength));
    let long = format!("{}{}", KEY, "more");
    assert_ne!(prepare_key(&long).unwrap(), prepared);
}

#[test]
fn block_transform_is_an_involution() {
    let key = prepare_key(KEY).unwrap();
    let original: Vec<u8> = (0..16u8).collect();
    let mut block = original.clone();
    encrypt_block(&key, &mut block).unwrap();
    assert_ne!(block, original);
    decrypt_block(&key, &mut block).unwrap();
    assert_eq!(block, original);
}

#[test]
fn block_transform_rejects_wrong_size() {
    let key = prepare_key(KEY).unwrap();
    let mut block = vec![0u8; 15];
    assert_eq!(encrypt_block(&key, &mut block), Err(CryptoError::InvalidCiphertextLength));
}
