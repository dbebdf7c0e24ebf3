use file_crypto::crypto::{decrypt, encrypt, encrypt_with_nonce, CryptoAlgorithm};
use file_crypto::error::CryptoError;
use std::str::FromStr;

fn hex(s: &str) -> Vec<u8> {
    let digits: Vec<u8> = s.bytes().filter(|b| !b.is_ascii_whitespace()).collect();
    digits
        .chunks(2)
        .map(|pair| {
            let hi = (pair[0] as char).to_digit(16).unwrap() as u8;
            let lo = (pair[1] as char).to_digit(16).unwrap() as u8;
            hi * 16 + lo
        })
        .collect()
}

fn sample(len: usize) -> Vec<u8> {
    (0..len).map(|i| (i * 7 + 3) as u8).collect()
}

#[test]
fn algorithm_names_are_read_in_any_case() {
    assert_eq!(CryptoAlgorithm::from_str("aes"), Ok(CryptoAlgorithm::Aes));
    assert_eq!(CryptoAlgorithm::from_str("AES"), Ok(CryptoAlgorithm::Aes));
    assert_eq!(CryptoAlgorithm::from_str("AeS"), Ok(CryptoAlgorithm::Aes));
    assert_eq!(
        CryptoAlgorithm::from_str("chacha20poly1305"),
        Ok(CryptoAlgorithm::Chacha20Poly1305)
    );
    assert_eq!(
        CryptoAlgorithm::from_str("ChaCha20Poly1305"),
        Ok(CryptoAlgorithm::Chacha20Poly1305)
    );
    assert_eq!(CryptoAlgorithm::from_name("aes"), Ok(CryptoAlgorithm::Aes));
}

#[test]
fn unknown_algorithm_names_are_refused() {
    for name in ["", "ae", "aes ", " aes", "aes256", "chacha20", "des", "a\u{00e9}s", "\u{212a}"] {
        assert_eq!(CryptoAlgorithm::from_str(name), Err(CryptoError::UnsupportedAlgorithm));
    }
}

#[test]
fn algorithm_table() {
    assert_eq!(CryptoAlgorithm::Aes.nonce_len(), 16);
    assert_eq!(CryptoAlgorithm::Chacha20Poly1305.nonce_len(), 12);
    assert!(!CryptoAlgorithm::Aes.is_authenticated());
    assert!(CryptoAlgorithm::Chacha20Poly1305.is_authenticated());
}

#[test]
fn round_trip_for_every_length() {
    let key = [7u8; 32];
    for algorithm in [CryptoAlgorithm::Aes, CryptoAlgorithm::Chacha20Poly1305] {
        for len in 0..70usize {
            let plaintext = sample(len);
            let blob = encrypt(algorithm, &key, &plaintext).unwrap();
            assert_eq!(decrypt(algorithm, &key, &blob), Ok(plaintext));
        }
    }
}

#[test]
fn blob_lengths() {
    let key = [1u8; 32];
    for len in [0usize, 1, 15, 16, 17, 31, 32, 33, 100] {
        let plaintext = sample(len);
        let aes = encrypt(CryptoAlgorithm::Aes, &key, &plaintext).unwrap();
        assert_eq!(aes.len(), 16 + len + 16 - len % 16);
        assert_eq!((aes.len() - 16) % 16, 0);
        let chacha = encrypt(CryptoAlgorithm::Chacha20Poly1305, &key, &plaintext).unwrap();
        assert_eq!(chacha.len(), 12 + len + 16);
    }
}

#[test]
fn fresh_nonce_for_every_call() {
    let key = [9u8; 32];
    let plaintext = b"the same plaintext".to_vec();
    let a = encrypt(CryptoAlgorithm::Aes, &key, &plaintext).unwrap();
    let b = encrypt(CryptoAlgorithm::Aes, &key, &plaintext).unwrap();
    assert_ne!(a[..16], b[..16]);
    assert_ne!(a, b);
    let c = encrypt(CryptoAlgorithm::Chacha20Poly1305, &key, &plaintext).unwrap();
    let d = encrypt(CryptoAlgorithm::Chacha20Poly1305, &key, &plaintext).unwrap();
    assert_ne!(c[..12], d[..12]);
    assert_ne!(c, d);
}

#[test]
fn keys_of_wrong_length_are_refused() {
    for algorithm in [CryptoAlgorithm::Aes, CryptoAlgorithm::Chacha20Poly1305] {
        for len in [0usize, 16, 31, 33, 64] {
            let key = vec![0u8; len];
            assert_eq!(encrypt(algorithm, &key, b"data"), Err(CryptoError::InvalidKeyLength));
            assert_eq!(
                decrypt(algorithm, &key, &[0u8; 64]),
                Err(CryptoError::InvalidKeyLength)
            );
            assert_eq!(
                encrypt_with_nonce(algorithm, &key, &[0u8; 16], b"data"),
                Err(CryptoError::InvalidKeyLength)
            );
        }
    }
}

#[test]
fn nonces_of_wrong_length_are_refused() {
    let key = [0u8; 32];
    assert_eq!(
        encrypt_with_nonce(CryptoAlgorithm::Aes, &key, &[0u8; 12], b"data"),
        Err(CryptoError::InvalidNonceLength)
    );
    assert_eq!(
        encrypt_with_nonce(CryptoAlgorithm::Chacha20Poly1305, &key, &[0u8; 16], b"data"),
        Err(CryptoError::InvalidNonceLength)
    );
}

#[test]
fn truncated_blobs_are_refused() {
    let key = [0u8; 32];
    assert_eq!(decrypt(CryptoAlgorithm::Aes, &key, &[0u8; 15]), Err(CryptoError::TruncatedInput));
    assert_eq!(decrypt(CryptoAlgorithm::Aes, &key, &[]), Err(CryptoError::TruncatedInput));
    assert_eq!(
        decrypt(CryptoAlgorithm::Chacha20Poly1305, &key, &[0u8; 11]),
        Err(CryptoError::TruncatedInput)
    );
}

#[test]
fn misaligned_aes_ciphertext_is_refused() {
    let key = [0u8; 32];
    assert_eq!(
        decrypt(CryptoAlgorithm::Aes, &key, &[0u8; 17]),
        Err(CryptoError::MisalignedCiphertext)
    );
    assert_eq!(
        decrypt(CryptoAlgorithm::Aes, &key, &[0u8; 47]),
        Err(CryptoError::MisalignedCiphertext)
    );
}

#[test]
fn aes_blob_without_ciphertext_has_no_padding() {
    let key = [0u8; 32];
    assert_eq!(decrypt(CryptoAlgorithm::Aes, &key, &[0u8; 16]), Err(CryptoError::PaddingError));
}

#[test]
fn aes_padding_is_checked() {
    let key = [3u8; 32];
    let iv = [5u8; 16];
    // One block whose plaintext ends in a zero byte, which is no padding.
    let blob = encrypt_with_nonce(CryptoAlgorithm::Aes, &key, &iv, &[0u8; 16]).unwrap();
    assert_eq!(blob.len(), 48);
    assert_eq!(decrypt(CryptoAlgorithm::Aes, &key, &blob[..32]), Err(CryptoError::PaddingError));
}

#[test]
fn tampered_chacha_blob_is_refused() {
    let key = [4u8; 32];
    let mut blob = encrypt(CryptoAlgorithm::Chacha20Poly1305, &key, b"authentic").unwrap();
    let last = blob.len() - 1;
    blob[last] ^= 1;
    assert_eq!(
        decrypt(CryptoAlgorithm::Chacha20Poly1305, &key, &blob),
        Err(CryptoError::AuthenticationFailed)
    );
    blob[last] ^= 1;
    blob[12] ^= 0x80;
    assert_eq!(
        decrypt(CryptoAlgorithm::Chacha20Poly1305, &key, &blob),
        Err(CryptoError::AuthenticationFailed)
    );
    assert_eq!(
        decrypt(CryptoAlgorithm::Chacha20Poly1305, &key, &blob[..20]),
        Err(CryptoError::AuthenticationFailed)
    );
    let other_key = [5u8; 32];
    blob[12] ^= 0x80;
    assert_eq!(
        decrypt(CryptoAlgorithm::Chacha20Poly1305, &other_key, &blob),
        Err(CryptoError::AuthenticationFailed)
    );
}

#[test]
fn aes_known_answer() {
    // AES-256 in CBC mode, first block of the NIST SP 800-38A example.
    let key = hex("603deb1015ca71be2b73aef0857d77811f352c073b6108d72d9810a30914dff4");
    let iv = hex("000102030405060708090a0b0c0d0e0f");
    let plaintext = hex("6bc1bee22e409f96e93d7e117393172a");
    let blob = encrypt_with_nonce(CryptoAlgorithm::Aes, &key, &iv, &plaintext).unwrap();
    assert_eq!(blob.len(), 48);
    assert_eq!(blob[..16], iv[..]);
    assert_eq!(blob[16..32], hex("f58c4c04d6e5f1ba779eabfb5f7bfbd6")[..]);
    assert_eq!(decrypt(CryptoAlgorithm::Aes, &key, &blob), Ok(plaintext));
}

#[test]
fn chacha_known_answer() {
    // ChaCha20-Poly1305 with an empty plaintext and no associated data:
    // the blob is the nonce and the tag of nothing.
    let key = [0u8; 32];
    let nonce = [0u8; 12];
    let blob = encrypt_with_nonce(CryptoAlgorithm::Chacha20Poly1305, &key, &nonce, &[]).unwrap();
    assert_eq!(blob[..12], nonce[..]);
    assert_eq!(blob[12..], hex("4eb972c9a8fb3a1b382bb4d36f5ffad1")[..]);
    assert_eq!(decrypt(CryptoAlgorithm::Chacha20Poly1305, &key, &blob), Ok(Vec::new()));
}

#[test]
fn encryption_is_a_function_of_the_nonce() {
    let key = [8u8; 32];
    let plaintext = sample(40);
    for (algorithm, nonce) in [
        (CryptoAlgorithm::Aes, vec![1u8; 16]),
        (CryptoAlgorithm::Chacha20Poly1305, vec![1u8; 12]),
    ] {
        let a = encrypt_with_nonce(algorithm, &key, &nonce, &plaintext).unwrap();
        let b = encrypt_with_nonce(algorithm, &key, &nonce, &plaintext).unwrap();
        assert_eq!(a, b);
        assert_eq!(a[..nonce.len()], nonce[..]);
        assert_ne!(a[nonce.len()..nonce.len() + 40], plaintext[..]);
        let mut other = nonce.clone();
        other[0] = 2;
        let c = encrypt_with_nonce(algorithm, &key, &other, &plaintext).unwrap();
        assert_ne!(a[nonce.len()..], c[nonce.len()..]);
    }
}

#[test]
fn error_messages() {
    assert_eq!(CryptoError::InvalidKeyLength.message(), "Key must be 32 bytes (256 bits)");
    assert_eq!(CryptoError::UnsupportedAlgorithm.message(), "Invalid algorithm");
    assert_eq!(
        CryptoError::MissingHeader.message(),
        "No IV/nonce found in the encrypted data"
    );
    assert_eq!(
        CryptoError::InvalidFormat.message(),
        "Invalid file format - not a chunked file"
    );
    let all = [
        CryptoError::InvalidKeyLength,
        CryptoError::UnsupportedAlgorithm,
        CryptoError::InvalidNonceLength,
        CryptoError::TruncatedInput,
        CryptoError::MisalignedCiphertext,
        CryptoError::PaddingError,
        CryptoError::AuthenticationFailed,
        CryptoError::EncryptionFailed,
        CryptoError::MissingHeader,
        CryptoError::InvalidFormat,
        CryptoError::CorruptHeader,
        CryptoError::UnexpectedEof,
    ];
    for (i, a) in all.iter().enumerate() {
        assert!(!a.message().is_empty());
        for b in &all[i + 1..] {
            assert_ne!(a.message(), b.message());
        }
    }
}
