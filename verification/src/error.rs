//! The failures that the cipher, the streams and the container readers report.

use vstd::prelude::*;

verus! {

/// Why an operation was refused or could not complete.
#[derive(Clone, Copy, Debug, PartialEq, Eq, Structural)]
pub enum CryptoError {
    /// The key is not exactly 32 bytes long.
    InvalidKeyLength,
    /// The algorithm identifier names neither supported cipher.
    UnsupportedAlgorithm,
    /// A nonce or IV of the wrong length for the algorithm was supplied.
    InvalidNonceLength,
    /// The blob is shorter than the nonce or IV that must lead it.
    TruncatedInput,
    /// An AES ciphertext whose length is not a multiple of the block size.
    MisalignedCiphertext,
    /// The AES plaintext does not end in valid PKCS7 padding.
    PaddingError,
    /// The ChaCha20-Poly1305 tag does not verify.
    AuthenticationFailed,
    /// The cipher refused to encrypt the message.
    EncryptionFailed,
    /// A decryption stream was finalized before its nonce or IV arrived.
    MissingHeader,
    /// The container does not begin with its tag.
    InvalidFormat,
    /// A numeric field of the container is not a decimal number in range.
    CorruptHeader,
    /// The container ends before a field or a chunk is complete.
    UnexpectedEof,
}

impl CryptoError {
    /// The text of [`CryptoError::message`].
    pub open spec fn message_text(self) -> Seq<char> {
        match self {
            CryptoError::InvalidKeyLength => "Key must be 32 bytes (256 bits)"@,
            CryptoError::UnsupportedAlgorithm => "Invalid algorithm"@,
            CryptoError::InvalidNonceLength => "Nonce or IV has the wrong length"@,
            CryptoError::TruncatedInput => "Encrypted data is shorter than its nonce or IV"@,
            CryptoError::MisalignedCiphertext => "AES ciphertext length must be a multiple of 16"@,
            CryptoError::PaddingError => "AES decrypt failed"@,
            CryptoError::AuthenticationFailed => "ChaCha20Poly1305 decrypt failed"@,
            CryptoError::EncryptionFailed => "ChaCha20Poly1305 encrypt failed"@,
            CryptoError::MissingHeader => "No IV/nonce found in the encrypted data"@,
            CryptoError::InvalidFormat => "Invalid file format - not a chunked file"@,
            CryptoError::CorruptHeader => "Invalid size field in chunked file"@,
            CryptoError::UnexpectedEof => "Unexpected end of chunked file"@,
        }
    }

    /// A one-line description of the failure, for display to a user.
    pub fn message(&self) -> (text: String)
        ensures
            text@ == self.message_text(),
    {
        match self {
            CryptoError::InvalidKeyLength => "Key must be 32 bytes (256 bits)".to_owned(),
            CryptoError::UnsupportedAlgorithm => "Invalid algorithm".to_owned(),
            CryptoError::InvalidNonceLength => "Nonce or IV has the wrong length".to_owned(),
            CryptoError::TruncatedInput => "Encrypted data is shorter than its nonce or IV".to_owned(),
            CryptoError::MisalignedCiphertext => "AES ciphertext length must be a multiple of 16".to_owned(),
            CryptoError::PaddingError => "AES decrypt failed".to_owned(),
            CryptoError::AuthenticationFailed => "ChaCha20Poly1305 decrypt failed".to_owned(),
            CryptoError::EncryptionFailed => "ChaCha20Poly1305 encrypt failed".to_owned(),
            CryptoError::MissingHeader => "No IV/nonce found in the encrypted data".to_owned(),
            CryptoError::InvalidFormat => "Invalid file format - not a chunked file".to_owned(),
            CryptoError::CorruptHeader => "Invalid size field in chunked file".to_owned(),
            CryptoError::UnexpectedEof => "Unexpected end of chunked file".to_owned(),
        }
    }
}

} // verus!
