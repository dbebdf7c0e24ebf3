//! The one-shot cipher: a whole buffer in, a whole buffer out.
//!
//! An encrypted blob is the nonce or IV followed by the ciphertext. Every
//! call of [`encrypt`] draws a fresh nonce or IV; [`encrypt_with_nonce`] is
//! the same operation with the nonce chosen by the caller.

use crate::error::CryptoError;
use crate::primitives::{
    aes256_cbc_pkcs7_open, aes256_cbc_pkcs7_seal, aes_cbc_decrypt, aes_cbc_encrypt,
    chacha20poly1305_max_blocks, chacha20poly1305_open, chacha20poly1305_seal, chacha_decrypt,
    chacha_encrypt, random_bytes,
};
use vstd::prelude::*;
use vstd::slice::slice_subrange;
use vstd::string::StringSliceAdditionalSpecFns;

verus! {

/// The length, in bytes, of every key.
pub const KEY_LEN: usize = 32;

/// The AES block size, in bytes.
pub const AES_BLOCK_LEN: usize = 16;

/// The two supported ciphers.
#[derive(Clone, Copy, Debug, PartialEq, Eq, Structural)]
pub enum CryptoAlgorithm {
    /// AES-256 in CBC mode with PKCS7 padding; not authenticated.
    Aes,
    /// ChaCha20-Poly1305, which appends a 16-byte tag.
    Chacha20Poly1305,
}

/// An ASCII letter in lower case; any other byte unchanged.
pub open spec fn lower_byte(b: u8) -> u8 {
    if 65 <= b <= 90 {
        (b + 32) as u8
    } else {
        b
    }
}

/// Whether two byte strings are equal up to the case of ASCII letters.
pub open spec fn same_ignoring_case(a: Seq<u8>, b: Seq<u8>) -> bool {
    &&& a.len() == b.len()
    &&& forall|i: int| 0 <= i < a.len() ==> lower_byte(#[trigger] a[i]) == lower_byte(b[i])
}

/// The algorithm that an identifier names, given as its UTF-8 bytes.
pub open spec fn algorithm_named(name: Seq<u8>) -> Option<CryptoAlgorithm> {
    if same_ignoring_case(name, "aes".spec_bytes()) {
        Some(CryptoAlgorithm::Aes)
    } else if same_ignoring_case(name, "chacha20poly1305".spec_bytes()) {
        Some(CryptoAlgorithm::Chacha20Poly1305)
    } else {
        None
    }
}

fn to_lower_byte(b: u8) -> (r: u8)
    ensures
        r == lower_byte(b),
{
    if 65 <= b && b <= 90 {
        b + 32
    } else {
        b
    }
}

fn eq_ignoring_case(a: &[u8], b: &[u8]) -> (r: bool)
    ensures
        r == same_ignoring_case(a@, b@),
{
    if a.len() != b.len() {
        return false;
    }
    let mut i: usize = 0;
    while i < a.len()
        invariant
            a@.len() == b@.len(),
            i <= a@.len(),
            forall|j: int| 0 <= j < i ==> lower_byte(#[trigger] a@[j]) == lower_byte(b@[j]),
        decreases a@.len() - i,
    {
        if to_lower_byte(a[i]) != to_lower_byte(b[i]) {
            return false;
        }
        i += 1;
    }
    true
}

impl CryptoAlgorithm {
    /// The length of the nonce or IV that leads every encrypted blob.
    pub open spec fn spec_nonce_len(self) -> usize {
        match self {
            CryptoAlgorithm::Aes => 16,
            CryptoAlgorithm::Chacha20Poly1305 => 12,
        }
    }

    /// Whether decryption verifies an authentication tag.
    pub open spec fn spec_is_authenticated(self) -> bool {
        self == CryptoAlgorithm::Chacha20Poly1305
    }

    /// The length of the nonce or IV that leads every encrypted blob.
    #[verifier::when_used_as_spec(spec_nonce_len)]
    pub fn nonce_len(self) -> (n: usize)
        ensures
            n == self.spec_nonce_len(),
    {
        match self {
            CryptoAlgorithm::Aes => 16,
            CryptoAlgorithm::Chacha20Poly1305 => 12,
        }
    }

    /// Whether decryption verifies an authentication tag.
    #[verifier::when_used_as_spec(spec_is_authenticated)]
    pub fn is_authenticated(self) -> (b: bool)
        ensures
            b == self.spec_is_authenticated(),
    {
        match self {
            CryptoAlgorithm::Aes => false,
            CryptoAlgorithm::Chacha20Poly1305 => true,
        }
    }

    /// Reads an algorithm identifier, `aes` or `chacha20poly1305`, in any
    /// mix of upper and lower case.
    pub fn from_name(name: &str) -> (r: Result<CryptoAlgorithm, CryptoError>)
        ensures
            r == match algorithm_named(name.spec_bytes()) {
                Some(algorithm) => Ok::<CryptoAlgorithm, CryptoError>(algorithm),
                None => Err(CryptoError::UnsupportedAlgorithm),
            },
    {
        let bytes = name.as_bytes();
        if eq_ignoring_case(bytes, "aes".as_bytes()) {
            Ok(CryptoAlgorithm::Aes)
        } else if eq_ignoring_case(bytes, "chacha20poly1305".as_bytes()) {
            Ok(CryptoAlgorithm::Chacha20Poly1305)
        } else {
            Err(CryptoError::UnsupportedAlgorithm)
        }
    }
}

impl std::str::FromStr for CryptoAlgorithm {
    type Err = CryptoError;

    /// Reads an algorithm identifier as [`CryptoAlgorithm::from_name`] does.
    fn from_str(input: &str) -> (r: Result<Self, Self::Err>)
        ensures
            r == match algorithm_named(input.spec_bytes()) {
                Some(algorithm) => Ok::<CryptoAlgorithm, CryptoError>(algorithm),
                None => Err(CryptoError::UnsupportedAlgorithm),
            },
    {
        CryptoAlgorithm::from_name(input)
    }
}

/// The length of the ciphertext that a plaintext of `len` bytes gives: for
/// AES the next multiple of 16 above `len`, for ChaCha20-Poly1305 `len`
/// and the tag.
pub open spec fn ciphertext_len(algorithm: CryptoAlgorithm, len: nat) -> nat {
    match algorithm {
        CryptoAlgorithm::Aes => (len + 16 - len % 16) as nat,
        CryptoAlgorithm::Chacha20Poly1305 => len + 16,
    }
}

/// Whether the cipher takes a plaintext of `len` bytes. AES takes any;
/// ChaCha20-Poly1305 refuses one of `chacha20poly1305_max_blocks()` blocks
/// of 64 bytes or more.
pub open spec fn accepts_len(algorithm: CryptoAlgorithm, len: nat) -> bool {
    match algorithm {
        CryptoAlgorithm::Aes => true,
        CryptoAlgorithm::Chacha20Poly1305 => len / 64 < chacha20poly1305_max_blocks(),
    }
}

/// The ciphertext of `plaintext` under a key and a nonce or IV of the
/// right lengths.
pub open spec fn sealed(
    algorithm: CryptoAlgorithm,
    key: Seq<u8>,
    nonce: Seq<u8>,
    plaintext: Seq<u8>,
) -> Seq<u8> {
    match algorithm {
        CryptoAlgorithm::Aes => aes256_cbc_pkcs7_seal(key, nonce, plaintext),
        CryptoAlgorithm::Chacha20Poly1305 => chacha20poly1305_seal(key, nonce, plaintext),
    }
}

/// What decrypting `ciphertext` under a key and a nonce or IV of the right
/// lengths gives.
pub open spec fn opened(
    algorithm: CryptoAlgorithm,
    key: Seq<u8>,
    nonce: Seq<u8>,
    ciphertext: Seq<u8>,
) -> Result<Seq<u8>, CryptoError> {
    match algorithm {
        CryptoAlgorithm::Aes => if ciphertext.len() % 16 != 0 {
            Err(CryptoError::MisalignedCiphertext)
        } else {
            match aes256_cbc_pkcs7_open(key, nonce, ciphertext) {
                Some(plaintext) => Ok(plaintext),
                None => Err(CryptoError::PaddingError),
            }
        },
        CryptoAlgorithm::Chacha20Poly1305 => match chacha20poly1305_open(key, nonce, ciphertext) {
            Some(plaintext) => Ok(plaintext),
            None => Err(CryptoError::AuthenticationFailed),
        },
    }
}

/// What [`encrypt_with_nonce`] returns: the blob `nonce || ciphertext`, or
/// the reason why there is none.
pub open spec fn encrypted_with(
    algorithm: CryptoAlgorithm,
    key: Seq<u8>,
    nonce: Seq<u8>,
    plaintext: Seq<u8>,
) -> Result<Seq<u8>, CryptoError> {
    if key.len() != KEY_LEN {
        Err(CryptoError::InvalidKeyLength)
    } else if nonce.len() != algorithm.nonce_len() {
        Err(CryptoError::InvalidNonceLength)
    } else if !accepts_len(algorithm, plaintext.len()) {
        Err(CryptoError::EncryptionFailed)
    } else {
        Ok(nonce + sealed(algorithm, key, nonce, plaintext))
    }
}

/// What [`decrypt`] returns: the plaintext of a blob `nonce || ciphertext`,
/// or the reason why there is none.
pub open spec fn decrypted(algorithm: CryptoAlgorithm, key: Seq<u8>, blob: Seq<u8>) -> Result<
    Seq<u8>,
    CryptoError,
> {
    if key.len() != KEY_LEN {
        Err(CryptoError::InvalidKeyLength)
    } else if blob.len() < algorithm.nonce_len() {
        Err(CryptoError::TruncatedInput)
    } else {
        opened(
            algorithm,
            key,
            blob.subrange(0, algorithm.nonce_len() as int),
            blob.subrange(algorithm.nonce_len() as int, blob.len() as int),
        )
    }
}

/// A result with its bytes taken as a sequence.
pub open spec fn bytes_of(result: Result<Vec<u8>, CryptoError>) -> Result<Seq<u8>, CryptoError> {
    match result {
        Ok(bytes) => Ok(bytes@),
        Err(e) => Err(e),
    }
}

/// Whether `blob` is an encryption of `plaintext`: a nonce or IV, then the
/// ciphertext of `plaintext` under that nonce.
pub open spec fn is_encryption_of(
    blob: Seq<u8>,
    algorithm: CryptoAlgorithm,
    key: Seq<u8>,
    plaintext: Seq<u8>,
) -> bool {
    &&& blob.len() == algorithm.nonce_len() + ciphertext_len(algorithm, plaintext.len())
    &&& encrypted_with(
        algorithm,
        key,
        blob.subrange(0, algorithm.nonce_len() as int),
        plaintext,
    ) == Ok::<Seq<u8>, CryptoError>(blob)
}

/// Encrypts `data` under `key` and the given nonce or IV, and returns
/// `nonce || ciphertext`.
///
/// Reusing a nonce under one key defeats the cipher: callers other than
/// tests want [`encrypt`], which draws a fresh one.
pub fn encrypt_with_nonce(algorithm: CryptoAlgorithm, key: &[u8], nonce: &[u8], data: &[u8]) -> (blob:
    Result<Vec<u8>, CryptoError>)
    requires
        data@.len() + 16 <= usize::MAX,
    ensures
        bytes_of(blob) == encrypted_with(algorithm, key@, nonce@, data@),
        blob matches Ok(b) ==> is_encryption_of(b@, algorithm, key@, data@),
        blob matches Ok(b) ==> decrypted(algorithm, key@, b@) == Ok::<Seq<u8>, CryptoError>(data@),
{
    if key.len() != KEY_LEN {
        return Err(CryptoError::InvalidKeyLength);
    }
    if nonce.len() != algorithm.nonce_len() {
        return Err(CryptoError::InvalidNonceLength);
    }
    let ciphertext = match algorithm {
        CryptoAlgorithm::Aes => aes_cbc_encrypt(key, nonce, data),
        CryptoAlgorithm::Chacha20Poly1305 => match chacha_encrypt(key, nonce, data) {
            Ok(ciphertext) => ciphertext,
            Err(_) => {
                return Err(CryptoError::EncryptionFailed);
            },
        },
    };
    let mut blob: Vec<u8> = Vec::new();
    blob.extend_from_slice(nonce);
    blob.extend_from_slice(ciphertext.as_slice());
    proof {
        let n = algorithm.nonce_len() as int;
        assert(blob@ =~= nonce@ + ciphertext@);
        assert(blob@.subrange(0, n) =~= nonce@);
        assert(blob@.subrange(n, blob@.len() as int) =~= ciphertext@);
    }
    Ok(blob)
}

/// Encrypts `data` under `key` with a fresh random nonce or IV, and
/// returns `nonce || ciphertext`.
///
/// A key that is not 32 bytes long is refused before any randomness is
/// drawn. Two calls on the same input give different blobs.
pub fn encrypt(algorithm: CryptoAlgorithm, key: &[u8], data: &[u8]) -> (blob: Result<
    Vec<u8>,
    CryptoError,
>)
    requires
        data@.len() + 16 <= usize::MAX,
    ensures
        key@.len() != KEY_LEN ==> blob == Err::<Vec<u8>, CryptoError>(CryptoError::InvalidKeyLength),
        key@.len() == KEY_LEN && !accepts_len(algorithm, data@.len()) ==> blob == Err::<
            Vec<u8>,
            CryptoError,
        >(CryptoError::EncryptionFailed),
        key@.len() == KEY_LEN && accepts_len(algorithm, data@.len()) ==> blob is Ok,
        blob matches Ok(b) ==> is_encryption_of(b@, algorithm, key@, data@),
        blob matches Ok(b) ==> decrypted(algorithm, key@, b@) == Ok::<Seq<u8>, CryptoError>(data@),
{
    if key.len() != KEY_LEN {
        return Err(CryptoError::InvalidKeyLength);
    }
    let nonce = random_bytes(algorithm.nonce_len());
    encrypt_with_nonce(algorithm, key, nonce.as_slice(), data)
}

/// Decrypts a blob `nonce || ciphertext` under `key`.
///
/// Every failure is reported: a key of the wrong length, a blob shorter
/// than its nonce or IV, an AES ciphertext that is not whole blocks or
/// whose padding is malformed, a ChaCha20-Poly1305 tag that does not verify.
/// An AES plaintext is shorter than its ciphertext by the padding, at
/// least one byte; a ChaCha20-Poly1305 plaintext by the tag, 16 bytes.
pub fn decrypt(algorithm: CryptoAlgorithm, key: &[u8], data: &[u8]) -> (plaintext: Result<
    Vec<u8>,
    CryptoError,
>)
    ensures
        bytes_of(plaintext) == decrypted(algorithm, key@, data@),
        plaintext matches Ok(p) ==> match algorithm {
            CryptoAlgorithm::Aes => p@.len() + 16 < data@.len() && (data@.len() - 16) % 16 == 0,
            CryptoAlgorithm::Chacha20Poly1305 => p@.len() + 12 + 16 == data@.len(),
        },
{
    if key.len() != KEY_LEN {
        return Err(CryptoError::InvalidKeyLength);
    }
    let n = algorithm.nonce_len();
    if data.len() < n {
        return Err(CryptoError::TruncatedInput);
    }
    let nonce = slice_subrange(data, 0, n);
    let ciphertext = slice_subrange(data, n, data.len());
    match algorithm {
        CryptoAlgorithm::Aes => {
            if ciphertext.len() % AES_BLOCK_LEN != 0 {
                return Err(CryptoError::MisalignedCiphertext);
            }
            match aes_cbc_decrypt(key, nonce, ciphertext) {
                Ok(plaintext) => Ok(plaintext),
                Err(_) => Err(CryptoError::PaddingError),
            }
        },
        CryptoAlgorithm::Chacha20Poly1305 => match chacha_decrypt(key, nonce, ciphertext) {
            Ok(plaintext) => Ok(plaintext),
            Err(_) => Err(CryptoError::AuthenticationFailed),
        },
    }
}

} // verus!
