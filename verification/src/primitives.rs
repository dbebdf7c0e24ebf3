//! The calls into the cipher and random-number crates.
//!
//! Nothing in this file is proved. Each function states, as its contract,
//! what this library relies on from the crate it calls; the rest of the
//! library is verified against these contracts.

use aes::Aes256;
use block_modes::{BlockMode, BlockModeError, Cbc};
use block_padding::{NoPadding, Pkcs7};
use chacha20poly1305::aead::{Aead, NewAead};
use chacha20poly1305::{ChaCha20Poly1305, Key, Nonce};
use rand::RngCore;
use vstd::prelude::*;

verus! {

/// The error of `block_modes`, which carries no information.
#[verifier::external_type_specification]
#[verifier::external_body]
pub struct ExBlockModeError(block_modes::BlockModeError);

/// The error of `aead`, which is opaque on purpose.
#[verifier::external_type_specification]
#[verifier::external_body]
pub struct ExAeadError(chacha20poly1305::aead::Error);

/// The ciphertext that AES-256 in CBC mode gives for a PKCS7-padded plaintext.
pub uninterp spec fn aes256_cbc_pkcs7_seal(key: Seq<u8>, iv: Seq<u8>, plaintext: Seq<u8>) -> Seq<u8>;

/// The plaintext that AES-256 in CBC mode recovers from a ciphertext, unless
/// the ciphertext is not whole blocks or its padding is malformed.
pub uninterp spec fn aes256_cbc_pkcs7_open(key: Seq<u8>, iv: Seq<u8>, ciphertext: Seq<u8>) -> Option<Seq<u8>>;

/// The ciphertext that AES-256 in CBC mode gives for whole blocks, unpadded.
pub uninterp spec fn aes256_cbc_blocks(key: Seq<u8>, iv: Seq<u8>, blocks: Seq<u8>) -> Seq<u8>;

/// The ciphertext and tag that ChaCha20-Poly1305 gives for a plaintext,
/// with no associated data.
pub uninterp spec fn chacha20poly1305_seal(key: Seq<u8>, nonce: Seq<u8>, plaintext: Seq<u8>) -> Seq<u8>;

/// The plaintext that ChaCha20-Poly1305 recovers from a ciphertext and tag,
/// unless the tag does not verify.
pub uninterp spec fn chacha20poly1305_open(key: Seq<u8>, nonce: Seq<u8>, ciphertext: Seq<u8>) -> Option<Seq<u8>>;

/// The block that CBC chains the next block to, after `ciphertext` was
/// written under `iv`: the last block of `ciphertext`, or `iv` if there
/// is none.
pub open spec fn cbc_chain(iv: Seq<u8>, ciphertext: Seq<u8>) -> Seq<u8> {
    if ciphertext.len() < 16 {
        iv
    } else {
        ciphertext.skip(ciphertext.len() - 16)
    }
}

/// Whether `ciphertext` is the beginning of every ciphertext, under `iv`,
/// of a plaintext that begins with `head`, the rest being the ciphertext
/// of the plaintext's tail under `chain`.
#[verifier::opaque]
pub open spec fn cbc_seal_continues(
    key: Seq<u8>,
    iv: Seq<u8>,
    head: Seq<u8>,
    ciphertext: Seq<u8>,
    chain: Seq<u8>,
) -> bool {
    forall|tail: Seq<u8>|
        aes256_cbc_pkcs7_seal(key, iv, head + tail) == ciphertext + #[trigger] aes256_cbc_pkcs7_seal(
            key,
            chain,
            tail,
        )
}

/// Whether a ciphertext that opens under `chain` opens under `iv` as well
/// once `ciphertext` is put before it, to `head` and then the same
/// plaintext.
#[verifier::opaque]
pub open spec fn cbc_open_continues(
    key: Seq<u8>,
    iv: Seq<u8>,
    head: Seq<u8>,
    ciphertext: Seq<u8>,
    chain: Seq<u8>,
) -> bool {
    forall|tail: Seq<u8>|
        match #[trigger] aes256_cbc_pkcs7_open(key, chain, tail) {
            Some(plaintext) => aes256_cbc_pkcs7_open(key, iv, ciphertext + tail) == Some(
                head + plaintext,
            ),
            None => true,
        }
}

/// The longest plaintext, counted in 64-byte blocks, that ChaCha20-Poly1305
/// accepts lies below this.
pub open spec fn chacha20poly1305_max_blocks() -> nat {
    0xFFFF_FFFF
}

/// Calls `ThreadRng::fill_bytes` on a fresh buffer of `len` bytes.
///
/// Only the length of the result is promised: its contents differ from
/// call to call. The generator panics if the operating system's source of
/// randomness fails.
#[verifier::external_body]
pub(crate) fn random_bytes(len: usize) -> (bytes: Vec<u8>)
    ensures
        bytes@.len() == len,
{
    let mut bytes = vec![0u8; len];
    rand::rngs::ThreadRng::default().fill_bytes(&mut bytes);
    bytes
}

/// Calls `Cbc::<Aes256, Pkcs7>::encrypt_vec`.
///
/// The result is the padded ciphertext: PKCS7 adds 1 to 16 bytes, so its
/// length is the plaintext's rounded up to the next multiple of 16, a full
/// block being added where it already is one. Decrypting it under the same
/// key and IV gives the plaintext back, as the crate's documentation shows.
/// The call panics on a key or IV of another length, and adds 16 to the
/// plaintext's length before it allocates.
#[verifier::external_body]
pub(crate) fn aes_cbc_encrypt(key: &[u8], iv: &[u8], plaintext: &[u8]) -> (ciphertext: Vec<u8>)
    requires
        key@.len() == 32,
        iv@.len() == 16,
        plaintext@.len() + 16 <= usize::MAX,
    ensures
        ciphertext@ == aes256_cbc_pkcs7_seal(key@, iv@, plaintext@),
        ciphertext@.len() == plaintext@.len() + 16 - plaintext@.len() % 16,
        aes256_cbc_pkcs7_open(key@, iv@, ciphertext@) == Some(plaintext@),
{
    Cbc::<Aes256, Pkcs7>::new_from_slices(key, iv).unwrap().encrypt_vec(plaintext)
}

/// Calls `Cbc::<Aes256, Pkcs7>::decrypt_vec`.
///
/// It fails where the ciphertext is not whole blocks or the padding is
/// malformed; a recovered plaintext is shorter than the ciphertext, since
/// at least one byte of padding is taken off.
#[verifier::external_body]
pub(crate) fn aes_cbc_decrypt(key: &[u8], iv: &[u8], ciphertext: &[u8]) -> (plaintext: Result<
    Vec<u8>,
    BlockModeError,
>)
    requires
        key@.len() == 32,
        iv@.len() == 16,
    ensures
        match plaintext {
            Ok(p) => aes256_cbc_pkcs7_open(key@, iv@, ciphertext@) == Some(p@) && p@.len()
                < ciphertext@.len(),
            Err(_) => aes256_cbc_pkcs7_open(key@, iv@, ciphertext@) is None,
        },
{
    Cbc::<Aes256, Pkcs7>::new_from_slices(key, iv).unwrap().decrypt_vec(ciphertext)
}

/// Calls `Cbc::<Aes256, NoPadding>::encrypt_vec` on whole blocks.
///
/// The result is as long as the input. The call panics on an input that
/// is not whole blocks.
///
/// CBC encrypts block by block, each block chained to the ciphertext
/// block before it and the first to the IV. So the result is how the
/// padded ciphertext of any longer plaintext begins, and the rest of that
/// ciphertext is the padded ciphertext of the rest of the plaintext under
/// the last block of the result as IV. Decryption undoes the same chain:
/// a ciphertext that opens under the last block of the result opens under
/// the IV too once the result is put before it, to these blocks and then
/// the same plaintext.
#[verifier::external_body]
pub(crate) fn aes_cbc_encrypt_blocks(key: &[u8], iv: &[u8], blocks: &[u8]) -> (ciphertext: Vec<u8>)
    requires
        key@.len() == 32,
        iv@.len() == 16,
        blocks@.len() % 16 == 0,
        blocks@.len() + 16 <= usize::MAX,
    ensures
        ciphertext@ == aes256_cbc_blocks(key@, iv@, blocks@),
        ciphertext@.len() == blocks@.len(),
        cbc_seal_continues(key@, iv@, blocks@, ciphertext@, cbc_chain(iv@, ciphertext@)),
        cbc_open_continues(key@, iv@, blocks@, ciphertext@, cbc_chain(iv@, ciphertext@)),
{
    Cbc::<Aes256, NoPadding>::new_from_slices(key, iv).unwrap().encrypt_vec(blocks)
}

/// Calls `ChaCha20Poly1305::encrypt` with no associated data.
///
/// It fails exactly where the plaintext has `chacha20poly1305_max_blocks()`
/// blocks of 64 bytes or more. The result is the ciphertext followed by the
/// 16-byte tag, and decrypting it under the same key and nonce gives the
/// plaintext back, as the crate's documentation shows. The call panics on
/// a key or nonce of another length.
#[verifier::external_body]
pub(crate) fn chacha_encrypt(key: &[u8], nonce: &[u8], plaintext: &[u8]) -> (ciphertext: Result<
    Vec<u8>,
    chacha20poly1305::aead::Error,
>)
    requires
        key@.len() == 32,
        nonce@.len() == 12,
        plaintext@.len() + 16 <= usize::MAX,
    ensures
        ciphertext is Ok <==> plaintext@.len() / 64 < chacha20poly1305_max_blocks(),
        ciphertext matches Ok(c) ==> {
            &&& c@ == chacha20poly1305_seal(key@, nonce@, plaintext@)
            &&& c@.len() == plaintext@.len() + 16
            &&& chacha20poly1305_open(key@, nonce@, c@) == Some(plaintext@)
        },
{
    ChaCha20Poly1305::new(Key::from_slice(key)).encrypt(Nonce::from_slice(nonce), plaintext)
}

/// Calls `ChaCha20Poly1305::decrypt` with no associated data.
///
/// A recovered plaintext is the ciphertext without its 16-byte tag in length.
#[verifier::external_body]
pub(crate) fn chacha_decrypt(key: &[u8], nonce: &[u8], ciphertext: &[u8]) -> (plaintext: Result<
    Vec<u8>,
    chacha20poly1305::aead::Error,
>)
    requires
        key@.len() == 32,
        nonce@.len() == 12,
    ensures
        match plaintext {
            Ok(p) => chacha20poly1305_open(key@, nonce@, ciphertext@) == Some(p@) && p@.len() + 16
                == ciphertext@.len(),
            Err(_) => chacha20poly1305_open(key@, nonce@, ciphertext@) is None,
        },
{
    ChaCha20Poly1305::new(Key::from_slice(key)).decrypt(Nonce::from_slice(nonce), ciphertext)
}

} // verus!
