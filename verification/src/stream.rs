//! The streaming cipher: data fed in pieces, ciphertext or plaintext
//! handed out in pieces, the unfinished tail kept in between.
//!
//! An [`EncryptionStream`] writes the nonce or IV in its first call of
//! `process`, before any ciphertext. In AES mode it encrypts whole blocks as they fill, each run
//! of blocks chained to the last block written before it, and pads once,
//! in `finalize`. In ChaCha20-Poly1305 mode every call of `process` seals
//! what it was given under the stream's one nonce; feed the whole message
//! in a single call, since a second sealing under the same nonce gives
//! away the keystream.
//!
//! A [`DecryptionStream`] takes the nonce or IV from the first bytes it is
//! fed. In AES mode it only gathers in `process` and decrypts in
//! `finalize`, where the padding is known to be the last block's. In
//! ChaCha20-Poly1305 mode every call of `process` tries the tag on what
//! has gathered, and hands out the plaintext as soon as it verifies; a tag
//! that does not verify yet is taken for a message that is not whole yet.
//!
//! What a call does is stated as a function from the state before it to a
//! [`Step`]: the state after it, the bytes written, the value returned.
//! The state of an encryption stream keeps a record of all it has taken in
//! and all it has written, and in AES mode `finalize` states of them that
//! what was written is the one blob that encrypting all the plaintext at
//! once under the stream's IV gives, however the plaintext was cut into
//! calls.

use crate::crypto::{
    accepts_len, ciphertext_len, decrypted, encrypted_with, opened, CryptoAlgorithm, AES_BLOCK_LEN,
    KEY_LEN,
};
use crate::error::CryptoError;
use crate::primitives::{
    aes256_cbc_blocks, aes256_cbc_pkcs7_open, aes256_cbc_pkcs7_seal, aes_cbc_decrypt,
    aes_cbc_encrypt, aes_cbc_encrypt_blocks, cbc_open_continues, cbc_seal_continues,
    chacha20poly1305_open, chacha20poly1305_seal, chacha_decrypt, chacha_encrypt, random_bytes,
};
use vstd::prelude::*;
use vstd::slice::{slice_subrange, slice_to_vec};

verus! {

/// Where a stream stands in its life.
#[derive(Clone, Copy, Debug, PartialEq, Eq, Structural)]
pub enum StreamPhase {
    /// Nothing was written yet, or the nonce or IV has not arrived yet.
    NotStarted,
    /// The nonce or IV is out, or in, and data is flowing.
    Streaming,
    /// `finalize` has succeeded; further calls change nothing.
    Finalized,
}

/// The state of an [`EncryptionStream`], as a plain value.
pub struct EncryptorState {
    /// The cipher in use.
    pub algorithm: CryptoAlgorithm,
    /// The 32-byte key.
    pub key: Seq<u8>,
    /// The nonce or IV, drawn when the stream was made.
    pub nonce: Seq<u8>,
    /// In AES mode, the block that the next block is chained to: the IV
    /// at first, then the last block of ciphertext written.
    pub chain: Seq<u8>,
    /// The bytes taken in but not yet encrypted.
    pub pending: Seq<u8>,
    /// The size of the steps in which the buffer is worked off.
    pub block_size: usize,
    /// Whether the nonce or IV was written.
    pub header_written: bool,
    /// Whether `finalize` has succeeded.
    pub finalized: bool,
    /// All the plaintext taken in since the stream was made.
    pub taken: Seq<u8>,
    /// All the bytes written since the stream was made.
    pub written: Seq<u8>,
}

/// What one call of a stream does: the state it leaves, the bytes it
/// appends to the output, and what it returns.
pub struct Step<S> {
    /// The state after the call.
    pub state: S,
    /// The bytes appended to the output.
    pub emitted: Seq<u8>,
    /// The value returned.
    pub result: Result<(), CryptoError>,
}

impl EncryptorState {
    /// Whether the state is one that a stream can be in.
    pub open spec fn is_valid(self) -> bool {
        &&& self.key.len() == KEY_LEN
        &&& self.nonce.len() == self.algorithm.nonce_len()
        &&& self.pending.len() + 16 <= usize::MAX
        &&& match self.algorithm {
            CryptoAlgorithm::Aes => self.chain.len() == AES_BLOCK_LEN && self.pending.len()
                < AES_BLOCK_LEN && self.block_size == 16 && (!self.finalized ==> self.joins()),
            CryptoAlgorithm::Chacha20Poly1305 => self.block_size == 64,
        }
    }

    /// The length of the nonce or IV if it was written, else 0.
    pub open spec fn header_len(self) -> int {
        if self.header_written {
            self.nonce.len() as int
        } else {
            0
        }
    }

    /// How many of the bytes taken in are encrypted and written.
    pub open spec fn done(self) -> int {
        self.taken.len() - self.pending.len()
    }

    /// In AES mode: whether what was written is the nonce, if it was
    /// written, and then the beginning of the ciphertext of all that was
    /// taken in and may yet be, so that encrypting and padding the rest
    /// under the chain block ends one CBC ciphertext under the stream's IV.
    pub open spec fn joins(self) -> bool {
        let head = self.taken.take(self.done());
        let ciphertext = self.written.skip(self.header_len());
        &&& 0 <= self.done()
        &&& self.done() % 16 == 0
        &&& !self.header_written ==> self.done() == 0
        &&& self.taken.skip(self.done()) == self.pending
        &&& self.written.len() == self.header_len() + self.done()
        &&& self.written.take(self.header_len()) == self.header_part()
        &&& cbc_seal_continues(self.key, self.nonce, head, ciphertext, self.chain)
        &&& cbc_open_continues(self.key, self.nonce, head, ciphertext, self.chain)
    }

    /// The nonce or IV if it was written, else nothing.
    pub open spec fn header_part(self) -> Seq<u8> {
        if self.header_written {
            self.nonce
        } else {
            Seq::empty()
        }
    }

    /// Where the stream stands in its life.
    pub open spec fn phase(self) -> StreamPhase {
        if self.finalized {
            StreamPhase::Finalized
        } else if self.header_written {
            StreamPhase::Streaming
        } else {
            StreamPhase::NotStarted
        }
    }

    /// The state of a stream that was just made.
    pub open spec fn initial(algorithm: CryptoAlgorithm, key: Seq<u8>, nonce: Seq<u8>) -> Self {
        EncryptorState {
            algorithm,
            key,
            nonce,
            chain: nonce,
            pending: Seq::empty(),
            block_size: match algorithm {
                CryptoAlgorithm::Aes => 16,
                CryptoAlgorithm::Chacha20Poly1305 => 64,
            },
            header_written: false,
            finalized: false,
            taken: Seq::empty(),
            written: Seq::empty(),
        }
    }

    /// The nonce or IV, if it is still to be written.
    pub open spec fn header(self) -> Seq<u8> {
        if self.header_written {
            Seq::empty()
        } else {
            self.nonce
        }
    }

    /// What `process` does with `data`, but for the record of what was
    /// taken in and written.
    ///
    /// A finalized stream does nothing. Otherwise the nonce or IV is
    /// written if it was not yet, and `data` joins the pending bytes. In
    /// AES mode the whole blocks among them are encrypted, chained to the
    /// last block written, and the rest stays pending. In
    /// ChaCha20-Poly1305 mode all of them, if there are any, are sealed
    /// under the stream's nonce and none stays pending, unless the cipher
    /// refuses their length: then they all stay.
    pub open spec fn process_step(self, data: Seq<u8>) -> Step<EncryptorState> {
        let all = self.pending + data;
        if self.finalized {
            Step { state: self, emitted: Seq::empty(), result: Ok(()) }
        } else {
            match self.algorithm {
                CryptoAlgorithm::Aes => {
                    let whole = all.len() - all.len() % 16;
                    if whole > 0 {
                        let ciphertext = aes256_cbc_blocks(self.key, self.chain, all.take(whole));
                        Step {
                            state: EncryptorState {
                                chain: ciphertext.skip(whole - 16),
                                pending: all.skip(whole),
                                header_written: true,
                                ..self
                            },
                            emitted: self.header() + ciphertext,
                            result: Ok(()),
                        }
                    } else {
                        Step {
                            state: EncryptorState { pending: all, header_written: true, ..self },
                            emitted: self.header(),
                            result: Ok(()),
                        }
                    }
                },
                CryptoAlgorithm::Chacha20Poly1305 => {
                    if all.len() == 0 {
                        Step {
                            state: EncryptorState { pending: all, header_written: true, ..self },
                            emitted: self.header(),
                            result: Ok(()),
                        }
                    } else if accepts_len(self.algorithm, all.len()) {
                        Step {
                            state: EncryptorState {
                                pending: Seq::empty(),
                                header_written: true,
                                ..self
                            },
                            emitted: self.header() + chacha20poly1305_seal(
                                self.key,
                                self.nonce,
                                all,
                            ),
                            result: Ok(()),
                        }
                    } else {
                        Step {
                            state: EncryptorState { pending: all, header_written: true, ..self },
                            emitted: self.header(),
                            result: Err(CryptoError::EncryptionFailed),
                        }
                    }
                },
            }
        }
    }

    /// What `process` does with `data`: [`EncryptorState::process_step`],
    /// with `data` added to what was taken in, unless the stream is
    /// finalized, and the bytes appended added to what was written.
    pub open spec fn process(self, data: Seq<u8>) -> Step<EncryptorState> {
        let step = self.process_step(data);
        Step {
            state: EncryptorState {
                taken: if self.finalized {
                    self.taken
                } else {
                    self.taken + data
                },
                written: self.written + step.emitted,
                ..step.state
            },
            ..step
        }
    }

    /// How many bytes `process` appends for `len` bytes of data: the
    /// nonce or IV if it is still to be written, then, in AES mode, as
    /// many bytes as whole blocks have filled, and in ChaCha20-Poly1305
    /// mode all that is pending and the tag.
    pub open spec fn process_len(self, len: nat) -> nat {
        let all = self.pending.len() + len;
        if self.finalized {
            0
        } else {
            self.header().len() + match self.algorithm {
                CryptoAlgorithm::Aes => (all - all % 16) as nat,
                CryptoAlgorithm::Chacha20Poly1305 => if all > 0 && accepts_len(self.algorithm, all) {
                    all + 16
                } else {
                    0
                },
            }
        }
    }

    /// What `finalize` does, but for the record of what was written.
    ///
    /// A finalized stream does nothing. In AES mode the pending bytes,
    /// even if there are none, are padded and encrypted, chained to the
    /// last block written. In ChaCha20-Poly1305 mode the pending bytes, if
    /// there are any, are sealed under the stream's nonce. Nothing stays
    /// pending, unless the cipher refuses: then the state is as before.
    /// The nonce or IV is not written here: `process` writes it.
    pub open spec fn finalize_step(self) -> Step<EncryptorState> {
        if self.finalized {
            Step { state: self, emitted: Seq::empty(), result: Ok(()) }
        } else {
            match self.algorithm {
                CryptoAlgorithm::Aes => Step {
                    state: EncryptorState { pending: Seq::empty(), finalized: true, ..self },
                    emitted: aes256_cbc_pkcs7_seal(self.key, self.chain, self.pending),
                    result: Ok(()),
                },
                CryptoAlgorithm::Chacha20Poly1305 => {
                    if self.pending.len() == 0 {
                        Step {
                            state: EncryptorState { finalized: true, ..self },
                            emitted: Seq::empty(),
                            result: Ok(()),
                        }
                    } else if accepts_len(self.algorithm, self.pending.len()) {
                        Step {
                            state: EncryptorState {
                                pending: Seq::empty(),
                                finalized: true,
                                ..self
                            },
                            emitted: chacha20poly1305_seal(self.key, self.nonce, self.pending),
                            result: Ok(()),
                        }
                    } else {
                        Step {
                            state: self,
                            emitted: Seq::empty(),
                            result: Err(CryptoError::EncryptionFailed),
                        }
                    }
                },
            }
        }
    }

    /// What `finalize` does: [`EncryptorState::finalize_step`], with the
    /// bytes appended added to what was written.
    pub open spec fn finalize(self) -> Step<EncryptorState> {
        let step = self.finalize_step();
        Step {
            state: EncryptorState { written: self.written + step.emitted, ..step.state },
            ..step
        }
    }

    /// How many bytes `finalize` appends: in AES mode the pending bytes
    /// and their padding, which fills the last block or adds one; in
    /// ChaCha20-Poly1305 mode the pending bytes, if there are any, and
    /// the tag.
    pub open spec fn finalize_len(self) -> nat {
        if self.finalized {
            0
        } else {
            match self.algorithm {
                CryptoAlgorithm::Aes => ciphertext_len(self.algorithm, self.pending.len()),
                CryptoAlgorithm::Chacha20Poly1305 => if self.pending.len() > 0 && accepts_len(
                    self.algorithm,
                    self.pending.len(),
                ) {
                    self.pending.len() + 16
                } else {
                    0
                },
            }
        }
    }
}

/// Before any block is written, the ciphertext is all to come, chained
/// to the IV.
pub proof fn lemma_cbc_starts(key: Seq<u8>, iv: Seq<u8>)
    ensures
        cbc_seal_continues(key, iv, Seq::empty(), Seq::empty(), iv),
        cbc_open_continues(key, iv, Seq::empty(), Seq::empty(), iv),
{
    reveal(cbc_seal_continues);
    reveal(cbc_open_continues);
    assert forall|tail: Seq<u8>|
        aes256_cbc_pkcs7_seal(key, iv, Seq::<u8>::empty() + tail) == Seq::<u8>::empty()
            + #[trigger] aes256_cbc_pkcs7_seal(key, iv, tail) by {
        assert(Seq::<u8>::empty() + tail =~= tail);
        assert(Seq::<u8>::empty() + aes256_cbc_pkcs7_seal(key, iv, tail) =~= aes256_cbc_pkcs7_seal(
            key,
            iv,
            tail,
        ));
    }
    assert forall|tail: Seq<u8>|
        match #[trigger] aes256_cbc_pkcs7_open(key, iv, tail) {
            Some(plaintext) => aes256_cbc_pkcs7_open(key, iv, Seq::<u8>::empty() + tail) == Some(
                Seq::<u8>::empty() + plaintext,
            ),
            None => true,
        } by {
        assert(Seq::<u8>::empty() + tail =~= tail);
        if let Some(plaintext) = aes256_cbc_pkcs7_open(key, iv, tail) {
            assert(Seq::<u8>::empty() + plaintext =~= plaintext);
        }
    }
}

/// The padded ciphertext of the tail, chained to the blocks written,
/// ends the padded ciphertext of the whole, and the whole opens to the
/// whole plaintext if the tail's ciphertext opens to the tail.
pub proof fn lemma_cbc_ends(
    key: Seq<u8>,
    iv: Seq<u8>,
    head: Seq<u8>,
    ciphertext: Seq<u8>,
    chain: Seq<u8>,
    tail: Seq<u8>,
)
    requires
        cbc_seal_continues(key, iv, head, ciphertext, chain),
        cbc_open_continues(key, iv, head, ciphertext, chain),
    ensures
        aes256_cbc_pkcs7_seal(key, iv, head + tail) == ciphertext + aes256_cbc_pkcs7_seal(
            key,
            chain,
            tail,
        ),
        aes256_cbc_pkcs7_open(key, chain, aes256_cbc_pkcs7_seal(key, chain, tail)) == Some(tail)
            ==> aes256_cbc_pkcs7_open(
            key,
            iv,
            ciphertext + aes256_cbc_pkcs7_seal(key, chain, tail),
        ) == Some(head + tail),
{
    reveal(cbc_seal_continues);
    reveal(cbc_open_continues);
}

/// Two runs of blocks, the second chained to the first, make one run.
pub proof fn lemma_cbc_continues(
    key: Seq<u8>,
    iv: Seq<u8>,
    head: Seq<u8>,
    ciphertext: Seq<u8>,
    chain: Seq<u8>,
    more: Seq<u8>,
    more_ciphertext: Seq<u8>,
    next_chain: Seq<u8>,
)
    requires
        cbc_seal_continues(key, iv, head, ciphertext, chain),
        cbc_open_continues(key, iv, head, ciphertext, chain),
        cbc_seal_continues(key, chain, more, more_ciphertext, next_chain),
        cbc_open_continues(key, chain, more, more_ciphertext, next_chain),
    ensures
        cbc_seal_continues(key, iv, head + more, ciphertext + more_ciphertext, next_chain),
        cbc_open_continues(key, iv, head + more, ciphertext + more_ciphertext, next_chain),
{
    reveal(cbc_seal_continues);
    reveal(cbc_open_continues);
    assert forall|tail: Seq<u8>|
        aes256_cbc_pkcs7_seal(key, iv, head + more + tail) == ciphertext + more_ciphertext
            + #[trigger] aes256_cbc_pkcs7_seal(key, next_chain, tail) by {
        let rest = aes256_cbc_pkcs7_seal(key, next_chain, tail);
        assert(aes256_cbc_pkcs7_seal(key, chain, more + tail) == more_ciphertext + rest);
        assert(head + more + tail =~= head + (more + tail));
        assert(ciphertext + more_ciphertext + rest =~= ciphertext + (more_ciphertext + rest));
    }
    assert forall|tail: Seq<u8>|
        match #[trigger] aes256_cbc_pkcs7_open(key, next_chain, tail) {
            Some(plaintext) => aes256_cbc_pkcs7_open(
                key,
                iv,
                ciphertext + more_ciphertext + tail,
            ) == Some(head + more + plaintext),
            None => true,
        } by {
        if let Some(plaintext) = aes256_cbc_pkcs7_open(key, next_chain, tail) {
            assert(aes256_cbc_pkcs7_open(key, chain, more_ciphertext + tail) == Some(
                more + plaintext,
            ));
            assert(ciphertext + more_ciphertext + tail =~= ciphertext + (more_ciphertext + tail));
            assert(head + more + plaintext =~= head + (more + plaintext));
        }
    }
}

/// A cipher that is fed plaintext in pieces and writes `nonce ||
/// ciphertext` in pieces.
pub struct EncryptionStream {
    algorithm: CryptoAlgorithm,
    key: Vec<u8>,
    iv_or_nonce: Vec<u8>,
    chain: Vec<u8>,
    buffer: Vec<u8>,
    block_size: usize,
    header_written: bool,
    finalized: bool,
    taken: Ghost<Seq<u8>>,
    written: Ghost<Seq<u8>>,
}

impl View for EncryptionStream {
    type V = EncryptorState;

    closed spec fn view(&self) -> EncryptorState {
        EncryptorState {
            algorithm: self.algorithm,
            key: self.key@,
            nonce: self.iv_or_nonce@,
            chain: self.chain@,
            pending: self.buffer@,
            block_size: self.block_size,
            header_written: self.header_written,
            finalized: self.finalized,
            taken: self.taken@,
            written: self.written@,
        }
    }
}

impl EncryptionStream {
    /// Makes a stream with a fresh random nonce or IV.
    ///
    /// A key that is not 32 bytes long is refused before any randomness
    /// is drawn.
    pub fn new(algorithm: CryptoAlgorithm, key: &[u8]) -> (r: Result<Self, CryptoError>)
        ensures
            key@.len() != KEY_LEN ==> (r matches Err(e) && e == CryptoError::InvalidKeyLength),
            key@.len() == KEY_LEN ==> (r matches Ok(s) && s@.is_valid() && s@
                == EncryptorState::initial(algorithm, key@, s@.nonce)),
    {
        if key.len() != KEY_LEN {
            return Err(CryptoError::InvalidKeyLength);
        }
        let nonce = random_bytes(algorithm.nonce_len());
        EncryptionStream::with_nonce(algorithm, key, nonce.as_slice())
    }

    /// Makes a stream with the given nonce or IV.
    ///
    /// Reusing a nonce under one key defeats the cipher: callers other
    /// than tests want [`EncryptionStream::new`].
    pub fn with_nonce(algorithm: CryptoAlgorithm, key: &[u8], nonce: &[u8]) -> (r: Result<
        Self,
        CryptoError,
    >)
        ensures
            key@.len() != KEY_LEN ==> (r matches Err(e) && e == CryptoError::InvalidKeyLength),
            key@.len() == KEY_LEN && nonce@.len() != algorithm.nonce_len() ==> (r matches Err(e)
                && e == CryptoError::InvalidNonceLength),
            key@.len() == KEY_LEN && nonce@.len() == algorithm.nonce_len() ==> (r matches Ok(s)
                && s@.is_valid() && s@ == EncryptorState::initial(algorithm, key@, nonce@)),
    {
        if key.len() != KEY_LEN {
            return Err(CryptoError::InvalidKeyLength);
        }
        if nonce.len() != algorithm.nonce_len() {
            return Err(CryptoError::InvalidNonceLength);
        }
        let block_size: usize = match algorithm {
            CryptoAlgorithm::Aes => 16,
            CryptoAlgorithm::Chacha20Poly1305 => 64,
        };
        let stream = EncryptionStream {
            algorithm,
            key: slice_to_vec(key),
            iv_or_nonce: slice_to_vec(nonce),
            chain: slice_to_vec(nonce),
            buffer: Vec::new(),
            block_size,
            header_written: false,
            finalized: false,
            taken: Ghost(Seq::empty()),
            written: Ghost(Seq::empty()),
        };
        proof {
            let s = stream@;
            lemma_cbc_starts(s.key, s.nonce);
            assert(s.taken.take(0) =~= Seq::<u8>::empty());
            assert(s.written.skip(0) =~= Seq::<u8>::empty());
        }
        Ok(stream)
    }

    /// Where the stream stands in its life.
    pub fn phase(&self) -> (phase: StreamPhase)
        ensures
            phase == self@.phase(),
    {
        if self.finalized {
            StreamPhase::Finalized
        } else if self.header_written {
            StreamPhase::Streaming
        } else {
            StreamPhase::NotStarted
        }
    }

    /// Takes `data` in and appends to `output` what can be encrypted by
    /// now: the nonce or IV on the first call, then, in AES mode, the
    /// whole blocks that have filled, and in ChaCha20-Poly1305 mode all
    /// that is pending, sealed. [`EncryptorState::process`] says it in full.
    pub fn process(&mut self, data: &[u8], output: &mut Vec<u8>) -> (r: Result<(), CryptoError>)
        requires
            old(self)@.is_valid(),
            old(self)@.pending.len() + data@.len() + 16 <= usize::MAX,
        ensures
            final(self)@.is_valid(),
            final(self)@ == old(self)@.process(data@).state,
            final(output)@ == old(output)@ + old(self)@.process(data@).emitted,
            final(output)@.len() == old(output)@.len() + old(self)@.process_len(data@.len()),
            r == old(self)@.process(data@).result,
    {
        if self.finalized {
            proof {
                assert(self.written@ + Seq::<u8>::empty() =~= self.written@);
            }
            return Ok(());
        }
        let ghost before = self@;
        if !self.header_written {
            output.extend_from_slice(self.iv_or_nonce.as_slice());
            self.header_written = true;
        }
        self.buffer.extend_from_slice(data);
        let ghost all = before.pending + data@;
        assert(self.buffer@ =~= all);
        self.taken = Ghost(before.taken + data@);
        match self.algorithm {
            CryptoAlgorithm::Aes => {
                let whole = self.buffer.len() - self.buffer.len() % self.block_size;
                if whole > 0 {
                    let ciphertext = aes_cbc_encrypt_blocks(
                        self.key.as_slice(),
                        self.chain.as_slice(),
                        slice_subrange(self.buffer.as_slice(), 0, whole),
                    );
                    output.extend_from_slice(ciphertext.as_slice());
                    self.chain = slice_to_vec(
                        slice_subrange(ciphertext.as_slice(), whole - AES_BLOCK_LEN, whole),
                    );
                    let rest = self.buffer.split_off(whole);
                    self.buffer = rest;
                    self.written = Ghost(before.written + (before.header() + ciphertext@));
                    proof {
                        let after = self@;
                        let head = before.taken.take(before.done());
                        let old_ct = before.written.skip(before.header_len());
                        lemma_cbc_continues(
                            before.key,
                            before.nonce,
                            head,
                            old_ct,
                            before.chain,
                            all.take(whole as int),
                            ciphertext@,
                            after.chain,
                        );
                        assert(after.taken.take(after.done()) =~= head + all.take(whole as int));
                        assert(after.written.skip(after.header_len()) =~= old_ct + ciphertext@);
                        assert(after.taken.skip(after.done()) =~= after.pending);
                        assert(after.written.take(after.header_len()) =~= after.header_part());
                    }
                } else {
                    self.written = Ghost(before.written + before.header());
                    proof {
                        let after = self@;
                        assert(after.taken.take(after.done()) =~= before.taken.take(
                            before.done(),
                        ));
                        assert(after.written.skip(after.header_len()) =~= before.written.skip(
                            before.header_len(),
                        ));
                        assert(after.taken.skip(after.done()) =~= after.pending);
                        assert(after.written.take(after.header_len()) =~= after.header_part());
                    }
                }
            },
            CryptoAlgorithm::Chacha20Poly1305 => {
                if !self.buffer.is_empty() {
                    match chacha_encrypt(
                        self.key.as_slice(),
                        self.iv_or_nonce.as_slice(),
                        self.buffer.as_slice(),
                    ) {
                        Ok(ciphertext) => {
                            output.extend_from_slice(ciphertext.as_slice());
                            self.buffer.clear();
                            self.written = Ghost(before.written + (before.header() + ciphertext@));
                        },
                        Err(_) => {
                            self.written = Ghost(before.written + before.header());
                            return Err(CryptoError::EncryptionFailed);
                        },
                    }
                } else {
                    self.written = Ghost(before.written + before.header());
                }
            },
        }
        Ok(())
    }

    /// Encrypts what is still pending, appends it to `output`, and ends
    /// the stream: in AES mode this is where the padding is added. Call
    /// `process` before it, if only with no data, to have the nonce or IV
    /// written. [`EncryptorState::finalize`] says it in full.
    ///
    /// In AES mode, once the IV is written, all that the stream has
    /// written is the one blob that [`crate::crypto::encrypt_with_nonce`]
    /// gives for all the plaintext taken in, however that was cut into
    /// calls, and it decrypts to that plaintext.
    pub fn finalize(&mut self, output: &mut Vec<u8>) -> (r: Result<(), CryptoError>)
        requires
            old(self)@.is_valid(),
        ensures
            final(self)@.is_valid(),
            final(self)@ == old(self)@.finalize().state,
            final(output)@ == old(output)@ + old(self)@.finalize().emitted,
            final(output)@.len() == old(output)@.len() + old(self)@.finalize_len(),
            r == old(self)@.finalize().result,
            old(self)@.algorithm == CryptoAlgorithm::Aes && old(self)@.phase()
                == StreamPhase::Streaming ==> {
                &&& encrypted_with(
                    CryptoAlgorithm::Aes,
                    old(self)@.key,
                    old(self)@.nonce,
                    old(self)@.taken,
                ) == Ok::<Seq<u8>, CryptoError>(final(self)@.written)
                &&& decrypted(CryptoAlgorithm::Aes, old(self)@.key, final(self)@.written) == Ok::<
                    Seq<u8>,
                    CryptoError,
                >(old(self)@.taken)
                &&& final(self)@.written.len() == 16 + ciphertext_len(
                    CryptoAlgorithm::Aes,
                    old(self)@.taken.len(),
                )
            },
    {
        if self.finalized {
            proof {
                assert(self.written@ + Seq::<u8>::empty() =~= self.written@);
            }
            return Ok(());
        }
        let ghost before = self@;
        let ciphertext = match self.algorithm {
            CryptoAlgorithm::Aes => aes_cbc_encrypt(
                self.key.as_slice(),
                self.chain.as_slice(),
                self.buffer.as_slice(),
            ),
            CryptoAlgorithm::Chacha20Poly1305 => {
                if self.buffer.is_empty() {
                    self.finalized = true;
                    proof {
                        assert(self.written@ + Seq::<u8>::empty() =~= self.written@);
                    }
                    return Ok(());
                }
                match chacha_encrypt(
                    self.key.as_slice(),
                    self.iv_or_nonce.as_slice(),
                    self.buffer.as_slice(),
                ) {
                    Ok(ciphertext) => ciphertext,
                    Err(_) => {
                        proof {
                            assert(self.written@ + Seq::<u8>::empty() =~= self.written@);
                        }
                        return Err(CryptoError::EncryptionFailed);
                    },
                }
            },
        };
        output.extend_from_slice(ciphertext.as_slice());
        self.buffer.clear();
        self.finalized = true;
        self.written = Ghost(before.written + ciphertext@);
        proof {
            if before.algorithm == CryptoAlgorithm::Aes && before.header_written {
                let head = before.taken.take(before.done());
                let old_ct = before.written.skip(16);
                let whole = self@.written;
                lemma_cbc_ends(
                    before.key,
                    before.nonce,
                    head,
                    old_ct,
                    before.chain,
                    before.pending,
                );
                assert(head + before.pending =~= before.taken);
                assert(before.written =~= before.nonce + old_ct);
                assert(whole =~= before.nonce + (old_ct + ciphertext@));
                assert(whole.subrange(0, 16) =~= before.nonce);
                assert(whole.subrange(16, whole.len() as int) =~= old_ct + ciphertext@);
            }
        }
        Ok(())
    }
}

/// The state of a [`DecryptionStream`], as a plain value.
pub struct DecryptorState {
    /// The cipher in use.
    pub algorithm: CryptoAlgorithm,
    /// The 32-byte key.
    pub key: Seq<u8>,
    /// The nonce or IV, once enough bytes have arrived to hold it.
    pub nonce: Option<Seq<u8>>,
    /// The bytes taken in but not yet decrypted.
    pub pending: Seq<u8>,
    /// The size of the steps in which the buffer is worked off.
    pub block_size: usize,
    /// Whether `finalize` has succeeded.
    pub finalized: bool,
}

impl DecryptorState {
    /// Whether the state is one that a stream can be in.
    pub open spec fn is_valid(self) -> bool {
        &&& self.key.len() == KEY_LEN
        &&& self.nonce matches Some(nonce) ==> nonce.len() == self.algorithm.nonce_len()
        &&& self.block_size == match self.algorithm {
            CryptoAlgorithm::Aes => 16usize,
            CryptoAlgorithm::Chacha20Poly1305 => 64usize,
        }
    }

    /// Where the stream stands in its life.
    pub open spec fn phase(self) -> StreamPhase {
        if self.finalized {
            StreamPhase::Finalized
        } else if self.nonce is Some {
            StreamPhase::Streaming
        } else {
            StreamPhase::NotStarted
        }
    }

    /// The state of a stream that was just made.
    pub open spec fn initial(algorithm: CryptoAlgorithm, key: Seq<u8>) -> Self {
        DecryptorState {
            algorithm,
            key,
            nonce: None,
            pending: Seq::empty(),
            block_size: match algorithm {
                CryptoAlgorithm::Aes => 16,
                CryptoAlgorithm::Chacha20Poly1305 => 64,
            },
            finalized: false,
        }
    }

    /// What `process` does with `data`, which never fails.
    ///
    /// A finalized stream does nothing. Otherwise `data` joins the pending
    /// bytes. While the nonce or IV is missing, it is taken from their
    /// front as soon as they are enough; until then nothing else happens.
    /// In AES mode the rest stays pending. In ChaCha20-Poly1305 mode the
    /// rest, if there is any, is opened under the nonce: if the tag
    /// verifies, the plaintext is written and nothing stays pending; if
    /// not, more is awaited and the rest stays pending.
    pub open spec fn process(self, data: Seq<u8>) -> Step<DecryptorState> {
        let all = self.pending + data;
        let n = self.algorithm.nonce_len() as int;
        if self.finalized {
            Step { state: self, emitted: Seq::empty(), result: Ok(()) }
        } else if self.nonce is None && all.len() < n {
            Step {
                state: DecryptorState { pending: all, ..self },
                emitted: Seq::empty(),
                result: Ok(()),
            }
        } else {
            let nonce = match self.nonce {
                Some(nonce) => nonce,
                None => all.take(n),
            };
            let rest = match self.nonce {
                Some(_) => all,
                None => all.skip(n),
            };
            let opened_now = match self.algorithm {
                CryptoAlgorithm::Aes => None,
                CryptoAlgorithm::Chacha20Poly1305 => if rest.len() > 0 {
                    chacha20poly1305_open(self.key, nonce, rest)
                } else {
                    None
                },
            };
            match opened_now {
                Some(plaintext) => Step {
                    state: DecryptorState { nonce: Some(nonce), pending: Seq::empty(), ..self },
                    emitted: plaintext,
                    result: Ok(()),
                },
                None => Step {
                    state: DecryptorState { nonce: Some(nonce), pending: rest, ..self },
                    emitted: Seq::empty(),
                    result: Ok(()),
                },
            }
        }
    }

    /// What `finalize` does.
    ///
    /// A finalized stream does nothing. A stream whose nonce or IV never
    /// arrived fails. In AES mode the pending bytes are decrypted and
    /// unpadded as one ciphertext, which fails unless they are whole
    /// blocks with valid padding. In ChaCha20-Poly1305 mode the pending
    /// bytes, if there are any, are opened, which fails unless the tag
    /// verifies. On failure the state is as before; on success nothing
    /// stays pending.
    pub open spec fn finalize(self) -> Step<DecryptorState> {
        if self.finalized {
            Step { state: self, emitted: Seq::empty(), result: Ok(()) }
        } else {
            match self.nonce {
                None => Step {
                    state: self,
                    emitted: Seq::empty(),
                    result: Err(CryptoError::MissingHeader),
                },
                Some(nonce) => {
                    let plaintext = if self.algorithm == CryptoAlgorithm::Chacha20Poly1305
                        && self.pending.len() == 0 {
                        Ok(Seq::empty())
                    } else {
                        opened(self.algorithm, self.key, nonce, self.pending)
                    };
                    match plaintext {
                        Ok(plaintext) => Step {
                            state: DecryptorState {
                                pending: Seq::empty(),
                                finalized: true,
                                ..self
                            },
                            emitted: plaintext,
                            result: Ok(()),
                        },
                        Err(e) => Step { state: self, emitted: Seq::empty(), result: Err(e) },
                    }
                },
            }
        }
    }
}

/// A cipher that is fed `nonce || ciphertext` in pieces and writes the
/// plaintext.
pub struct DecryptionStream {
    algorithm: CryptoAlgorithm,
    key: Vec<u8>,
    iv_or_nonce: Option<Vec<u8>>,
    buffer: Vec<u8>,
    block_size: usize,
    finalized: bool,
}

impl View for DecryptionStream {
    type V = DecryptorState;

    closed spec fn view(&self) -> DecryptorState {
        DecryptorState {
            algorithm: self.algorithm,
            key: self.key@,
            nonce: match self.iv_or_nonce {
                Some(nonce) => Some(nonce@),
                None => None,
            },
            pending: self.buffer@,
            block_size: self.block_size,
            finalized: self.finalized,
        }
    }
}

impl DecryptionStream {
    /// Makes a stream that awaits its nonce or IV.
    pub fn new(algorithm: CryptoAlgorithm, key: &[u8]) -> (r: Result<Self, CryptoError>)
        ensures
            key@.len() != KEY_LEN ==> (r matches Err(e) && e == CryptoError::InvalidKeyLength),
            key@.len() == KEY_LEN ==> (r matches Ok(s) && s@.is_valid() && s@
                == DecryptorState::initial(algorithm, key@)),
    {
        if key.len() != KEY_LEN {
            return Err(CryptoError::InvalidKeyLength);
        }
        let block_size: usize = match algorithm {
            CryptoAlgorithm::Aes => 16,
            CryptoAlgorithm::Chacha20Poly1305 => 64,
        };
        Ok(
            DecryptionStream {
                algorithm,
                key: slice_to_vec(key),
                iv_or_nonce: None,
                buffer: Vec::new(),
                block_size,
                finalized: false,
            },
        )
    }

    /// Where the stream stands in its life.
    pub fn phase(&self) -> (phase: StreamPhase)
        ensures
            phase == self@.phase(),
    {
        if self.finalized {
            StreamPhase::Finalized
        } else if self.iv_or_nonce.is_some() {
            StreamPhase::Streaming
        } else {
            StreamPhase::NotStarted
        }
    }

    /// Takes `data` in and appends to `output` what can be decrypted by
    /// now: nothing in AES mode, and in ChaCha20-Poly1305 mode the
    /// plaintext once the tag verifies. It never fails.
    /// [`DecryptorState::process`] says it in full.
    pub fn process(&mut self, data: &[u8], output: &mut Vec<u8>) -> (r: Result<(), CryptoError>)
        requires
            old(self)@.is_valid(),
        ensures
            final(self)@.is_valid(),
            final(self)@ == old(self)@.process(data@).state,
            final(output)@ == old(output)@ + old(self)@.process(data@).emitted,
            r == old(self)@.process(data@).result,
            r is Ok,
    {
        if self.finalized {
            return Ok(());
        }
        self.buffer.extend_from_slice(data);
        let ghost all = old(self)@.pending + data@;
        assert(self.buffer@ =~= all);
        if self.iv_or_nonce.is_none() {
            let header_size = self.algorithm.nonce_len();
            if self.buffer.len() < header_size {
                return Ok(());
            }
            let rest = self.buffer.split_off(header_size);
            let mut nonce: Vec<u8> = Vec::new();
            nonce.extend_from_slice(self.buffer.as_slice());
            assert(nonce@ =~= all.take(header_size as int));
            self.iv_or_nonce = Some(nonce);
            self.buffer = rest;
        }
        let opened_now: Option<Vec<u8>> = match self.algorithm {
            CryptoAlgorithm::Aes => None,
            CryptoAlgorithm::Chacha20Poly1305 => match &self.iv_or_nonce {
                Some(nonce) => if !self.buffer.is_empty() {
                    match chacha_decrypt(
                        self.key.as_slice(),
                        nonce.as_slice(),
                        self.buffer.as_slice(),
                    ) {
                        Ok(plaintext) => Some(plaintext),
                        Err(_) => None,
                    }
                } else {
                    None
                },
                None => None,
            },
        };
        match opened_now {
            Some(plaintext) => {
                output.extend_from_slice(plaintext.as_slice());
                self.buffer.clear();
            },
            None => {},
        }
        Ok(())
    }

    /// Decrypts what is still pending, appends it to `output`, and ends
    /// the stream. [`DecryptorState::finalize`] says it in full.
    pub fn finalize(&mut self, output: &mut Vec<u8>) -> (r: Result<(), CryptoError>)
        requires
            old(self)@.is_valid(),
        ensures
            final(self)@.is_valid(),
            final(self)@ == old(self)@.finalize().state,
            final(output)@ == old(output)@ + old(self)@.finalize().emitted,
            r == old(self)@.finalize().result,
    {
        if self.finalized {
            return Ok(());
        }
        let plaintext: Vec<u8> = match &self.iv_or_nonce {
            None => {
                return Err(CryptoError::MissingHeader);
            },
            Some(nonce) => match self.algorithm {
                CryptoAlgorithm::Aes => {
                    if self.buffer.len() % self.block_size != 0 {
                        return Err(CryptoError::MisalignedCiphertext);
                    }
                    match aes_cbc_decrypt(
                        self.key.as_slice(),
                        nonce.as_slice(),
                        self.buffer.as_slice(),
                    ) {
                        Ok(plaintext) => plaintext,
                        Err(_) => {
                            return Err(CryptoError::PaddingError);
                        },
                    }
                },
                CryptoAlgorithm::Chacha20Poly1305 => {
                    if self.buffer.is_empty() {
                        Vec::new()
                    } else {
                        match chacha_decrypt(
                            self.key.as_slice(),
                            nonce.as_slice(),
                            self.buffer.as_slice(),
                        ) {
                            Ok(plaintext) => plaintext,
                            Err(_) => {
                                return Err(CryptoError::AuthenticationFailed);
                            },
                        }
                    }
                },
            },
        };
        output.extend_from_slice(plaintext.as_slice());
        self.buffer.clear();
        self.finalized = true;
        Ok(())
    }
}

} // verus!
