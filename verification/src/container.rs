//! The chunked container: a plaintext cut into chunks of a fixed size, each
//! chunk encrypted on its own, so that any one can be decrypted without the
//! others.
//!
//! [`chunk_encrypt`] writes a container, [`chunk_decrypt`] reads all of it
//! back, [`decrypt_single_chunk`] reads one chunk, and
//! [`chunked_metadata`] reads the header alone.

use crate::crypto::{
    accepts_len, bytes_of, decrypt, decrypted, encrypt, encrypt_with_nonce, is_encryption_of,
    sealed, CryptoAlgorithm, KEY_LEN,
};
use crate::primitives::random_bytes;
use crate::decimal::{parse_decimal, parsed_bounded};
use crate::error::CryptoError;
use crate::format::{
    find_colon, frame, frames, header_bytes, lemma_frames_first, lemma_header_settled,
    lemma_parse_frame, lemma_parse_header, lemma_split_settled, lemma_split_shortens,
    lemma_split_written, parse_frame, parse_header, parsed_frame, parsed_header, split_field,
    tag, write_frame, write_header, ContainerHeader, COLON,
};
use vstd::prelude::*;
use vstd::slice::slice_subrange;

verus! {

/// What a container's header says of it.
#[derive(Clone, Copy, Debug, PartialEq, Eq, Structural)]
pub struct ChunkedMetadata {
    /// The number of chunks that a plaintext of this size has.
    pub total_chunks: u64,
    /// The length of the plaintext.
    pub original_size: u64,
    /// The length of every plaintext chunk but, possibly, the last.
    pub chunk_size: usize,
}

/// A container as [`chunk_encrypt`] writes it.
#[derive(Debug)]
pub struct EncryptedContainer {
    /// The bytes of the container: header and chunks.
    pub bytes: Vec<u8>,
    /// The number of chunks written.
    pub total_chunks: u64,
}

/// A plaintext as [`chunk_decrypt`] reads it.
#[derive(Debug)]
pub struct DecryptedContainer {
    /// The plaintext.
    pub data: Vec<u8>,
    /// The number of chunks read.
    pub total_chunks: u64,
    /// The plaintext's length as the header gives it.
    pub original_size: u64,
    /// The chunk size as the header gives it.
    pub chunk_size: usize,
}

/// The number of chunks that `size` bytes are cut into: `size / chunk_size`
/// rounded up. No chunk can be cut with a chunk size of 0.
pub open spec fn chunk_count(size: nat, chunk_size: nat) -> nat {
    if chunk_size == 0 {
        0
    } else if size % chunk_size == 0 {
        size / chunk_size
    } else {
        size / chunk_size + 1
    }
}

/// How many bytes the first `k` chunks of a plaintext of `size` bytes hold.
pub open spec fn covered(size: nat, chunk_size: nat, k: nat) -> nat {
    if k * chunk_size < size {
        k * chunk_size
    } else {
        size
    }
}

/// The length of the longest chunk, which is the first: `chunk_size`, or
/// all of the plaintext if that is shorter.
pub open spec fn longest_chunk(size: nat, chunk_size: nat) -> nat {
    if chunk_size < size {
        chunk_size
    } else {
        size
    }
}

/// Chunk `i` of `input`: the bytes from `i * chunk_size` up to
/// `(i + 1) * chunk_size`, or up to the end of `input` if that comes first.
pub open spec fn chunk_of(input: Seq<u8>, chunk_size: nat, i: nat) -> Seq<u8> {
    input.subrange((i * chunk_size) as int, covered(input.len(), chunk_size, i + 1) as int)
}

/// The bytes of a container: a header, then the chunks that hold `blobs`.
pub open spec fn container_bytes(header: ContainerHeader, blobs: Seq<Seq<u8>>) -> Seq<u8> {
    header_bytes(header) + frames(blobs)
}

/// Whether `blobs` are the chunks of `input`, encrypted one by one: as many
/// as `input` has chunks, each an encryption of its chunk that decrypts to
/// it again.
pub open spec fn holds_chunks(
    blobs: Seq<Seq<u8>>,
    algorithm: CryptoAlgorithm,
    key: Seq<u8>,
    input: Seq<u8>,
    chunk_size: nat,
) -> bool {
    &&& blobs.len() == chunk_count(input.len(), chunk_size)
    &&& forall|i: int|
        0 <= i < blobs.len() ==> {
            &&& (#[trigger] blobs[i]).len() <= usize::MAX
            &&& is_encryption_of(blobs[i], algorithm, key, chunk_of(input, chunk_size, i as nat))
            &&& decrypted(algorithm, key, blobs[i]) == Ok::<Seq<u8>, CryptoError>(
                chunk_of(input, chunk_size, i as nat),
            )
        }
}

/// Whether `bytes` is a container of `input`: the header with the length
/// of `input` and the chunk size, then the encrypted chunks of `input`.
pub open spec fn is_container_of(
    bytes: Seq<u8>,
    algorithm: CryptoAlgorithm,
    key: Seq<u8>,
    input: Seq<u8>,
    chunk_size: usize,
    blobs: Seq<Seq<u8>>,
) -> bool {
    &&& input.len() <= u64::MAX
    &&& holds_chunks(blobs, algorithm, key, input, chunk_size as nat)
    &&& bytes == container_bytes(
        ContainerHeader { original_size: input.len() as u64, chunk_size },
        blobs,
    )
}

/// Whether blob `i` is the `i`-th nonce followed by the ciphertext of
/// chunk `i` under it, for every blob.
pub open spec fn sealed_under(
    blobs: Seq<Seq<u8>>,
    nonces: Seq<Vec<u8>>,
    algorithm: CryptoAlgorithm,
    key: Seq<u8>,
    input: Seq<u8>,
    chunk_size: nat,
) -> bool {
    &&& blobs.len() <= nonces.len()
    &&& forall|i: int|
        0 <= i < blobs.len() ==> #[trigger] blobs[i] == nonces[i]@ + sealed(
            algorithm,
            key,
            nonces[i]@,
            chunk_of(input, chunk_size, i as nat),
        )
}

/// Whether `bytes` is a container of `input` whose blob `i` is sealed
/// under the `i`-th of `nonces`.
pub open spec fn is_container_under(
    bytes: Seq<u8>,
    algorithm: CryptoAlgorithm,
    key: Seq<u8>,
    input: Seq<u8>,
    chunk_size: usize,
    blobs: Seq<Seq<u8>>,
    nonces: Seq<Vec<u8>>,
) -> bool {
    &&& is_container_of(bytes, algorithm, key, input, chunk_size, blobs)
    &&& sealed_under(blobs, nonces, algorithm, key, input, chunk_size as nat)
}

/// What reading chunks gives, from `body` on, until `original_size` bytes
/// of plaintext are there: the plaintext and the number of chunks read,
/// `produced` and `count` being what was read before.
pub open spec fn read_chunks(
    algorithm: CryptoAlgorithm,
    key: Seq<u8>,
    body: Seq<u8>,
    original_size: nat,
    produced: Seq<u8>,
    count: nat,
) -> Result<(Seq<u8>, nat), CryptoError>
    decreases body.len(),
    via read_chunks_decreases
{
    if produced.len() >= original_size {
        Ok((produced, count))
    } else {
        match parsed_frame(body) {
            Err(e) => Err(e),
            Ok((blob, rest)) => match decrypted(algorithm, key, blob) {
                Err(e) => Err(e),
                Ok(plaintext) => read_chunks(
                    algorithm,
                    key,
                    rest,
                    original_size,
                    produced + plaintext,
                    count + 1,
                ),
            },
        }
    }
}

#[via_fn]
proof fn read_chunks_decreases(
    algorithm: CryptoAlgorithm,
    key: Seq<u8>,
    body: Seq<u8>,
    original_size: nat,
    produced: Seq<u8>,
    count: nat,
) {
    lemma_split_shortens(body);
}

/// What is left of `body` after `n` chunks are passed over.
pub open spec fn skipped_frames(body: Seq<u8>, n: nat) -> Result<Seq<u8>, CryptoError>
    decreases n,
{
    if n == 0 {
        Ok(body)
    } else {
        match parsed_frame(body) {
            Err(e) => Err(e),
            Ok((_, rest)) => skipped_frames(rest, (n - 1) as nat),
        }
    }
}

/// What [`chunk_decrypt`] returns: the plaintext, the number of chunks
/// read and the header, or the first failure met.
pub open spec fn chunk_decrypted(algorithm: CryptoAlgorithm, key: Seq<u8>, bytes: Seq<u8>) -> Result<
    (Seq<u8>, nat, ContainerHeader),
    CryptoError,
> {
    if key.len() != KEY_LEN {
        Err(CryptoError::InvalidKeyLength)
    } else {
        match parsed_header(bytes) {
            Err(e) => Err(e),
            Ok((header, body)) => match read_chunks(
                algorithm,
                key,
                body,
                header.original_size as nat,
                Seq::empty(),
                0,
            ) {
                Err(e) => Err(e),
                Ok((data, count)) => Ok((data, count, header)),
            },
        }
    }
}

/// What [`decrypt_single_chunk`] returns: the plaintext of chunk `index`,
/// or the first failure met on the way to it.
pub open spec fn single_chunk_decrypted(
    algorithm: CryptoAlgorithm,
    key: Seq<u8>,
    bytes: Seq<u8>,
    index: nat,
) -> Result<Seq<u8>, CryptoError> {
    if key.len() != KEY_LEN {
        Err(CryptoError::InvalidKeyLength)
    } else {
        match parsed_header(bytes) {
            Err(e) => Err(e),
            Ok((_, body)) => match skipped_frames(body, index) {
                Err(e) => Err(e),
                Ok(rest) => match parsed_frame(rest) {
                    Err(e) => Err(e),
                    Ok((blob, _)) => decrypted(algorithm, key, blob),
                },
            },
        }
    }
}

/// What [`chunked_metadata`] returns: the header's two sizes and the number
/// of chunks that follows from them.
pub open spec fn metadata_of(bytes: Seq<u8>) -> Result<ChunkedMetadata, CryptoError> {
    match parsed_header(bytes) {
        Err(e) => Err(e),
        Ok((header, _)) => Ok(
            ChunkedMetadata {
                total_chunks: chunk_count(
                    header.original_size as nat,
                    header.chunk_size as nat,
                ) as u64,
                original_size: header.original_size,
                chunk_size: header.chunk_size,
            },
        ),
    }
}

/// Whether the three readers give back what a container of `input` was
/// written from: the metadata, all of `input` unless nothing but an empty
/// input can come back, and every chunk by its index.
pub open spec fn reads_back(
    bytes: Seq<u8>,
    total_chunks: u64,
    algorithm: CryptoAlgorithm,
    key: Seq<u8>,
    input: Seq<u8>,
    chunk_size: usize,
) -> bool {
    &&& metadata_of(bytes) == Ok::<ChunkedMetadata, CryptoError>(
        ChunkedMetadata { total_chunks, original_size: input.len() as u64, chunk_size },
    )
    &&& chunk_size > 0 || input.len() == 0 ==> chunk_decrypted(algorithm, key, bytes) == Ok::<
        (Seq<u8>, nat, ContainerHeader),
        CryptoError,
    >(
        (
            input,
            total_chunks as nat,
            ContainerHeader { original_size: input.len() as u64, chunk_size },
        ),
    )
    &&& forall|index: nat|
        index < total_chunks ==> #[trigger] single_chunk_decrypted(algorithm, key, bytes, index)
            == Ok::<Seq<u8>, CryptoError>(chunk_of(input, chunk_size as nat, index))
}


/// Chunk `k` exists exactly where it begins before the end of the input.
pub proof fn lemma_chunk_exists(size: nat, chunk_size: nat, k: nat)
    requires
        chunk_size > 0,
    ensures
        k < chunk_count(size, chunk_size) <==> k * chunk_size < size,
{
    let q = size / chunk_size;
    let r = size % chunk_size;
    assert(size == q * chunk_size + r && 0 <= r < chunk_size) by (nonlinear_arith)
        requires
            chunk_size > 0,
            q == size / chunk_size,
            r == size % chunk_size,
    ;
    assert(k < q ==> k * chunk_size + chunk_size <= q * chunk_size) by (nonlinear_arith)
        requires
            chunk_size > 0,
    ;
    assert(k >= q ==> k * chunk_size >= q * chunk_size) by (nonlinear_arith)
        requires
            chunk_size > 0,
    ;
    assert(k > q ==> k * chunk_size >= q * chunk_size + chunk_size) by (nonlinear_arith)
        requires
            chunk_size > 0,
    ;
}

/// Where the next chunk begins.
pub proof fn lemma_next_chunk(k: nat, chunk_size: nat)
    ensures
        (k + 1) * chunk_size == k * chunk_size + chunk_size,
{
    assert((k + 1) * chunk_size == k * chunk_size + chunk_size) by (nonlinear_arith);
}

/// The lengths of the chunks: an empty input has none; every chunk but the
/// last is `chunk_size` long; the last is not empty, and it is `chunk_size`
/// long where `chunk_size` divides the length of the input.
pub proof fn lemma_chunk_lengths(input: Seq<u8>, chunk_size: nat, i: nat)
    requires
        chunk_size > 0,
        i < chunk_count(input.len(), chunk_size),
    ensures
        chunk_count(0, chunk_size) == 0,
        0 < chunk_of(input, chunk_size, i).len() <= chunk_size,
        i + 1 < chunk_count(input.len(), chunk_size) ==> chunk_of(input, chunk_size, i).len()
            == chunk_size,
        input.len() % chunk_size == 0 ==> chunk_of(input, chunk_size, i).len() == chunk_size,
{
    let size = input.len();
    lemma_chunk_exists(size, chunk_size, i);
    lemma_chunk_exists(size, chunk_size, i + 1);
    lemma_next_chunk(i, chunk_size);
    assert(0nat % chunk_size == 0 && 0nat / chunk_size == 0) by (nonlinear_arith)
        requires
            chunk_size > 0,
    ;
    if size % chunk_size == 0 {
        let q = size / chunk_size;
        assert(size == q * chunk_size) by (nonlinear_arith)
            requires
                chunk_size > 0,
                q == size / chunk_size,
                size % chunk_size == 0,
        ;
        assert(i + 1 <= q ==> (i + 1) * chunk_size <= q * chunk_size) by (nonlinear_arith)
            requires
                chunk_size > 0,
        ;
    }
}

/// An input of length 0 has no chunk, and an input whose length the chunk
/// size divides ends in a chunk of full length.
pub proof fn lemma_chunk_boundaries(input: Seq<u8>, chunk_size: nat)
    ensures
        input.len() == 0 ==> chunk_count(input.len(), chunk_size) == 0,
        chunk_size > 0 && input.len() > 0 && input.len() % chunk_size == 0 ==> {
            let last = (chunk_count(input.len(), chunk_size) - 1) as nat;
            &&& chunk_count(input.len(), chunk_size) == input.len() / chunk_size
            &&& chunk_count(input.len(), chunk_size) > 0
            &&& chunk_of(input, chunk_size, last).len() == chunk_size
        },
{
    if chunk_size > 0 {
        assert(0nat % chunk_size == 0 && 0nat / chunk_size == 0) by (nonlinear_arith)
            requires
                chunk_size > 0,
        ;
        if input.len() > 0 && input.len() % chunk_size == 0 {
            lemma_chunk_exists(input.len(), chunk_size, 0);
            assert(0nat * chunk_size == 0) by (nonlinear_arith);
            let last = (chunk_count(input.len(), chunk_size) - 1) as nat;
            lemma_chunk_lengths(input, chunk_size, last);
        }
    }
}


/// The number of chunks is at most the number of bytes.
pub proof fn lemma_chunk_count_bound(size: nat, chunk_size: nat)
    ensures
        chunk_count(size, chunk_size) <= size,
{
    if chunk_size > 0 {
        let n = chunk_count(size, chunk_size);
        if n > 0 {
            lemma_chunk_exists(size, chunk_size, (n - 1) as nat);
            assert((n - 1) * chunk_size >= n - 1) by (nonlinear_arith)
                requires
                    chunk_size > 0,
                    n > 0,
            ;
        }
    }
}

/// Reading on from chunk `k`, with the first `k` chunks' plaintext in hand,
/// gives the whole input.
proof fn lemma_read_from(
    algorithm: CryptoAlgorithm,
    key: Seq<u8>,
    input: Seq<u8>,
    chunk_size: nat,
    blobs: Seq<Seq<u8>>,
    k: nat,
)
    requires
        chunk_size > 0,
        holds_chunks(blobs, algorithm, key, input, chunk_size),
        k <= blobs.len(),
    ensures
        read_chunks(
            algorithm,
            key,
            frames(blobs.skip(k as int)),
            input.len(),
            input.take(covered(input.len(), chunk_size, k) as int),
            k,
        ) == Ok::<(Seq<u8>, nat), CryptoError>((input, blobs.len())),
    decreases blobs.len() - k,
{
    let size = input.len();
    let produced = input.take(covered(size, chunk_size, k) as int);
    lemma_chunk_exists(size, chunk_size, k);
    if k == blobs.len() {
        assert(produced =~= input);
    } else {
        let later = blobs.skip(k as int);
        let rest = frames(blobs.skip(k + 1 as int));
        lemma_frames_first(later);
        assert(later.skip(1) =~= blobs.skip(k + 1 as int));
        lemma_parse_frame(blobs[k as int], rest);
        lemma_next_chunk(k, chunk_size);
        let chunk = chunk_of(input, chunk_size, k);
        assert(produced + chunk =~= input.take(covered(size, chunk_size, k + 1) as int));
        lemma_read_from(algorithm, key, input, chunk_size, blobs, k + 1);
    }
}

/// Passing over `j` chunks from chunk `k` on leaves the chunks from `k + j` on.
proof fn lemma_skip_from(blobs: Seq<Seq<u8>>, k: nat, j: nat)
    requires
        k + j <= blobs.len(),
        forall|i: int| 0 <= i < blobs.len() ==> (#[trigger] blobs[i]).len() <= usize::MAX,
    ensures
        skipped_frames(frames(blobs.skip(k as int)), j) == Ok::<Seq<u8>, CryptoError>(
            frames(blobs.skip((k + j) as int)),
        ),
    decreases j,
{
    if j > 0 {
        let later = blobs.skip(k as int);
        lemma_frames_first(later);
        assert(later.skip(1) =~= blobs.skip(k + 1 as int));
        lemma_parse_frame(blobs[k as int], frames(blobs.skip(k + 1 as int)));
        lemma_skip_from(blobs, k + 1, (j - 1) as nat);
    }
}

/// Decrypting a container of `input` gives `input` back, chunk for chunk:
/// as many chunks are read as `input` has.
///
/// A chunk size of 0 cuts no chunk, so nothing but an empty input comes
/// back from a container written with it.
pub proof fn lemma_chunked_round_trip(
    bytes: Seq<u8>,
    algorithm: CryptoAlgorithm,
    key: Seq<u8>,
    input: Seq<u8>,
    chunk_size: usize,
    blobs: Seq<Seq<u8>>,
)
    requires
        key.len() == KEY_LEN,
        chunk_size > 0 || input.len() == 0,
        is_container_of(bytes, algorithm, key, input, chunk_size, blobs),
    ensures
        chunk_decrypted(algorithm, key, bytes) == Ok::<
            (Seq<u8>, nat, ContainerHeader),
            CryptoError,
        >(
            (
                input,
                chunk_count(input.len(), chunk_size as nat),
                ContainerHeader { original_size: input.len() as u64, chunk_size },
            ),
        ),
{
    let header = ContainerHeader { original_size: input.len() as u64, chunk_size };
    lemma_parse_header(header, frames(blobs));
    if chunk_size > 0 {
        lemma_read_from(algorithm, key, input, chunk_size as nat, blobs, 0);
        assert(blobs.skip(0) =~= blobs);
        assert(0nat * (chunk_size as nat) == 0) by (nonlinear_arith);
        assert(input.take(0) =~= Seq::<u8>::empty());
    } else {
        assert(input =~= Seq::<u8>::empty());
    }
}

/// Decrypting chunk `index` of a container of `input` gives the bytes of
/// `input` from `index * chunk_size` up to `(index + 1) * chunk_size`, or
/// up to the end of `input` if that comes first.
pub proof fn lemma_random_access(
    bytes: Seq<u8>,
    algorithm: CryptoAlgorithm,
    key: Seq<u8>,
    input: Seq<u8>,
    chunk_size: usize,
    blobs: Seq<Seq<u8>>,
    index: nat,
)
    requires
        key.len() == KEY_LEN,
        is_container_of(bytes, algorithm, key, input, chunk_size, blobs),
        index < chunk_count(input.len(), chunk_size as nat),
    ensures
        single_chunk_decrypted(algorithm, key, bytes, index) == Ok::<Seq<u8>, CryptoError>(
            chunk_of(input, chunk_size as nat, index),
        ),
        chunk_of(input, chunk_size as nat, index) == input.subrange(
            index * chunk_size,
            if (index + 1) * chunk_size < input.len() {
                (index + 1) * chunk_size
            } else {
                input.len() as int
            },
        ),
{
    let header = ContainerHeader { original_size: input.len() as u64, chunk_size };
    lemma_parse_header(header, frames(blobs));
    lemma_skip_from(blobs, 0, index);
    assert(blobs.skip(0) =~= blobs);
    let later = blobs.skip(index as int);
    lemma_frames_first(later);
    lemma_parse_frame(blobs[index as int], frames(later.skip(1)));
}

/// The header alone gives the metadata of a container, whatever follows
/// it, even nothing: the two sizes as written, and the number of chunks
/// that a plaintext of that size has.
pub proof fn lemma_metadata_of_header(header: ContainerHeader, rest: Seq<u8>)
    ensures
        metadata_of(header_bytes(header) + rest) == Ok::<ChunkedMetadata, CryptoError>(
            ChunkedMetadata {
                total_chunks: chunk_count(
                    header.original_size as nat,
                    header.chunk_size as nat,
                ) as u64,
                original_size: header.original_size,
                chunk_size: header.chunk_size,
            },
        ),
        chunk_count(header.original_size as nat, header.chunk_size as nat) <= u64::MAX,
{
    lemma_parse_header(header, rest);
    lemma_chunk_count_bound(header.original_size as nat, header.chunk_size as nat);
}

/// A header whose size field is no decimal number that fits 64 bits is
/// corrupt, and so is one whose chunk-size field is no decimal number
/// that fits the machine's word, for any of the three readers.
pub proof fn lemma_corrupt_size_field(
    size_field: Seq<u8>,
    chunk_field: Seq<u8>,
    rest: Seq<u8>,
    algorithm: CryptoAlgorithm,
    key: Seq<u8>,
    index: nat,
)
    requires
        key.len() == KEY_LEN,
        !size_field.contains(COLON),
        !chunk_field.contains(COLON),
        parsed_bounded(size_field, u64::MAX as nat) is None || parsed_bounded(
            chunk_field,
            usize::MAX as nat,
        ) is None,
    ensures
        ({
            let bytes = tag() + seq![COLON] + size_field + seq![COLON] + chunk_field + seq![COLON]
                + rest;
            &&& parsed_header(bytes) == Err::<(ContainerHeader, Seq<u8>), CryptoError>(
                CryptoError::CorruptHeader,
            )
            &&& metadata_of(bytes) == Err::<ChunkedMetadata, CryptoError>(
                CryptoError::CorruptHeader,
            )
            &&& chunk_decrypted(algorithm, key, bytes) == Err::<
                (Seq<u8>, nat, ContainerHeader),
                CryptoError,
            >(CryptoError::CorruptHeader)
            &&& single_chunk_decrypted(algorithm, key, bytes, index) == Err::<
                Seq<u8>,
                CryptoError,
            >(CryptoError::CorruptHeader)
        }),
{
    let after_size = chunk_field + seq![COLON] + rest;
    let after_tag = size_field + seq![COLON] + after_size;
    let bytes = tag() + seq![COLON] + size_field + seq![COLON] + chunk_field + seq![COLON] + rest;
    assert(bytes =~= tag() + seq![COLON] + after_tag);
    lemma_split_written(tag(), after_tag);
    lemma_split_written(size_field, after_size);
    lemma_split_written(chunk_field, rest);
}

/// Bytes that do not begin with the tag, or whose first field is more than
/// the tag, are no container, for any of the three readers.
pub proof fn lemma_missing_tag(bytes: Seq<u8>, algorithm: CryptoAlgorithm, key: Seq<u8>, index: nat)
    requires
        key.len() == KEY_LEN,
        !tag().is_prefix_of(bytes) || (split_field(bytes) matches Some((first, _)) && first
            != tag()),
    ensures
        chunk_decrypted(algorithm, key, bytes) == Err::<
            (Seq<u8>, nat, ContainerHeader),
            CryptoError,
        >(CryptoError::InvalidFormat),
        single_chunk_decrypted(algorithm, key, bytes, index) == Err::<Seq<u8>, CryptoError>(
            CryptoError::InvalidFormat,
        ),
        metadata_of(bytes) == Err::<ChunkedMetadata, CryptoError>(CryptoError::InvalidFormat),
{
}

/// A first field that is not the tag makes the format invalid, whatever
/// follows its `:`.
pub proof fn lemma_wrong_tag(first: Seq<u8>, rest: Seq<u8>)
    requires
        !first.contains(COLON),
        first != tag(),
    ensures
        parsed_header(first + seq![COLON] + rest) == Err::<
            (ContainerHeader, Seq<u8>),
            CryptoError,
        >(CryptoError::InvalidFormat),
{
    lemma_split_written(first, rest);
}

/// The chunk size, in bytes, that a number of mebibytes stands for, unless
/// it does not fit the machine's word.
pub fn chunk_size_from_mb(chunk_size_mb: u32) -> (chunk_size: Option<usize>)
    ensures
        match chunk_size {
            Some(n) => n == chunk_size_mb * 1024 * 1024,
            None => chunk_size_mb * 1024 * 1024 > usize::MAX,
        },
{
    let bytes: u64 = chunk_size_mb as u64 * 1048576;
    if bytes <= usize::MAX as u64 {
        Some(bytes as usize)
    } else {
        None
    }
}

/// The number of chunks that `size` bytes are cut into.
pub fn count_chunks(size: u64, chunk_size: usize) -> (count: u64)
    ensures
        count == chunk_count(size as nat, chunk_size as nat),
{
    if chunk_size == 0 {
        return 0;
    }
    proof {
        lemma_chunk_count_bound(size as nat, chunk_size as nat);
    }
    let c = chunk_size as u64;
    if size % c == 0 {
        size / c
    } else {
        size / c + 1
    }
}

/// Whether the first `count` of `nonces` are there and of the length that
/// the algorithm asks for.
pub open spec fn nonces_fit(nonces: Seq<Vec<u8>>, algorithm: CryptoAlgorithm, count: nat) -> bool {
    &&& count <= nonces.len()
    &&& forall|i: int| 0 <= i < count ==> (#[trigger] nonces[i])@.len() == algorithm.nonce_len()
}

/// Whether the nonces among the first `count` of `nonces` are of the right
/// length, and none is missing.
fn check_nonces(nonces: &[Vec<u8>], algorithm: CryptoAlgorithm, count: usize) -> (fit: bool)
    ensures
        fit == nonces_fit(nonces@, algorithm, count as nat),
{
    if nonces.len() < count {
        return false;
    }
    let mut i: usize = 0;
    while i < count
        invariant
            i <= count <= nonces@.len(),
            forall|j: int| 0 <= j < i ==> (#[trigger] nonces@[j])@.len() == algorithm.nonce_len(),
        decreases count - i,
    {
        if nonces[i].len() != algorithm.nonce_len() {
            return false;
        }
        i += 1;
    }
    true
}

/// Cuts `input` into chunks of `chunk_size` bytes, encrypts chunk `i`
/// under the `i`-th of the given nonces or IVs, and returns the container
/// that holds them.
///
/// The key is checked first, then the nonces: there must be one of the
/// right length for every chunk. Reusing a nonce under one key defeats
/// the cipher: callers other than tests want [`chunk_encrypt`], which
/// draws a fresh one for every chunk.
pub fn chunk_encrypt_with_nonces(
    algorithm: CryptoAlgorithm,
    key: &[u8],
    input: &[u8],
    chunk_size: usize,
    nonces: &[Vec<u8>],
) -> (r: Result<EncryptedContainer, CryptoError>)
    requires
        input@.len() + 16 <= usize::MAX,
    ensures
        key@.len() != KEY_LEN ==> (r matches Err(e) && e == CryptoError::InvalidKeyLength),
        key@.len() == KEY_LEN && !nonces_fit(
            nonces@,
            algorithm,
            chunk_count(input@.len(), chunk_size as nat),
        ) ==> (r matches Err(e) && e == CryptoError::InvalidNonceLength),
        key@.len() == KEY_LEN && nonces_fit(
            nonces@,
            algorithm,
            chunk_count(input@.len(), chunk_size as nat),
        ) && !accepts_len(algorithm, longest_chunk(input@.len(), chunk_size as nat)) ==> (r matches Err(
            e,
        ) && e == CryptoError::EncryptionFailed),
        key@.len() == KEY_LEN && nonces_fit(
            nonces@,
            algorithm,
            chunk_count(input@.len(), chunk_size as nat),
        ) && accepts_len(algorithm, longest_chunk(input@.len(), chunk_size as nat)) ==> r is Ok,
        r matches Ok(c) ==> {
            &&& c.total_chunks == chunk_count(input@.len(), chunk_size as nat)
            &&& exists|blobs: Seq<Seq<u8>>|
                is_container_under(
                    c.bytes@,
                    algorithm,
                    key@,
                    input@,
                    chunk_size,
                    blobs,
                    nonces@,
                )
            &&& reads_back(c.bytes@, c.total_chunks, algorithm, key@, input@, chunk_size)
        },
{
    if key.len() != KEY_LEN {
        return Err(CryptoError::InvalidKeyLength);
    }
    let size = input.len();
    proof {
        lemma_chunk_count_bound(size as nat, chunk_size as nat);
    }
    let total = count_chunks(size as u64, chunk_size);
    if !check_nonces(nonces, algorithm, total as usize) {
        return Err(CryptoError::InvalidNonceLength);
    }
    let header = ContainerHeader { original_size: size as u64, chunk_size };
    let mut bytes: Vec<u8> = Vec::new();
    write_header(header, &mut bytes);
    let ghost mut blobs: Seq<Seq<u8>> = Seq::empty();
    let mut count: usize = 0;
    let mut pos: usize = 0;
    proof {
        assert(0nat * (chunk_size as nat) == 0) by (nonlinear_arith);
        assert(1nat * (chunk_size as nat) == chunk_size) by (nonlinear_arith);
    }
    while chunk_size > 0 && pos < size
        invariant
            key@.len() == KEY_LEN,
            size == input@.len(),
            size + 16 <= usize::MAX,
            total == chunk_count(size as nat, chunk_size as nat),
            nonces_fit(nonces@, algorithm, total as nat),
            header == (ContainerHeader { original_size: size as u64, chunk_size }),
            chunk_size > 0 ==> pos == covered(size as nat, chunk_size as nat, count as nat),
            chunk_size == 0 ==> count == 0,
            count <= total <= size,
            blobs.len() == count,
            bytes@ == header_bytes(header) + frames(blobs),
            count > 0 ==> accepts_len(algorithm, longest_chunk(size as nat, chunk_size as nat)),
            forall|i: int|
                0 <= i < blobs.len() ==> {
                    &&& (#[trigger] blobs[i]).len() <= usize::MAX
                    &&& is_encryption_of(
                        blobs[i],
                        algorithm,
                        key@,
                        chunk_of(input@, chunk_size as nat, i as nat),
                    )
                    &&& decrypted(algorithm, key@, blobs[i]) == Ok::<Seq<u8>, CryptoError>(
                        chunk_of(input@, chunk_size as nat, i as nat),
                    )
                    &&& blobs[i] == nonces@[i]@ + sealed(
                        algorithm,
                        key@,
                        nonces@[i]@,
                        chunk_of(input@, chunk_size as nat, i as nat),
                    )
                },
        decreases size - pos,
    {
        let left = size - pos;
        let length = if left < chunk_size {
            left
        } else {
            chunk_size
        };
        proof {
            lemma_chunk_exists(size as nat, chunk_size as nat, count as nat);
            lemma_next_chunk(count as nat, chunk_size as nat);
            assert(1nat * (chunk_size as nat) == chunk_size) by (nonlinear_arith);
            assert(chunk_of(input@, chunk_size as nat, count as nat) == input@.subrange(
                pos as int,
                pos + length,
            ));
        }
        let chunk = slice_subrange(input, pos, pos + length);
        let blob = match encrypt_with_nonce(algorithm, key, nonces[count].as_slice(), chunk) {
            Ok(blob) => blob,
            Err(e) => {
                return Err(e);
            },
        };
        write_frame(blob.as_slice(), &mut bytes);
        proof {
            let longer = blobs.push(blob@);
            assert(blob.len() == blob@.len());
            assert(longer.drop_last() =~= blobs);
            blobs = longer;
        }
        pos = pos + length;
        count = count + 1;
    }
    proof {
        if chunk_size > 0 {
            lemma_chunk_exists(size as nat, chunk_size as nat, count as nat);
        }
        assert(is_container_of(bytes@, algorithm, key@, input@, chunk_size, blobs));
        lemma_metadata_of_header(header, frames(blobs));
        if chunk_size > 0 || size == 0 {
            lemma_chunked_round_trip(bytes@, algorithm, key@, input@, chunk_size, blobs);
        }
        assert forall|index: nat| index < count implies #[trigger] single_chunk_decrypted(
            algorithm,
            key@,
            bytes@,
            index,
        ) == Ok::<Seq<u8>, CryptoError>(chunk_of(input@, chunk_size as nat, index)) by {
            lemma_random_access(bytes@, algorithm, key@, input@, chunk_size, blobs, index);
        }
        assert(reads_back(bytes@, count as u64, algorithm, key@, input@, chunk_size));
    }
    let r: Result<EncryptedContainer, CryptoError> = Ok(
        EncryptedContainer { bytes, total_chunks: count as u64 },
    );
    assert(r matches Ok(c) ==> is_container_under(
        c.bytes@,
        algorithm,
        key@,
        input@,
        chunk_size,
        blobs,
        nonces@,
    ));
    r
}

/// Cuts `input` into chunks of `chunk_size` bytes, encrypts each with a
/// fresh nonce or IV of its own, and returns the container that holds
/// them.
///
/// The last chunk holds what is left, and is never empty: an empty input
/// gives a header and no chunk. A chunk size of 0 gives a header and no
/// chunk, whatever the input. The key is checked before anything else,
/// and before any randomness is drawn. Encryption fails only where the
/// cipher refuses the length of the longest chunk.
pub fn chunk_encrypt(algorithm: CryptoAlgorithm, key: &[u8], input: &[u8], chunk_size: usize) -> (r:
    Result<EncryptedContainer, CryptoError>)
    requires
        input@.len() + 16 <= usize::MAX,
    ensures
        key@.len() != KEY_LEN ==> (r matches Err(e) && e == CryptoError::InvalidKeyLength),
        key@.len() == KEY_LEN && accepts_len(
            algorithm,
            longest_chunk(input@.len(), chunk_size as nat),
        ) ==> r is Ok,
        key@.len() == KEY_LEN && !accepts_len(
            algorithm,
            longest_chunk(input@.len(), chunk_size as nat),
        ) ==> (r matches Err(e) && e == CryptoError::EncryptionFailed),
        r matches Ok(c) ==> {
            &&& c.total_chunks == chunk_count(input@.len(), chunk_size as nat)
            &&& exists|blobs: Seq<Seq<u8>>, nonces: Seq<Vec<u8>>|
                is_container_under(
                    c.bytes@,
                    algorithm,
                    key@,
                    input@,
                    chunk_size,
                    blobs,
                    nonces,
                )
            &&& reads_back(c.bytes@, c.total_chunks, algorithm, key@, input@, chunk_size)
        },
{
    if key.len() != KEY_LEN {
        return Err(CryptoError::InvalidKeyLength);
    }
    proof {
        lemma_chunk_count_bound(input@.len(), chunk_size as nat);
    }
    let total = count_chunks(input.len() as u64, chunk_size);
    let mut nonces: Vec<Vec<u8>> = Vec::new();
    let mut drawn: u64 = 0;
    while drawn < total
        invariant
            drawn <= total,
            nonces@.len() == drawn,
            forall|j: int| 0 <= j < drawn ==> (#[trigger] nonces@[j])@.len() == algorithm.nonce_len(),
        decreases total - drawn,
    {
        nonces.push(random_bytes(algorithm.nonce_len()));
        drawn = drawn + 1;
    }
    chunk_encrypt_with_nonces(algorithm, key, input, chunk_size, nonces.as_slice())
}

/// Reads a container from its first byte to its last chunk and returns
/// the plaintext.
///
/// Chunks are read and decrypted one after another until as many bytes
/// are there as the header announces; what follows them is not looked at.
/// The chunk size in the header decides nothing here: every chunk carries
/// its own length. The key is checked before anything else.
pub fn chunk_decrypt(algorithm: CryptoAlgorithm, key: &[u8], container: &[u8]) -> (r: Result<
    DecryptedContainer,
    CryptoError,
>)
    ensures
        match chunk_decrypted(algorithm, key@, container@) {
            Ok((data, count, header)) => r matches Ok(d) && d.data@ == data && d.total_chunks
                == count && d.original_size == header.original_size && d.chunk_size
                == header.chunk_size,
            Err(e) => r matches Err(err) && err == e,
        },
        key@.len() == KEY_LEN && !tag().is_prefix_of(container@) ==> (r matches Err(e) && e
            == CryptoError::InvalidFormat),
{
    if key.len() != KEY_LEN {
        return Err(CryptoError::InvalidKeyLength);
    }
    let (header, start) = match parse_header(container) {
        Ok(parsed) => parsed,
        Err(e) => {
            return Err(e);
        },
    };
    let mut data: Vec<u8> = Vec::new();
    let mut count: u64 = 0;
    let mut pos: usize = start;
    let ghost body = container@.skip(start as int);
    let ghost original_size = header.original_size as nat;
    assert(container.len() == container@.len());
    while (data.len() as u64) < header.original_size
        invariant
            key@.len() == KEY_LEN,
            original_size == header.original_size,
            parsed_header(container@) == Ok::<(ContainerHeader, Seq<u8>), CryptoError>(
                (header, body),
            ),
            pos <= container@.len() <= usize::MAX,
            count <= pos,
            read_chunks(algorithm, key@, body, original_size, Seq::empty(), 0) == read_chunks(
                algorithm,
                key@,
                container@.skip(pos as int),
                original_size,
                data@,
                count as nat,
            ),
        decreases container@.len() - pos,
    {
        let (from, to) = match parse_frame(container, pos) {
            Ok(bounds) => bounds,
            Err(e) => {
                return Err(e);
            },
        };
        let plaintext = match decrypt(algorithm, key, slice_subrange(container, from, to)) {
            Ok(plaintext) => plaintext,
            Err(e) => {
                return Err(e);
            },
        };
        let ghost before = data@;
        data.extend_from_slice(plaintext.as_slice());
        assert(data@ =~= before + plaintext@);
        count = count + 1;
        pos = to;
    }
    Ok(
        DecryptedContainer {
            data,
            total_chunks: count,
            original_size: header.original_size,
            chunk_size: header.chunk_size,
        },
    )
}

/// Reads chunk `chunk_index` of a container, counted from 0, and returns
/// its plaintext.
///
/// The chunks before it are passed over by their lengths and not
/// decrypted. A container that ends before the chunk does is reported as
/// an unexpected end. The key is checked before anything else.
pub fn decrypt_single_chunk(
    algorithm: CryptoAlgorithm,
    key: &[u8],
    container: &[u8],
    chunk_index: u32,
) -> (r: Result<Vec<u8>, CryptoError>)
    ensures
        bytes_of(r) == single_chunk_decrypted(algorithm, key@, container@, chunk_index as nat),
        key@.len() == KEY_LEN && !tag().is_prefix_of(container@) ==> (r matches Err(e) && e
            == CryptoError::InvalidFormat),
{
    if key.len() != KEY_LEN {
        return Err(CryptoError::InvalidKeyLength);
    }
    let (_, start) = match parse_header(container) {
        Ok(parsed) => parsed,
        Err(e) => {
            return Err(e);
        },
    };
    let mut pos: usize = start;
    let mut passed: u32 = 0;
    let ghost body = container@.skip(start as int);
    while passed < chunk_index
        invariant
            key@.len() == KEY_LEN,
            passed <= chunk_index,
            parsed_header(container@) matches Ok((_, b)) && b == body,
            pos <= container@.len(),
            skipped_frames(body, chunk_index as nat) == skipped_frames(
                container@.skip(pos as int),
                (chunk_index - passed) as nat,
            ),
        decreases chunk_index - passed,
    {
        let (_, to) = match parse_frame(container, pos) {
            Ok(bounds) => bounds,
            Err(e) => {
                return Err(e);
            },
        };
        pos = to;
        passed = passed + 1;
    }
    let (from, to) = match parse_frame(container, pos) {
        Ok(bounds) => bounds,
        Err(e) => {
            return Err(e);
        },
    };
    decrypt(algorithm, key, slice_subrange(container, from, to))
}

/// Reads the header of a container, and nothing after it.
pub fn chunked_metadata(container: &[u8]) -> (r: Result<ChunkedMetadata, CryptoError>)
    ensures
        r == metadata_of(container@),
        !tag().is_prefix_of(container@) ==> r == Err::<ChunkedMetadata, CryptoError>(
            CryptoError::InvalidFormat,
        ),
{
    let (header, _) = match parse_header(container) {
        Ok(parsed) => parsed,
        Err(e) => {
            return Err(e);
        },
    };
    Ok(
        ChunkedMetadata {
            total_chunks: count_chunks(header.original_size, header.chunk_size),
            original_size: header.original_size,
            chunk_size: header.chunk_size,
        },
    )
}

/// Reads the header from the first bytes of a container, for a caller
/// that holds only those: `complete` says whether `prefix` is the whole
/// container.
///
/// `None` asks for more bytes. An answer is final: it is the metadata of
/// every container that begins with `prefix`.
pub fn metadata_from_prefix(prefix: &[u8], complete: bool) -> (r: Option<
    Result<ChunkedMetadata, CryptoError>,
>)
    ensures
        complete ==> r == Some(metadata_of(prefix@)),
        !complete ==> (r is None <==> prefix@.len() < 6 || metadata_of(prefix@) == Err::<
            ChunkedMetadata,
            CryptoError,
        >(CryptoError::UnexpectedEof)),
        r matches Some(answer) ==> forall|more: Seq<u8>|
            (complete ==> more.len() == 0) ==> #[trigger] metadata_of(prefix@ + more) == answer,
{
    if !complete && prefix.len() < 6 {
        return None;
    }
    let answer = chunked_metadata(prefix);
    if !complete {
        match answer {
            Err(CryptoError::UnexpectedEof) => {
                return None;
            },
            _ => {},
        }
    }
    proof {
        assert forall|more: Seq<u8>| (complete ==> more.len() == 0) implies #[trigger] metadata_of(
            prefix@ + more,
        ) == answer by {
            if !complete {
                lemma_header_settled(prefix@, more);
            }
        }
    }
    Some(answer)
}

/// What reading a chunk gives whose blob begins at `from` and is `len`
/// bytes long: the blob and what follows it, unless `bytes` end before
/// the blob does.
pub open spec fn blob_at(bytes: Seq<u8>, from: int, len: int) -> Result<
    (Seq<u8>, Seq<u8>),
    CryptoError,
> {
    if from + len > bytes.len() {
        Err(CryptoError::UnexpectedEof)
    } else {
        Ok((bytes.subrange(from, from + len), bytes.skip(from + len)))
    }
}

/// Encrypts one chunk with a fresh nonce or IV and appends it to `out` as
/// the container holds it: the blob's length, `:`, the blob. On failure
/// `out` is left as it was.
pub fn write_chunk(algorithm: CryptoAlgorithm, key: &[u8], chunk: &[u8], out: &mut Vec<u8>) -> (r:
    Result<(), CryptoError>)
    requires
        chunk@.len() + 16 <= usize::MAX,
    ensures
        key@.len() != KEY_LEN ==> r == Err::<(), CryptoError>(CryptoError::InvalidKeyLength),
        key@.len() == KEY_LEN && !accepts_len(algorithm, chunk@.len()) ==> r == Err::<
            (),
            CryptoError,
        >(CryptoError::EncryptionFailed),
        key@.len() == KEY_LEN && accepts_len(algorithm, chunk@.len()) ==> r is Ok,
        r is Err ==> final(out)@ == old(out)@,
        r is Ok ==> exists|blob: Seq<u8>|
            {
                &&& #[trigger] is_encryption_of(blob, algorithm, key@, chunk@)
                &&& decrypted(algorithm, key@, blob) == Ok::<Seq<u8>, CryptoError>(chunk@)
                &&& final(out)@ == old(out)@ + frame(blob)
                &&& forall|more: Seq<u8>|
                    #[trigger] parsed_frame(frame(blob) + more) == Ok::<
                        (Seq<u8>, Seq<u8>),
                        CryptoError,
                    >((blob, more))
            },
{
    let blob = match encrypt(algorithm, key, chunk) {
        Ok(blob) => blob,
        Err(e) => {
            return Err(e);
        },
    };
    write_frame(blob.as_slice(), out);
    proof {
        assert(blob.len() == blob@.len());
        assert forall|more: Seq<u8>| #[trigger]
            parsed_frame(frame(blob@) + more) == Ok::<(Seq<u8>, Seq<u8>), CryptoError>(
                (blob@, more),
            ) by {
            lemma_parse_frame(blob@, more);
        }
        assert(is_encryption_of(blob@, algorithm, key@, chunk@));
    }
    Ok(())
}

/// Reads the header from the first bytes of a container, for a caller
/// that holds only those: `complete` says whether `prefix` is the whole
/// container. The answer is the header and where the chunks begin.
///
/// `None` asks for more bytes. An answer is final: it is what every
/// container that begins with `prefix` gives.
pub fn header_from_prefix(prefix: &[u8], complete: bool) -> (r: Option<
    Result<(ContainerHeader, usize), CryptoError>,
>)
    ensures
        complete ==> r is Some,
        !complete ==> (r is None <==> prefix@.len() < 6 || parsed_header(prefix@) == Err::<
            (ContainerHeader, Seq<u8>),
            CryptoError,
        >(CryptoError::UnexpectedEof)),
        r matches Some(Ok((header, start))) ==> start <= prefix@.len() && forall|more: Seq<u8>|
            (complete ==> more.len() == 0) ==> #[trigger] parsed_header(prefix@ + more) == Ok::<
                (ContainerHeader, Seq<u8>),
                CryptoError,
            >((header, prefix@.skip(start as int) + more)),
        r matches Some(Err(e)) ==> forall|more: Seq<u8>|
            (complete ==> more.len() == 0) ==> #[trigger] parsed_header(prefix@ + more) == Err::<
                (ContainerHeader, Seq<u8>),
                CryptoError,
            >(e),
{
    if !complete && prefix.len() < 6 {
        return None;
    }
    let answer = parse_header(prefix);
    if !complete {
        match answer {
            Err(CryptoError::UnexpectedEof) => {
                return None;
            },
            _ => {},
        }
    }
    proof {
        assert forall|more: Seq<u8>| (complete ==> more.len() == 0) implies match answer {
            Ok((header, start)) => #[trigger] parsed_header(prefix@ + more) == Ok::<
                (ContainerHeader, Seq<u8>),
                CryptoError,
            >((header, prefix@.skip(start as int) + more)),
            Err(e) => parsed_header(prefix@ + more) == Err::<
                (ContainerHeader, Seq<u8>),
                CryptoError,
            >(e),
        } by {
            if complete {
                assert(prefix@ + more =~= prefix@);
                if let Ok((header, start)) = answer {
                    assert(prefix@.skip(start as int) + more =~= prefix@.skip(start as int));
                }
            } else {
                lemma_header_settled(prefix@, more);
            }
        }
    }
    Some(answer)
}

/// Reads the length of the next chunk from the first bytes of what is
/// left of a container, for a caller that holds only those: `complete`
/// says whether `prefix` is all that is left. The answer is where in
/// `prefix` the blob begins and how long it is, so that the caller can
/// read that many bytes or pass over them; the blob may end behind
/// `prefix`.
///
/// `None` asks for more bytes: the length is not ended by `:` yet. An
/// answer is final: it holds of all that begins with `prefix`.
pub fn frame_from_prefix(prefix: &[u8], complete: bool) -> (r: Option<
    Result<(usize, usize), CryptoError>,
>)
    ensures
        complete ==> r is Some,
        r is None <==> !complete && split_field(prefix@) is None,
        r matches Some(Ok((from, len))) ==> 0 < from <= prefix@.len() && forall|more: Seq<u8>|
            (complete ==> more.len() == 0) ==> #[trigger] parsed_frame(prefix@ + more) == blob_at(
                prefix@ + more,
                from as int,
                len as int,
            ),
        r matches Some(Err(e)) ==> forall|more: Seq<u8>|
            (complete ==> more.len() == 0) ==> #[trigger] parsed_frame(prefix@ + more) == Err::<
                (Seq<u8>, Seq<u8>),
                CryptoError,
            >(e),
{
    assert(prefix@.skip(0) =~= prefix@);
    assert(prefix.len() == prefix@.len());
    let colon = match find_colon(prefix, 0) {
        Some(i) => i,
        None => {
            if complete {
                proof {
                    assert forall|more: Seq<u8>| more.len() == 0 implies #[trigger] parsed_frame(
                        prefix@ + more,
                    ) == Err::<(Seq<u8>, Seq<u8>), CryptoError>(CryptoError::UnexpectedEof) by {
                        assert(prefix@ + more =~= prefix@);
                    }
                }
                return Some(Err(CryptoError::UnexpectedEof));
            }
            return None;
        },
    };
    let from = colon + 1;
    let ghost field = prefix@.subrange(0, colon as int);
    let ghost after = prefix@.skip(from as int);
    let length = match parse_decimal(slice_subrange(prefix, 0, colon), usize::MAX as u64) {
        Some(v) => v as usize,
        None => {
            proof {
                assert forall|more: Seq<u8>| #[trigger]
                    parsed_frame(prefix@ + more) == Err::<(Seq<u8>, Seq<u8>), CryptoError>(
                        CryptoError::CorruptHeader,
                    ) by {
                    lemma_split_settled(prefix@, more);
                }
            }
            return Some(Err(CryptoError::CorruptHeader));
        },
    };
    if complete && length > prefix.len() - from {
        proof {
            assert forall|more: Seq<u8>| more.len() == 0 implies #[trigger] parsed_frame(
                prefix@ + more,
            ) == Err::<(Seq<u8>, Seq<u8>), CryptoError>(CryptoError::UnexpectedEof) by {
                assert(prefix@ + more =~= prefix@);
            }
        }
        return Some(Err(CryptoError::UnexpectedEof));
    }
    proof {
        assert forall|more: Seq<u8>| (complete ==> more.len() == 0) implies #[trigger] parsed_frame(
            prefix@ + more,
        ) == blob_at(prefix@ + more, from as int, length as int) by {
            lemma_split_settled(prefix@, more);
            let all = prefix@ + more;
            let rest = after + more;
            assert(rest =~= all.skip(from as int));
            if from + length <= all.len() {
                assert(rest.take(length as int) =~= all.subrange(from as int, from + length));
                assert(rest.skip(length as int) =~= all.skip(from + length));
            }
        }
    }
    Some(Ok((from, length)))
}

} // verus!
