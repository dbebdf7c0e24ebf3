//! The layout of a chunked container, field by field.
//!
//! ```text
//! "CHUNKS:" <original size> ":" <chunk size> ":"
//! { <blob length> ":" <blob> }*
//! ```
//!
//! The three kinds of number are decimal ASCII. A field ends at the next
//! `:`; a blob is taken by its length and may hold any byte.

use crate::decimal::{
    decimal, lemma_decimal_denotes, lemma_parse_decimal, parse_decimal, parsed_bounded,
    write_decimal,
};
use crate::error::CryptoError;
use vstd::prelude::*;
use vstd::slice::slice_subrange;

verus! {

/// The byte `:`, which ends every field.
pub const COLON: u8 = 58;

/// The bytes of the word `CHUNKS`, which a container begins with.
pub open spec fn tag() -> Seq<u8> {
    seq![67u8, 72u8, 85u8, 78u8, 75u8, 83u8]
}

/// The two sizes that a container's header records.
#[derive(Clone, Copy, Debug, PartialEq, Eq, Structural)]
pub struct ContainerHeader {
    /// The length of the plaintext that the container holds.
    pub original_size: u64,
    /// The length of every plaintext chunk but, possibly, the last.
    pub chunk_size: usize,
}

/// The field that ends at the first `:` of `s`, and what follows that `:`.
pub open spec fn split_field(s: Seq<u8>) -> Option<(Seq<u8>, Seq<u8>)> {
    match s.index_of_first(COLON) {
        Some(i) => Some((s.take(i), s.skip(i + 1))),
        None => None,
    }
}

/// The bytes of a header.
pub open spec fn header_bytes(header: ContainerHeader) -> Seq<u8> {
    tag() + seq![COLON] + decimal(header.original_size as nat) + seq![COLON] + decimal(
        header.chunk_size as nat,
    ) + seq![COLON]
}

/// The bytes of one chunk: the blob's length, `:`, the blob.
pub open spec fn frame(blob: Seq<u8>) -> Seq<u8> {
    decimal(blob.len()) + seq![COLON] + blob
}

/// The bytes of a run of chunks.
pub open spec fn frames(blobs: Seq<Seq<u8>>) -> Seq<u8>
    decreases blobs.len(),
{
    if blobs.len() == 0 {
        Seq::empty()
    } else {
        frames(blobs.drop_last()) + frame(blobs.last())
    }
}

/// What reading a header from the front of `bytes` gives: the header and
/// the bytes after it.
///
/// The bytes must begin with the tag, and the first field, which runs to
/// the first `:`, must be the tag and nothing more, else the format is
/// invalid. The two sizes follow, each ended by `:`. A field that no `:`
/// ends is an unexpected end; a size that is no decimal number in range
/// is a corrupt header.
pub open spec fn parsed_header(bytes: Seq<u8>) -> Result<(ContainerHeader, Seq<u8>), CryptoError> {
    if !tag().is_prefix_of(bytes) {
        Err(CryptoError::InvalidFormat)
    } else {
        match split_field(bytes) {
            None => Err(CryptoError::UnexpectedEof),
            Some((first, after_tag)) => if first != tag() {
                Err(CryptoError::InvalidFormat)
            } else {
                parsed_sizes(after_tag)
            },
        }
    }
}

/// What reading the two sizes gives, from behind the tag's `:` on.
pub open spec fn parsed_sizes(after_tag: Seq<u8>) -> Result<(ContainerHeader, Seq<u8>), CryptoError> {
    match split_field(after_tag) {
        None => Err(CryptoError::UnexpectedEof),
        Some((size_field, after_size)) => match parsed_bounded(size_field, u64::MAX as nat) {
            None => Err(CryptoError::CorruptHeader),
            Some(original_size) => match split_field(after_size) {
                None => Err(CryptoError::UnexpectedEof),
                Some((chunk_field, body)) => match parsed_bounded(chunk_field, usize::MAX as nat) {
                    None => Err(CryptoError::CorruptHeader),
                    Some(chunk_size) => Ok(
                        (
                            ContainerHeader {
                                original_size: original_size as u64,
                                chunk_size: chunk_size as usize,
                            },
                            body,
                        ),
                    ),
                },
            },
        },
    }
}

/// What reading one chunk from the front of `s` gives: the blob and the
/// bytes after it.
pub open spec fn parsed_frame(s: Seq<u8>) -> Result<(Seq<u8>, Seq<u8>), CryptoError> {
    match split_field(s) {
        None => Err(CryptoError::UnexpectedEof),
        Some((length_field, after)) => match parsed_bounded(length_field, usize::MAX as nat) {
            None => Err(CryptoError::CorruptHeader),
            Some(length) => if length > after.len() {
                Err(CryptoError::UnexpectedEof)
            } else {
                Ok((after.take(length as int), after.skip(length as int)))
            },
        },
    }
}

/// Where the first `:` stands, when it is known to stand at `i`.
pub proof fn lemma_first_colon(s: Seq<u8>, i: int)
    requires
        0 <= i < s.len(),
        s[i] == COLON,
        forall|j: int| 0 <= j < i ==> s[j] != COLON,
    ensures
        s.index_of_first(COLON) == Some(i),
        split_field(s) == Some((s.take(i), s.skip(i + 1))),
{
    s.index_of_first_ensures(COLON);
}

/// A sequence without any `:` has no field.
pub proof fn lemma_no_colon(s: Seq<u8>)
    requires
        forall|j: int| 0 <= j < s.len() ==> s[j] != COLON,
    ensures
        s.index_of_first(COLON) is None,
        split_field(s) is None,
{
    s.index_of_first_ensures(COLON);
}

/// What is left after a field is shorter than what the field was split from.
pub proof fn lemma_split_shortens(s: Seq<u8>)
    ensures
        split_field(s) matches Some((field, rest)) ==> field.len() + 1 + rest.len() == s.len()
            && s =~= field + seq![COLON] + rest && !field.contains(COLON),
{
    s.index_of_first_ensures(COLON);
}

/// A field that was written, followed by `:` and anything, is read back.
pub proof fn lemma_split_written(field: Seq<u8>, rest: Seq<u8>)
    requires
        forall|j: int| 0 <= j < field.len() ==> field[j] != COLON,
    ensures
        split_field(field + seq![COLON] + rest) == Some((field, rest)),
{
    let s = field + seq![COLON] + rest;
    let i = field.len() as int;
    lemma_first_colon(s, i);
}

/// A field is read the same whatever is added after the `:` that ends it.
pub proof fn lemma_split_settled(s: Seq<u8>, more: Seq<u8>)
    ensures
        split_field(s) matches Some((field, rest)) ==> split_field(s + more) == Some(
            (field, rest + more),
        ),
{
    lemma_split_shortens(s);
    if let Some((field, rest)) = split_field(s) {
        lemma_split_written(field, rest + more);
        assert(s + more =~= field + seq![COLON] + (rest + more));
    }
}

/// A number that was written, followed by `:` and anything, is read back.
pub proof fn lemma_split_number(n: nat, rest: Seq<u8>)
    ensures
        split_field(decimal(n) + seq![COLON] + rest) == Some((decimal(n), rest)),
{
    lemma_decimal_denotes(n);
    lemma_split_written(decimal(n), rest);
}

/// A header that was written, followed by anything, is read back.
pub proof fn lemma_parse_header(header: ContainerHeader, body: Seq<u8>)
    ensures
        parsed_header(header_bytes(header) + body) == Ok::<
            (ContainerHeader, Seq<u8>),
            CryptoError,
        >((header, body)),
{
    let size = decimal(header.original_size as nat);
    let chunk = decimal(header.chunk_size as nat);
    let after_size = chunk + seq![COLON] + body;
    let after_tag = size + seq![COLON] + after_size;
    let bytes = header_bytes(header) + body;
    assert(bytes =~= tag() + seq![COLON] + after_tag);
    lemma_split_written(tag(), after_tag);
    lemma_split_number(header.original_size as nat, after_size);
    lemma_split_number(header.chunk_size as nat, body);
    lemma_parse_decimal(header.original_size as nat);
    lemma_parse_decimal(header.chunk_size as nat);
}

/// Once a header is read, or found corrupt, or found to lack the tag
/// with six bytes or more in hand, it is read the same whatever is added
/// at the end.
pub proof fn lemma_header_settled(bytes: Seq<u8>, more: Seq<u8>)
    ensures
        parsed_header(bytes) matches Ok((header, body)) ==> parsed_header(bytes + more) == Ok::<
            (ContainerHeader, Seq<u8>),
            CryptoError,
        >((header, body + more)),
        parsed_header(bytes) == Err::<(ContainerHeader, Seq<u8>), CryptoError>(
            CryptoError::CorruptHeader,
        ) ==> parsed_header(bytes + more) == Err::<(ContainerHeader, Seq<u8>), CryptoError>(
            CryptoError::CorruptHeader,
        ),
        bytes.len() >= 6 && parsed_header(bytes) == Err::<(ContainerHeader, Seq<u8>), CryptoError>(
            CryptoError::InvalidFormat,
        ) ==> parsed_header(bytes + more) == Err::<(ContainerHeader, Seq<u8>), CryptoError>(
            CryptoError::InvalidFormat,
        ),
{
    if bytes.len() >= 6 {
        assert((bytes + more).subrange(0, 6) =~= bytes.subrange(0, 6));
    }
    if tag().is_prefix_of(bytes) {
        lemma_split_settled(bytes, more);
        if let Some((_, after_tag)) = split_field(bytes) {
            lemma_split_settled(after_tag, more);
            if let Some((_, after_size)) = split_field(after_tag) {
                lemma_split_settled(after_size, more);
            }
        }
    }
}

/// A chunk that was written, followed by anything, is read back.
pub proof fn lemma_parse_frame(blob: Seq<u8>, rest: Seq<u8>)
    requires
        blob.len() <= usize::MAX,
    ensures
        parsed_frame(frame(blob) + rest) == Ok::<(Seq<u8>, Seq<u8>), CryptoError>((blob, rest)),
{
    let after = blob + rest;
    assert(frame(blob) + rest =~= decimal(blob.len()) + seq![COLON] + after);
    lemma_split_number(blob.len(), after);
    lemma_parse_decimal(blob.len());
    assert(after.take(blob.len() as int) =~= blob);
    assert(after.skip(blob.len() as int) =~= rest);
}

/// A run of chunks begins with its first chunk.
pub proof fn lemma_frames_first(blobs: Seq<Seq<u8>>)
    requires
        blobs.len() > 0,
    ensures
        frames(blobs) == frame(blobs[0]) + frames(blobs.skip(1)),
    decreases blobs.len(),
{
    if blobs.len() == 1 {
        assert(blobs.drop_last() =~= Seq::<Seq<u8>>::empty());
        assert(blobs.skip(1) =~= Seq::<Seq<u8>>::empty());
    } else {
        lemma_frames_first(blobs.drop_last());
        assert(blobs.drop_last().skip(1) =~= blobs.skip(1).drop_last());
    }
}

/// The index of the first `:` at or after `start`; none if `start` lies
/// behind the end.
pub fn find_colon(bytes: &[u8], start: usize) -> (colon: Option<usize>)
    ensures
        start <= bytes@.len() ==> match split_field(bytes@.skip(start as int)) {
            Some((field, rest)) => colon matches Some(i) && start <= i < bytes@.len()
                && bytes@.subrange(start as int, i as int) == field && bytes@.skip(i + 1) == rest,
            None => colon is None,
        },
        start > bytes@.len() ==> colon is None,
        colon matches Some(i) ==> start <= i < bytes@.len(),
{
    if start > bytes.len() {
        return None;
    }
    let ghost tail = bytes@.skip(start as int);
    let mut i: usize = start;
    while i < bytes.len()
        invariant
            start <= i <= bytes@.len(),
            tail == bytes@.skip(start as int),
            forall|j: int| 0 <= j < i - start ==> tail[j] != COLON,
        decreases bytes@.len() - i,
    {
        if bytes[i] == COLON {
            proof {
                lemma_first_colon(tail, i - start);
            }
            return Some(i);
        }
        i += 1;
    }
    proof {
        lemma_no_colon(tail);
    }
    None
}

/// Whether `bytes` begins with the tag.
pub fn has_tag(bytes: &[u8]) -> (b: bool)
    ensures
        b == tag().is_prefix_of(bytes@),
{
    if bytes.len() < 6 {
        return false;
    }
    let b = bytes[0] == 67 && bytes[1] == 72 && bytes[2] == 85 && bytes[3] == 78 && bytes[4] == 75
        && bytes[5] == 83;
    proof {
        let prefix = bytes@.subrange(0, 6);
        if !b && tag() =~= prefix {
            assert(prefix[0] == 67 && prefix[1] == 72 && prefix[2] == 85 && prefix[3] == 78
                && prefix[4] == 75 && prefix[5] == 83);
        }
    }
    b
}

/// Appends a header to `out`.
pub fn write_header(header: ContainerHeader, out: &mut Vec<u8>)
    ensures
        final(out)@ == old(out)@ + header_bytes(header),
{
    out.push(67);
    out.push(72);
    out.push(85);
    out.push(78);
    out.push(75);
    out.push(83);
    out.push(COLON);
    write_decimal(header.original_size, out);
    out.push(COLON);
    write_decimal(header.chunk_size as u64, out);
    out.push(COLON);
}

/// Appends one chunk to `out`: the blob's length, `:`, the blob.
pub fn write_frame(blob: &[u8], out: &mut Vec<u8>)
    ensures
        final(out)@ == old(out)@ + frame(blob@),
{
    write_decimal(blob.len() as u64, out);
    out.push(COLON);
    out.extend_from_slice(blob);
}

/// Reads the header at the front of `bytes`, and says where the chunks begin.
pub fn parse_header(bytes: &[u8]) -> (r: Result<(ContainerHeader, usize), CryptoError>)
    ensures
        match parsed_header(bytes@) {
            Ok((header, body)) => r matches Ok((h, start)) && h == header && start <= bytes@.len()
                && bytes@.skip(start as int) == body,
            Err(e) => r == Err::<(ContainerHeader, usize), CryptoError>(e),
        },
        !tag().is_prefix_of(bytes@) ==> r == Err::<(ContainerHeader, usize), CryptoError>(
            CryptoError::InvalidFormat,
        ),
{
    if !has_tag(bytes) {
        return Err(CryptoError::InvalidFormat);
    }
    assert(bytes@.skip(0) =~= bytes@);
    assert(bytes.len() == bytes@.len());
    let tag_end = match find_colon(bytes, 0) {
        Some(i) => i,
        None => {
            return Err(CryptoError::UnexpectedEof);
        },
    };
    if tag_end != 6 {
        return Err(CryptoError::InvalidFormat);
    }
    assert(bytes@.subrange(0, 6) =~= tag());
    let size_end = match find_colon(bytes, tag_end + 1) {
        Some(i) => i,
        None => {
            return Err(CryptoError::UnexpectedEof);
        },
    };
    let original_size = match parse_decimal(slice_subrange(bytes, tag_end + 1, size_end), u64::MAX) {
        Some(v) => v,
        None => {
            return Err(CryptoError::CorruptHeader);
        },
    };
    let chunk_end = match find_colon(bytes, size_end + 1) {
        Some(i) => i,
        None => {
            return Err(CryptoError::UnexpectedEof);
        },
    };
    let chunk_size = match parse_decimal(
        slice_subrange(bytes, size_end + 1, chunk_end),
        usize::MAX as u64,
    ) {
        Some(v) => v as usize,
        None => {
            return Err(CryptoError::CorruptHeader);
        },
    };
    Ok((ContainerHeader { original_size, chunk_size }, chunk_end + 1))
}

/// Reads the chunk that begins at `start`: where its blob begins and
/// ends. A `start` behind the end is an unexpected end.
pub fn parse_frame(bytes: &[u8], start: usize) -> (r: Result<(usize, usize), CryptoError>)
    ensures
        start <= bytes@.len() ==> match parsed_frame(bytes@.skip(start as int)) {
            Ok((blob, rest)) => r matches Ok((from, to)) && start < from <= to <= bytes@.len()
                && bytes@.subrange(from as int, to as int) == blob && bytes@.skip(to as int)
                == rest,
            Err(e) => r == Err::<(usize, usize), CryptoError>(e),
        },
        start > bytes@.len() ==> r == Err::<(usize, usize), CryptoError>(
            CryptoError::UnexpectedEof,
        ),
{
    let colon = match find_colon(bytes, start) {
        Some(i) => i,
        None => {
            return Err(CryptoError::UnexpectedEof);
        },
    };
    let length = match parse_decimal(slice_subrange(bytes, start, colon), usize::MAX as u64) {
        Some(v) => v as usize,
        None => {
            return Err(CryptoError::CorruptHeader);
        },
    };
    assert(bytes.len() == bytes@.len());
    let from = colon + 1;
    if length > bytes.len() - from {
        return Err(CryptoError::UnexpectedEof);
    }
    Ok((from, from + length))
}

} // verus!
