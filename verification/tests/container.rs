use file_crypto::container::{
    chunk_decrypt, chunk_encrypt, chunk_encrypt_with_nonces, chunk_size_from_mb,
    chunked_metadata, count_chunks, decrypt_single_chunk, frame_from_prefix,
    header_from_prefix, metadata_from_prefix, write_chunk, ChunkedMetadata,
};
use file_crypto::crypto::{decrypt, encrypt, encrypt_with_nonce, CryptoAlgorithm};
use file_crypto::decimal::{parse_decimal, write_decimal};
use file_crypto::error::CryptoError;
use file_crypto::format::{
    find_colon, has_tag, parse_frame, parse_header, write_frame, write_header, ContainerHeader,
};

const BOTH: [CryptoAlgorithm; 2] = [CryptoAlgorithm::Aes, CryptoAlgorithm::Chacha20Poly1305];

fn sample(len: usize) -> Vec<u8> {
    (0..len).map(|i| (i * 31 + 58) as u8).collect()
}

fn decimal(n: u64) -> Vec<u8> {
    let mut out = Vec::new();
    write_decimal(n, &mut out);
    out
}

#[test]
fn numbers_are_written_in_decimal() {
    assert_eq!(decimal(0), b"0".to_vec());
    assert_eq!(decimal(7), b"7".to_vec());
    assert_eq!(decimal(10), b"10".to_vec());
    assert_eq!(decimal(1048576), b"1048576".to_vec());
    assert_eq!(decimal(u64::MAX), b"18446744073709551615".to_vec());
    let mut out = b"CHUNKS:".to_vec();
    write_decimal(305, &mut out);
    assert_eq!(out, b"CHUNKS:305".to_vec());
}

#[test]
fn numbers_are_read_back() {
    for n in [0u64, 1, 9, 10, 99, 100, 12345, u32::MAX as u64, u64::MAX - 1, u64::MAX] {
        assert_eq!(parse_decimal(&decimal(n), u64::MAX), Some(n));
    }
    assert_eq!(parse_decimal(b"007", u64::MAX), Some(7));
    assert_eq!(parse_decimal(b"+42", u64::MAX), Some(42));
    assert_eq!(parse_decimal(b"000000000000000000000000001", 1), Some(1));
}

#[test]
fn fields_that_are_no_numbers_are_refused() {
    for field in [
        &b""[..],
        b"+",
        b"-1",
        b"++1",
        b"1+",
        b"12a",
        b"a12",
        b" 12",
        b"12 ",
        b"1.5",
        b"0x10",
        b"\xff",
    ] {
        assert_eq!(parse_decimal(field, u64::MAX), None);
    }
}

#[test]
fn numbers_above_the_bound_are_refused() {
    assert_eq!(parse_decimal(b"18446744073709551615", u64::MAX), Some(u64::MAX));
    assert_eq!(parse_decimal(b"18446744073709551616", u64::MAX), None);
    assert_eq!(parse_decimal(b"99999999999999999999999", u64::MAX), None);
    assert_eq!(parse_decimal(b"255", 255), Some(255));
    assert_eq!(parse_decimal(b"256", 255), None);
    assert_eq!(parse_decimal(b"0", 0), Some(0));
    assert_eq!(parse_decimal(b"1", 0), None);
    assert_eq!(parse_decimal(b"10", 9), None);
}

#[test]
fn colons_are_found() {
    assert_eq!(find_colon(b"ab:cd:e", 0), Some(2));
    assert_eq!(find_colon(b"ab:cd:e", 2), Some(2));
    assert_eq!(find_colon(b"ab:cd:e", 3), Some(5));
    assert_eq!(find_colon(b"ab:cd:e", 6), None);
    assert_eq!(find_colon(b"ab:cd:e", 7), None);
    assert_eq!(find_colon(b"", 0), None);
    assert_eq!(find_colon(b"ab:cd:e", 8), None);
    assert_eq!(find_colon(b":", usize::MAX), None);
}

#[test]
fn header_layout() {
    let mut out = Vec::new();
    write_header(ContainerHeader { original_size: 11, chunk_size: 16 }, &mut out);
    assert_eq!(out, b"CHUNKS:11:16:".to_vec());
    assert!(has_tag(&out));
    assert!(!has_tag(b"CHUNK"));
    assert!(!has_tag(b"chunks:1:1:"));
    assert_eq!(
        parse_header(&out),
        Ok((ContainerHeader { original_size: 11, chunk_size: 16 }, 13))
    );
    out.extend_from_slice(b"trailing");
    assert_eq!(
        parse_header(&out),
        Ok((ContainerHeader { original_size: 11, chunk_size: 16 }, 13))
    );
}

#[test]
fn frame_layout() {
    let mut out = Vec::new();
    write_frame(b"a:b", &mut out);
    assert_eq!(out, b"3:a:b".to_vec());
    write_frame(b"", &mut out);
    write_frame(b"0123456789", &mut out);
    assert_eq!(out, b"3:a:b0:10:0123456789".to_vec());
    assert_eq!(parse_frame(&out, 0), Ok((2, 5)));
    assert_eq!(parse_frame(&out, 5), Ok((7, 7)));
    assert_eq!(parse_frame(&out, 7), Ok((10, 20)));
    assert_eq!(parse_frame(&out, 20), Err(CryptoError::UnexpectedEof));
    assert_eq!(parse_frame(b"5:abcd", 0), Err(CryptoError::UnexpectedEof));
    assert_eq!(parse_frame(b"x:abcd", 0), Err(CryptoError::CorruptHeader));
    assert_eq!(parse_frame(b"12", 0), Err(CryptoError::UnexpectedEof));
    assert_eq!(parse_frame(b"1:a", 4), Err(CryptoError::UnexpectedEof));
    assert_eq!(parse_frame(b"+1:a", 0), Ok((3, 4)));
    assert_eq!(parse_frame(b"18446744073709551616:a", 0), Err(CryptoError::CorruptHeader));
}

#[test]
fn chunk_counts() {
    assert_eq!(count_chunks(0, 16), 0);
    assert_eq!(count_chunks(1, 16), 1);
    assert_eq!(count_chunks(16, 16), 1);
    assert_eq!(count_chunks(17, 16), 2);
    assert_eq!(count_chunks(32, 16), 2);
    assert_eq!(count_chunks(100, 1), 100);
    assert_eq!(count_chunks(100, 0), 0);
    assert_eq!(count_chunks(0, 0), 0);
    assert_eq!(count_chunks(u64::MAX, 1), u64::MAX);
    assert_eq!(count_chunks(u64::MAX, 2), u64::MAX / 2 + 1);
}

#[test]
fn chunk_sizes_in_mebibytes() {
    assert_eq!(chunk_size_from_mb(0), Some(0));
    assert_eq!(chunk_size_from_mb(1), Some(1048576));
    assert_eq!(chunk_size_from_mb(10), Some(10485760));
    let largest = u32::MAX as u64 * 1048576;
    if largest <= usize::MAX as u64 {
        assert_eq!(chunk_size_from_mb(u32::MAX), Some(largest as usize));
    } else {
        assert_eq!(chunk_size_from_mb(u32::MAX), None);
    }
}

#[test]
fn hello_world_in_one_chunk() {
    let key = [0u8; 32];
    let plaintext = b"hello world";
    let written = chunk_encrypt(CryptoAlgorithm::Aes, &key, plaintext, 16).unwrap();
    assert_eq!(written.total_chunks, 1);
    assert_eq!(written.bytes[..13], b"CHUNKS:11:16:"[..]);
    // One AES blob of an IV and one padded block follows its length.
    assert_eq!(written.bytes[13..16], b"32:"[..]);
    assert_eq!(written.bytes.len(), 16 + 32);
    let read = chunk_decrypt(CryptoAlgorithm::Aes, &key, &written.bytes).unwrap();
    assert_eq!(read.data.len(), 11);
    assert_eq!(read.data, plaintext.to_vec());
    assert_eq!(read.total_chunks, 1);
    assert_eq!(read.original_size, 11);
    assert_eq!(read.chunk_size, 16);
    assert_eq!(
        decrypt_single_chunk(CryptoAlgorithm::Aes, &key, &written.bytes, 0),
        Ok(plaintext.to_vec())
    );
    assert_eq!(
        decrypt(CryptoAlgorithm::Aes, &key, &written.bytes[16..]),
        Ok(plaintext.to_vec())
    );
}

#[test]
fn chunked_round_trip() {
    let key = [11u8; 32];
    for algorithm in BOTH {
        for size in [0usize, 1, 15, 16, 17, 31, 32, 33, 64, 100, 257] {
            for chunk_size in [1usize, 2, 7, 16, 32, 100, 1000] {
                let input = sample(size);
                let written = chunk_encrypt(algorithm, &key, &input, chunk_size).unwrap();
                let expected = ((size + chunk_size - 1) / chunk_size) as u64;
                assert_eq!(written.total_chunks, expected);
                let read = chunk_decrypt(algorithm, &key, &written.bytes).unwrap();
                assert_eq!(read.data, input);
                assert_eq!(read.total_chunks, expected);
                assert_eq!(read.original_size, size as u64);
                assert_eq!(read.chunk_size, chunk_size);
            }
        }
    }
}

#[test]
fn random_access_gives_the_slice() {
    let key = [12u8; 32];
    for algorithm in BOTH {
        for (size, chunk_size) in [(100usize, 16usize), (64, 16), (5, 16), (33, 1), (48, 24)] {
            let input = sample(size);
            let written = chunk_encrypt(algorithm, &key, &input, chunk_size).unwrap();
            for index in 0..written.total_chunks as usize {
                let from = index * chunk_size;
                let to = std::cmp::min(from + chunk_size, size);
                assert_eq!(
                    decrypt_single_chunk(algorithm, &key, &written.bytes, index as u32),
                    Ok(input[from..to].to_vec())
                );
            }
            assert_eq!(
                decrypt_single_chunk(
                    algorithm,
                    &key,
                    &written.bytes,
                    written.total_chunks as u32
                ),
                Err(CryptoError::UnexpectedEof)
            );
        }
    }
}

#[test]
fn metadata_needs_the_header_only() {
    let key = [13u8; 32];
    let input = sample(100);
    let written = chunk_encrypt(CryptoAlgorithm::Chacha20Poly1305, &key, &input, 16).unwrap();
    let expected = ChunkedMetadata { total_chunks: 7, original_size: 100, chunk_size: 16 };
    assert_eq!(written.total_chunks, 7);
    assert_eq!(chunked_metadata(&written.bytes), Ok(expected));
    let header_only = b"CHUNKS:100:16:".to_vec();
    assert_eq!(written.bytes[..header_only.len()], header_only[..]);
    assert_eq!(chunked_metadata(&header_only), Ok(expected));
    assert_eq!(
        chunk_decrypt(CryptoAlgorithm::Chacha20Poly1305, &key, &header_only).unwrap_err(),
        CryptoError::UnexpectedEof
    );
}

#[test]
fn metadata_of_odd_headers() {
    assert_eq!(
        chunked_metadata(b"CHUNKS:10:0:"),
        Ok(ChunkedMetadata { total_chunks: 0, original_size: 10, chunk_size: 0 })
    );
    assert_eq!(
        chunked_metadata(b"CHUNKS:+10:03:"),
        Ok(ChunkedMetadata { total_chunks: 4, original_size: 10, chunk_size: 3 })
    );
    assert_eq!(
        chunked_metadata(b"CHUNKS:18446744073709551615:1:"),
        Ok(ChunkedMetadata {
            total_chunks: u64::MAX,
            original_size: u64::MAX,
            chunk_size: 1
        })
    );
}

#[test]
fn files_without_the_tag_are_no_containers() {
    let key = [0u8; 32];
    for bytes in [
        &b""[..],
        b"hello",
        b"CHUNK",
        b"CHUNK:1:1:",
        b"chunks:1:1:",
        b"XCHUNKS:1:1:",
        b":CHUNKS:1:1:",
        b"CHU:NKS:1:1:",
        b"CHUNKSX:0:16:",
        b"CHUNKSv2:10:5:",
        b"CHUNKS :10:5:",
        b"CHUNKSCHUNKS:10:5:",
    ] {
        assert_eq!(chunked_metadata(bytes), Err(CryptoError::InvalidFormat));
        for algorithm in BOTH {
            assert_eq!(
                chunk_decrypt(algorithm, &key, bytes).unwrap_err(),
                CryptoError::InvalidFormat
            );
            assert_eq!(
                decrypt_single_chunk(algorithm, &key, bytes, 0),
                Err(CryptoError::InvalidFormat)
            );
        }
    }
}

#[test]
fn size_fields_that_are_no_numbers_corrupt_the_header() {
    let key = [0u8; 32];
    for bytes in [
        &b"CHUNKS:abc:16:"[..],
        b"CHUNKS::16:",
        b"CHUNKS:11:x:",
        b"CHUNKS:11::",
        b"CHUNKS:-1:16:",
        b"CHUNKS:1 1:16:",
        b"CHUNKS:18446744073709551616:16:",
    ] {
        assert_eq!(chunked_metadata(bytes), Err(CryptoError::CorruptHeader));
        assert_eq!(
            chunk_decrypt(CryptoAlgorithm::Aes, &key, bytes).unwrap_err(),
            CryptoError::CorruptHeader
        );
        assert_eq!(
            decrypt_single_chunk(CryptoAlgorithm::Aes, &key, bytes, 0),
            Err(CryptoError::CorruptHeader)
        );
    }
}

#[test]
fn headers_that_end_early() {
    for bytes in [&b"CHUNKS"[..], b"CHUNKS:", b"CHUNKS:11", b"CHUNKS:11:", b"CHUNKS:11:16"] {
        assert_eq!(chunked_metadata(bytes), Err(CryptoError::UnexpectedEof));
    }
}

#[test]
fn chunk_lengths_that_are_no_numbers_corrupt_the_container() {
    let key = [0u8; 32];
    assert_eq!(
        chunk_decrypt(CryptoAlgorithm::Aes, &key, b"CHUNKS:5:16:zz:abcdef").unwrap_err(),
        CryptoError::CorruptHeader
    );
    assert_eq!(
        decrypt_single_chunk(CryptoAlgorithm::Aes, &key, b"CHUNKS:5:16:zz:abcdef", 0),
        Err(CryptoError::CorruptHeader)
    );
    assert_eq!(
        decrypt_single_chunk(CryptoAlgorithm::Aes, &key, b"CHUNKS:5:16:2:ab?:", 1),
        Err(CryptoError::CorruptHeader)
    );
}

#[test]
fn containers_that_end_early() {
    let key = [14u8; 32];
    let input = sample(40);
    let written = chunk_encrypt(CryptoAlgorithm::Aes, &key, &input, 16).unwrap();
    let cut = &written.bytes[..written.bytes.len() - 1];
    assert_eq!(
        chunk_decrypt(CryptoAlgorithm::Aes, &key, cut).unwrap_err(),
        CryptoError::UnexpectedEof
    );
    assert_eq!(
        decrypt_single_chunk(CryptoAlgorithm::Aes, &key, cut, 2),
        Err(CryptoError::UnexpectedEof)
    );
    assert_eq!(
        decrypt_single_chunk(CryptoAlgorithm::Aes, &key, cut, 1),
        Ok(input[16..32].to_vec())
    );
}

#[test]
fn boundaries() {
    let key = [15u8; 32];
    for algorithm in BOTH {
        let empty = chunk_encrypt(algorithm, &key, &[], 16).unwrap();
        assert_eq!(empty.total_chunks, 0);
        assert_eq!(empty.bytes, b"CHUNKS:0:16:".to_vec());
        let read = chunk_decrypt(algorithm, &key, &empty.bytes).unwrap();
        assert_eq!(read.total_chunks, 0);
        assert!(read.data.is_empty());
        assert_eq!(
            chunked_metadata(&empty.bytes),
            Ok(ChunkedMetadata { total_chunks: 0, original_size: 0, chunk_size: 16 })
        );

        let input = sample(48);
        let exact = chunk_encrypt(algorithm, &key, &input, 16).unwrap();
        assert_eq!(exact.total_chunks, 3);
        let last = decrypt_single_chunk(algorithm, &key, &exact.bytes, 2).unwrap();
        assert_eq!(last.len(), 16);
        assert_eq!(last, input[32..].to_vec());
    }
}

#[test]
fn chunk_size_zero_writes_no_chunk() {
    let key = [16u8; 32];
    let written = chunk_encrypt(CryptoAlgorithm::Aes, &key, b"lost", 0).unwrap();
    assert_eq!(written.total_chunks, 0);
    assert_eq!(written.bytes, b"CHUNKS:4:0:".to_vec());
    assert_eq!(
        chunk_decrypt(CryptoAlgorithm::Aes, &key, &written.bytes).unwrap_err(),
        CryptoError::UnexpectedEof
    );
    let nothing = chunk_encrypt(CryptoAlgorithm::Aes, &key, b"", 0).unwrap();
    assert_eq!(nothing.bytes, b"CHUNKS:0:0:".to_vec());
    let read = chunk_decrypt(CryptoAlgorithm::Aes, &key, &nothing.bytes).unwrap();
    assert!(read.data.is_empty());
    assert_eq!(read.total_chunks, 0);
}

#[test]
fn the_key_is_checked_first() {
    for algorithm in BOTH {
        for len in [31usize, 33] {
            let key = vec![0u8; len];
            assert_eq!(
                chunk_encrypt(algorithm, &key, b"", 16).unwrap_err(),
                CryptoError::InvalidKeyLength
            );
            assert_eq!(
                chunk_encrypt(algorithm, &key, b"data", 16).unwrap_err(),
                CryptoError::InvalidKeyLength
            );
            assert_eq!(
                chunk_decrypt(algorithm, &key, b"not a container").unwrap_err(),
                CryptoError::InvalidKeyLength
            );
            assert_eq!(
                decrypt_single_chunk(algorithm, &key, b"CHUNKS:0:16:", 0),
                Err(CryptoError::InvalidKeyLength)
            );
        }
    }
}

#[test]
fn chunks_are_encrypted_independently() {
    let key = [17u8; 32];
    let input = vec![42u8; 64];
    for algorithm in BOTH {
        let written = chunk_encrypt(algorithm, &key, &input, 16).unwrap();
        let (_, start) = parse_header(&written.bytes).unwrap();
        let mut blobs = Vec::new();
        let mut pos = start;
        while pos < written.bytes.len() {
            let (from, to) = parse_frame(&written.bytes, pos).unwrap();
            blobs.push(written.bytes[from..to].to_vec());
            pos = to;
        }
        assert_eq!(blobs.len(), 4);
        let n = algorithm.nonce_len();
        for (i, a) in blobs.iter().enumerate() {
            assert_eq!(decrypt(algorithm, &key, a), Ok(vec![42u8; 16]));
            for b in &blobs[i + 1..] {
                assert_ne!(a[..n], b[..n]);
            }
        }
    }
}

#[test]
fn the_reader_goes_by_the_chunk_lengths() {
    // A reader does not need the writer's chunk size: chunks of any
    // length are read until the announced size is reached, and what
    // follows is not looked at.
    let key = [18u8; 32];
    let algorithm = CryptoAlgorithm::Chacha20Poly1305;
    let mut bytes = Vec::new();
    write_header(ContainerHeader { original_size: 10, chunk_size: 1000 }, &mut bytes);
    write_frame(&encrypt(algorithm, &key, b"abc").unwrap(), &mut bytes);
    write_frame(&encrypt(algorithm, &key, b"defghij").unwrap(), &mut bytes);
    bytes.extend_from_slice(b"garbage:after:the:end");
    let read = chunk_decrypt(algorithm, &key, &bytes).unwrap();
    assert_eq!(read.data, b"abcdefghij".to_vec());
    assert_eq!(read.total_chunks, 2);
    assert_eq!(read.chunk_size, 1000);
    assert_eq!(decrypt_single_chunk(algorithm, &key, &bytes, 1), Ok(b"defghij".to_vec()));
}

#[test]
fn a_wrong_key_fails_in_the_first_chunk() {
    let key = [19u8; 32];
    let other = [20u8; 32];
    let written =
        chunk_encrypt(CryptoAlgorithm::Chacha20Poly1305, &key, &sample(50), 16).unwrap();
    assert_eq!(
        chunk_decrypt(CryptoAlgorithm::Chacha20Poly1305, &other, &written.bytes).unwrap_err(),
        CryptoError::AuthenticationFailed
    );
    assert_eq!(
        decrypt_single_chunk(CryptoAlgorithm::Chacha20Poly1305, &other, &written.bytes, 3),
        Err(CryptoError::AuthenticationFailed)
    );
}

#[test]
fn metadata_from_the_first_bytes() {
    let expected = ChunkedMetadata { total_chunks: 7, original_size: 100, chunk_size: 16 };
    let container = b"CHUNKS:100:16:44:and the chunks follow";
    // Too short to hold the tag, or a field still open: more is asked for.
    for cut in [0usize, 1, 5, 6, 7, 10, 11, 13] {
        assert_eq!(metadata_from_prefix(&container[..cut], false), None);
    }
    // The header is whole: the answer stands whatever follows.
    for cut in 14..container.len() {
        assert_eq!(metadata_from_prefix(&container[..cut], false), Some(Ok(expected)));
        assert_eq!(metadata_from_prefix(&container[..cut], true), Some(Ok(expected)));
    }
    // At the end of the input there is nothing more to ask for.
    assert_eq!(metadata_from_prefix(b"", true), Some(Err(CryptoError::InvalidFormat)));
    assert_eq!(metadata_from_prefix(b"CHUNK", true), Some(Err(CryptoError::InvalidFormat)));
    assert_eq!(
        metadata_from_prefix(b"CHUNKS:100:1", true),
        Some(Err(CryptoError::UnexpectedEof))
    );
    // A failure that more bytes cannot mend is final at once.
    assert_eq!(metadata_from_prefix(b"NOTAGS", false), Some(Err(CryptoError::InvalidFormat)));
    assert_eq!(
        metadata_from_prefix(b"CHUNKS:1x0:", false),
        Some(Err(CryptoError::CorruptHeader))
    );
    assert_eq!(metadata_from_prefix(b"CHUNKS:1x0", false), None);
}

#[test]
fn the_first_field_is_the_tag_and_nothing_more() {
    let key = [0u8; 32];
    assert_eq!(
        chunk_decrypt(CryptoAlgorithm::Aes, &key, b"CHUNKSX:0:16:").unwrap_err(),
        CryptoError::InvalidFormat
    );
    assert!(chunk_decrypt(CryptoAlgorithm::Aes, &key, b"CHUNKS:0:16:").is_ok());
    assert_eq!(parse_header(b"CHUNKSX:0:16:"), Err(CryptoError::InvalidFormat));
    // Without a `:` the first field has not ended yet.
    assert_eq!(parse_header(b"CHUNKSX"), Err(CryptoError::UnexpectedEof));
    assert_eq!(metadata_from_prefix(b"CHUNKSX", false), None);
    assert_eq!(metadata_from_prefix(b"CHUNKSX:", false), Some(Err(CryptoError::InvalidFormat)));
}

#[test]
fn chunks_are_sealed_under_the_given_nonces() {
    let key = [21u8; 32];
    let input = sample(40);
    for algorithm in BOTH {
        let n = algorithm.nonce_len();
        let nonces: Vec<Vec<u8>> = (0..3u8).map(|i| vec![i + 1; n]).collect();
        let written = chunk_encrypt_with_nonces(algorithm, &key, &input, 16, &nonces).unwrap();
        assert_eq!(written.total_chunks, 3);
        let mut expected = b"CHUNKS:40:16:".to_vec();
        for (i, nonce) in nonces.iter().enumerate() {
            let to = std::cmp::min(16 * (i + 1), 40);
            let blob = encrypt_with_nonce(algorithm, &key, nonce, &input[16 * i..to]).unwrap();
            write_frame(&blob, &mut expected);
        }
        assert_eq!(written.bytes, expected);
        assert_eq!(chunk_decrypt(algorithm, &key, &written.bytes).unwrap().data, input);
        // A spare nonce is not used.
        let mut spare = nonces.clone();
        spare.push(vec![9u8; n]);
        assert_eq!(
            chunk_encrypt_with_nonces(algorithm, &key, &input, 16, &spare).unwrap().bytes,
            expected
        );
    }
}

#[test]
fn nonces_must_be_there_and_fit() {
    let key = [22u8; 32];
    let input = sample(40);
    let two = vec![vec![1u8; 16], vec![2u8; 16]];
    assert_eq!(
        chunk_encrypt_with_nonces(CryptoAlgorithm::Aes, &key, &input, 16, &two).unwrap_err(),
        CryptoError::InvalidNonceLength
    );
    let short = vec![vec![1u8; 16], vec![2u8; 12], vec![3u8; 16]];
    assert_eq!(
        chunk_encrypt_with_nonces(CryptoAlgorithm::Aes, &key, &input, 16, &short).unwrap_err(),
        CryptoError::InvalidNonceLength
    );
    // Only the nonces that chunks are sealed under are looked at.
    let spare = vec![vec![1u8; 16], vec![2u8; 16], vec![3u8; 16], vec![4u8; 1]];
    assert!(chunk_encrypt_with_nonces(CryptoAlgorithm::Aes, &key, &input, 16, &spare).is_ok());
    assert!(chunk_encrypt_with_nonces(CryptoAlgorithm::Aes, &key, &[], 16, &[]).is_ok());
    assert_eq!(
        chunk_encrypt_with_nonces(CryptoAlgorithm::Aes, &key[..31], &input, 16, &two)
            .unwrap_err(),
        CryptoError::InvalidKeyLength
    );
}

#[test]
fn one_chunk_at_a_time() {
    let key = [23u8; 32];
    let input = sample(70);
    for algorithm in BOTH {
        let mut container = Vec::new();
        write_header(ContainerHeader { original_size: 70, chunk_size: 32 }, &mut container);
        for chunk in input.chunks(32) {
            let before = container.len();
            assert_eq!(write_chunk(algorithm, &key, chunk, &mut container), Ok(()));
            let (from, to) = parse_frame(&container, before).unwrap();
            assert_eq!(to, container.len());
            assert_eq!(decrypt(algorithm, &key, &container[from..to]), Ok(chunk.to_vec()));
        }
        let read = chunk_decrypt(algorithm, &key, &container).unwrap();
        assert_eq!(read.data, input);
        assert_eq!(read.total_chunks, 3);
        let before = container.clone();
        assert_eq!(
            write_chunk(algorithm, &key[..31], b"chunk", &mut container),
            Err(CryptoError::InvalidKeyLength)
        );
        assert_eq!(container, before);
    }
}

#[test]
fn header_from_the_first_bytes() {
    let header = ContainerHeader { original_size: 100, chunk_size: 16 };
    let container = b"CHUNKS:100:16:44:and the chunks follow";
    for cut in [0usize, 5, 6, 7, 10, 13] {
        assert_eq!(header_from_prefix(&container[..cut], false), None);
    }
    for cut in 14..container.len() {
        assert_eq!(header_from_prefix(&container[..cut], false), Some(Ok((header, 14))));
        assert_eq!(header_from_prefix(&container[..cut], true), Some(Ok((header, 14))));
    }
    assert_eq!(header_from_prefix(b"CHUNKS:100:1", true), Some(Err(CryptoError::UnexpectedEof)));
    assert_eq!(header_from_prefix(b"CHUNK", true), Some(Err(CryptoError::InvalidFormat)));
    assert_eq!(header_from_prefix(b"CHUNKSX:", false), Some(Err(CryptoError::InvalidFormat)));
    assert_eq!(header_from_prefix(b"CHUNKS:x:", false), Some(Err(CryptoError::CorruptHeader)));
}

#[test]
fn chunk_extent_from_the_first_bytes() {
    // The length is not ended yet: more is asked for.
    assert_eq!(frame_from_prefix(b"", false), None);
    assert_eq!(frame_from_prefix(b"12", false), None);
    // The length is read: the blob begins behind the `:`, wherever it ends.
    assert_eq!(frame_from_prefix(b"12:", false), Some(Ok((3, 12))));
    assert_eq!(frame_from_prefix(b"12:abc", false), Some(Ok((3, 12))));
    assert_eq!(frame_from_prefix(b"3:abcdef", false), Some(Ok((2, 3))));
    assert_eq!(frame_from_prefix(b"3:abcdef", true), Some(Ok((2, 3))));
    assert_eq!(frame_from_prefix(b"0:", true), Some(Ok((2, 0))));
    // Nothing more will come: a blob that ends behind the end is cut off.
    assert_eq!(frame_from_prefix(b"12:abc", true), Some(Err(CryptoError::UnexpectedEof)));
    assert_eq!(frame_from_prefix(b"12", true), Some(Err(CryptoError::UnexpectedEof)));
    assert_eq!(frame_from_prefix(b"", true), Some(Err(CryptoError::UnexpectedEof)));
    assert_eq!(frame_from_prefix(b"1x:abc", false), Some(Err(CryptoError::CorruptHeader)));
    assert_eq!(frame_from_prefix(b":abc", true), Some(Err(CryptoError::CorruptHeader)));
}
