use carsync::digest::{bytes_equal, calculate_checksum, checksums_match, sha256_chunk};
use sha2::{Digest, Sha256};

fn hex_of(bytes: &[u8]) -> String {
    bytes.iter().map(|b| format!("{:02x}", b)).collect()
}

#[test]
fn checksum_of_abc_is_the_known_digest() {
    let sum = calculate_checksum(b"abc");
    assert_eq!(
        hex_of(&sum),
        "ba7816bf8f01cfea414140de5dae2223b00361a396177a9cb410ff61f20015ad"
    );
}

#[test]
fn checksum_of_empty_file_is_the_known_digest() {
    let sum = calculate_checksum(b"");
    assert_eq!(sum.len(), 32);
    assert_eq!(
        hex_of(&sum),
        "e3b0c44298fc1c149afbf4c8996fb92427ae41e4649b934ca495991b7852b855"
    );
}

#[test]
fn checksum_agrees_with_sha2_on_large_input() {
    let data: Vec<u8> = (0..2_000_000u32).map(|i| (i % 251) as u8).collect();
    let expected = Sha256::digest(&data).to_vec();
    assert_eq!(calculate_checksum(&data), expected);
}

#[test]
fn chunk_digest_matches_checksum() {
    let data = b"the quick brown fox jumps over the lazy dog";
    let chunk = sha256_chunk(data);
    assert_eq!(chunk.to_vec(), calculate_checksum(data));
    assert_ne!(chunk.to_vec(), data[..32].to_vec());
}

#[test]
fn equal_contents_have_matching_checksums() {
    assert!(checksums_match(b"same bytes", b"same bytes"));
    assert!(checksums_match(b"", b""));
}

#[test]
fn different_contents_have_different_checksums() {
    assert!(!checksums_match(b"same bytes", b"same bytez"));
    assert!(!checksums_match(b"short", b"shorter"));
}

#[test]
fn bytes_equal_compares_lengths_and_contents() {
    assert!(bytes_equal(&[1, 2, 3], &[1, 2, 3]));
    assert!(!bytes_equal(&[1, 2, 3], &[1, 2, 4]));
    assert!(!bytes_equal(&[1, 2], &[1, 2, 3]));
    assert!(bytes_equal(&[], &[]));
}
