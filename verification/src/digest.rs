//! SHA-256 digests of file contents and of transfer blocks.

use sha2::{Digest, Sha256};
use vstd::prelude::*;

verus! {

/// The SHA-256 digest of a byte sequence, as the `sha2` crate computes it.
pub uninterp spec fn sha256_of(data: Seq<u8>) -> Seq<u8>;

/// Calls `<sha2::Sha256 as digest::Digest>::digest` and copies the 32-byte output into an array.
/// The contract claims only that the array holds the digest of `data`; what that digest is,
/// is left to the `sha2` crate and named by `sha256_of`.
#[verifier::external_body]
fn sha256_digest(data: &[u8]) -> (digest: [u8; 32])
    ensures
        digest@ == sha256_of(data@),
{
    let output = Sha256::digest(data);
    let mut digest = [0u8; 32];
    digest.copy_from_slice(&output);
    digest
}

/// The SHA-256 digest of one block of a file.
pub fn sha256_chunk(chunk: &[u8]) -> (digest: [u8; 32])
    ensures
        digest@ == sha256_of(chunk@),
{
    sha256_digest(chunk)
}

/// The SHA-256 checksum of a whole file's contents.
pub fn calculate_checksum(contents: &[u8]) -> (checksum: Vec<u8>)
    ensures
        checksum@ == sha256_of(contents@),
        checksum@.len() == 32,
{
    let digest = sha256_digest(contents);
    let mut checksum: Vec<u8> = Vec::with_capacity(32);
    for i in 0..32usize
        invariant
            checksum@ == digest@.take(i as int),
    {
        checksum.push(digest[i]);
    }
    assert(checksum@ == digest@);
    checksum
}

/// Whether two byte sequences are equal, element by element.
pub fn bytes_equal(a: &[u8], b: &[u8]) -> (equal: bool)
    ensures
        equal == (a@ == b@),
{
    if a.len() != b.len() {
        return false;
    }
    for i in 0..a.len()
        invariant
            a@.len() == b@.len(),
            forall|j: int| 0 <= j < i ==> a@[j] == b@[j],
    {
        if a[i] != b[i] {
            return false;
        }
    }
    assert(a@ =~= b@);
    true
}

/// Whether two files have the same SHA-256 checksum.
pub fn checksums_match(source: &[u8], destination: &[u8]) -> (matched: bool)
    ensures
        matched == (sha256_of(source@) == sha256_of(destination@)),
{
    let source_hash = calculate_checksum(source);
    let destination_hash = calculate_checksum(destination);
    bytes_equal(source_hash.as_slice(), destination_hash.as_slice())
}

} // verus!
