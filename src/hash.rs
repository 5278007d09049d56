use vstd::prelude::*;


verus! {

/// The BLAKE3 digest of `b`, as 64 lower-case hexadecimal digits.
pub uninterp spec fn blake3_hex(b: Seq<u8>) -> Seq<char>;

/// Relies on `blake3::hash` and `blake3::Hash::to_hex`: the digest of the
/// bytes, written as two lower-case hexadecimal digits per digest byte.
#[verifier::external_body]
fn blake3_hex_digest(content: &[u8]) -> (r: String)
    ensures
        r@ == blake3_hex(content@),
        r@.len() == 64,
{
    blake3::hash(content).to_hex().to_string()
}

/// `expected` is the digest of `content`.
pub open spec fn hash_verifies(content: Seq<u8>, expected: Seq<char>) -> bool {
    blake3_hex(content) == expected
}

/// The content digest of `content`.
pub fn compute_hash(content: &[u8]) -> (r: crate::commit::Hash)
    ensures
        r@ == blake3_hex(content@),
        r@.len() == 64,
{
    blake3_hex_digest(content)
}

/// Whether `expected` is the content digest of `content`.
pub fn verify_hash(content: &[u8], expected: &crate::commit::Hash) -> (r: bool)
    ensures
        r == hash_verifies(content@, expected@),
{
    let actual = compute_hash(content);
    actual == *expected
}

/// Accepts a payload whose digest `actual` equals the recorded `expected`;
/// otherwise reports both.
pub fn check_digest(actual: String, expected: String) -> (r: crate::error::Result<()>)
    ensures
        r is Ok <==> actual@ == expected@,
        r matches Err(e) ==> (e matches crate::error::XFilesError::HashMismatch { expected: x, actual: a }
            && x@ == expected@ && a@ == actual@),
{
    if actual == expected {
        Ok(())
    } else {
        Err(crate::error::XFilesError::HashMismatch { expected, actual })
    }
}

/// Equal payloads have equal digests, and a payload verifies against its own
/// digest.
pub proof fn lemma_digest_deterministic(c1: Seq<u8>, c2: Seq<u8>)
    requires
        c1 == c2,
    ensures
        blake3_hex(c1) == blake3_hex(c2),
        hash_verifies(c1, blake3_hex(c2)),
{
}

} // verus!
