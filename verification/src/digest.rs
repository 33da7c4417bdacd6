//! Content digests: 256-bit BLAKE3 hashes rendered as 64 lowercase
//! hexadecimal characters, used uniformly for chunks, trees and commits.

use vstd::prelude::*;

verus! {

/// A lowercase hexadecimal digit character.
pub open spec fn is_lower_hex_char(c: char) -> bool {
    ('0' <= c && c <= '9') || ('a' <= c && c <= 'f')
}

/// A well-formed content digest: exactly 64 lowercase hexadecimal
/// characters.
pub open spec fn is_digest(s: Seq<char>) -> bool {
    s.len() == 64 && forall|i: int| 0 <= i < s.len() ==> is_lower_hex_char(#[trigger] s[i])
}

/// The 64-character lowercase hexadecimal BLAKE3 digest of a byte
/// sequence.  Equal inputs always give equal digests.
pub uninterp spec fn digest_of(data: Seq<u8>) -> Seq<char>;

/// Relies on blake3::hash and blake3::Hash::to_hex: the hash is a pure
/// function of the input bytes alone, and to_hex renders it as exactly
/// 64 lowercase hexadecimal characters.
#[verifier::external_body]
pub fn compute_chunk_hash(data: &[u8]) -> (r: String)
    ensures
        r@ == digest_of(data@),
        is_digest(r@),
{
    blake3::hash(data).to_hex().to_string()
}

} // verus!
