//! SHA-256 digests of artifacts, rendered as lowercase hex as Cargo's index
//! `cksum` field writes them.

use vstd::prelude::*;
use sha2::Digest;

verus! {

/// The SHA-256 digest of `data`, as `sha2::Sha256` computes it.
pub uninterp spec fn sha256(data: Seq<u8>) -> Seq<u8>;

/// The lowercase hex digit for `n < 16`.
pub open spec fn hex_digit(n: u8) -> char {
    if n < 10 {
        (48 + n) as char
    } else {
        (87 + n) as char
    }
}

/// Lowercase hex rendering: two digits per byte, high nibble first.
pub open spec fn hex_lower(bytes: Seq<u8>) -> Seq<char>
    decreases bytes.len(),
{
    if bytes.len() == 0 {
        Seq::empty()
    } else {
        hex_lower(bytes.drop_last()) + seq![
            hex_digit(bytes.last() / 16),
            hex_digit(bytes.last() % 16),
        ]
    }
}

/// `sha2::Sha256::digest`: the digest is a function of the data alone, and
/// is 32 bytes long (`Output<Sha256>` is a 32-byte array).
#[verifier::external_body]
fn sha256_digest(data: &[u8]) -> (r: Vec<u8>)
    ensures
        r@ == sha256(data@),
        r@.len() == 32,
{
    sha2::Sha256::digest(data).to_vec()
}

/// `hex::encode`: each byte becomes two lowercase hex digits, high nibble
/// first (the crate's `HEX_CHARS_LOWER` table indexed by `byte >> 4` and
/// `byte & 0x0f`).
#[verifier::external_body]
fn hex_encode(data: &[u8]) -> (r: String)
    ensures
        r@ == hex_lower(data@),
{
    hex::encode(data)
}

/// The lowercase hex SHA-256 of `data`, the form of an index `cksum`.
pub fn sha256_hex(data: &[u8]) -> (r: Vec<char>)
    ensures
        r@ == hex_lower(sha256(data@)),
        r@.len() == 64,
{
    let digest = sha256_digest(data);
    let text = hex_encode(digest.as_slice());
    proof {
        lemma_hex_lower_len(sha256(data@));
    }
    crate::text::chars_of(text.as_str())
}

/// Hex rendering doubles the length.
pub proof fn lemma_hex_lower_len(bytes: Seq<u8>)
    ensures
        hex_lower(bytes).len() == 2 * bytes.len(),
    decreases bytes.len(),
{
    if bytes.len() > 0 {
        lemma_hex_lower_len(bytes.drop_last());
    }
}

} // verus!
