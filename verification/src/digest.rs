//! SHA-256 digests and their lowercase hex spelling.

use vstd::prelude::*;

use sha2::Digest;

verus! {

/// The SHA-256 digest of some bytes.
pub uninterp spec fn sha256_of(data: Seq<u8>) -> Seq<u8>;

/// `sha2::Sha256::digest`: the 32-byte SHA-256 digest of `data`.
#[verifier::external_body]
pub(crate) fn sha256(data: &[u8]) -> (d: Vec<u8>)
    ensures
        d@ == sha256_of(data@),
        d@.len() == 32,
{
    sha2::Sha256::digest(data).to_vec()
}

pub open spec fn hex_digit(n: nat) -> char {
    if n < 10 {
        crate::text::digit_char(n)
    } else if n == 10 { 'a' } else if n == 11 { 'b' } else if n == 12 { 'c' }
    else if n == 13 { 'd' } else if n == 14 { 'e' } else { 'f' }
}

/// Each byte as two lowercase hex digits, high nibble first.
pub open spec fn hex_lower_spec(b: Seq<u8>) -> Seq<char>
    decreases b.len(),
{
    if b.len() == 0 {
        Seq::empty()
    } else {
        hex_lower_spec(b.drop_last()) + seq![hex_digit((b.last() / 16) as nat), hex_digit((b.last() % 16) as nat)]
    }
}

/// `hex::encode`: every byte as two lowercase hex digits, in order.
#[verifier::external_body]
pub(crate) fn hex_encode(data: &[u8]) -> (s: String)
    ensures
        s@ == hex_lower_spec(data@),
{
    hex::encode(data)
}

/// The lowercase hex spelling of the SHA-256 digest of some bytes.
pub open spec fn hex_sha256_spec(data: Seq<u8>) -> Seq<char> {
    hex_lower_spec(sha256_of(data))
}

/// The lowercase hex spelling of the SHA-256 digest of `data`.
pub fn hex_sha256(data: &[u8]) -> (s: String)
    ensures
        s@ == hex_sha256_spec(data@),
{
    let d = sha256(data);
    hex_encode(d.as_slice())
}

proof fn lemma_hex_len(b: Seq<u8>)
    ensures
        hex_lower_spec(b).len() == 2 * b.len(),
    decreases b.len(),
{
    if b.len() > 0 {
        lemma_hex_len(b.drop_last());
    }
}

/// The hex spelling of a digest is 64 characters long.
pub proof fn hex_sha256_is_64_chars(data: Seq<u8>)
    requires
        sha256_of(data).len() == 32,
    ensures
        hex_sha256_spec(data).len() == 64,
{
    lemma_hex_len(sha256_of(data));
}

} // verus!
