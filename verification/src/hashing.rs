//! SHA-256 digests and base58 text, the two outside computations that
//! migration names are built from.

use vstd::prelude::*;
use sha2::Digest;

verus! {

/// The SHA-256 digest of a byte string.
pub uninterp spec fn sha256_digest(data: Seq<u8>) -> Seq<u8>;

/// The base58 text (Bitcoin alphabet) of a byte string.
pub uninterp spec fn base58_text(data: Seq<u8>) -> Seq<char>;

/// A character of the Bitcoin base58 alphabet
/// `123456789ABCDEFGHJKLMNPQRSTUVWXYZabcdefghijkmnopqrstuvwxyz`.
pub open spec fn is_base58_char(c: char) -> bool {
    ||| ('1' <= c && c <= '9')
    ||| ('A' <= c && c <= 'Z' && c != 'I' && c != 'O')
    ||| ('a' <= c && c <= 'z' && c != 'l')
}

/// Calls `sha2::Sha256::digest`. Claimed: the result is the digest of the
/// input, named by `sha256_digest`, and is 32 bytes long (SHA-256's fixed
/// output size, `U32` in the crate's type).
#[verifier::external_body]
pub(crate) fn sha256(data: &[u8]) -> (res: Vec<u8>)
    ensures
        res@ == sha256_digest(data@),
        res@.len() == 32,
{
    sha2::Sha256::digest(data).to_vec()
}

/// Calls `bs58::encode(..).into_string()` with the default (Bitcoin)
/// alphabet. Claimed: the result is the base58 text of the input, named by
/// `base58_text`; every character of it comes from the alphabet (the
/// crate's `encode_into` writes only `alpha.encode[digit]`, leading zero
/// bytes as digit 0); it is at least as long as the input, since every
/// input byte, zero or not, yields at least one base-58 digit (58 < 256);
/// and it is at most `floor(1.3658 n) + 1` characters for `n` input bytes:
/// `z` leading zero bytes give `z` characters, and the value of the other
/// `r = n - z` bytes, below `256^r`, has at most `floor(r log58 256) + 1`
/// digits, where `log58 256 = 1.36566..`.
#[verifier::external_body]
pub(crate) fn base58(data: &[u8]) -> (res: String)
    ensures
        res@ == base58_text(data@),
        res@.len() >= data@.len(),
        10000 * res@.len() <= 13658 * data@.len() + 10000,
        forall|i: int| 0 <= i < res@.len() ==> is_base58_char(#[trigger] res@[i]),
{
    bs58::encode(data).into_string()
}

} // verus!
