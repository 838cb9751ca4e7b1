//! Naming passages and sections by the hash of what they hold.

use sha2::Digest;
use vstd::prelude::*;

use crate::text::is_hex_digit;

verus! {

/// The SHA-256 digest of some bytes, in hexadecimal.
pub uninterp spec fn digest(data: Seq<u8>) -> Seq<char>;

/// `sha2::Sha256::digest`, written with the `LowerHex` formatting of its
/// output: a function of the bytes alone, as 64 hexadecimal digits.
#[verifier::external_body]
pub fn hash(data: &[u8]) -> (r: String)
    ensures
        r@ == digest(data@),
        r@.len() == 64,
        forall|i: int| 0 <= i < r@.len() ==> is_hex_digit(#[trigger] r@[i]),
{
    format!("{:x}", sha2::Sha256::digest(data))
}

} // verus!
