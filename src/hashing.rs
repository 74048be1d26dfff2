//! Content digests: the identity of every stored object.
use vstd::prelude::*;
use sha1::Digest;

verus! {

/// The lowercase hexadecimal SHA-1 digest of `data`.
pub uninterp spec fn sha1_hex(data: Seq<u8>) -> Seq<char>;

pub open spec fn is_hex_digit(c: char) -> bool {
    ('0' <= c && c <= '9') || ('a' <= c && c <= 'f')
}

/// What an object identity looks like: forty lowercase hex digits.
pub open spec fn is_object_id(s: Seq<char>) -> bool {
    s.len() == 40 && forall|i: int| 0 <= i < s.len() ==> is_hex_digit(#[trigger] s[i])
}

/// Relies on `sha1::Sha1` (`new`, `update`, `finalize`) and the `LowerHex`
/// form of its 20-byte output: two lowercase hex digits per byte.
#[verifier::external_body]
pub fn calculate_hash(content: &[u8]) -> (r: String)
    ensures
        r@ == sha1_hex(content@),
        is_object_id(r@),
{
    let mut hasher = sha1::Sha1::new();
    hasher.update(content);
    format!("{:x}", hasher.finalize())
}

} // verus!
