//! The 128-bit string hash that identifies a node of a tree.
use siphasher::sip128::SipHasher24;
use vstd::prelude::*;

verus! {

/// The hash of a string: SipHash-2-4, keyed with zeros, over the string's
/// UTF-8 bytes, read as a `u128`.
pub uninterp spec fn str_hash(s: Seq<char>) -> u128;

/// Hashes `value` with `siphasher::sip128::SipHasher24::new().hash(..)`
/// (the zero-keyed 128-bit SipHash-2-4 of its UTF-8 bytes) and turns the
/// `Hash128` into a `u128` with `u128::from`. The contract claims only that
/// the result is a function of the string: `str_hash` names it.
#[verifier::external_body]
pub fn hash_str(value: &str) -> (h: u128)
    ensures
        h == str_hash(value@),
{
    u128::from(SipHasher24::new().hash(value.as_bytes()))
}

} // verus!
