//! The keyed hash function of the filter.

use siphasher::sip::SipHasher13;
use std::hash::Hasher;
use vstd::prelude::*;

verus! {

/// SipHash-1-3 of `data` under the 16-byte key `key`, as `siphasher` computes it.
pub uninterp spec fn siphash13(key: Seq<u8>, data: Seq<u8>) -> u64;

/// Hashes `data` under `key` with `siphasher::sip::SipHasher13`: a hasher made by
/// `new_with_key` is fed the bytes by one `write` and asked for its `finish`.
/// Trusted: the result is a function of the key bytes and the data bytes alone.
#[verifier::external_body]
pub(crate) fn sip13(key: &[u8; 16], data: &[u8]) -> (h: u64)
    ensures
        h == siphash13(key@, data@),
{
    let mut hasher = SipHasher13::new_with_key(key);
    hasher.write(data);
    hasher.finish()
}

} // verus!
