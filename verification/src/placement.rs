//! Where an item lives, in numbers: the laws of fingerprints and buckets.

use vstd::arithmetic::div_mod::lemma_small_mod;
use vstd::arithmetic::power::pow;
use vstd::arithmetic::power2::{
    is_pow2, is_pow2_equiv, lemma2_to64, lemma2_to64_rest, lemma_pow2,
    lemma_pow2_strictly_increases, pow2,
};
use vstd::bits::lemma_u64_low_bits_mask_is_mod;
use vstd::prelude::*;

use crate::fingerprint::Fingerprint;
use crate::sip::siphash13;
use crate::state::FilterState;

verus! {

/// To mask with the predecessor of a power of two is to take the remainder by that
/// power.
pub proof fn lemma_mask_is_remainder(x: u64, n: u64)
    requires
        is_pow2(n as int),
    ensures
        n > 0,
        x & ((n - 1) as u64) == x % n,
{
    is_pow2_equiv(n as int);
    let i: nat = choose|i: nat| pow(2, i) == n;
    lemma_pow2(i);
    lemma2_to64_rest();
    if i >= 64 {
        assert(pow2(64) == 0x1_0000_0000_0000_0000);
        if i > 64 {
            lemma_pow2_strictly_increases(64, i);
        }
    }
    lemma_u64_low_bits_mask_is_mod(x, i);
    assert(n > 0) by {
        reveal(is_pow2);
    }
}

/// The fingerprint of a hash is its remainder by 2 to the width in bits, whole and
/// unchanged, but for the remainder 0, which gives way to 1.
pub proof fn law_fingerprint_is_remainder<F: Fingerprint>(h: u64)
    ensures
        h as nat % pow2(F::bits() as nat) != 0 ==> FilterState::<F>::fingerprint(h).code() == h
            as nat % pow2(F::bits() as nat),
        h as nat % pow2(F::bits() as nat) == 0 ==> FilterState::<F>::fingerprint(h).code() == 1,
{
    F::fingerprint_facts();
    lemma2_to64();
}

/// Two hashes have the same fingerprint if and only if their remainders by 2 to the
/// width in bits are equal, or are 0 and 1.
pub proof fn law_fingerprints_tell_apart<F: Fingerprint>(h: u64, g: u64)
    ensures
        FilterState::<F>::fingerprint(h) == FilterState::<F>::fingerprint(g) <==> {
            let r = h as nat % pow2(F::bits() as nat);
            let q = g as nat % pow2(F::bits() as nat);
            r == q || (r <= 1 && q <= 1)
        },
{
    F::fingerprint_facts();
    lemma2_to64();
    law_fingerprint_is_remainder::<F>(h);
    law_fingerprint_is_remainder::<F>(g);
}

/// Every fingerprint but the marker of an empty slot is the fingerprint of a hash: of
/// its own number.
pub proof fn law_every_fingerprint_occurs<F: Fingerprint>(fp: F)
    ensures
        fp.code() != 0 ==> FilterState::<F>::fingerprint(fp.code()) == fp,
        fp.code() == 0 <==> fp == F::EMPTY,
{
    F::fingerprint_facts();
    lemma2_to64();
    assert(fp.code() < pow2(F::bits() as nat));
    lemma_small_mod(fp.code() as nat, pow2(F::bits() as nat));
    law_fingerprint_is_remainder::<F>(fp.code());
    assert(F::of_code(FilterState::<F>::fingerprint(fp.code()).code())
        == FilterState::<F>::fingerprint(fp.code()));
}

/// The first bucket of a hash is made of all of its bits from 16 up: with a power of
/// two of buckets, it is their number's remainder by the bucket count.
pub proof fn law_first_bucket_is_remainder<F: Fingerprint>(s: FilterState<F>, h: u64)
    requires
        0 < s.bucket_count <= usize::MAX,
    ensures
        s.index1(h) == (h / 0x1_0000) & (s.bucket_count - 1) as u64,
        is_pow2(s.bucket_count as int) ==> s.index1(h) == (h as nat / 0x1_0000) % s.bucket_count,
{
    assert(h >> 16 == h / 0x1_0000) by (bit_vector);
    if is_pow2(s.bucket_count as int) {
        lemma_mask_is_remainder(h / 0x1_0000, s.bucket_count as u64);
    }
}

/// Every bucket is the first bucket of a hash, with any fingerprint, where the bucket
/// count is a power of two and a hash has the bits for it.
pub proof fn law_every_bucket_occurs<F: Fingerprint>(s: FilterState<F>, b: nat, fp: F)
    requires
        is_pow2(s.bucket_count as int),
        s.bucket_count <= usize::MAX,
        b < s.bucket_count,
        b < 0x1_0000_0000_0000,
        fp != F::EMPTY,
    ensures
        exists|h: u64|
            #[trigger] s.index1(h) == b && FilterState::<F>::fingerprint(h) == fp,
{
    F::fingerprint_facts();
    lemma2_to64();
    law_every_fingerprint_occurs(fp);
    let h: u64 = (b * 0x1_0000 + fp.code()) as u64;
    law_first_bucket_is_remainder(s, h);
    law_fingerprints_tell_apart::<F>(h, fp.code());
    assert(h / 0x1_0000 == b);
    assert(b % s.bucket_count == b) by (nonlinear_arith)
        requires
            b < s.bucket_count,
    ;
    assert(h % 0x1_0000 == fp.code());
    assert(h % 0x1_0000 == fp.code() && fp.code() < 0x100 ==> h % 0x100 == fp.code());
    assert(s.index1(h) == b);
}

/// The two buckets of an entry differ by the product of its fingerprint and the mixing
/// constant `0x5bd1_e995`: with a power of two of buckets, by the product's remainder
/// by the bucket count.
pub proof fn law_other_bucket_is_product<F: Fingerprint>(s: FilterState<F>, b: nat, fp: F)
    requires
        0 < s.bucket_count <= usize::MAX,
    ensures
        s.alt_index(b, fp) == (b as u64) ^ ((fp.code() * 0x5bd1_e995) as u64
            & (s.bucket_count - 1) as u64),
        is_pow2(s.bucket_count as int) ==> s.alt_index(b, fp) == (b as u64) ^ ((fp.code()
            * 0x5bd1_e995) % (s.bucket_count as int)) as u64,
{
    F::fingerprint_facts();
    lemma2_to64();
    assert(fp.code() < 0x1_0000);
    if is_pow2(s.bucket_count as int) {
        lemma_mask_is_remainder((fp.code() * 0x5bd1_e995) as u64, s.bucket_count as u64);
    }
}

/// The place of an item, from the hash of all of its bytes under the seed: the
/// fingerprint from the low bits, the first bucket from the bits from 16 up, the second
/// from the first and the fingerprint.
pub proof fn law_place_of_item<F: Fingerprint>(s: FilterState<F>, item: Seq<u8>)
    requires
        0 < s.bucket_count <= usize::MAX,
    ensures
        ({
            let h = siphash13(s.seed, item);
            let r = h as nat % pow2(F::bits() as nat);
            let (i1, i2, fp) = s.place(item);
            &&& fp.code() == (if r == 0 {
                1
            } else {
                r
            })
            &&& i1 == (h / 0x1_0000) & (s.bucket_count - 1) as u64
            &&& i2 == (i1 as u64) ^ ((fp.code() * 0x5bd1_e995) as u64 & (s.bucket_count
                - 1) as u64)
            &&& is_pow2(s.bucket_count as int) ==> {
                &&& i1 == (h as nat / 0x1_0000) % s.bucket_count
                &&& i2 == (i1 as u64) ^ ((fp.code() * 0x5bd1_e995) % (
                s.bucket_count as int)) as u64
            }
        }),
{
    let h = siphash13(s.seed, item);
    law_fingerprint_is_remainder::<F>(h);
    law_first_bucket_is_remainder(s, h);
    law_other_bucket_is_product(s, s.index1(h), FilterState::<F>::fingerprint(h));
}

/// Two items look the same to a filter if and only if the hashes of all of their bytes
/// have the same fingerprint, and first buckets that are equal or differ by what the
/// fingerprint makes of the mixing constant. Items with equal hashes look the same;
/// items whose hashes have different fingerprints never do.
pub proof fn law_alike_by_hashes<F: Fingerprint>(s: FilterState<F>, a: Seq<u8>, b: Seq<u8>)
    requires
        0 < s.bucket_count <= usize::MAX,
    ensures
        ({
            let h = siphash13(s.seed, a);
            let g = siphash13(s.seed, b);
            let r = h as nat % pow2(F::bits() as nat);
            let q = g as nat % pow2(F::bits() as nat);
            let m = (s.bucket_count - 1) as u64;
            let c: int = if r == 0 {
                1
            } else {
                r as int
            };
            &&& h == g ==> s.alike(a, b)
            &&& s.alike(a, b) <==> {
                &&& r == q || (r <= 1 && q <= 1)
                &&& (h / 0x1_0000) & m == (g / 0x1_0000) & m || (g / 0x1_0000) & m == ((h
                    / 0x1_0000) & m) ^ ((c * 0x5bd1_e995) as u64 & m)
            }
        }),
{
    let h = siphash13(s.seed, a);
    let g = siphash13(s.seed, b);
    law_place_of_item(s, a);
    law_place_of_item(s, b);
    law_fingerprints_tell_apart::<F>(h, g);
}

} // verus!
