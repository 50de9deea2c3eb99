//! Fingerprints: the short, never empty digests that the filter stores.

use vstd::arithmetic::power2::{lemma2_to64, pow2};
use vstd::laws_eq::obeys_concrete_eq;
use vstd::prelude::*;

use crate::le::{le_bytes, le_value, push_le, value_le};

verus! {

/// The fingerprint of `bits` bits that a hash yields, as a number: the lowest
/// bits of the hash, with 1 in place of the reserved value 0.
pub open spec fn folded_hash(h: u64, bits: u8) -> u64 {
    let low = (h as nat % pow2(bits as nat)) as u64;
    if low == 0 {
        1
    } else {
        low
    }
}

/// A fingerprint type: an unsigned integer of one or two bytes whose value 0
/// marks an empty slot.
pub trait Fingerprint: Copy + Eq + std::fmt::Debug {
    /// The marker of an empty slot.
    const EMPTY: Self;

    /// The width in bits.
    const BITS: u8;

    /// The width in bits, as a specification.
    spec fn bits() -> u8;

    /// The fingerprint as a number.
    spec fn code(self) -> u64;

    /// The fingerprint that has `c` as its number.
    spec fn of_code(c: u64) -> Self;

    /// What makes a type usable as a fingerprint: it is one or two bytes wide,
    /// `code` and `of_code` are inverse to each other, the empty marker is 0,
    /// and `==` and `clone` mean equality.
    proof fn fingerprint_facts()
        ensures
            Self::BITS == Self::bits(),
            Self::bits() == 8 || Self::bits() == 16,
            Self::EMPTY.code() == 0,
            forall|fp: Self| (#[trigger] fp.code()) < pow2(Self::bits() as nat),
            forall|fp: Self| Self::of_code(#[trigger] fp.code()) == fp,
            forall|c: u64| c < pow2(Self::bits() as nat) ==> (#[trigger] Self::of_code(c)).code() == c,
            obeys_concrete_eq::<Self>(),
            forall|a: Self, b: Self| #[trigger] cloned(a, b) ==> a == b,
    ;

    /// The fingerprint of a hash.
    fn from_hash(h: u64) -> (fp: Self)
        ensures
            fp == Self::of_code(folded_hash(h, Self::bits())),
            h as nat % pow2(Self::bits() as nat) != 0 ==> fp.code() == h as nat % pow2(
                Self::bits() as nat,
            ),
            h as nat % pow2(Self::bits() as nat) == 0 ==> fp.code() == 1,
    ;

    /// The fingerprint as an integer.
    fn to_u64(self) -> (x: u64)
        ensures
            x == self.code(),
    ;

    /// Appends the fingerprint in little-endian order.
    fn write_le(self, buf: &mut Vec<u8>)
        ensures
            final(buf)@ == old(buf)@ + le_bytes(self.code() as nat, (Self::bits() / 8) as nat),
    ;

    /// Reads a fingerprint in little-endian order and moves past it.
    fn read_le(bytes: &[u8], pos: &mut usize) -> (fp: Self)
        requires
            *old(pos) + Self::bits() / 8 <= bytes@.len(),
        ensures
            *final(pos) == *old(pos) + Self::bits() / 8,
            fp == Self::of_code(
                le_value(bytes@.subrange(*old(pos) as int, *old(pos) + Self::bits() / 8)) as u64,
            ),
    ;
}

impl Fingerprint for u8 {
    const EMPTY: Self = 0;

    const BITS: u8 = 8;

    open spec fn bits() -> u8 {
        8
    }

    open spec fn code(self) -> u64 {
        self as u64
    }

    open spec fn of_code(c: u64) -> Self {
        c as u8
    }

    proof fn fingerprint_facts()
        ensures
            Self::BITS == 8,
            Self::EMPTY == 0,
            forall|fp: u8| #[trigger] fp.code() == fp,
            forall|c: u64| c < 0x100 ==> #[trigger] Self::of_code(c) == c,
    {
        lemma2_to64();
        reveal(obeys_concrete_eq);
    }

    fn from_hash(h: u64) -> (fp: Self)
        ensures
            h % 0x100 != 0 ==> fp == h % 0x100,
            h % 0x100 == 0 ==> fp == 1,
    {
        proof {
            lemma2_to64();
            assert(h & 0xFF == h % 0x100) by (bit_vector);
        }
        let fp: u8 = (h & 0xFF) as u8;
        if fp == 0 {
            1
        } else {
            fp
        }
    }

    fn to_u64(self) -> (x: u64)
        ensures
            x == self,
    {
        u64::from(self)
    }

    fn write_le(self, buf: &mut Vec<u8>)
        ensures
            final(buf)@ == old(buf)@.push(self),
    {
        proof {
            reveal_with_fuel(le_bytes, 3);
        }
        push_le(buf, u64::from(self), 1);
    }

    fn read_le(bytes: &[u8], pos: &mut usize) -> (fp: Self)
        ensures
            fp == bytes@[*old(pos) as int],
            *final(pos) == *old(pos) + 1,
    {
        assert(bytes@.len() == bytes.len());
        proof {
            reveal_with_fuel(le_value, 3);
        }
        let x: u64 = value_le(&bytes[*pos..*pos + 1]);
        *pos = *pos + 1;
        x as u8
    }
}

impl Fingerprint for u16 {
    const EMPTY: Self = 0;

    const BITS: u8 = 16;

    open spec fn bits() -> u8 {
        16
    }

    open spec fn code(self) -> u64 {
        self as u64
    }

    open spec fn of_code(c: u64) -> Self {
        c as u16
    }

    proof fn fingerprint_facts()
        ensures
            Self::BITS == 16,
            Self::EMPTY == 0,
            forall|fp: u16| #[trigger] fp.code() == fp,
            forall|c: u64| c < 0x1_0000 ==> #[trigger] Self::of_code(c) == c,
    {
        lemma2_to64();
        reveal(obeys_concrete_eq);
    }

    fn from_hash(h: u64) -> (fp: Self)
        ensures
            h % 0x1_0000 != 0 ==> fp == h % 0x1_0000,
            h % 0x1_0000 == 0 ==> fp == 1,
    {
        proof {
            lemma2_to64();
            assert(h & 0xFFFF == h % 0x1_0000) by (bit_vector);
        }
        let fp: u16 = (h & 0xFFFF) as u16;
        if fp == 0 {
            1
        } else {
            fp
        }
    }

    fn to_u64(self) -> (x: u64)
        ensures
            x == self,
    {
        u64::from(self)
    }

    fn write_le(self, buf: &mut Vec<u8>)
        ensures
            final(buf)@ == old(buf)@.push((self % 256) as u8).push((self / 256) as u8),
    {
        proof {
            reveal_with_fuel(le_bytes, 3);
        }
        push_le(buf, u64::from(self), 2);
    }

    fn read_le(bytes: &[u8], pos: &mut usize) -> (fp: Self)
        ensures
            fp == bytes@[*old(pos) as int] + 256 * bytes@[*old(pos) + 1],
            *final(pos) == *old(pos) + 2,
    {
        assert(bytes@.len() == bytes.len());
        proof {
            reveal_with_fuel(le_value, 3);
        }
        let x: u64 = value_le(&bytes[*pos..*pos + 2]);
        *pos = *pos + 2;
        x as u16
    }
}

} // verus!
