//! Writing a filter to bytes, and reading it back.

use vstd::arithmetic::power2::is_pow2;
use vstd::laws_eq::obeys_concrete_eq;
use vstd::prelude::*;

use crate::filter::Filter;
use crate::fingerprint::Fingerprint;
use crate::layout::{
    number_at, table_at, table_bytes, table_offset, FORMAT_VERSION, HEADER_LEN, MAGIC,
    MAX_BUCKET_COUNT, MAX_BUCKET_SIZE,
};
use crate::le::{le_value, lemma_byte_powers, lemma_le_value_bound, push_le, value_le};
use crate::lemmas::lemma_power_of_two_bits;
use crate::roundtrip::{law_encoded_len, law_written_once};
use crate::state::FilterState;

verus! {

/// What can be wrong with bytes that are read as a filter.
#[derive(Debug)]
pub enum ImportError {
    /// There are fewer bytes than a header has.
    TooShort,
    /// The bytes do not start as the format does.
    BadMagic,
    /// The format version is another.
    UnsupportedVersion(u8),
    /// No fingerprints are that wide. Not an error of `import`, which is asked for
    /// fingerprints of one width.
    UnsupportedFpBits(u8),
    /// The fingerprints have another width than those of the filter.
    FpBitsMismatch { expected: u8, got: u8 },
    /// No fingerprint has these bytes. Not an error of `import`, to which all slots
    /// make sense.
    InvalidFingerprint,
    /// The victim flag is neither 0 nor 1.
    InvalidVictimFlag(u8),
    /// There are more or fewer bytes than the header announces.
    SizeMismatch,
    /// The bucket count is not a power of two.
    InvalidBucketCount,
    /// The bucket size is 0.
    InvalidBucketSize,
    /// There are more buckets than the format allows or the machine can hold.
    BucketCountTooLarge,
    /// There are more slots in a bucket than the format allows.
    BucketSizeTooLarge,
    /// There are more items than the slots and the victim can hold.
    InvalidNumItems,
    /// The victim's bucket is not a bucket number, or not 0 without a victim.
    InvalidVictimBucketId,
    /// The victim's fingerprint is 0, or not 0 without a victim.
    InvalidVictimFp,
    /// The item count is not the number of entries.
    CensusMismatch,
}

/// Whether `x` is a power of two.
fn is_power_of_two(x: u64) -> (res: bool)
    ensures
        res == is_pow2(x as int),
{
    proof {
        reveal(is_pow2);
    }
    if x == 0 {
        return false;
    }
    proof {
        lemma_power_of_two_bits(x);
    }
    x & (x - 1) == 0
}

/// Reads eight bytes as a little-endian number and moves past them.
pub fn read_64(bytes: &[u8], pos: &mut usize) -> (x: u64)
    requires
        *old(pos) + 8 <= bytes@.len(),
    ensures
        x == number_at(bytes@, *old(pos) as int, 8),
        x == le_value(bytes@.subrange(*old(pos) as int, *old(pos) + 8)),
        *final(pos) == *old(pos) + 8,
{
    value_le(read_bytes(bytes, 8, pos))
}

/// Reads four bytes as a little-endian number and moves past them.
pub fn read_32(bytes: &[u8], pos: &mut usize) -> (x: u32)
    requires
        *old(pos) + 4 <= bytes@.len(),
    ensures
        x == number_at(bytes@, *old(pos) as int, 4),
        x == le_value(bytes@.subrange(*old(pos) as int, *old(pos) + 4)),
        *final(pos) == *old(pos) + 4,
{
    let digits = read_bytes(bytes, 4, pos);
    proof {
        lemma_le_value_bound(digits@);
        lemma_byte_powers();
    }
    value_le(digits) as u32
}

/// Reads `n` bytes and moves past them.
pub fn read_bytes<'a>(bytes: &'a [u8], n: usize, pos: &mut usize) -> (s: &'a [u8])
    requires
        *old(pos) + n <= bytes@.len(),
    ensures
        s@ == bytes@.subrange(*old(pos) as int, *old(pos) + n),
        *final(pos) == *old(pos) + n,
{
    assert(bytes@.len() == bytes.len());
    let s = &bytes[*pos..*pos + n];
    *pos = *pos + n;
    s
}

/// Reads 16 bytes and moves past them.
fn read_seed(bytes: &[u8], pos: &mut usize) -> (seed: [u8; 16])
    requires
        *old(pos) + 16 <= bytes@.len(),
    ensures
        seed@ == bytes@.subrange(*old(pos) as int, *old(pos) + 16),
        *final(pos) == *old(pos) + 16,
{
    let s = read_bytes(bytes, 16, pos);
    let seed: [u8; 16] = [
        s[0], s[1], s[2], s[3], s[4], s[5], s[6], s[7], s[8], s[9], s[10], s[11], s[12], s[13],
        s[14], s[15],
    ];
    assert(seed@ =~= s@);
    seed
}

impl<F: Fingerprint> Filter<F> {
    /// Writes the filter in the byte format, version 1.
    ///
    /// All integers are little-endian.
    ///
    /// | bytes | field | on import |
    /// |---|---|---|
    /// | 2 | `CF` | must be there |
    /// | 1 | format version | must be known |
    /// | 1 | bits of a fingerprint | must be 8 or 16, and those of the filter |
    /// | 8 | item count | at most slots + 1; must be the number of entries |
    /// | 8 | bucket count | a power of two, at most 2^32 |
    /// | 8 | bucket size | 1 to 255 |
    /// | 4 | displacement limit | |
    /// | 16 | seed | |
    /// | 1 | victim flag | 0 or 1 |
    /// | 8 | bucket of the victim | a bucket number; 0 without a victim |
    /// | bits / 8 | fingerprint of the victim | not 0; 0 without a victim |
    /// | slots × bits / 8 | slots, bucket by bucket | must end the input |
    ///
    /// The version stands for the way of hashing as well (hash function, bits for
    /// the fingerprint and for the bucket, multiplier of the other bucket): to
    /// change any of these takes a new version.
    pub fn export(&self) -> (bytes: Vec<u8>)
        requires
            self@.encoded_len() <= usize::MAX,
        ensures
            bytes@ == self@.encoded(),
            bytes@.len() == self@.encoded_len(),
    {
        proof {
            F::fingerprint_facts();
        }
        assert(self.table@.len() == self.table.len());
        let width: usize = F::BITS as usize / 8;
        let mut buf: Vec<u8> = Vec::with_capacity(HEADER_LEN + width + self.table.len() * width);

        buf.push(MAGIC[0]);
        buf.push(MAGIC[1]);
        buf.push(FORMAT_VERSION);
        buf.push(F::BITS);
        assert(buf@ =~= MAGIC@ + seq![FORMAT_VERSION, F::bits()]);
        push_le(&mut buf, self.num_items as u64, 8);
        push_le(&mut buf, self.bucket_count as u64, 8);
        push_le(&mut buf, self.bucket_size as u64, 8);
        push_le(&mut buf, self.max_kicks as u64, 4);
        buf.extend_from_slice(&self.seed);
        assert(buf@ =~= self@.head_bytes());

        match self.victim {
            Some((vb, vfp)) => {
                buf.push(1);
                push_le(&mut buf, vb as u64, 8);
                vfp.write_le(&mut buf);
            },
            None => {
                buf.push(0);
                push_le(&mut buf, 0, 8);
                F::EMPTY.write_le(&mut buf);
            },
        }
        assert(buf@ =~= self@.head_bytes() + self@.victim_bytes());

        let mut i: usize = 0;
        assert(self.table@.take(0) =~= Seq::empty());
        while i < self.table.len()
            invariant
                i <= self.table@.len(),
                buf@ == self@.head_bytes() + self@.victim_bytes() + table_bytes(
                    self.table@.take(i as int),
                ),
            decreases self.table@.len() - i,
        {
            self.table[i].write_le(&mut buf);
            i = i + 1;
            proof {
                let part = self.table@.take(i as int);
                assert(part.drop_last() =~= self.table@.take(i - 1));
                assert(buf@ =~= self@.head_bytes() + self@.victim_bytes() + table_bytes(part));
            }
        }
        proof {
            assert(self.table@.take(i as int) =~= self.table@);
            law_encoded_len(self@);
        }
        buf
    }

    /// Reads a filter in the byte format. All that `export` says of the fields is
    /// checked; the first fault found is the error.
    pub fn import(bytes: &[u8]) -> (res: Result<Self, ImportError>)
        ensures
            match FilterState::<F>::decoded(bytes@) {
                Ok(s) => res matches Ok(filter) && filter@ == s,
                Err(e) => res == Err::<Self, ImportError>(e),
            },
            res matches Ok(filter) ==> {
                &&& filter@.portable()
                &&& filter@.encoded() == bytes@
                &&& filter@.encoded_len() == bytes@.len()
            },
    {
        proof {
            F::fingerprint_facts();
        }
        let width: usize = F::BITS as usize / 8;
        let header: usize = HEADER_LEN + width;

        if bytes.len() < header {
            return Err(ImportError::TooShort);
        }
        let mut pos: usize = 0;

        let magic = read_bytes(bytes, 2, &mut pos);
        if magic[0] != MAGIC[0] || magic[1] != MAGIC[1] {
            return Err(ImportError::BadMagic);
        }
        assert(magic@ =~= MAGIC@);

        let version: u8 = read_bytes(bytes, 1, &mut pos)[0];
        if version != FORMAT_VERSION {
            return Err(ImportError::UnsupportedVersion(version));
        }
        let fp_bits: u8 = read_bytes(bytes, 1, &mut pos)[0];
        if fp_bits != F::BITS {
            return Err(ImportError::FpBitsMismatch { expected: F::BITS, got: fp_bits });
        }
        let num_items: usize = match usize::try_from(read_64(bytes, &mut pos)) {
            Ok(n) => n,
            Err(_) => return Err(ImportError::InvalidNumItems),
        };

        let bucket_count: u64 = read_64(bytes, &mut pos);
        if !is_power_of_two(bucket_count) {
            return Err(ImportError::InvalidBucketCount);
        }
        if bucket_count > MAX_BUCKET_COUNT {
            return Err(ImportError::BucketCountTooLarge);
        }
        let bucket_size: u64 = read_64(bytes, &mut pos);
        if bucket_size == 0 {
            return Err(ImportError::InvalidBucketSize);
        }
        if bucket_size > MAX_BUCKET_SIZE {
            return Err(ImportError::BucketSizeTooLarge);
        }
        proof {
            reveal(is_pow2);
            assert(bucket_count * bucket_size <= 0x1_0000_0000 * 255 && bucket_count
                <= bucket_count * bucket_size && bucket_size <= bucket_count * bucket_size)
                by (nonlinear_arith)
                requires
                    1 <= bucket_count <= 0x1_0000_0000,
                    1 <= bucket_size <= 255,
            ;
        }
        let slots: usize = match usize::try_from(bucket_count * bucket_size) {
            Ok(n) => n,
            Err(_) => return Err(ImportError::BucketCountTooLarge),
        };
        proof {
            assert(slots <= slots * width <= slots * 2) by (nonlinear_arith)
                requires
                    1 <= width <= 2,
            ;
        }
        if bytes.len() as u64 != header as u64 + slots as u64 * width as u64 {
            return Err(ImportError::SizeMismatch);
        }
        if num_items > slots + 1 {
            return Err(ImportError::InvalidNumItems);
        }
        let max_kicks: u32 = read_32(bytes, &mut pos);
        let seed: [u8; 16] = read_seed(bytes, &mut pos);
        let flag: u8 = read_bytes(bytes, 1, &mut pos)[0];
        let is_victim_present: bool = match flag {
            0 => false,
            1 => true,
            v => return Err(ImportError::InvalidVictimFlag(v)),
        };

        let vb: u64 = read_64(bytes, &mut pos);
        let vfp = F::read_le(bytes, &mut pos);
        proof {
            reveal(obeys_concrete_eq);
        }
        if is_victim_present {
            if vb >= bucket_count {
                return Err(ImportError::InvalidVictimBucketId);
            }
            if vfp == F::EMPTY {
                return Err(ImportError::InvalidVictimFp);
            }
        } else {
            if vb != 0 {
                return Err(ImportError::InvalidVictimBucketId);
            }
            if vfp != F::EMPTY {
                return Err(ImportError::InvalidVictimFp);
            }
        }

        let mut table: Vec<F> = Vec::with_capacity(slots);
        let mut i: usize = 0;
        while i < slots
            invariant
                i <= slots,
                pos == header + i * width,
                bytes@.len() == header + slots * width,
                header == table_offset::<F>(),
                width == F::bits() / 8,
                table@ == table_at::<F>(bytes@, header as int, i as nat),
            decreases slots - i,
        {
            proof {
                assert(i * width + width <= slots * width) by (nonlinear_arith)
                    requires
                        i + 1 <= slots,
                ;
                assert((i + 1) * width == i * width + width) by (nonlinear_arith);
            }
            table.push(F::read_le(bytes, &mut pos));
            i = i + 1;
            assert(table@ =~= table_at::<F>(bytes@, header as int, i as nat));
        }

        let filter = Filter {
            table,
            bucket_count: bucket_count as usize,
            bucket_size: bucket_size as usize,
            max_kicks,
            seed,
            num_items,
            victim: if is_victim_present {
                Some((vb as usize, vfp))
            } else {
                None
            },
        };
        assert(filter@ =~= FilterState::<F>::described(bytes@));
        if filter.num_items != filter.census() {
            return Err(ImportError::CensusMismatch);
        }
        proof {
            law_written_once(bytes@, filter@);
            law_encoded_len(filter@);
        }
        Ok(filter)
    }
}

} // verus!
