//! The byte format of a filter, as a pair of functions between filters and bytes.

use vstd::arithmetic::power2::is_pow2;
use vstd::prelude::*;

use crate::fingerprint::Fingerprint;
use crate::format::ImportError;
use crate::le::{le_bytes, le_value};
use crate::state::FilterState;

verus! {

/// The first two bytes of the format: `CF`.
pub const MAGIC: [u8; 2] = [0x43, 0x46];

/// The version that is written, and the one that is read.
pub const FORMAT_VERSION: u8 = 1;

/// The number of bytes before the victim's fingerprint.
pub const HEADER_LEN: usize = 57;

/// The largest bucket count that is read.
pub const MAX_BUCKET_COUNT: u64 = 0x1_0000_0000;

/// The largest bucket size that is read.
pub const MAX_BUCKET_SIZE: u64 = 255;

/// The number of bytes of a fingerprint.
pub open spec fn width<F: Fingerprint>() -> nat {
    (F::bits() / 8) as nat
}

/// The number of bytes before the table.
pub open spec fn table_offset<F: Fingerprint>() -> nat {
    HEADER_LEN as nat + width::<F>()
}

/// The bytes of the slots, one after the other.
pub open spec fn table_bytes<F: Fingerprint>(table: Seq<F>) -> Seq<u8>
    decreases table.len(),
{
    if table.len() == 0 {
        Seq::empty()
    } else {
        table_bytes(table.drop_last()) + le_bytes(table.last().code() as nat, width::<F>())
    }
}

/// The number in the `n` bytes of `bytes` from `offset` on.
pub open spec fn number_at(bytes: Seq<u8>, offset: int, n: nat) -> nat {
    le_value(bytes.subrange(offset, offset + n))
}

/// The fingerprint in `bytes` at `offset`.
pub open spec fn fingerprint_at<F: Fingerprint>(bytes: Seq<u8>, offset: int) -> F {
    F::of_code(number_at(bytes, offset, width::<F>()) as u64)
}

/// The `n` fingerprints in `bytes` from `offset` on.
pub open spec fn table_at<F: Fingerprint>(bytes: Seq<u8>, offset: int, n: nat) -> Seq<F> {
    Seq::new(n, |k: int| fingerprint_at::<F>(bytes, offset + k * width::<F>()))
}

impl<F: Fingerprint> FilterState<F> {
    /// The bytes before the victim.
    pub open spec fn head_bytes(self) -> Seq<u8> {
        MAGIC@ + seq![FORMAT_VERSION, F::bits()] + le_bytes(self.num_items, 8) + le_bytes(
            self.bucket_count,
            8,
        ) + le_bytes(self.bucket_size, 8) + le_bytes(self.max_kicks, 4) + self.seed
    }

    /// The bytes of the victim: whether there is one, its bucket and its fingerprint.
    pub open spec fn victim_bytes(self) -> Seq<u8> {
        match self.victim {
            Some((b, fp)) => seq![1u8] + le_bytes(b, 8) + le_bytes(
                fp.code() as nat,
                width::<F>(),
            ),
            None => seq![0u8] + le_bytes(0, 8) + le_bytes(
                F::EMPTY.code() as nat,
                width::<F>(),
            ),
        }
    }

    /// The byte format of a filter.
    pub open spec fn encoded(self) -> Seq<u8> {
        self.head_bytes() + self.victim_bytes() + table_bytes(self.table)
    }

    /// The number of bytes of the byte format.
    pub open spec fn encoded_len(self) -> nat {
        table_offset::<F>() + self.table.len() * width::<F>()
    }

    /// A filter that the byte format can give back: one that meets the invariant and
    /// has a power of two of buckets, at least one slot in each, and no more of
    /// either than the format allows.
    pub open spec fn portable(self) -> bool {
        &&& self.wf()
        &&& is_pow2(self.bucket_count as int)
        &&& 0 < self.bucket_count <= MAX_BUCKET_COUNT
        &&& 0 < self.bucket_size <= MAX_BUCKET_SIZE
    }

    /// The filter that `bytes` spells where its header is in order.
    pub open spec fn described(bytes: Seq<u8>) -> Self {
        let bucket_count = number_at(bytes, 12, 8);
        let bucket_size = number_at(bytes, 20, 8);
        FilterState {
            table: table_at(bytes, table_offset::<F>() as int, bucket_count * bucket_size),
            bucket_count,
            bucket_size,
            max_kicks: number_at(bytes, 28, 4),
            seed: bytes.subrange(32, 48),
            num_items: number_at(bytes, 4, 8),
            victim: if bytes[48] == 1 {
                Some((number_at(bytes, 49, 8), fingerprint_at::<F>(bytes, 57)))
            } else {
                None
            },
        }
    }

    /// The filter that `bytes` spells, or the first thing that is wrong with them.
    pub open spec fn decoded(bytes: Seq<u8>) -> Result<Self, ImportError> {
        let s = Self::described(bytes);
        let slots = s.bucket_count * s.bucket_size;
        let victim_bucket = number_at(bytes, 49, 8);
        let victim_fp = fingerprint_at::<F>(bytes, 57);
        if bytes.len() < table_offset::<F>() {
            Err(ImportError::TooShort)
        } else if bytes.subrange(0, 2) != MAGIC@ {
            Err(ImportError::BadMagic)
        } else if bytes[2] != FORMAT_VERSION {
            Err(ImportError::UnsupportedVersion(bytes[2]))
        } else if bytes[3] != F::bits() {
            Err(ImportError::FpBitsMismatch { expected: F::bits(), got: bytes[3] })
        } else if s.num_items > usize::MAX {
            Err(ImportError::InvalidNumItems)
        } else if !is_pow2(s.bucket_count as int) {
            Err(ImportError::InvalidBucketCount)
        } else if s.bucket_count > MAX_BUCKET_COUNT {
            Err(ImportError::BucketCountTooLarge)
        } else if s.bucket_size == 0 {
            Err(ImportError::InvalidBucketSize)
        } else if s.bucket_size > MAX_BUCKET_SIZE {
            Err(ImportError::BucketSizeTooLarge)
        } else if slots > usize::MAX {
            Err(ImportError::BucketCountTooLarge)
        } else if bytes.len() != table_offset::<F>() + slots * width::<F>() {
            Err(ImportError::SizeMismatch)
        } else if s.num_items > slots + 1 {
            Err(ImportError::InvalidNumItems)
        } else if bytes[48] > 1 {
            Err(ImportError::InvalidVictimFlag(bytes[48]))
        } else if bytes[48] == 1 && victim_bucket >= s.bucket_count {
            Err(ImportError::InvalidVictimBucketId)
        } else if bytes[48] == 0 && victim_bucket != 0 {
            Err(ImportError::InvalidVictimBucketId)
        } else if (bytes[48] == 1) == (victim_fp == F::EMPTY) {
            Err(ImportError::InvalidVictimFp)
        } else if s.num_items != s.census() {
            Err(ImportError::CensusMismatch)
        } else {
            Ok(s)
        }
    }
}

} // verus!
