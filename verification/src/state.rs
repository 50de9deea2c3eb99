//! The mathematical model of a cuckoo filter and of its operations.

use vstd::prelude::*;
use vstd::wrapping::u64_specs::wrapping_mul;

use crate::fingerprint::{folded_hash, Fingerprint};
use crate::sip::siphash13;

verus! {

/// The multiplier that spreads a fingerprint over the bucket numbers: the mixing
/// constant of MurmurHash2.
pub const MIX: u64 = 0x5bd1_e995;

/// The lowest position in `lo..hi` at which `s` holds `x`.
pub open spec fn first_in<A>(s: Seq<A>, lo: int, hi: int, x: A) -> Option<int>
    decreases hi - lo,
{
    if lo >= hi {
        None
    } else if s[lo] == x {
        Some(lo)
    } else {
        first_in(s, lo + 1, hi, x)
    }
}

/// The number of positions in `lo..hi` at which `s` holds `x`.
pub open spec fn count_in<A>(s: Seq<A>, lo: int, hi: int, x: A) -> nat
    decreases hi - lo,
{
    if lo >= hi {
        0
    } else {
        count_in(s, lo, hi - 1, x) + (if s[hi - 1] == x {
            1nat
        } else {
            0nat
        })
    }
}

/// The contents of a cuckoo filter.
///
/// The slots of bucket `b` are the positions `b * bucket_size` to
/// `b * bucket_size + bucket_size` (exclusive) of `table`. The victim is an entry
/// that found no slot: the bucket it was headed for, and its fingerprint.
#[verifier::ext_equal]
pub struct FilterState<F> {
    pub table: Seq<F>,
    pub bucket_count: nat,
    pub bucket_size: nat,
    pub max_kicks: nat,
    pub seed: Seq<u8>,
    pub num_items: nat,
    pub victim: Option<(nat, F)>,
}

impl<F: Fingerprint> FilterState<F> {
    /// The filter without entries.
    pub open spec fn empty(
        bucket_count: nat,
        bucket_size: nat,
        max_kicks: nat,
        seed: Seq<u8>,
    ) -> Self {
        FilterState {
            table: Seq::new(bucket_count * bucket_size, |k: int| F::EMPTY),
            bucket_count,
            bucket_size,
            max_kicks,
            seed,
            num_items: 0,
            victim: None,
        }
    }

    /// The integers are in the range of the machine types that hold them, and the
    /// seed has 16 bytes: so much holds of the contents of every filter.
    pub open spec fn representable(self) -> bool {
        &&& self.bucket_count <= usize::MAX
        &&& self.bucket_size <= usize::MAX
        &&& self.max_kicks <= u32::MAX
        &&& self.num_items <= usize::MAX
        &&& self.seed.len() == 16
        &&& self.victim matches Some((b, _)) ==> b <= usize::MAX
    }

    /// The filter is representable, the table has the slots of all buckets, and the
    /// byte format of the filter is not longer than a byte string can be.
    pub open spec fn shaped(self) -> bool {
        &&& self.representable()
        &&& self.table.len() == self.bucket_count * self.bucket_size
        &&& self.table.len() < usize::MAX
        &&& self.encoded_len() <= usize::MAX
    }

    /// The invariant of a filter: it is shaped, its item count is the number of
    /// entries that it holds, and a victim is a proper entry.
    pub open spec fn wf(self) -> bool {
        &&& self.shaped()
        &&& self.num_items == self.census()
        &&& self.victim matches Some((b, fp)) ==> self.addressable(b) && fp != F::EMPTY
    }

    /// Both filters were made with the same parameters and the same seed.
    pub open spec fn same_parameters(self, other: Self) -> bool {
        &&& self.bucket_count == other.bucket_count
        &&& self.bucket_size == other.bucket_size
        &&& self.max_kicks == other.max_kicks
        &&& self.seed == other.seed
    }

    /// An entry can be displaced where displacing is called for.
    pub open spec fn kickable(self) -> bool {
        self.bucket_size > 0 || self.max_kicks == 0
    }

    /// `b` is a bucket number that an item can have: it has no bit outside
    /// `bucket_count - 1`. With a power of two as the bucket count, these are all
    /// the bucket numbers.
    pub open spec fn addressable(self, b: nat) -> bool {
        &&& 0 < self.bucket_count
        &&& b < self.bucket_count
        &&& (b as u64) & (self.bucket_count - 1) as u64 == b as u64
    }

    /// The position of the first slot of bucket `b`.
    pub open spec fn start(self, b: nat) -> int {
        (b * self.bucket_size) as int
    }

    /// The position after the last slot of bucket `b`.
    pub open spec fn end(self, b: nat) -> int {
        (b * self.bucket_size + self.bucket_size) as int
    }

    /// The table has all slots of bucket `b`.
    pub open spec fn has_bucket(self, b: nat) -> bool {
        self.end(b) <= self.table.len()
    }

    /// The first slot of bucket `b` that holds `x`.
    pub open spec fn first_slot(self, b: nat, x: F) -> Option<int> {
        first_in(self.table, self.start(b), self.end(b), x)
    }

    /// The number of slots of bucket `b` that hold `x`.
    pub open spec fn slots_with(self, b: nat, x: F) -> nat {
        count_in(self.table, self.start(b), self.end(b), x)
    }

    /// The number of entries: the slots that are not empty, and the victim.
    pub open spec fn census(self) -> nat {
        (self.table.len() - count_in(self.table, 0, self.table.len() as int, F::EMPTY) + (
        if self.victim is Some {
            1int
        } else {
            0int
        })) as nat
    }

    /// The filter with `fp` in slot `k`.
    pub open spec fn set_slot(self, k: int, fp: F) -> Self {
        FilterState { table: self.table.update(k, fp), ..self }
    }

    // Where an item lives.

    /// The fingerprint of a hash.
    pub open spec fn fingerprint(h: u64) -> F {
        F::of_code(folded_hash(h, F::bits()))
    }

    /// The first bucket of a hash: its bits from 16 up, cut down to a bucket number.
    pub open spec fn index1(self, h: u64) -> nat {
        ((h >> 16) & (self.bucket_count - 1) as u64) as nat
    }

    /// What the bucket numbers of an entry with fingerprint `fp` differ by.
    pub open spec fn offset(self, fp: F) -> u64 {
        wrapping_mul(fp.code(), MIX) & (self.bucket_count - 1) as u64
    }

    /// The other bucket of an entry with fingerprint `fp` that has bucket `b`.
    pub open spec fn alt_index(self, b: nat, fp: F) -> nat {
        ((b as u64) ^ self.offset(fp)) as nat
    }

    /// The two buckets and the fingerprint of a hash.
    pub open spec fn locate(self, h: u64) -> (nat, nat, F) {
        let fp = Self::fingerprint(h);
        let i1 = self.index1(h);
        (i1, self.alt_index(i1, fp), fp)
    }

    // Looking up.

    /// The victim has fingerprint `fp` and one of the buckets `i1` and `i2`.
    pub open spec fn matches_victim(self, i1: nat, i2: nat, fp: F) -> bool {
        self.victim matches Some((b, vfp)) && vfp == fp && (i1 == b || i2 == b)
    }

    /// The number of copies of `fp` in the victim and the buckets `i1` and `i2`.
    pub open spec fn count_at(self, i1: nat, i2: nat, fp: F) -> nat {
        (if self.matches_victim(i1, i2, fp) {
            1nat
        } else {
            0nat
        }) + self.slots_with(i1, fp) + (if i1 == i2 {
            0nat
        } else {
            self.slots_with(i2, fp)
        })
    }

    /// There is a copy of `fp` in the victim, in bucket `i1` or in bucket `i2`.
    pub open spec fn contains_at(self, i1: nat, i2: nat, fp: F) -> bool {
        ||| self.matches_victim(i1, i2, fp)
        ||| self.first_slot(i1, fp) is Some
        ||| self.first_slot(i2, fp) is Some
    }

    // Inserting.

    /// The slot of bucket `b` that `fp` takes from its holder as displacement
    /// number `n` of a chain.
    pub open spec fn kicked_slot(self, b: nat, fp: F, n: nat) -> int {
        self.start(b) + (fp.code() + n) % (self.bucket_size as int)
    }

    /// The chain of displacements from its displacement number `n` on: `fp` takes
    /// the first empty slot of bucket `b` or, if there is none, takes a slot from
    /// its holder, which goes on to its other bucket. Once the chain has made
    /// `max_kicks` displacements, the entry in hand becomes the victim.
    pub open spec fn kick(self, b: nat, fp: F, n: nat) -> Self
        decreases self.max_kicks - n,
    {
        if n >= self.max_kicks {
            FilterState { victim: Some((b, fp)), ..self }
        } else {
            match self.first_slot(b, F::EMPTY) {
                Some(k) => self.set_slot(k, fp),
                None => {
                    let k = self.kicked_slot(b, fp, n);
                    let orphan = self.table[k];
                    self.set_slot(k, fp).kick(self.alt_index(b, orphan), orphan, n + 1)
                },
            }
        }
    }

    /// Inserting `fp` by a chain of displacements that starts at bucket `b`;
    /// refused while there is a victim.
    pub open spec fn kick_insert(self, b: nat, fp: F) -> Option<Self> {
        if self.victim is Some {
            None
        } else {
            Some((FilterState { num_items: self.num_items + 1, ..self }).kick(b, fp, 0))
        }
    }

    /// Inserting `fp` with the buckets `i1` and `i2`: into the first empty slot of
    /// `i1`, else of `i2`, else by displacements from `i1`.
    pub open spec fn insert_at(self, i1: nat, i2: nat, fp: F) -> Option<Self> {
        let more = FilterState { num_items: self.num_items + 1, ..self };
        if let Some(k) = self.first_slot(i1, F::EMPTY) {
            Some(more.set_slot(k, fp))
        } else if let Some(k) = self.first_slot(i2, F::EMPTY) {
            Some(more.set_slot(k, fp))
        } else {
            self.kick_insert(i1, fp)
        }
    }

    // Deleting.

    /// The filter after its victim, if any, has moved into an empty slot of one of
    /// its two buckets, where there is one.
    pub open spec fn rehomed(self) -> Self {
        if let Some((b, fp)) = self.victim {
            let settled = FilterState { victim: None, ..self };
            if let Some(k) = self.first_slot(b, F::EMPTY) {
                settled.set_slot(k, fp)
            } else if let Some(k) = self.first_slot(self.alt_index(b, fp), F::EMPTY) {
                settled.set_slot(k, fp)
            } else {
                self
            }
        } else {
            self
        }
    }

    /// Deleting one copy of `fp` with the buckets `i1` and `i2`: the victim, else
    /// the first slot of `i1` that holds it, else that of `i2`; `None` where there
    /// is no copy. A slot that falls empty gives the victim its chance.
    pub open spec fn delete_at(self, i1: nat, i2: nat, fp: F) -> Option<Self> {
        let fewer = FilterState { num_items: (self.num_items - 1) as nat, ..self };
        if self.matches_victim(i1, i2, fp) {
            Some(FilterState { victim: None, ..fewer })
        } else if let Some(k) = self.first_slot(i1, fp) {
            Some(fewer.set_slot(k, F::EMPTY).rehomed())
        } else if let Some(k) = self.first_slot(i2, fp) {
            Some(fewer.set_slot(k, F::EMPTY).rehomed())
        } else {
            None
        }
    }

    // Items.

    /// The two buckets and the fingerprint of an item.
    pub open spec fn place(self, item: Seq<u8>) -> (nat, nat, F) {
        self.locate(siphash13(self.seed, item))
    }

    /// The filter after an item has been inserted; `None` where it is refused.
    pub open spec fn insert(self, item: Seq<u8>) -> Option<Self> {
        let (i1, i2, fp) = self.place(item);
        self.insert_at(i1, i2, fp)
    }

    /// The filter after an item has been deleted; `None` where it is not found.
    pub open spec fn delete(self, item: Seq<u8>) -> Option<Self> {
        let (i1, i2, fp) = self.place(item);
        self.delete_at(i1, i2, fp)
    }

    /// The filter has an entry that looks like the item.
    pub open spec fn contains(self, item: Seq<u8>) -> bool {
        let (i1, i2, fp) = self.place(item);
        self.contains_at(i1, i2, fp)
    }

    /// The number of entries that look like the item.
    pub open spec fn count(self, item: Seq<u8>) -> nat {
        let (i1, i2, fp) = self.place(item);
        self.count_at(i1, i2, fp)
    }
}

} // verus!
