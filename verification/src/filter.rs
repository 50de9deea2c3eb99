//! The cuckoo filter.

use std::ops::Range;

use vstd::arithmetic::power2::{is_pow2, lemma2_to64, pow2};
use vstd::laws_eq::obeys_concrete_eq;
use vstd::prelude::*;

use crate::fingerprint::Fingerprint;
use crate::lemmas::{lemma_count_in_range, lemma_first_in};
use crate::placement::{law_first_bucket_is_remainder, law_other_bucket_is_product};
use crate::sip::{sip13, siphash13};
use crate::state::{count_in, first_in, FilterState, MIX};

verus! {

/// The error of an insertion for which there is no room.
#[derive(Debug)]
pub struct Full;

/// A cuckoo filter: a set of byte strings, held as fingerprints in buckets.
///
/// A lookup can find an item that was never inserted; it does not miss one that
/// was. The layout of the table depends on the parameters, the seed and the
/// operations alone.
#[derive(Debug, Clone)]
pub struct Filter<F> {
    /// The slots of all buckets, one bucket after the other.
    pub table: Vec<F>,
    /// The number of buckets.
    pub bucket_count: usize,
    /// The number of slots of a bucket.
    pub bucket_size: usize,
    /// The number of displacements after which an insertion gives up.
    pub max_kicks: u32,
    /// The key of the hash function.
    pub seed: [u8; 16],
    /// The number of items: insertions less deletions.
    pub num_items: usize,
    /// The bucket and the fingerprint that a chain of displacements was left with.
    pub victim: Option<(usize, F)>,
}

impl<F: Fingerprint> View for Filter<F> {
    type V = FilterState<F>;

    open spec fn view(&self) -> FilterState<F> {
        FilterState {
            table: self.table@,
            bucket_count: self.bucket_count as nat,
            bucket_size: self.bucket_size as nat,
            max_kicks: self.max_kicks as nat,
            seed: self.seed@,
            num_items: self.num_items as nat,
            victim: match self.victim {
                Some((b, fp)) => Some((b as nat, fp)),
                None => None,
            },
        }
    }
}

impl<F: Fingerprint> Filter<F> {
    /// The invariant of a filter.
    pub open spec fn wf(&self) -> bool {
        self@.wf()
    }

    /// An empty filter of `bucket_count` buckets of `bucket_size` slots.
    pub fn with_seed(
        bucket_count: usize,
        bucket_size: usize,
        max_kicks: u32,
        seed: [u8; 16],
    ) -> (filter: Self)
        requires
            bucket_count * bucket_size * (F::bits() / 8) <= isize::MAX,
        ensures
            filter@ == FilterState::<F>::empty(
                bucket_count as nat,
                bucket_size as nat,
                max_kicks as nat,
                seed@,
            ),
            filter.table@.len() == bucket_count * bucket_size,
            forall|k: int|
                0 <= k < filter.table@.len() ==> (#[trigger] filter.table@[k]).code() == 0,
            filter.bucket_count == bucket_count,
            filter.bucket_size == bucket_size,
            filter.max_kicks == max_kicks,
            filter.seed@ == seed@,
            filter.num_items == 0,
            filter.victim is None,
            filter.wf(),
    {
        proof {
            F::fingerprint_facts();
            let slots = bucket_count * bucket_size;
            assert(slots <= slots * (F::bits() / 8)) by (nonlinear_arith)
                requires
                    0 <= slots,
                    F::bits() / 8 >= 1,
            ;
            FilterState::<F>::lemma_empty_wf(
                bucket_count as nat,
                bucket_size as nat,
                max_kicks as nat,
                seed@,
            );
        }
        Filter {
            table: vec![F::EMPTY; bucket_count * bucket_size],
            bucket_count,
            bucket_size,
            max_kicks,
            seed,
            num_items: 0,
            victim: None,
        }
    }

    /// The hash of an item under the seed.
    pub fn hash(&self, item: &[u8]) -> (h: u64)
        ensures
            h == siphash13(self.seed@, item@),
    {
        sip13(&self.seed, item)
    }

    /// The fingerprint of a hash.
    pub fn fingerprint(&self, h: u64) -> (fp: F)
        ensures
            fp == FilterState::<F>::fingerprint(h),
            h as nat % pow2(F::bits() as nat) != 0 ==> fp.code() == h as nat % pow2(
                F::bits() as nat,
            ),
            h as nat % pow2(F::bits() as nat) == 0 ==> fp.code() == 1,
    {
        F::from_hash(h)
    }

    /// The two buckets and the fingerprint of a hash.
    pub fn locate(&self, h: u64) -> (place: (usize, usize, F))
        requires
            self.bucket_count > 0,
        ensures
            (place.0 as nat, place.1 as nat, place.2) == self@.locate(h),
            ({
                let r = h as nat % pow2(F::bits() as nat);
                place.2.code() == (if r == 0 {
                    1
                } else {
                    r
                })
            }),
            place.0 == (h / 0x1_0000) & (self.bucket_count - 1) as u64,
            place.1 == (place.0 as u64) ^ ((place.2.code() * 0x5bd1_e995) as u64 & (
            self.bucket_count - 1) as u64),
            self@.addressable(place.0 as nat),
            self@.addressable(place.1 as nat),
            place.2 != F::EMPTY,
    {
        proof {
            self@.lemma_index1(h);
            self@.lemma_alt_index(self@.index1(h), FilterState::<F>::fingerprint(h));
            FilterState::<F>::lemma_fingerprint_occupied(h);
        }
        let fp = self.fingerprint(h);
        let i1: usize = self.index1(h);
        let i2: usize = self.alt_index(i1, fp);
        (i1, i2, fp)
    }

    /// The two buckets and the fingerprint of an item.
    pub fn probe(&self, item: &[u8]) -> (place: (usize, usize, F))
        requires
            self.bucket_count > 0,
        ensures
            (place.0 as nat, place.1 as nat, place.2) == self@.place(item@),
            ({
                let r = siphash13(self.seed@, item@) as nat % pow2(F::bits() as nat);
                place.2.code() == (if r == 0 {
                    1
                } else {
                    r
                })
            }),
            place.0 == (siphash13(self.seed@, item@) / 0x1_0000) & (self.bucket_count - 1) as u64,
            place.1 == (place.0 as u64) ^ ((place.2.code() * 0x5bd1_e995) as u64 & (
            self.bucket_count - 1) as u64),
            self@.addressable(place.0 as nat),
            self@.addressable(place.1 as nat),
            place.2 != F::EMPTY,
    {
        let h: u64 = self.hash(item);
        self.locate(h)
    }

    /// The positions of the slots of bucket `i`.
    pub fn bucket_range(&self, i: usize) -> (range: Range<usize>)
        requires
            self@.end(i as nat) <= usize::MAX,
        ensures
            range.start == self@.start(i as nat),
            range.end == self@.end(i as nat),
            range.start == i * self.bucket_size,
            range.end == (i + 1) * self.bucket_size,
    {
        proof {
            assert((i + 1) * self.bucket_size == i * self.bucket_size + self.bucket_size)
                by (nonlinear_arith);
        }
        let start: usize = i * self.bucket_size;
        start..start + self.bucket_size
    }

    /// The first bucket of a hash. It is made of bits that no fingerprint uses.
    pub fn index1(&self, h: u64) -> (i: usize)
        requires
            self.bucket_count > 0,
        ensures
            i == self@.index1(h),
            i == (h / 0x1_0000) & (self.bucket_count - 1) as u64,
            is_pow2(self.bucket_count as int) ==> i == (h / 0x1_0000) % (self.bucket_count as u64),
    {
        proof {
            self@.lemma_index1(h);
            law_first_bucket_is_remainder(self@, h);
        }
        ((h >> 16) & (self.bucket_count as u64 - 1)) as usize
    }

    /// The other bucket of an entry with fingerprint `fp` that has bucket `i`. The
    /// fingerprint is multiplied first, so that the two can be far apart.
    pub fn alt_index(&self, i: usize, fp: F) -> (j: usize)
        requires
            self.bucket_count > 0,
        ensures
            j == self@.alt_index(i as nat, fp),
            j == (i as u64) ^ ((fp.code() * 0x5bd1_e995) as u64 & (self.bucket_count
                - 1) as u64),
            is_pow2(self.bucket_count as int) ==> j == i ^ ((fp.code() * 0x5bd1_e995) % (
            self.bucket_count as int)) as usize,
    {
        proof {
            law_other_bucket_is_product(self@, i as nat, fp);
        }
        let h: u64 = fp.to_u64().wrapping_mul(MIX);
        let m: u64 = self.bucket_count as u64 - 1;
        proof {
            assert(h & m <= m) by (bit_vector);
        }
        i ^ ((h & m) as usize)
    }

    /// Whether bucket `bucket_idx` has a slot with `fp`.
    pub fn bucket_contains(&self, bucket_idx: usize, fp: F) -> (found: bool)
        requires
            self@.has_bucket(bucket_idx as nat),
        ensures
            found == (self@.first_slot(bucket_idx as nat, fp) is Some),
            found == exists|k: int|
                self@.start(bucket_idx as nat) <= k < self@.end(bucket_idx as nat)
                    && #[trigger] self.table@[k] == fp,
    {
        assert(self.table@.len() == self.table.len());
        let range = self.bucket_range(bucket_idx);
        let mut i: usize = range.start;
        proof {
            F::fingerprint_facts();
            reveal(obeys_concrete_eq);
            lemma_first_in(self.table@, range.start as int, range.end as int, fp);
        }
        while i < range.end
            invariant
                range.start <= i <= range.end <= self.table@.len(),
                range.start == self@.start(bucket_idx as nat),
                range.end == self@.end(bucket_idx as nat),
                self@.first_slot(bucket_idx as nat, fp) == first_in(
                    self.table@,
                    i as int,
                    range.end as int,
                    fp,
                ),
                obeys_concrete_eq::<F>(),
            decreases range.end - i,
        {
            reveal(obeys_concrete_eq);
            if self.table[i] == fp {
                return true;
            }
            i = i + 1;
        }
        false
    }

    /// The number of slots of bucket `bucket_idx` with `fp`.
    pub fn bucket_count(&self, bucket_idx: usize, fp: F) -> (n: usize)
        requires
            self@.has_bucket(bucket_idx as nat),
        ensures
            n == self@.slots_with(bucket_idx as nat, fp),
    {
        assert(self.table@.len() == self.table.len());
        let range = self.bucket_range(bucket_idx);
        let mut n: usize = 0;
        let mut i: usize = range.start;
        proof {
            F::fingerprint_facts();
        }
        while i < range.end
            invariant
                range.start <= i <= range.end <= self.table@.len(),
                n == count_in(self.table@, range.start as int, i as int, fp),
                n <= i - range.start,
                obeys_concrete_eq::<F>(),
            decreases range.end - i,
        {
            reveal(obeys_concrete_eq);
            if self.table[i] == fp {
                n = n + 1;
            }
            i = i + 1;
        }
        n
    }

    /// Puts `fp` into the first empty slot of bucket `bucket_idx`, if there is one.
    pub fn bucket_insert(&mut self, bucket_idx: usize, fp: F) -> (done: bool)
        requires
            old(self)@.has_bucket(bucket_idx as nat),
        ensures
            match old(self)@.first_slot(bucket_idx as nat, F::EMPTY) {
                Some(k) => done && final(self)@ == old(self)@.set_slot(k, fp),
                None => !done && final(self)@ == old(self)@,
            },
    {
        assert(self.table@.len() == self.table.len());
        let range = self.bucket_range(bucket_idx);
        let mut i: usize = range.start;
        proof {
            F::fingerprint_facts();
        }
        while i < range.end
            invariant
                range.start <= i <= range.end <= self.table@.len(),
                *self == *old(self),
                range.start == self@.start(bucket_idx as nat),
                range.end == self@.end(bucket_idx as nat),
                self@.first_slot(bucket_idx as nat, F::EMPTY) == first_in(
                    self.table@,
                    i as int,
                    range.end as int,
                    F::EMPTY,
                ),
                obeys_concrete_eq::<F>(),
            decreases range.end - i,
        {
            reveal(obeys_concrete_eq);
            if self.table[i] == F::EMPTY {
                self.table[i] = fp;
                return true;
            }
            i = i + 1;
        }
        false
    }

    /// Empties the first slot of bucket `bucket_idx` with `fp`, if there is one.
    pub fn bucket_remove(&mut self, bucket_idx: usize, fp: F) -> (done: bool)
        requires
            old(self)@.has_bucket(bucket_idx as nat),
        ensures
            match old(self)@.first_slot(bucket_idx as nat, fp) {
                Some(k) => done && final(self)@ == old(self)@.set_slot(k, F::EMPTY),
                None => !done && final(self)@ == old(self)@,
            },
    {
        assert(self.table@.len() == self.table.len());
        let range = self.bucket_range(bucket_idx);
        let mut i: usize = range.start;
        proof {
            F::fingerprint_facts();
        }
        while i < range.end
            invariant
                range.start <= i <= range.end <= self.table@.len(),
                *self == *old(self),
                range.start == self@.start(bucket_idx as nat),
                range.end == self@.end(bucket_idx as nat),
                self@.first_slot(bucket_idx as nat, fp) == first_in(
                    self.table@,
                    i as int,
                    range.end as int,
                    fp,
                ),
                obeys_concrete_eq::<F>(),
            decreases range.end - i,
        {
            reveal(obeys_concrete_eq);
            if self.table[i] == fp {
                self.table[i] = F::EMPTY;
                return true;
            }
            i = i + 1;
        }
        false
    }

    /// Puts `fp` into a slot of bucket `bucket_idx` that depends on `fp` and on
    /// `kick_id`, and returns what the slot held.
    pub fn bucket_displace(&mut self, bucket_idx: usize, fp: F, kick_id: u32) -> (orphan: F)
        requires
            old(self)@.has_bucket(bucket_idx as nat),
            old(self).bucket_size > 0,
        ensures
            ({
                let k = old(self)@.kicked_slot(bucket_idx as nat, fp, kick_id as nat);
                &&& orphan == old(self).table@[k]
                &&& final(self)@ == old(self)@.set_slot(k, fp)
            }),
    {
        proof {
            self@.lemma_kicked_slot(bucket_idx as nat, fp, kick_id as nat);
            F::fingerprint_facts();
            lemma2_to64();
            assert(fp.code() < 0x1_0000);
        }
        assert(self.table@.len() == self.table.len());
        let range = self.bucket_range(bucket_idx);
        let turn: u64 = (fp.to_u64() + kick_id as u64) % (self.bucket_size as u64);
        let candidate: usize = range.start + turn as usize;

        let orphan = self.table[candidate];
        self.table[candidate] = fp;
        orphan
    }

    /// Inserts `fp` by displacing entries, from bucket `bid` on. The entry that is
    /// in hand after `max_kicks` displacements becomes the victim; while there is
    /// one, no insertion of this kind is taken on.
    pub fn initiate_kick(&mut self, bid: usize, fp: F) -> (res: Result<(), Full>)
        requires
            old(self)@.shaped(),
            old(self)@.addressable(bid as nat),
            old(self).victim is None ==> old(self)@.kickable(),
            old(self).victim is None ==> old(self).num_items < usize::MAX,
        ensures
            match old(self)@.kick_insert(bid as nat, fp) {
                Some(t) => res is Ok && final(self)@ == t,
                None => res is Err && final(self)@ == old(self)@,
            },
            old(self).wf() && fp != F::EMPTY ==> final(self).wf() && final(self)@.same_parameters(
                old(self)@,
            ),
    {
        if self.victim.is_some() {
            return Err(Full);
        }
        let ghost before = self@;
        proof {
            if before.wf() && fp != F::EMPTY {
                before.lemma_kick_insert_wf(bid as nat, fp);
            }
        }

        self.num_items = self.num_items + 1;  // the insertion is going to succeed

        let ghost goal = self@.kick(bid as nat, fp, 0);
        let mut num_kicks: u32 = 0;
        let mut orphan = fp;
        let mut target_bid: usize = bid;
        while num_kicks < self.max_kicks
            invariant
                num_kicks <= self.max_kicks,
                self@.shaped(),
                self@.addressable(target_bid as nat),
                self@.kickable(),
                goal == self@.kick(target_bid as nat, orphan, num_kicks as nat),
                before.kick_insert(bid as nat, fp) == Some(goal),
                before.wf() && fp != F::EMPTY ==> goal.wf() && goal.same_parameters(before),
                before == old(self)@,
            decreases self.max_kicks - num_kicks,
        {
            proof {
                self@.lemma_bucket_in_table(target_bid as nat);
            }
            let ghost s = self@;
            if self.bucket_insert(target_bid, orphan) {
                return Ok(());
            }
            orphan = self.bucket_displace(target_bid, orphan, num_kicks);
            proof {
                s.lemma_alt_index(target_bid as nat, orphan);
            }
            target_bid = self.alt_index(target_bid, orphan);
            num_kicks = num_kicks + 1;
        }

        self.victim = Some((target_bid, orphan));
        Ok(())
    }

    /// Moves the victim into an empty slot of one of its two buckets, if there is
    /// one.
    pub fn try_rehome_victim(&mut self)
        requires
            old(self)@.shaped(),
            old(self)@.victim matches Some((b, _)) ==> old(self)@.addressable(b),
        ensures
            final(self)@ == old(self)@.rehomed(),
            final(self)@.same_parameters(old(self)@),
            old(self).wf() ==> final(self).wf(),
    {
        proof {
            if self@.wf() {
                self@.lemma_rehomed_wf();
            }
        }
        if let Some((vb, vfp)) = self.victim {
            proof {
                self@.lemma_alt_index(vb as nat, vfp);
                self@.lemma_bucket_in_table(vb as nat);
                self@.lemma_bucket_in_table(self@.alt_index(vb as nat, vfp));
            }
            let other: usize = self.alt_index(vb, vfp);
            if self.bucket_insert(vb, vfp) || self.bucket_insert(other, vfp) {
                self.victim = None;
            }
        }
    }

    /// Whether the victim has fingerprint `fp` and one of the buckets `i1` and `i2`.
    pub fn matches_victim(&self, i1: usize, i2: usize, fp: F) -> (found: bool)
        ensures
            found == self@.matches_victim(i1 as nat, i2 as nat, fp),
    {
        proof {
            F::fingerprint_facts();
            reveal(obeys_concrete_eq);
        }
        if let Some((vb, vfp)) = self.victim {
            if vfp == fp && (i1 == vb || i2 == vb) {
                return true;
            }
        }
        false
    }

    /// Removes one copy of the entry with the buckets `i1` and `i2` and the
    /// fingerprint `fp`; says whether there was one.
    pub fn delete_at(&mut self, i1: usize, i2: usize, fp: F) -> (found: bool)
        requires
            old(self).wf(),
            old(self)@.addressable(i1 as nat),
            i2 == old(self)@.alt_index(i1 as nat, fp),
            fp != F::EMPTY,
        ensures
            match old(self)@.delete_at(i1 as nat, i2 as nat, fp) {
                Some(t) => found && final(self)@ == t,
                None => !found && final(self)@ == old(self)@,
            },
            found == old(self)@.contains_at(i1 as nat, i2 as nat, fp),
            final(self).wf(),
            final(self)@.same_parameters(old(self)@),
    {
        proof {
            let s = self@;
            s.lemma_delete_wf(i1 as nat, fp);
            s.lemma_alt_index(i1 as nat, fp);
            s.lemma_bucket_in_table(i1 as nat);
            s.lemma_bucket_in_table(i2 as nat);
            lemma_first_in(s.table, s.start(i1 as nat), s.end(i1 as nat), fp);
            lemma_first_in(s.table, s.start(i2 as nat), s.end(i2 as nat), fp);
        }
        // the victim has what is asked for
        if self.matches_victim(i1, i2, fp) {
            self.num_items = self.num_items - 1;
            self.victim = None;
            return true;
        }
        // one of the buckets has it
        if self.bucket_remove(i1, fp) || self.bucket_remove(i2, fp) {
            self.num_items = self.num_items - 1;
            self.try_rehome_victim();
            return true;
        }
        false
    }

    /// Removes one copy of the fingerprint of an item: the victim's, else one of the
    /// first bucket, else one of the second. Says whether there was one.
    ///
    /// Where a slot of the table falls empty, the victim is moved into one of its
    /// own two buckets if these have room.
    ///
    /// To delete an item that was never inserted may remove the entry of an item
    /// that looks the same, which lookups then miss: delete only what is known to
    /// have been inserted.
    pub fn delete(&mut self, item: &[u8]) -> (found: bool)
        requires
            old(self).wf(),
            old(self).bucket_count > 0,
        ensures
            match old(self)@.delete(item@) {
                Some(t) => found && final(self)@ == t,
                None => !found && final(self)@ == old(self)@,
            },
            found == old(self)@.contains(item@),
            final(self).wf(),
            final(self)@.same_parameters(old(self)@),
    {
        let (i1, i2, fp) = self.probe(item);
        self.delete_at(i1, i2, fp)
    }

    /// Inserts an entry with the buckets `i1` and `i2` and the fingerprint `fp`.
    pub fn insert_at(&mut self, i1: usize, i2: usize, fp: F) -> (res: Result<(), Full>)
        requires
            old(self).wf(),
            old(self)@.addressable(i1 as nat),
            i2 == old(self)@.alt_index(i1 as nat, fp),
            fp != F::EMPTY,
            old(self).victim is None ==> old(self)@.kickable(),
        ensures
            match old(self)@.insert_at(i1 as nat, i2 as nat, fp) {
                Some(t) => res is Ok && final(self)@ == t,
                None => res is Err && final(self)@ == old(self)@,
            },
            final(self).wf(),
            final(self)@.same_parameters(old(self)@),
    {
        proof {
            self@.lemma_insert_wf(i1 as nat, fp);
            self@.lemma_alt_index(i1 as nat, fp);
            self@.lemma_bucket_in_table(i1 as nat);
            self@.lemma_bucket_in_table(i2 as nat);
            self@.lemma_census_bound();
        }
        // the first bucket, then the second
        if self.bucket_insert(i1, fp) || self.bucket_insert(i2, fp) {
            self.num_items = self.num_items + 1;
            return Ok(());
        }
        self.initiate_kick(i1, fp)
    }

    /// Inserts an item. Fails, and changes nothing, if both buckets of the item are
    /// full and there is a victim already.
    pub fn insert(&mut self, item: &[u8]) -> (res: Result<(), Full>)
        requires
            old(self).wf(),
            old(self).bucket_count > 0,
            old(self).victim is None ==> old(self)@.kickable(),
        ensures
            match old(self)@.insert(item@) {
                Some(t) => res is Ok && final(self)@ == t,
                None => res is Err && final(self)@ == old(self)@,
            },
            final(self).wf(),
            final(self)@.same_parameters(old(self)@),
    {
        let (i1, i2, fp) = self.probe(item);
        self.insert_at(i1, i2, fp)
    }

    /// Whether there is an entry with the buckets `i1` and `i2` and the fingerprint
    /// `fp`.
    pub fn contains_at(&self, i1: usize, i2: usize, fp: F) -> (found: bool)
        requires
            self@.has_bucket(i1 as nat),
            self@.has_bucket(i2 as nat),
        ensures
            found == self@.contains_at(i1 as nat, i2 as nat, fp),
    {
        if self.matches_victim(i1, i2, fp) {
            return true;
        }
        self.bucket_contains(i1, fp) || self.bucket_contains(i2, fp)
    }

    /// Whether the filter has an entry that looks like the item.
    pub fn contains(&self, item: &[u8]) -> (found: bool)
        requires
            self@.shaped(),
            self.bucket_count > 0,
        ensures
            found == self@.contains(item@),
    {
        let (i1, i2, fp) = self.probe(item);
        proof {
            self@.lemma_bucket_in_table(i1 as nat);
            self@.lemma_bucket_in_table(i2 as nat);
        }
        self.contains_at(i1, i2, fp)
    }

    /// The number of entries with the buckets `i1` and `i2` and the fingerprint `fp`.
    pub fn count_at(&self, i1: usize, i2: usize, fp: F) -> (n: usize)
        requires
            self@.shaped(),
            i1 < self.bucket_count,
            i2 < self.bucket_count,
        ensures
            n == self@.count_at(i1 as nat, i2 as nat, fp),
    {
        let ghost s = self@;
        proof {
            s.lemma_bucket_in_table(i1 as nat);
            s.lemma_bucket_in_table(i2 as nat);
            lemma_count_in_range(s.table, s.start(i1 as nat), s.end(i1 as nat), fp);
            lemma_count_in_range(s.table, s.start(i2 as nat), s.end(i2 as nat), fp);
            if i1 != i2 {
                s.lemma_buckets_disjoint(i1 as nat, i2 as nat);
            }
        }
        let mut res: usize = if self.matches_victim(i1, i2, fp) {
            1
        } else {
            0
        };
        res = res + self.bucket_count(i1, fp);
        if i1 != i2 {
            res = res + self.bucket_count(i2, fp);
        }
        res
    }

    /// The number of entries that look like the item.
    pub fn count(&self, item: &[u8]) -> (n: usize)
        requires
            self@.shaped(),
            self.bucket_count > 0,
        ensures
            n == self@.count(item@),
    {
        let (i1, i2, fp) = self.probe(item);
        self.count_at(i1, i2, fp)
    }

    /// The number of entries: the slots in use, and the victim.
    pub fn census(&self) -> (n: usize)
        requires
            self.victim is Some ==> self.table@.len() < usize::MAX,
        ensures
            n == self@.census(),
    {
        let mut n: usize = 0;
        let mut i: usize = 0;
        proof {
            F::fingerprint_facts();
        }
        while i < self.table.len()
            invariant
                i <= self.table@.len(),
                n <= i,
                n + count_in(self.table@, 0, i as int, F::EMPTY) == i,
                obeys_concrete_eq::<F>(),
            decreases self.table@.len() - i,
        {
            reveal(obeys_concrete_eq);
            if self.table[i] != F::EMPTY {
                n = n + 1;
            }
            i = i + 1;
        }
        if self.victim.is_some() {
            n + 1
        } else {
            n
        }
    }
}

} // verus!
