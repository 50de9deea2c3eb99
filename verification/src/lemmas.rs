//! Facts about the model that the filter's operations rest on.

use vstd::arithmetic::power2::{is_pow2, lemma2_to64};
use vstd::prelude::*;
use vstd::wrapping::u64_specs::wrapping_mul;

use crate::fingerprint::Fingerprint;
use crate::state::{count_in, first_in, FilterState, MIX};

verus! {

// Searching and counting in a range.

/// `first_in` finds the first position that holds `x`, or there is none.
pub proof fn lemma_first_in<A>(s: Seq<A>, lo: int, hi: int, x: A)
    ensures
        first_in(s, lo, hi, x) matches Some(k) ==> {
            &&& lo <= k < hi
            &&& s[k] == x
            &&& forall|j: int| lo <= j < k ==> s[j] != x
        },
        first_in(s, lo, hi, x) is None ==> forall|j: int| lo <= j < hi ==> s[j] != x,
    decreases hi - lo,
{
    if lo < hi && s[lo] != x {
        lemma_first_in(s, lo + 1, hi, x);
    }
}

/// A count is at most the number of positions, and it is 0 where nothing is found.
pub proof fn lemma_count_in_range<A>(s: Seq<A>, lo: int, hi: int, x: A)
    requires
        lo <= hi,
    ensures
        count_in(s, lo, hi, x) <= hi - lo,
        count_in(s, lo, hi, x) == 0 <==> first_in(s, lo, hi, x) is None,
    decreases hi - lo,
{
    lemma_first_in(s, lo, hi, x);
    if lo < hi {
        lemma_count_in_range(s, lo, hi - 1, x);
        lemma_first_in(s, lo, hi - 1, x);
    }
}

/// A count over positions that all hold `x` is their number.
pub proof fn lemma_count_in_all<A>(s: Seq<A>, lo: int, hi: int, x: A)
    requires
        lo <= hi,
        forall|j: int| lo <= j < hi ==> s[j] == x,
    ensures
        count_in(s, lo, hi, x) == hi - lo,
    decreases hi - lo,
{
    if lo < hi {
        lemma_count_in_all(s, lo, hi - 1, x);
    }
}

/// Writing `y` at position `k` moves the count of `x` by what is won and lost there.
pub proof fn lemma_count_in_update<A>(s: Seq<A>, lo: int, hi: int, x: A, k: int, y: A)
    requires
        0 <= lo <= hi <= s.len(),
        0 <= k < s.len(),
    ensures
        count_in(s.update(k, y), lo, hi, x) + (if lo <= k < hi && s[k] == x {
            1int
        } else {
            0int
        }) == count_in(s, lo, hi, x) + (if lo <= k < hi && y == x {
            1int
        } else {
            0int
        }),
    decreases hi - lo,
{
    if lo < hi {
        lemma_count_in_update(s, lo, hi - 1, x, k, y);
    }
}

// Bucket numbers.

/// The bit arithmetic of bucket numbers under the mask `m`.
proof fn lemma_mask_bits(b: u64, m: u64, x: u64)
    ensures
        x & m <= m,
        (x & m) & m == x & m,
        (b ^ (x & m)) ^ (x & m) == b,
        b & m == b ==> (b ^ (x & m)) & m == b ^ (x & m),
        b & m == b ==> b ^ (x & m) <= m,
{
    assert(x & m <= m) by (bit_vector);
    assert((x & m) & m == x & m) by (bit_vector);
    assert((b ^ (x & m)) ^ (x & m) == b) by (bit_vector);
    assert(b & m == b ==> (b ^ (x & m)) & m == b ^ (x & m)) by (bit_vector);
    assert(b & m == b ==> b ^ (x & m) <= m) by (bit_vector);
}

/// A positive number is a power of two if and only if it has no bit in common with
/// its predecessor.
pub proof fn lemma_power_of_two_bits(x: u64)
    requires
        x > 0,
    ensures
        is_pow2(x as int) <==> x & ((x - 1) as u64) == 0,
    decreases x,
{
    reveal(is_pow2);
    if x == 1 {
        assert(1u64 & 0u64 == 0) by (bit_vector);
    } else {
        let half: u64 = x / 2;
        lemma_power_of_two_bits(half);
        assert(x % 2 == 1 ==> x & ((x - 1) as u64) != 0) by (bit_vector)
            requires
                x > 1,
        ;
        assert(x % 2 == 0 ==> (x & ((x - 1) as u64) == 0 <==> half & ((half - 1) as u64) == 0))
            by (bit_vector)
            requires
                x > 1,
                half == x / 2,
        ;
    }
}

/// A number below a power of two has no bit outside the predecessor of that power.
pub proof fn lemma_below_power_of_two(x: u64, b: u64)
    requires
        is_pow2(x as int),
        b < x,
    ensures
        b & ((x - 1) as u64) == b,
{
    lemma_power_of_two_bits(x);
    assert(b & ((x - 1) as u64) == b) by (bit_vector)
        requires
            x & ((x - 1) as u64) == 0,
            b < x,
    ;
}

impl<F: Fingerprint> FilterState<F> {
    /// Entry (`b`, `x`) is a copy of the entry (`i`, `fp`): the fingerprints are
    /// equal, and so are the pairs of buckets.
    pub open spec fn same_entry(self, i: nat, fp: F, b: nat, x: F) -> bool {
        x == fp && (b == i || b == self.alt_index(i, fp))
    }

    /// The number of copies of the entry (`i`, `fp`).
    pub open spec fn copies(self, i: nat, fp: F) -> nat {
        self.count_at(i, self.alt_index(i, fp), fp)
    }

    /// The first bucket of a hash is addressable.
    pub proof fn lemma_index1(self, h: u64)
        requires
            0 < self.bucket_count <= usize::MAX,
        ensures
            self.addressable(self.index1(h)),
    {
        lemma_mask_bits(0, (self.bucket_count - 1) as u64, h >> 16);
    }

    /// The other bucket is addressable, and its other bucket is the first again.
    pub proof fn lemma_alt_index(self, b: nat, fp: F)
        requires
            self.bucket_count <= usize::MAX,
            self.addressable(b),
        ensures
            self.addressable(self.alt_index(b, fp)),
            self.alt_index(self.alt_index(b, fp), fp) == b,
    {
        lemma_mask_bits(
            b as u64,
            (self.bucket_count - 1) as u64,
            wrapping_mul(fp.code(), MIX),
        );
    }

    /// The fingerprint of a hash is not the marker of an empty slot.
    pub proof fn lemma_fingerprint_occupied(h: u64)
        ensures
            Self::fingerprint(h) != F::EMPTY,
    {
        F::fingerprint_facts();
        lemma2_to64();
    }

    /// Being a copy does not depend on which of its two buckets names an entry.
    pub proof fn lemma_same_entry_alt(self, i: nat, fp: F, b: nat, x: F)
        requires
            self.bucket_count <= usize::MAX,
            self.addressable(i),
            self.addressable(b),
        ensures
            self.same_entry(i, fp, self.alt_index(b, x), x) == self.same_entry(i, fp, b, x),
    {
        self.lemma_alt_index(i, fp);
        self.lemma_alt_index(b, x);
    }

    // Slots.

    /// An addressable bucket lies within the table.
    pub proof fn lemma_bucket_in_table(self, b: nat)
        requires
            self.table.len() == self.bucket_count * self.bucket_size,
            b < self.bucket_count,
        ensures
            0 <= self.start(b) <= self.end(b) <= self.table.len(),
            self.has_bucket(b),
    {
        let n = self.bucket_count;
        let z = self.bucket_size;
        assert(b * z + z <= n * z) by (nonlinear_arith)
            requires
                b + 1 <= n,
        ;
        assert(0 <= b * z) by (nonlinear_arith);
    }

    /// Different buckets have no slot in common.
    pub proof fn lemma_buckets_disjoint(self, a: nat, b: nat)
        requires
            a != b,
        ensures
            self.end(a) <= self.start(b) || self.end(b) <= self.start(a),
    {
        let z = self.bucket_size;
        if a < b {
            assert(a * z + z <= b * z) by (nonlinear_arith)
                requires
                    a + 1 <= b,
            ;
        } else {
            assert(b * z + z <= a * z) by (nonlinear_arith)
                requires
                    b + 1 <= a,
            ;
        }
    }

    /// Writing `y` into slot `k` of bucket `b` wins a copy of the entry (`b`, `y`)
    /// and loses a copy of the entry that had the slot.
    pub proof fn lemma_set_slot_copies(self, b: nat, k: int, y: F, i: nat, fp: F)
        requires
            self.shaped(),
            self.addressable(b),
            self.addressable(i),
            self.start(b) <= k < self.end(b),
        ensures
            self.set_slot(k, y).copies(i, fp) + (if self.same_entry(i, fp, b, self.table[k]) {
                1int
            } else {
                0int
            }) == self.copies(i, fp) + (if self.same_entry(i, fp, b, y) {
                1int
            } else {
                0int
            }),
    {
        let j = self.alt_index(i, fp);
        self.lemma_alt_index(i, fp);
        self.lemma_bucket_in_table(b);
        self.lemma_bucket_in_table(i);
        self.lemma_bucket_in_table(j);
        if i != b {
            self.lemma_buckets_disjoint(i, b);
        }
        if j != b {
            self.lemma_buckets_disjoint(j, b);
        }
        lemma_count_in_update(self.table, self.start(i), self.end(i), fp, k, y);
        lemma_count_in_update(self.table, self.start(j), self.end(j), fp, k, y);
    }

    /// Writing `y` into slot `k` moves the census by what is won and lost there.
    pub proof fn lemma_set_slot_census(self, k: int, y: F)
        requires
            0 <= k < self.table.len(),
        ensures
            self.set_slot(k, y).census() + (if self.table[k] == F::EMPTY {
                0int
            } else {
                1int
            }) == self.census() + (if y == F::EMPTY {
                0int
            } else {
                1int
            }),
    {
        let n = self.table.len() as int;
        lemma_count_in_update(self.table, 0, n, F::EMPTY, k, y);
        lemma_count_in_range(self.table, 0, n, F::EMPTY);
        lemma_count_in_range(self.table.update(k, y), 0, n, F::EMPTY);
    }

    /// The census is at most one more than the number of slots.
    pub proof fn lemma_census_bound(self)
        ensures
            self.census() <= self.table.len() + (if self.victim is Some {
                1int
            } else {
                0int
            }),
            self.victim is Some ==> self.census() >= 1,
    {
        lemma_count_in_range(self.table, 0, self.table.len() as int, F::EMPTY);
    }

    // Chains of displacements.

    /// The slot that a displacement takes is one of the bucket.
    pub proof fn lemma_kicked_slot(self, b: nat, fp: F, n: nat)
        requires
            self.bucket_size > 0,
        ensures
            self.start(b) <= self.kicked_slot(b, fp, n) < self.end(b),
    {
        let z = self.bucket_size as int;
        assert(0 <= (fp.code() + n) % z < z) by (nonlinear_arith)
            requires
                z > 0,
        ;
    }

    /// A chain of displacements keeps the parameters and the item count, and ends
    /// with one entry more.
    pub proof fn lemma_kick_census(self, b: nat, fp: F, n: nat)
        requires
            self.shaped(),
            self.addressable(b),
            fp != F::EMPTY,
            self.victim is None,
            self.bucket_size > 0 || n >= self.max_kicks,
        ensures
            self.kick(b, fp, n).shaped(),
            self.kick(b, fp, n).bucket_count == self.bucket_count,
            self.kick(b, fp, n).bucket_size == self.bucket_size,
            self.kick(b, fp, n).max_kicks == self.max_kicks,
            self.kick(b, fp, n).seed == self.seed,
            self.kick(b, fp, n).num_items == self.num_items,
            self.kick(b, fp, n).census() == self.census() + 1,
            self.kick(b, fp, n).victim matches Some((vb, vfp)) ==> self.addressable(vb) && vfp
                != F::EMPTY,
        decreases self.max_kicks - n,
    {
        lemma_count_in_range(self.table, 0, self.table.len() as int, F::EMPTY);
        if n < self.max_kicks {
            self.lemma_bucket_in_table(b);
            lemma_first_in(self.table, self.start(b), self.end(b), F::EMPTY);
            match self.first_slot(b, F::EMPTY) {
                Some(k) => {
                    self.lemma_set_slot_census(k, fp);
                },
                None => {
                    let k = self.kicked_slot(b, fp, n);
                    self.lemma_kicked_slot(b, fp, n);
                    let orphan = self.table[k];
                    self.lemma_set_slot_census(k, fp);
                    self.lemma_alt_index(b, orphan);
                    self.set_slot(k, fp).lemma_kick_census(
                        self.alt_index(b, orphan),
                        orphan,
                        n + 1,
                    );
                },
            }
        }
    }

    /// A chain of displacements wins one copy of the entry that started it and
    /// loses no copy of any entry.
    pub proof fn lemma_kick_copies(self, b: nat, x: F, n: nat, i: nat, fp: F)
        requires
            self.shaped(),
            self.addressable(b),
            self.addressable(i),
            self.victim is None,
            x != F::EMPTY,
            fp != F::EMPTY,
            self.bucket_size > 0 || n >= self.max_kicks,
        ensures
            self.kick(b, x, n).copies(i, fp) == self.copies(i, fp) + (if self.same_entry(
                i,
                fp,
                b,
                x,
            ) {
                1nat
            } else {
                0nat
            }),
        decreases self.max_kicks - n,
    {
        if n < self.max_kicks {
            self.lemma_bucket_in_table(b);
            lemma_first_in(self.table, self.start(b), self.end(b), F::EMPTY);
            match self.first_slot(b, F::EMPTY) {
                Some(k) => {
                    self.lemma_set_slot_copies(b, k, x, i, fp);
                },
                None => {
                    let k = self.kicked_slot(b, x, n);
                    self.lemma_kicked_slot(b, x, n);
                    let orphan = self.table[k];
                    let next = self.set_slot(k, x);
                    self.lemma_set_slot_copies(b, k, x, i, fp);
                    self.lemma_alt_index(b, orphan);
                    self.lemma_same_entry_alt(i, fp, b, orphan);
                    next.lemma_kick_copies(self.alt_index(b, orphan), orphan, n + 1, i, fp);
                },
            }
        }
    }

    // Operations.

    /// Inserting a proper entry by displacements keeps the invariant.
    pub proof fn lemma_kick_insert_wf(self, b: nat, fp: F)
        requires
            self.wf(),
            self.addressable(b),
            fp != F::EMPTY,
            self.victim is None ==> self.kickable(),
        ensures
            self.kick_insert(b, fp) matches Some(t) ==> t.wf() && t.same_parameters(self),
    {
        if self.victim is None {
            self.lemma_census_bound();
            (FilterState { num_items: self.num_items + 1, ..self }).lemma_kick_census(b, fp, 0);
        }
    }

    /// Inserting a proper entry keeps the invariant.
    pub proof fn lemma_insert_wf(self, i: nat, fp: F)
        requires
            self.wf(),
            self.addressable(i),
            fp != F::EMPTY,
            self.victim is None ==> self.kickable(),
        ensures
            self.insert_at(i, self.alt_index(i, fp), fp) matches Some(t) ==> t.wf()
                && t.same_parameters(self),
    {
        let j = self.alt_index(i, fp);
        self.lemma_alt_index(i, fp);
        self.lemma_bucket_in_table(i);
        self.lemma_bucket_in_table(j);
        self.lemma_census_bound();
        lemma_first_in(self.table, self.start(i), self.end(i), F::EMPTY);
        lemma_first_in(self.table, self.start(j), self.end(j), F::EMPTY);
        let more = FilterState { num_items: self.num_items + 1, ..self };
        if let Some(k) = self.first_slot(i, F::EMPTY) {
            more.lemma_set_slot_census(k, fp);
            more.set_slot(k, fp).lemma_census_bound();
        } else if let Some(k) = self.first_slot(j, F::EMPTY) {
            more.lemma_set_slot_census(k, fp);
            more.set_slot(k, fp).lemma_census_bound();
        } else {
            self.lemma_kick_insert_wf(i, fp);
        }
    }

    /// Moving the victim into an empty slot keeps the invariant.
    pub proof fn lemma_rehomed_wf(self)
        requires
            self.wf(),
        ensures
            self.rehomed().wf(),
            self.rehomed().same_parameters(self),
    {
        if let Some((b, fp)) = self.victim {
            let j = self.alt_index(b, fp);
            let settled = FilterState { victim: None, ..self };
            self.lemma_alt_index(b, fp);
            self.lemma_bucket_in_table(b);
            self.lemma_bucket_in_table(j);
            self.lemma_census_bound();
            lemma_first_in(self.table, self.start(b), self.end(b), F::EMPTY);
            lemma_first_in(self.table, self.start(j), self.end(j), F::EMPTY);
            lemma_count_in_range(self.table, 0, self.table.len() as int, F::EMPTY);
            if let Some(k) = self.first_slot(b, F::EMPTY) {
                settled.lemma_set_slot_census(k, fp);
            } else if let Some(k) = self.first_slot(j, F::EMPTY) {
                settled.lemma_set_slot_census(k, fp);
            }
        }
    }

    /// Deleting keeps the invariant; what is deleted was counted.
    pub proof fn lemma_delete_wf(self, i: nat, fp: F)
        requires
            self.wf(),
            self.addressable(i),
            fp != F::EMPTY,
        ensures
            self.delete_at(i, self.alt_index(i, fp), fp) matches Some(t) ==> {
                &&& self.num_items >= 1
                &&& t.wf()
                &&& t.same_parameters(self)
            },
    {
        let j = self.alt_index(i, fp);
        self.lemma_alt_index(i, fp);
        self.lemma_bucket_in_table(i);
        self.lemma_bucket_in_table(j);
        self.lemma_census_bound();
        lemma_first_in(self.table, self.start(i), self.end(i), fp);
        lemma_first_in(self.table, self.start(j), self.end(j), fp);
        lemma_count_in_range(self.table, 0, self.table.len() as int, F::EMPTY);
        let fewer = FilterState { num_items: (self.num_items - 1) as nat, ..self };
        if self.matches_victim(i, j, fp) {
        } else if let Some(k) = self.first_slot(i, fp) {
            fewer.lemma_set_slot_census(k, F::EMPTY);
            fewer.set_slot(k, F::EMPTY).lemma_rehomed_wf();
        } else if let Some(k) = self.first_slot(j, fp) {
            fewer.lemma_set_slot_census(k, F::EMPTY);
            fewer.set_slot(k, F::EMPTY).lemma_rehomed_wf();
        }
    }

    /// An empty filter meets the invariant.
    pub proof fn lemma_empty_wf(
        bucket_count: nat,
        bucket_size: nat,
        max_kicks: nat,
        seed: Seq<u8>,
    )
        requires
            Self::empty(bucket_count, bucket_size, max_kicks, seed).shaped(),
        ensures
            Self::empty(bucket_count, bucket_size, max_kicks, seed).wf(),
    {
        let s = Self::empty(bucket_count, bucket_size, max_kicks, seed);
        lemma_count_in_all(s.table, 0, s.table.len() as int, F::EMPTY);
    }
}

} // verus!
