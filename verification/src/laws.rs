//! What holds of every filter.

use vstd::arithmetic::power2::{is_pow2, lemma2_to64};
use vstd::multiset::Multiset;
use vstd::prelude::*;

use crate::fingerprint::Fingerprint;
use crate::lemmas::{lemma_below_power_of_two, lemma_count_in_range, lemma_first_in};
use crate::sip::siphash13;
use crate::state::FilterState;

verus! {

/// The number that stands for a truth value in a count.
pub open spec fn one_if(b: bool) -> nat {
    if b {
        1
    } else {
        0
    }
}

impl<F: Fingerprint> FilterState<F> {
    /// To the filter, the items `a` and `b` look the same: they have the same
    /// fingerprint and the same two buckets.
    pub open spec fn alike(self, a: Seq<u8>, b: Seq<u8>) -> bool {
        let (i, _, fp) = self.place(a);
        let (j, _, x) = self.place(b);
        self.same_entry(i, fp, j, x)
    }

    /// The filter can take the operations: it meets the invariant, and there are
    /// buckets and, where entries are displaced, slots.
    pub open spec fn operable(self) -> bool {
        &&& self.wf()
        &&& self.bucket_count > 0
        &&& self.kickable()
    }
}

/// What an item's place is made of: two addressable buckets, each the other of the
/// other, and a fingerprint that is not the marker of an empty slot.
pub proof fn law_place<F: Fingerprint>(s: FilterState<F>, item: Seq<u8>)
    requires
        0 < s.bucket_count <= usize::MAX,
    ensures
        ({
            let (i1, i2, fp) = s.place(item);
            &&& s.addressable(i1) && s.addressable(i2)
            &&& s.alt_index(i1, fp) == i2 && s.alt_index(i2, fp) == i1
            &&& fp != F::EMPTY
        }),
{
    let h = siphash13(s.seed, item);
    s.lemma_index1(h);
    s.lemma_alt_index(s.index1(h), FilterState::<F>::fingerprint(h));
    FilterState::<F>::lemma_fingerprint_occupied(h);
}

/// With a power of two of buckets, every bucket is addressable.
pub proof fn law_all_addressable<F: Fingerprint>(s: FilterState<F>, b: nat)
    requires
        s.bucket_count <= usize::MAX,
        is_pow2(s.bucket_count as int),
    ensures
        s.addressable(b) <==> b < s.bucket_count,
{
    if b < s.bucket_count {
        lemma_below_power_of_two(s.bucket_count as u64, b as u64);
    }
}

/// The fingerprint of a hash depends on its low 16 bits alone, and its first bucket
/// on the other bits alone.
pub proof fn law_disjoint_hash_bits<F: Fingerprint>(s: FilterState<F>, h: u64, g: u64)
    ensures
        h % 0x1_0000 == g % 0x1_0000 ==> FilterState::<F>::fingerprint(h)
            == FilterState::<F>::fingerprint(g),
        h / 0x1_0000 == g / 0x1_0000 ==> s.index1(h) == s.index1(g),
{
    F::fingerprint_facts();
    lemma2_to64();
    assert(h >> 16 == h / 0x1_0000) by (bit_vector);
    assert(g >> 16 == g / 0x1_0000) by (bit_vector);
    assert(h % 0x1_0000 == g % 0x1_0000 ==> h % 0x100 == g % 0x100);
}

/// Looking the same is an equivalence.
pub proof fn law_alike_equivalence<F: Fingerprint>(
    s: FilterState<F>,
    a: Seq<u8>,
    b: Seq<u8>,
    c: Seq<u8>,
)
    requires
        0 < s.bucket_count <= usize::MAX,
    ensures
        s.alike(a, a),
        s.alike(a, b) ==> s.alike(b, a),
        s.alike(a, b) && s.alike(b, c) ==> s.alike(a, c),
{
    law_place(s, a);
    law_place(s, b);
    law_place(s, c);
}

/// An item is found if and only if its count is positive.
pub proof fn law_contains_iff_counted<F: Fingerprint>(s: FilterState<F>, item: Seq<u8>)
    ensures
        s.contains(item) <==> s.count(item) > 0,
{
    let (i1, i2, fp) = s.place(item);
    lemma_count_in_range(s.table, s.start(i1), s.end(i1), fp);
    lemma_count_in_range(s.table, s.start(i2), s.end(i2), fp);
}

/// Items that look the same have the same count.
pub proof fn law_alike_counts<F: Fingerprint>(s: FilterState<F>, a: Seq<u8>, b: Seq<u8>)
    requires
        0 < s.bucket_count <= usize::MAX,
        s.alike(a, b),
    ensures
        s.count(a) == s.count(b),
        s.contains(a) == s.contains(b),
{
    law_place(s, a);
    law_place(s, b);
}

/// An empty filter has no items.
pub proof fn law_empty<F: Fingerprint>(
    bucket_count: nat,
    bucket_size: nat,
    max_kicks: nat,
    seed: Seq<u8>,
    item: Seq<u8>,
)
    requires
        0 < bucket_count <= usize::MAX,
    ensures
        ({
            let s = FilterState::<F>::empty(bucket_count, bucket_size, max_kicks, seed);
            &&& s.count(item) == 0
            &&& !s.contains(item)
            &&& s.num_items == 0
        }),
{
    let s = FilterState::<F>::empty(bucket_count, bucket_size, max_kicks, seed);
    let (i1, i2, fp) = s.place(item);
    law_place(s, item);
    s.lemma_bucket_in_table(i1);
    s.lemma_bucket_in_table(i2);
    lemma_first_in(s.table, s.start(i1), s.end(i1), fp);
    lemma_first_in(s.table, s.start(i2), s.end(i2), fp);
    law_contains_iff_counted(s, item);
}

/// The item count is at most one more than the number of slots.
pub proof fn law_item_bound<F: Fingerprint>(s: FilterState<F>)
    requires
        s.wf(),
    ensures
        s.num_items <= s.bucket_count * s.bucket_size + 1,
{
    s.lemma_census_bound();
}

/// An insertion is refused if and only if there is a victim and both buckets of the
/// item are full.
pub proof fn law_insert_refused<F: Fingerprint>(s: FilterState<F>, item: Seq<u8>)
    ensures
        s.insert(item) is None <==> {
            let (i1, i2, _) = s.place(item);
            &&& s.victim is Some
            &&& forall|k: int| s.start(i1) <= k < s.end(i1) ==> s.table[k] != F::EMPTY
            &&& forall|k: int| s.start(i2) <= k < s.end(i2) ==> s.table[k] != F::EMPTY
        },
{
    let (i1, i2, _) = s.place(item);
    lemma_first_in(s.table, s.start(i1), s.end(i1), F::EMPTY);
    lemma_first_in(s.table, s.start(i2), s.end(i2), F::EMPTY);
}

/// An insertion that succeeds adds one to the count of every item that looks like the
/// inserted one, and to the item count; it changes the count of no other item.
pub proof fn law_insert_adds_one<F: Fingerprint>(
    s: FilterState<F>,
    item: Seq<u8>,
    other: Seq<u8>,
)
    requires
        s.wf(),
        s.bucket_count > 0,
        s.victim is None ==> s.kickable(),
    ensures
        s.insert(item) matches Some(t) ==> {
            &&& t.count(other) == s.count(other) + one_if(s.alike(other, item))
            &&& t.num_items == s.num_items + 1
            &&& t.wf()
            &&& t.same_parameters(s)
        },
{
    let (i1, i2, x) = s.place(item);
    let (i, j, fp) = s.place(other);
    law_place(s, item);
    law_place(s, other);
    s.lemma_insert_wf(i1, x);
    s.lemma_bucket_in_table(i1);
    s.lemma_bucket_in_table(i2);
    s.lemma_census_bound();
    s.lemma_same_entry_alt(i, fp, i1, x);
    lemma_first_in(s.table, s.start(i1), s.end(i1), F::EMPTY);
    lemma_first_in(s.table, s.start(i2), s.end(i2), F::EMPTY);
    let more = FilterState { num_items: s.num_items + 1, ..s };
    if let Some(k) = s.first_slot(i1, F::EMPTY) {
        s.lemma_set_slot_copies(i1, k, x, i, fp);
        assert(more.set_slot(k, x).count(other) == s.set_slot(k, x).copies(i, fp));
    } else if let Some(k) = s.first_slot(i2, F::EMPTY) {
        s.lemma_set_slot_copies(i2, k, x, i, fp);
        assert(more.set_slot(k, x).count(other) == s.set_slot(k, x).copies(i, fp));
    } else if s.victim is None {
        more.lemma_kick_census(i1, x, 0);
        more.lemma_kick_copies(i1, x, 0, i, fp);
    }
}

/// Moving the victim into a slot changes no count.
pub proof fn law_rehoming_keeps_counts<F: Fingerprint>(s: FilterState<F>, item: Seq<u8>)
    requires
        s.wf(),
    ensures
        s.rehomed().count(item) == s.count(item),
        s.rehomed().num_items == s.num_items,
        s.rehomed().wf(),
{
    s.lemma_rehomed_wf();
    let (i, j, fp) = s.place(item);
    if let Some((b, x)) = s.victim {
        law_place(s, item);
        let c = s.alt_index(b, x);
        let settled = FilterState { victim: None, ..s };
        s.lemma_alt_index(b, x);
        s.lemma_bucket_in_table(b);
        s.lemma_bucket_in_table(c);
        s.lemma_same_entry_alt(i, fp, b, x);
        lemma_first_in(s.table, s.start(b), s.end(b), F::EMPTY);
        lemma_first_in(s.table, s.start(c), s.end(c), F::EMPTY);
        if let Some(k) = s.first_slot(b, F::EMPTY) {
            settled.lemma_set_slot_copies(b, k, x, i, fp);
        } else if let Some(k) = s.first_slot(c, F::EMPTY) {
            settled.lemma_set_slot_copies(c, k, x, i, fp);
        }
    }
}

/// After a deletion from the table, a victim that is still there has no room in
/// either of its buckets.
pub proof fn law_deletion_rehomes<F: Fingerprint>(s: FilterState<F>, item: Seq<u8>)
    ensures
        s.delete(item) matches Some(t) ==> (t.victim matches Some((b, x)) ==> {
            &&& s.victim == Some((b, x))
            &&& forall|k: int| s.start(b) <= k < s.end(b) ==> t.table[k] != F::EMPTY
            &&& forall|k: int|
                s.start(s.alt_index(b, x)) <= k < s.end(s.alt_index(b, x)) ==> t.table[k]
                    != F::EMPTY
        }),
{
    if let Some(t) = s.delete(item) {
        if let Some((b, x)) = t.victim {
            let c = s.alt_index(b, x);
            lemma_first_in(t.table, s.start(b), s.end(b), F::EMPTY);
            lemma_first_in(t.table, s.start(c), s.end(c), F::EMPTY);
        }
    }
}

/// A deletion succeeds if and only if the item is found.
pub proof fn law_delete_iff_contained<F: Fingerprint>(s: FilterState<F>, item: Seq<u8>)
    ensures
        s.delete(item) is Some <==> s.contains(item),
{
}

/// A deletion that succeeds takes one from the count of every item that looks like
/// the deleted one, and from the item count; it changes the count of no other item.
pub proof fn law_delete_removes_one<F: Fingerprint>(
    s: FilterState<F>,
    item: Seq<u8>,
    other: Seq<u8>,
)
    requires
        s.wf(),
        s.bucket_count > 0,
    ensures
        s.delete(item) matches Some(t) ==> {
            &&& t.count(other) + one_if(s.alike(other, item)) == s.count(other)
            &&& t.num_items + 1 == s.num_items
            &&& t.wf()
            &&& t.same_parameters(s)
        },
{
    let (i1, i2, x) = s.place(item);
    let (i, j, fp) = s.place(other);
    law_place(s, item);
    law_place(s, other);
    s.lemma_delete_wf(i1, x);
    s.lemma_bucket_in_table(i1);
    s.lemma_bucket_in_table(i2);
    s.lemma_same_entry_alt(i, fp, i1, x);
    lemma_first_in(s.table, s.start(i1), s.end(i1), x);
    lemma_first_in(s.table, s.start(i2), s.end(i2), x);
    let fewer = FilterState { num_items: (s.num_items - 1) as nat, ..s };
    if s.matches_victim(i1, i2, x) {
    } else if let Some(k) = s.first_slot(i1, x) {
        s.lemma_set_slot_copies(i1, k, F::EMPTY, i, fp);
        s.lemma_set_slot_census(k, F::EMPTY);
        law_rehoming_keeps_counts(fewer.set_slot(k, F::EMPTY), other);
    } else if let Some(k) = s.first_slot(i2, x) {
        s.lemma_set_slot_copies(i2, k, F::EMPTY, i, fp);
        s.lemma_set_slot_census(k, F::EMPTY);
        law_rehoming_keeps_counts(fewer.set_slot(k, F::EMPTY), other);
    }
}

/// An inserted item is found, and so is every item that was found before.
pub proof fn law_inserted_is_found<F: Fingerprint>(
    s: FilterState<F>,
    item: Seq<u8>,
    other: Seq<u8>,
)
    requires
        s.wf(),
        s.bucket_count > 0,
        s.victim is None ==> s.kickable(),
    ensures
        s.insert(item) matches Some(t) ==> {
            &&& t.contains(item)
            &&& s.contains(other) ==> t.contains(other)
        },
{
    if let Some(t) = s.insert(item) {
        law_insert_adds_one(s, item, item);
        law_insert_adds_one(s, item, other);
        law_alike_equivalence(s, item, item, item);
        law_contains_iff_counted(t, item);
        law_contains_iff_counted(t, other);
        law_contains_iff_counted(s, other);
    }
}

/// A deletion undoes an insertion: it succeeds, and all counts and the item count are
/// what they were.
pub proof fn law_delete_undoes_insert<F: Fingerprint>(
    s: FilterState<F>,
    item: Seq<u8>,
    other: Seq<u8>,
)
    requires
        s.wf(),
        s.bucket_count > 0,
        s.victim is None ==> s.kickable(),
    ensures
        s.insert(item) matches Some(t) ==> {
            &&& t.delete(item) is Some
            &&& t.delete(item)->0.count(other) == s.count(other)
            &&& t.delete(item)->0.contains(other) == s.contains(other)
            &&& t.delete(item)->0.num_items == s.num_items
        },
{
    if let Some(t) = s.insert(item) {
        law_inserted_is_found(s, item, item);
        law_insert_adds_one(s, item, other);
        law_delete_removes_one(t, item, other);
        law_contains_iff_counted(s, other);
        law_contains_iff_counted(t.delete(item)->0, other);
    }
}

// Histories.

/// An operation that changes a filter.
pub enum Op {
    Insert(Seq<u8>),
    Delete(Seq<u8>),
}

impl<F: Fingerprint> FilterState<F> {
    /// The filter after an operation; one that fails changes nothing.
    pub open spec fn after(self, op: Op) -> Self {
        let outcome = match op {
            Op::Insert(item) => self.insert(item),
            Op::Delete(item) => self.delete(item),
        };
        match outcome {
            Some(t) => t,
            None => self,
        }
    }

    /// The filter after a sequence of operations.
    pub open spec fn run(self, ops: Seq<Op>) -> Self
        decreases ops.len(),
    {
        if ops.len() == 0 {
            self
        } else {
            self.run(ops.drop_last()).after(ops.last())
        }
    }

    /// The items that a sequence of operations leaves inserted: those whose
    /// insertion succeeded, less those that were deleted.
    pub open spec fn inserted(self, ops: Seq<Op>) -> Multiset<Seq<u8>>
        decreases ops.len(),
    {
        if ops.len() == 0 {
            Multiset::empty()
        } else {
            let before = self.inserted(ops.drop_last());
            match ops.last() {
                Op::Insert(item) => if self.run(ops.drop_last()).insert(item) is Some {
                    before.insert(item)
                } else {
                    before
                },
                Op::Delete(item) => before.remove(item),
            }
        }
    }

    /// The operations delete only what is inserted at the time.
    pub open spec fn disciplined(self, ops: Seq<Op>) -> bool
        decreases ops.len(),
    {
        ops.len() == 0 || {
            &&& self.disciplined(ops.drop_last())
            &&& ops.last() matches Op::Delete(item) ==> self.inserted(
                ops.drop_last(),
            ).count(item) > 0
        }
    }
}

/// Every operation keeps a filter operable and its parameters what they were.
pub proof fn law_invariant<F: Fingerprint>(s: FilterState<F>, ops: Seq<Op>)
    requires
        s.operable(),
    ensures
        s.run(ops).operable(),
        s.run(ops).same_parameters(s),
    decreases ops.len(),
{
    if ops.len() > 0 {
        let t = s.run(ops.drop_last());
        law_invariant(s, ops.drop_last());
        match ops.last() {
            Op::Insert(item) => law_insert_adds_one(t, item, item),
            Op::Delete(item) => law_delete_removes_one(t, item, item),
        }
    }
}

/// The layout is deterministic: empty filters with the same parameters and the same seed
/// are the same filter after the same operations, slot by slot and byte by byte.
pub proof fn law_deterministic_layout<F: Fingerprint>(
    s: FilterState<F>,
    t: FilterState<F>,
    ops: Seq<Op>,
)
    requires
        s == FilterState::<F>::empty(s.bucket_count, s.bucket_size, s.max_kicks, s.seed),
        t == FilterState::<F>::empty(t.bucket_count, t.bucket_size, t.max_kicks, t.seed),
        s.same_parameters(t),
    ensures
        s.run(ops) == t.run(ops),
        s.run(ops).encoded() == t.run(ops).encoded(),
{
}

/// Operations that delete only what they have inserted add to the count of an item the
/// number of inserted items that look like it, and to the item count the number of
/// inserted items. An empty filter starts from 0 in both.
pub proof fn law_counts_of_history<F: Fingerprint>(
    s: FilterState<F>,
    ops: Seq<Op>,
    item: Seq<u8>,
)
    requires
        s.operable(),
        s.disciplined(ops),
    ensures
        s.run(ops).count(item) == s.count(item) + s.inserted(ops).filter(
            |other: Seq<u8>| s.alike(item, other),
        ).len(),
        s.run(ops).num_items == s.num_items + s.inserted(ops).len(),
    decreases ops.len(),
{
    let like = |other: Seq<u8>| s.alike(item, other);
    if ops.len() == 0 {
        assert(Multiset::<Seq<u8>>::empty().filter(like) =~= Multiset::empty());
    } else {
        let prior = ops.drop_last();
        let t = s.run(prior);
        let before = s.inserted(prior);
        law_invariant(s, prior);
        law_counts_of_history(s, prior, item);
        match ops.last() {
            Op::Insert(x) => {
                law_insert_adds_one(t, x, item);
                assert(before.insert(x).filter(like) =~= if like(x) {
                    before.filter(like).insert(x)
                } else {
                    before.filter(like)
                });
            },
            Op::Delete(x) => {
                law_counts_of_history(s, prior, x);
                lemma_inserted_is_like_itself(s, before, x);
                law_contains_iff_counted(t, x);
                law_delete_removes_one(t, x, item);
                assert(before.remove(x).filter(like) =~= if like(x) {
                    before.filter(like).remove(x)
                } else {
                    before.filter(like)
                });
            },
        }
    }
}

/// An inserted item is among the inserted items that look like it.
proof fn lemma_inserted_is_like_itself<F: Fingerprint>(
    s: FilterState<F>,
    items: Multiset<Seq<u8>>,
    item: Seq<u8>,
)
    requires
        0 < s.bucket_count <= usize::MAX,
    ensures
        items.count(item) <= items.filter(|other: Seq<u8>| s.alike(item, other)).len(),
{
    let like = |other: Seq<u8>| s.alike(item, other);
    law_alike_equivalence(s, item, item, item);
    assert(items.filter(like).count(item) == items.count(item));
}

/// No false negatives: after operations that delete only what they have inserted, every
/// inserted item is found, and so is every item that was found before; an item is
/// counted at least as often as it was before and as it is inserted, taken together.
pub proof fn law_no_false_negatives<F: Fingerprint>(
    s: FilterState<F>,
    ops: Seq<Op>,
    item: Seq<u8>,
)
    requires
        s.operable(),
        s.disciplined(ops),
    ensures
        s.run(ops).count(item) >= s.count(item) + s.inserted(ops).count(item),
        s.inserted(ops).count(item) > 0 ==> s.run(ops).contains(item),
        s.contains(item) ==> s.run(ops).contains(item),
{
    law_invariant(s, ops);
    law_counts_of_history(s, ops, item);
    lemma_inserted_is_like_itself(s, s.inserted(ops), item);
    law_contains_iff_counted(s.run(ops), item);
    law_contains_iff_counted(s, item);
}

} // verus!
