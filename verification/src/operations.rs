//! What the operations do, slot by slot: the laws of looking up, inserting and deleting.
//!
//! The slots of bucket `b` are the positions from `b * bucket_size` on and before
//! `(b + 1) * bucket_size`; the number 0 marks an empty one.

use vstd::arithmetic::power2::pow2;
use vstd::prelude::*;
use vstd::set_lib::lemma_set_disjoint_lens;

use crate::filter::Filter;
use crate::fingerprint::Fingerprint;
use crate::lemmas::lemma_first_in;
use crate::placement::law_place_of_item;
use crate::sip::siphash13;
use crate::state::{count_in, first_in, FilterState};

verus! {

/// The model of a filter has the fields of the filter.
pub proof fn law_model<F: Fingerprint>(f: Filter<F>)
    ensures
        f@.table == f.table@,
        f@.bucket_count == f.bucket_count,
        f@.bucket_size == f.bucket_size,
        f@.max_kicks == f.max_kicks,
        f@.seed == f.seed@,
        f@.num_items == f.num_items,
        f@.victim is Some <==> f.victim is Some,
        f.victim matches Some((b, fp)) ==> f@.victim == Some((b as nat, fp)),
{
}

/// The first position with `x` in a range is the one below which the range has no `x`.
proof fn lemma_first_is<A>(s: Seq<A>, lo: int, hi: int, x: A, k: int)
    requires
        lo <= k < hi,
        s[k] == x,
        forall|j: int| lo <= j < k ==> s[j] != x,
    ensures
        first_in(s, lo, hi, x) == Some(k),
{
    lemma_first_in(s, lo, hi, x);
}

/// `count_in` is the size of a set of positions.
proof fn lemma_count_in_is_len<A>(s: Seq<A>, lo: int, hi: int, x: A)
    ensures
        Set::new(|k: int| lo <= k < hi && s[k] == x).finite(),
        count_in(s, lo, hi, x) == Set::new(|k: int| lo <= k < hi && s[k] == x).len(),
    decreases hi - lo,
{
    let all = Set::new(|k: int| lo <= k < hi && s[k] == x);
    if lo >= hi {
        assert(all =~= Set::empty());
    } else {
        lemma_count_in_is_len(s, lo, hi - 1, x);
        let most = Set::new(|k: int| lo <= k < hi - 1 && s[k] == x);
        if s[hi - 1] == x {
            assert(all =~= most.insert(hi - 1));
        } else {
            assert(all =~= most);
        }
    }
}

/// The positions that hold `x` and those that do not are all positions.
proof fn lemma_count_in_rest<A>(s: Seq<A>, hi: int, x: A)
    requires
        0 <= hi,
    ensures
        Set::new(|k: int| 0 <= k < hi && s[k] != x).finite(),
        count_in(s, 0, hi, x) + Set::new(|k: int| 0 <= k < hi && s[k] != x).len() == hi,
    decreases hi,
{
    let all = Set::new(|k: int| 0 <= k < hi && s[k] != x);
    if hi == 0 {
        assert(all =~= Set::empty());
    } else {
        lemma_count_in_rest(s, hi - 1, x);
        let most = Set::new(|k: int| 0 <= k < hi - 1 && s[k] != x);
        if s[hi - 1] != x {
            assert(all =~= most.insert(hi - 1));
        } else {
            assert(all =~= most);
        }
    }
}

/// The slots of a bucket end where those of the next begin.
proof fn lemma_bucket_end<F: Fingerprint>(s: FilterState<F>, b: nat)
    ensures
        s.start(b) == b * s.bucket_size,
        s.end(b) == (b + 1) * s.bucket_size,
{
    let z = s.bucket_size;
    assert((b + 1) * z == b * z + z) by (nonlinear_arith);
}

/// A fingerprint marks an empty slot if and only if its number is 0.
proof fn lemma_empty_is_zero<F: Fingerprint>()
    ensures
        forall|fp: F| #[trigger] fp.code() == 0 <==> fp == F::EMPTY,
{
    F::fingerprint_facts();
    assert forall|fp: F| #[trigger] fp.code() == 0 <==> fp == F::EMPTY by {
        assert(F::of_code(fp.code()) == fp);
        assert(F::of_code(F::EMPTY.code()) == F::EMPTY);
    }
}

// Looking up.

/// An entry is found if and only if a slot of one of its two buckets holds its
/// fingerprint, or the victim is such an entry.
pub proof fn law_found_where<F: Fingerprint>(s: FilterState<F>, i1: nat, i2: nat, fp: F)
    ensures
        s.contains_at(i1, i2, fp) <==> {
            ||| exists|k: int|
                (i1 * s.bucket_size <= k < (i1 + 1) * s.bucket_size || i2 * s.bucket_size <= k < (i2
                    + 1) * s.bucket_size) && #[trigger] s.table[k] == fp
            ||| s.victim == Some((i1, fp))
            ||| s.victim == Some((i2, fp))
        },
{
    lemma_bucket_end(s, i1);
    lemma_bucket_end(s, i2);
    lemma_first_in(s.table, s.start(i1), s.end(i1), fp);
    lemma_first_in(s.table, s.start(i2), s.end(i2), fp);
    if let Some(k) = s.first_slot(i1, fp) {
        assert(s.table[k] == fp);
    }
    if let Some(k) = s.first_slot(i2, fp) {
        assert(s.table[k] == fp);
    }
}

/// The count of an entry is the number of slots of its two buckets that hold its
/// fingerprint, each slot counted once, and one for a victim that is such an entry.
pub proof fn law_count_is_size<F: Fingerprint>(s: FilterState<F>, i1: nat, i2: nat, fp: F)
    ensures
        ({
            let slots = Set::new(
                |k: int|
                    (i1 * s.bucket_size <= k < (i1 + 1) * s.bucket_size || i2 * s.bucket_size <= k
                        < (i2 + 1) * s.bucket_size) && s.table[k] == fp,
            );
            &&& slots.finite()
            &&& s.count_at(i1, i2, fp) == slots.len() + (if s.victim == Some((i1, fp)) || s.victim
                == Some((i2, fp)) {
                1nat
            } else {
                0nat
            })
        }),
{
    let slots = Set::new(
        |k: int|
            (i1 * s.bucket_size <= k < (i1 + 1) * s.bucket_size || i2 * s.bucket_size <= k < (i2
                + 1) * s.bucket_size) && s.table[k] == fp,
    );
    let (lo1, hi1) = (s.start(i1), s.end(i1));
    let (lo2, hi2) = (s.start(i2), s.end(i2));
    lemma_bucket_end(s, i1);
    lemma_bucket_end(s, i2);
    lemma_count_in_is_len(s.table, lo1, hi1, fp);
    lemma_count_in_is_len(s.table, lo2, hi2, fp);
    let a = Set::new(|k: int| lo1 <= k < hi1 && s.table[k] == fp);
    let b = Set::new(|k: int| lo2 <= k < hi2 && s.table[k] == fp);
    if i1 == i2 {
        assert(slots =~= a);
    } else {
        s.lemma_buckets_disjoint(i1, i2);
        assert(slots =~= a + b);
        assert(a.disjoint(b));
        lemma_set_disjoint_lens(a, b);
    }
}

/// The census is the number of slots in use, and one for a victim. In a filter that
/// meets the invariant it is the item count.
pub proof fn law_census_is_size<F: Fingerprint>(s: FilterState<F>)
    ensures
        ({
            let used = Set::new(|k: int| 0 <= k < s.table.len() && s.table[k].code() != 0);
            let entries = used.len() + (if s.victim is Some {
                1nat
            } else {
                0nat
            });
            &&& used.finite()
            &&& s.census() == entries
            &&& s.wf() ==> s.num_items == entries
        }),
{
    lemma_empty_is_zero::<F>();
    lemma_count_in_rest(s.table, s.table.len() as int, F::EMPTY);
    assert(Set::new(|k: int| 0 <= k < s.table.len() && s.table[k].code() != 0) =~= Set::new(
        |k: int| 0 <= k < s.table.len() && s.table[k] != F::EMPTY,
    ));
}

/// What is done with an item is done with the two buckets and the fingerprint that make
/// up its place.
pub proof fn law_items_by_place<F: Fingerprint>(s: FilterState<F>, item: Seq<u8>)
    ensures
        ({
            let (i1, i2, fp) = s.place(item);
            &&& s.contains(item) == s.contains_at(i1, i2, fp)
            &&& s.count(item) == s.count_at(i1, i2, fp)
            &&& s.insert(item) == s.insert_at(i1, i2, fp)
            &&& s.delete(item) == s.delete_at(i1, i2, fp)
        }),
{
}

/// An item is found if and only if a slot of one of its two buckets, or the victim headed
/// for one of them, has its fingerprint: all three from the hash of all of its bytes under
/// the seed, in numbers.
pub proof fn law_found_by_hash<F: Fingerprint>(s: FilterState<F>, item: Seq<u8>)
    requires
        0 < s.bucket_count <= usize::MAX,
    ensures
        ({
            let h = siphash13(s.seed, item);
            let r = h as int % pow2(F::bits() as nat) as int;
            let c = if r == 0 {
                1
            } else {
                r
            };
            let m = (s.bucket_count - 1) as u64;
            let i1 = (h / 0x1_0000) & m;
            let i2 = i1 ^ ((c * 0x5bd1_e995) as u64 & m);
            s.contains(item) <==> {
                ||| exists|k: int|
                    (i1 * s.bucket_size <= k < (i1 + 1) * s.bucket_size || i2 * s.bucket_size <= k
                        < (i2 + 1) * s.bucket_size) && (#[trigger] s.table[k]).code() == c
                ||| s.victim matches Some((b, x)) && (b == i1 || b == i2) && x.code() == c
            }
        }),
{
    let (i1, i2, fp) = s.place(item);
    F::fingerprint_facts();
    law_place_of_item(s, item);
    law_items_by_place(s, item);
    law_found_where(s, i1, i2, fp);
    assert forall|x: F| #[trigger] x.code() == fp.code() <==> x == fp by {
        assert(F::of_code(x.code()) == x && F::of_code(fp.code()) == fp);
    }
}

// Inserting.

/// An entry goes into the lowest empty slot of its first bucket or, where that bucket
/// has none, into the lowest empty slot of the second; nothing else in the filter
/// changes but the item count.
pub proof fn law_insert_into_free_slot<F: Fingerprint>(
    s: FilterState<F>,
    i1: nat,
    i2: nat,
    fp: F,
    k: int,
)
    requires
        s.table[k].code() == 0,
        ({
            ||| {
                &&& i1 * s.bucket_size <= k < (i1 + 1) * s.bucket_size
                &&& forall|j: int| i1 * s.bucket_size <= j < k ==> s.table[j].code() != 0
            }
            ||| {
                &&& i2 * s.bucket_size <= k < (i2 + 1) * s.bucket_size
                &&& forall|j: int|
                    i1 * s.bucket_size <= j < (i1 + 1) * s.bucket_size ==> s.table[j].code() != 0
                &&& forall|j: int| i2 * s.bucket_size <= j < k ==> s.table[j].code() != 0
            }
        }),
    ensures
        s.insert_at(i1, i2, fp) is Some,
        ({
            let t = s.insert_at(i1, i2, fp)->0;
            &&& t.table == s.table.update(k, fp)
            &&& t.num_items == s.num_items + 1
            &&& t.victim == s.victim
            &&& t.bucket_count == s.bucket_count
            &&& t.bucket_size == s.bucket_size
            &&& t.max_kicks == s.max_kicks
            &&& t.seed == s.seed
        }),
{
    lemma_empty_is_zero::<F>();
    lemma_bucket_end(s, i1);
    lemma_bucket_end(s, i2);
    lemma_first_in(s.table, s.start(i1), s.end(i1), F::EMPTY);
    if i1 * s.bucket_size <= k < (i1 + 1) * s.bucket_size && (forall|j: int|
        i1 * s.bucket_size <= j < k ==> s.table[j].code() != 0) {
        lemma_first_is(s.table, s.start(i1), s.end(i1), F::EMPTY, k);
    } else {
        lemma_first_is(s.table, s.start(i2), s.end(i2), F::EMPTY, k);
    }
}

/// With both buckets full, an insertion is refused while there is a victim; else it is
/// made by displacements that start at the first bucket.
pub proof fn law_insert_into_full_buckets<F: Fingerprint>(
    s: FilterState<F>,
    i1: nat,
    i2: nat,
    fp: F,
)
    requires
        forall|j: int|
            i1 * s.bucket_size <= j < (i1 + 1) * s.bucket_size ==> s.table[j].code() != 0,
        forall|j: int|
            i2 * s.bucket_size <= j < (i2 + 1) * s.bucket_size ==> s.table[j].code() != 0,
    ensures
        s.victim is Some ==> s.insert_at(i1, i2, fp) is None,
        s.victim is None ==> s.insert_at(i1, i2, fp) is Some,
        s.insert_at(i1, i2, fp) == s.kick_insert(i1, fp),
{
    lemma_empty_is_zero::<F>();
    lemma_bucket_end(s, i1);
    lemma_bucket_end(s, i2);
    lemma_first_in(s.table, s.start(i1), s.end(i1), F::EMPTY);
    lemma_first_in(s.table, s.start(i2), s.end(i2), F::EMPTY);
}

/// Insertion by displacements takes place if and only if there is no victim. It is a
/// chain of `m` displacements, at most `max_kicks`: entry `entries[j]` is in hand before
/// bucket `buckets[j]` of the table `tables[j]`, from the new entry and its bucket on.
/// A displacement finds the bucket full, puts the entry in hand into the slot at offset
/// (fingerprint + `j`) modulo the bucket size, and goes on with the entry that was
/// there to its other bucket. The chain ends early where the bucket has an empty slot,
/// of which the entry takes the lowest; after `max_kicks` displacements it ends with the
/// entry as the victim.
pub proof fn law_displacement_chain<F: Fingerprint>(s: FilterState<F>, b: nat, fp: F) -> (chain: (
    Seq<nat>,
    Seq<F>,
    Seq<Seq<F>>,
))
    ensures
        s.kick_insert(b, fp) is None <==> s.victim is Some,
        s.victim is None ==> {
            let (buckets, entries, tables) = chain;
            let m = buckets.len() - 1;
            let z = s.bucket_size;
            let t = s.kick_insert(b, fp)->0;
            &&& 0 <= m <= s.max_kicks
            &&& entries.len() == m + 1 && tables.len() == m + 1
            &&& buckets[0] == b && entries[0] == fp && tables[0] == s.table
            &&& forall|j: int, k: int|
                0 <= j < m && buckets[j] * z <= k < (buckets[j] + 1) * z ==> (
                #[trigger] tables[j][k]).code() != 0
            &&& forall|j: int, next: int|
                #![trigger buckets[j], tables[next]]
                0 <= j < m && next == j + 1 ==> {
                    let k = buckets[j] * z + (entries[j].code() + j) % (z as int);
                    &&& tables[next] == tables[j].update(k, entries[j])
                    &&& entries[next] == tables[j][k]
                    &&& buckets[next] == s.alt_index(buckets[j], entries[next])
                }
            &&& t.num_items == s.num_items + 1
            &&& t.bucket_count == s.bucket_count
            &&& t.bucket_size == s.bucket_size
            &&& t.max_kicks == s.max_kicks
            &&& t.seed == s.seed
            &&& m == s.max_kicks ==> {
                &&& t.table == tables[m]
                &&& t.victim == Some((buckets[m], entries[m]))
            }
            &&& m < s.max_kicks ==> {
                &&& t.victim is None
                &&& exists|k: int|
                    {
                        &&& buckets[m] * z <= k < (buckets[m] + 1) * z
                        &&& (#[trigger] tables[m][k]).code() == 0
                        &&& forall|j: int| buckets[m] * z <= j < k ==> tables[m][j].code() != 0
                        &&& t.table == tables[m].update(k, entries[m])
                    }
            }
        },
{
    if s.victim is None {
        let more = FilterState { num_items: s.num_items + 1, ..s };
        let chain = lemma_chain_from(more, b, fp, 0);
        let m = chain.0.len() - 1;
        if m < s.max_kicks {
            let last = FilterState { table: chain.2[m], ..s };
            let k = last.first_slot(chain.0[m], F::EMPTY)->0;
            lemma_empty_is_zero::<F>();
            lemma_bucket_end(last, chain.0[m]);
            lemma_first_in(
                last.table,
                last.start(chain.0[m]),
                last.end(chain.0[m]),
                F::EMPTY,
            );
            assert(chain.2[m][k].code() == 0);
        }
        reveal(linked);
        chain
    } else {
        (Seq::empty(), Seq::empty(), Seq::empty())
    }
}

/// From displacement number `n` on, every displacement of the chain finds its bucket full
/// and takes a slot from its holder.
#[verifier::opaque]
spec fn linked<F: Fingerprint>(
    s: FilterState<F>,
    n: nat,
    buckets: Seq<nat>,
    entries: Seq<F>,
    tables: Seq<Seq<F>>,
) -> bool {
    let m = buckets.len() - 1;
    let z = s.bucket_size;
    &&& forall|j: int, k: int|
        0 <= j < m && buckets[j] * z <= k < (buckets[j] + 1) * z ==> (
        #[trigger] tables[j][k]).code() != 0
    &&& forall|j: int, next: int|
        #![trigger buckets[j], tables[next]]
        0 <= j < m && next == j + 1 ==> {
            let k = buckets[j] * z + (entries[j].code() + (n + j)) % (z as int);
            &&& tables[next] == tables[j].update(k, entries[j])
            &&& entries[next] == tables[j][k]
            &&& buckets[next] == s.alt_index(buckets[j], entries[next])
        }
}

/// A chain of displacements can be lengthened by one displacement at its start.
proof fn lemma_linked_step<F: Fingerprint>(
    s: FilterState<F>,
    b: nat,
    fp: F,
    n: nat,
    buckets: Seq<nat>,
    entries: Seq<F>,
    tables: Seq<Seq<F>>,
)
    requires
        buckets.len() > 0,
        entries.len() == buckets.len(),
        tables.len() == buckets.len(),
        entries[0] == s.table[s.kicked_slot(b, fp, n)],
        buckets[0] == s.alt_index(b, entries[0]),
        tables[0] == s.table.update(s.kicked_slot(b, fp, n), fp),
        s.first_slot(b, F::EMPTY) is None,
        linked(s.set_slot(s.kicked_slot(b, fp, n), fp), n + 1, buckets, entries, tables),
    ensures
        linked(s, n, seq![b] + buckets, seq![fp] + entries, seq![s.table] + tables),
{
    let z = s.bucket_size;
    let m = buckets.len() as int;
    let after = s.set_slot(s.kicked_slot(b, fp, n), fp);
    let (bs, es, ts) = (seq![b] + buckets, seq![fp] + entries, seq![s.table] + tables);
    reveal(linked);
    lemma_empty_is_zero::<F>();
    lemma_bucket_end(s, b);
    lemma_first_in(s.table, s.start(b), s.end(b), F::EMPTY);
    assert forall|j: int, k: int| 0 <= j < m && bs[j] * z <= k < (bs[j] + 1) * z implies (
    #[trigger] ts[j][k]).code() != 0 by {
        if j > 0 {
            assert(bs[j] == buckets[j - 1] && ts[j] == tables[j - 1]);
            assert(tables[j - 1][k].code() != 0);
        }
    }
    assert forall|j: int, next: int|
        #![trigger bs[j], ts[next]]
        0 <= j < m && next == j + 1 implies {
        let k = bs[j] * z + (es[j].code() + (n + j)) % (z as int);
        &&& ts[next] == ts[j].update(k, es[j])
        &&& es[next] == ts[j][k]
        &&& bs[next] == s.alt_index(bs[j], es[next])
    } by {
        assert(bs[next] == buckets[j] && es[next] == entries[j] && ts[next] == tables[j]);
        if j > 0 {
            assert(bs[j] == buckets[j - 1] && es[j] == entries[j - 1] && ts[j] == tables[j - 1]);
            assert(buckets[j] == after.alt_index(buckets[j - 1], entries[j]));
        }
    }
}

/// The chain of displacements from its displacement number `n` on.
proof fn lemma_chain_from<F: Fingerprint>(s: FilterState<F>, b: nat, fp: F, n: nat) -> (chain: (
    Seq<nat>,
    Seq<F>,
    Seq<Seq<F>>,
))
    requires
        n <= s.max_kicks,
        s.victim is None,
    ensures
        ({
            let (buckets, entries, tables) = chain;
            let m = buckets.len() - 1;
            let t = s.kick(b, fp, n);
            &&& 0 <= m && n + m <= s.max_kicks
            &&& entries.len() == m + 1 && tables.len() == m + 1
            &&& buckets[0] == b && entries[0] == fp && tables[0] == s.table
            &&& linked(s, n, buckets, entries, tables)
            &&& t == (FilterState { table: t.table, victim: t.victim, ..s })
            &&& n + m == s.max_kicks ==> {
                &&& t.table == tables[m]
                &&& t.victim == Some((buckets[m], entries[m]))
            }
            &&& n + m < s.max_kicks ==> {
                let last = FilterState { table: tables[m], ..s };
                &&& t.victim is None
                &&& last.first_slot(buckets[m], F::EMPTY) is Some
                &&& t.table == tables[m].update(
                    last.first_slot(buckets[m], F::EMPTY)->0,
                    entries[m],
                )
            }
        }),
    decreases s.max_kicks - n,
{
    let (buckets, entries, tables) = (seq![b], seq![fp], seq![s.table]);
    assert(linked(s, n, buckets, entries, tables)) by {
        reveal(linked);
    }
    if n >= s.max_kicks {
        (buckets, entries, tables)
    } else {
        match s.first_slot(b, F::EMPTY) {
            Some(k) => (buckets, entries, tables),
            None => {
                let k = s.kicked_slot(b, fp, n);
                let orphan = s.table[k];
                let next = s.set_slot(k, fp);
                let rest = lemma_chain_from(next, s.alt_index(b, orphan), orphan, n + 1);
                lemma_linked_step(s, b, fp, n, rest.0, rest.1, rest.2);
                let m = rest.0.len() as int;
                assert((buckets + rest.0)[m] == rest.0[m - 1]);
                assert((entries + rest.1)[m] == rest.1[m - 1]);
                assert((tables + rest.2)[m] == rest.2[m - 1]);
                (buckets + rest.0, entries + rest.1, tables + rest.2)
            },
        }
    }
}

// Deleting.

/// Deleting an entry takes the victim, where the victim is such an entry, and leaves the
/// table as it is.
pub proof fn law_delete_victim<F: Fingerprint>(s: FilterState<F>, i1: nat, i2: nat, fp: F)
    requires
        s.victim == Some((i1, fp)) || s.victim == Some((i2, fp)),
    ensures
        s.delete_at(i1, i2, fp) is Some,
        ({
            let t = s.delete_at(i1, i2, fp)->0;
            &&& t.table == s.table
            &&& t.num_items == (s.num_items - 1) as nat
            &&& t.victim is None
            &&& t.bucket_count == s.bucket_count
            &&& t.bucket_size == s.bucket_size
            &&& t.max_kicks == s.max_kicks
            &&& t.seed == s.seed
        }),
{
}

/// Where the victim is no such entry, deleting empties the lowest slot of the first
/// bucket that holds the fingerprint or, where none does, the lowest of the second; the
/// victim then gets its chance, and nothing else in the filter changes but the item
/// count.
pub proof fn law_delete_from_slot<F: Fingerprint>(
    s: FilterState<F>,
    i1: nat,
    i2: nat,
    fp: F,
    k: int,
)
    requires
        s.victim != Some((i1, fp)),
        s.victim != Some((i2, fp)),
        s.table[k] == fp,
        ({
            ||| {
                &&& i1 * s.bucket_size <= k < (i1 + 1) * s.bucket_size
                &&& forall|j: int| i1 * s.bucket_size <= j < k ==> s.table[j] != fp
            }
            ||| {
                &&& i2 * s.bucket_size <= k < (i2 + 1) * s.bucket_size
                &&& forall|j: int|
                    i1 * s.bucket_size <= j < (i1 + 1) * s.bucket_size ==> s.table[j] != fp
                &&& forall|j: int| i2 * s.bucket_size <= j < k ==> s.table[j] != fp
            }
        }),
    ensures
        s.delete_at(i1, i2, fp) is Some,
        exists|emptied: FilterState<F>|
            {
                &&& emptied.table == s.table.update(k, F::of_code(0))
                &&& emptied.num_items == (s.num_items - 1) as nat
                &&& emptied.victim == s.victim
                &&& emptied.bucket_count == s.bucket_count
                &&& emptied.bucket_size == s.bucket_size
                &&& emptied.max_kicks == s.max_kicks
                &&& emptied.seed == s.seed
                &&& s.delete_at(i1, i2, fp) == Some(#[trigger] emptied.rehomed())
            },
{
    F::fingerprint_facts();
    assert(F::of_code(F::EMPTY.code()) == F::EMPTY);
    lemma_bucket_end(s, i1);
    lemma_bucket_end(s, i2);
    lemma_first_in(s.table, s.start(i1), s.end(i1), fp);
    if i1 * s.bucket_size <= k < (i1 + 1) * s.bucket_size && (forall|j: int|
        i1 * s.bucket_size <= j < k ==> s.table[j] != fp) {
        lemma_first_is(s.table, s.start(i1), s.end(i1), fp, k);
    } else {
        lemma_first_is(s.table, s.start(i2), s.end(i2), fp, k);
    }
    let fewer = FilterState { num_items: (s.num_items - 1) as nat, ..s };
    let emptied = fewer.set_slot(k, F::EMPTY);
    assert(s.delete_at(i1, i2, fp) == Some(emptied.rehomed()));
}

/// Deleting fails if and only if neither the victim nor a slot of the two buckets is
/// such an entry.
pub proof fn law_delete_fails<F: Fingerprint>(s: FilterState<F>, i1: nat, i2: nat, fp: F)
    ensures
        s.delete_at(i1, i2, fp) is None <==> {
            &&& s.victim != Some((i1, fp))
            &&& s.victim != Some((i2, fp))
            &&& forall|k: int|
                i1 * s.bucket_size <= k < (i1 + 1) * s.bucket_size || i2 * s.bucket_size <= k < (i2
                    + 1) * s.bucket_size ==> #[trigger] s.table[k] != fp
        },
{
    law_found_where(s, i1, i2, fp);
}

/// A victim moves into the lowest empty slot of its bucket or, where that bucket has
/// none, of its other bucket; nothing else in the filter changes.
pub proof fn law_rehome_into_free_slot<F: Fingerprint>(s: FilterState<F>, b: nat, fp: F, k: int)
    requires
        s.victim == Some((b, fp)),
        s.table[k].code() == 0,
        ({
            let c = s.alt_index(b, fp);
            ||| {
                &&& b * s.bucket_size <= k < (b + 1) * s.bucket_size
                &&& forall|j: int| b * s.bucket_size <= j < k ==> s.table[j].code() != 0
            }
            ||| {
                &&& c * s.bucket_size <= k < (c + 1) * s.bucket_size
                &&& forall|j: int|
                    b * s.bucket_size <= j < (b + 1) * s.bucket_size ==> s.table[j].code() != 0
                &&& forall|j: int| c * s.bucket_size <= j < k ==> s.table[j].code() != 0
            }
        }),
    ensures
        ({
            let t = s.rehomed();
            &&& t.table == s.table.update(k, fp)
            &&& t.num_items == s.num_items
            &&& t.victim is None
            &&& t.bucket_count == s.bucket_count
            &&& t.bucket_size == s.bucket_size
            &&& t.max_kicks == s.max_kicks
            &&& t.seed == s.seed
        }),
{
    let c = s.alt_index(b, fp);
    lemma_empty_is_zero::<F>();
    lemma_bucket_end(s, b);
    lemma_bucket_end(s, c);
    lemma_first_in(s.table, s.start(b), s.end(b), F::EMPTY);
    if b * s.bucket_size <= k < (b + 1) * s.bucket_size && (forall|j: int|
        b * s.bucket_size <= j < k ==> s.table[j].code() != 0) {
        lemma_first_is(s.table, s.start(b), s.end(b), F::EMPTY, k);
    } else {
        lemma_first_is(s.table, s.start(c), s.end(c), F::EMPTY, k);
    }
}

/// Without a victim, or with one whose two buckets are full, there is nothing to move.
pub proof fn law_rehome_without_room<F: Fingerprint>(s: FilterState<F>)
    requires
        s.victim matches Some((b, fp)) ==> {
            let c = s.alt_index(b, fp);
            forall|k: int|
                b * s.bucket_size <= k < (b + 1) * s.bucket_size || c * s.bucket_size <= k < (c + 1)
                    * s.bucket_size ==> (#[trigger] s.table[k]).code() != 0
        },
    ensures
        s.rehomed() == s,
{
    if let Some((b, fp)) = s.victim {
        let c = s.alt_index(b, fp);
        lemma_empty_is_zero::<F>();
        lemma_bucket_end(s, b);
        lemma_bucket_end(s, c);
        lemma_first_in(s.table, s.start(b), s.end(b), F::EMPTY);
        lemma_first_in(s.table, s.start(c), s.end(c), F::EMPTY);
    }
}

} // verus!
