//! The byte format, byte by byte: the laws of what is written and of what is accepted.
//!
//! A fingerprint takes `bits / 8` bytes. The header has 57 bytes and the fingerprint of
//! the victim; the slots follow.

use vstd::arithmetic::div_mod::lemma_div_denominator;
use vstd::arithmetic::power::{lemma_pow_positive, pow};
use vstd::arithmetic::power2::is_pow2;
use vstd::prelude::*;

use crate::fingerprint::Fingerprint;
use crate::format::ImportError;
use crate::layout::{table_bytes, width, MAGIC};
use crate::le::{
    le_bytes, le_value, lemma_le_bytes_len, lemma_le_bytes_of_value, lemma_le_value_bound,
};
use crate::operations::law_census_is_size;
use crate::roundtrip::{lemma_code_range, lemma_part_lens, lemma_table_bytes};
use crate::state::FilterState;

verus! {

/// Byte `i` of a number that is written in `n` bytes is its digit number `i` in base
/// 256, counted from the lowest.
pub proof fn law_written_digit(x: nat, n: nat, i: nat)
    requires
        i < n,
    ensures
        le_bytes(x, n).len() == n,
        le_bytes(x, n)[i as int] == (x as int / pow(256, i)) % 256,
    decreases n,
{
    reveal(pow);
    lemma_le_bytes_len(x, n);
    if i > 0 {
        let j = (i - 1) as nat;
        law_written_digit(x / 256, (n - 1) as nat, j);
        lemma_pow_positive(256, j);
        lemma_div_denominator(x as int, 256, pow(256, j));
        assert(le_bytes(x, n)[i as int] == le_bytes(x / 256, (n - 1) as nat)[j as int]);
    }
}

/// The number that is read from a byte string is the one that has its bytes as digits
/// in base 256, from the lowest on, and no more digits.
pub proof fn law_read_digit(s: Seq<u8>, i: nat)
    requires
        i < s.len(),
    ensures
        (le_value(s) as int / pow(256, i)) % 256 == s[i as int],
        le_value(s) < pow(256, s.len()),
{
    lemma_le_bytes_of_value(s);
    lemma_le_value_bound(s);
    law_written_digit(le_value(s), s.len(), i);
}

/// The bytes before the slots: the letters `CF`, the version 1 and the width in bits;
/// then, lowest byte first, the item count, the bucket count, the bucket size and the
/// displacement limit; the seed; and for the victim a flag, its bucket and its
/// fingerprint, which are 0 where there is none.
pub proof fn law_header_bytes<F: Fingerprint>(s: FilterState<F>)
    requires
        s.seed.len() == 16,
    ensures
        ({
            let bytes = s.encoded();
            let w = F::bits() / 8;
            let (flag, b, c) = match s.victim {
                Some((b, fp)) => (1u8, b as int, fp.code() as int),
                None => (0u8, 0int, 0int),
            };
            &&& bytes.len() == 57 + w + s.table.len() * w
            &&& bytes[0] == 0x43 && bytes[1] == 0x46 && bytes[2] == 1 && bytes[3] == F::bits()
            &&& forall|i: int|
                4 <= i < 12 ==> #[trigger] bytes[i] == (s.num_items as int / pow(
                    256,
                    (i - 4) as nat,
                )) % 256
            &&& forall|i: int|
                12 <= i < 20 ==> #[trigger] bytes[i] == (s.bucket_count as int / pow(
                    256,
                    (i - 12) as nat,
                )) % 256
            &&& forall|i: int|
                20 <= i < 28 ==> #[trigger] bytes[i] == (s.bucket_size as int / pow(
                    256,
                    (i - 20) as nat,
                )) % 256
            &&& forall|i: int|
                28 <= i < 32 ==> #[trigger] bytes[i] == (s.max_kicks as int / pow(
                    256,
                    (i - 28) as nat,
                )) % 256
            &&& forall|i: int| 32 <= i < 48 ==> #[trigger] bytes[i] == s.seed[i - 32]
            &&& bytes[48] == flag
            &&& forall|i: int|
                49 <= i < 57 ==> #[trigger] bytes[i] == (b / pow(256, (i - 49) as nat)) % 256
            &&& forall|i: int|
                57 <= i < 57 + w ==> #[trigger] bytes[i] == (c / pow(256, (i - 57) as nat)) % 256
        }),
{
    let bytes = s.encoded();
    let w = width::<F>();
    F::fingerprint_facts();
    lemma_part_lens(s);
    let (b, fp) = match s.victim {
        Some((b, fp)) => (b, fp),
        None => (0nat, F::EMPTY),
    };
    lemma_le_bytes_len(s.num_items, 8);
    lemma_le_bytes_len(s.bucket_count, 8);
    lemma_le_bytes_len(s.bucket_size, 8);
    lemma_le_bytes_len(s.max_kicks, 4);
    lemma_le_bytes_len(b, 8);
    lemma_le_bytes_len(fp.code() as nat, w);
    assert forall|i: int| 4 <= i < 12 implies #[trigger] bytes[i] == (s.num_items as int / pow(
        256,
        (i - 4) as nat,
    )) % 256 by {
        law_written_digit(s.num_items, 8, (i - 4) as nat);
    }
    assert forall|i: int| 12 <= i < 20 implies #[trigger] bytes[i] == (s.bucket_count as int / pow(
        256,
        (i - 12) as nat,
    )) % 256 by {
        law_written_digit(s.bucket_count, 8, (i - 12) as nat);
    }
    assert forall|i: int| 20 <= i < 28 implies #[trigger] bytes[i] == (s.bucket_size as int / pow(
        256,
        (i - 20) as nat,
    )) % 256 by {
        law_written_digit(s.bucket_size, 8, (i - 20) as nat);
    }
    assert forall|i: int| 28 <= i < 32 implies #[trigger] bytes[i] == (s.max_kicks as int / pow(
        256,
        (i - 28) as nat,
    )) % 256 by {
        law_written_digit(s.max_kicks, 4, (i - 28) as nat);
    }
    assert forall|i: int| 49 <= i < 57 implies #[trigger] bytes[i] == (b as int / pow(
        256,
        (i - 49) as nat,
    )) % 256 by {
        law_written_digit(b, 8, (i - 49) as nat);
    }
    assert forall|i: int| 57 <= i < 57 + w implies #[trigger] bytes[i] == (fp.code() as int / pow(
        256,
        (i - 57) as nat,
    )) % 256 by {
        law_written_digit(fp.code() as nat, w, (i - 57) as nat);
    }
}

/// The bytes of a slot among those of a table.
proof fn lemma_slot_byte<F: Fingerprint>(table: Seq<F>, k: int, i: int)
    requires
        0 <= k < table.len(),
        0 <= i < width::<F>(),
    ensures
        0 <= k * width::<F>() + i < table_bytes(table).len(),
        table_bytes(table)[k * width::<F>() + i] == le_bytes(
            table[k].code() as nat,
            width::<F>(),
        )[i],
    decreases table.len(),
{
    let w = width::<F>();
    let rest = table.drop_last();
    let n = rest.len() as int;
    lemma_table_bytes(table);
    lemma_table_bytes(rest);
    lemma_le_bytes_len(table.last().code() as nat, w);
    assert(0 <= k * w && (k + 1) * w == k * w + w && (k + 1) * w <= (n + 1) * w && (n + 1) * w == n
        * w + w) by (nonlinear_arith)
        requires
            0 <= k <= n,
            0 <= w,
    ;
    if k < n {
        lemma_slot_byte(rest, k, i);
    }
}

/// The bytes of the slots: the fingerprint of slot `k` stands after the header and `k`
/// fingerprints, lowest byte first.
pub proof fn law_slot_bytes<F: Fingerprint>(s: FilterState<F>, k: int, i: int)
    requires
        s.seed.len() == 16,
        0 <= k < s.table.len(),
        0 <= i < F::bits() / 8,
    ensures
        ({
            let w = F::bits() / 8;
            &&& 0 <= 57 + w + k * w + i < s.encoded().len()
            &&& s.encoded()[57 + w + k * w + i] == (s.table[k].code() as int / pow(256, i as nat))
                % 256
        }),
{
    let w = width::<F>();
    lemma_part_lens(s);
    lemma_slot_byte(s.table, k, i);
    law_written_digit(s.table[k].code() as nat, w, i as nat);
}

/// What is accepted, and what is wrong with what is not: the faults in the order in which
/// they are looked for, each where none of those before it is there. The numbers are
/// those that the bytes spell.
pub proof fn law_verdict<F: Fingerprint>(bytes: Seq<u8>)
    ensures
        ({
            let verdict = FilterState::<F>::decoded(bytes);
            let w = (F::bits() / 8) as int;
            let items = le_value(bytes.subrange(4, 12));
            let buckets = le_value(bytes.subrange(12, 20));
            let size = le_value(bytes.subrange(20, 28));
            let slots = buckets * size;
            let flag = bytes[48];
            let victim_bucket = le_value(bytes.subrange(49, 57));
            let victim_code = le_value(bytes.subrange(57, 57 + w));
            let used = Set::new(
                |k: int|
                    0 <= k < slots && le_value(
                        bytes.subrange(57 + w + k * w, 57 + w + k * w + w),
                    ) != 0,
            );
            let fault: Option<ImportError> = match verdict {
                Ok(_) => None,
                Err(e) => Some(e),
            };
            let long_enough = bytes.len() >= 57 + w;
            let magic_right = long_enough && bytes[0] == 0x43 && bytes[1] == 0x46;
            let version_right = magic_right && bytes[2] == 1;
            let width_right = version_right && bytes[3] == F::bits();
            let items_held = width_right && items <= usize::MAX;
            let buckets_right = items_held && is_pow2(buckets as int);
            let buckets_allowed = buckets_right && buckets <= 0x1_0000_0000;
            let size_right = buckets_allowed && size != 0;
            let size_allowed = size_right && size <= 255;
            let slots_held = size_allowed && slots <= usize::MAX;
            let length_right = slots_held && bytes.len() == 57 + w + slots * w;
            let items_fit = length_right && items <= slots + 1;
            let flag_right = items_fit && (flag == 0 || flag == 1);
            let bucket_right = flag_right && (if flag == 1 {
                victim_bucket < buckets
            } else {
                victim_bucket == 0
            });
            let victim_right = bucket_right && (flag == 1 <==> victim_code != 0);
            let accepted = victim_right && items == used.len() + flag;
            &&& !long_enough <==> fault == Some(ImportError::TooShort)
            &&& long_enough && !magic_right <==> fault == Some(ImportError::BadMagic)
            &&& magic_right && !version_right <==> fault is Some
                && fault->0 is UnsupportedVersion
            &&& magic_right && !version_right ==> fault == Some(
                ImportError::UnsupportedVersion(bytes[2]),
            )
            &&& version_right && !width_right <==> fault is Some && fault->0 is FpBitsMismatch
            &&& version_right && !width_right ==> fault == Some(
                ImportError::FpBitsMismatch { expected: F::bits(), got: bytes[3] },
            )
            &&& (width_right && !items_held) || (length_right && !items_fit) <==> fault == Some(
                ImportError::InvalidNumItems,
            )
            &&& items_held && !buckets_right <==> fault == Some(ImportError::InvalidBucketCount)
            &&& (buckets_right && !buckets_allowed) || (size_allowed && !slots_held) <==> fault
                == Some(ImportError::BucketCountTooLarge)
            &&& buckets_allowed && !size_right <==> fault == Some(ImportError::InvalidBucketSize)
            &&& size_right && !size_allowed <==> fault == Some(ImportError::BucketSizeTooLarge)
            &&& slots_held && !length_right <==> fault == Some(ImportError::SizeMismatch)
            &&& items_fit && !flag_right <==> fault is Some && fault->0 is InvalidVictimFlag
            &&& items_fit && !flag_right ==> fault == Some(ImportError::InvalidVictimFlag(flag))
            &&& flag_right && !bucket_right <==> fault == Some(ImportError::InvalidVictimBucketId)
            &&& bucket_right && !victim_right <==> fault == Some(ImportError::InvalidVictimFp)
            &&& victim_right && !accepted <==> fault == Some(ImportError::CensusMismatch)
            &&& accepted <==> verdict is Ok
            &&& accepted ==> {
                let s = verdict->Ok_0;
                &&& s.num_items == items
                &&& s.bucket_count == buckets
                &&& s.bucket_size == size
                &&& s.max_kicks == le_value(bytes.subrange(28, 32))
                &&& s.seed == bytes.subrange(32, 48)
                &&& flag == 0 ==> s.victim is None
                &&& flag == 1 ==> {
                    &&& s.victim is Some
                    &&& (s.victim->0).0 == victim_bucket
                    &&& (s.victim->0).1.code() == victim_code
                }
                &&& s.table.len() == slots
                &&& forall|k: int|
                    0 <= k < slots ==> (#[trigger] s.table[k]).code() == le_value(
                        bytes.subrange(57 + w + k * w, 57 + w + k * w + w),
                    )
            }
        }),
{
    let w = (F::bits() / 8) as int;
    let s = FilterState::<F>::described(bytes);
    let slots = s.bucket_count * s.bucket_size;
    F::fingerprint_facts();
    lemma_code_range::<F>();
    if bytes.len() >= 57 + w {
        assert(MAGIC@ =~= seq![0x43u8, 0x46u8]);
        assert(bytes.subrange(0, 2) == MAGIC@ <==> bytes[0] == 0x43 && bytes[1] == 0x46) by {
            assert(bytes.subrange(0, 2)[0] == bytes[0] && bytes.subrange(0, 2)[1] == bytes[1]);
            if bytes[0] == 0x43 && bytes[1] == 0x46 {
                assert(bytes.subrange(0, 2) =~= MAGIC@);
            }
        }
        lemma_le_value_bound(bytes.subrange(57, 57 + w));
        if bytes.len() == 57 + w + slots * w {
            assert forall|k: int| 0 <= k < slots implies (#[trigger] s.table[k]).code() == le_value(
                bytes.subrange(57 + w + k * w, 57 + w + k * w + w),
            ) by {
                assert(0 <= k * w && k * w + w <= slots * w) by (nonlinear_arith)
                    requires
                        0 <= k,
                        k + 1 <= slots,
                        0 <= w,
                ;
                lemma_le_value_bound(bytes.subrange(57 + w + k * w, 57 + w + k * w + w));
            }
            law_census_is_size(s);
            assert(Set::new(
                |k: int|
                    0 <= k < slots && le_value(
                        bytes.subrange(57 + w + k * w, 57 + w + k * w + w),
                    ) != 0,
            ) =~= Set::new(|k: int| 0 <= k < s.table.len() && s.table[k].code() != 0));
        }
    }
}

/// The filters that the byte format can give back: those that meet the invariant and
/// have 2 to the power of 0 to 32 buckets of 1 to 255 slots.
pub proof fn law_portable_range<F: Fingerprint>(s: FilterState<F>)
    ensures
        s.portable() <==> {
            &&& s.wf()
            &&& is_pow2(s.bucket_count as int)
            &&& s.bucket_count <= 0x1_0000_0000
            &&& 1 <= s.bucket_size <= 255
        },
{
    reveal(is_pow2);
}

} // verus!
