//! The byte format loses nothing: the laws of writing and reading.

use vstd::arithmetic::power::pow;
use vstd::arithmetic::power2::{is_pow2, lemma2_to64, pow2};
use vstd::prelude::*;

use crate::fingerprint::Fingerprint;
use crate::format::ImportError;
use crate::layout::{
    fingerprint_at, number_at, table_at, table_bytes, table_offset, width, FORMAT_VERSION, MAGIC,
};
use crate::le::{
    le_bytes, le_value, lemma_byte_powers, lemma_le_bytes_len, lemma_le_bytes_of_value,
    lemma_le_value_bound, lemma_le_value_of_bytes,
};
use crate::laws::{law_invariant, Op};
use crate::lemmas::lemma_below_power_of_two;
use crate::state::FilterState;

verus! {

/// The numbers of a fingerprint's width are the codes of fingerprints.
pub(crate) proof fn lemma_code_range<F: Fingerprint>()
    ensures
        width::<F>() == 1 || width::<F>() == 2,
        pow(256, width::<F>()) == pow2(F::bits() as nat),
        pow(256, width::<F>()) <= 0x1_0000,
{
    F::fingerprint_facts();
    lemma_byte_powers();
    lemma2_to64();
}

/// A fingerprint that is read back from its bytes.
proof fn lemma_fingerprint_of_bytes<F: Fingerprint>(fp: F)
    ensures
        le_bytes(fp.code() as nat, width::<F>()).len() == width::<F>(),
        F::of_code(le_value(le_bytes(fp.code() as nat, width::<F>())) as u64) == fp,
{
    F::fingerprint_facts();
    lemma_code_range::<F>();
    lemma_le_bytes_len(fp.code() as nat, width::<F>());
    lemma_le_value_of_bytes(fp.code() as nat, width::<F>());
}

/// Bytes that are written back from their fingerprint.
proof fn lemma_bytes_of_fingerprint<F: Fingerprint>(s: Seq<u8>)
    requires
        s.len() == width::<F>(),
    ensures
        le_bytes(F::of_code(le_value(s) as u64).code() as nat, width::<F>()) == s,
{
    F::fingerprint_facts();
    lemma_code_range::<F>();
    lemma_le_value_bound(s);
    lemma_le_bytes_of_value(s);
}

/// The bytes of a table: their number, and where a slot stands among them.
pub(crate) proof fn lemma_table_bytes<F: Fingerprint>(table: Seq<F>)
    ensures
        table_bytes(table).len() == table.len() * width::<F>(),
        table_at::<F>(table_bytes(table), 0, table.len()) == table,
    decreases table.len(),
{
    let w = width::<F>();
    let all = table_bytes(table);
    if table.len() == 0 {
        assert(table_at::<F>(all, 0, 0) =~= table);
    } else {
        let rest = table.drop_last();
        let n = rest.len();
        let last = le_bytes(table.last().code() as nat, w);
        lemma_table_bytes(rest);
        lemma_fingerprint_of_bytes(table.last());
        assert(table.len() * w == n * w + w) by (nonlinear_arith)
            requires
                table.len() == n + 1,
        ;
        assert forall|k: int| 0 <= k < table.len() implies table_at::<F>(
            all,
            0,
            table.len(),
        )[k] == table[k] by {
            if k < n {
                assert(0 <= k * w && k * w + w <= n * w) by (nonlinear_arith)
                    requires
                        0 <= k,
                        k + 1 <= n,
                ;
                assert(all.subrange(k * w, k * w + w) =~= table_bytes(rest).subrange(
                    k * w,
                    k * w + w,
                ));
                assert(table_at::<F>(table_bytes(rest), 0, n)[k] == rest[k]);
            } else {
                assert(all.subrange(k * w, k * w + w) =~= last);
            }
        }
        assert(table_at::<F>(all, 0, table.len()) =~= table);
    }
}

/// The bytes from which a table is read are the bytes of the table.
proof fn lemma_table_at<F: Fingerprint>(bytes: Seq<u8>, offset: int, n: nat)
    requires
        0 <= offset,
        offset + n * width::<F>() <= bytes.len(),
    ensures
        table_bytes(table_at::<F>(bytes, offset, n)) == bytes.subrange(
            offset,
            offset + n * width::<F>(),
        ),
    decreases n,
{
    let w = width::<F>();
    let table = table_at::<F>(bytes, offset, n);
    if n == 0 {
        assert(n * w == 0) by (nonlinear_arith)
            requires
                n == 0,
        ;
        assert(bytes.subrange(offset, offset + n * w) =~= Seq::empty());
    } else {
        let m = (n - 1) as nat;
        assert(n * w == m * w + w && 0 <= m * w) by (nonlinear_arith)
            requires
                n == m + 1,
        ;
        lemma_table_at::<F>(bytes, offset, m);
        assert(table.drop_last() =~= table_at::<F>(bytes, offset, m));
        lemma_bytes_of_fingerprint::<F>(
            bytes.subrange(offset + m * w, offset + m * w + w),
        );
        assert(bytes.subrange(offset, offset + n * w) =~= bytes.subrange(offset, offset + m * w)
            + bytes.subrange(offset + m * w, offset + m * w + w));
    }
}

/// The numbers of bytes of the parts of the format.
pub(crate) proof fn lemma_part_lens<F: Fingerprint>(s: FilterState<F>)
    requires
        s.seed.len() == 16,
    ensures
        s.head_bytes().len() == 48,
        s.victim_bytes().len() == 9 + width::<F>(),
        table_bytes(s.table).len() == s.table.len() * width::<F>(),
{
    lemma_le_bytes_len(s.num_items, 8);
    lemma_le_bytes_len(s.bucket_count, 8);
    lemma_le_bytes_len(s.bucket_size, 8);
    lemma_le_bytes_len(s.max_kicks, 4);
    lemma_le_bytes_len(0, 8);
    lemma_le_bytes_len(F::EMPTY.code() as nat, width::<F>());
    if let Some((b, fp)) = s.victim {
        lemma_le_bytes_len(b, 8);
        lemma_le_bytes_len(fp.code() as nat, width::<F>());
    }
    lemma_table_bytes(s.table);
}

/// The number of bytes of a filter is the header's and as many as the slots take.
pub proof fn law_encoded_len<F: Fingerprint>(s: FilterState<F>)
    requires
        s.seed.len() == 16,
    ensures
        s.encoded().len() == s.encoded_len(),
{
    lemma_part_lens(s);
}

/// The parts of the format, read by their offsets.
proof fn lemma_fields<F: Fingerprint>(s: FilterState<F>)
    requires
        s.representable(),
    ensures
        ({
            let bytes = s.encoded();
            &&& bytes.subrange(0, 2) == MAGIC@
            &&& bytes[2] == FORMAT_VERSION
            &&& bytes[3] == F::bits()
            &&& number_at(bytes, 4, 8) == s.num_items
            &&& number_at(bytes, 12, 8) == s.bucket_count
            &&& number_at(bytes, 20, 8) == s.bucket_size
            &&& number_at(bytes, 28, 4) == s.max_kicks
            &&& bytes.subrange(32, 48) == s.seed
            &&& match s.victim {
                Some((b, fp)) => {
                    &&& bytes[48] == 1
                    &&& number_at(bytes, 49, 8) == b
                    &&& fingerprint_at::<F>(bytes, 57) == fp
                },
                None => {
                    &&& bytes[48] == 0
                    &&& number_at(bytes, 49, 8) == 0
                    &&& fingerprint_at::<F>(bytes, 57) == F::EMPTY
                },
            }
            &&& table_at::<F>(bytes, table_offset::<F>() as int, s.table.len()) == s.table
        }),
{
    let bytes = s.encoded();
    let w = width::<F>();
    let off = table_offset::<F>() as int;
    lemma_byte_powers();
    lemma_part_lens(s);
    lemma_table_bytes(s.table);
    lemma_le_bytes_len(s.num_items, 8);
    lemma_le_bytes_len(s.bucket_count, 8);
    lemma_le_bytes_len(s.bucket_size, 8);
    lemma_le_bytes_len(s.max_kicks, 4);
    lemma_le_value_of_bytes(s.num_items, 8);
    lemma_le_value_of_bytes(s.bucket_count, 8);
    lemma_le_value_of_bytes(s.bucket_size, 8);
    lemma_le_value_of_bytes(s.max_kicks, 4);
    assert(bytes.subrange(0, 2) =~= MAGIC@);
    assert(bytes.subrange(4, 12) =~= le_bytes(s.num_items, 8));
    assert(bytes.subrange(12, 20) =~= le_bytes(s.bucket_count, 8));
    assert(bytes.subrange(20, 28) =~= le_bytes(s.bucket_size, 8));
    assert(bytes.subrange(28, 32) =~= le_bytes(s.max_kicks, 4));
    assert(bytes.subrange(32, 48) =~= s.seed);
    let (b, fp) = match s.victim {
        Some((b, fp)) => (b, fp),
        None => (0nat, F::EMPTY),
    };
    lemma_le_bytes_len(b, 8);
    lemma_le_value_of_bytes(b, 8);
    lemma_fingerprint_of_bytes(fp);
    assert(bytes.subrange(49, 57) =~= le_bytes(b, 8));
    assert(bytes.subrange(57, 57int + w) =~= le_bytes(fp.code() as nat, w));
    assert forall|k: int| 0 <= k < s.table.len() implies table_at::<F>(
        bytes,
        off,
        s.table.len(),
    )[k] == s.table[k] by {
        assert(0 <= k * w && k * w + w <= s.table.len() * w) by (nonlinear_arith)
            requires
                0 <= k,
                k + 1 <= s.table.len(),
        ;
        assert(bytes.subrange(off + k * w, off + k * w + w) =~= table_bytes(s.table).subrange(
            k * w,
            k * w + w,
        ));
        assert(table_at::<F>(table_bytes(s.table), 0, s.table.len())[k] == s.table[k]);
    }
    assert(table_at::<F>(bytes, off, s.table.len()) =~= s.table);
}

/// What is written can be read: the bytes of a portable filter spell that filter.
pub proof fn law_read_back<F: Fingerprint>(s: FilterState<F>)
    requires
        s.portable(),
    ensures
        FilterState::<F>::decoded(s.encoded()) == Ok::<FilterState<F>, ImportError>(s),
{
    lemma_fields(s);
    law_encoded_len(s);
    s.lemma_census_bound();
    assert(FilterState::<F>::described(s.encoded()) =~= s);
}

/// A portable filter stays portable under all operations, and can be read back after
/// them.
pub proof fn law_history_read_back<F: Fingerprint>(s: FilterState<F>, ops: Seq<Op>)
    requires
        s.portable(),
    ensures
        s.run(ops).portable(),
        FilterState::<F>::decoded(s.run(ops).encoded()) == Ok::<FilterState<F>, ImportError>(
            s.run(ops),
        ),
{
    law_invariant(s, ops);
    law_read_back(s.run(ops));
}

/// What can be read was written: bytes that spell a filter are the bytes of that
/// filter, which is portable.
pub proof fn law_written_once<F: Fingerprint>(bytes: Seq<u8>, s: FilterState<F>)
    requires
        bytes.len() <= usize::MAX,
        FilterState::<F>::decoded(bytes) == Ok::<FilterState<F>, ImportError>(s),
    ensures
        s.portable(),
        s.encoded() == bytes,
{
    let w = width::<F>();
    let off = table_offset::<F>() as int;
    let slots = s.bucket_count * s.bucket_size;
    F::fingerprint_facts();
    lemma_code_range::<F>();
    lemma_byte_powers();
    reveal(is_pow2);

    // the invariant
    lemma_le_value_bound(bytes.subrange(28, 32));
    assert(slots <= slots * w) by (nonlinear_arith)
        requires
            1 <= w,
            0 <= slots,
    ;
    assert(s.bucket_count <= slots && s.bucket_size <= slots) by (nonlinear_arith)
        requires
            slots == s.bucket_count * s.bucket_size,
            1 <= s.bucket_count,
            1 <= s.bucket_size,
    ;
    if let Some((b, fp)) = s.victim {
        lemma_below_power_of_two(s.bucket_count as u64, b as u64);
    }
    assert(s.portable());

    // the bytes, part by part
    lemma_le_bytes_of_value(bytes.subrange(4, 12));
    lemma_le_bytes_of_value(bytes.subrange(12, 20));
    lemma_le_bytes_of_value(bytes.subrange(20, 28));
    lemma_le_bytes_of_value(bytes.subrange(28, 32));
    lemma_le_bytes_of_value(bytes.subrange(49, 57));
    lemma_bytes_of_fingerprint::<F>(bytes.subrange(57, off));
    lemma_table_at::<F>(bytes, off, slots);
    assert(bytes.subrange(0, 4) =~= MAGIC@ + seq![FORMAT_VERSION, F::bits()]) by {
        assert(bytes.subrange(0, 4) =~= bytes.subrange(0, 2) + seq![bytes[2], bytes[3]]);
    }
    assert(s.head_bytes() =~= bytes.subrange(0, 48)) by {
        assert(bytes.subrange(0, 48) =~= bytes.subrange(0, 4) + bytes.subrange(4, 12)
            + bytes.subrange(12, 20) + bytes.subrange(20, 28) + bytes.subrange(28, 32)
            + bytes.subrange(32, 48));
    }
    assert(s.victim_bytes() =~= bytes.subrange(48, off)) by {
        assert(bytes.subrange(48, off) =~= seq![bytes[48]] + bytes.subrange(49, 57)
            + bytes.subrange(57, off));
    }
    assert(bytes =~= bytes.subrange(0, 48) + bytes.subrange(48, off) + bytes.subrange(
        off,
        bytes.len() as int,
    ));
}

/// Filters that are written the same are the same, whatever their shape and whether or
/// not they can be read back.
pub proof fn law_encoding_injective<F: Fingerprint>(s: FilterState<F>, t: FilterState<F>)
    requires
        s.representable(),
        t.representable(),
        s.encoded() == t.encoded(),
    ensures
        s == t,
{
    lemma_fields(s);
    lemma_fields(t);
    law_encoded_len(s);
    law_encoded_len(t);
    lemma_code_range::<F>();
    assert(s.table.len() == t.table.len()) by (nonlinear_arith)
        requires
            s.table.len() * width::<F>() == t.table.len() * width::<F>(),
            width::<F>() >= 1,
    ;
    assert(s =~= t);
}

/// A filter does not pass for one with fingerprints of another width. One without slots
/// is too short to be held for one with wider fingerprints at all.
pub proof fn law_widths_kept_apart<F: Fingerprint, G: Fingerprint>(s: FilterState<F>)
    requires
        s.representable(),
        F::bits() != G::bits(),
        s.table.len() > 0 || G::bits() < F::bits(),
    ensures
        FilterState::<G>::decoded(s.encoded()) == Err::<FilterState<G>, ImportError>(
            ImportError::FpBitsMismatch { expected: G::bits(), got: F::bits() },
        ),
{
    lemma_fields(s);
    law_encoded_len(s);
    F::fingerprint_facts();
    G::fingerprint_facts();
    let w = width::<F>();
    let slots = s.table.len();
    assert(slots <= slots * w) by (nonlinear_arith)
        requires
            1 <= w,
    ;
}

} // verus!
