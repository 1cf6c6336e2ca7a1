//! Reading the metadata file of an index: the offsets of its sections, the
//! invalidation bit vector and the document lengths.

use vstd::prelude::*;
use byteorder::{ByteOrder, LittleEndian};
use crate::varint::{decode_var_int, decode_var_int_u64, var_int_at};
use crate::doc_info::{byte_bit, pow2, bit_at, le_i64, low_bits, bits_for, enum_widths, width_bytes, final_enum_values, assign_values, enum_column, ev_id, first_index, prev_bits, prev_row_bits, docs_bits, doc_row_bits, enum_bits, spec_nums_section, minimums_bytes, old_deltas, new_deltas, doc_deltas, num_or_default, field_minimum, min_i64, old_minimum, new_minimum, lemma_old_minimum_le, lemma_new_minimum_le, le_u64, averages_bytes, field_lengths_bytes, docinfo_head, lengths_bytes, all_field_lengths};
use crate::miner::WorkerMinerDocInfo;
use crate::varint::{encode_var_int, law_read_back_written, lemma_encode_len};
use crate::doc_info::le_u32 as le_u32_bytes;

verus! {

/// The number stored little-endian in the 4 bytes of `s` at `pos`.
pub open spec fn le_u32(s: Seq<u8>, pos: int) -> nat {
    (s[pos] + 0x100 * s[pos + 1] + 0x1_0000 * s[pos + 2] + 0x100_0000 * s[pos + 3]) as nat
}

/// `LittleEndian::read_u32` on `buf[pos..]`: the little-endian number in the
/// 4 bytes at `pos`.
#[verifier::external_body]
pub(crate) fn read_u32_le(buf: &[u8], pos: usize) -> (v: u32)
    requires
        pos + 4 <= buf@.len(),
    ensures
        v as nat == le_u32(buf@, pos as int),
{
    LittleEndian::read_u32(&buf[pos..])
}

/// The number stored little-endian in the 8 bytes of `s` at `pos`.
pub open spec fn u64_at(s: Seq<u8>, pos: int) -> u64 {
    (s[pos] + 0x100 * s[pos + 1] + 0x1_0000 * s[pos + 2] + 0x100_0000 * s[pos + 3] + 0x1_0000_0000 * s[pos + 4]
        + 0x100_0000_0000 * s[pos + 5] + 0x1_0000_0000_0000 * s[pos + 6] + 0x100_0000_0000_0000 * s[pos + 7]) as u64
}

/// `LittleEndian::read_u64` on `buf[pos..]`: the little-endian number in the
/// 8 bytes at `pos`.
#[verifier::external_body]
fn read_u64_le(buf: &[u8], pos: usize) -> (v: u64)
    requires
        pos + 8 <= buf@.len(),
    ensures
        v == u64_at(buf@, pos as int),
{
    LittleEndian::read_u64(&buf[pos..])
}

/// The number in the `n` bits of `bytes` from bit `pos` on, each byte's bits
/// most significant first, the first bit the most significant.
pub open spec fn bits_value(bytes: Seq<u8>, pos: int, n: nat) -> nat
    decreases n,
{
    if n == 0 {
        0
    } else {
        2 * bits_value(bytes, pos, (n - 1) as nat) + if byte_bit(bytes, pos + n - 1) {
            1nat
        } else {
            0nat
        }
    }
}

/// `2^k`.
fn pow2_u32(k: u32) -> (p: u32)
    requires
        k < 32,
    ensures
        p == pow2(k as nat),
        p >= 1,
{
    let mut p: u32 = 1;
    let mut i: u32 = 0;
    while i < k
        invariant
            i <= k < 32,
            p == pow2(i as nat),
            p >= 1,
        decreases k - i,
    {
        proof {
            lemma_pow2_le((i + 1) as nat, 31);
        }
        p = p * 2;
        i = i + 1;
    }
    p
}

/// Reads `n` bits of `bytes` from bit `*bit_pos` on as a number, most
/// significant first, and moves `*bit_pos` past them.
pub fn read_bits_from(bit_pos: &mut usize, n: usize, bytes: &[u8]) -> (v: u32)
    requires
        n <= 32,
        *old(bit_pos) + n <= 8 * bytes@.len(),
        *old(bit_pos) + n <= usize::MAX,
    ensures
        v as nat == bits_value(bytes@, *old(bit_pos) as int, n as nat),
        *final(bit_pos) == *old(bit_pos) + n,
{
    let start = *bit_pos;
    let mut v: u32 = 0;
    let mut i: usize = 0;
    while i < n
        invariant
            i <= n <= 32,
            start + n <= 8 * bytes@.len(),
            start + n <= usize::MAX,
            *bit_pos == start + i,
            v as nat == bits_value(bytes@, start as int, i as nat),
            (v as nat) < pow2(i as nat),
        decreases n - i,
    {
        let p = *bit_pos;
        let byte = bytes[p / 8];
        let shift = (7 - p % 8) as u32;
        let d = pow2_u32(shift);
        let bit: u32 = (byte as u32 / d) % 2;
        proof {
            assert(byte_bit(bytes@, p as int) == bit_at(bytes@[(p / 8) as int] as nat, (7 - p % 8) as nat));
            assert(pow2((i + 1) as nat) == 2 * pow2(i as nat));
            assert(i < 32 ==> pow2(i as nat) <= 0x8000_0000) by {
                lemma_pow2_le(i as nat, 31);
            }
        }
        v = v * 2 + bit;
        *bit_pos = p + 1;
        i = i + 1;
    }
    v
}

proof fn lemma_pow2_le(a: nat, b: nat)
    requires
        a <= b,
        b <= 31,
    ensures
        pow2(a) <= pow2(b),
        pow2(31) == 0x8000_0000,
    decreases b - a,
{
    reveal_with_fuel(pow2, 32);
    if a < b {
        lemma_pow2_le(a, (b - 1) as nat);
    }
}


/// The bits the first `count` enum values take, value `i` belonging to enum
/// `i % widths.len()`, which takes `widths[i % widths.len()]` bits.
pub open spec fn enum_bits_end(widths: Seq<u8>, count: nat) -> nat
    decreases count,
{
    if count == 0 || widths.len() == 0 {
        0
    } else {
        enum_bits_end(widths, (count - 1) as nat) + widths[(count - 1) % (widths.len() as int)] as nat
    }
}

/// The enum value ids of the first `count` values, read one after the
/// other from `bytes`.
pub open spec fn read_enum_ids(bytes: Seq<u8>, widths: Seq<u8>, count: nat) -> Seq<u8>
    decreases count,
{
    if count == 0 || widths.len() == 0 {
        Seq::empty()
    } else {
        let i = count - 1;
        read_enum_ids(bytes, widths, i as nat).push(
            bits_value(bytes, enum_bits_end(widths, i as nat) as int, widths[i % (widths.len() as int)] as nat) as u8,
        )
    }
}

/// The `count` variable-length integers from `pos` on, one after the other,
/// and where they end; `None` where one is missing, takes more than ten bytes
/// or exceeds 64 bits.
pub open spec fn read_var_ints(s: Seq<u8>, pos: int, count: nat) -> Option<(Seq<u64>, int)>
    decreases count,
{
    if count == 0 {
        Some((Seq::empty(), pos))
    } else {
        match read_var_ints(s, pos, (count - 1) as nat) {
            None => None,
            Some(r) => match var_int_at(s, r.1) {
                Some(vl) => if 0 <= r.1 <= s.len() && vl.0 <= u64::MAX && vl.1 <= 10 {
                    Some((r.0.push(vl.0 as u64), r.1 + vl.1))
                } else {
                    None
                },
                None => None,
            },
        }
    }
}

/// `x + y` wrapped into the `i64` range.
pub open spec fn add_wrapping(x: i64, y: i64) -> i64 {
    if x + y > i64::MAX {
        (x + y - 0x1_0000_0000_0000_0000) as i64
    } else if x + y < i64::MIN {
        (x + y + 0x1_0000_0000_0000_0000) as i64
    } else {
        (x + y) as i64
    }
}

/// The numbers of the documents: each its field's minimum plus its
/// distance, value `i` belonging to number field `i % mins.len()`.
pub open spec fn i64_values(mins: Seq<i64>, deltas: Seq<u64>) -> Seq<i64> {
    Seq::new(deltas.len(), |i: int| add_wrapping(mins[i % (mins.len() as int)], deltas[i] as i64))
}

/// What the start of the document information says.
pub struct DocInfoMetadata {
    pub num_docs: u32,
    pub doc_id_counter: u32,
    /// The average field lengths as the bits of their 64-bit floats.
    pub average_length_bits: Seq<u64>,
    /// Where the document field lengths start.
    pub field_lengths_pos: int,
    pub num_enum_fields: nat,
    pub doc_enum_vals: Seq<u8>,
    pub num_i64_fields: nat,
    pub doc_i64_vals: Seq<i64>,
}

/// Reads the document information that starts at `off` in `s`: the number
/// of documents, the document id counter, the `num_fields` average field
/// lengths, the distance from there to the enum section; the enum section
/// (its number of enums, each enum's bit count, then every document's enum
/// value ids packed in those bits); the number section (its number of
/// fields, each field's minimum, then every document's numbers as
/// variable-length distances to the minimums). `None` where a part lies past
/// the end of `s` or does not read.
pub open spec fn read_docinfo(s: Seq<u8>, off: int, num_fields: nat) -> Option<DocInfoMetadata> {
    let p1 = off + 8 + 8 * num_fields;
    if !(0 <= off && p1 + 4 <= s.len()) {
        None
    } else {
        let counter = le_u32(s, off + 4);
        match read_enum_section(s, p1 + le_u32(s, p1), counter) {
            None => None,
            Some(enums) => match read_nums_section(s, enums.2, counter) {
                None => None,
                Some(nums) => Some(
                    DocInfoMetadata {
                        num_docs: le_u32(s, off) as u32,
                        doc_id_counter: counter as u32,
                        average_length_bits: Seq::new(num_fields, |i: int| u64_at(s, off + 8 + 8 * i)),
                        field_lengths_pos: p1 + 4,
                        num_enum_fields: enums.0,
                        doc_enum_vals: enums.1,
                        num_i64_fields: nums.0,
                        doc_i64_vals: nums.1,
                    },
                ),
            },
        }
    }
}

/// Reads the enum section at `ep` for `counter` documents: its number of
/// enums, each enum's bit count, then every document's enum value ids packed
/// in those bits; gives the number of enums, the ids and where the section
/// ends.
pub open spec fn read_enum_section(s: Seq<u8>, ep: int, counter: nat) -> Option<(nat, Seq<u8>, int)> {
    if !(0 <= ep && ep + 4 <= s.len()) {
        None
    } else {
        let e = le_u32(s, ep);
        let b = ep + 4 + e;
        if !(b <= s.len()) {
            None
        } else {
            let widths = s.subrange(ep + 4, b);
            let bytes = s.subrange(b, s.len() as int);
            let count = counter * e;
            let bits = enum_bits_end(widths, count);
            if !((forall|k: int| 0 <= k < e ==> #[trigger] widths[k] <= 32) && bits <= 8 * bytes.len()) {
                None
            } else {
                Some((e, read_enum_ids(bytes, widths, count), b + bits / 8 + if bits % 8 == 0 {
                    0int
                } else {
                    1int
                }))
            }
        }
    }
}

/// Reads the number section at `np` for `counter` documents: its number of
/// fields, each field's minimum, then every document's numbers as
/// distances to the minimums; gives the number of fields and the numbers.
pub open spec fn read_nums_section(s: Seq<u8>, np: int, counter: nat) -> Option<(nat, Seq<i64>)> {
    if !(0 <= np && np + 4 <= s.len()) {
        None
    } else {
        let n = le_u32(s, np);
        let c0 = np + 4 + 8 * n;
        if !(c0 <= s.len()) {
            None
        } else {
            match read_var_ints(s, c0, counter * n) {
                None => None,
                Some(r) => Some((n, i64_values(Seq::new(n, |k: int| u64_at(s, np + 4 + 8 * k) as i64), r.0))),
            }
        }
    }
}

proof fn lemma_le_u32_read(x: u32)
    ensures
        le_u32(le_u32_bytes(x), 0) == x,
{
    let b0 = x as u8;
    let b1 = (x >> 8u32) as u8;
    let b2 = (x >> 16u32) as u8;
    let b3 = (x >> 24u32) as u8;
    assert(b0 + 0x100 * b1 + 0x1_0000 * b2 + 0x100_0000 * b3 == x) by (bit_vector)
        requires
            b0 == x as u8,
            b1 == (x >> 8u32) as u8,
            b2 == (x >> 16u32) as u8,
            b3 == (x >> 24u32) as u8;
}

proof fn lemma_le_i64_read(x: i64)
    ensures
        u64_at(le_i64(x), 0) as i64 == x,
{
    let u = x as u64;
    let b0 = u as u8;
    let b1 = (u >> 8u64) as u8;
    let b2 = (u >> 16u64) as u8;
    let b3 = (u >> 24u64) as u8;
    let b4 = (u >> 32u64) as u8;
    let b5 = (u >> 40u64) as u8;
    let b6 = (u >> 48u64) as u8;
    let b7 = (u >> 56u64) as u8;
    assert(b0 + 0x100 * b1 + 0x1_0000 * b2 + 0x100_0000 * b3 + 0x1_0000_0000 * b4 + 0x100_0000_0000 * b5
        + 0x1_0000_0000_0000 * b6 + 0x100_0000_0000_0000 * b7 == u) by (bit_vector)
        requires
            b0 == u as u8,
            b1 == (u >> 8u64) as u8,
            b2 == (u >> 16u64) as u8,
            b3 == (u >> 24u64) as u8,
            b4 == (u >> 32u64) as u8,
            b5 == (u >> 40u64) as u8,
            b6 == (u >> 48u64) as u8,
            b7 == (u >> 56u64) as u8;
    assert((u as i64) == x) by (bit_vector)
        requires
            u == x as u64;
}

proof fn lemma_enum_bits_mono(widths: Seq<u8>, a: nat, b: nat)
    requires
        a <= b,
    ensures
        enum_bits_end(widths, a) <= enum_bits_end(widths, b),
    decreases b - a,
{
    if a < b {
        lemma_enum_bits_mono(widths, a, (b - 1) as nat);
    }
}

proof fn lemma_read_var_ints_prefix(s: Seq<u8>, pos: int, count: nat, j: nat)
    requires
        j <= count,
        read_var_ints(s, pos, count) is Some,
    ensures
        read_var_ints(s, pos, j) is Some,
        read_var_ints(s, pos, j).unwrap().0.len() == j,
        forall|i: int| 0 <= i < j ==> read_var_ints(s, pos, j).unwrap().0[i] == read_var_ints(s, pos, count).unwrap().0[i],
    decreases count,
{
    if j < count {
        lemma_read_var_ints_prefix(s, pos, (count - 1) as nat, j);
        lemma_read_var_ints_len(s, pos, (count - 1) as nat);
        let prev = read_var_ints(s, pos, (count - 1) as nat).unwrap().0;
        assert forall|i: int| 0 <= i < j implies read_var_ints(s, pos, j).unwrap().0[i] == read_var_ints(s, pos, count).unwrap().0[i] by {
            assert(read_var_ints(s, pos, count).unwrap().0[i] == prev[i]);
        }
    } else {
        lemma_read_var_ints_len(s, pos, count);
    }
}

proof fn lemma_read_var_ints_len(s: Seq<u8>, pos: int, count: nat)
    requires
        read_var_ints(s, pos, count) is Some,
    ensures
        read_var_ints(s, pos, count).unwrap().0.len() == count,
    decreases count,
{
    if count > 0 {
        lemma_read_var_ints_len(s, pos, (count - 1) as nat);
    }
}

/// A new document's numbers, its field's default standing for a missing
/// one.
pub open spec fn doc_values(info: WorkerMinerDocInfo, defaults: Seq<i64>) -> Seq<i64> {
    Seq::new(defaults.len(), |k: int| num_or_default(info, defaults, k))
}

/// The new documents' numbers, document after document.
pub open spec fn new_values(docs: Seq<WorkerMinerDocInfo>, defaults: Seq<i64>) -> Seq<i64>
    decreases docs.len(),
{
    if docs.len() == 0 {
        Seq::empty()
    } else {
        new_values(docs.drop_last(), defaults) + doc_values(docs.last(), defaults)
    }
}

/// Each value's distance to its field's minimum, value `i` belonging to
/// field `i % mins.len()`.
pub open spec fn distances(vals: Seq<i64>, mins: Seq<i64>) -> Seq<nat> {
    Seq::new(vals.len(), |i: int| (vals[i] - mins[i % (mins.len() as int)]) as nat)
}

/// The variable-length encodings of `ds`, one after the other.
pub open spec fn encodings(ds: Seq<nat>) -> Seq<u8>
    decreases ds.len(),
{
    if ds.len() == 0 {
        Seq::empty()
    } else {
        encodings(ds.drop_last()) + encode_var_int(ds.last())
    }
}

proof fn lemma_encodings_concat(a: Seq<nat>, b: Seq<nat>)
    ensures
        encodings(a + b) == encodings(a) + encodings(b),
    decreases b.len(),
{
    if b.len() == 0 {
        assert(a + b =~= a);
        assert(encodings(a) + encodings(b) =~= encodings(a));
    } else {
        lemma_encodings_concat(a, b.drop_last());
        assert((a + b).drop_last() =~= a + b.drop_last());
        assert(encodings(a + b) =~= encodings(a) + encodings(b));
    }
}

proof fn lemma_old_deltas(vals: Seq<i64>, mins: Seq<i64>)
    requires
        mins.len() > 0,
    ensures
        old_deltas(vals, mins) == encodings(distances(vals, mins)),
    decreases vals.len(),
{
    if vals.len() > 0 {
        lemma_old_deltas(vals.drop_last(), mins);
        assert(distances(vals, mins).drop_last() =~= distances(vals.drop_last(), mins));
    } else {
        assert(distances(vals, mins) =~= Seq::<nat>::empty());
    }
}

proof fn lemma_doc_deltas(info: WorkerMinerDocInfo, defaults: Seq<i64>, mins: Seq<i64>, upto: int)
    requires
        mins.len() == defaults.len(),
        0 <= upto <= defaults.len(),
    ensures
        doc_deltas(info, defaults, mins, upto) == encodings(
            distances(doc_values(info, defaults).subrange(0, upto), mins),
        ),
    decreases upto,
{
    let d = distances(doc_values(info, defaults).subrange(0, upto), mins);
    if upto > 0 {
        lemma_doc_deltas(info, defaults, mins, upto - 1);
        assert(d.drop_last() =~= distances(doc_values(info, defaults).subrange(0, upto - 1), mins)) by {
            assert forall|i: int| 0 <= i < upto - 1 implies #[trigger] d.drop_last()[i] == distances(
                doc_values(info, defaults).subrange(0, upto - 1),
                mins,
            )[i] by {}
        }
        vstd::arithmetic::div_mod::lemma_small_mod((upto - 1) as nat, mins.len());
    } else {
        assert(d =~= Seq::<nat>::empty());
    }
}

proof fn lemma_distances_concat(a: Seq<i64>, b: Seq<i64>, mins: Seq<i64>, q: nat)
    requires
        mins.len() > 0,
        a.len() == q * mins.len(),
    ensures
        distances(a + b, mins) == distances(a, mins) + distances(b, mins),
{
    let n = mins.len() as int;
    assert forall|i: int| 0 <= i < (a + b).len() implies #[trigger] distances(a + b, mins)[i] == (distances(a, mins)
        + distances(b, mins))[i] by {
        if i >= a.len() {
            vstd::arithmetic::div_mod::lemma_mod_multiples_vanish(q as int, i - a.len(), n);
            assert(n * q + (i - a.len()) == i) by (nonlinear_arith)
                requires
                    a.len() == q * n;
        }
    }
    assert(distances(a + b, mins) =~= distances(a, mins) + distances(b, mins));
}

proof fn lemma_new_values_len(docs: Seq<WorkerMinerDocInfo>, defaults: Seq<i64>)
    ensures
        new_values(docs, defaults).len() == docs.len() * defaults.len(),
    decreases docs.len(),
{
    if docs.len() > 0 {
        lemma_new_values_len(docs.drop_last(), defaults);
        assert((docs.len() - 1) * defaults.len() + defaults.len() == docs.len() * defaults.len()) by (nonlinear_arith);
    } else {
        assert(0 * defaults.len() == 0);
    }
}

proof fn lemma_new_deltas(docs: Seq<WorkerMinerDocInfo>, defaults: Seq<i64>, mins: Seq<i64>)
    requires
        mins.len() == defaults.len(),
        mins.len() > 0,
        forall|j: int| 0 <= j < docs.len() ==> (#[trigger] docs[j]).doc_nums@.len() == defaults.len(),
    ensures
        new_deltas(docs, defaults, mins) == encodings(distances(new_values(docs, defaults), mins)),
    decreases docs.len(),
{
    if docs.len() > 0 {
        let dl = docs.drop_last();
        assert forall|j: int| 0 <= j < dl.len() implies (#[trigger] dl[j]).doc_nums@.len() == defaults.len() by {
            assert(dl[j] == docs[j]);
        }
        lemma_new_deltas(dl, defaults, mins);
        let last = docs.last();
        assert(last == docs[docs.len() - 1]);
        lemma_doc_deltas(last, defaults, mins, defaults.len() as int);
        assert(doc_values(last, defaults).subrange(0, defaults.len() as int) =~= doc_values(last, defaults));
        lemma_new_values_len(dl, defaults);
        lemma_distances_concat(new_values(dl, defaults), doc_values(last, defaults), mins, dl.len());
        lemma_encodings_concat(distances(new_values(dl, defaults), mins), distances(doc_values(last, defaults), mins));
    } else {
        assert(distances(new_values(docs, defaults), mins) =~= Seq::<nat>::empty());
    }
}

/// Variable-length integers written one after the other read back, whatever
/// comes before and after them.
proof fn lemma_read_encodings(pre: Seq<u8>, ds: Seq<nat>, post: Seq<u8>)
    requires
        forall|i: int| 0 <= i < ds.len() ==> #[trigger] ds[i] <= u64::MAX,
    ensures
        read_var_ints(pre + encodings(ds) + post, pre.len() as int, ds.len()) == Some((
            Seq::new(ds.len(), |i: int| ds[i] as u64),
            (pre.len() + encodings(ds).len()) as int,
        )),
    decreases ds.len(),
{
    if ds.len() == 0 {
        assert(Seq::new(0, |i: int| ds[i] as u64) =~= Seq::<u64>::empty());
    } else {
        let dl = ds.drop_last();
        let last = ds.last();
        let post2 = encode_var_int(last) + post;
        assert forall|i: int| 0 <= i < dl.len() implies #[trigger] dl[i] <= u64::MAX by {
            assert(dl[i] == ds[i]);
        }
        lemma_read_encodings(pre, dl, post2);
        assert(pre + encodings(dl) + post2 =~= pre + encodings(ds) + post);
        law_read_back_written(pre + encodings(dl), last, post);
        assert(pre + encodings(dl) + encode_var_int(last) + post =~= pre + encodings(ds) + post);
        assert(ds[ds.len() - 1] == last);
        lemma_encode_len(last);
        assert(Seq::new(dl.len(), |i: int| dl[i] as u64).push(last as u64) =~= Seq::new(ds.len(), |i: int| ds[i] as u64));
    }
}

proof fn lemma_minimums_layout(mins: Seq<i64>)
    ensures
        minimums_bytes(mins).len() == 8 * mins.len(),
        forall|k: int| 0 <= k < mins.len() ==> #[trigger] minimums_bytes(mins).subrange(8 * k, 8 * k + 8) == le_i64(mins[k]),
    decreases mins.len(),
{
    if mins.len() > 0 {
        let dl = mins.drop_last();
        lemma_minimums_layout(dl);
        let b = minimums_bytes(mins);
        assert forall|k: int| 0 <= k < mins.len() implies #[trigger] b.subrange(8 * k, 8 * k + 8) == le_i64(mins[k]) by {
            if k < mins.len() - 1 {
                assert(b.subrange(8 * k, 8 * k + 8) =~= minimums_bytes(dl).subrange(8 * k, 8 * k + 8));
                assert(dl[k] == mins[k]);
            } else {
                assert(b.subrange(8 * k, 8 * k + 8) =~= le_i64(mins.last()));
            }
        }
    }
}

proof fn lemma_add_distance(m: i64, v: i64)
    requires
        m <= v,
    ensures
        add_wrapping(m, ((v - m) as nat as u64) as i64) == v,
{
    let d: u64 = (v - m) as u64;
    assert(d == v - m);
    assert(add_wrapping(m, d as i64) == v) by (bit_vector)
        requires
            m <= v,
            d == v - m;
}

/// The value at position `j` of the new documents' numbers: field `j % n`
/// of document `j / n`.
proof fn lemma_new_values_index(docs: Seq<WorkerMinerDocInfo>, defaults: Seq<i64>, j: int)
    requires
        defaults.len() > 0,
        0 <= j < docs.len() * defaults.len(),
    ensures
        0 <= j / (defaults.len() as int) < docs.len(),
        new_values(docs, defaults)[j] == num_or_default(
            docs[j / (defaults.len() as int)],
            defaults,
            j % (defaults.len() as int),
        ),
    decreases docs.len(),
{
    let n = defaults.len() as int;
    assert(docs.len() > 0) by (nonlinear_arith)
        requires
            0 <= j < docs.len() * n;
    let dl = docs.drop_last();
    assert(dl.len() == docs.len() - 1);
    lemma_new_values_len(dl, defaults);
    vstd::arithmetic::div_mod::lemma_fundamental_div_mod(j, n);
    vstd::arithmetic::div_mod::lemma_mod_bound(j, n);
    vstd::arithmetic::div_mod::lemma_div_pos_is_pos(j, n);
    if j < dl.len() * n {
        lemma_new_values_index(dl, defaults, j);
        assert(dl[j / n] == docs[j / n]);
    } else {
        let r = j - dl.len() * n;
        assert(0 <= r < n) by (nonlinear_arith)
            requires
                r == j - dl.len() * n,
                j < docs.len() * n,
                j >= dl.len() * n,
                dl.len() == docs.len() - 1;
        vstd::arithmetic::div_mod::lemma_fundamental_div_mod_converse(j, n, dl.len() as int, r);
    }
    assert(j / n < docs.len()) by (nonlinear_arith)
        requires
            j < docs.len() * n,
            j == n * (j / n) + j % n,
            j % n >= 0,
            n > 0;
}

/// Reading the number section that `write_nums` writes gives back the
/// numbers: the earlier documents' numbers, then each new document's, its
/// field's default standing for a missing one; `m` documents came earlier.
pub proof fn law_nums_read_back(
    pre: Seq<u8>,
    vals: Seq<i64>,
    docs: Seq<WorkerMinerDocInfo>,
    defaults: Seq<i64>,
    post: Seq<u8>,
    m: nat,
)
    requires
        defaults.len() <= u32::MAX,
        vals.len() == m * defaults.len(),
        forall|j: int| 0 <= j < docs.len() ==> (#[trigger] docs[j]).doc_nums@.len() == defaults.len(),
    ensures
        read_nums_section(pre + spec_nums_section(vals, docs, defaults) + post, pre.len() as int, m + docs.len())
            == Some((defaults.len(), vals + new_values(docs, defaults))),
{
    let n = defaults.len();
    let mins = Seq::new(n, |k: int| field_minimum(vals, docs, defaults, k));
    let s = pre + spec_nums_section(vals, docs, defaults) + post;
    let np = pre.len() as int;
    let all = vals + new_values(docs, defaults);
    lemma_new_values_len(docs, defaults);
    lemma_minimums_layout(mins);
    lemma_le_u32_read(n as u32);
    assert(le_u32(s, np) == n);
    let c0 = np + 4 + 8 * n;
    let ds = distances(all, mins);
    assert(all.len() == (m + docs.len()) * n) by (nonlinear_arith)
        requires
            all.len() == vals.len() + docs.len() * n,
            vals.len() == m * n;
    if n == 0 {
        assert(minimums_bytes(mins) =~= Seq::<u8>::empty());
        assert(old_deltas(vals, mins) =~= Seq::<u8>::empty());
        assert((m + docs.len()) * n == 0);
        assert(all =~= Seq::<i64>::empty());
        assert(i64_values(Seq::new(0, |k: int| u64_at(s, np + 4 + 8 * k) as i64), Seq::<u64>::empty()) =~= all);
    } else {
        lemma_old_deltas(vals, mins);
        lemma_new_deltas(docs, defaults, mins);
        lemma_distances_concat(vals, new_values(docs, defaults), mins, m);
        lemma_encodings_concat(distances(vals, mins), distances(new_values(docs, defaults), mins));
        let sec_pre = pre + le_u32_bytes(n as u32) + minimums_bytes(mins);
        assert(s =~= sec_pre + encodings(ds) + post);
        assert(sec_pre.len() == c0);
        assert forall|i: int| 0 <= i < all.len() implies mins[i % (n as int)] <= #[trigger] all[i] by {
            vstd::arithmetic::div_mod::lemma_mod_bound(i, n as int);
            let k = i % (n as int);
            if i < vals.len() {
                lemma_old_minimum_le(vals, n, i);
            } else {
                let j = i - vals.len();
                lemma_new_values_index(docs, defaults, j);
                lemma_new_minimum_le(docs, defaults, j / (n as int), j % (n as int));
                vstd::arithmetic::div_mod::lemma_mod_multiples_vanish(m as int, j, n as int);
                assert(n * m + j == i) by (nonlinear_arith)
                    requires
                        vals.len() == m * n,
                        j == i - vals.len();
            }
        }
        assert forall|i: int| 0 <= i < ds.len() implies #[trigger] ds[i] <= u64::MAX by {
            vstd::arithmetic::div_mod::lemma_mod_bound(i, n as int);
            assert(mins[i % (n as int)] <= all[i]);
        }
        lemma_read_encodings(sec_pre, ds, post);
        let mins_read = Seq::new(n, |k: int| u64_at(s, np + 4 + 8 * k) as i64);
        assert forall|k: int| 0 <= k < n implies #[trigger] mins_read[k] == mins[k] by {
            let t = minimums_bytes(mins).subrange(8 * k, 8 * k + 8);
            lemma_le_i64_read(mins[k]);
            assert forall|x: int| 0 <= x < 8 implies s[np + 4 + 8 * k + x] == #[trigger] t[x] by {}
        }
        assert(mins_read =~= mins);
        let got = Seq::new(ds.len(), |i: int| ds[i] as u64);
        assert forall|i: int| 0 <= i < all.len() implies #[trigger] i64_values(mins_read, got)[i] == all[i] by {
            vstd::arithmetic::div_mod::lemma_mod_bound(i, n as int);
            lemma_add_distance(mins[i % (n as int)], all[i]);
        }
        assert(i64_values(mins_read, got) =~= all);
    }
}

/// The bits of the first `count` ids, each in the width of its enum, id `i`
/// belonging to enum `i % ws.len()`.
pub open spec fn flat_bits(ids: Seq<u8>, ws: Seq<nat>, count: nat) -> Seq<bool>
    decreases count,
{
    if count == 0 || ws.len() == 0 {
        Seq::empty()
    } else {
        flat_bits(ids, ws, (count - 1) as nat) + low_bits(
            ids[count - 1] as nat,
            ws[(count - 1) % (ws.len() as int)],
        )
    }
}

/// The enum value ids that `write_enums` writes: the earlier documents'
/// ids, then each new document's id of each enum's value.
pub open spec fn enum_ids_written(
    existing: Seq<Seq<Seq<char>>>,
    docs_enum_values: Seq<u8>,
    original_doc_id_counter: u32,
    docs: Seq<WorkerMinerDocInfo>,
) -> Seq<u8> {
    let lists = final_enum_values(existing, docs);
    let e = existing.len() as int;
    docs_enum_values.subrange(0, original_doc_id_counter * e) + Seq::new(
        (docs.len() * e) as nat,
        |j: int| ev_id(lists[j % e], docs[j / e].doc_enums@[j % e]@) as u8,
    )
}

proof fn lemma_pow2_pos(k: nat)
    ensures
        pow2(k) > 0,
    decreases k,
{
    if k > 0 {
        lemma_pow2_pos((k - 1) as nat);
    }
}

/// The first `n` of the `w` bits of `id`, most significant first, read as a
/// number.
proof fn lemma_bits_value_prefix(bytes: Seq<u8>, start: int, id: nat, w: nat, n: nat)
    requires
        n <= w,
        id < pow2(w),
        forall|x: int| 0 <= x < w ==> #[trigger] byte_bit(bytes, start + x) == low_bits(id, w)[x],
    ensures
        bits_value(bytes, start, n) == id / pow2((w - n) as nat),
    decreases n,
{
    lemma_pow2_pos((w - n) as nat);
    if n == 0 {
        vstd::arithmetic::div_mod::lemma_basic_div(id as int, pow2(w) as int);
    } else {
        lemma_bits_value_prefix(bytes, start, id, w, (n - 1) as nat);
        let k = (w - n) as nat;
        let p = pow2(k);
        assert(pow2((k + 1) as nat) == 2 * p);
        assert(((w - (n - 1)) as nat) == k + 1);
        assert(byte_bit(bytes, start + (n - 1)) == low_bits(id, w)[n - 1]);
        assert(low_bits(id, w)[n - 1] == bit_at(id, k));
        vstd::arithmetic::div_mod::lemma_div_denominator(id as int, p as int, 2);
        vstd::arithmetic::div_mod::lemma_fundamental_div_mod((id / p) as int, 2);
        assert(p * 2 == 2 * p);
    }
}

proof fn lemma_flat_prefix(ids: Seq<u8>, ws: Seq<nat>, a: nat, b: nat)
    requires
        a <= b,
    ensures
        flat_bits(ids, ws, a).len() <= flat_bits(ids, ws, b).len(),
        flat_bits(ids, ws, b).subrange(0, flat_bits(ids, ws, a).len() as int) == flat_bits(ids, ws, a),
    decreases b - a,
{
    if a < b {
        lemma_flat_prefix(ids, ws, a, (b - 1) as nat);
        let fa = flat_bits(ids, ws, a);
        let fb1 = flat_bits(ids, ws, (b - 1) as nat);
        let fb = flat_bits(ids, ws, b);
        assert(fb.subrange(0, fa.len() as int) =~= fb1.subrange(0, fa.len() as int));
    } else {
        assert(flat_bits(ids, ws, b).subrange(0, flat_bits(ids, ws, b).len() as int) =~= flat_bits(ids, ws, b));
    }
}

/// Where id `count` starts: the bit counts of the widths read as bytes add
/// up as the flattened bits do.
proof fn lemma_enum_bits_flat(ids: Seq<u8>, ws: Seq<nat>, count: nat)
    requires
        forall|e: int| 0 <= e < ws.len() ==> #[trigger] ws[e] <= 8,
    ensures
        enum_bits_end(width_bytes(ws), count) == flat_bits(ids, ws, count).len(),
    decreases count,
{
    if count > 0 && ws.len() > 0 {
        lemma_enum_bits_flat(ids, ws, (count - 1) as nat);
        vstd::arithmetic::div_mod::lemma_mod_bound((count - 1) as int, ws.len() as int);
    }
}

/// Reading the ids packed as the flattened bits gives them back.
proof fn lemma_read_flat(bytes: Seq<u8>, ids: Seq<u8>, ws: Seq<nat>, count: nat, total: nat)
    requires
        ws.len() > 0,
        count <= total <= ids.len(),
        forall|e: int| 0 <= e < ws.len() ==> #[trigger] ws[e] <= 8,
        forall|i: int| 0 <= i < total ==> (#[trigger] ids[i] as nat) < pow2(ws[i % (ws.len() as int)]),
        forall|x: int| 0 <= x < flat_bits(ids, ws, total).len() ==> #[trigger] byte_bit(bytes, x) == flat_bits(
            ids,
            ws,
            total,
        )[x],
    ensures
        read_enum_ids(bytes, width_bytes(ws), count) == ids.subrange(0, count as int),
    decreases count,
{
    if count == 0 {
        assert(ids.subrange(0, 0) =~= Seq::<u8>::empty());
    } else {
        let i = (count - 1) as int;
        lemma_read_flat(bytes, ids, ws, (count - 1) as nat, total);
        let e = i % (ws.len() as int);
        vstd::arithmetic::div_mod::lemma_mod_bound(i, ws.len() as int);
        let w = ws[e];
        let start = flat_bits(ids, ws, i as nat).len();
        lemma_enum_bits_flat(ids, ws, i as nat);
        lemma_flat_prefix(ids, ws, count, total);
        let fc = flat_bits(ids, ws, count);
        let ft = flat_bits(ids, ws, total);
        assert(fc == flat_bits(ids, ws, i as nat) + low_bits(ids[i] as nat, w));
        assert forall|x: int| 0 <= x < w implies #[trigger] byte_bit(bytes, start + x) == low_bits(ids[i] as nat, w)[x] by {
            assert(ft[start + x] == fc[start + x]);
        }
        lemma_bits_value_prefix(bytes, start as int, ids[i] as nat, w, w);
        assert(pow2(0) == 1);
        assert(((w - w) as nat) == 0);
        assert((ids[i] as nat) / 1 == ids[i] as nat);
        assert(bits_value(bytes, start as int, w) == ids[i] as nat);
        assert(width_bytes(ws)[e] == w);
        assert(width_bytes(ws).len() == ws.len());
        assert(enum_bits_end(width_bytes(ws), i as nat) == start);
        assert(ids.subrange(0, i).push(ids[i]) =~= ids.subrange(0, count as int));
    }
}

proof fn lemma_bits_for_fits(x: nat, last: nat)
    requires
        x <= last <= 255,
    ensures
        x < pow2(bits_for(last)),
        bits_for(last) <= 8,
{
    reveal_with_fuel(pow2, 9);
}

proof fn lemma_assign_len(list: Seq<Seq<char>>, vals: Seq<Seq<char>>)
    requires
        list.len() <= 255,
    ensures
        list.len() <= assign_values(list, vals).len() <= 255,
    decreases vals.len(),
{
    if vals.len() > 0 {
        lemma_assign_len(list, vals.drop_last());
    }
}

proof fn lemma_min_index(list: Seq<Seq<char>>, v: Seq<char>, j: int) -> (m: int)
    requires
        0 <= j < list.len(),
        list[j] == v,
    ensures
        0 <= m <= j,
        list[m] == v,
        forall|k: int| 0 <= k < m ==> list[k] != v,
    decreases j,
{
    if exists|k: int| 0 <= k < j && list[k] == v {
        let k = choose|k: int| 0 <= k < j && list[k] == v;
        lemma_min_index(list, v, k)
    } else {
        j
    }
}

proof fn lemma_ev_id_le(list: Seq<Seq<char>>, v: Seq<char>)
    ensures
        ev_id(list, v) <= list.len(),
{
    if exists|i: int| 0 <= i < list.len() && list[i] == v {
        let j = choose|i: int| 0 <= i < list.len() && list[i] == v;
        let m = lemma_min_index(list, v, j);
        assert(0 <= m < list.len() && list[m] == v && forall|k: int| 0 <= k < m ==> list[k] != v);
    }
}

/// The rows of earlier documents flatten into their ids' bits.
proof fn lemma_prev_flat(ids: Seq<u8>, vals: Seq<u8>, ws: Seq<nat>, doc: nat, upto: int)
    requires
        ws.len() > 0,
        0 <= upto <= ws.len(),
        (doc + 1) * ws.len() <= ids.len(),
        (doc + 1) * ws.len() <= vals.len(),
        forall|i: int| 0 <= i < (doc + 1) * ws.len() ==> #[trigger] ids[i] == vals[i],
    ensures
        flat_bits(ids, ws, doc * ws.len() + upto as nat) == prev_bits(vals, ws, doc as int) + prev_row_bits(vals, ws, doc as int, upto),
    decreases doc, upto,
{
    let n = ws.len() as int;
    if upto == 0 {
        if doc == 0 {
            assert(0 * n == 0);
        } else {
            assert((doc - 1 + 1) * n == doc * n) by (nonlinear_arith);
            assert(doc * n <= (doc + 1) * n) by (nonlinear_arith)
                requires
                    n > 0;
            lemma_prev_flat(ids, vals, ws, (doc - 1) as nat, n);
            assert((doc - 1) * n + n == doc * n) by (nonlinear_arith);
        }
        assert(prev_bits(vals, ws, doc as int) + prev_row_bits(vals, ws, doc as int, 0) =~= prev_bits(vals, ws, doc as int));
    } else {
        lemma_prev_flat(ids, vals, ws, doc, upto - 1);
        let c = doc * n + upto;
        assert(doc * n >= 0) by (nonlinear_arith)
            requires
                n > 0;
        vstd::arithmetic::div_mod::lemma_mod_multiples_vanish(doc as int, upto - 1, n);
        assert(n * doc + (upto - 1) == c - 1) by (nonlinear_arith)
            requires
                c == doc * n + upto;
        assert((upto - 1) % n == upto - 1) by {
            vstd::arithmetic::div_mod::lemma_small_mod((upto - 1) as nat, n as nat);
        }
        assert(c - 1 < (doc + 1) * n) by (nonlinear_arith)
            requires
                c == doc * n + upto,
                upto <= n;
        assert(ids[c - 1] == vals[n * doc + upto - 1]);
    }
}

proof fn lemma_docs_index(base: int, n: int, j: int, upto: int)
    requires
        n > 0,
        base >= 0,
        base % n == 0,
        j >= 0,
        1 <= upto <= n,
    ensures
        (j * n + upto - 1) / n == j,
        (j * n + upto - 1) % n == upto - 1,
        (base + j * n + upto - 1) % n == upto - 1,
        j * n + upto - 1 >= 0,
{
    vstd::arithmetic::div_mod::lemma_fundamental_div_mod_converse(j * n + upto - 1, n, j, upto - 1);
    vstd::arithmetic::div_mod::lemma_small_mod((upto - 1) as nat, n as nat);
    let q = base / n;
    vstd::arithmetic::div_mod::lemma_fundamental_div_mod(base, n);
    vstd::arithmetic::div_mod::lemma_mod_multiples_vanish(q + j, upto - 1, n);
    assert(n * (q + j) + (upto - 1) == base + j * n + upto - 1) by (nonlinear_arith)
        requires
            base == n * q + base % n,
            base % n == 0;
    assert(j * n >= 0) by (nonlinear_arith)
        requires
            j >= 0,
            n > 0;
}

/// The rows of the new documents flatten into their ids' bits.
#[verifier::rlimit(80)]
#[verifier::spinoff_prover]
proof fn lemma_docs_flat(
    ids: Seq<u8>,
    docs: Seq<WorkerMinerDocInfo>,
    lists: Seq<Seq<Seq<char>>>,
    ws: Seq<nat>,
    base: nat,
    before: Seq<bool>,
    j: nat,
    upto: int,
)
    requires
        ws.len() > 0,
        lists.len() == ws.len(),
        j < docs.len(),
        0 <= upto <= ws.len(),
        base % ws.len() == 0,
        flat_bits(ids, ws, base) == before,
        base + docs.len() * ws.len() <= ids.len(),
        forall|d: int| 0 <= d < docs.len() ==> (#[trigger] docs[d]).doc_enums@.len() == ws.len(),
        forall|x: int|
            0 <= x < docs.len() * ws.len() ==> #[trigger] ids[base + x] == ev_id(
                lists[x % (ws.len() as int)],
                docs[x / (ws.len() as int)].doc_enums@[x % (ws.len() as int)]@,
            ) as u8,
    ensures
        flat_bits(ids, ws, (base + j * ws.len() + upto) as nat) == before + docs_bits(docs.subrange(0, j as int), lists, ws)
            + doc_row_bits(docs[j as int], lists, ws, upto),
    decreases j, upto,
{
    let n = ws.len() as int;
    if upto == 0 {
        if j == 0 {
            assert(0 * n == 0);
            assert(docs.subrange(0, 0) =~= Seq::<WorkerMinerDocInfo>::empty());
            assert(before + docs_bits(docs.subrange(0, 0), lists, ws) + doc_row_bits(docs[0], lists, ws, 0) =~= before);
        } else {
            lemma_docs_flat(ids, docs, lists, ws, base, before, (j - 1) as nat, n);
            assert((j - 1) * n + n == j * n) by (nonlinear_arith);
            let sub = docs.subrange(0, j as int);
            assert(sub.drop_last() =~= docs.subrange(0, j - 1));
            assert(sub.last() == docs[j - 1]);
            assert(docs[j - 1].doc_enums@.len() == n);
            assert(docs_bits(sub, lists, ws) == docs_bits(docs.subrange(0, j - 1), lists, ws) + doc_row_bits(
                docs[j - 1],
                lists,
                ws,
                n,
            ));
            assert(before + docs_bits(sub, lists, ws) + doc_row_bits(docs[j as int], lists, ws, 0) =~= before + docs_bits(
                docs.subrange(0, j - 1),
                lists,
                ws,
            ) + doc_row_bits(docs[j - 1], lists, ws, n));
        }
    } else {
        lemma_docs_flat(ids, docs, lists, ws, base, before, j, upto - 1);
        lemma_docs_index(base as int, n, j as int, upto);
        let x = j * n + upto - 1;
        assert(x < docs.len() * n) by (nonlinear_arith)
            requires
                x == j * n + upto - 1,
                0 <= j < docs.len(),
                upto <= n,
                n > 0;
        assert(ids[base + x] == ev_id(lists[upto - 1], docs[j as int].doc_enums@[upto - 1]@) as u8);
    }
}

/// Every id written fits its enum's width.
proof fn lemma_enum_ids_fit(
    existing: Seq<Seq<Seq<char>>>,
    docs_enum_values: Seq<u8>,
    original_doc_id_counter: u32,
    docs: Seq<WorkerMinerDocInfo>,
)
    requires
        existing.len() > 0,
        forall|e: int| 0 <= e < existing.len() ==> (#[trigger] existing[e]).len() <= 255,
        forall|j: int| 0 <= j < docs.len() ==> (#[trigger] docs[j]).doc_enums@.len() == existing.len(),
        existing.len() * original_doc_id_counter <= docs_enum_values.len(),
        forall|i: int|
            0 <= i < existing.len() * original_doc_id_counter ==> (#[trigger] docs_enum_values[i] as nat)
                <= existing[i % (existing.len() as int)].len(),
    ensures
        ({
            let ids = enum_ids_written(existing, docs_enum_values, original_doc_id_counter, docs);
            let ws = enum_widths(final_enum_values(existing, docs));
            forall|i: int|
                0 <= i < ids.len() ==> (#[trigger] ids[i] as nat) < pow2(ws[i % (existing.len() as int)])
        }),
{
    let n = existing.len() as int;
    let lists = final_enum_values(existing, docs);
    let ws = enum_widths(lists);
    let ids = enum_ids_written(existing, docs_enum_values, original_doc_id_counter, docs);
    let orig = original_doc_id_counter as int;
    let olds = orig * n;
    assert(n * orig == olds) by (nonlinear_arith)
        requires
            olds == orig * n;
    assert forall|i: int| 0 <= i < ids.len() implies (#[trigger] ids[i] as nat) < pow2(ws[i % n]) by {
        vstd::arithmetic::div_mod::lemma_mod_bound(i, n);
        let e = i % n;
        lemma_assign_len(existing[e], enum_column(docs, e));
        if i < olds {
            assert(ids[i] == docs_enum_values[i]);
            assert(docs_enum_values[i] as nat <= existing[e].len());
            lemma_bits_for_fits(ids[i] as nat, lists[e].len());
        } else {
            let x = i - olds;
            vstd::arithmetic::div_mod::lemma_mod_multiples_vanish(orig, x, n);
            assert(n * orig + x == i);
            assert(x < docs.len() * n);
            vstd::arithmetic::div_mod::lemma_fundamental_div_mod(x, n);
            vstd::arithmetic::div_mod::lemma_div_pos_is_pos(x, n);
            assert(x / n < docs.len()) by (nonlinear_arith)
                requires
                    x < docs.len() * n,
                    x == n * (x / n) + x % n,
                    x % n >= 0,
                    n > 0;
            let v = docs[x / n].doc_enums@[e]@;
            lemma_ev_id_le(lists[e], v);
            assert(ids[i] == ev_id(lists[e], v) as u8);
            lemma_bits_for_fits(ev_id(lists[e], v), lists[e].len());
        }
    }
}

/// Reading the enum section that `write_enums` writes gives back the enum
/// value ids: the earlier documents' ids, then each new document's id of
/// each enum's value; the section ends where the writer stopped.
#[verifier::rlimit(80)]
#[verifier::spinoff_prover]
pub proof fn law_enums_read_back(
    start: Seq<u8>,
    existing: Seq<Seq<Seq<char>>>,
    docs_enum_values: Seq<u8>,
    original_doc_id_counter: u32,
    docs: Seq<WorkerMinerDocInfo>,
    written: Seq<u8>,
    post: Seq<u8>,
)
    requires
        existing.len() <= u32::MAX,
        forall|e: int| 0 <= e < existing.len() ==> (#[trigger] existing[e]).len() <= 255,
        forall|j: int| 0 <= j < docs.len() ==> (#[trigger] docs[j]).doc_enums@.len() == existing.len(),
        existing.len() * original_doc_id_counter <= docs_enum_values.len(),
        forall|i: int|
            0 <= i < existing.len() * original_doc_id_counter ==> (#[trigger] docs_enum_values[i] as nat)
                <= existing[i % (existing.len() as int)].len(),
        ({
            let bits = enum_bits(existing, docs_enum_values, original_doc_id_counter, docs);
            let head = start + le_u32_bytes(existing.len() as u32) + width_bytes(
                enum_widths(final_enum_values(existing, docs)),
            );
            &&& written.len() == head.len() + (bits.len() + 7) / 8
            &&& written.subrange(0, head.len() as int) == head
            &&& forall|i: int|
                0 <= i < bits.len() ==> byte_bit(written.subrange(head.len() as int, written.len() as int), i)
                    == #[trigger] bits[i]
        }),
    ensures
        read_enum_section(written + post, start.len() as int, (original_doc_id_counter + docs.len()) as nat) == Some((
            existing.len(),
            enum_ids_written(existing, docs_enum_values, original_doc_id_counter, docs),
            written.len() as int,
        )),
{
    let n = existing.len();
    let lists = final_enum_values(existing, docs);
    let ws = enum_widths(lists);
    let bits = enum_bits(existing, docs_enum_values, original_doc_id_counter, docs);
    let head = start + le_u32_bytes(n as u32) + width_bytes(ws);
    let s = written + post;
    let ep = start.len() as int;
    let b = head.len() as int;
    let orig = original_doc_id_counter as nat;
    let count = (orig + docs.len()) * n;
    let ids = enum_ids_written(existing, docs_enum_values, original_doc_id_counter, docs);
    lemma_le_u32_read(n as u32);
    assert(s.subrange(0, head.len() as int) =~= head);
    assert forall|k: int| 0 <= k < head.len() implies #[trigger] s[k] == head[k] by {
        assert(s.subrange(0, head.len() as int)[k] == s[k]);
    }
    let lb = le_u32_bytes(n as u32);
    assert(s[ep] == lb[0] && s[ep + 1] == lb[1] && s[ep + 2] == lb[2] && s[ep + 3] == lb[3]) by {
        assert(head[ep] == lb[0] && head[ep + 1] == lb[1] && head[ep + 2] == lb[2] && head[ep + 3] == lb[3]);
    }
    assert(le_u32(s, ep) == n);
    assert(s.subrange(ep + 4, b) =~= width_bytes(ws)) by {
        assert forall|k: int| 0 <= k < n implies #[trigger] s.subrange(ep + 4, b)[k] == width_bytes(ws)[k] by {
            assert(s[ep + 4 + k] == head[ep + 4 + k]);
        }
    }
    let bytes = s.subrange(b, s.len() as int);
    assert forall|e: int| 0 <= e < n implies #[trigger] ws[e] <= 8 && lists[e].len() <= 255 && existing[e].len() <= lists[e].len() by {
        lemma_assign_len(existing[e], enum_column(docs, e));
        lemma_bits_for_fits(0, lists[e].len());
    }
    assert(ids.len() == count) by (nonlinear_arith)
        requires
            ids.len() == orig * n + docs.len() * n,
            count == (orig + docs.len()) * n;
    if n == 0 {
        assert(count == 0) by (nonlinear_arith)
            requires
                count == (orig + docs.len()) * n,
                n == 0;
        assert(bits =~= Seq::<bool>::empty()) by {
            assert(prev_bits(docs_enum_values, ws, orig as int) =~= Seq::<bool>::empty()) by {
                lemma_prev_empty(docs_enum_values, ws, orig as int);
            }
            lemma_docs_bits_empty(docs, lists, ws);
        }
        assert(ids =~= Seq::<u8>::empty());
    } else {
        let olds = orig * n;
        assert(olds <= ids.len()) by (nonlinear_arith)
            requires
                ids.len() == orig * n + docs.len() * n,
                olds == orig * n;
        assert forall|i: int| 0 <= i < olds implies #[trigger] ids[i] == docs_enum_values[i] by {}
        if orig > 0 {
            lemma_prev_flat(ids, docs_enum_values, ws, (orig - 1) as nat, n as int);
            assert((orig - 1) * n + n == olds) by (nonlinear_arith)
                requires
                    olds == orig * n;
            assert((orig - 1 + 1) * n == olds) by (nonlinear_arith)
                requires
                    olds == orig * n;
        } else {
            assert(olds == 0);
        }
        assert(flat_bits(ids, ws, olds) == prev_bits(docs_enum_values, ws, orig as int)) by {
            if orig > 0 {
                assert(prev_bits(docs_enum_values, ws, orig as int) =~= prev_bits(docs_enum_values, ws, (orig - 1) as int)
                    + prev_row_bits(docs_enum_values, ws, (orig - 1) as int, n as int));
            } else {
                assert(prev_bits(docs_enum_values, ws, 0) =~= Seq::<bool>::empty());
            }
        }
        let before = prev_bits(docs_enum_values, ws, orig as int);
        assert(olds % n == 0) by {
            vstd::arithmetic::div_mod::lemma_mod_multiples_basic(orig as int, n as int);
        }
        if docs.len() > 0 {
            assert forall|x: int| 0 <= x < docs.len() * n implies #[trigger] ids[olds + x] == ev_id(
                lists[x % (n as int)],
                docs[x / (n as int)].doc_enums@[x % (n as int)]@,
            ) as u8 by {}
            lemma_docs_flat(ids, docs, lists, ws, olds, before, (docs.len() - 1) as nat, n as int);
            assert(olds + (docs.len() - 1) * n + n == count) by (nonlinear_arith)
                requires
                    olds == orig * n,
                    count == (orig + docs.len()) * n,
                    docs.len() >= 1;
            assert(docs.subrange(0, docs.len() - 1) =~= docs.drop_last());
            assert(docs.last() == docs[docs.len() - 1]);
            assert(docs.last().doc_enums@.len() == n);
        } else {
            assert(count == olds) by (nonlinear_arith)
                requires
                    olds == orig * n,
                    count == (orig + docs.len()) * n,
                    docs.len() == 0;
        }
        assert(flat_bits(ids, ws, count) == bits);
        lemma_enum_ids_fit(existing, docs_enum_values, original_doc_id_counter, docs);
        assert forall|x: int| 0 <= x < bits.len() implies #[trigger] byte_bit(bytes, x) == bits[x] by {
            let packed = written.subrange(b, written.len() as int);
            assert(byte_bit(packed, x) == bits[x]);
            assert(x / 8 < packed.len());
            assert(bytes[x / 8] == packed[x / 8]);
        }
        lemma_read_flat(bytes, ids, ws, count, count);
        assert(ids.subrange(0, count as int) =~= ids);
        lemma_enum_bits_flat(ids, ws, count);
    }
    let tb = enum_bits_end(width_bytes(ws), count);
    assert(tb == bits.len());
    assert(tb / 8 + (if tb % 8 == 0 { 0int } else { 1int }) == (tb + 7) / 8);
}

proof fn lemma_prev_empty(vals: Seq<u8>, ws: Seq<nat>, count: int)
    requires
        ws.len() == 0,
    ensures
        prev_bits(vals, ws, count) == Seq::<bool>::empty(),
    decreases count,
{
    if count > 0 {
        lemma_prev_empty(vals, ws, count - 1);
        assert(prev_row_bits(vals, ws, count - 1, 0) =~= Seq::<bool>::empty());
        assert(prev_bits(vals, ws, count) =~= Seq::<bool>::empty());
    }
}

proof fn lemma_docs_bits_empty(docs: Seq<WorkerMinerDocInfo>, lists: Seq<Seq<Seq<char>>>, ws: Seq<nat>)
    requires
        ws.len() == 0,
        forall|d: int| 0 <= d < docs.len() ==> (#[trigger] docs[d]).doc_enums@.len() == 0,
    ensures
        docs_bits(docs, lists, ws) == Seq::<bool>::empty(),
    decreases docs.len(),
{
    if docs.len() > 0 {
        lemma_docs_bits_empty(docs.drop_last(), lists, ws);
        assert(docs.last() == docs[docs.len() - 1]);
        assert(docs_bits(docs, lists, ws) =~= Seq::<bool>::empty());
    }
}

proof fn lemma_column_skips_empty(olds: Seq<WorkerMinerDocInfo>, news: Seq<WorkerMinerDocInfo>, e: int)
    requires
        forall|j: int| 0 <= j < olds.len() ==> (#[trigger] olds[j]).doc_enums@.len() == 0,
    ensures
        enum_column(olds + news, e) == enum_column(news, e),
    decreases news.len(), olds.len(),
{
    if news.len() == 0 {
        assert(olds + news =~= olds);
        if olds.len() > 0 {
            lemma_column_skips_empty(olds.drop_last(), news, e);
            assert(olds.drop_last() + news =~= olds.drop_last());
            assert(olds.last() == olds[olds.len() - 1]);
        }
    } else {
        assert((olds + news).drop_last() =~= olds + news.drop_last());
        assert((olds + news).last() == news.last());
        lemma_column_skips_empty(olds, news.drop_last(), e);
    }
}

proof fn lemma_bits_skip_empty(
    olds: Seq<WorkerMinerDocInfo>,
    news: Seq<WorkerMinerDocInfo>,
    lists: Seq<Seq<Seq<char>>>,
    ws: Seq<nat>,
)
    requires
        forall|j: int| 0 <= j < olds.len() ==> (#[trigger] olds[j]).doc_enums@.len() == 0,
    ensures
        docs_bits(olds + news, lists, ws) == docs_bits(news, lists, ws),
    decreases news.len(), olds.len(),
{
    if news.len() == 0 {
        assert(olds + news =~= olds);
        if olds.len() > 0 {
            lemma_bits_skip_empty(olds.drop_last(), news, lists, ws);
            assert(olds.drop_last() + news =~= olds.drop_last());
            assert(olds.last() == olds[olds.len() - 1]);
            assert(docs_bits(olds, lists, ws) =~= docs_bits(olds.drop_last(), lists, ws));
        }
    } else {
        assert((olds + news).drop_last() =~= olds + news.drop_last());
        assert((olds + news).last() == news.last());
        lemma_bits_skip_empty(olds, news.drop_last(), lists, ws);
    }
}

proof fn lemma_minimum_skips_empty(olds: Seq<WorkerMinerDocInfo>, news: Seq<WorkerMinerDocInfo>, defaults: Seq<i64>, k: int)
    requires
        0 <= k,
        forall|j: int| 0 <= j < olds.len() ==> (#[trigger] olds[j]).doc_nums@.len() == 0,
    ensures
        new_minimum(olds + news, defaults, k) == new_minimum(news, defaults, k),
    decreases news.len(), olds.len(),
{
    if news.len() == 0 {
        assert(olds + news =~= olds);
        if olds.len() > 0 {
            lemma_minimum_skips_empty(olds.drop_last(), news, defaults, k);
            assert(olds.drop_last() + news =~= olds.drop_last());
            assert(olds.last() == olds[olds.len() - 1]);
        }
    } else {
        assert((olds + news).drop_last() =~= olds + news.drop_last());
        assert((olds + news).last() == news.last());
        lemma_minimum_skips_empty(olds, news.drop_last(), defaults, k);
    }
}

proof fn lemma_deltas_skip_empty(
    olds: Seq<WorkerMinerDocInfo>,
    news: Seq<WorkerMinerDocInfo>,
    defaults: Seq<i64>,
    mins: Seq<i64>,
)
    requires
        forall|j: int| 0 <= j < olds.len() ==> (#[trigger] olds[j]).doc_nums@.len() == 0,
    ensures
        new_deltas(olds + news, defaults, mins) == new_deltas(news, defaults, mins),
    decreases news.len(), olds.len(),
{
    if news.len() == 0 {
        assert(olds + news =~= olds);
        if olds.len() > 0 {
            lemma_deltas_skip_empty(olds.drop_last(), news, defaults, mins);
            assert(olds.drop_last() + news =~= olds.drop_last());
            assert(olds.last() == olds[olds.len() - 1]);
            assert(new_deltas(olds, defaults, mins) =~= new_deltas(olds.drop_last(), defaults, mins));
        }
    } else {
        assert((olds + news).drop_last() =~= olds + news.drop_last());
        assert((olds + news).last() == news.last());
        lemma_deltas_skip_empty(olds, news.drop_last(), defaults, mins);
    }
}

proof fn lemma_le_u64_read(x: u64)
    ensures
        u64_at(le_u64(x), 0) == x,
{
    let b0 = x as u8;
    let b1 = (x >> 8u64) as u8;
    let b2 = (x >> 16u64) as u8;
    let b3 = (x >> 24u64) as u8;
    let b4 = (x >> 32u64) as u8;
    let b5 = (x >> 40u64) as u8;
    let b6 = (x >> 48u64) as u8;
    let b7 = (x >> 56u64) as u8;
    assert(b0 + 0x100 * b1 + 0x1_0000 * b2 + 0x100_0000 * b3 + 0x1_0000_0000 * b4 + 0x100_0000_0000 * b5
        + 0x1_0000_0000_0000 * b6 + 0x100_0000_0000_0000 * b7 == x) by (bit_vector)
        requires
            b0 == x as u8,
            b1 == (x >> 8u64) as u8,
            b2 == (x >> 16u64) as u8,
            b3 == (x >> 24u64) as u8,
            b4 == (x >> 32u64) as u8,
            b5 == (x >> 40u64) as u8,
            b6 == (x >> 48u64) as u8,
            b7 == (x >> 56u64) as u8;
}

proof fn lemma_averages_layout(bits: Seq<u64>)
    ensures
        averages_bytes(bits).len() == 8 * bits.len(),
        forall|k: int| 0 <= k < bits.len() ==> #[trigger] averages_bytes(bits).subrange(8 * k, 8 * k + 8) == le_u64(bits[k]),
    decreases bits.len(),
{
    if bits.len() > 0 {
        let dl = bits.drop_last();
        lemma_averages_layout(dl);
        let b = averages_bytes(bits);
        assert forall|k: int| 0 <= k < bits.len() implies #[trigger] b.subrange(8 * k, 8 * k + 8) == le_u64(bits[k]) by {
            if k < bits.len() - 1 {
                assert(b.subrange(8 * k, 8 * k + 8) =~= averages_bytes(dl).subrange(8 * k, 8 * k + 8));
                assert(dl[k] == bits[k]);
            } else {
                assert(b.subrange(8 * k, 8 * k + 8) =~= le_u64(bits.last()));
            }
        }
    }
}

/// The earlier documents, which carry no enum values or numbers, add
/// nothing to the enum and number sections.
proof fn lemma_sections_skip_empty(
    olds: Seq<WorkerMinerDocInfo>,
    news: Seq<WorkerMinerDocInfo>,
    existing: Seq<Seq<Seq<char>>>,
    docs_enum_values: Seq<u8>,
    original_doc_id_counter: u32,
    vals: Seq<i64>,
    defaults: Seq<i64>,
)
    requires
        forall|j: int| 0 <= j < olds.len() ==> (#[trigger] olds[j]).doc_enums@.len() == 0 && olds[j].doc_nums@.len() == 0,
    ensures
        final_enum_values(existing, olds + news) == final_enum_values(existing, news),
        enum_bits(existing, docs_enum_values, original_doc_id_counter, olds + news) == enum_bits(
            existing,
            docs_enum_values,
            original_doc_id_counter,
            news,
        ),
        spec_nums_section(vals, olds + news, defaults) == spec_nums_section(vals, news, defaults),
{
    let docs = olds + news;
    let lists = final_enum_values(existing, docs);
    assert forall|e: int| 0 <= e < existing.len() implies #[trigger] enum_column(docs, e) == enum_column(news, e) by {
        lemma_column_skips_empty(olds, news, e);
    }
    assert(lists =~= final_enum_values(existing, news));
    lemma_bits_skip_empty(olds, news, lists, enum_widths(lists));
    let n = defaults.len();
    assert forall|k: int| 0 <= k < n implies #[trigger] field_minimum(vals, docs, defaults, k) == field_minimum(
        vals,
        news,
        defaults,
        k,
    ) by {
        lemma_minimum_skips_empty(olds, news, defaults, k);
    }
    let mins = Seq::new(n, |k: int| field_minimum(vals, docs, defaults, k));
    assert(mins =~= Seq::new(n, |k: int| field_minimum(vals, news, defaults, k)));
    lemma_deltas_skip_empty(olds, news, defaults, mins);
}

/// What is read of the start of the document information.
proof fn lemma_head_reads(s: Seq<u8>, o: int, num_docs: u32, entries: u32, bits: Seq<u64>, fl: Seq<u8>)
    requires
        0 <= o,
        fl.len() + 4 <= u32::MAX,
        ({
            let start = le_u32_bytes(num_docs) + le_u32_bytes(entries) + averages_bytes(bits) + le_u32_bytes(
                (fl.len() + 4) as u32,
            ) + fl;
            o + start.len() <= s.len() && s.subrange(o, o + start.len()) == start
        }),
    ensures
        le_u32(s, o) == num_docs,
        le_u32(s, o + 4) == entries,
        le_u32(s, o + 8 + 8 * bits.len()) == fl.len() + 4,
        forall|k: int| 0 <= k < bits.len() ==> u64_at(s, o + 8 + 8 * k) == #[trigger] bits[k],
        s.subrange(o + 8 + 8 * bits.len() + 4, o + 8 + 8 * bits.len() + 4 + fl.len()) == fl,
{
    let avg = averages_bytes(bits);
    let start = le_u32_bytes(num_docs) + le_u32_bytes(entries) + avg + le_u32_bytes((fl.len() + 4) as u32) + fl;
    let p1 = (8 + 8 * bits.len()) as int;
    lemma_averages_layout(bits);
    lemma_le_u32_read(num_docs);
    lemma_le_u32_read(entries);
    lemma_le_u32_read((fl.len() + 4) as u32);
    assert forall|i: int| 0 <= i < start.len() implies s[o + i] == #[trigger] start[i] by {
        assert(s[o + i] == s.subrange(o, o + start.len())[i]);
    }
    assert forall|i: int| 0 <= i < 4 implies s[o + i] == #[trigger] le_u32_bytes(num_docs)[i] by {
        assert(start[i] == le_u32_bytes(num_docs)[i]);
    }
    assert forall|i: int| 0 <= i < 4 implies s[o + 4 + i] == #[trigger] le_u32_bytes(entries)[i] by {
        assert(start[4 + i] == le_u32_bytes(entries)[i]);
    }
    assert forall|i: int| 0 <= i < 4 implies s[o + p1 + i] == #[trigger] le_u32_bytes((fl.len() + 4) as u32)[i] by {
        assert(start[p1 + i] == le_u32_bytes((fl.len() + 4) as u32)[i]);
    }
    assert forall|k: int| 0 <= k < bits.len() implies u64_at(s, o + 8 + 8 * k) == #[trigger] bits[k] by {
        lemma_le_u64_read(bits[k]);
        let b = avg.subrange(8 * k, 8 * k + 8);
        assert forall|i: int| 0 <= i < 8 implies s[o + 8 + 8 * k + i] == #[trigger] b[i] by {
            assert(start[8 + 8 * k + i] == avg[8 * k + i]);
        }
    }
    assert forall|i: int| 0 <= i < fl.len() implies s[o + p1 + 4 + i] == #[trigger] fl[i] by {
        assert(start[p1 + 4 + i] == fl[i]);
    }
    assert(s.subrange(o + p1 + 4, o + p1 + 4 + fl.len()) =~= fl);
}

/// Whether the `count` field lengths from `pos` on in `s` read: each takes
/// at most five bytes and fits in 32 bits.
pub open spec fn lengths_readable(s: Seq<u8>, pos: int, count: nat) -> bool
    decreases count,
{
    count == 0 || (0 <= pos <= s.len() && match var_int_at(s, pos) {
        Some((v, l)) => v <= u32::MAX && l <= 5 && lengths_readable(s, pos + l, (count - 1) as nat),
        None => false,
    })
}

/// The `count` field lengths from `pos` on in `s`.
pub open spec fn lengths_at(s: Seq<u8>, pos: int, count: nat) -> Seq<u32>
    decreases count,
{
    if count == 0 {
        Seq::empty()
    } else {
        match var_int_at(s, pos) {
            Some((v, l)) => seq![v as u32] + lengths_at(s, pos + l, (count - 1) as nat),
            None => Seq::empty(),
        }
    }
}

pub(crate) proof fn lemma_lengths_at_len(s: Seq<u8>, pos: int, count: nat)
    requires
        lengths_readable(s, pos, count),
    ensures
        lengths_at(s, pos, count).len() == count,
    decreases count,
{
    if count > 0 {
        let (v, l) = var_int_at(s, pos).unwrap();
        lemma_lengths_at_len(s, pos + l, (count - 1) as nat);
    }
}

proof fn lemma_lengths_bytes_first(ds: Seq<u32>)
    requires
        ds.len() > 0,
    ensures
        lengths_bytes(ds) == encode_var_int(ds[0] as nat) + lengths_bytes(ds.drop_first()),
    decreases ds.len(),
{
    if ds.len() > 1 {
        lemma_lengths_bytes_first(ds.drop_last());
        assert(ds.drop_last().drop_first() =~= ds.drop_first().drop_last());
        assert(ds.drop_first().last() == ds.last());
    } else {
        assert(ds.drop_first() =~= Seq::<u32>::empty());
        assert(ds.drop_last() =~= Seq::<u32>::empty());
    }
}

proof fn lemma_lengths_bytes_concat(a: Seq<u32>, b: Seq<u32>)
    ensures
        lengths_bytes(a + b) == lengths_bytes(a) + lengths_bytes(b),
    decreases b.len(),
{
    if b.len() == 0 {
        assert(a + b =~= a);
        assert(lengths_bytes(a) + lengths_bytes(b) =~= lengths_bytes(a));
    } else {
        lemma_lengths_bytes_concat(a, b.drop_last());
        assert((a + b).drop_last() =~= a + b.drop_last());
        assert(lengths_bytes(a + b) =~= lengths_bytes(a) + lengths_bytes(b));
    }
}

proof fn lemma_field_lengths_flat(docs: Seq<WorkerMinerDocInfo>)
    ensures
        field_lengths_bytes(docs) == lengths_bytes(all_field_lengths(docs)),
    decreases docs.len(),
{
    if docs.len() > 0 {
        lemma_field_lengths_flat(docs.drop_last());
        lemma_lengths_bytes_concat(all_field_lengths(docs.drop_last()), docs.last().field_lengths@);
    }
}

/// Written field lengths read back, whatever stands around them.
proof fn lemma_lengths_read_back(pre: Seq<u8>, ds: Seq<u32>, post: Seq<u8>)
    ensures
        lengths_readable(pre + lengths_bytes(ds) + post, pre.len() as int, ds.len()),
        lengths_at(pre + lengths_bytes(ds) + post, pre.len() as int, ds.len()) == ds,
    decreases ds.len(),
{
    let s = pre + lengths_bytes(ds) + post;
    if ds.len() == 0 {
        assert(lengths_at(s, pre.len() as int, 0) =~= ds);
    } else {
        let v = ds[0] as nat;
        let rest = ds.drop_first();
        lemma_lengths_bytes_first(ds);
        let enc = encode_var_int(v);
        assert(s =~= pre + enc + (lengths_bytes(rest) + post));
        law_read_back_written(pre, v, lengths_bytes(rest) + post);
        lemma_encode_len(v);
        let pre2 = pre + enc;
        assert(s =~= pre2 + lengths_bytes(rest) + post);
        lemma_lengths_read_back(pre2, rest, post);
        assert(lengths_at(s, pre.len() as int, ds.len()) =~= seq![ds[0]] + rest);
        assert(seq![ds[0]] + rest =~= ds);
    }
}

/// The document information read from its parts.
proof fn lemma_read_docinfo_parts(
    s: Seq<u8>,
    o: int,
    num_docs: u32,
    counter: u32,
    average_length_bits: Seq<u64>,
    field_lengths_len: nat,
    enums: (nat, Seq<u8>, int),
    nums: (nat, Seq<i64>),
)
    requires
        0 <= o,
        o + 8 + 8 * average_length_bits.len() + 4 <= s.len(),
        le_u32(s, o) == num_docs,
        le_u32(s, o + 4) == counter,
        forall|k: int| 0 <= k < average_length_bits.len() ==> u64_at(s, o + 8 + 8 * k) == #[trigger] average_length_bits[k],
        le_u32(s, o + 8 + 8 * average_length_bits.len()) == field_lengths_len + 4,
        read_enum_section(s, o + 8 + 8 * average_length_bits.len() + 4 + field_lengths_len, counter as nat)
            == Some(enums),
        read_nums_section(s, enums.2, counter as nat) == Some(nums),
    ensures
        read_docinfo(s, o, average_length_bits.len()) == Some(
            DocInfoMetadata {
                num_docs,
                doc_id_counter: counter,
                average_length_bits,
                field_lengths_pos: o + 8 + 8 * average_length_bits.len() + 4,
                num_enum_fields: enums.0,
                doc_enum_vals: enums.1,
                num_i64_fields: nums.0,
                doc_i64_vals: nums.1,
            },
        ),
{
    let nf = average_length_bits.len();
    assert(Seq::new(nf, |i: int| u64_at(s, o + 8 + 8 * i)) =~= average_length_bits);
}

/// The enum and number sections of a document information block read back
/// wherever the block stands in a file.
#[verifier::rlimit(40)]
#[verifier::spinoff_prover]
proof fn lemma_sections_in_file(
    pre: Seq<u8>,
    written: Seq<u8>,
    start: Seq<u8>,
    existing: Seq<Seq<Seq<char>>>,
    docs_enum_values: Seq<u8>,
    original_doc_id_counter: u32,
    news: Seq<WorkerMinerDocInfo>,
    docs_i64_values: Seq<i64>,
    i64_defaults: Seq<i64>,
)
    requires
        existing.len() <= u32::MAX,
        i64_defaults.len() <= u32::MAX,
        forall|e: int| 0 <= e < existing.len() ==> (#[trigger] existing[e]).len() <= 255,
        forall|j: int|
            0 <= j < news.len() ==> (#[trigger] news[j]).doc_enums@.len() == existing.len() && news[j].doc_nums@.len()
                == i64_defaults.len(),
        existing.len() * original_doc_id_counter <= docs_enum_values.len(),
        forall|i: int|
            0 <= i < existing.len() * original_doc_id_counter ==> (#[trigger] docs_enum_values[i] as nat)
                <= existing[i % (existing.len() as int)].len(),
        docs_i64_values.len() == original_doc_id_counter * i64_defaults.len(),
        ({
            let bits = enum_bits(existing, docs_enum_values, original_doc_id_counter, news);
            let head = start + le_u32_bytes(existing.len() as u32) + width_bytes(
                enum_widths(final_enum_values(existing, news)),
            );
            let enum_end = (head.len() + (bits.len() + 7) / 8) as int;
            let nums = spec_nums_section(docs_i64_values, news, i64_defaults);
            &&& written.len() == enum_end + nums.len()
            &&& written.subrange(0, head.len() as int) == head
            &&& forall|i: int|
                0 <= i < bits.len() ==> byte_bit(written.subrange(head.len() as int, enum_end), i) == #[trigger] bits[i]
            &&& written.subrange(enum_end, written.len() as int) == nums
        }),
    ensures
        ({
            let bits = enum_bits(existing, docs_enum_values, original_doc_id_counter, news);
            let head = start + le_u32_bytes(existing.len() as u32) + width_bytes(
                enum_widths(final_enum_values(existing, news)),
            );
            let enum_end = (head.len() + (bits.len() + 7) / 8) as int;
            let count = (original_doc_id_counter + news.len()) as nat;
            &&& read_enum_section(pre + written, (pre.len() + start.len()) as int, count) == Some(
                (
                    existing.len(),
                    enum_ids_written(existing, docs_enum_values, original_doc_id_counter, news),
                    pre.len() + enum_end,
                ),
            )
            &&& read_nums_section(pre + written, pre.len() + enum_end, count) == Some(
                (i64_defaults.len(), docs_i64_values + new_values(news, i64_defaults)),
            )
        }),
{
    let bits = enum_bits(existing, docs_enum_values, original_doc_id_counter, news);
    let ws = enum_widths(final_enum_values(existing, news));
    let head = start + le_u32_bytes(existing.len() as u32) + width_bytes(ws);
    let enum_end = (head.len() + (bits.len() + 7) / 8) as int;
    let nums = spec_nums_section(docs_i64_values, news, i64_defaults);
    let o = pre.len() as int;
    let w = written.subrange(0, enum_end);
    let post = written.subrange(enum_end, written.len() as int);
    let s = pre + written;
    let pw = pre + w;
    assert(w + post =~= written);
    assert(pw + post =~= s);
    assert(pw.subrange(0, o + head.len()) =~= pre + head) by {
        assert(w.subrange(0, head.len() as int) =~= written.subrange(0, head.len() as int));
        assert(pw.subrange(0, o + head.len()) =~= pre + w.subrange(0, head.len() as int));
    }
    assert(pw.subrange(o + head.len(), pw.len() as int) =~= written.subrange(head.len() as int, enum_end));
    assert(pre + head =~= (pre + start) + le_u32_bytes(existing.len() as u32) + width_bytes(ws));
    law_enums_read_back(pre + start, existing, docs_enum_values, original_doc_id_counter, news, pw, post);
    law_nums_read_back(pw, docs_i64_values, news, i64_defaults, Seq::empty(), original_doc_id_counter as nat);
    assert(pw + nums + Seq::<u8>::empty() =~= s);
}

/// What is read back of the document information that `finalize_and_flush`
/// wrote (`written`, as its `ensures` describes it), wherever it stands in
/// a file (after `pre`), as `MetadataReader::read_docinfo_inital_metadata`
/// and `read_docinfo_field_length` read it: the number of
/// documents, one entry per document, the average field lengths, where the
/// field lengths start, and every document's enum value ids and numbers, the
/// earlier documents' first. `doc_infos` holds the
/// `original_doc_id_counter` earlier documents, which carry no enum values or
/// numbers, then the new ones, each with all of them.
#[verifier::rlimit(40)]
#[verifier::spinoff_prover]
pub proof fn law_docinfo_read_back(
    num_docs: u32,
    doc_infos: Seq<WorkerMinerDocInfo>,
    average_length_bits: Seq<u64>,
    existing: Seq<Seq<Seq<char>>>,
    docs_enum_values: Seq<u8>,
    original_doc_id_counter: u32,
    docs_i64_values: Seq<i64>,
    i64_defaults: Seq<i64>,
    pre: Seq<u8>,
    written: Seq<u8>,
)
    requires
        original_doc_id_counter <= doc_infos.len() <= u32::MAX,
        field_lengths_bytes(doc_infos).len() + 4 <= u32::MAX,
        existing.len() <= u32::MAX,
        i64_defaults.len() <= u32::MAX,
        forall|e: int| 0 <= e < existing.len() ==> (#[trigger] existing[e]).len() <= 255,
        forall|j: int|
            0 <= j < original_doc_id_counter ==> (#[trigger] doc_infos[j]).doc_enums@.len() == 0
                && doc_infos[j].doc_nums@.len() == 0,
        forall|j: int|
            original_doc_id_counter <= j < doc_infos.len() ==> (#[trigger] doc_infos[j]).doc_enums@.len()
                == existing.len() && doc_infos[j].doc_nums@.len() == i64_defaults.len(),
        existing.len() * original_doc_id_counter <= docs_enum_values.len(),
        forall|i: int|
            0 <= i < existing.len() * original_doc_id_counter ==> (#[trigger] docs_enum_values[i] as nat)
                <= existing[i % (existing.len() as int)].len(),
        docs_i64_values.len() == original_doc_id_counter * i64_defaults.len(),
        ({
            let bits = enum_bits(existing, docs_enum_values, original_doc_id_counter, doc_infos);
            let head = docinfo_head(num_docs, doc_infos, average_length_bits) + le_u32_bytes(existing.len() as u32)
                + width_bytes(enum_widths(final_enum_values(existing, doc_infos)));
            let enum_end = (head.len() + (bits.len() + 7) / 8) as int;
            let nums = spec_nums_section(docs_i64_values, doc_infos, i64_defaults);
            &&& written.len() == enum_end + nums.len()
            &&& written.subrange(0, head.len() as int) == head
            &&& forall|i: int|
                0 <= i < bits.len() ==> byte_bit(written.subrange(head.len() as int, enum_end), i) == #[trigger] bits[i]
            &&& written.subrange(enum_end, written.len() as int) == nums
        }),
    ensures
        ({
            let news = doc_infos.subrange(original_doc_id_counter as int, doc_infos.len() as int);
            read_docinfo(pre + written, pre.len() as int, average_length_bits.len()) == Some(
                DocInfoMetadata {
                    num_docs,
                    doc_id_counter: doc_infos.len() as u32,
                    average_length_bits,
                    field_lengths_pos: (pre.len() + 8 + 8 * average_length_bits.len() + 4) as int,
                    num_enum_fields: existing.len(),
                    doc_enum_vals: enum_ids_written(existing, docs_enum_values, original_doc_id_counter, news),
                    num_i64_fields: i64_defaults.len(),
                    doc_i64_vals: docs_i64_values + new_values(news, i64_defaults),
                },
            )
        }),
        lengths_readable(
            pre + written,
            (pre.len() + 8 + 8 * average_length_bits.len() + 4) as int,
            all_field_lengths(doc_infos).len(),
        ),
        lengths_at(pre + written, (pre.len() + 8 + 8 * average_length_bits.len() + 4) as int, all_field_lengths(doc_infos).len())
            == all_field_lengths(doc_infos),
{
    let c = original_doc_id_counter as int;
    let olds = doc_infos.subrange(0, c);
    let news = doc_infos.subrange(c, doc_infos.len() as int);
    assert(olds + news =~= doc_infos);
    assert forall|j: int| 0 <= j < olds.len() implies (#[trigger] olds[j]).doc_enums@.len() == 0
        && olds[j].doc_nums@.len() == 0 by {
        assert(olds[j] == doc_infos[j]);
    }
    assert forall|j: int| 0 <= j < news.len() implies (#[trigger] news[j]).doc_enums@.len() == existing.len()
        && news[j].doc_nums@.len() == i64_defaults.len() by {
        assert(news[j] == doc_infos[c + j]);
    }
    lemma_sections_skip_empty(
        olds,
        news,
        existing,
        docs_enum_values,
        original_doc_id_counter,
        docs_i64_values,
        i64_defaults,
    );
    // the enum and number sections
    let lists = final_enum_values(existing, doc_infos);
    let ws = enum_widths(lists);
    let nums = spec_nums_section(docs_i64_values, doc_infos, i64_defaults);
    let bits = enum_bits(existing, docs_enum_values, original_doc_id_counter, doc_infos);
    let start = docinfo_head(num_docs, doc_infos, average_length_bits);
    let head = start + le_u32_bytes(existing.len() as u32) + width_bytes(ws);
    let enum_end = (head.len() + (bits.len() + 7) / 8) as int;
    let o = pre.len() as int;
    let s = pre + written;
    let count = (original_doc_id_counter + news.len()) as nat;
    let ids = enum_ids_written(existing, docs_enum_values, original_doc_id_counter, news);
    let vals = docs_i64_values + new_values(news, i64_defaults);
    let pw_len = o + enum_end;
    lemma_sections_in_file(
        pre,
        written,
        start,
        existing,
        docs_enum_values,
        original_doc_id_counter,
        news,
        docs_i64_values,
        i64_defaults,
    );
    // the start
    let nf = average_length_bits.len();
    let fl = field_lengths_bytes(doc_infos);
    lemma_averages_layout(average_length_bits);
    assert(start.len() == 8 + 8 * nf + 4 + fl.len());
    assert(s.subrange(o, o + start.len()) =~= start) by {
        assert forall|i: int| 0 <= i < start.len() implies s[o + i] == #[trigger] start[i] by {
            assert(written.subrange(0, head.len() as int)[i] == head[i]);
            assert(s[o + i] == written[i]);
        }
    }
    assert(doc_infos.len() == count);
    lemma_head_reads(s, o, num_docs, doc_infos.len() as u32, average_length_bits, fl);
    lemma_read_docinfo_parts(
        s,
        o,
        num_docs,
        doc_infos.len() as u32,
        average_length_bits,
        fl.len(),
        (existing.len(), ids, pw_len),
        (i64_defaults.len(), vals),
    );
    // the field lengths
    lemma_field_lengths_read(s, o + 8 + 8 * nf + 4, doc_infos);
}

proof fn lemma_field_lengths_read(written: Seq<u8>, fp: int, docs: Seq<WorkerMinerDocInfo>)
    requires
        0 <= fp,
        fp + field_lengths_bytes(docs).len() <= written.len(),
        written.subrange(fp, fp + field_lengths_bytes(docs).len()) == field_lengths_bytes(docs),
    ensures
        lengths_readable(written, fp, all_field_lengths(docs).len()),
        lengths_at(written, fp, all_field_lengths(docs).len()) == all_field_lengths(docs),
{
    let fl = field_lengths_bytes(docs);
    lemma_field_lengths_flat(docs);
    let pre = written.subrange(0, fp);
    let rest = written.subrange(fp + fl.len(), written.len() as int);
    assert(pre + lengths_bytes(all_field_lengths(docs)) + rest =~= written);
    lemma_lengths_read_back(pre, all_field_lengths(docs), rest);
}

/// Reads the metadata file of an index.
pub struct MetadataReader {
    buf: Vec<u8>,
    dict_table_offset: usize,
    invalidation_vec_offset: usize,
    doc_infos_offset: usize,
    doc_infos_pos: usize,
}

impl MetadataReader {
    pub closed spec fn spec_buf(&self) -> Seq<u8> {
        self.buf@
    }

    pub closed spec fn spec_dict_table_offset(&self) -> nat {
        self.dict_table_offset as nat
    }

    pub closed spec fn spec_invalidation_vec_offset(&self) -> nat {
        self.invalidation_vec_offset as nat
    }

    pub closed spec fn spec_doc_infos_offset(&self) -> nat {
        self.doc_infos_offset as nat
    }

    /// Where the next document length is read.
    pub closed spec fn spec_doc_infos_pos(&self) -> nat {
        self.doc_infos_pos as nat
    }

    /// A reader of `buf`, whose first 12 bytes hold the offsets of the
    /// dictionary table, the invalidation vector and the document infos.
    pub fn new(buf: Vec<u8>) -> (res: Self)
        requires
            buf@.len() >= 12,
        ensures
            res.spec_buf() == buf@,
            res.spec_dict_table_offset() == le_u32(buf@, 0),
            res.spec_invalidation_vec_offset() == le_u32(buf@, 4),
            res.spec_doc_infos_offset() == le_u32(buf@, 8),
            res.spec_doc_infos_pos() == 0,
    {
        let dict_table_offset = read_u32_le(buf.as_slice(), 0) as usize;
        let invalidation_vec_offset = read_u32_le(buf.as_slice(), 4) as usize;
        let doc_infos_offset = read_u32_le(buf.as_slice(), 8) as usize;
        MetadataReader { buf, dict_table_offset, invalidation_vec_offset, doc_infos_offset, doc_infos_pos: 0 }
    }

    /// Appends the invalidation bit vector (the bytes between its offset and
    /// the document infos) to `output`.
    pub fn get_invalidation_vec(&self, output: &mut Vec<u8>)
        requires
            self.spec_invalidation_vec_offset() <= self.spec_doc_infos_offset() <= self.spec_buf().len(),
        ensures
            final(output)@ == old(output)@ + self.spec_buf().subrange(
                self.spec_invalidation_vec_offset() as int,
                self.spec_doc_infos_offset() as int,
            ),
    {
        let mut i = self.invalidation_vec_offset;
        let ghost start = output@;
        while i < self.doc_infos_offset
            invariant
                self.invalidation_vec_offset <= i <= self.doc_infos_offset <= self.buf@.len(),
                output@ == start + self.buf@.subrange(self.invalidation_vec_offset as int, i as int),
            decreases self.doc_infos_offset - i,
        {
            output.push(self.buf[i]);
            i = i + 1;
            assert(output@ =~= start + self.buf@.subrange(self.invalidation_vec_offset as int, i as int));
        }
    }

    /// Reads the start of the document information (see `read_docinfo`):
    /// the number of documents, the document id counter, the average field
    /// lengths (appended to `average_lengths` as the bits of their 64-bit
    /// floats), the numbers of enum and number fields, and returns every
    /// document's enum value ids and numbers; the document field lengths are
    /// read next.
    pub fn read_docinfo_inital_metadata(
        &mut self,
        num_docs: &mut u32,
        doc_id_counter: &mut u32,
        average_lengths: &mut Vec<u64>,
        num_enum_fields: &mut usize,
        num_i64_fields: &mut usize,
        num_fields: usize,
    ) -> (vals: (Vec<u8>, Vec<i64>))
        requires
            read_docinfo(old(self).spec_buf(), old(self).spec_doc_infos_offset() as int, num_fields as nat) is Some,
            8 * old(self).spec_buf().len() <= usize::MAX,
            ({
                let m = read_docinfo(old(self).spec_buf(), old(self).spec_doc_infos_offset() as int, num_fields as nat).unwrap();
                &&& m.doc_id_counter * m.num_enum_fields <= usize::MAX
                &&& m.doc_id_counter * m.num_i64_fields <= usize::MAX
            }),
        ensures
            ({
                let m = read_docinfo(old(self).spec_buf(), old(self).spec_doc_infos_offset() as int, num_fields as nat).unwrap();
                &&& *final(num_docs) == m.num_docs
                &&& *final(doc_id_counter) == m.doc_id_counter
                &&& final(average_lengths)@ == old(average_lengths)@ + m.average_length_bits
                &&& *final(num_enum_fields) == m.num_enum_fields
                &&& *final(num_i64_fields) == m.num_i64_fields
                &&& vals.0@ == m.doc_enum_vals
                &&& vals.1@ == m.doc_i64_vals
                &&& final(self).spec_doc_infos_pos() == m.field_lengths_pos
            }),
            final(self).spec_buf() == old(self).spec_buf(),
            final(self).spec_dict_table_offset() == old(self).spec_dict_table_offset(),
            final(self).spec_invalidation_vec_offset() == old(self).spec_invalidation_vec_offset(),
            final(self).spec_doc_infos_offset() == old(self).spec_doc_infos_offset(),
    {
        let ghost s = self.buf@;
        let ghost nf = num_fields as nat;
        let ghost m = read_docinfo(s, self.doc_infos_offset as int, nf).unwrap();
        let off = self.doc_infos_offset;
        *num_docs = read_u32_le(self.buf.as_slice(), off);
        let counter = read_u32_le(self.buf.as_slice(), off + 4);
        *doc_id_counter = counter;
        let mut pos = off + 8;
        let mut i: usize = 0;
        let ghost a0 = average_lengths@;
        assert(average_lengths@ =~= a0 + Seq::new(0, |x: int| u64_at(s, off + 8 + 8 * x)));
        while i < num_fields
            invariant
                i <= num_fields,
                pos == off + 8 + 8 * i,
                off + 8 + 8 * num_fields + 4 <= s.len(),
                8 * s.len() <= usize::MAX,
                self.buf@ == s,
                average_lengths@ == a0 + Seq::new(i as nat, |x: int| u64_at(s, off + 8 + 8 * x)),
            decreases num_fields - i,
        {
            let v = read_u64_le(self.buf.as_slice(), pos);
            average_lengths.push(v);
            pos = pos + 8;
            i = i + 1;
            assert(average_lengths@ =~= a0 + Seq::new(i as nat, |x: int| u64_at(s, off + 8 + 8 * x)));
        }
        let p1 = pos;
        let rel = read_u32_le(self.buf.as_slice(), p1) as usize;
        let ep = p1 + rel;
        let e = read_u32_le(self.buf.as_slice(), ep) as usize;
        *num_enum_fields = e;
        let ws = ep + 4;
        let b = ws + e;
        let ghost widths = s.subrange(ws as int, b as int);
        let bytes = vstd::slice::slice_subrange(self.buf.as_slice(), b, self.buf.len());
        let count = counter as usize * e;
        let ghost total_bits = enum_bits_end(widths, count as nat);
        let mut enum_vals: Vec<u8> = Vec::new();
        let mut bit_pos: usize = 0;
        let mut idx: usize = 0;
        let mut k: usize = 0;
        let ghost mut d: int = 0;
        proof {
            if count > 0 {
                assert(e > 0) by (nonlinear_arith)
                    requires
                        count == counter * e,
                        count > 0;
            }
            assert(0 * e == 0) by (nonlinear_arith);
        }
        while idx < count
            invariant
                idx <= count == counter * e,
                count > 0 ==> e > 0,
                0 <= d,
                k < e || count == 0,
                idx == d * e + k,
                self.buf@ == s,
                bytes@ == s.subrange(b as int, s.len() as int),
                widths == s.subrange(ws as int, b as int),
                b == ws + e,
                b <= s.len(),
                8 * s.len() <= usize::MAX,
                total_bits == enum_bits_end(widths, count as nat),
                total_bits <= 8 * bytes@.len(),
                forall|x: int| 0 <= x < e ==> #[trigger] widths[x] <= 32,
                bit_pos == enum_bits_end(widths, idx as nat),
                enum_vals@ == read_enum_ids(bytes@, widths, idx as nat),
            decreases count - idx,
        {
            proof {
                vstd::arithmetic::div_mod::lemma_fundamental_div_mod_converse(idx as int, e as int, d, k as int);
                lemma_enum_bits_mono(widths, (idx + 1) as nat, count as nat);
                assert(widths[k as int] == s[ws + k]);
            }
            let w = self.buf[ws + k] as usize;
            let v = read_bits_from(&mut bit_pos, w, bytes);
            enum_vals.push(v as u8);
            idx = idx + 1;
            k = k + 1;
            if k == e {
                k = 0;
                proof {
                    assert((d + 1) * e == d * e + e) by (nonlinear_arith);
                    d = d + 1;
                }
            }
        }
        let bits_end = bit_pos;
        let np = b + bits_end / 8 + if bits_end % 8 == 0 {
            0
        } else {
            1
        };
        let n = read_u32_le(self.buf.as_slice(), np) as usize;
        *num_i64_fields = n;
        let ghost mins_spec = Seq::new(n as nat, |x: int| u64_at(s, np + 4 + 8 * x) as i64);
        let mut mins: Vec<i64> = Vec::new();
        let mut q = np + 4;
        let mut kk: usize = 0;
        while kk < n
            invariant
                kk <= n,
                q == np + 4 + 8 * kk,
                np + 4 + 8 * n <= s.len(),
                8 * s.len() <= usize::MAX,
                self.buf@ == s,
                mins_spec == Seq::new(n as nat, |x: int| u64_at(s, np + 4 + 8 * x) as i64),
                mins@ == mins_spec.subrange(0, kk as int),
            decreases n - kk,
        {
            let v = read_u64_le(self.buf.as_slice(), q) as i64;
            mins.push(v);
            q = q + 8;
            kk = kk + 1;
            assert(mins@ =~= mins_spec.subrange(0, kk as int));
        }
        assert(mins@ =~= mins_spec);
        let total = counter as usize * n;
        let ghost all = read_var_ints(s, q as int, total as nat).unwrap().0;
        let mut vals: Vec<i64> = Vec::new();
        let mut cursor = q;
        let mut j: usize = 0;
        let mut kf: usize = 0;
        let ghost mut df: int = 0;
        proof {
            if total > 0 {
                assert(n > 0) by (nonlinear_arith)
                    requires
                        total == counter * n,
                        total > 0;
            }
            assert(0 * n == 0) by (nonlinear_arith);
            lemma_read_var_ints_len(s, q as int, total as nat);
        }
        while j < total
            invariant
                j <= total == counter * n,
                total > 0 ==> n > 0,
                0 <= df,
                kf < n || total == 0,
                j == df * n + kf,
                self.buf@ == s,
                mins@ == mins_spec,
                mins_spec.len() == n,
                read_var_ints(s, q as int, total as nat) is Some,
                all == read_var_ints(s, q as int, total as nat).unwrap().0,
                all.len() == total,
                read_var_ints(s, q as int, j as nat) == Some((all.subrange(0, j as int), cursor as int)),
                vals@ == i64_values(mins_spec, all.subrange(0, j as int)),
            decreases total - j,
        {
            proof {
                vstd::arithmetic::div_mod::lemma_fundamental_div_mod_converse(j as int, n as int, df, kf as int);
                lemma_read_var_ints_prefix(s, q as int, total as nat, (j + 1) as nat);
                assert(read_var_ints(s, q as int, (j + 1) as nat).unwrap().0 =~= all.subrange(0, j + 1)) by {
                    assert forall|x: int| 0 <= x < j + 1 implies #[trigger] read_var_ints(s, q as int, (j + 1) as nat).unwrap().0[x]
                        == all.subrange(0, j + 1)[x] by {}
                }
            }
            let ghost c_old = cursor as int;
            let delta = decode_var_int_u64(self.buf.as_slice(), &mut cursor);
            let base = mins[kf];
            let value = base.wrapping_add(#[verifier::truncate] (delta as i64));
            let ghost before = vals@;
            vals.push(value);
            proof {
                assert(read_var_ints(s, q as int, j as nat) == Some((all.subrange(0, j as int), c_old)));
                assert(var_int_at(s, c_old) == Some((delta as nat, (cursor - c_old) as nat)));
                assert(0 <= c_old <= s.len());
                assert(((j + 1) as nat - 1) as nat == j as nat);
                assert(read_var_ints(s, q as int, (j + 1) as nat) == Some((all.subrange(0, j as int).push(delta), cursor as int)));
                assert(all[j as int] == delta);
                assert(all.subrange(0, j as int).push(delta) =~= all.subrange(0, j + 1));
                assert(vals@ =~= i64_values(mins_spec, all.subrange(0, j + 1)));
            }
            j = j + 1;
            kf = kf + 1;
            if kf == n {
                kf = 0;
                proof {
                    assert((df + 1) * n == df * n + n) by (nonlinear_arith);
                    df = df + 1;
                }
            }
        }
        assert(all.subrange(0, j as int) =~= all);
        self.doc_infos_pos = p1 + 4;
        (enum_vals, vals)
    }

    /// Reads the next document field length.
    pub fn read_docinfo_field_length(&mut self) -> (len: u32)
        requires
            old(self).spec_doc_infos_pos() <= old(self).spec_buf().len(),
            var_int_at(old(self).spec_buf(), old(self).spec_doc_infos_pos() as int) matches Some((v, l))
                && v <= u32::MAX && l <= 5,
        ensures
            var_int_at(old(self).spec_buf(), old(self).spec_doc_infos_pos() as int) == Some((
                len as nat,
                (final(self).spec_doc_infos_pos() - old(self).spec_doc_infos_pos()) as nat,
            )),
            old(self).spec_doc_infos_pos() < final(self).spec_doc_infos_pos(),
            final(self).spec_buf() == old(self).spec_buf(),
            final(self).spec_dict_table_offset() == old(self).spec_dict_table_offset(),
            final(self).spec_invalidation_vec_offset() == old(self).spec_invalidation_vec_offset(),
            final(self).spec_doc_infos_offset() == old(self).spec_doc_infos_offset(),
    {
        decode_var_int(self.buf.as_slice(), &mut self.doc_infos_pos)
    }
}

} // verus!
