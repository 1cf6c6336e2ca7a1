//! Document information of an index: the blocks of document lengths, and
//! the encoding of the documents' field lengths, enum values and numbers.

use vstd::prelude::*;
use bitvec::view::BitView;
use crate::miner::WorkerMinerDocInfo;
use crate::metadata::{MetadataReader, read_docinfo, lengths_readable, lengths_at, lemma_lengths_at_len};
use crate::query_parser::strings_model;
use crate::varint::{encode_var_int, get_var_int_vec, get_var_int_vec_u64, var_int_at};

verus! {

/// The document information of one block, in ascending document id order;
/// blocks are ordered by their first document.
pub struct BlockDocLengths(pub Vec<WorkerMinerDocInfo>);

impl BlockDocLengths {
    /// The order of two blocks: that of their first documents' ids.
    pub fn first_doc_cmp(&self, other: &Self) -> (res: std::cmp::Ordering)
        requires
            self.0@.len() > 0,
            other.0@.len() > 0,
        ensures
            res == std::cmp::Ordering::Less <==> self.0@[0].doc_id < other.0@[0].doc_id,
            res == std::cmp::Ordering::Equal <==> self.0@[0].doc_id == other.0@[0].doc_id,
            res == std::cmp::Ordering::Greater <==> self.0@[0].doc_id > other.0@[0].doc_id,
    {
        let a = self.0[0].doc_id;
        let b = other.0[0].doc_id;
        if a < b {
            std::cmp::Ordering::Less
        } else if a == b {
            std::cmp::Ordering::Equal
        } else {
            std::cmp::Ordering::Greater
        }
    }
}

/// The id of a block's first document.
pub open spec fn first_doc(b: BlockDocLengths) -> u32 {
    b.0@[0].doc_id
}

/// Every block holds a document.
pub open spec fn blocks_nonempty(bs: Seq<BlockDocLengths>) -> bool {
    forall|i: int| 0 <= i < bs.len() ==> (#[trigger] bs[i]).0@.len() > 0
}

/// The blocks are in ascending order of their first documents.
pub open spec fn blocks_by_first_doc(bs: Seq<BlockDocLengths>) -> bool {
    forall|i: int, j: int|
        0 <= i <= j < bs.len() ==> first_doc(#[trigger] bs[i]) <= first_doc(#[trigger] bs[j])
}

/// The blocks' document information, one block after the other.
pub open spec fn concat_blocks(bs: Seq<BlockDocLengths>) -> Seq<WorkerMinerDocInfo>
    decreases bs.len(),
{
    if bs.len() == 0 {
        Seq::empty()
    } else {
        concat_blocks(bs.drop_last()) + bs.last().0@
    }
}

/// Sorts blocks by their first documents, keeping exactly the blocks.
fn sort_blocks(blocks: Vec<BlockDocLengths>) -> (res: Vec<BlockDocLengths>)
    requires
        blocks_nonempty(blocks@),
    ensures
        blocks_nonempty(res@),
        blocks_by_first_doc(res@),
        res@.to_multiset() == blocks@.to_multiset(),
{
    let ghost orig = blocks@;
    let mut rest = blocks;
    let mut out: Vec<BlockDocLengths> = Vec::new();
    let ghost mut done: Seq<BlockDocLengths> = Seq::empty();
    while rest.len() > 0
        invariant
            orig == done + rest@,
            blocks_nonempty(orig),
            blocks_nonempty(out@),
            blocks_by_first_doc(out@),
            out@.to_multiset() == done.to_multiset(),
        decreases rest@.len(),
    {
        let ghost before = rest@;
        let e = rest.remove(0);
        proof {
            assert(before =~= seq![e] + rest@);
            assert(orig =~= done.push(e) + rest@);
            assert(orig[done.len() as int] == e);
            vstd::seq_lib::to_multiset_build(done, e);
            done = done.push(e);
        }
        let key = e.0[0].doc_id;
        let mut p: usize = 0;
        while p < out.len() && out[p].0[0].doc_id <= key
            invariant
                p <= out@.len(),
                blocks_nonempty(out@),
                e.0@.len() > 0,
                key == first_doc(e),
                forall|x: int| 0 <= x < p ==> first_doc(#[trigger] out@[x]) <= key,
            decreases out@.len() - p,
        {
            p = p + 1;
        }
        let ghost ob = out@;
        out.insert(p, e);
        proof {
            assert(out@ =~= ob.insert(p as int, e));
            assert forall|i: int, j: int| 0 <= i <= j < out@.len() implies first_doc(
                #[trigger] out@[i],
            ) <= first_doc(#[trigger] out@[j]) by {
                if i < p && j > p {
                    assert(out@[j] == ob[j - 1]);
                } else if i == p && j > p {
                    assert(out@[j] == ob[j - 1]);
                    assert(first_doc(ob[p as int]) > key);
                } else if i > p {
                    assert(out@[i] == ob[i - 1] && out@[j] == ob[j - 1]);
                } else if i < p && j < p {
                    assert(out@[i] == ob[i] && out@[j] == ob[j]);
                }
            }
            assert forall|i: int| 0 <= i < out@.len() implies (#[trigger] out@[i]).0@.len() > 0 by {
                if i < p {
                    assert(out@[i] == ob[i]);
                } else if i > p {
                    assert(out@[i] == ob[i - 1]);
                }
            }
            vstd::seq_lib::to_multiset_insert(ob, p as int, e);
        }
    }
    assert(done =~= orig);
    out
}

/// Orders the blocks of document information by their first documents and
/// appends their documents, block after block, to `doc_infos`, leaving no
/// block behind.
pub fn sort_and_merge_block_doclengths(
    doc_infos: &mut Vec<WorkerMinerDocInfo>,
    all_block_doc_lengths: &mut Vec<BlockDocLengths>,
)
    requires
        blocks_nonempty(old(all_block_doc_lengths)@),
    ensures
        final(all_block_doc_lengths)@.len() == 0,
        exists|sorted: Seq<BlockDocLengths>|
            {
                &&& blocks_by_first_doc(sorted)
                &&& sorted.to_multiset() == old(all_block_doc_lengths)@.to_multiset()
                &&& final(doc_infos)@ == old(doc_infos)@ + concat_blocks(sorted)
            },
{
    let mut taken: Vec<BlockDocLengths> = Vec::new();
    std::mem::swap(&mut taken, all_block_doc_lengths);
    let mut sorted = sort_blocks(taken);
    let ghost all_sorted = sorted@;
    let ghost start = doc_infos@;
    let ghost mut done: Seq<BlockDocLengths> = Seq::empty();
    while sorted.len() > 0
        invariant
            all_sorted == done + sorted@,
            doc_infos@ == start + concat_blocks(done),
        decreases sorted@.len(),
    {
        let ghost before = sorted@;
        let mut block = sorted.remove(0);
        proof {
            assert(before =~= seq![block] + sorted@);
            assert(all_sorted =~= done.push(block) + sorted@);
            assert(done.push(block).drop_last() =~= done);
            done = done.push(block);
        }
        doc_infos.append(&mut block.0);
    }
    assert(done =~= all_sorted);
}

/// The little-endian bytes of `x`.
pub open spec fn le_u32(x: u32) -> Seq<u8> {
    seq![x as u8, (x >> 8u32) as u8, (x >> 16u32) as u8, (x >> 24u32) as u8]
}

/// The little-endian bytes of `x` in two's complement.
pub open spec fn le_i64(x: i64) -> Seq<u8> {
    let u = x as u64;
    seq![
        u as u8,
        (u >> 8u64) as u8,
        (u >> 16u64) as u8,
        (u >> 24u64) as u8,
        (u >> 32u64) as u8,
        (u >> 40u64) as u8,
        (u >> 48u64) as u8,
        (u >> 56u64) as u8,
    ]
}

fn push_le_u32(out: &mut Vec<u8>, x: u32)
    ensures
        final(out)@ == old(out)@ + le_u32(x),
{
    out.push(x as u8);
    out.push((x >> 8u32) as u8);
    out.push((x >> 16u32) as u8);
    out.push((x >> 24u32) as u8);
    assert(final(out)@ =~= old(out)@ + le_u32(x));
}

fn push_le_i64(out: &mut Vec<u8>, x: i64)
    ensures
        final(out)@ == old(out)@ + le_i64(x),
{
    let u = x as u64;
    out.push(u as u8);
    out.push((u >> 8u64) as u8);
    out.push((u >> 16u64) as u8);
    out.push((u >> 24u64) as u8);
    out.push((u >> 32u64) as u8);
    out.push((u >> 40u64) as u8);
    out.push((u >> 48u64) as u8);
    out.push((u >> 56u64) as u8);
    assert(final(out)@ =~= old(out)@ + le_i64(x));
}

/// The smaller of two numbers.
pub open spec fn min_i64(a: i64, b: i64) -> i64 {
    if a <= b {
        a
    } else {
        b
    }
}

/// The smallest of the earlier documents' values of number field `k`, the
/// values standing `n` to a document; the largest `i64` when there is none.
pub open spec fn old_minimum(vals: Seq<i64>, n: nat, k: int) -> i64
    decreases vals.len(),
{
    if vals.len() == 0 {
        i64::MAX
    } else if (vals.len() - 1) % (n as int) == k {
        min_i64(old_minimum(vals.drop_last(), n, k), vals.last())
    } else {
        old_minimum(vals.drop_last(), n, k)
    }
}

/// The value of number field `k` of a document: its own, or the field's
/// default.
pub open spec fn num_or_default(info: WorkerMinerDocInfo, defaults: Seq<i64>, k: int) -> i64 {
    match info.doc_nums@[k] {
        Some(v) => v,
        None => defaults[k],
    }
}

/// The smallest value of number field `k` among the new documents that
/// have that field.
pub open spec fn new_minimum(docs: Seq<WorkerMinerDocInfo>, defaults: Seq<i64>, k: int) -> i64
    decreases docs.len(),
{
    if docs.len() == 0 {
        i64::MAX
    } else if k < docs.last().doc_nums@.len() {
        min_i64(new_minimum(docs.drop_last(), defaults, k), num_or_default(docs.last(), defaults, k))
    } else {
        new_minimum(docs.drop_last(), defaults, k)
    }
}

/// The smallest value of number field `k` over all documents.
pub open spec fn field_minimum(vals: Seq<i64>, docs: Seq<WorkerMinerDocInfo>, defaults: Seq<i64>, k: int) -> i64 {
    if defaults.len() > 0 {
        min_i64(old_minimum(vals, defaults.len(), k), new_minimum(docs, defaults, k))
    } else {
        new_minimum(docs, defaults, k)
    }
}

/// The minimums of the number fields, each in eight bytes.
pub open spec fn minimums_bytes(mins: Seq<i64>) -> Seq<u8>
    decreases mins.len(),
{
    if mins.len() == 0 {
        Seq::empty()
    } else {
        minimums_bytes(mins.drop_last()) + le_i64(mins.last())
    }
}

/// The earlier documents' values, each as its distance to its field's
/// minimum.
pub open spec fn old_deltas(vals: Seq<i64>, mins: Seq<i64>) -> Seq<u8>
    decreases vals.len(),
{
    if vals.len() == 0 || mins.len() == 0 {
        Seq::empty()
    } else {
        let k = (vals.len() - 1) % (mins.len() as int);
        old_deltas(vals.drop_last(), mins) + encode_var_int((vals.last() - mins[k]) as nat)
    }
}

/// One document's values, each as its distance to its field's minimum.
pub open spec fn doc_deltas(info: WorkerMinerDocInfo, defaults: Seq<i64>, mins: Seq<i64>, upto: int) -> Seq<u8>
    decreases upto,
{
    if upto <= 0 {
        Seq::empty()
    } else {
        doc_deltas(info, defaults, mins, upto - 1) + encode_var_int(
            (num_or_default(info, defaults, upto - 1) - mins[upto - 1]) as nat,
        )
    }
}

/// The new documents' values, each as its distance to its field's minimum.
pub open spec fn new_deltas(docs: Seq<WorkerMinerDocInfo>, defaults: Seq<i64>, mins: Seq<i64>) -> Seq<u8>
    decreases docs.len(),
{
    if docs.len() == 0 {
        Seq::empty()
    } else {
        new_deltas(docs.drop_last(), defaults, mins) + doc_deltas(
            docs.last(),
            defaults,
            mins,
            docs.last().doc_nums@.len() as int,
        )
    }
}

/// The number section of the document information: the number of number
/// fields, each field's minimum, then every value as a distance to its
/// field's minimum, the earlier documents' first.
pub open spec fn spec_nums_section(vals: Seq<i64>, docs: Seq<WorkerMinerDocInfo>, defaults: Seq<i64>) -> Seq<u8> {
    let mins = Seq::new(defaults.len(), |k: int| field_minimum(vals, docs, defaults, k));
    le_u32(defaults.len() as u32) + minimums_bytes(mins) + old_deltas(vals, mins) + new_deltas(docs, defaults, mins)
}

pub(crate) proof fn lemma_old_minimum_le(vals: Seq<i64>, n: nat, i: int)
    requires
        n > 0,
        0 <= i < vals.len(),
    ensures
        old_minimum(vals, n, i % (n as int)) <= vals[i],
    decreases vals.len(),
{
    if i < vals.len() - 1 {
        lemma_old_minimum_le(vals.drop_last(), n, i);
    }
}

pub(crate) proof fn lemma_new_minimum_le(docs: Seq<WorkerMinerDocInfo>, defaults: Seq<i64>, j: int, k: int)
    requires
        0 <= j < docs.len(),
        0 <= k < docs[j].doc_nums@.len(),
    ensures
        new_minimum(docs, defaults, k) <= num_or_default(docs[j], defaults, k),
    decreases docs.len(),
{
    if j < docs.len() - 1 {
        lemma_new_minimum_le(docs.drop_last(), defaults, j, k);
    }
}

/// The minimum of each number field over the earlier documents' values and
/// the new documents.
fn field_minimums(vals: &Vec<i64>, docs: &Vec<WorkerMinerDocInfo>, defaults: &Vec<i64>) -> (mins: Vec<i64>)
    requires
        forall|j: int| 0 <= j < docs@.len() ==> (#[trigger] docs@[j]).doc_nums@.len() <= defaults@.len(),
    ensures
        mins@ == Seq::new(defaults@.len(), |k: int| field_minimum(vals@, docs@, defaults@, k)),
{
    let n = defaults.len();
    let mut mins: Vec<i64> = Vec::new();
    let mut k: usize = 0;
    while k < n
        invariant
            k <= n == defaults@.len(),
            mins@ == Seq::new(k as nat, |x: int| i64::MAX),
        decreases n - k,
    {
        mins.push(i64::MAX);
        k = k + 1;
        assert(mins@ =~= Seq::new(k as nat, |x: int| i64::MAX));
    }
    if n > 0 {
        let mut i: usize = 0;
        assert(vals@.subrange(0, 0) =~= Seq::<i64>::empty());
        while i < vals.len()
            invariant
                0 < n == defaults@.len(),
                i <= vals@.len(),
                mins@.len() == n,
                forall|x: int| 0 <= x < n ==> #[trigger] mins@[x] == old_minimum(vals@.subrange(0, i as int), n as nat, x),
            decreases vals@.len() - i,
        {
            let x = i % n;
            let v = vals[i];
            if v < mins[x] {
                mins.set(x, v);
            }
            let ghost sub = vals@.subrange(0, i + 1);
            assert(sub.drop_last() =~= vals@.subrange(0, i as int));
            i = i + 1;
        }
        assert(vals@.subrange(0, i as int) =~= vals@);
    }
    let mut j: usize = 0;
    assert(docs@.subrange(0, 0) =~= Seq::<WorkerMinerDocInfo>::empty());
    while j < docs.len()
        invariant
            n == defaults@.len(),
            j <= docs@.len(),
            mins@.len() == n,
            forall|d: int| 0 <= d < docs@.len() ==> (#[trigger] docs@[d]).doc_nums@.len() <= n,
            forall|x: int|
                0 <= x < n ==> #[trigger] mins@[x] == min_i64(
                    if n > 0 { old_minimum(vals@, n as nat, x) } else { i64::MAX },
                    new_minimum(docs@.subrange(0, j as int), defaults@, x),
                ),
        decreases docs@.len() - j,
    {
        let ghost sub = docs@.subrange(0, j + 1);
        assert(sub.drop_last() =~= docs@.subrange(0, j as int));
        assert(sub.last() == docs@[j as int]);
        let len = docs[j].doc_nums.len();
        let mut x: usize = 0;
        while x < len
            invariant
                n == defaults@.len(),
                j < docs@.len(),
                x <= len <= n,
                mins@.len() == n,
                docs@[j as int].doc_nums@.len() == len,
                sub.last() == docs@[j as int],
                sub == docs@.subrange(0, j + 1),
                sub.drop_last() == docs@.subrange(0, j as int),
                forall|y: int|
                    0 <= y < n ==> #[trigger] mins@[y] == min_i64(
                        if n > 0 { old_minimum(vals@, n as nat, y) } else { i64::MAX },
                        if y < x { new_minimum(sub, defaults@, y) } else { new_minimum(sub.drop_last(), defaults@, y) },
                    ),
            decreases len - x,
        {
            let v = match docs[j].doc_nums[x] {
                Some(v) => v,
                None => defaults[x],
            };
            assert(v == num_or_default(sub.last(), defaults@, x as int));
            if v < mins[x] {
                mins.set(x, v);
            }
            x = x + 1;
        }
        j = j + 1;
    }
    assert(docs@.subrange(0, j as int) =~= docs@);
    assert(mins@ =~= Seq::new(defaults@.len(), |k: int| field_minimum(vals@, docs@, defaults@, k)));
    mins
}

/// Writes the number section of the document information: the number of
/// number fields, each field's minimum, then every value as a distance to its
/// field's minimum, the earlier documents' values first; `defaults` holds
/// each number field's default.
pub fn write_nums(
    docs_i64_values: &Vec<i64>,
    doc_infos: &Vec<WorkerMinerDocInfo>,
    defaults: &Vec<i64>,
    doc_info_writer: &mut Vec<u8>,
)
    requires
        forall|j: int| 0 <= j < doc_infos@.len() ==> (#[trigger] doc_infos@[j]).doc_nums@.len() <= defaults@.len(),
    ensures
        final(doc_info_writer)@ == old(doc_info_writer)@ + spec_nums_section(docs_i64_values@, doc_infos@, defaults@),
{
    let n = defaults.len();
    let mins = field_minimums(docs_i64_values, doc_infos, defaults);
    let ghost ms = mins@;
    let ghost w0 = doc_info_writer@;
    push_le_u32(doc_info_writer, n as u32);
    let mut k: usize = 0;
    assert(ms.subrange(0, 0) =~= Seq::<i64>::empty());
    while k < n
        invariant
            k <= n == ms.len(),
            mins@ == ms,
            doc_info_writer@ == w0 + le_u32(n as u32) + minimums_bytes(ms.subrange(0, k as int)),
        decreases n - k,
    {
        push_le_i64(doc_info_writer, mins[k]);
        assert(ms.subrange(0, k + 1).drop_last() =~= ms.subrange(0, k as int));
        k = k + 1;
    }
    assert(ms.subrange(0, k as int) =~= ms);
    let ghost w1 = doc_info_writer@;
    let vals = docs_i64_values;
    if n > 0 {
        let mut i: usize = 0;
        assert(vals@.subrange(0, 0) =~= Seq::<i64>::empty());
        while i < vals.len()
            invariant
                0 < n == ms.len() == defaults@.len(),
                i <= vals@.len(),
                mins@ == ms,
                ms == Seq::new(defaults@.len(), |k: int| field_minimum(vals@, doc_infos@, defaults@, k)),
                doc_info_writer@ == w1 + old_deltas(vals@.subrange(0, i as int), ms),
            decreases vals@.len() - i,
        {
            let x = i % n;
            proof {
                lemma_old_minimum_le(vals@, n as nat, i as int);
            }
            let delta = ((vals[i] as i128) - (mins[x] as i128)) as u64;
            get_var_int_vec_u64(delta, doc_info_writer);
            let ghost sub = vals@.subrange(0, i + 1);
            assert(sub.drop_last() =~= vals@.subrange(0, i as int));
            i = i + 1;
        }
        assert(vals@.subrange(0, i as int) =~= vals@);
    } else {
        assert(old_deltas(vals@, ms) =~= Seq::<u8>::empty());
    }
    let ghost w2 = doc_info_writer@;
    let mut j: usize = 0;
    assert(doc_infos@.subrange(0, 0) =~= Seq::<WorkerMinerDocInfo>::empty());
    while j < doc_infos.len()
        invariant
            n == ms.len() == defaults@.len(),
            j <= doc_infos@.len(),
            mins@ == ms,
            ms == Seq::new(defaults@.len(), |k: int| field_minimum(vals@, doc_infos@, defaults@, k)),
            forall|d: int| 0 <= d < doc_infos@.len() ==> (#[trigger] doc_infos@[d]).doc_nums@.len() <= n,
            doc_info_writer@ == w2 + new_deltas(doc_infos@.subrange(0, j as int), defaults@, ms),
        decreases doc_infos@.len() - j,
    {
        let ghost sub = doc_infos@.subrange(0, j + 1);
        assert(sub.drop_last() =~= doc_infos@.subrange(0, j as int));
        let ghost w3 = doc_info_writer@;
        let len = doc_infos[j].doc_nums.len();
        let mut x: usize = 0;
        while x < len
            invariant
                n == ms.len() == defaults@.len(),
                j < doc_infos@.len(),
                x <= len <= n,
                mins@ == ms,
                ms == Seq::new(defaults@.len(), |k: int| field_minimum(vals@, doc_infos@, defaults@, k)),
                doc_infos@[j as int].doc_nums@.len() == len,
                doc_info_writer@ == w3 + doc_deltas(doc_infos@[j as int], defaults@, ms, x as int),
            decreases len - x,
        {
            let v = match doc_infos[j].doc_nums[x] {
                Some(v) => v,
                None => defaults[x],
            };
            proof {
                lemma_new_minimum_le(doc_infos@, defaults@, j as int, x as int);
            }
            let delta = ((v as i128) - (mins[x] as i128)) as u64;
            get_var_int_vec_u64(delta, doc_info_writer);
            x = x + 1;
        }
        j = j + 1;
    }
    assert(doc_infos@.subrange(0, j as int) =~= doc_infos@);
}

/// Two to the power `k`.
pub open spec fn pow2(k: nat) -> nat
    decreases k,
{
    if k == 0 {
        1
    } else {
        2 * pow2((k - 1) as nat)
    }
}

/// Bit `k` of `v`, counted from the least significant.
pub open spec fn bit_at(v: nat, k: nat) -> bool {
    (v / pow2(k)) % 2 == 1
}

/// The `nb` lowest bits of `v`, most significant first.
pub open spec fn low_bits(v: nat, nb: nat) -> Seq<bool> {
    Seq::new(nb, |i: int| bit_at(v, (nb - 1 - i) as nat))
}

/// Bit `i` of `bytes`, each byte's bits most significant first.
pub open spec fn byte_bit(bytes: Seq<u8>, i: int) -> bool {
    bit_at(bytes[i / 8] as nat, (7 - i % 8) as nat)
}

/// A bit vector packing bytes' bits most significant first
/// (`bitvec::vec::BitVec<u8, Msb0>`).
#[verifier::external_body]
pub struct BitPacking {
    bits: bitvec::vec::BitVec<u8, bitvec::order::Msb0>,
}

/// The bits a packing holds, in order.
pub uninterp spec fn packed_bits(packing: BitPacking) -> Seq<bool>;

/// The most bits a packing of bytes can hold.
pub open spec fn max_packed_bits() -> nat {
    (usize::MAX / 8) as nat
}

/// `bitvec::vec::BitVec::new`: an empty bit vector.
#[verifier::external_body]
pub(crate) fn new_packing() -> (res: BitPacking)
    ensures
        packed_bits(res) == Seq::<bool>::empty(),
{
    BitPacking { bits: bitvec::vec::BitVec::new() }
}

/// `bitvec::vec::BitVec::extend_from_bitslice` with the bits of `v` from
/// `bit_start` on, most significant first (`BitView::view_bits::<Msb0>`):
/// appends the `32 - bit_start` lowest bits of `v`.
#[verifier::external_body]
pub(crate) fn push_low_bits(packing: &mut BitPacking, v: u32, bit_start: usize)
    requires
        bit_start <= 32,
        packed_bits(*old(packing)).len() + (32 - bit_start) <= max_packed_bits(),
    ensures
        packed_bits(*final(packing)) == packed_bits(*old(packing)) + low_bits(v as nat, (32 - bit_start) as nat),
{
    packing.bits.extend_from_bitslice(&v.view_bits::<bitvec::order::Msb0>()[bit_start..])
}

/// `bitvec::vec::BitVec::as_raw_slice`: the bytes holding the bits, each
/// byte's bits most significant first. The bits of the last byte after the
/// vector's end are left unsaid: the crate does not specify them.
#[verifier::external_body]
fn packed_bytes(packing: &BitPacking) -> (res: Vec<u8>)
    ensures
        res@.len() == (packed_bits(*packing).len() + 7) / 8,
        forall|i: int| 0 <= i < packed_bits(*packing).len() ==> byte_bit(res@, i) == #[trigger] packed_bits(*packing)[i],
{
    packing.bits.as_raw_slice().to_vec()
}

impl BitPacking {
    /// The bytes holding the packed bits, each byte's bits most significant
    /// first.
    pub fn to_bytes(&self) -> (res: Vec<u8>)
        ensures
            res@.len() == (packed_bits(*self).len() + 7) / 8,
            forall|i: int| 0 <= i < packed_bits(*self).len() ==> byte_bit(res@, i) == #[trigger] packed_bits(*self)[i],
    {
        packed_bytes(self)
    }
}

/// Where `v` first stands in `list`.
pub open spec fn first_index(list: Seq<Seq<char>>, v: Seq<char>) -> Option<int> {
    if exists|i: int| 0 <= i < list.len() && list[i] == v {
        Some(choose|i: int| 0 <= i < list.len() && list[i] == v && forall|k: int| 0 <= k < i ==> list[k] != v)
    } else {
        None
    }
}

/// The id of enum value `v`: its place in the values, from 1; 0 for a value
/// that has none.
pub open spec fn ev_id(list: Seq<Seq<char>>, v: Seq<char>) -> nat {
    match first_index(list, v) {
        Some(i) => (i + 1) as nat,
        None => 0,
    }
}

/// The values of an enum after the documents' values `vals`: a value that is
/// not empty and not known yet is added, while fewer than 255 are known.
pub open spec fn assign_values(list: Seq<Seq<char>>, vals: Seq<Seq<char>>) -> Seq<Seq<char>>
    decreases vals.len(),
{
    if vals.len() == 0 {
        list
    } else {
        let l = assign_values(list, vals.drop_last());
        let v = vals.last();
        if v.len() == 0 || first_index(l, v) is Some || l.len() >= 255 {
            l
        } else {
            l.push(v)
        }
    }
}

/// The values of enum `e` in the documents that hold one, in order.
pub open spec fn enum_column(docs: Seq<WorkerMinerDocInfo>, e: int) -> Seq<Seq<char>>
    decreases docs.len(),
{
    if docs.len() == 0 {
        Seq::empty()
    } else if 0 <= e < docs.last().doc_enums@.len() {
        enum_column(docs.drop_last(), e).push(docs.last().doc_enums@[e]@)
    } else {
        enum_column(docs.drop_last(), e)
    }
}

/// The values of each enum once the documents' values are added.
pub open spec fn final_enum_values(existing: Seq<Seq<Seq<char>>>, docs: Seq<WorkerMinerDocInfo>) -> Seq<
    Seq<Seq<char>>,
> {
    Seq::new(existing.len(), |e: int| assign_values(existing[e], enum_column(docs, e)))
}

/// How many bits the enum value ids up to `last` take: at least one.
pub open spec fn bits_for(last: nat) -> nat {
    if last < 2 {
        1
    } else if last < 4 {
        2
    } else if last < 8 {
        3
    } else if last < 16 {
        4
    } else if last < 32 {
        5
    } else if last < 64 {
        6
    } else if last < 128 {
        7
    } else {
        8
    }
}

/// The bits of one earlier document's enum value ids.
pub open spec fn prev_row_bits(vals: Seq<u8>, widths: Seq<nat>, doc: int, upto: int) -> Seq<bool>
    decreases upto,
{
    if upto <= 0 {
        Seq::empty()
    } else {
        prev_row_bits(vals, widths, doc, upto - 1) + low_bits(
            vals[widths.len() * doc + upto - 1] as nat,
            widths[upto - 1],
        )
    }
}

/// The bits of the earlier documents' enum value ids.
pub open spec fn prev_bits(vals: Seq<u8>, widths: Seq<nat>, count: int) -> Seq<bool>
    decreases count,
{
    if count <= 0 {
        Seq::empty()
    } else {
        prev_bits(vals, widths, count - 1) + prev_row_bits(vals, widths, count - 1, widths.len() as int)
    }
}

/// The bits of one new document's enum value ids.
pub open spec fn doc_row_bits(doc: WorkerMinerDocInfo, lists: Seq<Seq<Seq<char>>>, widths: Seq<nat>, upto: int) -> Seq<
    bool,
>
    decreases upto,
{
    if upto <= 0 {
        Seq::empty()
    } else {
        doc_row_bits(doc, lists, widths, upto - 1) + low_bits(
            (ev_id(lists[upto - 1], doc.doc_enums@[upto - 1]@) as u8) as nat,
            widths[upto - 1],
        )
    }
}

/// The bits of the new documents' enum value ids.
pub open spec fn docs_bits(docs: Seq<WorkerMinerDocInfo>, lists: Seq<Seq<Seq<char>>>, widths: Seq<nat>) -> Seq<bool>
    decreases docs.len(),
{
    if docs.len() == 0 {
        Seq::empty()
    } else {
        docs_bits(docs.drop_last(), lists, widths) + doc_row_bits(
            docs.last(),
            lists,
            widths,
            docs.last().doc_enums@.len() as int,
        )
    }
}

/// The widths as bytes.
pub open spec fn width_bytes(widths: Seq<nat>) -> Seq<u8> {
    Seq::new(widths.len(), |e: int| widths[e] as u8)
}

/// The values of each enum.
pub open spec fn lists_model(v: Seq<Vec<String>>) -> Seq<Seq<Seq<char>>> {
    v.map_values(|l: Vec<String>| strings_model(l@))
}

/// The widths of the enums' value ids.
pub open spec fn enum_widths(lists: Seq<Seq<Seq<char>>>) -> Seq<nat> {
    Seq::new(lists.len(), |e: int| bits_for(lists[e].len()))
}

/// Where `v` first stands in `list`.
fn position_of(list: &Vec<String>, v: &String) -> (res: Option<usize>)
    ensures
        match res {
            Some(i) => first_index(strings_model(list@), v@) == Some(i as int) && i < list@.len(),
            None => first_index(strings_model(list@), v@) is None,
        },
{
    let ghost m = strings_model(list@);
    let mut i: usize = 0;
    while i < list.len()
        invariant
            i <= list@.len(),
            m == strings_model(list@),
            forall|k: int| 0 <= k < i ==> m[k] != v@,
        decreases list@.len() - i,
    {
        if list[i] == *v {
            assert(m[i as int] == v@);
            assert(first_index(m, v@) == Some(i as int)) by {
                let c = choose|c: int| 0 <= c < m.len() && m[c] == v@ && forall|k: int| 0 <= k < c ==> m[k] != v@;
                if c > i {
                    assert(m[i as int] != v@);
                }
            }
            return Some(i);
        }
        i = i + 1;
    }
    None
}

/// A copy of the strings.
fn copy_strings(v: &Vec<String>) -> (res: Vec<String>)
    ensures
        strings_model(res@) == strings_model(v@),
{
    let mut res: Vec<String> = Vec::new();
    let mut i: usize = 0;
    while i < v.len()
        invariant
            i <= v@.len(),
            strings_model(res@) == strings_model(v@.subrange(0, i as int)),
        decreases v@.len() - i,
    {
        let c = v[i].clone();
        let ghost prev = res@;
        res.push(c);
        assert(strings_model(res@) =~= strings_model(prev).push(v@[i as int]@));
        assert(v@.subrange(0, i + 1) =~= v@.subrange(0, i as int).push(v@[i as int]));
        i = i + 1;
    }
    assert(v@.subrange(0, i as int) =~= v@);
    res
}

/// Adds the documents' enum values to the known ones. Each enum's values
/// stand in a `Vec` in id order, in place of a hash map from value to id:
/// a value's id is its place in the vector plus one, found by a scan.
fn assign_enum_values(lists: &mut Vec<Vec<String>>, docs: &Vec<WorkerMinerDocInfo>)
    requires
        forall|j: int| 0 <= j < docs@.len() ==> (#[trigger] docs@[j]).doc_enums@.len() <= old(lists)@.len(),
    ensures
        final(lists)@.len() == old(lists)@.len(),
        lists_model(final(lists)@) == final_enum_values(lists_model(old(lists)@), docs@),
{
    let ghost l0 = lists_model(lists@);
    let n = lists.len();
    let mut j: usize = 0;
    assert forall|e: int| 0 <= e < n implies #[trigger] lists_model(lists@)[e] == assign_values(
        l0[e],
        enum_column(docs@.subrange(0, 0), e),
    ) by {
        assert(enum_column(docs@.subrange(0, 0), e) =~= Seq::<Seq<char>>::empty());
    }
    while j < docs.len()
        invariant
            j <= docs@.len(),
            n == lists@.len() == l0.len(),
            forall|d: int| 0 <= d < docs@.len() ==> (#[trigger] docs@[d]).doc_enums@.len() <= n,
            forall|e: int|
                0 <= e < n ==> #[trigger] lists_model(lists@)[e] == assign_values(
                    l0[e],
                    enum_column(docs@.subrange(0, j as int), e),
                ),
        decreases docs@.len() - j,
    {
        let ghost upto = docs@.subrange(0, j + 1);
        let ghost prev = docs@.subrange(0, j as int);
        let m = docs[j].doc_enums.len();
        assert(upto.drop_last() =~= prev);
        assert(upto.last() == docs@[j as int]);
        assert forall|e: int| 0 <= e < n implies #[trigger] enum_column(upto, e) == (if e < m {
            enum_column(prev, e).push(docs@[j as int].doc_enums@[e]@)
        } else {
            enum_column(prev, e)
        }) by {}
        let mut e: usize = 0;
        while e < m
            invariant
                j < docs@.len(),
                e <= m <= n,
                m == docs@[j as int].doc_enums@.len(),
                n == lists@.len() == l0.len(),
                upto == docs@.subrange(0, j + 1),
                prev == docs@.subrange(0, j as int),
                forall|x: int|
                    0 <= x < n ==> #[trigger] enum_column(upto, x) == (if x < m {
                        enum_column(prev, x).push(docs@[j as int].doc_enums@[x]@)
                    } else {
                        enum_column(prev, x)
                    }),
                forall|x: int|
                    0 <= x < n ==> #[trigger] lists_model(lists@)[x] == assign_values(
                        l0[x],
                        if x < e { enum_column(upto, x) } else { enum_column(prev, x) },
                    ),
            decreases m - e,
        {
            let v = &docs[j].doc_enums[e];
            let ghost before = lists_model(lists@);
            let ghost col = enum_column(prev, e as int);
            assert(col.push(v@).drop_last() =~= col);
            assert(enum_column(upto, e as int) == col.push(v@));
            if !v.as_str().is_empty() && lists[e].len() < 255 {
                match position_of(&lists[e], v) {
                    Some(_) => {},
                    None => {
                        let ghost le = lists@[e as int];
                        lists[e].push(v.clone());
                        assert(strings_model(lists@[e as int]@) =~= strings_model(le@).push(v@));
                        assert(lists_model(lists@) =~= before.update(e as int, before[e as int].push(v@)));
                    },
                }
            }
            e = e + 1;
        }
        assert forall|x: int| 0 <= x < n implies #[trigger] lists_model(lists@)[x] == assign_values(
            l0[x],
            enum_column(docs@.subrange(0, j + 1), x),
        ) by {
            if x >= m {
                assert(enum_column(upto, x) == enum_column(prev, x));
            }
        }
        j = j + 1;
    }
    assert(docs@.subrange(0, j as int) =~= docs@);
    assert(lists_model(lists@) =~= final_enum_values(l0, docs@));
}

proof fn lemma_assign_len(list: Seq<Seq<char>>, vals: Seq<Seq<char>>)
    requires
        list.len() <= 255,
    ensures
        assign_values(list, vals).len() <= 255,
    decreases vals.len(),
{
    if vals.len() > 0 {
        lemma_assign_len(list, vals.drop_last());
    }
}

/// The width in bits of the value ids up to `last`.
fn width_of(last: usize) -> (res: u8)
    ensures
        res as nat == bits_for(last as nat),
{
    if last < 2 {
        1
    } else if last < 4 {
        2
    } else if last < 8 {
        3
    } else if last < 16 {
        4
    } else if last < 32 {
        5
    } else if last < 64 {
        6
    } else if last < 128 {
        7
    } else {
        8
    }
}

/// Packs the earlier documents' enum value ids.
fn pack_prev(packing: &mut BitPacking, vals: &Vec<u8>, widths: &Vec<u8>, count: usize, total: usize)
    requires
        widths@.len() * count <= vals@.len(),
        forall|e: int| 0 <= e < widths@.len() ==> 1 <= #[trigger] widths@[e] <= 8,
        packed_bits(*old(packing)).len() == 0,
        widths@.len() * count <= total,
        8 * total + 8 <= max_packed_bits(),
    ensures
        packed_bits(*final(packing)) == prev_bits(vals@, widths@.map_values(|w: u8| w as nat), count as int),
        packed_bits(*final(packing)).len() <= 8 * (widths@.len() * count),
{
    let n = widths.len();
    let ghost ws = widths@.map_values(|w: u8| w as nat);
    let mut d: usize = 0;
    while d < count
        invariant
            d <= count,
            n == widths@.len() == ws.len(),
            ws == widths@.map_values(|w: u8| w as nat),
            n * count <= vals@.len(),
            n * count <= total,
            8 * total + 8 <= max_packed_bits(),
            forall|e: int| 0 <= e < n ==> 1 <= #[trigger] widths@[e] <= 8,
            packed_bits(*packing) == prev_bits(vals@, ws, d as int),
            packed_bits(*packing).len() <= 8 * (n * d),
        decreases count - d,
    {
        let ghost row_start = packed_bits(*packing);
        proof {
            assert(n * d + n == n * (d + 1)) by (nonlinear_arith);
            assert(n * (d + 1) <= n * count) by (nonlinear_arith)
                requires
                    d + 1 <= count,
            ;
        }
        let mut e: usize = 0;
        while e < n
            invariant
                d < count,
                e <= n,
                n == widths@.len() == ws.len(),
                ws == widths@.map_values(|w: u8| w as nat),
                n * d + n <= n * count,
                n * count <= vals@.len(),
                n * count <= total,
                8 * total + 8 <= max_packed_bits(),
                forall|x: int| 0 <= x < n ==> 1 <= #[trigger] widths@[x] <= 8,
                packed_bits(*packing) == row_start + prev_row_bits(vals@, ws, d as int, e as int),
                row_start.len() <= 8 * (n * d),
                packed_bits(*packing).len() <= 8 * (n * d + e),
            decreases n - e,
        {
            let idx = n * d + e;
            let w = widths[e];
            let v = vals[idx];
            push_low_bits(packing, v as u32, (32 - w) as usize);
            assert(((32 - (32 - w)) as nat) == ws[e as int]);
            e = e + 1;
        }
        d = d + 1;
    }
}

/// The id of `v` among `list`: its place from 1, or 0.
fn ev_id_of(list: &Vec<String>, v: &String) -> (res: u8)
    requires
        list@.len() <= 255,
    ensures
        res as nat == ev_id(strings_model(list@), v@),
{
    match position_of(list, v) {
        Some(i) => (i + 1) as u8,
        None => 0,
    }
}

/// Packs the new documents' enum value ids.
#[verifier::rlimit(60)]
#[verifier::spinoff_prover]
fn pack_docs(
    packing: &mut BitPacking,
    docs: &Vec<WorkerMinerDocInfo>,
    lists: &Vec<Vec<String>>,
    widths: &Vec<u8>,
    total: usize,
)
    requires
        widths@.len() == lists@.len(),
        forall|j: int| 0 <= j < docs@.len() ==> (#[trigger] docs@[j]).doc_enums@.len() <= widths@.len(),
        forall|e: int| 0 <= e < widths@.len() ==> 1 <= #[trigger] widths@[e] <= 8,
        forall|e: int| 0 <= e < lists@.len() ==> (#[trigger] lists@[e])@.len() <= 255,
        packed_bits(*old(packing)).len() + 8 * (widths@.len() * docs@.len()) <= 8 * total,
        8 * total + 8 <= max_packed_bits(),
    ensures
        packed_bits(*final(packing)) == packed_bits(*old(packing)) + docs_bits(
            docs@,
            lists_model(lists@),
            widths@.map_values(|w: u8| w as nat),
        ),
{
    let n = widths.len();
    let ghost ws = widths@.map_values(|w: u8| w as nat);
    let ghost lm = lists_model(lists@);
    let ghost p0 = packed_bits(*packing);
    let mut j: usize = 0;
    assert(docs@.subrange(0, 0) =~= Seq::<WorkerMinerDocInfo>::empty());
    while j < docs.len()
        invariant
            j <= docs@.len(),
            n == widths@.len() == ws.len() == lists@.len(),
            ws == widths@.map_values(|w: u8| w as nat),
            lm == lists_model(lists@),
            forall|d: int| 0 <= d < docs@.len() ==> (#[trigger] docs@[d]).doc_enums@.len() <= n,
            forall|e: int| 0 <= e < n ==> 1 <= #[trigger] widths@[e] <= 8,
            forall|e: int| 0 <= e < n ==> (#[trigger] lists@[e])@.len() <= 255,
            p0.len() + 8 * (n * docs@.len()) <= 8 * total,
            8 * total + 8 <= max_packed_bits(),
            packed_bits(*packing) == p0 + docs_bits(docs@.subrange(0, j as int), lm, ws),
            packed_bits(*packing).len() <= p0.len() + 8 * (n * j),
        decreases docs@.len() - j,
    {
        let ghost row_start = packed_bits(*packing);
        proof {
            assert(n * j + n == n * (j + 1)) by (nonlinear_arith);
            assert(n * (j + 1) <= n * docs@.len()) by (nonlinear_arith)
                requires
                    j + 1 <= docs@.len(),
            ;
        }
        let m = docs[j].doc_enums.len();
        let mut e: usize = 0;
        while e < m
            invariant
                j < docs@.len(),
                e <= m <= n,
                m == docs@[j as int].doc_enums@.len(),
                n == widths@.len() == ws.len() == lists@.len(),
                ws == widths@.map_values(|w: u8| w as nat),
                lm == lists_model(lists@),
                forall|x: int| 0 <= x < n ==> 1 <= #[trigger] widths@[x] <= 8,
                forall|x: int| 0 <= x < n ==> (#[trigger] lists@[x])@.len() <= 255,
                p0.len() + 8 * (n * docs@.len()) <= 8 * total,
                n * j + n <= n * docs@.len(),
                8 * total + 8 <= max_packed_bits(),
                row_start.len() <= p0.len() + 8 * (n * j),
                packed_bits(*packing) == row_start + doc_row_bits(docs@[j as int], lm, ws, e as int),
                packed_bits(*packing).len() <= p0.len() + 8 * (n * j + e),
            decreases m - e,
        {
            let ev = ev_id_of(&lists[e], &docs[j].doc_enums[e]);
            assert(lm[e as int] == strings_model(lists@[e as int]@));
            let w = widths[e];
            push_low_bits(packing, ev as u32, (32 - w) as usize);
            assert(((32 - (32 - w)) as nat) == ws[e as int]);
            e = e + 1;
        }
        let ghost sub = docs@.subrange(0, j + 1);
        assert(sub.drop_last() =~= docs@.subrange(0, j as int));
        j = j + 1;
    }
    assert(docs@.subrange(0, j as int) =~= docs@);
}

/// The enum section of the document information: the number of enums, each
/// enum's width in bits, then the enum value ids packed most significant bit
/// first, the earlier documents' first.
pub open spec fn enum_bits(
    existing: Seq<Seq<Seq<char>>>,
    docs_enum_values: Seq<u8>,
    original_doc_id_counter: u32,
    docs: Seq<WorkerMinerDocInfo>,
) -> Seq<bool> {
    let lists = final_enum_values(existing, docs);
    let ws = enum_widths(lists);
    prev_bits(docs_enum_values, ws, original_doc_id_counter as int) + docs_bits(docs, lists, ws)
}

/// Writes the enum section of the document information and returns each
/// enum's values in the order of their ids: the known ones first, then the
/// new documents' values in the order they first occur, up to 255 values.
///
/// The section holds the number of enums, each enum's width in bits, and the
/// earlier documents' value ids (`docs_enum_values`, one per enum and
/// document) then the new documents', each in its enum's width, packed most
/// significant bit first.
pub fn write_enums(
    enum_values: &Vec<Vec<String>>,
    docs_enum_values: &Vec<u8>,
    original_doc_id_counter: u32,
    doc_infos: &Vec<WorkerMinerDocInfo>,
    doc_info_writer: &mut Vec<u8>,
) -> (res: Vec<Vec<String>>)
    requires
        forall|e: int| 0 <= e < enum_values@.len() ==> (#[trigger] enum_values@[e])@.len() <= 255,
        forall|j: int| 0 <= j < doc_infos@.len() ==> (#[trigger] doc_infos@[j]).doc_enums@.len() <= enum_values@.len(),
        enum_values@.len() * original_doc_id_counter <= docs_enum_values@.len(),
        8 * (enum_values@.len() * (original_doc_id_counter + doc_infos@.len())) + 8 <= max_packed_bits(),
    ensures
        lists_model(res@) == final_enum_values(lists_model(enum_values@), doc_infos@),
        ({
            let bits = enum_bits(lists_model(enum_values@), docs_enum_values@, original_doc_id_counter, doc_infos@);
            let head = old(doc_info_writer)@ + le_u32(enum_values@.len() as u32) + width_bytes(
                enum_widths(final_enum_values(lists_model(enum_values@), doc_infos@)),
            );
            &&& final(doc_info_writer)@.len() == head.len() + (bits.len() + 7) / 8
            &&& final(doc_info_writer)@.subrange(0, head.len() as int) == head
            &&& forall|i: int|
                0 <= i < bits.len() ==> byte_bit(
                    final(doc_info_writer)@.subrange(head.len() as int, final(doc_info_writer)@.len() as int),
                    i,
                ) == #[trigger] bits[i]
        }),
{
    let n = enum_values.len();
    let mut lists: Vec<Vec<String>> = Vec::new();
    let mut e: usize = 0;
    while e < n
        invariant
            e <= n == enum_values@.len(),
            lists_model(lists@) == lists_model(enum_values@.subrange(0, e as int)),
        decreases n - e,
    {
        let copy = copy_strings(&enum_values[e]);
        let ghost prev = lists@;
        lists.push(copy);
        assert(lists_model(lists@) =~= lists_model(prev).push(strings_model(enum_values@[e as int]@)));
        assert(enum_values@.subrange(0, e + 1) =~= enum_values@.subrange(0, e as int).push(enum_values@[e as int]));
        e = e + 1;
    }
    assert(enum_values@.subrange(0, e as int) =~= enum_values@);
    assign_enum_values(&mut lists, doc_infos);
    let ghost lm = lists_model(lists@);
    let ghost l0 = lists_model(enum_values@);
    assert forall|x: int| 0 <= x < n implies (#[trigger] lists@[x])@.len() <= 255 by {
        assert(l0[x] == strings_model(enum_values@[x]@));
        lemma_assign_len(l0[x], enum_column(doc_infos@, x));
        assert(lm[x] == strings_model(lists@[x]@));
    }
    let mut widths: Vec<u8> = Vec::new();
    let mut e: usize = 0;
    while e < n
        invariant
            e <= n == lists@.len(),
            lm == lists_model(lists@),
            widths@.len() == e,
            forall|x: int| 0 <= x < e ==> #[trigger] widths@[x] as nat == bits_for(lm[x].len()),
            forall|x: int| 0 <= x < e ==> 1 <= #[trigger] widths@[x] <= 8,
        decreases n - e,
    {
        assert(lm[e as int] == strings_model(lists@[e as int]@));
        let w = width_of(lists[e].len());
        widths.push(w);
        e = e + 1;
    }
    let ghost ws = widths@.map_values(|w: u8| w as nat);
    assert(ws =~= enum_widths(lm));
    proof {
        let c = original_doc_id_counter as int;
        let dl = doc_infos@.len() as int;
        assert(n * c + n * dl == n * (c + dl)) by (nonlinear_arith);
        assert(n == 0 ==> n * (c + dl) == 0) by (nonlinear_arith);
        assert(n * dl >= 0 && n * c >= 0) by (nonlinear_arith)
            requires
                c >= 0,
                dl >= 0,
        ;
        assert(n >= 1 ==> c + dl <= n * (c + dl)) by (nonlinear_arith)
            requires
                c >= 0,
                dl >= 0,
        ;
    }
    let total: usize = if n == 0 {
        0
    } else {
        n * ((original_doc_id_counter as usize) + doc_infos.len())
    };
    assert(widths@.len() == n);
    assert(total == n * (original_doc_id_counter + doc_infos@.len()));
    let mut packing = new_packing();
    pack_prev(&mut packing, docs_enum_values, &widths, original_doc_id_counter as usize, total);
    pack_docs(&mut packing, doc_infos, &lists, &widths, total);
    let ghost head0 = doc_info_writer@;
    push_le_u32(doc_info_writer, n as u32);
    let mut e: usize = 0;
    while e < n
        invariant
            e <= n == widths@.len(),
            doc_info_writer@ == head0 + le_u32(n as u32) + width_bytes(ws.subrange(0, e as int)),
            ws == widths@.map_values(|w: u8| w as nat),
        decreases n - e,
    {
        doc_info_writer.push(widths[e]);
        e = e + 1;
        assert(doc_info_writer@ =~= head0 + le_u32(n as u32) + width_bytes(ws.subrange(0, e as int)));
    }
    assert(ws.subrange(0, e as int) =~= ws);
    let ghost head = doc_info_writer@;
    let bytes = packed_bytes(&packing);
    let mut i: usize = 0;
    while i < bytes.len()
        invariant
            i <= bytes@.len(),
            doc_info_writer@ == head + bytes@.subrange(0, i as int),
        decreases bytes@.len() - i,
    {
        doc_info_writer.push(bytes[i]);
        i = i + 1;
        assert(doc_info_writer@ =~= head + bytes@.subrange(0, i as int));
    }
    assert(bytes@.subrange(0, i as int) =~= bytes@);
    assert(doc_info_writer@.subrange(head.len() as int, doc_info_writer@.len() as int) =~= bytes@);
    assert(doc_info_writer@.subrange(0, head.len() as int) =~= head);
    lists
}


/// The little-endian bytes of `x`.
pub open spec fn le_u64(x: u64) -> Seq<u8> {
    seq![
        x as u8,
        (x >> 8u64) as u8,
        (x >> 16u64) as u8,
        (x >> 24u64) as u8,
        (x >> 32u64) as u8,
        (x >> 40u64) as u8,
        (x >> 48u64) as u8,
        (x >> 56u64) as u8,
    ]
}

fn push_le_u64(out: &mut Vec<u8>, x: u64)
    ensures
        final(out)@ == old(out)@ + le_u64(x),
{
    out.push(x as u8);
    out.push((x >> 8u64) as u8);
    out.push((x >> 16u64) as u8);
    out.push((x >> 24u64) as u8);
    out.push((x >> 32u64) as u8);
    out.push((x >> 40u64) as u8);
    out.push((x >> 48u64) as u8);
    out.push((x >> 56u64) as u8);
    assert(final(out)@ =~= old(out)@ + le_u64(x));
}

/// The average field lengths, each as the eight little-endian bytes of its
/// 64-bit float.
pub open spec fn averages_bytes(bits: Seq<u64>) -> Seq<u8>
    decreases bits.len(),
{
    if bits.len() == 0 {
        Seq::empty()
    } else {
        averages_bytes(bits.drop_last()) + le_u64(bits.last())
    }
}

/// Field lengths, each as a variable-length integer.
pub open spec fn lengths_bytes(lengths: Seq<u32>) -> Seq<u8>
    decreases lengths.len(),
{
    if lengths.len() == 0 {
        Seq::empty()
    } else {
        lengths_bytes(lengths.drop_last()) + encode_var_int(lengths.last() as nat)
    }
}

/// The field lengths of the documents, document after document.
pub open spec fn all_field_lengths(docs: Seq<WorkerMinerDocInfo>) -> Seq<u32>
    decreases docs.len(),
{
    if docs.len() == 0 {
        Seq::empty()
    } else {
        all_field_lengths(docs.drop_last()) + docs.last().field_lengths@
    }
}

/// The documents' field lengths, document after document.
pub open spec fn field_lengths_bytes(docs: Seq<WorkerMinerDocInfo>) -> Seq<u8>
    decreases docs.len(),
{
    if docs.len() == 0 {
        Seq::empty()
    } else {
        field_lengths_bytes(docs.drop_last()) + lengths_bytes(docs.last().field_lengths@)
    }
}

/// The start of the document information, up to the enum section: the
/// number of documents, the number of document entries, the average field
/// lengths, the size of the field lengths plus four, and the field lengths.
pub open spec fn docinfo_head(num_docs: u32, docs: Seq<WorkerMinerDocInfo>, average_length_bits: Seq<u64>) -> Seq<u8> {
    let fl = field_lengths_bytes(docs);
    le_u32(num_docs) + le_u32(docs.len() as u32) + averages_bytes(average_length_bits) + le_u32(
        (fl.len() + 4) as u32,
    ) + fl
}

/// Appends the field lengths of `docs` to `out`.
fn write_field_lengths(docs: &Vec<WorkerMinerDocInfo>, out: &mut Vec<u8>)
    ensures
        final(out)@ == old(out)@ + field_lengths_bytes(docs@),
{
    let ghost o = out@;
    let mut j: usize = 0;
    assert(docs@.subrange(0, 0) =~= Seq::<WorkerMinerDocInfo>::empty());
    while j < docs.len()
        invariant
            j <= docs@.len(),
            out@ == o + field_lengths_bytes(docs@.subrange(0, j as int)),
        decreases docs@.len() - j,
    {
        let lengths = &docs[j].field_lengths;
        let ghost row = out@;
        let mut k: usize = 0;
        assert(lengths@.subrange(0, 0) =~= Seq::<u32>::empty());
        while k < lengths.len()
            invariant
                k <= lengths@.len(),
                out@ == row + lengths_bytes(lengths@.subrange(0, k as int)),
            decreases lengths@.len() - k,
        {
            get_var_int_vec(lengths[k], out);
            assert(lengths@.subrange(0, k + 1).drop_last() =~= lengths@.subrange(0, k as int));
            k = k + 1;
        }
        assert(lengths@.subrange(0, k as int) =~= lengths@);
        assert(docs@.subrange(0, j + 1).drop_last() =~= docs@.subrange(0, j as int));
        j = j + 1;
    }
    assert(docs@.subrange(0, j as int) =~= docs@);
}

/// Writes the document information of the index and returns each enum's
/// values in the order of their ids.
///
/// `doc_infos` holds every document in id order: after an incremental run,
/// the earlier documents first, which carry no enum values or numbers (those
/// are `docs_enum_values` and `docs_i64_values`), then the new ones.
/// `average_length_bits` holds the average field lengths as the bits of
/// their 64-bit floats. The information is the number of documents, the
/// number of document entries, the average field lengths, the field lengths
/// (after their size plus four), the enum section (see `write_enums`) and
/// the number section (see `write_nums`).
pub fn finalize_and_flush(
    doc_infos: &Vec<WorkerMinerDocInfo>,
    num_docs: u32,
    average_length_bits: &Vec<u64>,
    enum_values: &Vec<Vec<String>>,
    docs_enum_values: &Vec<u8>,
    original_doc_id_counter: u32,
    docs_i64_values: &Vec<i64>,
    i64_defaults: &Vec<i64>,
) -> (res: (Vec<u8>, Vec<Vec<String>>))
    requires
        doc_infos@.len() <= u32::MAX,
        field_lengths_bytes(doc_infos@).len() + 4 <= u32::MAX,
        forall|e: int| 0 <= e < enum_values@.len() ==> (#[trigger] enum_values@[e])@.len() <= 255,
        forall|j: int| 0 <= j < doc_infos@.len() ==> (#[trigger] doc_infos@[j]).doc_enums@.len() <= enum_values@.len(),
        enum_values@.len() * original_doc_id_counter <= docs_enum_values@.len(),
        8 * (enum_values@.len() * (original_doc_id_counter + doc_infos@.len())) + 8 <= max_packed_bits(),
        forall|j: int| 0 <= j < doc_infos@.len() ==> (#[trigger] doc_infos@[j]).doc_nums@.len() <= i64_defaults@.len(),
    ensures
        lists_model(res.1@) == final_enum_values(lists_model(enum_values@), doc_infos@),
        ({
            let bits = enum_bits(lists_model(enum_values@), docs_enum_values@, original_doc_id_counter, doc_infos@);
            let head = docinfo_head(num_docs, doc_infos@, average_length_bits@) + le_u32(enum_values@.len() as u32)
                + width_bytes(enum_widths(final_enum_values(lists_model(enum_values@), doc_infos@)));
            let enum_end = (head.len() + (bits.len() + 7) / 8) as int;
            let nums = spec_nums_section(docs_i64_values@, doc_infos@, i64_defaults@);
            &&& res.0@.len() == enum_end + nums.len()
            &&& res.0@.subrange(0, head.len() as int) == head
            &&& forall|i: int|
                0 <= i < bits.len() ==> byte_bit(res.0@.subrange(head.len() as int, enum_end), i) == #[trigger] bits[i]
            &&& res.0@.subrange(enum_end, res.0@.len() as int) == nums
        }),
{
    let mut out: Vec<u8> = Vec::new();
    push_le_u32(&mut out, num_docs);
    push_le_u32(&mut out, doc_infos.len() as u32);
    let ghost a = average_length_bits@;
    let mut i: usize = 0;
    assert(a.subrange(0, 0) =~= Seq::<u64>::empty());
    while i < average_length_bits.len()
        invariant
            i <= a.len(),
            a == average_length_bits@,
            out@ == le_u32(num_docs) + le_u32(doc_infos@.len() as u32) + averages_bytes(a.subrange(0, i as int)),
        decreases a.len() - i,
    {
        push_le_u64(&mut out, average_length_bits[i]);
        assert(a.subrange(0, i + 1).drop_last() =~= a.subrange(0, i as int));
        i = i + 1;
    }
    assert(a.subrange(0, i as int) =~= a);
    let mut lengths: Vec<u8> = Vec::new();
    write_field_lengths(doc_infos, &mut lengths);
    assert(lengths@ =~= field_lengths_bytes(doc_infos@));
    push_le_u32(&mut out, (lengths.len() + 4) as u32);
    let ghost before = out@;
    let mut k: usize = 0;
    while k < lengths.len()
        invariant
            k <= lengths@.len(),
            out@ == before + lengths@.subrange(0, k as int),
        decreases lengths@.len() - k,
    {
        out.push(lengths[k]);
        k = k + 1;
        assert(out@ =~= before + lengths@.subrange(0, k as int));
    }
    assert(lengths@.subrange(0, k as int) =~= lengths@);
    assert(out@ =~= docinfo_head(num_docs, doc_infos@, average_length_bits@));
    let lists = write_enums(enum_values, docs_enum_values, original_doc_id_counter, doc_infos, &mut out);
    let ghost enum_end = out@.len();
    let ghost with_enums = out@;
    write_nums(docs_i64_values, doc_infos, i64_defaults, &mut out);
    assert(out@.subrange(0, enum_end as int) =~= with_enums);
    assert(out@.subrange(enum_end as int, out@.len() as int) =~= spec_nums_section(
        docs_i64_values@,
        doc_infos@,
        i64_defaults@,
    ));
    proof {
        let head = docinfo_head(num_docs, doc_infos@, average_length_bits@) + le_u32(enum_values@.len() as u32)
            + width_bytes(enum_widths(final_enum_values(lists_model(enum_values@), doc_infos@)));
        assert(out@.subrange(0, head.len() as int) =~= with_enums.subrange(0, head.len() as int));
        assert(out@.subrange(head.len() as int, enum_end as int) =~= with_enums.subrange(
            head.len() as int,
            with_enums.len() as int,
        ));
    }
    (out, lists)
}

/// The document information of an indexing run: the documents in id order,
/// the blocks of documents still to merge in, and what an earlier run left:
/// its average field lengths as the bits of their 64-bit floats, its
/// documents' enum value ids and numbers, and its number of document entries.
pub struct DocInfos {
    pub doc_infos: Vec<WorkerMinerDocInfo>,
    pub all_block_doc_lengths: Vec<BlockDocLengths>,
    pub average_length_bits: Vec<u64>,
    pub docs_enum_values: Vec<u8>,
    pub docs_i64_values: Vec<i64>,
    pub original_doc_id_counter: u32,
}

/// An earlier document as read back from the metadata: its id and field
/// lengths, and nothing else.
pub open spec fn earlier_doc(info: WorkerMinerDocInfo, doc_id: int, lengths: Seq<u32>) -> bool {
    &&& info.doc_id == doc_id
    &&& info.doc_enums@.len() == 0
    &&& info.doc_nums@.len() == 0
    &&& info.field_lengths@ == lengths
    &&& info.field_texts@.len() == 0
}

/// Whether the document information of `rdr` reads, for `num_fields` scored
/// fields, with its field lengths.
pub open spec fn docinfo_readable(rdr: MetadataReader, num_fields: nat) -> bool {
    let buf = rdr.spec_buf();
    match read_docinfo(buf, rdr.spec_doc_infos_offset() as int, num_fields) {
        Some(m) => {
            &&& 8 * buf.len() <= usize::MAX
            &&& m.doc_id_counter * m.num_enum_fields <= usize::MAX
            &&& m.doc_id_counter * m.num_i64_fields <= usize::MAX
            &&& m.doc_id_counter * num_fields <= usize::MAX
            &&& lengths_readable(buf, m.field_lengths_pos, (m.doc_id_counter * num_fields) as nat)
        },
        None => false,
    }
}

impl DocInfos {
    /// The document information to start an indexing run with: empty for a
    /// full run (no metadata), else what the earlier run's metadata holds,
    /// with one document per entry carrying its field lengths.
    pub fn init_doc_infos(num_scored_fields: usize, metadata_rdr: &mut Option<MetadataReader>) -> (res: DocInfos)
        requires
            *old(metadata_rdr) matches Some(r) ==> docinfo_readable(r, num_scored_fields as nat),
        ensures
            res.all_block_doc_lengths@.len() == 0,
            *old(metadata_rdr) is None ==> {
                &&& *final(metadata_rdr) is None
                &&& res.doc_infos@.len() == 0
                &&& res.average_length_bits@ == Seq::new(num_scored_fields as nat, |i: int| 0u64)
                &&& res.docs_enum_values@.len() == 0
                &&& res.docs_i64_values@.len() == 0
                &&& res.original_doc_id_counter == 0
            },
            *old(metadata_rdr) matches Some(r) ==> {
                let nf = num_scored_fields as int;
                let m = read_docinfo(r.spec_buf(), r.spec_doc_infos_offset() as int, nf as nat).unwrap();
                let lengths = lengths_at(r.spec_buf(), m.field_lengths_pos, (m.doc_id_counter * nf) as nat);
                &&& *final(metadata_rdr) matches Some(f) && f.spec_buf() == r.spec_buf()
                    && f.spec_doc_infos_offset() == r.spec_doc_infos_offset()
                &&& res.original_doc_id_counter == m.doc_id_counter
                &&& res.average_length_bits@ == m.average_length_bits
                &&& res.docs_enum_values@ == m.doc_enum_vals
                &&& res.docs_i64_values@ == m.doc_i64_vals
                &&& res.doc_infos@.len() == m.doc_id_counter
                &&& forall|j: int|
                    0 <= j < m.doc_id_counter ==> earlier_doc(
                        #[trigger] res.doc_infos@[j],
                        j,
                        lengths.subrange(j * nf, j * nf + nf),
                    )
            },
    {
        match metadata_rdr {
            None => {
                let mut average_length_bits: Vec<u64> = Vec::new();
                let mut i: usize = 0;
                while i < num_scored_fields
                    invariant
                        i <= num_scored_fields,
                        average_length_bits@ == Seq::new(i as nat, |x: int| 0u64),
                    decreases num_scored_fields - i,
                {
                    average_length_bits.push(0u64);
                    i = i + 1;
                    assert(average_length_bits@ =~= Seq::new(i as nat, |x: int| 0u64));
                }
                DocInfos {
                    doc_infos: Vec::new(),
                    all_block_doc_lengths: Vec::new(),
                    average_length_bits,
                    docs_enum_values: Vec::new(),
                    docs_i64_values: Vec::new(),
                    original_doc_id_counter: 0,
                }
            },
            Some(rdr) => {
                let ghost r0 = *rdr;
                let ghost nf = num_scored_fields as nat;
                let ghost m = read_docinfo(r0.spec_buf(), r0.spec_doc_infos_offset() as int, nf).unwrap();
                let mut num_docs: u32 = 0;
                let mut doc_id_counter: u32 = 0;
                let mut average_length_bits: Vec<u64> = Vec::new();
                let mut num_enum_fields: usize = 0;
                let mut num_i64_fields: usize = 0;
                let (docs_enum_values, docs_i64_values) = rdr.read_docinfo_inital_metadata(
                    &mut num_docs,
                    &mut doc_id_counter,
                    &mut average_length_bits,
                    &mut num_enum_fields,
                    &mut num_i64_fields,
                    num_scored_fields,
                );
                assert(average_length_bits@ =~= m.average_length_bits);
                let ghost total = (m.doc_id_counter * nf) as nat;
                let ghost p0 = m.field_lengths_pos;
                let ghost all = lengths_at(r0.spec_buf(), p0, total);
                proof {
                    lemma_lengths_at_len(r0.spec_buf(), p0, total);
                    assert(all.subrange(0, 0) + all =~= all);
                    assert(0 * nf == 0);
                }
                let mut doc_infos: Vec<WorkerMinerDocInfo> = Vec::new();
                let mut doc_id: u32 = 0;
                while doc_id < doc_id_counter
                    invariant
                        doc_id <= doc_id_counter == m.doc_id_counter,
                        nf == num_scored_fields,
                        total == m.doc_id_counter * nf,
                        total <= usize::MAX,
                        rdr.spec_buf() == r0.spec_buf(),
                        rdr.spec_doc_infos_offset() == r0.spec_doc_infos_offset(),
                        rdr.spec_dict_table_offset() == r0.spec_dict_table_offset(),
                        rdr.spec_invalidation_vec_offset() == r0.spec_invalidation_vec_offset(),
                        doc_infos@.len() == doc_id,
                        doc_id * nf <= total,
                        lengths_readable(r0.spec_buf(), rdr.spec_doc_infos_pos() as int, (total - doc_id * nf) as nat),
                        all == all.subrange(0, doc_id * nf) + lengths_at(
                            r0.spec_buf(),
                            rdr.spec_doc_infos_pos() as int,
                            (total - doc_id * nf) as nat,
                        ),
                        all.len() == total,
                        forall|j: int|
                            0 <= j < doc_id ==> earlier_doc(
                                #[trigger] doc_infos@[j],
                                j,
                                all.subrange(j * nf, j * nf + nf),
                            ),
                    decreases doc_id_counter - doc_id,
                {
                    proof {
                        assert(doc_id * nf + nf <= total) by (nonlinear_arith)
                            requires
                                doc_id < m.doc_id_counter,
                                total == m.doc_id_counter * nf,
                        ;
                    }
                    let ghost start = (doc_id * nf) as int;
                    let mut field_lengths: Vec<u32> = Vec::new();
                    let mut i: usize = 0;
                    assert(all.subrange(start, start) =~= Seq::<u32>::empty());
                    while i < num_scored_fields
                        invariant
                            i <= num_scored_fields == nf,
                            start == doc_id * nf,
                            start + nf <= total,
                            all.len() == total,
                            rdr.spec_buf() == r0.spec_buf(),
                            rdr.spec_doc_infos_offset() == r0.spec_doc_infos_offset(),
                            rdr.spec_dict_table_offset() == r0.spec_dict_table_offset(),
                            rdr.spec_invalidation_vec_offset() == r0.spec_invalidation_vec_offset(),
                            lengths_readable(r0.spec_buf(), rdr.spec_doc_infos_pos() as int, (total - (start + i)) as nat),
                            all == all.subrange(0, start + i) + lengths_at(
                                r0.spec_buf(),
                                rdr.spec_doc_infos_pos() as int,
                                (total - (start + i)) as nat,
                            ),
                            field_lengths@ == all.subrange(start, start + i),
                        decreases num_scored_fields - i,
                    {
                        let ghost pos0 = rdr.spec_doc_infos_pos() as int;
                        let ghost c = (total - (start + i)) as nat;
                        assert(c > 0);
                        assert(lengths_readable(r0.spec_buf(), pos0, c));
                        let len = rdr.read_docinfo_field_length();
                        proof {
                            let k = start + i;
                            let buf = r0.spec_buf();
                            let pos1 = rdr.spec_doc_infos_pos() as int;
                            assert(var_int_at(buf, pos0) == Some((len as nat, (pos1 - pos0) as nat)));
                            assert(lengths_readable(buf, pos1, (c - 1) as nat));
                            assert(lengths_at(buf, pos0, c) =~= seq![len] + lengths_at(buf, pos1, (c - 1) as nat));
                            assert(all[k] == len) by {
                                assert(all[k] == (all.subrange(0, k) + lengths_at(buf, pos0, c))[k]);
                            }
                            assert(all.subrange(0, k + 1) =~= all.subrange(0, k).push(len));
                            assert(all =~= all.subrange(0, k + 1) + lengths_at(buf, pos1, (c - 1) as nat));
                            assert(all.subrange(start, k + 1) =~= all.subrange(start, k).push(len));
                        }
                        field_lengths.push(len);
                        i = i + 1;
                    }
                    doc_infos.push(WorkerMinerDocInfo {
                        doc_id,
                        doc_enums: Vec::new(),
                        doc_nums: Vec::new(),
                        field_lengths,
                        field_texts: Vec::new(),
                    });
                    proof {
                        assert((doc_id + 1) * nf == doc_id * nf + nf) by (nonlinear_arith);
                    }
                    doc_id = doc_id + 1;
                }
                DocInfos {
                    doc_infos,
                    all_block_doc_lengths: Vec::new(),
                    average_length_bits,
                    docs_enum_values,
                    docs_i64_values,
                    original_doc_id_counter: doc_id_counter,
                }
            },
        }
    }
}

} // verus!
