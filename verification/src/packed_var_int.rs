//! Bitwise packing of integers that occur in a repeating pattern of types:
//! the integers of each type are grouped, in write order, into chunks of a
//! fixed number; each integer is written in as many bits as the largest of
//! its chunk needs, and the first of a chunk is preceded by that bit count.

use vstd::prelude::*;
use crate::doc_info::{low_bits, max_packed_bits, new_packing, packed_bits, push_low_bits, BitPacking};

verus! {

/// How many of the first `k` units have type `t`.
pub open spec fn count_type(units: Seq<(usize, u32)>, t: usize, k: int) -> nat
    decreases k,
{
    if k <= 0 {
        0
    } else {
        count_type(units, t, k - 1) + if units[k - 1].0 == t {
            1nat
        } else {
            0nat
        }
    }
}

/// The position of unit `k` among the units of its type.
pub open spec fn type_index(units: Seq<(usize, u32)>, k: int) -> nat {
    count_type(units, units[k].0, k)
}

/// The largest value among the first `m` units of type `t` that fall in
/// chunk `c` of that type, chunks holding `per_chunk` units; 0 when there is
/// none.
pub open spec fn chunk_max_upto(units: Seq<(usize, u32)>, t: usize, c: nat, per_chunk: nat, m: int) -> u32
    decreases m,
{
    if m <= 0 {
        0
    } else {
        let prev = chunk_max_upto(units, t, c, per_chunk, m - 1);
        if units[m - 1].0 == t && type_index(units, m - 1) / per_chunk == c && units[m - 1].1 > prev {
            units[m - 1].1
        } else {
            prev
        }
    }
}

/// The largest value of the chunk unit `k` falls in.
pub open spec fn chunk_max(units: Seq<(usize, u32)>, k: int, max_values: Seq<usize>) -> u32 {
    let t = units[k].0;
    chunk_max_upto(units, t, type_index(units, k) / (max_values[t as int] as nat), max_values[t as int] as nat, units.len() as int)
}

/// How many bits `v` takes, at least one.
pub open spec fn bit_len(v: nat) -> nat
    decreases v,
{
    if v < 2 {
        1
    } else {
        1 + bit_len(v / 2)
    }
}

/// The bits written for unit `k`: when it opens its chunk, the chunk's bit
/// count less one in `len_bits[t]` bits; then its value in the chunk's bit
/// count; each most significant bit first.
pub open spec fn unit_bits(units: Seq<(usize, u32)>, k: int, len_bits: Seq<usize>, max_values: Seq<usize>) -> Seq<bool> {
    let t = units[k].0;
    let nb = bit_len(chunk_max(units, k, max_values) as nat);
    (if type_index(units, k) % (max_values[t as int] as nat) == 0 {
        low_bits((nb - 1) as nat, len_bits[t as int] as nat)
    } else {
        Seq::empty()
    }) + low_bits(units[k].1 as nat, nb)
}

/// The bits of the first `m` units.
pub open spec fn packed_units(units: Seq<(usize, u32)>, len_bits: Seq<usize>, max_values: Seq<usize>, m: int) -> Seq<bool>
    decreases m,
{
    if m <= 0 {
        Seq::empty()
    } else {
        packed_units(units, len_bits, max_values, m - 1) + unit_bits(units, m - 1, len_bits, max_values)
    }
}


proof fn lemma_count_mono(units: Seq<(usize, u32)>, t: usize, a: int, b: int)
    requires
        0 <= a <= b,
    ensures
        count_type(units, t, a) <= count_type(units, t, b),
    decreases b - a,
{
    if a < b {
        lemma_count_mono(units, t, a, b - 1);
    }
}

proof fn lemma_div_below(x: int, c: int, d: int)
    requires
        0 <= x < c * d,
        d > 0,
    ensures
        x / d < c,
{
    vstd::arithmetic::div_mod::lemma_fundamental_div_mod(x, d);
    vstd::arithmetic::div_mod::lemma_mod_bound(x, d);
    if x / d >= c {
        assert(d * (x / d) >= d * c) by (nonlinear_arith)
            requires
                x / d >= c,
                d > 0;
        assert(c * d == d * c) by (nonlinear_arith);
    }
}

/// A chunk that the units of type `t` have not reached yet is empty.
proof fn lemma_new_chunk_empty(units: Seq<(usize, u32)>, t: usize, c: nat, per: nat, k: int, m: int)
    requires
        per > 0,
        0 <= m <= k <= units.len(),
        count_type(units, t, k) == c * per,
    ensures
        chunk_max_upto(units, t, c, per, m) == 0,
    decreases m,
{
    if m > 0 {
        lemma_new_chunk_empty(units, t, c, per, k, m - 1);
        if units[m - 1].0 == t {
            lemma_count_mono(units, t, m, k);
            lemma_div_below(type_index(units, m - 1) as int, c as int, per as int);
        }
    }
}

proof fn lemma_count_bound(units: Seq<(usize, u32)>, t: usize, k: int)
    requires
        k >= 0,
    ensures
        count_type(units, t, k) <= k,
    decreases k,
{
    if k > 0 {
        lemma_count_bound(units, t, k - 1);
    }
}

pub open spec fn pow2_nat(k: nat) -> nat
    decreases k,
{
    if k == 0 {
        1
    } else {
        2 * pow2_nat((k - 1) as nat)
    }
}

/// How many bits `v` takes, at least one.
fn bit_len_u32(v: u32) -> (nb: usize)
    ensures
        nb == bit_len(v as nat),
        1 <= nb <= 32,
{
    let mut x = v;
    let mut nb: usize = 1;
    proof {
        reveal_with_fuel(pow2_nat, 33);
        assert(pow2_nat(32) == 0x1_0000_0000);
    }
    while x >= 2
        invariant
            1 <= nb <= 32,
            bit_len(v as nat) == nb - 1 + bit_len(x as nat),
            (x as nat) < pow2_nat((33 - nb) as nat),
        decreases x,
    {
        assert(pow2_nat((33 - nb) as nat) == 2 * pow2_nat((32 - nb) as nat));
        if nb == 32 {
            assert(pow2_nat(1) == 2);
        }
        x = x / 2;
        nb = nb + 1;
    }
    nb
}

/// One integer written and its type.
pub struct PackedVarIntUnit {
    pub t: usize,
    pub v: u32,
}

/// Packs integers of `NUM_TYPES` types; nothing is packed until `flush`, as
/// the chunks must be known first.
pub struct PackedVarIntWriter<const NUM_TYPES: usize> {
    /// Per type, 8 less the bits that a chunk's bit count is written in.
    max_bit_lens: [usize; NUM_TYPES],
    /// Per type, how many integers a chunk holds.
    max_values: [usize; NUM_TYPES],
    type_chunk_buffers: Vec<PackedVarIntUnit>,
    bit_vec: BitPacking,
}

pub open spec fn units_view(v: Seq<PackedVarIntUnit>) -> Seq<(usize, u32)> {
    v.map_values(|u: PackedVarIntUnit| (u.t, u.v))
}

impl<const NUM_TYPES: usize> PackedVarIntWriter<NUM_TYPES> {
    /// The integers written so far, with their types.
    pub closed spec fn units(&self) -> Seq<(usize, u32)> {
        units_view(self.type_chunk_buffers@)
    }

    /// Per type, the bits a chunk's bit count is written in.
    pub closed spec fn len_bits(&self) -> Seq<usize> {
        Seq::new(NUM_TYPES as nat, |t: int| (8 - self.max_bit_lens@[t]) as usize)
    }

    /// Per type, how many integers a chunk holds.
    pub closed spec fn chunk_sizes(&self) -> Seq<usize> {
        self.max_values@
    }

    /// Every unit's type is one of the writer's; the length fields are at
    /// most 8 bits; nothing is packed yet.
    pub closed spec fn wf(&self) -> bool {
        &&& forall|t: int| 0 <= t < NUM_TYPES ==> #[trigger] self.max_bit_lens@[t] <= 8
        &&& forall|k: int| 0 <= k < self.type_chunk_buffers@.len() ==> (#[trigger] self.type_chunk_buffers@[k]).t < NUM_TYPES
        &&& packed_bits(self.bit_vec) == Seq::<bool>::empty()
    }

    /// A writer whose chunks of type `t` hold `max_values[t]` integers and
    /// write their bit counts in `max_bit_lens[t]` bits.
    pub fn new(max_bit_lens: [usize; NUM_TYPES], max_values: [usize; NUM_TYPES]) -> (w: Self)
        requires
            forall|t: int| 0 <= t < NUM_TYPES ==> #[trigger] max_bit_lens@[t] <= 8,
        ensures
            w.wf(),
            w.units() == Seq::<(usize, u32)>::empty(),
            w.len_bits() == max_bit_lens@,
            w.chunk_sizes() == max_values@,
    {
        let ghost params = max_bit_lens@;
        let mut stored = max_bit_lens;
        let mut i: usize = 0;
        while i < NUM_TYPES
            invariant
                i <= NUM_TYPES,
                params.len() == NUM_TYPES,
                stored@.len() == NUM_TYPES,
                forall|t: int| 0 <= t < NUM_TYPES ==> #[trigger] params[t] <= 8,
                forall|t: int| 0 <= t < i ==> #[trigger] stored@[t] == 8 - params[t],
                forall|t: int| i <= t < NUM_TYPES ==> #[trigger] stored@[t] == params[t],
            decreases NUM_TYPES - i,
        {
            let p = stored[i];
            stored[i] = 8 - p;
            i = i + 1;
        }
        let w = PackedVarIntWriter {
            max_bit_lens: stored,
            max_values,
            type_chunk_buffers: Vec::new(),
            bit_vec: new_packing(),
        };
        assert(w.units() =~= Seq::<(usize, u32)>::empty());
        assert(w.len_bits() =~= max_bit_lens@);
        w
    }

    /// Packs the integers written, in write order: per type, the integers
    /// form chunks of the type's chunk size; each is written in the bits the
    /// largest of its chunk takes, after that bit count less one when it
    /// opens its chunk.
    pub fn flush(self) -> (bits: BitPacking)
        requires
            self.wf(),
            forall|t: int| 0 <= t < NUM_TYPES ==> #[trigger] self.chunk_sizes()[t] > 0,
            self.units().len() * 40 <= max_packed_bits(),
        ensures
            packed_bits(bits) == packed_units(self.units(), self.len_bits(), self.chunk_sizes(), self.units().len() as int),
    {
        let ghost units = self.units();
        let ghost mv = self.max_values@;
        let ghost lb = self.len_bits();
        let n = self.type_chunk_buffers.len();
        let mut counts: Vec<usize> = Vec::new();
        let mut maxes: Vec<Vec<u32>> = Vec::new();
        let mut t0: usize = 0;
        while t0 < NUM_TYPES
            invariant
                t0 <= NUM_TYPES,
                counts@.len() == t0,
                maxes@.len() == t0,
                forall|t: int| 0 <= t < t0 ==> #[trigger] counts@[t] == 0,
                forall|t: int| 0 <= t < t0 ==> (#[trigger] maxes@[t])@.len() == 0,
            decreases NUM_TYPES - t0,
        {
            counts.push(0);
            maxes.push(Vec::new());
            t0 = t0 + 1;
        }
        let mut k: usize = 0;
        proof {
            assert forall|t: int| 0 <= t < NUM_TYPES implies #[trigger] mv[t] > 0 by {
                assert(self.chunk_sizes()[t] > 0);
            }
            assert forall|t: int| 0 <= t < NUM_TYPES implies (#[trigger] maxes@[t])@.len() * mv[t] >= counts@[t]
                && maxes@[t]@.len() * mv[t] < counts@[t] + mv[t] by {
                assert(maxes@[t]@.len() == 0);
                assert(0 * mv[t] == 0);
            }
        }
        while k < n
            invariant
                k <= n == units.len() == self.type_chunk_buffers@.len(),
                units == units_view(self.type_chunk_buffers@),
                mv == self.max_values@,
                mv.len() == NUM_TYPES,
                self.wf(),
                forall|t: int| 0 <= t < NUM_TYPES ==> #[trigger] mv[t] > 0,
                counts@.len() == NUM_TYPES,
                maxes@.len() == NUM_TYPES,
                forall|t: int| 0 <= t < NUM_TYPES ==> #[trigger] counts@[t] == count_type(units, t as usize, k as int),
                forall|t: int|
                    0 <= t < NUM_TYPES ==> (#[trigger] maxes@[t])@.len() * mv[t] >= counts@[t]
                        && maxes@[t]@.len() * mv[t] < counts@[t] + mv[t],
                forall|t: int, c: int|
                    0 <= t < NUM_TYPES && 0 <= c < maxes@[t]@.len() ==> #[trigger] maxes@[t]@[c] == chunk_max_upto(
                        units,
                        t as usize,
                        c as nat,
                        mv[t] as nat,
                        k as int,
                    ),
            decreases n - k,
        {
            let t = self.type_chunk_buffers[k].t;
            let v = self.type_chunk_buffers[k].v;
            assert(units[k as int] == (t, v));
            let per = self.max_values[t];
            let ci = counts[t];
            let c = ci / per;
            let ghost old_maxes = maxes@;
            let ghost old_len = maxes@[t as int]@.len();
            proof {
                vstd::arithmetic::div_mod::lemma_fundamental_div_mod(ci as int, per as int);
                vstd::arithmetic::div_mod::lemma_mod_bound(ci as int, per as int);
                assert(type_index(units, k as int) == ci);
                lemma_count_bound(units, t, k as int);
            }
            if ci % per == 0 {
                proof {
                    assert(ci == c * per) by (nonlinear_arith)
                        requires
                            ci == per * c + ci % per,
                            ci % per == 0;
                    assert(old_len == c) by (nonlinear_arith)
                        requires
                            old_len * per >= ci,
                            old_len * per < ci + per,
                            ci == c * per,
                            per > 0;
                    lemma_new_chunk_empty(units, t, c as nat, per as nat, k as int, k as int);
                }
                maxes[t].push(v);
            } else {
                proof {
                    assert(c < old_len) by (nonlinear_arith)
                        requires
                            old_len * per >= ci,
                            ci == per * c + ci % per,
                            ci % per > 0,
                            per > 0;
                }
                let cur = maxes[t][c];
                if v > cur {
                    maxes[t].set(c, v);
                }
            }
            counts.set(t, ci + 1);
            proof {
                assert forall|t2: int| 0 <= t2 < NUM_TYPES implies (#[trigger] maxes@[t2])@.len() * mv[t2] >= counts@[t2]
                    && maxes@[t2]@.len() * mv[t2] < counts@[t2] + mv[t2] by {
                    if t2 == t {
                        if ci % per == 0 {
                            assert((c + 1) * per == c * per + per) by (nonlinear_arith);
                        } else {
                            assert(old_len * per >= ci + 1) by (nonlinear_arith)
                                requires
                                    old_len * per >= ci,
                                    ci == per * c + ci % per,
                                    ci % per > 0,
                                    c < old_len,
                                    per > 0;
                        }
                    } else {
                        assert(maxes@[t2] == old_maxes[t2]);
                    }
                }
                assert forall|t2: int, c2: int|
                    0 <= t2 < NUM_TYPES && 0 <= c2 < maxes@[t2]@.len() implies #[trigger] maxes@[t2]@[c2]
                        == chunk_max_upto(units, t2 as usize, c2 as nat, mv[t2] as nat, k + 1) by {
                    if t2 != t {
                        assert(maxes@[t2] == old_maxes[t2]);
                    } else if c2 != c {
                        assert(maxes@[t2]@[c2] == old_maxes[t2]@[c2]);
                    }
                }
            }
            k = k + 1;
        }
        let mut packing = self.bit_vec;
        let mut counts2: Vec<usize> = Vec::new();
        let mut t1: usize = 0;
        while t1 < NUM_TYPES
            invariant
                t1 <= NUM_TYPES,
                counts2@.len() == t1,
                forall|t: int| 0 <= t < t1 ==> #[trigger] counts2@[t] == 0,
            decreases NUM_TYPES - t1,
        {
            counts2.push(0);
            t1 = t1 + 1;
        }
        let mut j: usize = 0;
        while j < n
            invariant
                j <= n == units.len() == self.type_chunk_buffers@.len(),
                units == units_view(self.type_chunk_buffers@),
                mv == self.max_values@,
                lb == self.len_bits(),
                mv.len() == NUM_TYPES,
                n * 40 <= max_packed_bits(),
                forall|t: int| 0 <= t < NUM_TYPES ==> #[trigger] self.max_bit_lens@[t] <= 8,
                forall|x: int| 0 <= x < n ==> (#[trigger] self.type_chunk_buffers@[x]).t < NUM_TYPES,
                forall|t: int| 0 <= t < NUM_TYPES ==> #[trigger] mv[t] > 0,
                counts2@.len() == NUM_TYPES,
                maxes@.len() == NUM_TYPES,
                forall|t: int| 0 <= t < NUM_TYPES ==> #[trigger] counts2@[t] == count_type(units, t as usize, j as int),
                forall|t: int|
                    0 <= t < NUM_TYPES ==> (#[trigger] maxes@[t])@.len() * mv[t] >= count_type(units, t as usize, n as int),
                forall|t: int, c: int|
                    0 <= t < NUM_TYPES && 0 <= c < maxes@[t]@.len() ==> #[trigger] maxes@[t]@[c] == chunk_max_upto(
                        units,
                        t as usize,
                        c as nat,
                        mv[t] as nat,
                        n as int,
                    ),
                packed_bits(packing) == packed_units(units, lb, mv, j as int),
                packed_bits(packing).len() <= 40 * j,
            decreases n - j,
        {
            let t = self.type_chunk_buffers[j].t;
            let v = self.type_chunk_buffers[j].v;
            assert(units[j as int] == (t, v));
            let per = self.max_values[t];
            let ci = counts2[t];
            let c = ci / per;
            proof {
                assert(type_index(units, j as int) == ci);
                lemma_count_bound(units, t, j as int);
                lemma_count_mono(units, t, j + 1, n as int);
                vstd::arithmetic::div_mod::lemma_fundamental_div_mod(ci as int, per as int);
                vstd::arithmetic::div_mod::lemma_mod_bound(ci as int, per as int);
                let len_t = maxes@[t as int]@.len();
                assert(c < len_t) by (nonlinear_arith)
                    requires
                        len_t * per >= ci + 1,
                        ci == per * c + ci % per,
                        ci % per >= 0,
                        per > 0;
            }
            let m = maxes[t][c];
            let nb = bit_len_u32(m);
            let ghost before = packed_bits(packing);
            if ci % per == 0 {
                let width = 8 - self.max_bit_lens[t];
                push_low_bits(&mut packing, (nb - 1) as u32, 32 - width);
            }
            push_low_bits(&mut packing, v, 32 - nb);
            proof {
                assert(m == chunk_max(units, j as int, mv));
                assert(lb[t as int] == 8 - self.max_bit_lens@[t as int]);
                assert(packed_bits(packing) =~= before + unit_bits(units, j as int, lb, mv));
            }
            counts2.set(t, ci + 1);
            j = j + 1;
        }
        packing
    }

    /// Writes `v` as an integer of type `t`; its bit count must fit the
    /// type's length field.
    pub fn write_type(&mut self, t: usize, v: u32)
        requires
            old(self).wf(),
            t < NUM_TYPES,
            bit_len(bit_len(v as nat)) <= old(self).len_bits()[t as int],
        ensures
            final(self).wf(),
            final(self).units() == old(self).units().push((t, v)),
            final(self).len_bits() == old(self).len_bits(),
            final(self).chunk_sizes() == old(self).chunk_sizes(),
    {
        self.type_chunk_buffers.push(PackedVarIntUnit { t, v });
        assert(self.units() =~= old(self).units().push((t, v)));
        assert(self.len_bits() =~= old(self).len_bits());
    }
}

} // verus!
