//! The searcher's field information, read from the bytes the front end
//! hands over: each field's name, weight and BM25 parameters, and the fields
//! a query may name.

use vstd::prelude::*;
use vstd::utf8::{decode_utf8, valid_utf8};
use crate::metadata::{le_u32, read_u32_le};
use crate::query_parser::{byte_len, strings_model};

verus! {

/// One field: its name, and its weight and BM25 `k` and `b` as the bits of
/// their 32-bit floats.
pub struct FieldInfoRaw {
    pub name: String,
    pub weight_bits: u32,
    pub k_bits: u32,
    pub b_bits: u32,
}

/// A field as plain values.
pub open spec fn field_model(f: FieldInfoRaw) -> (Seq<char>, u32, u32, u32) {
    (f.name@, f.weight_bits, f.k_bits, f.b_bits)
}

/// The fields as plain values.
pub open spec fn fields_model(v: Seq<FieldInfoRaw>) -> Seq<(Seq<char>, u32, u32, u32)> {
    v.map_values(|f: FieldInfoRaw| field_model(f))
}

/// The fields encoded in `raw` from `pos` on: each is its name's length in
/// one byte, the name in UTF-8, then its weight, `k` and `b` as
/// little-endian 32-bit floats. `None` where a field runs past the end or a
/// name is not UTF-8.
pub open spec fn spec_field_infos(raw: Seq<u8>, pos: int) -> Option<Seq<(Seq<char>, u32, u32, u32)>>
    decreases raw.len() - pos,
{
    if pos < 0 || pos >= raw.len() {
        Some(Seq::empty())
    } else {
        let s = pos + 1;
        let e = s + raw[pos];
        if e + 12 > raw.len() || !valid_utf8(raw.subrange(s, e)) {
            None
        } else {
            match spec_field_infos(raw, e + 12) {
                None => None,
                Some(rest) => Some(
                    seq![
                        (
                            decode_utf8(raw.subrange(s, e)),
                            le_u32(raw, e) as u32,
                            le_u32(raw, e + 4) as u32,
                            le_u32(raw, e + 8) as u32,
                        ),
                    ] + rest,
                ),
            }
        }
    }
}

/// `done` put before what `rest` holds.
pub open spec fn prepend<A>(done: Seq<A>, rest: Option<Seq<A>>) -> Option<Seq<A>> {
    match rest {
        Some(r) => Some(done + r),
        None => None,
    }
}

/// `std::str::from_utf8` on `bytes[start..end]`: the text, exactly when the
/// bytes are valid UTF-8.
#[verifier::external_body]
fn utf8_text(bytes: &[u8], start: usize, end: usize) -> (res: Option<String>)
    requires
        start <= end <= bytes@.len(),
    ensures
        res is Some <==> valid_utf8(bytes@.subrange(start as int, end as int)),
        res matches Some(s) ==> s@ == decode_utf8(bytes@.subrange(start as int, end as int)),
{
    match std::str::from_utf8(&bytes[start..end]) {
        Ok(s) => Some(s.to_owned()),
        Err(_) => None,
    }
}

/// Reads the fields from the bytes the front end hands over; `None` where a
/// field runs past the end or a name is not UTF-8.
pub fn parse_field_infos(raw: &[u8]) -> (res: Option<Vec<FieldInfoRaw>>)
    ensures
        match res {
            Some(v) => spec_field_infos(raw@, 0) == Some(fields_model(v@)),
            None => spec_field_infos(raw@, 0) is None,
        },
        res matches Some(v) ==> forall|f: int| 0 <= f < v@.len() ==> byte_len((#[trigger] v@[f]).name@) <= 255,
{
    let mut out: Vec<FieldInfoRaw> = Vec::new();
    let mut pos: usize = 0;
    assert(fields_model(out@) =~= Seq::<(Seq<char>, u32, u32, u32)>::empty());
    assert(prepend(Seq::<(Seq<char>, u32, u32, u32)>::empty(), spec_field_infos(raw@, 0)) =~= spec_field_infos(raw@, 0));
    while pos < raw.len()
        invariant
            spec_field_infos(raw@, 0) == prepend(fields_model(out@), spec_field_infos(raw@, pos as int)),
            forall|f: int| 0 <= f < out@.len() ==> byte_len((#[trigger] out@[f]).name@) <= 255,
        decreases raw@.len() - pos,
    {
        let n = raw[pos] as usize;
        let s = pos + 1;
        if n + 12 > raw.len() - s {
            return None;
        }
        let e = s + n;
        let name = match utf8_text(raw, s, e) {
            Some(name) => name,
            None => {
                return None;
            },
        };
        proof {
            vstd::utf8::decode_utf8_encode_utf8(raw@.subrange(s as int, e as int));
            assert(byte_len(name@) == n);
        }
        let weight_bits = read_u32_le(raw, e);
        let k_bits = read_u32_le(raw, e + 4);
        let b_bits = read_u32_le(raw, e + 8);
        let ghost before = fields_model(out@);
        let ghost f = (name@, weight_bits, k_bits, b_bits);
        out.push(FieldInfoRaw { name, weight_bits, k_bits, b_bits });
        proof {
            assert(fields_model(out@) =~= before.push(f));
            match spec_field_infos(raw@, (e + 12) as int) {
                Some(r) => {
                    assert(before + (seq![f] + r) =~= before.push(f) + r);
                },
                None => {},
            }
        }
        pos = e + 12;
    }
    proof {
        assert(fields_model(out@) + Seq::<(Seq<char>, u32, u32, u32)>::empty() =~= fields_model(out@));
    }
    Some(out)
}

/// Whether the 32-bit float with these bits is greater than zero: neither
/// zero, negative nor NaN.
pub open spec fn positive_f32_bits(bits: u32) -> bool {
    0 < bits <= 0x7F80_0000
}

/// The names of the fields with a weight above zero, in order.
pub open spec fn scored_names(fs: Seq<(Seq<char>, u32, u32, u32)>) -> Seq<Seq<char>>
    decreases fs.len(),
{
    if fs.len() == 0 {
        Seq::empty()
    } else {
        scored_names(fs.drop_last()) + if positive_f32_bits(fs.last().1) {
            seq![fs.last().0]
        } else {
            Seq::empty()
        }
    }
}

/// Whether the names are ordered by non-increasing length in bytes.
pub open spec fn longest_first(names: Seq<Seq<char>>) -> bool {
    forall|i: int, j: int| 0 <= i < j < names.len() ==> byte_len(#[trigger] names[i]) >= byte_len(#[trigger] names[j])
}

/// The names of the fields with a weight above zero, longest first, so that
/// a query's field prefix is matched against the longest name first.
pub fn valid_fields(infos: &Vec<FieldInfoRaw>) -> (res: Vec<String>)
    requires
        forall|f: int| 0 <= f < infos@.len() ==> byte_len((#[trigger] infos@[f]).name@) <= usize::MAX,
    ensures
        strings_model(res@).to_multiset() == scored_names(fields_model(infos@)).to_multiset(),
        longest_first(strings_model(res@)),
{
    let ghost fs = fields_model(infos@);
    let mut res: Vec<String> = Vec::new();
    let mut i: usize = 0;
    assert(fs.subrange(0, 0) =~= Seq::<(Seq<char>, u32, u32, u32)>::empty());
    assert(strings_model(res@) =~= Seq::<Seq<char>>::empty());
    while i < infos.len()
        invariant
            i <= infos@.len(),
            fs == fields_model(infos@),
            forall|f: int| 0 <= f < infos@.len() ==> byte_len((#[trigger] infos@[f]).name@) <= usize::MAX,
            forall|x: int| 0 <= x < res@.len() ==> byte_len((#[trigger] res@[x])@) <= usize::MAX,
            strings_model(res@).to_multiset() == scored_names(fs.subrange(0, i as int)).to_multiset(),
            longest_first(strings_model(res@)),
        decreases infos@.len() - i,
    {
        let ghost sub = fs.subrange(0, i + 1);
        assert(sub.drop_last() =~= fs.subrange(0, i as int));
        assert(sub.last() == field_model(infos@[i as int]));
        if 0 < infos[i].weight_bits && infos[i].weight_bits <= 0x7F80_0000 {
            let name = infos[i].name.clone();
            assert(name@ == infos@[i as int].name@);
            let len = name.as_str().len();
            assert(len as int == byte_len(name@));
            let ghost m0 = strings_model(res@);
            // the place after every name at least as long
            let mut p: usize = 0;
            while p < res.len() && res[p].as_str().len() >= len
                invariant
                    p <= res@.len(),
                    m0 == strings_model(res@),
                    len as int == byte_len(name@),
                    forall|x: int| 0 <= x < res@.len() ==> byte_len((#[trigger] res@[x])@) <= usize::MAX,
                    forall|x: int| 0 <= x < p ==> byte_len(#[trigger] m0[x]) >= byte_len(name@),
                decreases res@.len() - p,
            {
                assert(m0[p as int] == res@[p as int]@);
                p = p + 1;
            }
            proof {
                if p < res@.len() {
                    assert(m0[p as int] == res@[p as int]@);
                    assert(byte_len(m0[p as int]) < byte_len(name@));
                }
            }
            let ghost r0 = res@;
            res.insert(p, name);
            proof {
                assert forall|x: int| 0 <= x < res@.len() implies byte_len((#[trigger] res@[x])@) <= usize::MAX by {
                    if x < p {
                        assert(res@[x] == r0[x]);
                    } else if x > p {
                        assert(res@[x] == r0[x - 1]);
                    }
                }
                let m1 = strings_model(res@);
                assert(m1 =~= m0.insert(p as int, name@));
                vstd::seq_lib::to_multiset_insert(m0, p as int, name@);
                assert forall|a: int, b: int| 0 <= a < b < m1.len() implies byte_len(#[trigger] m1[a]) >= byte_len(
                    #[trigger] m1[b],
                ) by {
                    if b < p {
                    } else if b == p {
                    } else if a < p {
                        assert(m1[b] == m0[b - 1]);
                        if p < m0.len() {
                            assert(byte_len(m0[p as int]) < byte_len(name@));
                            assert(byte_len(m0[p as int]) >= byte_len(m0[b - 1]));
                        }
                    } else if a == p {
                        assert(m1[b] == m0[b - 1]);
                        assert(byte_len(m0[p as int]) >= byte_len(m0[b - 1]));
                    } else {
                        assert(m1[a] == m0[a - 1]);
                        assert(m1[b] == m0[b - 1]);
                    }
                }
                assert(scored_names(sub) =~= scored_names(fs.subrange(0, i as int)).push(name@));
                vstd::seq_lib::to_multiset_build(scored_names(fs.subrange(0, i as int)), name@);
            }
        } else {
            assert(scored_names(sub) =~= scored_names(fs.subrange(0, i as int)));
        }
        i = i + 1;
    }
    assert(fs.subrange(0, i as int) =~= fs);
    res
}

} // verus!
