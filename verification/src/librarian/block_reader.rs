//! Reading back the dictionary records of a first-generation index block:
//! each is its term's length in bytes (a little-endian `u32`), the term in
//! UTF-8, its document frequency and its postings offset (both
//! little-endian `u32`).

use vstd::prelude::*;
use vstd::utf8::{decode_utf8, valid_utf8};
use crate::metadata::{le_u32, read_u32_le};

verus! {

/// Up to `n` records from `pos` on, and where reading stopped: it stops
/// early where fewer than four bytes are left; `None` where a record is cut
/// short or its term is not UTF-8.
pub open spec fn spec_dict_records(bytes: Seq<u8>, pos: int, n: nat) -> Option<(Seq<(Seq<char>, u32, u32)>, int)>
    decreases n,
{
    if n == 0 || pos < 0 || pos + 4 > bytes.len() {
        Some((Seq::empty(), pos))
    } else {
        let s = pos + 4;
        let e = s + le_u32(bytes, pos);
        if e + 8 > bytes.len() || !valid_utf8(bytes.subrange(s, e)) {
            None
        } else {
            match spec_dict_records(bytes, e + 8, (n - 1) as nat) {
                None => None,
                Some(r) => Some(
                    (
                        seq![(decode_utf8(bytes.subrange(s, e)), le_u32(bytes, e) as u32, le_u32(bytes, e + 4) as u32)]
                            + r.0,
                        r.1,
                    ),
                ),
            }
        }
    }
}

/// `std::str::from_utf8` on `bytes[start..end]`: the text, exactly when the
/// bytes are valid UTF-8.
#[verifier::external_body]
fn record_term(bytes: &[u8], start: usize, end: usize) -> (res: Option<String>)
    requires
        start <= end <= bytes@.len(),
    ensures
        res is Some <==> valid_utf8(bytes@.subrange(start as int, end as int)),
        res matches Some(s) ==> s@ == decode_utf8(bytes@.subrange(start as int, end as int)),
{
    match std::str::from_utf8(&bytes[start..end]) {
        Ok(s) => Some(s.to_owned()),
        Err(_) => None,
    }
}

/// The records as plain values.
pub open spec fn records_model(v: Seq<(String, u32, u32)>) -> Seq<(Seq<char>, u32, u32)> {
    v.map_values(|r: (String, u32, u32)| (r.0@, r.1, r.2))
}

/// Reads up to `n` dictionary records from `pos` on; gives them and where
/// reading stopped.
pub fn decode_dict_records(bytes: &[u8], pos: usize, n: usize) -> (res: Option<(Vec<(String, u32, u32)>, usize)>)
    ensures
        match res {
            Some((v, end)) => spec_dict_records(bytes@, pos as int, n as nat) == Some((records_model(v@), end as int)),
            None => spec_dict_records(bytes@, pos as int, n as nat) is None,
        },
{
    let mut out: Vec<(String, u32, u32)> = Vec::new();
    let mut p = pos;
    let mut i: usize = 0;
    assert(records_model(out@) =~= Seq::<(Seq<char>, u32, u32)>::empty());
    while i < n
        invariant
            i <= n,
            match spec_dict_records(bytes@, pos as int, n as nat) {
                Some(all) => spec_dict_records(bytes@, p as int, (n - i) as nat) matches Some(rest)
                    && all == (records_model(out@) + rest.0, rest.1),
                None => spec_dict_records(bytes@, p as int, (n - i) as nat) is None,
            },
        decreases n - i,
    {
        if bytes.len() < 4 || p > bytes.len() - 4 {
            proof {
                assert(spec_dict_records(bytes@, p as int, (n - i) as nat) == Some((Seq::<(Seq<char>, u32, u32)>::empty(), p as int)));
                assert(records_model(out@) + Seq::<(Seq<char>, u32, u32)>::empty() =~= records_model(out@));
            }
            return Some((out, p));
        }
        let len = read_u32_le(bytes, p) as usize;
        let s = p + 4;
        if len > bytes.len() - s || 8 > bytes.len() - s - len {
            return None;
        }
        let e = s + len;
        let term = match record_term(bytes, s, e) {
            Some(t) => t,
            None => {
                return None;
            },
        };
        let doc_freq = read_u32_le(bytes, e);
        let pl_offset = read_u32_le(bytes, e + 4);
        let ghost before = records_model(out@);
        let ghost r = (term@, doc_freq, pl_offset);
        out.push((term, doc_freq, pl_offset));
        proof {
            assert(records_model(out@) =~= before.push(r));
            match spec_dict_records(bytes@, (e + 8) as int, (n - i - 1) as nat) {
                Some(rest) => {
                    assert(before + (seq![r] + rest.0) =~= before.push(r) + rest.0);
                },
                None => {},
            }
        }
        p = e + 8;
        i = i + 1;
    }
    proof {
        assert(records_model(out@) + Seq::<(Seq<char>, u32, u32)>::empty() =~= records_model(out@));
    }
    Some((out, p))
}

} // verus!
