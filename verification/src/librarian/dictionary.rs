//! The dictionary of the first-generation indexer: each term gets an id the
//! first time it is seen; at the end the entries are sorted by term and
//! written as a table of postings locations and a front-coded string of
//! terms.

use vstd::prelude::*;
use crate::librarian::varint::{get_var_int, librarian_var_int};
use crate::spimi_writer::{lex_le, lemma_lex_total, lemma_lex_trans, string_le};
use crate::text::str_chars;
use crate::miner::extend_bytes;
use vstd::utf8::{decode_utf8, encode_utf8, is_char_boundary};
use vstd::string::StringSliceAdditionalSpecFns;

verus! {

/// What the dictionary knows of a term.
#[derive(Clone, Copy, PartialEq, Eq, Structural, Debug)]
pub struct DictionaryEntry {
    pub assigned_id: u32,
    pub doc_freq: u32,
    pub postings_file_name: u32,
    pub postings_file_offset: u16,
}

/// The terms with their entries in the order they were first added (a term's
/// id is its position), the terms by id, the next id to hand out, and the
/// entries sorted by term for writing.
pub struct Dictionary {
    pub entries: Vec<(String, DictionaryEntry)>,
    pub id_to_term_map: Vec<String>,
    pub next_term_id: u32,
    pub sorted_entries_by_term: Vec<(String, DictionaryEntry)>,
}

/// The term-to-entry part of a dictionary as plain values.
pub struct DictionaryView {
    pub entries: Seq<(Seq<char>, DictionaryEntry)>,
    pub id_to_term: Seq<Seq<char>>,
    pub next_term_id: u32,
}

pub open spec fn entries_view(v: Seq<(String, DictionaryEntry)>) -> Seq<(Seq<char>, DictionaryEntry)> {
    v.map_values(|e: (String, DictionaryEntry)| (e.0@, e.1))
}

pub open spec fn strings_view(v: Seq<String>) -> Seq<Seq<char>> {
    v.map_values(|s: String| s@)
}

impl View for Dictionary {
    type V = DictionaryView;

    open spec fn view(&self) -> DictionaryView {
        DictionaryView {
            entries: entries_view(self.entries@),
            id_to_term: strings_view(self.id_to_term_map@),
            next_term_id: self.next_term_id,
        }
    }
}

/// The position of `t` among the entries, if it is there.
pub open spec fn find_entry(entries: Seq<(Seq<char>, DictionaryEntry)>, t: Seq<char>) -> Option<int>
    decreases entries.len(),
{
    if entries.len() == 0 {
        None
    } else {
        match find_entry(entries.drop_last(), t) {
            Some(k) => Some(k),
            None => if entries.last().0 == t {
                Some(entries.len() - 1)
            } else {
                None
            },
        }
    }
}

/// The entry a term gets when it is first added.
pub open spec fn new_entry(id: u32) -> DictionaryEntry {
    DictionaryEntry { assigned_id: id, doc_freq: 0, postings_file_name: 0, postings_file_offset: 0 }
}

impl DictionaryView {
    /// Terms occur once; each entry's id is its position, and the id map
    /// gives each position's term back.
    pub open spec fn wf(self) -> bool {
        &&& self.entries.len() == self.id_to_term.len() == self.next_term_id
        &&& forall|i: int, j: int|
            0 <= i < j < self.entries.len() ==> (#[trigger] self.entries[i]).0 != (#[trigger] self.entries[j]).0
        &&& forall|i: int|
            0 <= i < self.entries.len() ==> (#[trigger] self.entries[i]).1.assigned_id == i
                && self.id_to_term[i] == self.entries[i].0
    }

    /// The id of `t`, if it has one.
    pub open spec fn term_id(self, t: Seq<char>) -> Option<u32> {
        match find_entry(self.entries, t) {
            Some(k) => Some(self.entries[k].1.assigned_id),
            None => None,
        }
    }

    /// The dictionary after adding `t`: unchanged if it holds `t`, else with
    /// `t` at the end under the next id.
    pub open spec fn add(self, t: Seq<char>) -> DictionaryView {
        match find_entry(self.entries, t) {
            Some(_) => self,
            None => DictionaryView {
                entries: self.entries.push((t, new_entry(self.next_term_id))),
                id_to_term: self.id_to_term.push(t),
                next_term_id: (self.next_term_id + 1) as u32,
            },
        }
    }
}

proof fn lemma_find_entry(entries: Seq<(Seq<char>, DictionaryEntry)>, t: Seq<char>)
    ensures
        match find_entry(entries, t) {
            Some(k) => 0 <= k < entries.len() && entries[k].0 == t && forall|i: int|
                0 <= i < k ==> (#[trigger] entries[i]).0 != t,
            None => forall|i: int| 0 <= i < entries.len() ==> (#[trigger] entries[i]).0 != t,
        },
    decreases entries.len(),
{
    if entries.len() > 0 {
        lemma_find_entry(entries.drop_last(), t);
        match find_entry(entries.drop_last(), t) {
            Some(k) => {
                assert forall|i: int| 0 <= i < k implies (#[trigger] entries[i]).0 != t by {
                    assert(entries[i] == entries.drop_last()[i]);
                }
                assert(entries[k] == entries.drop_last()[k]);
            },
            None => {
                assert forall|i: int| 0 <= i < entries.len() - 1 implies (#[trigger] entries[i]).0 != t by {
                    assert(entries[i] == entries.drop_last()[i]);
                }
            },
        }
    }
}

proof fn lemma_find_push(entries: Seq<(Seq<char>, DictionaryEntry)>, e: (Seq<char>, DictionaryEntry), t: Seq<char>)
    requires
        find_entry(entries, t) is Some,
    ensures
        find_entry(entries.push(e), t) == find_entry(entries, t),
{
    assert(entries.push(e).drop_last() =~= entries);
}

/// Adding a term that the dictionary holds changes nothing; adding one it
/// does not hold appends it under the next id. Either way the result is
/// well formed, and the term's id leads back to it.
pub proof fn law_add_term(d: DictionaryView, t: Seq<char>)
    requires
        d.wf(),
        find_entry(d.entries, t) is None ==> d.next_term_id < u32::MAX,
    ensures
        d.add(t).wf(),
        d.add(t).term_id(t) == Some(
            match find_entry(d.entries, t) {
                Some(k) => k as u32,
                None => d.next_term_id,
            },
        ),
        d.add(t).id_to_term[d.add(t).term_id(t)->0 as int] == t,
        d.add(t).add(t) == d.add(t),
        forall|u: Seq<char>| #[trigger] d.term_id(u) is Some ==> d.add(t).term_id(u) == d.term_id(u),
{
    lemma_find_entry(d.entries, t);
    let a = d.add(t);
    match find_entry(d.entries, t) {
        Some(k) => {},
        None => {
            let e = (t, new_entry(d.next_term_id));
            assert(a.entries.drop_last() =~= d.entries);
            assert(find_entry(a.entries, t) == Some(a.entries.len() - 1));
            assert forall|u: Seq<char>| #[trigger] d.term_id(u) is Some implies a.term_id(u) == d.term_id(u) by {
                lemma_find_push(d.entries, e, u);
                lemma_find_entry(d.entries, u);
                let k = find_entry(d.entries, u)->0;
                assert(a.entries[k] == d.entries[k]);
            }
        },
    }
    lemma_find_entry(a.entries, t);
}

/// The entries as plain values are in ascending term order.
pub open spec fn sorted_by_term(v: Seq<(Seq<char>, DictionaryEntry)>) -> bool {
    forall|i: int, j: int| 0 <= i <= j < v.len() ==> lex_le((#[trigger] v[i]).0, (#[trigger] v[j]).0)
}

/// The dictionary table: per entry, in order, the distance of its postings
/// file from the previous entry's as a byte, its document frequency and its
/// postings file offset in little-endian order.
pub open spec fn dict_table(entries: Seq<DictionaryEntry>, prev: u32) -> Seq<u8>
    decreases entries.len(),
{
    if entries.len() == 0 {
        Seq::empty()
    } else {
        let e = entries[0];
        seq![(e.postings_file_name - prev) as u8] + librarian_var_int(e.doc_freq as nat) + seq![
            (e.postings_file_offset % 256) as u8,
            (e.postings_file_offset / 256) as u8,
        ] + dict_table(entries.drop_first(), e.postings_file_name)
    }
}

/// Each entry's postings file lies at most 255 files after the previous
/// entry's (the first entry's after file 0).
pub open spec fn table_steps_fit(entries: Seq<DictionaryEntry>, prev: u32) -> bool
    decreases entries.len(),
{
    entries.len() == 0 || (prev <= entries[0].postings_file_name <= prev + 255 && table_steps_fit(
        entries.drop_first(),
        entries[0].postings_file_name,
    ))
}

pub open spec fn entry_values(v: Seq<(String, DictionaryEntry)>) -> Seq<DictionaryEntry> {
    v.map_values(|e: (String, DictionaryEntry)| e.1)
}

/// Marks that the terms after a term share a prefix with it.
pub const PREFIX_FRONT_CODE: u8 = 123;

/// Marks a term written after the prefix it shares.
pub const SUBSEQUENT_FRONT_CODE: u8 = 125;

/// The prefix length that the term comparison finds, counting from `len`:
/// it counts equal leading characters of `c1` and `c2` while the count stays
/// below both byte lengths `b1` and `b2`; `None` where the count runs past
/// the characters of either while staying below both byte lengths.
pub open spec fn common_prefix_count(c1: Seq<char>, c2: Seq<char>, b1: int, b2: int, len: int) -> Option<int>
    decreases b1 - len,
{
    if len < b1 && len < b2 {
        if 0 <= len < c1.len() && len < c2.len() {
            if c1[len] == c2[len] {
                common_prefix_count(c1, c2, b1, b2, len + 1)
            } else {
                Some(len)
            }
        } else {
            None
        }
    } else {
        Some(len)
    }
}

/// The prefix, as bytes, shared by the terms written after the term whose
/// scan starts with prefix `cb`, and how many terms from `j` on share it;
/// `None` where the scan fails. A term shares the prefix when it agrees with
/// it on more than two leading characters and on all of it, or on all but
/// its last byte, which is then dropped from the prefix.
pub open spec fn front_code_scan(ts: Seq<Seq<char>>, cb: Seq<u8>, j: int, count: nat) -> Option<(Seq<u8>, nat)>
    decreases ts.len() - j,
{
    if j < 0 || j >= ts.len() {
        Some((cb, count))
    } else {
        match common_prefix_count(decode_utf8(cb), ts[j], cb.len() as int, encode_utf8(ts[j]).len() as int, 0) {
            None => None,
            Some(cpl) => if cpl <= 2 {
                Some((cb, count))
            } else if cpl < cb.len() {
                if cpl == cb.len() - 1 {
                    if is_char_boundary(cb, cpl) {
                        front_code_scan(ts, cb.subrange(0, cpl), j + 1, count + 1)
                    } else {
                        None
                    }
                } else {
                    Some((cb, count))
                }
            } else {
                front_code_scan(ts, cb, j + 1, count + 1)
            },
        }
    }
}

/// The `c` terms from `k` on, each as its length past the shared prefix of
/// `l` bytes, the subsequent-term mark and its bytes past the prefix.
pub open spec fn follower_bytes(ts: Seq<Seq<char>>, k: int, c: nat, l: int) -> Option<Seq<u8>>
    decreases c,
{
    if c == 0 {
        Some(Seq::empty())
    } else {
        let b = encode_utf8(ts[k]);
        if b.len() < l || b.len() - l > 255 {
            None
        } else {
            match follower_bytes(ts, k + 1, (c - 1) as nat, l) {
                None => None,
                Some(rest) => Some(seq![(b.len() - l) as u8, SUBSEQUENT_FRONT_CODE] + b.subrange(l, b.len() as int) + rest),
            }
        }
    }
}

/// What is written for the `i`-th term: its byte length, the prefix it
/// shares with the terms after it, the prefix mark and its remaining bytes
/// where it shares the prefix with any, then those terms.
pub open spec fn head_bytes(ts: Seq<Seq<char>>, i: int) -> Option<Seq<u8>> {
    let tb = encode_utf8(ts[i]);
    match front_code_scan(ts, tb, i + 1, 0) {
        None => None,
        Some(scan) => {
            let cb = scan.0;
            let c = scan.1;
            if tb.len() > 255 {
                None
            } else {
                match follower_bytes(ts, i + 1, c, cb.len() as int) {
                    None => None,
                    Some(fb) => Some(
                        seq![tb.len() as u8] + cb + (if c > 0 {
                            seq![PREFIX_FRONT_CODE] + tb.subrange(cb.len() as int, tb.len() as int)
                        } else {
                            Seq::empty()
                        }) + fb,
                    ),
                }
            }
        },
    }
}

/// The dictionary string of the first `m` terms: what is written for each,
/// one after the other.
pub open spec fn daas_bytes(ts: Seq<Seq<char>>, m: nat) -> Option<Seq<u8>>
    decreases m,
{
    if m == 0 {
        Some(Seq::empty())
    } else {
        match daas_bytes(ts, (m - 1) as nat) {
            None => None,
            Some(before) => match head_bytes(ts, m - 1) {
                None => None,
                Some(h) => Some(before + h),
            },
        }
    }
}

proof fn lemma_daas_prefix(ts: Seq<Seq<char>>, m: nat, k: nat)
    requires
        daas_bytes(ts, m) is Some,
        k <= m,
    ensures
        daas_bytes(ts, k) is Some,
        k < m ==> head_bytes(ts, k as int) is Some,
    decreases m,
{
    if k < m {
        if k + 1 == m {
        } else {
            lemma_daas_prefix(ts, (m - 1) as nat, k);
        }
    }
}

proof fn lemma_scan_mono(ts: Seq<Seq<char>>, cb: Seq<u8>, j: int, count: nat)
    requires
        front_code_scan(ts, cb, j, count) is Some,
    ensures
        ({
            let r = front_code_scan(ts, cb, j, count)->0;
            r.1 >= count && (j >= 0 ==> j + (r.1 - count) <= if j <= ts.len() { ts.len() as int } else { j })
        }),
    decreases ts.len() - j,
{
    if 0 <= j < ts.len() {
        match common_prefix_count(decode_utf8(cb), ts[j], cb.len() as int, encode_utf8(ts[j]).len() as int, 0) {
            None => {},
            Some(cpl) => if cpl <= 2 {
            } else if cpl < cb.len() {
                if cpl == cb.len() - 1 && is_char_boundary(cb, cpl) {
                    lemma_scan_mono(ts, cb.subrange(0, cpl), j + 1, count + 1);
                }
            } else {
                lemma_scan_mono(ts, cb, j + 1, count + 1);
            },
        }
    }
}

pub open spec fn sorted_terms(v: Seq<(String, DictionaryEntry)>) -> Seq<Seq<char>> {
    v.map_values(|e: (String, DictionaryEntry)| e.0@)
}

/// Appends `b[from..to]` to `out`.
fn extend_range(out: &mut Vec<u8>, b: &[u8], from: usize, to: usize)
    requires
        from <= to <= b@.len(),
    ensures
        final(out)@ == old(out)@ + b@.subrange(from as int, to as int),
{
    let mut i = from;
    while i < to
        invariant
            from <= i <= to <= b@.len(),
            out@ == old(out)@ + b@.subrange(from as int, i as int),
        decreases to - i,
    {
        out.push(b[i]);
        i = i + 1;
        assert(out@ =~= old(out)@ + b@.subrange(from as int, i as int));
    }
}

impl Dictionary {
    /// An empty dictionary.
    pub fn new() -> (d: Dictionary)
        ensures
            d@.wf(),
            d@.entries.len() == 0,
            d.sorted_entries_by_term@.len() == 0,
    {
        Dictionary {
            entries: Vec::new(),
            id_to_term_map: Vec::new(),
            next_term_id: 0,
            sorted_entries_by_term: Vec::new(),
        }
    }

    /// The id of `term`, given it the first time the term is added.
    pub fn add_term(&mut self, term: String) -> (id: u32)
        requires
            old(self)@.wf(),
            find_entry(old(self)@.entries, term@) is None ==> old(self).next_term_id < u32::MAX,
        ensures
            final(self)@ == old(self)@.add(term@),
            final(self)@.term_id(term@) == Some(id),
            final(self).sorted_entries_by_term@ == old(self).sorted_entries_by_term@,
    {
        proof {
            lemma_find_entry(self@.entries, term@);
            law_add_term(self@, term@);
        }
        let mut i: usize = 0;
        while i < self.entries.len()
            invariant
                i <= self.entries@.len(),
                forall|k: int| 0 <= k < i ==> (#[trigger] self.entries@[k]).0@ != term@,
            decreases self.entries@.len() - i,
        {
            if self.entries[i].0 == term {
                proof {
                    assert(self@.entries[i as int].0 == term@);
                    lemma_find_entry(self@.entries, term@);
                    if find_entry(self@.entries, term@) != Some(i as int) {
                        let k = find_entry(self@.entries, term@)->0;
                        assert(self@.entries[k].0 == self.entries@[k].0@);
                    }
                }
                return self.entries[i].1.assigned_id;
            }
            i = i + 1;
        }
        proof {
            assert forall|k: int| 0 <= k < self@.entries.len() implies (#[trigger] self@.entries[k]).0 != term@ by {
                assert(self@.entries[k].0 == self.entries@[k].0@);
            }
            if find_entry(self@.entries, term@) is Some {
                let k = find_entry(self@.entries, term@)->0;
                assert(self@.entries[k].0 == term@);
            }
        }
        let id = self.next_term_id;
        let entry = DictionaryEntry { assigned_id: id, doc_freq: 0, postings_file_name: 0, postings_file_offset: 0 };
        let ghost old_view = self@;
        self.id_to_term_map.push(term.clone());
        self.entries.push((term, entry));
        self.next_term_id = id + 1;
        proof {
            assert(self@.entries =~= old_view.entries.push((term@, new_entry(id))));
            assert(self@.id_to_term =~= old_view.id_to_term.push(term@));
        }
        id
    }

    /// Fills `sorted_entries_by_term` with the entries in ascending term
    /// order.
    pub fn sort_entries_by_term(&mut self)
        requires
            old(self)@.wf(),
        ensures
            final(self)@ == old(self)@,
            sorted_by_term(entries_view(final(self).sorted_entries_by_term@)),
            entries_view(final(self).sorted_entries_by_term@).to_multiset() == old(self)@.entries.to_multiset(),
    {
        let mut out: Vec<(String, DictionaryEntry)> = Vec::new();
        let ghost mut done: Seq<(Seq<char>, DictionaryEntry)> = Seq::empty();
        let mut r: usize = 0;
        proof {
            assert(entries_view(out@) =~= Seq::<(Seq<char>, DictionaryEntry)>::empty());
            assert(self@.entries.subrange(0, 0) =~= done);
        }
        while r < self.entries.len()
            invariant
                r <= self.entries@.len(),
                done == self@.entries.subrange(0, r as int),
                sorted_by_term(entries_view(out@)),
                entries_view(out@).to_multiset() == done.to_multiset(),
            decreases self.entries@.len() - r,
        {
            let e = (self.entries[r].0.clone(), self.entries[r].1);
            let ghost ev = (e.0@, e.1);
            proof {
                assert(ev == self@.entries[r as int]);
                assert(self@.entries.subrange(0, r + 1) =~= done.push(ev));
                vstd::seq_lib::to_multiset_build(done, ev);
                done = done.push(ev);
            }
            let mut p: usize = 0;
            while p < out.len() && string_le(&out[p].0, &e.0)
                invariant
                    p <= out@.len(),
                    forall|x: int| 0 <= x < p ==> lex_le((#[trigger] out@[x]).0@, e.0@),
                decreases out@.len() - p,
            {
                p = p + 1;
            }
            let ghost ob = out@;
            proof {
                if p < ob.len() {
                    lemma_lex_total(ob[p as int].0@, e.0@);
                    assert forall|x: int| p <= x < ob.len() implies lex_le(e.0@, (#[trigger] ob[x]).0@) by {
                        assert(lex_le(entries_view(ob)[p as int].0, entries_view(ob)[x].0));
                        lemma_lex_trans(e.0@, ob[p as int].0@, ob[x].0@);
                    }
                }
            }
            out.insert(p, e);
            proof {
                let vo = entries_view(out@);
                let vb = entries_view(ob);
                assert(vo =~= vb.insert(p as int, ev));
                assert forall|i: int, j: int| 0 <= i <= j < vo.len() implies lex_le((#[trigger] vo[i]).0, (#[trigger] vo[j]).0) by {
                    if i < p && j == p {
                        assert(vo[i] == vb[i]);
                    } else if i < p && j > p {
                        assert(vo[i] == vb[i] && vo[j] == vb[j - 1]);
                    } else if i == p && j > p {
                        assert(vo[j] == vb[j - 1]);
                    } else if i > p {
                        assert(vo[i] == vb[i - 1] && vo[j] == vb[j - 1]);
                    } else if i == p && j == p {
                        lemma_lex_total(ev.0, ev.0);
                    } else {
                        assert(vo[i] == vb[i] && vo[j] == vb[j]);
                    }
                }
                vstd::seq_lib::to_multiset_insert(vb, p as int, ev);
            }
            r = r + 1;
        }
        proof {
            assert(done =~= self@.entries);
        }
        self.sorted_entries_by_term = out;
    }

    /// The prefix length that the term comparison finds for `str1` and
    /// `str2`: their equal leading characters, counted while the count stays
    /// below both byte lengths.
    fn get_common_prefix_len(str1: &str, str2: &str) -> (len: usize)
        requires
            str1.spec_bytes().len() <= usize::MAX,
            str2.spec_bytes().len() <= usize::MAX,
            common_prefix_count(str1@, str2@, str1.spec_bytes().len() as int, str2.spec_bytes().len() as int, 0) is Some,
        ensures
            Some(len as int) == common_prefix_count(
                str1@,
                str2@,
                str1.spec_bytes().len() as int,
                str2.spec_bytes().len() as int,
                0,
            ),
    {
        let c1 = str_chars(str1);
        let c2 = str_chars(str2);
        let b1 = str1.len();
        let b2 = str2.len();
        let ghost goal = common_prefix_count(str1@, str2@, b1 as int, b2 as int, 0);
        let mut len: usize = 0;
        while len < b1 && len < b2 && c1[len] == c2[len]
            invariant
                c1@ == str1@,
                c2@ == str2@,
                b1 == str1.spec_bytes().len(),
                b2 == str2.spec_bytes().len(),
                len <= b1,
                goal == common_prefix_count(str1@, str2@, b1 as int, b2 as int, len as int),
                goal is Some,
            decreases b1 - len,
        {
            len = len + 1;
        }
        len
    }

    /// The dictionary string: the sorted terms, front-coded.
    pub fn dump_daas(&self) -> (bytes: Vec<u8>)
        requires
            daas_bytes(sorted_terms(self.sorted_entries_by_term@), self.sorted_entries_by_term@.len()) is Some,
        ensures
            Some(bytes@) == daas_bytes(sorted_terms(self.sorted_entries_by_term@), self.sorted_entries_by_term@.len()),
    {
        let ghost ts = sorted_terms(self.sorted_entries_by_term@);
        let n = self.sorted_entries_by_term.len();
        let mut out: Vec<u8> = Vec::new();
        let mut i: usize = 0;
        while i < n
            invariant
                i <= n == ts.len() == self.sorted_entries_by_term@.len(),
                ts == sorted_terms(self.sorted_entries_by_term@),
                daas_bytes(ts, n as nat) is Some,
                Some(out@) == daas_bytes(ts, i as nat),
            decreases n - i,
        {
            proof {
                lemma_daas_prefix(ts, n as nat, i as nat);
            }
            let term_i: &str = self.sorted_entries_by_term[i].0.as_str();
            let ghost tb = term_i.spec_bytes();
            assert(term_i@ == ts[i as int]);
            let ghost scan = front_code_scan(ts, tb, i + 1, 0);
            assert(tb.subrange(0, tb.len() as int) =~= tb);
            assert(head_bytes(ts, i as int) is Some);
            assert(tb.len() <= 255);
            let mut curr: &str = term_i;
            let mut num: usize = 0;
            let mut j: usize = i + 1;
            loop
                invariant_except_break
                    i < n == ts.len() == self.sorted_entries_by_term@.len(),
                    ts == sorted_terms(self.sorted_entries_by_term@),
                    i + 1 <= j <= n,
                    j == i + 1 + num,
                    daas_bytes(ts, n as nat) is Some,
                    tb.len() <= 255,
                    scan is Some,
                    scan == front_code_scan(ts, curr.spec_bytes(), j as int, num as nat),
                    curr.spec_bytes().len() <= tb.len(),
                    curr.spec_bytes() == tb.subrange(0, curr.spec_bytes().len() as int),
                ensures
                    curr.spec_bytes().len() <= tb.len(),
                    curr.spec_bytes() == tb.subrange(0, curr.spec_bytes().len() as int),
                    j == i + 1 + num,
                    j <= n,
                    scan == Some((curr.spec_bytes(), num as nat)),
                decreases n - j,
            {
                if j >= n {
                    break;
                }
                let term_j: &str = self.sorted_entries_by_term[j].0.as_str();
                let ghost cbb = curr.spec_bytes();
                proof {
                    assert(term_j@ == ts[j as int]);
                    vstd::utf8::encode_utf8_decode_utf8(curr@);
                    lemma_daas_prefix(ts, n as nat, j as nat);
                }
                let cpl = Self::get_common_prefix_len(curr, term_j);
                proof {
                    assert(common_prefix_count(decode_utf8(cbb), ts[j as int], cbb.len() as int, encode_utf8(ts[j as int]).len() as int, 0) == Some(cpl as int));
                }
                if cpl <= 2 {
                    break;
                }
                if cpl < curr.len() {
                    if cpl == curr.len() - 1 {
                        let ghost cb = curr.spec_bytes();
                        curr = curr.split_at(cpl).0;
                        proof {
                            assert(curr.spec_bytes() =~= cb.subrange(0, cpl as int));
                            assert(curr.spec_bytes() =~= tb.subrange(0, cpl as int));
                        }
                    } else {
                        break;
                    }
                }
                num = num + 1;
                j = j + 1;
            }
            let l = curr.len();
            let ghost cb = curr.spec_bytes();
            let ghost c = num as nat;
            let ghost h = head_bytes(ts, i as int);
            let ghost fb = follower_bytes(ts, i + 1, c, l as int)->0;
            let ghost before = out@;
            let ghost target = before + seq![tb.len() as u8] + cb + (if c > 0 {
                seq![PREFIX_FRONT_CODE] + tb.subrange(l as int, tb.len() as int)
            } else {
                Seq::empty()
            }) + fb;
            proof {
                assert(h == Some(target.subrange(before.len() as int, target.len() as int))) by {
                    assert(target.subrange(before.len() as int, target.len() as int) =~= seq![tb.len() as u8] + cb + (if c > 0 {
                        seq![PREFIX_FRONT_CODE] + tb.subrange(l as int, tb.len() as int)
                    } else {
                        Seq::empty()
                    }) + fb);
                }
            }
            let term_bytes = term_i.as_bytes();
            out.push(term_i.len() as u8);
            extend_bytes(&mut out, curr.as_bytes());
            if num > 0 {
                out.push(PREFIX_FRONT_CODE);
                extend_range(&mut out, term_bytes, l, term_i.len());
            }
            proof {
                assert(out@ =~= before + seq![tb.len() as u8] + cb + (if c > 0 {
                    seq![PREFIX_FRONT_CODE] + tb.subrange(l as int, tb.len() as int)
                } else {
                    Seq::empty()
                }));
            }
            let mut k: usize = 1;
            while k <= num
                invariant
                    1 <= k <= num + 1,
                    i + num < n == ts.len() == self.sorted_entries_by_term@.len(),
                    ts == sorted_terms(self.sorted_entries_by_term@),
                    l == cb.len(),
                    l <= 255,
                    c == num,
                    follower_bytes(ts, i + k, (c - (k - 1)) as nat, l as int) is Some,
                    out@ + follower_bytes(ts, i + k, (c - (k - 1)) as nat, l as int)->0 == target,
                decreases num + 1 - k,
            {
                let term_k: &str = self.sorted_entries_by_term[i + k].0.as_str();
                let ghost kb = term_k.spec_bytes();
                let ghost rest = follower_bytes(ts, i + k + 1, (c - k) as nat, l as int);
                proof {
                    assert(term_k@ == ts[i + k]);
                    assert(((c - (k - 1)) as nat - 1) as nat == (c - k) as nat);
                    assert(kb == encode_utf8(ts[i + k]));
                    assert(kb.len() >= l && kb.len() - l <= 255);
                    assert(term_k.len() == kb.len());
                    assert(follower_bytes(ts, i + k, (c - (k - 1)) as nat, l as int) == Some(seq![(kb.len() - l) as u8, SUBSEQUENT_FRONT_CODE] + kb.subrange(l as int, kb.len() as int) + rest->0));
                }
                let ghost before_k = out@;
                out.push((term_k.len() - l) as u8);
                out.push(SUBSEQUENT_FRONT_CODE);
                extend_range(&mut out, term_k.as_bytes(), l, term_k.len());
                k = k + 1;
                proof {
                    assert(i + (k - 1) + 1 == i + k);
                    assert(out@ =~= before_k + (seq![(kb.len() - l) as u8, SUBSEQUENT_FRONT_CODE] + kb.subrange(l as int, kb.len() as int)));
                }
            }
            proof {
                assert(follower_bytes(ts, i + k, 0, l as int) == Some(Seq::<u8>::empty()));
                assert(out@ =~= target);
            }
            i = i + 1;
        }
        out
    }

    /// The dictionary table of the sorted entries.
    pub fn dump_dict_table(&self) -> (table: Vec<u8>)
        requires
            table_steps_fit(entry_values(self.sorted_entries_by_term@), 0),
        ensures
            table@ == dict_table(entry_values(self.sorted_entries_by_term@), 0),
    {
        let ghost all = entry_values(self.sorted_entries_by_term@);
        let mut out: Vec<u8> = Vec::new();
        let mut prev: u32 = 0;
        let mut i: usize = 0;
        proof {
            assert(all.subrange(0, all.len() as int) =~= all);
            assert(out@ + dict_table(all, 0) =~= dict_table(all, 0));
        }
        while i < self.sorted_entries_by_term.len()
            invariant
                i <= all.len() == self.sorted_entries_by_term@.len(),
                all == entry_values(self.sorted_entries_by_term@),
                table_steps_fit(all.subrange(i as int, all.len() as int), prev),
                dict_table(all, 0) == out@ + dict_table(all.subrange(i as int, all.len() as int), prev),
            decreases all.len() - i,
        {
            let e = self.sorted_entries_by_term[i].1;
            let ghost rest = all.subrange(i as int, all.len() as int);
            proof {
                assert(rest[0] == e);
                assert(rest.drop_first() =~= all.subrange(i + 1, all.len() as int));
            }
            let step: u8 = (e.postings_file_name - prev) as u8;
            out.push(step);
            let v = get_var_int(e.doc_freq);
            let mut k: usize = 0;
            let ghost before = out@;
            while k < v.len()
                invariant
                    k <= v@.len(),
                    out@ == before + v@.subrange(0, k as int),
                decreases v@.len() - k,
            {
                out.push(v[k]);
                k = k + 1;
                assert(out@ =~= before + v@.subrange(0, k as int));
            }
            assert(v@.subrange(0, v@.len() as int) =~= v@);
            out.push((e.postings_file_offset % 256) as u8);
            out.push((e.postings_file_offset / 256) as u8);
            proof {
                assert(dict_table(rest, prev) =~= seq![(e.postings_file_name - prev) as u8] + librarian_var_int(
                    e.doc_freq as nat,
                ) + seq![(e.postings_file_offset % 256) as u8, (e.postings_file_offset / 256) as u8]
                    + dict_table(rest.drop_first(), e.postings_file_name));
            }
            prev = e.postings_file_name;
            i = i + 1;
            proof {
                assert(dict_table(all, 0) =~= out@ + dict_table(all.subrange(i as int, all.len() as int), prev));
            }
        }
        proof {
            assert(all.subrange(i as int, all.len() as int) =~= Seq::<DictionaryEntry>::empty());
            assert(out@ =~= out@ + Seq::<u8>::empty());
        }
        out
    }

    /// The two files of the dictionary: the table and the string.
    pub fn dump(&self) -> (files: (Vec<u8>, Vec<u8>))
        requires
            table_steps_fit(entry_values(self.sorted_entries_by_term@), 0),
            daas_bytes(sorted_terms(self.sorted_entries_by_term@), self.sorted_entries_by_term@.len()) is Some,
        ensures
            files.0@ == dict_table(entry_values(self.sorted_entries_by_term@), 0),
            Some(files.1@) == daas_bytes(sorted_terms(self.sorted_entries_by_term@), self.sorted_entries_by_term@.len()),
    {
        (self.dump_dict_table(), self.dump_daas())
    }
}

} // verus!
