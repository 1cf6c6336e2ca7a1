//! The search-side dictionary: terms with their postings list locations.

use vstd::prelude::*;
use crate::spimi_writer::{lex_le, lemma_lex_total, lemma_lex_trans, string_le};
use crate::text::str_chars;

verus! {

/// Where the postings list of a term lives, and how many documents hold it.
#[derive(Clone, Copy, PartialEq, Eq, Structural, Debug)]
pub struct TermInfo {
    pub doc_freq: u32,
    pub postings_file_name: u32,
    pub postings_file_offset: u32,
}

/// The terms of an index, in ascending term order, each with its information.
///
/// A `Vec` sorted by term stands for an ordered map keyed by the term: the
/// order is stated (see `dict_sorted`), and a range of terms after a prefix
/// is a stretch of the vector.
pub struct Dictionary {
    pub term_infos: Vec<(String, TermInfo)>,
}

/// The position of the first entry whose term is `term`, if any.
pub open spec fn find_term(entries: Seq<(String, TermInfo)>, term: Seq<char>) -> Option<int>
    decreases entries.len(),
{
    if entries.len() == 0 {
        None
    } else if entries[0].0@ == term {
        Some(0)
    } else {
        match find_term(entries.drop_first(), term) {
            Some(i) => Some(i + 1),
            None => None,
        }
    }
}

impl Dictionary {
    /// The information of `term`, if the dictionary holds it.
    pub open spec fn spec_term_info(&self, term: Seq<char>) -> Option<TermInfo> {
        match find_term(self.term_infos@, term) {
            Some(i) => Some(self.term_infos@[i].1),
            None => None,
        }
    }

    /// Looks `term` up.
    pub fn get_term_info(&self, term: &String) -> (res: Option<TermInfo>)
        ensures
            res == self.spec_term_info(term@),
    {
        let mut i: usize = 0;
        assert(self.term_infos@.subrange(0, self.term_infos@.len() as int) =~= self.term_infos@);
        while i < self.term_infos.len()
            invariant
                i <= self.term_infos@.len(),
                find_term(self.term_infos@, term@) == (match find_term(self.term_infos@.subrange(i as int, self.term_infos@.len() as int), term@) {
                    Some(j) => Some(j + i),
                    None => None::<int>,
                }),
            decreases self.term_infos@.len() - i,
        {
            let ghost rest = self.term_infos@.subrange(i as int, self.term_infos@.len() as int);
            assert(rest.drop_first() =~= self.term_infos@.subrange(i + 1, self.term_infos@.len() as int));
            if self.term_infos[i].0 == *term {
                assert(rest[0] == self.term_infos@[i as int]);
                return Some(self.term_infos[i].1);
            }
            assert(rest[0] == self.term_infos@[i as int]);
            i = i + 1;
        }
        None
    }
}

/// `s` begins with `p`.
pub open spec fn starts_with(s: Seq<char>, p: Seq<char>) -> bool {
    p.len() <= s.len() && s.subrange(0, p.len() as int) == p
}

/// The terms are in strictly ascending order.
pub open spec fn dict_sorted(entries: Seq<(String, TermInfo)>) -> bool {
    forall|i: int, j: int|
        0 <= i < j < entries.len() ==> lex_le((#[trigger] entries[i]).0@, (#[trigger] entries[j]).0@)
            && entries[i].0@ != entries[j].0@
}

/// The entries, in order, whose terms begin with `p` and are longer than it.
pub open spec fn prefix_matches(entries: Seq<(String, TermInfo)>, p: Seq<char>) -> Seq<(String, TermInfo)>
    decreases entries.len(),
{
    if entries.len() == 0 {
        Seq::empty()
    } else {
        let rest = prefix_matches(entries.drop_last(), p);
        let e = entries.last();
        if starts_with(e.0@, p) && e.0@ != p {
            rest.push(e)
        } else {
            rest
        }
    }
}

/// `|a - b|`.
pub open spec fn abs_diff(a: u32, b: u32) -> u32 {
    if a >= b {
        (a - b) as u32
    } else {
        (b - a) as u32
    }
}

/// A term found for a prefix, with how far its document frequency lies from
/// the prefix's and whether it is a stop word.
pub struct TermWeightPair {
    pub term: String,
    pub doc_freq_diff: u32,
    pub is_stop_word: bool,
}

/// A term found for a prefix as a triple of plain values.
pub type WeightedTerm = (Seq<char>, u32, bool);

pub open spec fn weighted_terms(v: Seq<TermWeightPair>) -> Seq<WeightedTerm> {
    v.map_values(|w: TermWeightPair| (w.term@, w.doc_freq_diff, w.is_stop_word))
}

/// `a` comes at or before `b` among the terms found for a prefix: terms that
/// are not stop words first, then by closeness of document frequency, then by
/// term.
pub open spec fn weight_le(a: WeightedTerm, b: WeightedTerm) -> bool {
    (!a.2 && b.2) || (a.2 == b.2 && (a.1 < b.1 || (a.1 == b.1 && lex_le(a.0, b.0))))
}

pub open spec fn weights_sorted(v: Seq<WeightedTerm>) -> bool {
    forall|i: int, j: int| 0 <= i < j < v.len() ==> weight_le(#[trigger] v[i], #[trigger] v[j])
}

/// The document frequency that terms found for `prefix` are compared with:
/// the prefix's own, or `u32::MAX` when it is no term of the dictionary.
pub open spec fn prefix_doc_freq(d: &Dictionary, prefix: Seq<char>) -> u32 {
    match d.spec_term_info(prefix) {
        Some(info) => info.doc_freq,
        None => u32::MAX,
    }
}

/// The entries found for a prefix as weighted terms, given whether each is a
/// stop word.
pub open spec fn candidates(m: Seq<(String, TermInfo)>, pdf: u32, stop: Seq<bool>) -> Seq<WeightedTerm> {
    Seq::new(m.len(), |i: int| (m[i].0@, abs_diff(m[i].1.doc_freq, pdf), stop[i]))
}

pub(crate) proof fn lemma_lex_refl(a: Seq<char>)
    ensures
        lex_le(a, a),
    decreases a.len(),
{
    if a.len() > 0 {
        lemma_lex_refl(a.drop_first());
    }
}

pub(crate) proof fn lemma_lex_antisym(a: Seq<char>, b: Seq<char>)
    requires
        lex_le(a, b),
        lex_le(b, a),
    ensures
        a == b,
    decreases a.len(),
{
    if a.len() > 0 && b.len() > 0 {
        lemma_lex_antisym(a.drop_first(), b.drop_first());
        assert(a =~= seq![a[0]] + a.drop_first());
        assert(b =~= seq![b[0]] + b.drop_first());
    } else {
        assert(a =~= b);
    }
}

proof fn lemma_starts_with_step(s: Seq<char>, p: Seq<char>)
    requires
        s.len() > 0,
        p.len() > 0,
    ensures
        starts_with(s, p) <==> (s[0] == p[0] && starts_with(s.drop_first(), p.drop_first())),
{
    if starts_with(s, p) {
        assert(s.subrange(0, p.len() as int)[0] == s[0]);
        assert(s.drop_first().subrange(0, p.drop_first().len() as int) =~= p.drop_first()) by {
            assert forall|k: int| 0 <= k < p.len() - 1 implies s.drop_first()[k] == p.drop_first()[k] by {
                assert(s.subrange(0, p.len() as int)[k + 1] == s[k + 1]);
            }
        }
    }
    if s[0] == p[0] && starts_with(s.drop_first(), p.drop_first()) {
        assert(s.subrange(0, p.len() as int) =~= p) by {
            assert forall|k: int| 0 <= k < p.len() implies s.subrange(0, p.len() as int)[k] == p[k] by {
                if k > 0 {
                    assert(s.drop_first().subrange(0, p.drop_first().len() as int)[k - 1] == s[k]);
                }
            }
        }
    }
}

/// A term that begins with `p` comes at or after `p`.
proof fn lemma_starts_with_after(s: Seq<char>, p: Seq<char>)
    requires
        starts_with(s, p),
    ensures
        lex_le(p, s),
    decreases p.len(),
{
    if p.len() > 0 {
        lemma_starts_with_step(s, p);
        lemma_starts_with_after(s.drop_first(), p.drop_first());
    }
}

/// Past the first term after `p` that does not begin with `p`, no term
/// begins with `p`.
proof fn lemma_no_later_match(a: Seq<char>, b: Seq<char>, p: Seq<char>)
    requires
        !lex_le(a, p),
        !starts_with(a, p),
        lex_le(a, b),
    ensures
        !starts_with(b, p),
    decreases p.len(),
{
    if p.len() == 0 {
        assert(a.subrange(0, 0) =~= p);
    } else if a.len() > 0 {
        lemma_starts_with_step(a, p);
        if b.len() > 0 {
            lemma_starts_with_step(b, p);
            if a[0] == p[0] && b[0] == a[0] {
                lemma_no_later_match(a.drop_first(), b.drop_first(), p.drop_first());
            }
        }
    }
}

/// Sorts the terms found for a prefix by `weight_le`, keeping exactly the
/// terms; they arrive in strictly ascending term order.
fn sort_by_weight(v: Vec<TermWeightPair>) -> (res: Vec<TermWeightPair>)
    requires
        forall|i: int, j: int|
            0 <= i < j < v@.len() ==> lex_le((#[trigger] v@[i]).term@, (#[trigger] v@[j]).term@),
    ensures
        weights_sorted(weighted_terms(res@)),
        weighted_terms(res@).to_multiset() == weighted_terms(v@).to_multiset(),
{
    let ghost orig = v@;
    let mut rest = v;
    let mut out: Vec<TermWeightPair> = Vec::new();
    let ghost mut done: Seq<TermWeightPair> = Seq::empty();
    while rest.len() > 0
        invariant
            orig == done + rest@,
            forall|i: int, j: int|
                0 <= i < j < orig.len() ==> lex_le((#[trigger] orig[i]).term@, (#[trigger] orig[j]).term@),
            weights_sorted(weighted_terms(out@)),
            weighted_terms(out@).to_multiset() == weighted_terms(done).to_multiset(),
            forall|x: int| 0 <= x < out@.len() ==> exists|k: int| 0 <= k < done.len()
                && (#[trigger] out@[x]).term@ == orig[k].term@,
        decreases rest@.len(),
    {
        let ghost before = rest@;
        let ghost n0 = done.len() as int;
        let e = rest.remove(0);
        proof {
            assert(before =~= seq![e] + rest@);
            assert(orig =~= done.push(e) + rest@);
            assert(orig[n0] == e);
            assert(weighted_terms(done.push(e)) =~= weighted_terms(done).push((e.term@, e.doc_freq_diff, e.is_stop_word)));
            vstd::seq_lib::to_multiset_build(weighted_terms(done), (e.term@, e.doc_freq_diff, e.is_stop_word));
            done = done.push(e);
        }
        let ghost we: WeightedTerm = (e.term@, e.doc_freq_diff, e.is_stop_word);
        let mut p: usize = 0;
        while p < out.len() && !((!e.is_stop_word && out[p].is_stop_word) || (e.is_stop_word == out[p].is_stop_word
            && e.doc_freq_diff < out[p].doc_freq_diff))
            invariant
                p <= out@.len(),
                we == (e.term@, e.doc_freq_diff, e.is_stop_word),
                forall|x: int| 0 <= x < p ==> {
                    let o = (#[trigger] out@[x]);
                    (!o.is_stop_word && e.is_stop_word) || (o.is_stop_word == e.is_stop_word
                        && o.doc_freq_diff <= e.doc_freq_diff)
                },
            decreases out@.len() - p,
        {
            p = p + 1;
        }
        let ghost ob = out@;
        proof {
            assert forall|x: int| 0 <= x < ob.len() implies lex_le((#[trigger] ob[x]).term@, e.term@) by {
                let k = choose|k: int| 0 <= k < n0 && ob[x].term@ == orig[k].term@;
                assert(lex_le(orig[k].term@, orig[n0].term@));
            }
        }
        out.insert(p, e);
        proof {
            assert(out@ =~= ob.insert(p as int, e));
            let wo = weighted_terms(out@);
            let wb = weighted_terms(ob);
            assert(wo =~= wb.insert(p as int, we));
            assert forall|i: int, j: int| 0 <= i < j < wo.len() implies weight_le(#[trigger] wo[i], #[trigger] wo[j]) by {
                if i < p && j == p {
                    assert(wo[i] == wb[i]);
                    assert(lex_le(ob[i].term@, e.term@));
                } else if i < p && j > p {
                    assert(wo[i] == wb[i] && wo[j] == wb[j - 1]);
                } else if i == p && j > p {
                    assert(wo[j] == wb[j - 1]);
                    if p < ob.len() {
                        assert(wb[p as int] == (ob[p as int].term@, ob[p as int].doc_freq_diff, ob[p as int].is_stop_word));
                        if j - 1 > p {
                            assert(weight_le(wb[p as int], wb[j - 1]));
                        }
                    }
                } else if i > p {
                    assert(wo[i] == wb[i - 1] && wo[j] == wb[j - 1]);
                } else {
                    assert(wo[i] == wb[i] && wo[j] == wb[j]);
                }
            }
            vstd::seq_lib::to_multiset_insert(wb, p as int, we);
            assert forall|x: int| 0 <= x < out@.len() implies exists|k: int| 0 <= k < done.len()
                && (#[trigger] out@[x]).term@ == orig[k].term@ by {
                if x < p {
                    let k = choose|k: int| 0 <= k < n0 && ob[x].term@ == orig[k].term@;
                    assert(out@[x] == ob[x]);
                } else if x == p {
                    assert(out@[x].term@ == orig[n0].term@);
                } else {
                    let k = choose|k: int| 0 <= k < n0 && ob[x - 1].term@ == orig[k].term@;
                    assert(out@[x] == ob[x - 1]);
                }
            }
        }
    }
    assert(done =~= orig);
    out
}

/// Whether `term` begins with the characters `p`.
fn term_starts_with(term: &String, p: &Vec<char>) -> (res: bool)
    ensures
        res == starts_with(term@, p@),
{
    let t = str_chars(term.as_str());
    if t.len() < p.len() {
        return false;
    }
    let mut i: usize = 0;
    while i < p.len()
        invariant
            i <= p@.len() <= t@.len(),
            t@ == term@,
            forall|k: int| 0 <= k < i ==> t@[k] == p@[k],
        decreases p@.len() - i,
    {
        if t[i] != p[i] {
            assert(term@.subrange(0, p@.len() as int)[i as int] == t@[i as int]);
            return false;
        }
        i = i + 1;
    }
    assert(term@.subrange(0, p@.len() as int) =~= p@);
    true
}

/// The entries that extend a prefix are those from the first term after it
/// up to the first term after it that does not begin with it.
proof fn lemma_prefix_matches_range(
    entries: Seq<(String, TermInfo)>,
    p: Seq<char>,
    start: int,
    end: int,
    q: int,
)
    requires
        dict_sorted(entries),
        0 <= start <= end <= entries.len(),
        0 <= q <= entries.len(),
        forall|k: int| 0 <= k < start ==> lex_le((#[trigger] entries[k]).0@, p),
        forall|k: int|
            start <= k < end ==> starts_with((#[trigger] entries[k]).0@, p) && !lex_le(entries[k].0@, p),
        end < entries.len() ==> !starts_with(entries[end].0@, p) && !lex_le(entries[end].0@, p),
    ensures
        prefix_matches(entries.subrange(0, q), p) == entries.subrange(
            if q < start { q } else { start },
            if q < start { q } else if q < end { q } else { end },
        ),
    decreases q,
{
    let sub = entries.subrange(0, q);
    if q == 0 {
        assert(entries.subrange(0, 0) =~= Seq::<(String, TermInfo)>::empty());
    } else {
        lemma_prefix_matches_range(entries, p, start, end, q - 1);
        assert(sub.drop_last() =~= entries.subrange(0, q - 1));
        let e = entries[q - 1];
        assert(sub.last() == e);
        if q - 1 < start {
            if starts_with(e.0@, p) {
                lemma_starts_with_after(e.0@, p);
                lemma_lex_antisym(e.0@, p);
            }
            assert(entries.subrange(q - 1, q - 1) =~= entries.subrange(q, q));
        } else if q - 1 < end {
            lemma_lex_refl(p);
            assert(entries.subrange(start, q - 1).push(e) =~= entries.subrange(start, q));
        } else {
            let a = entries[end];
            if q - 1 > end {
                assert(lex_le(a.0@, e.0@));
                lemma_no_later_match(a.0@, e.0@, p);
            }
        }
    }
}

/// `b` is what `is_stop_word` may return for the term `t`.
pub open spec fn stop_word_answer<F: Fn(&str) -> bool>(is_stop_word: F, t: Seq<char>, b: bool) -> bool {
    exists|s: &str| #[trigger] is_stop_word.ensures((s,), b) && s@ == t
}

/// Looks up terms for prefix search.
pub trait SearchDictionary {
    /// The dictionary's own invariant.
    spec fn well_formed(&self) -> bool;

    /// The terms that extend `prefix`, those that are not stop words first,
    /// then those whose document frequency lies closest to the prefix's.
    fn get_prefix_terms<F>(&self, prefix: &str, is_stop_word: F) -> Vec<TermWeightPair> where
        F: Fn(&str) -> bool,
    requires
        self.well_formed(),
        forall|s: &str| is_stop_word.requires((s,)),
    ;
}

impl SearchDictionary for Dictionary {
    /// The terms are in strictly ascending order.
    open spec fn well_formed(&self) -> bool {
        dict_sorted(self.term_infos@)
    }

    /// The terms after `prefix` in the dictionary that begin with it, each
    /// with the distance of its document frequency from the prefix's
    /// (`u32::MAX` when the prefix is no term) and whether `is_stop_word`
    /// holds of it; ordered so that terms that are not stop words come first,
    /// then by closeness of document frequency, then by term.
    fn get_prefix_terms<F>(&self, prefix: &str, is_stop_word: F) -> (res: Vec<TermWeightPair>) where
        F: Fn(&str) -> bool,
        ensures
            exists|stop: Seq<bool>|
                #![trigger candidates(prefix_matches(self.term_infos@, prefix@), prefix_doc_freq(self, prefix@), stop)]
                {
                    let m = prefix_matches(self.term_infos@, prefix@);
                    &&& stop.len() == m.len()
                    &&& forall|i: int|
                        0 <= i < m.len() ==> stop_word_answer(is_stop_word, (#[trigger] m[i]).0@, stop[i])
                    &&& weighted_terms(res@).to_multiset() == candidates(
                        m,
                        prefix_doc_freq(self, prefix@),
                        stop,
                    ).to_multiset()
                    &&& weights_sorted(weighted_terms(res@))
                },
    {
        let ghost entries = self.term_infos@;
        let prefix_string = prefix.to_owned();
        let pdf: u32 = match self.get_term_info(&prefix_string) {
            Some(info) => info.doc_freq,
            None => u32::MAX,
        };
        let n = self.term_infos.len();
        let mut start: usize = 0;
        while start < n && string_le(&self.term_infos[start].0, &prefix_string)
            invariant
                start <= n == entries.len(),
                entries == self.term_infos@,
                prefix_string@ == prefix@,
                forall|k: int| 0 <= k < start ==> lex_le((#[trigger] entries[k]).0@, prefix@),
            decreases n - start,
        {
            start = start + 1;
        }
        let prefix_chars = str_chars(prefix);
        let mut top_n: Vec<TermWeightPair> = Vec::new();
        let ghost mut stop: Seq<bool> = Seq::empty();
        let mut j: usize = start;
        while j < n && term_starts_with(&self.term_infos[j].0, &prefix_chars)
            invariant
                start <= j <= n == entries.len(),
                entries == self.term_infos@,
                dict_sorted(entries),
                prefix_chars@ == prefix@,
                start < n ==> !lex_le(entries[start as int].0@, prefix@),
                forall|s: &str| is_stop_word.requires((s,)),
                stop.len() == j - start,
                weighted_terms(top_n@) == candidates(entries.subrange(start as int, j as int), pdf, stop),
                forall|i: int| 0 <= i < top_n@.len() ==> (#[trigger] top_n@[i]).term@ == entries[start + i].0@,
                forall|k: int|
                    start <= k < j ==> starts_with((#[trigger] entries[k]).0@, prefix@) && !lex_le(
                        entries[k].0@,
                        prefix@,
                    ),
                forall|i: int|
                    0 <= i < stop.len() ==> stop_word_answer(is_stop_word, (#[trigger] entries[start + i]).0@, stop[i]),
            decreases n - j,
        {
            let term = self.term_infos[j].0.as_str();
            let flag = is_stop_word(term);
            let info = self.term_infos[j].1;
            let diff: u32 = if info.doc_freq >= pdf {
                info.doc_freq - pdf
            } else {
                pdf - info.doc_freq
            };
            let ghost old_top = top_n@;
            top_n.push(TermWeightPair { term: self.term_infos[j].0.clone(), doc_freq_diff: diff, is_stop_word: flag });
            proof {
                if j > start {
                    assert(lex_le(entries[start as int].0@, entries[j as int].0@));
                    if lex_le(entries[j as int].0@, prefix@) {
                        lemma_lex_trans(entries[start as int].0@, entries[j as int].0@, prefix@);
                    }
                }
                let old_stop = stop;
                let ghost_stop = stop.push(flag);
                let wx: WeightedTerm = (entries[j as int].0@, abs_diff(entries[j as int].1.doc_freq, pdf), flag);
                assert(info == entries[j as int].1);
                assert(top_n@.last().term@ == entries[j as int].0@);
                assert(weighted_terms(top_n@) =~= weighted_terms(old_top).push(wx));
                assert(candidates(entries.subrange(start as int, j + 1), pdf, ghost_stop) =~= candidates(
                    entries.subrange(start as int, j as int),
                    pdf,
                    stop,
                ).push(wx));
                assert(entries[start + (j - start)] == entries[j as int]);
                assert(term@ == entries[j as int].0@);
                stop = ghost_stop;
                assert forall|i: int| 0 <= i < stop.len() implies stop_word_answer(is_stop_word, (#[trigger] entries[start + i]).0@, stop[i]) by {
                    if i < old_stop.len() {
                        assert(stop[i] == old_stop[i]);
                    } else {
                        assert(start + i == j);
                        assert(is_stop_word.ensures((term,), stop[i]));
                    }
                }
                assert forall|i: int| 0 <= i < top_n@.len() implies (#[trigger] top_n@[i]).term@ == entries[start + i].0@ by {
                    if i < old_top.len() {
                        assert(top_n@[i] == old_top[i]);
                    }
                }
            }
            j = j + 1;
        }
        proof {
            if j < n {
                assert(!lex_le(entries[j as int].0@, prefix@)) by {
                    if j > start {
                        assert(lex_le(entries[start as int].0@, entries[j as int].0@));
                        if lex_le(entries[j as int].0@, prefix@) {
                            lemma_lex_trans(entries[start as int].0@, entries[j as int].0@, prefix@);
                        }
                    }
                }
            }
            lemma_prefix_matches_range(entries, prefix@, start as int, j as int, n as int);
            assert(entries.subrange(0, n as int) =~= entries);
            assert(pdf == prefix_doc_freq(self, prefix@));
        }
        proof {
            assert forall|a: int, b: int| 0 <= a < b < top_n@.len() implies lex_le(
                (#[trigger] top_n@[a]).term@,
                (#[trigger] top_n@[b]).term@,
            ) by {
                assert(lex_le(entries[start + a].0@, entries[start + b].0@));
            }
        }
        let res = sort_by_weight(top_n);
        proof {
            let m = prefix_matches(entries, prefix@);
            assert(m == entries.subrange(start as int, j as int));
            assert forall|i: int| 0 <= i < m.len() implies stop_word_answer(is_stop_word, (#[trigger] m[i]).0@, stop[i]) by {
                assert(m[i] == entries[start + i]);
            }
            assert(weighted_terms(res@).to_multiset() == candidates(m, prefix_doc_freq(self, prefix@), stop).to_multiset());
        }
        res
    }
}

} // verus!
