//! Spelling correction of query terms: the dictionary term closest to a
//! misspelled term in edit distance, preferring frequent terms.

use vstd::prelude::*;
use crate::dictionary::{Dictionary, TermInfo};
use crate::text::str_chars;

verus! {

/// The smallest of three numbers.
pub open spec fn min3(a: nat, b: nat, c: nat) -> nat {
    if a <= b && a <= c {
        a
    } else if b <= c {
        b
    } else {
        c
    }
}

/// The Levenshtein distance of `a` and `b`: the fewest insertions, deletions
/// and substitutions of characters that turn one into the other.
pub open spec fn levenshtein(a: Seq<char>, b: Seq<char>) -> nat
    decreases a.len() + b.len(),
{
    if a.len() == 0 {
        b.len()
    } else if b.len() == 0 {
        a.len()
    } else {
        min3(
            levenshtein(a.drop_last(), b) + 1,
            levenshtein(a, b.drop_last()) + 1,
            levenshtein(a.drop_last(), b.drop_last()) + if a.last() == b.last() { 0nat } else { 1nat },
        )
    }
}

proof fn lemma_levenshtein_le(a: Seq<char>, b: Seq<char>)
    ensures
        levenshtein(a, b) <= if a.len() >= b.len() { a.len() } else { b.len() },
    decreases a.len() + b.len(),
{
    if a.len() > 0 && b.len() > 0 {
        lemma_levenshtein_le(a.drop_last(), b);
        lemma_levenshtein_le(a, b.drop_last());
        lemma_levenshtein_le(a.drop_last(), b.drop_last());
    }
}

/// The edit distance of `a` and `b`, computed row by row.
pub fn edit_distance(a: &Vec<char>, b: &Vec<char>) -> (res: usize)
    ensures
        res == levenshtein(a@, b@),
{
    let m = b.len();
    let mut row: Vec<usize> = Vec::new();
    row.push(0);
    assert(b@.subrange(0, 0).len() == 0);
    let mut j: usize = 0;
    while j < m
        invariant
            j <= m,
            m == b@.len(),
            row@.len() == j + 1,
            forall|k: int| 0 <= k <= j ==> #[trigger] row@[k] == levenshtein(Seq::<char>::empty(), b@.subrange(0, k)),
        decreases m - j,
    {
        j = j + 1;
        row.push(j);
    }
    let la = a.len();
    let mut i: usize = 0;
    while i < a.len()
        invariant
            i <= a@.len(),
            la == a@.len(),
            m == b@.len(),
            row@.len() == m + 1,
            forall|k: int| 0 <= k <= m ==> #[trigger] row@[k] == levenshtein(a@.subrange(0, i as int), b@.subrange(0, k)),
        decreases a@.len() - i,
    {
        let ghost ai = a@.subrange(0, i as int);
        let ghost ai1 = a@.subrange(0, i + 1);
        assert(ai1.drop_last() =~= ai);
        let mut next: Vec<usize> = Vec::new();
        assert(b@.subrange(0, 0).len() == 0);
        next.push(i + 1);
        let mut k: usize = 0;
        while k < m
            invariant
                k <= m,
                i < a@.len(),
                la == a@.len(),
                m == b@.len(),
                row@.len() == m + 1,
                next@.len() == k + 1,
                ai == a@.subrange(0, i as int),
                ai1 == a@.subrange(0, i + 1),
                ai1.drop_last() == ai,
                forall|x: int| 0 <= x <= m ==> #[trigger] row@[x] == levenshtein(ai, b@.subrange(0, x)),
                forall|x: int| 0 <= x <= k ==> #[trigger] next@[x] == levenshtein(ai1, b@.subrange(0, x)),
            decreases m - k,
        {
            k = k + 1;
            let ghost bk = b@.subrange(0, k as int);
            assert(bk.drop_last() =~= b@.subrange(0, k - 1));
            proof {
                lemma_levenshtein_le(ai1, bk);
            }
            assert(ai1.last() == a@[i as int]);
            assert(bk.last() == b@[k - 1]);
            assert(ai1.len() == i + 1 && bk.len() == k);
            let ghost c1 = levenshtein(ai, bk) + 1;
            let ghost c2 = levenshtein(ai1, bk.drop_last()) + 1;
            let ghost c3 = levenshtein(ai, bk.drop_last()) + if ai1.last() == bk.last() { 0nat } else { 1nat };
            assert(levenshtein(ai1, bk) == min3(c1, c2, c3));
            assert(i + 1 <= usize::MAX);
            assert(levenshtein(ai1, bk) <= usize::MAX);
            assert(row@[k as int] == levenshtein(ai, bk));
            assert(row@[k - 1] == levenshtein(ai, bk.drop_last()));
            assert(next@[k - 1] == levenshtein(ai1, bk.drop_last()));
            let del = row[k].saturating_add(1);
            let ins = next[k - 1].saturating_add(1);
            let sub = row[k - 1].saturating_add(if a[i] == b[k - 1] { 0 } else { 1 });
            let best = if del <= ins && del <= sub {
                del
            } else if ins <= sub {
                ins
            } else {
                sub
            };
            assert(best == levenshtein(ai1, bk));
            next.push(best);
        }
        row = next;
        i = i + 1;
    }
    assert(a@.subrange(0, i as int) =~= a@);
    assert(b@.subrange(0, m as int) =~= b@);
    row[m]
}

/// How many corrections are remembered.
pub const CACHE_SIZE: usize = 8;

/// A string option by its characters.
pub open spec fn opt_view(o: Option<String>) -> Option<Seq<char>> {
    match o {
        Some(s) => Some(s@),
        None => None,
    }
}

/// The largest edit distance a correction may have at first: 1 for terms
/// of up to 4 characters, 2 for up to 8, 3 for longer ones.
pub open spec fn max_edit_distance(n: nat) -> nat {
    if n <= 4 {
        1
    } else if n <= 8 {
        2
    } else {
        3
    }
}

/// How far apart two lengths are.
pub open spec fn len_diff(a: nat, b: nat) -> nat {
    if a >= b {
        (a - b) as nat
    } else {
        (b - a) as nat
    }
}

/// The best term found so far, its document frequency and the edit
/// distance to match or beat.
pub type ScanState = (Option<Seq<char>>, u32, nat);

/// The scan after one dictionary term: a term whose length differs too much
/// is passed over, and so is a rarer term once the distance to beat is 1;
/// otherwise a closer term wins, and at the same distance a more frequent one.
pub open spec fn scan_step(st: ScanState, term: Seq<char>, info: TermInfo, base: Seq<char>) -> ScanState {
    if len_diff(term.len(), base.len()) > st.2 {
        st
    } else if st.2 == 1 && info.doc_freq < st.1 {
        st
    } else {
        let ed = levenshtein(term, base);
        if ed < st.2 {
            (Some(term), info.doc_freq, ed)
        } else if ed == st.2 && info.doc_freq > st.1 {
            (Some(term), info.doc_freq, st.2)
        } else {
            st
        }
    }
}

/// The scan over the dictionary terms, in order.
pub open spec fn scan(entries: Seq<(String, TermInfo)>, base: Seq<char>) -> ScanState
    decreases entries.len(),
{
    if entries.len() == 0 {
        (None, 0, max_edit_distance(base.len()))
    } else {
        scan_step(scan(entries.drop_last(), base), entries.last().0@, entries.last().1, base)
    }
}

/// The correction of `base`: the term the scan ends with, if any.
pub open spec fn best_correction(dict: Dictionary, base: Seq<char>) -> Option<Seq<char>> {
    scan(dict.term_infos@, base).0
}

/// The first remembered correction of `base`.
pub open spec fn find_cached(cache: Seq<(Seq<char>, Option<Seq<char>>)>, base: Seq<char>) -> Option<int> {
    if exists|i: int| 0 <= i < cache.len() && cache[i].0 == base {
        Some(
            choose|i: int|
                0 <= i < cache.len() && cache[i].0 == base && forall|k: int| 0 <= k < i ==> cache[k].0 != base,
        )
    } else {
        None
    }
}

/// Finds corrections for misspelled terms, remembering the last few.
pub struct BestTermCorrector {
    cache: Vec<(String, Option<String>)>,
    cache_idx: usize,
}

impl BestTermCorrector {
    /// Every slot exists and the next one is among them.
    pub closed spec fn wf(&self) -> bool {
        self.cache@.len() == CACHE_SIZE && self.cache_idx < CACHE_SIZE
    }

    /// The remembered terms and their corrections.
    pub closed spec fn cache_view(&self) -> Seq<(Seq<char>, Option<Seq<char>>)> {
        self.cache@.map_values(|e: (String, Option<String>)| (e.0@, opt_view(e.1)))
    }

    /// Where the next correction is remembered.
    pub closed spec fn next_slot(&self) -> nat {
        self.cache_idx as nat
    }

    /// A corrector that remembers nothing yet: every slot holds the empty
    /// term with no correction.
    pub fn new() -> (res: Self)
        ensures
            res.cache_view() == Seq::new(CACHE_SIZE as nat, |i: int| (Seq::<char>::empty(), None::<Seq<char>>)),
            res.next_slot() == 0,
            res.wf(),
    {
        let mut cache: Vec<(String, Option<String>)> = Vec::new();
        let mut i: usize = 0;
        while i < CACHE_SIZE
            invariant
                i <= CACHE_SIZE,
                cache@.len() == i,
                cache@.map_values(|e: (String, Option<String>)| (e.0@, opt_view(e.1))) == Seq::new(
                    i as nat,
                    |x: int| (Seq::<char>::empty(), None::<Seq<char>>),
                ),
            decreases CACHE_SIZE - i,
        {
            let ghost prev = cache@;
            let empty = String::new();
            assert(empty@ =~= Seq::<char>::empty());
            cache.push((empty, None));
            assert(cache@.map_values(|e: (String, Option<String>)| (e.0@, opt_view(e.1))) =~= prev.map_values(
                |e: (String, Option<String>)| (e.0@, opt_view(e.1)),
            ).push((Seq::<char>::empty(), None::<Seq<char>>)));
            i = i + 1;
            assert(Seq::new(i as nat, |x: int| (Seq::<char>::empty(), None::<Seq<char>>)) =~= Seq::new(
                (i - 1) as nat,
                |x: int| (Seq::<char>::empty(), None::<Seq<char>>),
            ).push((Seq::<char>::empty(), None::<Seq<char>>)));
        }
        BestTermCorrector { cache, cache_idx: 0 }
    }
}

fn clone_opt(o: &Option<String>) -> (res: Option<String>)
    ensures
        opt_view(res) == opt_view(*o),
{
    match o {
        Some(s) => Some(s.clone()),
        None => None,
    }
}

/// The scan over the dictionary.
pub(crate) fn scan_dictionary(dict: &Dictionary, base: &Vec<char>) -> (res: Option<String>)
    ensures
        opt_view(res) == best_correction(*dict, base@),
{
    let n = base.len();
    let mut min_edit_distance: usize = if n <= 4 {
        1
    } else if n <= 8 {
        2
    } else {
        3
    };
    let mut max_doc_freq: u32 = 0;
    let mut best: Option<String> = None;
    let mut i: usize = 0;
    let ghost entries = dict.term_infos@;
    assert(entries.subrange(0, 0) =~= Seq::<(String, TermInfo)>::empty());
    while i < dict.term_infos.len()
        invariant
            i <= entries.len(),
            entries == dict.term_infos@,
            n == base@.len(),
            (opt_view(best), max_doc_freq, min_edit_distance as nat) == scan(entries.subrange(0, i as int), base@),
        decreases entries.len() - i,
    {
        let ghost sub = entries.subrange(0, i + 1);
        assert(sub.drop_last() =~= entries.subrange(0, i as int));
        assert(sub.last() == entries[i as int]);
        let term_chars = str_chars(dict.term_infos[i].0.as_str());
        let doc_freq = dict.term_infos[i].1.doc_freq;
        let m = term_chars.len();
        let diff = if m >= n { m - n } else { n - m };
        if diff > min_edit_distance {
        } else if min_edit_distance == 1 && doc_freq < max_doc_freq {
        } else {
            let ed = edit_distance(&term_chars, base);
            if ed < min_edit_distance {
                min_edit_distance = ed;
                max_doc_freq = doc_freq;
                best = Some(dict.term_infos[i].0.clone());
            } else if ed == min_edit_distance && doc_freq > max_doc_freq {
                max_doc_freq = doc_freq;
                best = Some(dict.term_infos[i].0.clone());
            }
        }
        i = i + 1;
    }
    assert(entries.subrange(0, i as int) =~= entries);
    best
}

impl BestTermCorrector {
    /// The correction of `misspelled_term`: the remembered one when the term
    /// was seen among the last corrections, otherwise the best dictionary
    /// term, which is then remembered in place of the oldest.
    pub fn get_best_corrected_term(&mut self, dict: &Dictionary, misspelled_term: &str) -> (res: Option<String>)
        requires
            old(self).wf(),
        ensures
            final(self).wf(),
            match find_cached(old(self).cache_view(), misspelled_term@) {
                Some(i) => {
                    &&& opt_view(res) == old(self).cache_view()[i].1
                    &&& final(self).cache_view() == old(self).cache_view()
                    &&& final(self).next_slot() == old(self).next_slot()
                },
                None => {
                    &&& opt_view(res) == best_correction(*dict, misspelled_term@)
                    &&& final(self).cache_view() == old(self).cache_view().update(
                        old(self).next_slot() as int,
                        (misspelled_term@, opt_view(res)),
                    )
                    &&& final(self).next_slot() == (old(self).next_slot() + 1) % (CACHE_SIZE as nat)
                },
            },
    {
        let ghost cv = self.cache_view();
        let term: String = misspelled_term.to_owned();
        let mut i: usize = 0;
        while i < self.cache.len()
            invariant
                i <= self.cache@.len(),
                cv == self.cache@.map_values(|e: (String, Option<String>)| (e.0@, opt_view(e.1))),
                term@ == misspelled_term@,
                self.wf(),
                *self == *old(self),
                forall|k: int| 0 <= k < i ==> cv[k].0 != misspelled_term@,
            decreases self.cache@.len() - i,
        {
            if self.cache[i].0 == term {
                assert(cv[i as int].0 == misspelled_term@);
                assert(find_cached(cv, misspelled_term@) == Some(i as int)) by {
                    let c = choose|c: int|
                        0 <= c < cv.len() && cv[c].0 == misspelled_term@ && forall|k: int| 0 <= k < c ==> cv[k].0 != misspelled_term@;
                    if c > i {
                        assert(cv[i as int].0 != misspelled_term@);
                    }
                }
                return clone_opt(&self.cache[i].1);
            }
            i = i + 1;
        }
        assert(find_cached(cv, misspelled_term@) is None);
        let base = str_chars(misspelled_term);
        let result = scan_dictionary(dict, &base);
        let kept = clone_opt(&result);
        let idx = self.cache_idx;
        self.cache.set(idx, (term, kept));
        assert(self.cache@.map_values(|e: (String, Option<String>)| (e.0@, opt_view(e.1))) =~= cv.update(
            idx as int,
            (misspelled_term@, opt_view(result)),
        ));
        self.cache_idx = (idx + 1) % CACHE_SIZE;
        result
    }
}

/// The edit distance does not depend on the order of the two strings.
pub proof fn law_levenshtein_symmetric(a: Seq<char>, b: Seq<char>)
    ensures
        levenshtein(a, b) == levenshtein(b, a),
    decreases a.len() + b.len(),
{
    if a.len() > 0 && b.len() > 0 {
        law_levenshtein_symmetric(a.drop_last(), b);
        law_levenshtein_symmetric(a, b.drop_last());
        law_levenshtein_symmetric(a.drop_last(), b.drop_last());
    }
}

/// A correction that was not remembered is remembered once stored in a
/// slot: looking the term up again finds that slot and its correction.
pub proof fn law_correction_is_remembered(
    cache: Seq<(Seq<char>, Option<Seq<char>>)>,
    slot: int,
    term: Seq<char>,
    correction: Option<Seq<char>>,
)
    requires
        0 <= slot < cache.len(),
        find_cached(cache, term) is None,
    ensures
        find_cached(cache.update(slot, (term, correction)), term) == Some(slot),
        cache.update(slot, (term, correction))[slot].1 == correction,
{
    let c = cache.update(slot, (term, correction));
    assert(c[slot].0 == term);
    let w = choose|i: int| 0 <= i < c.len() && c[i].0 == term && forall|k: int| 0 <= k < i ==> c[k].0 != term;
    assert forall|k: int| 0 <= k < slot implies c[k].0 != term by {
        assert(c[k] == cache[k]);
    }
    if w != slot {
        if w < slot {
            assert(c[w] == cache[w]);
        } else {
            assert(c[slot].0 != term);
        }
    }
}

proof fn lemma_levenshtein_ge_len_diff(a: Seq<char>, b: Seq<char>)
    ensures
        levenshtein(a, b) >= len_diff(a.len(), b.len()),
    decreases a.len() + b.len(),
{
    if a.len() > 0 && b.len() > 0 {
        lemma_levenshtein_ge_len_diff(a.drop_last(), b);
        lemma_levenshtein_ge_len_diff(a, b.drop_last());
        lemma_levenshtein_ge_len_diff(a.drop_last(), b.drop_last());
    }
}

proof fn lemma_levenshtein_zero(a: Seq<char>, b: Seq<char>)
    requires
        levenshtein(a, b) == 0,
    ensures
        a == b,
    decreases a.len() + b.len(),
{
    if a.len() > 0 && b.len() > 0 {
        lemma_levenshtein_zero(a.drop_last(), b.drop_last());
        assert(a =~= a.drop_last().push(a.last()));
        assert(b =~= b.drop_last().push(b.last()));
    } else {
        assert(a.len() == 0 && b.len() == 0);
        assert(a =~= b);
    }
}

proof fn lemma_scan_best(entries: Seq<(String, TermInfo)>, base: Seq<char>)
    ensures
        scan(entries, base).2 <= max_edit_distance(base.len()),
        scan(entries, base).0 matches Some(t) ==> levenshtein(t, base) == scan(entries, base).2
            && exists|i: int|
            0 <= i < entries.len() && (#[trigger] entries[i]).0@ == t && entries[i].1.doc_freq == scan(entries, base).1,
        forall|i: int|
            0 <= i < entries.len() && (#[trigger] entries[i]).0@ != base ==> levenshtein(entries[i].0@, base)
                >= scan(entries, base).2,
        forall|i: int|
            0 <= i < entries.len() && (#[trigger] entries[i]).0@ != base && levenshtein(entries[i].0@, base)
                == scan(entries, base).2 ==> entries[i].1.doc_freq <= scan(entries, base).1,
    decreases entries.len(),
{
    if entries.len() > 0 {
        let d = entries.drop_last();
        lemma_scan_best(d, base);
        let st = scan(d, base);
        let term = entries.last().0@;
        lemma_levenshtein_ge_len_diff(term, base);
        if term != base && levenshtein(term, base) == 0 {
            lemma_levenshtein_zero(term, base);
        }
        assert forall|i: int|
            0 <= i < entries.len() && (#[trigger] entries[i]).0@ != base implies levenshtein(entries[i].0@, base)
                >= scan(entries, base).2 by {
            if i < d.len() {
                assert(entries[i] == d[i]);
            }
        }
        assert forall|i: int|
            0 <= i < entries.len() && (#[trigger] entries[i]).0@ != base && levenshtein(entries[i].0@, base)
                == scan(entries, base).2 implies entries[i].1.doc_freq <= scan(entries, base).1 by {
            if i < d.len() {
                assert(entries[i] == d[i]);
            }
        }
        if let Some(t) = st.0 {
            if scan(entries, base) == st {
                let i = choose|i: int| 0 <= i < d.len() && (#[trigger] d[i]).0@ == t && d[i].1.doc_freq == st.1;
                assert(entries[i] == d[i]);
            }
        }
        if scan(entries, base).0 != st.0 {
            assert(entries[entries.len() - 1].0@ == term);
        }
    }
}

/// A correction is within the allowed edit distance of the misspelled term,
/// and no other dictionary term is closer to it.
pub proof fn law_correction_is_closest(dict: Dictionary, base: Seq<char>)
    ensures
        best_correction(dict, base) matches Some(t) ==> {
            &&& levenshtein(t, base) <= max_edit_distance(base.len())
            &&& exists|i: int| 0 <= i < dict.term_infos@.len() && (#[trigger] dict.term_infos@[i]).0@ == t
            &&& forall|i: int|
                0 <= i < dict.term_infos@.len() && (#[trigger] dict.term_infos@[i]).0@ != base ==> levenshtein(
                    dict.term_infos@[i].0@,
                    base,
                ) >= levenshtein(t, base)
        },
{
    lemma_scan_best(dict.term_infos@, base);
}

/// Among the dictionary terms as close to the misspelled term as its
/// correction, none is more frequent than the correction.
pub proof fn law_correction_is_most_frequent(dict: Dictionary, base: Seq<char>)
    ensures
        best_correction(dict, base) matches Some(t) ==> exists|c: int|
            0 <= c < dict.term_infos@.len() && (#[trigger] dict.term_infos@[c]).0@ == t && forall|i: int|
                0 <= i < dict.term_infos@.len() && (#[trigger] dict.term_infos@[i]).0@ != base && levenshtein(
                    dict.term_infos@[i].0@,
                    base,
                ) == levenshtein(t, base) ==> dict.term_infos@[i].1.doc_freq <= dict.term_infos@[c].1.doc_freq,
{
    lemma_scan_best(dict.term_infos@, base);
}

/// Whether a dictionary entry can be a correction of `base` when nothing
/// better has been found: closer than the allowed distance, or at that
/// distance and found in some document.
pub open spec fn is_candidate(term: Seq<char>, info: TermInfo, base: Seq<char>) -> bool {
    ||| levenshtein(term, base) < max_edit_distance(base.len())
    ||| levenshtein(term, base) == max_edit_distance(base.len()) && info.doc_freq > 0
}

proof fn lemma_scan_found(entries: Seq<(String, TermInfo)>, base: Seq<char>)
    ensures
        scan(entries, base).0 is None ==> scan(entries, base) == (
            None::<Seq<char>>,
            0u32,
            max_edit_distance(base.len()),
        ),
        forall|i: int|
            0 <= i < entries.len() && is_candidate((#[trigger] entries[i]).0@, entries[i].1, base)
                ==> scan(entries, base).0 is Some,
    decreases entries.len(),
{
    if entries.len() > 0 {
        let d = entries.drop_last();
        lemma_scan_found(d, base);
        lemma_levenshtein_ge_len_diff(entries.last().0@, base);
        assert forall|i: int|
            0 <= i < entries.len() && is_candidate((#[trigger] entries[i]).0@, entries[i].1, base)
                implies scan(entries, base).0 is Some by {
            if i < d.len() {
                assert(entries[i] == d[i]);
            }
        }
    }
}

/// A misspelled term gets a correction whenever the dictionary holds a term
/// closer than the allowed distance, or at that distance and found in some
/// document.
pub proof fn law_correction_found(dict: Dictionary, base: Seq<char>, i: int)
    requires
        0 <= i < dict.term_infos@.len(),
        is_candidate(dict.term_infos@[i].0@, dict.term_infos@[i].1, base),
    ensures
        best_correction(dict, base) is Some,
{
    lemma_scan_found(dict.term_infos@, base);
}

} // verus!
