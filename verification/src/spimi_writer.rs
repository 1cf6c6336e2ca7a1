//! Writing a block of the index: the document information of the workers is
//! merged in document id order, and every term's postings are merged across
//! the workers and encoded.

use vstd::prelude::*;
use vstd::multiset::Multiset;
use crate::miner::{FieldV, TermDoc, TermDocV, WorkerBlockIndexResults, WorkerMinerDocInfo};

verus! {

broadcast use {vstd::seq_lib::group_to_multiset_ensures, vstd::multiset::group_multiset_axioms};

/// Something that belongs to a document.
pub trait DocKeyed {
    /// The document id.
    spec fn key(&self) -> u32;

    fn doc_id_of(&self) -> (res: u32)
        ensures
            res == self.key(),
    ;
}

impl DocKeyed for TermDoc {
    open spec fn key(&self) -> u32 {
        self.doc_id
    }

    fn doc_id_of(&self) -> (res: u32) {
        self.doc_id
    }
}

impl DocKeyed for WorkerMinerDocInfo {
    open spec fn key(&self) -> u32 {
        self.doc_id
    }

    fn doc_id_of(&self) -> (res: u32) {
        self.doc_id
    }
}

/// The documents are in ascending id order.
pub open spec fn keys_sorted<T: DocKeyed>(s: Seq<T>) -> bool {
    forall|i: int, j: int| 0 <= i <= j < s.len() ==> (#[trigger] s[i]).key() <= (#[trigger] s[j]).key()
}

/// The lists one after another.
pub open spec fn concat_all<T>(ls: Seq<Seq<T>>) -> Seq<T>
    decreases ls.len(),
{
    if ls.len() == 0 {
        Seq::empty()
    } else {
        concat_all(ls.drop_last()) + ls.last()
    }
}

/// The values of a list of lists.
pub open spec fn lists_view<T>(ls: Seq<Vec<T>>) -> Seq<Seq<T>> {
    ls.map_values(|l: Vec<T>| l@)
}

proof fn lemma_concat_remove_head<T>(rem: Seq<Seq<T>>, k: int)
    requires
        0 <= k < rem.len(),
        rem[k].len() > 0,
    ensures
        concat_all(rem.update(k, rem[k].drop_first())).to_multiset() == concat_all(rem).to_multiset().remove(
            rem[k][0],
        ),
        concat_all(rem.update(k, rem[k].drop_first())).len() + 1 == concat_all(rem).len(),
        concat_all(rem).to_multiset().count(rem[k][0]) > 0,
    decreases rem.len(),
{
    let upd = rem.update(k, rem[k].drop_first());
    if k == rem.len() - 1 {
        assert(upd.drop_last() =~= rem.drop_last());
        let a = concat_all(rem.drop_last());
        let b = rem[k];
        assert(b =~= seq![b[0]] + b.drop_first());
        vstd::seq_lib::lemma_multiset_commutative(a, b);
        vstd::seq_lib::lemma_multiset_commutative(a, b.drop_first());
        vstd::seq_lib::lemma_multiset_commutative(seq![b[0]], b.drop_first());
        assert(concat_all(upd) == a + b.drop_first());
        assert(concat_all(upd).to_multiset() =~= concat_all(rem).to_multiset().remove(b[0]));
    } else {
        assert(upd.drop_last() =~= rem.drop_last().update(k, rem[k].drop_first()));
        lemma_concat_remove_head(rem.drop_last(), k);
        let a = concat_all(rem.drop_last());
        let a2 = concat_all(upd.drop_last());
        let b = rem.last();
        assert(upd.last() == b);
        vstd::seq_lib::lemma_multiset_commutative(a, b);
        vstd::seq_lib::lemma_multiset_commutative(a2, b);
        assert(a.to_multiset().count(rem[k][0]) > 0);
        assert(concat_all(upd).to_multiset() =~= concat_all(rem).to_multiset().remove(rem[k][0]));
    }
}

/// Every element of the lists has a key of at least `low`.
pub open spec fn all_keys_at_least<T: DocKeyed>(rem: Seq<Seq<T>>, low: int) -> bool {
    forall|k: int, j: int| 0 <= k < rem.len() && 0 <= j < rem[k].len() ==> (#[trigger] rem[k][j]).key() >= low
}

/// The list in reverse order.
fn reversed<T>(mut l: Vec<T>) -> (res: Vec<T>)
    ensures
        res@ == l@.reverse(),
{
    let ghost orig = l@;
    let mut res: Vec<T> = Vec::new();
    while l.len() > 0
        invariant
            orig == l@ + res@.reverse(),
        decreases l@.len(),
    {
        let ghost before = l@;
        let x = l.pop().unwrap();
        res.push(x);
        assert(before =~= l@.push(x));
        assert(res@.reverse() =~= seq![x] + (res@.drop_last()).reverse());
        assert(orig =~= l@ + res@.reverse());
    }
    assert(res@.reverse().reverse() =~= res@);
    assert(orig.reverse() =~= res@);
    res
}

/// Merges lists in ascending document id order into one list in ascending
/// document id order that holds exactly their elements.
pub fn merge_by_doc_id<T: DocKeyed>(lists: Vec<Vec<T>>) -> (out: Vec<T>)
    requires
        forall|k: int| 0 <= k < lists@.len() ==> keys_sorted(#[trigger] lists@[k]@),
    ensures
        keys_sorted(out@),
        out@.to_multiset() == concat_all(lists_view(lists@)).to_multiset(),
{
    let ghost orig = lists_view(lists@);
    let mut lists = lists;
    let mut revs: Vec<Vec<T>> = Vec::new();
    let ghost mut taken: Seq<Seq<T>> = Seq::empty();
    while lists.len() > 0
        invariant
            orig == taken + lists_view(lists@),
            revs@.len() == taken.len(),
            forall|k: int| 0 <= k < revs@.len() ==> (#[trigger] revs@[k])@ == taken[k].reverse(),
            forall|k: int| 0 <= k < orig.len() ==> keys_sorted(#[trigger] orig[k]),
        decreases lists@.len(),
    {
        let ghost before = lists@;
        let l = lists.remove(0);
        proof {
            assert(lists_view(before) =~= seq![l@] + lists_view(lists@));
            taken = taken.push(l@);
        }
        let r = reversed(l);
        revs.push(r);
        assert(orig =~= taken + lists_view(lists@));
    }
    assert(taken =~= orig);
    let ghost mut rem: Seq<Seq<T>> = orig;
    let mut out: Vec<T> = Vec::new();
    assert(concat_all(rem).to_multiset() =~= Seq::<T>::empty().to_multiset().add(concat_all(rem).to_multiset()));
    loop
        invariant
            revs@.len() == rem.len(),
            forall|k: int| 0 <= k < revs@.len() ==> (#[trigger] revs@[k])@ == rem[k].reverse(),
            forall|k: int| 0 <= k < rem.len() ==> keys_sorted(#[trigger] rem[k]),
            keys_sorted(out@),
            out@.len() > 0 ==> all_keys_at_least(rem, out@.last().key() as int),
            out@.to_multiset().add(concat_all(rem).to_multiset()) == concat_all(orig).to_multiset(),
        ensures
            keys_sorted(out@),
            out@.to_multiset().add(concat_all(rem).to_multiset()) == concat_all(orig).to_multiset(),
            concat_all(rem).len() == 0,
        decreases concat_all(rem).len(),
    {
        // the list whose next document comes first
        let mut best: usize = revs.len();
        let mut best_key: u32 = 0;
        let mut k: usize = 0;
        while k < revs.len()
            invariant
                k <= revs@.len() == rem.len(),
                forall|x: int| 0 <= x < revs@.len() ==> (#[trigger] revs@[x])@ == rem[x].reverse(),
                best == revs@.len() || (best < k && rem[best as int].len() > 0 && rem[best as int][0].key() == best_key),
                forall|x: int| 0 <= x < k && rem[x].len() > 0 ==> best < revs@.len() && best_key <= (#[trigger] rem[x])[0].key(),
            decreases revs@.len() - k,
        {
            let n = revs[k].len();
            if n > 0 {
                assert(rem[k as int].reverse()[n - 1] == rem[k as int][0]);
                let key = revs[k][n - 1].doc_id_of();
                if best == revs.len() || key < best_key {
                    best = k;
                    best_key = key;
                }
            }
            k = k + 1;
        }
        if best == revs.len() {
            assert forall|x: int| 0 <= x < rem.len() implies (#[trigger] rem[x]).len() == 0 by {}
            proof {
                lemma_concat_empty(rem);
            }
            break;
        }
        let ghost head = rem[best as int][0];
        let x = revs[best].pop().unwrap();
        let ghost old_rem = rem;
        proof {
            assert(x == head);
            lemma_concat_remove_head(rem, best as int);
            rem = rem.update(best as int, rem[best as int].drop_first());
            assert(revs@[best as int]@ =~= rem[best as int].reverse());
            assert forall|a: int| 0 <= a < rem.len() implies keys_sorted(#[trigger] rem[a]) by {
                assert(keys_sorted(old_rem[a]));
            }
            assert forall|a: int, j: int| 0 <= a < rem.len() && 0 <= j < rem[a].len() implies (#[trigger] rem[a][j]).key()
                >= head.key() by {
                assert(keys_sorted(old_rem[a]));
                if a == best {
                    assert(rem[a][j] == old_rem[a][j + 1]);
                } else {
                    assert(old_rem[a].len() > 0);
                    assert(old_rem[a][0].key() <= old_rem[a][j].key());
                }
            }
        }
        let ghost out_before = out@;
        out.push(x);
        proof {
            assert forall|i: int, j: int| 0 <= i <= j < out@.len() implies (#[trigger] out@[i]).key() <= (#[trigger] out@[j]).key() by {
                if j == out@.len() - 1 && i < j {
                    assert(all_keys_at_least(old_rem, out_before.last().key() as int));
                    assert(old_rem[best as int][0] == head);
                    assert(out_before[i].key() <= out_before.last().key());
                }
            }
            assert(out@.to_multiset() =~= out_before.to_multiset().insert(x));
            assert(concat_all(old_rem).to_multiset().count(x) > 0);
            assert(out@.to_multiset().add(concat_all(rem).to_multiset()) =~= out_before.to_multiset().add(
                concat_all(old_rem).to_multiset(),
            ));
        }
    }
    assert(out@.to_multiset() =~= concat_all(orig).to_multiset()) by {
        assert(concat_all(rem).to_multiset() =~= Multiset::<T>::empty());
    }
    out
}

proof fn lemma_concat_empty<T>(rem: Seq<Seq<T>>)
    requires
        forall|x: int| 0 <= x < rem.len() ==> (#[trigger] rem[x]).len() == 0,
    ensures
        concat_all(rem).len() == 0,
    decreases rem.len(),
{
    if rem.len() > 0 {
        lemma_concat_empty(rem.drop_last());
    }
}

/// The little-endian bytes of `x`.
pub open spec fn le_bytes(x: u32) -> Seq<u8> {
    seq![x as u8, (x >> 8u32) as u8, (x >> 16u32) as u8, (x >> 24u32) as u8]
}

fn push_le(out: &mut Vec<u8>, x: u32)
    ensures
        final(out)@ == old(out)@ + le_bytes(x),
{
    out.push(x as u8);
    out.push((x >> 8u32) as u8);
    out.push((x >> 16u32) as u8);
    out.push((x >> 24u32) as u8);
    assert(final(out)@ =~= old(out)@ + le_bytes(x));
}

/// The positions, each in four bytes.
pub open spec fn positions_bytes(ps: Seq<u32>) -> Seq<u8>
    decreases ps.len(),
{
    if ps.len() == 0 {
        Seq::empty()
    } else {
        positions_bytes(ps.drop_last()) + le_bytes(ps.last())
    }
}

/// How many of the first `upto` fields hold the term.
pub open spec fn fields_present(fields: Seq<FieldV>, upto: int) -> nat
    decreases upto,
{
    if upto <= 0 {
        0
    } else {
        fields_present(fields, upto - 1) + if fields[upto - 1].0 > 0 { 1nat } else { 0nat }
    }
}

/// The fields of the first `upto` that hold the term: the field's number,
/// the term frequency and the positions.
pub open spec fn fields_bytes(fields: Seq<FieldV>, upto: int) -> Seq<u8>
    decreases upto,
{
    if upto <= 0 {
        Seq::empty()
    } else {
        let f = fields[upto - 1];
        fields_bytes(fields, upto - 1) + if f.0 > 0 {
            seq![(upto - 1) as u8] + le_bytes(f.0) + positions_bytes(f.1)
        } else {
            Seq::empty()
        }
    }
}

/// A document's postings: its id, how many fields hold the term, and those
/// fields.
pub open spec fn term_doc_bytes(td: TermDocV) -> Seq<u8> {
    le_bytes(td.0) + seq![fields_present(td.1, td.1.len() as int) as u8] + fields_bytes(td.1, td.1.len() as int)
}

/// The postings of the documents, one after another.
pub open spec fn term_docs_bytes(ds: Seq<TermDocV>) -> Seq<u8>
    decreases ds.len(),
{
    if ds.len() == 0 {
        Seq::empty()
    } else {
        term_docs_bytes(ds.drop_last()) + term_doc_bytes(ds.last())
    }
}

/// The dictionary entry of a block: the term's length in bytes, the term,
/// and its document frequency.
pub open spec fn dict_entry(term: Seq<char>, doc_freq: u32) -> Seq<u8> {
    seq![vstd::utf8::encode_utf8(term).len() as u8] + vstd::utf8::encode_utf8(term) + le_bytes(doc_freq)
}

/// Appends the postings of one document.
fn write_term_doc(out: &mut Vec<u8>, td: &TermDoc)
    ensures
        final(out)@ == old(out)@ + term_doc_bytes(td@),
{
    let ghost fv = td@.1;
    push_le(out, td.doc_id);
    let n = td.doc_fields.len();
    let mut present: usize = 0;
    let mut f: usize = 0;
    while f < n
        invariant
            f <= n == fv.len() == td.doc_fields@.len(),
            fv == td@.1,
            present == fields_present(fv, f as int),
            present <= f,
        decreases n - f,
    {
        assert(fv[f as int] == td.doc_fields@[f as int]@);
        if td.doc_fields[f].field_tf > 0 {
            present = present + 1;
        }
        f = f + 1;
    }
    out.push(present as u8);
    let ghost head = out@;
    let mut f: usize = 0;
    while f < n
        invariant
            f <= n == fv.len() == td.doc_fields@.len(),
            fv == td@.1,
            out@ == head + fields_bytes(fv, f as int),
        decreases n - f,
    {
        assert(fv[f as int] == td.doc_fields@[f as int]@);
        let tf = td.doc_fields[f].field_tf;
        if tf > 0 {
            out.push(f as u8);
            push_le(out, tf);
            let ps = &td.doc_fields[f].positions;
            let ghost before = out@;
            let mut p: usize = 0;
            while p < ps.len()
                invariant
                    p <= ps@.len(),
                    out@ == before + positions_bytes(ps@.subrange(0, p as int)),
                decreases ps@.len() - p,
            {
                push_le(out, ps[p]);
                assert(ps@.subrange(0, p + 1).drop_last() =~= ps@.subrange(0, p as int));
                p = p + 1;
            }
            assert(ps@.subrange(0, p as int) =~= ps@);
        }
        f = f + 1;
    }
    assert(final(out)@ =~= old(out)@ + term_doc_bytes(td@));
}

/// The merged postings of a term: in ascending document id order, exactly
/// the documents of the workers' lists.
pub open spec fn is_merge_of(merged: Seq<TermDoc>, lists: Seq<Seq<TermDoc>>) -> bool {
    keys_sorted(merged) && merged.to_multiset() == concat_all(lists).to_multiset()
}

/// How many documents the lists hold together.
pub open spec fn total_len(lists: Seq<Seq<TermDoc>>) -> nat {
    concat_all(lists).len()
}

/// Writes a term of a block: its dictionary entry (length in bytes, the term,
/// its document frequency over all the workers' lists) and its postings,
/// merged from the workers' lists in ascending document id order.
pub fn write_term(
    dict_out: &mut Vec<u8>,
    pl_out: &mut Vec<u8>,
    term: &String,
    curr_term_termdocs: Vec<Vec<TermDoc>>,
)
    requires
        forall|k: int| 0 <= k < curr_term_termdocs@.len() ==> keys_sorted(#[trigger] curr_term_termdocs@[k]@),
    ensures
        final(dict_out)@ == old(dict_out)@ + dict_entry(
            term@,
            (total_len(lists_view(curr_term_termdocs@)) % 0x1_0000_0000) as u32,
        ),
        exists|merged: Seq<TermDoc>|
            is_merge_of(merged, lists_view(curr_term_termdocs@)) && final(pl_out)@ == old(pl_out)@ + term_docs_bytes(
                merged.map_values(|d: TermDoc| d@),
            ),
{
    let bytes = term.as_str().as_bytes();
    out_push_len_byte(dict_out, bytes.len());
    let mut i: usize = 0;
    let ghost d0 = dict_out@;
    while i < bytes.len()
        invariant
            i <= bytes@.len(),
            dict_out@ == d0 + bytes@.subrange(0, i as int),
        decreases bytes@.len() - i,
    {
        dict_out.push(bytes[i]);
        i = i + 1;
        assert(dict_out@ =~= d0 + bytes@.subrange(0, i as int));
    }
    assert(bytes@.subrange(0, i as int) =~= bytes@);
    let ghost lv = lists_view(curr_term_termdocs@);
    let mut doc_freq: u32 = 0;
    let mut k: usize = 0;
    assert(lv.subrange(0, 0) =~= Seq::<Seq<TermDoc>>::empty());
    while k < curr_term_termdocs.len()
        invariant
            k <= curr_term_termdocs@.len() == lv.len(),
            lv == lists_view(curr_term_termdocs@),
            doc_freq == concat_all(lv.subrange(0, k as int)).len() % 0x1_0000_0000,
        decreases curr_term_termdocs@.len() - k,
    {
        let ghost before = concat_all(lv.subrange(0, k as int)).len();
        proof {
            assert(lv.subrange(0, k + 1).drop_last() =~= lv.subrange(0, k as int));
        }
        let len = curr_term_termdocs[k].len();
        let len64 = len as u64;
        let len32 = len64 as u32;
        assert(len32 == len64 % 0x1_0000_0000) by (bit_vector)
            requires
                len32 == len64 as u32,
        ;
        proof {
            vstd::arithmetic::div_mod::lemma_add_mod_noop(before as int, len as int, 0x1_0000_0000);
        }
        doc_freq = doc_freq.wrapping_add(len32);
        k = k + 1;
    }
    assert(lv.subrange(0, k as int) =~= lv);
    push_le(dict_out, doc_freq);
    let merged = merge_by_doc_id(curr_term_termdocs);
    let ghost p0 = pl_out@;
    let mut j: usize = 0;
    while j < merged.len()
        invariant
            j <= merged@.len(),
            pl_out@ == p0 + term_docs_bytes(merged@.subrange(0, j as int).map_values(|d: TermDoc| d@)),
        decreases merged@.len() - j,
    {
        write_term_doc(pl_out, &merged[j]);
        let ghost sub = merged@.subrange(0, j + 1).map_values(|d: TermDoc| d@);
        assert(sub.drop_last() =~= merged@.subrange(0, j as int).map_values(|d: TermDoc| d@));
        j = j + 1;
    }
    assert(merged@.subrange(0, j as int) =~= merged@);
    assert(is_merge_of(merged@, lists_view(curr_term_termdocs@)));
    assert(pl_out@ == old(pl_out)@ + term_docs_bytes(merged@.map_values(|d: TermDoc| d@)));
}

fn out_push_len_byte(out: &mut Vec<u8>, len: usize)
    ensures
        final(out)@ == old(out)@.push(len as u8),
{
    out.push(len as u8);
}

proof fn lemma_concat_prefix_len(lv: Seq<Seq<TermDoc>>, k: int)
    requires
        0 <= k <= lv.len(),
    ensures
        concat_all(lv.subrange(0, k)).len() <= concat_all(lv).len(),
    decreases lv.len(),
{
    if k < lv.len() {
        assert(lv.drop_last().subrange(0, k) =~= lv.subrange(0, k));
        lemma_concat_prefix_len(lv.drop_last(), k);
    } else {
        assert(lv.subrange(0, k) =~= lv);
    }
}

/// Whether `a` comes at or before `b` in character order.
pub open spec fn lex_le(a: Seq<char>, b: Seq<char>) -> bool
    decreases a.len(),
{
    if a.len() == 0 {
        true
    } else if b.len() == 0 {
        false
    } else if a[0] < b[0] {
        true
    } else if a[0] > b[0] {
        false
    } else {
        lex_le(a.drop_first(), b.drop_first())
    }
}

pub(crate) proof fn lemma_lex_total(a: Seq<char>, b: Seq<char>)
    ensures
        lex_le(a, b) || lex_le(b, a),
    decreases a.len(),
{
    if a.len() > 0 && b.len() > 0 && a[0] == b[0] {
        lemma_lex_total(a.drop_first(), b.drop_first());
    }
}

pub(crate) proof fn lemma_lex_trans(a: Seq<char>, b: Seq<char>, c: Seq<char>)
    requires
        lex_le(a, b),
        lex_le(b, c),
    ensures
        lex_le(a, c),
    decreases a.len(),
{
    if a.len() > 0 && b.len() > 0 && c.len() > 0 && a[0] == b[0] && b[0] == c[0] {
        lemma_lex_trans(a.drop_first(), b.drop_first(), c.drop_first());
    }
}

/// Whether `a` comes at or before `b`, character by character.
pub(crate) fn string_le(a: &String, b: &String) -> (res: bool)
    ensures
        res == lex_le(a@, b@),
{
    let x = crate::text::str_chars(a.as_str());
    let y = crate::text::str_chars(b.as_str());
    let mut i: usize = 0;
    assert(x@.subrange(0, x@.len() as int) =~= x@);
    assert(y@.subrange(0, y@.len() as int) =~= y@);
    while i < x.len() && i < y.len() && x[i] == y[i]
        invariant
            i <= x@.len(),
            i <= y@.len(),
            lex_le(a@, b@) == lex_le(x@.subrange(i as int, x@.len() as int), y@.subrange(i as int, y@.len() as int)),
            x@ == a@,
            y@ == b@,
        decreases x@.len() - i,
    {
        assert(x@.subrange(i + 1, x@.len() as int) =~= x@.subrange(i as int, x@.len() as int).drop_first());
        assert(y@.subrange(i + 1, y@.len() as int) =~= y@.subrange(i as int, y@.len() as int).drop_first());
        i = i + 1;
    }
    let ghost xs = x@.subrange(i as int, x@.len() as int);
    let ghost ys = y@.subrange(i as int, y@.len() as int);
    assert(xs.len() > 0 ==> xs[0] == x@[i as int]);
    assert(ys.len() > 0 ==> ys[0] == y@[i as int]);
    if i == x.len() {
        true
    } else if i == y.len() {
        false
    } else {
        x[i] < y[i]
    }
}

/// The terms are in ascending order.
pub open spec fn terms_sorted(v: Seq<(String, Vec<TermDoc>)>) -> bool {
    forall|i: int, j: int| 0 <= i <= j < v.len() ==> lex_le((#[trigger] v[i]).0@, (#[trigger] v[j]).0@)
}

/// Sorts the entries by term, keeping exactly the entries.
pub fn sort_by_term(entries: Vec<(String, Vec<TermDoc>)>) -> (res: Vec<(String, Vec<TermDoc>)>)
    ensures
        terms_sorted(res@),
        res@.to_multiset() == entries@.to_multiset(),
{
    let ghost orig = entries@;
    let mut rest = entries;
    let mut out: Vec<(String, Vec<TermDoc>)> = Vec::new();
    let ghost mut done: Seq<(String, Vec<TermDoc>)> = Seq::empty();
    while rest.len() > 0
        invariant
            orig == done + rest@,
            terms_sorted(out@),
            out@.to_multiset() == done.to_multiset(),
        decreases rest@.len(),
    {
        let ghost before = rest@;
        let e = rest.remove(0);
        proof {
            assert(before =~= seq![e] + rest@);
            assert(orig =~= done.push(e) + rest@);
            done = done.push(e);
        }
        let mut p: usize = 0;
        while p < out.len() && string_le(&out[p].0, &e.0)
            invariant
                p <= out@.len(),
                forall|x: int| 0 <= x < p ==> lex_le((#[trigger] out@[x]).0@, e.0@),
            decreases out@.len() - p,
        {
            p = p + 1;
        }
        let ghost ob = out@;
        proof {
            if p < ob.len() {
                assert(!lex_le(ob[p as int].0@, e.0@));
                lemma_lex_total(ob[p as int].0@, e.0@);
                assert forall|x: int| p <= x < ob.len() implies lex_le(e.0@, (#[trigger] ob[x]).0@) by {
                    lemma_lex_trans(e.0@, ob[p as int].0@, ob[x].0@);
                }
            }
        }
        out.insert(p, e);
        proof {
            assert(out@ =~= ob.insert(p as int, e));
            assert forall|i: int, j: int| 0 <= i <= j < out@.len() implies lex_le((#[trigger] out@[i]).0@, (#[trigger] out@[j]).0@) by {
                if i < p && j == p {
                } else if i < p && j > p {
                    assert(out@[j] == ob[j - 1]);
                    assert(lex_le(ob[i].0@, ob[j - 1].0@));
                } else if i == p && j > p {
                    assert(out@[j] == ob[j - 1]);
                } else if i > p {
                    assert(out@[i] == ob[i - 1] && out@[j] == ob[j - 1]);
                } else if i == p && j == p {
                    lemma_lex_total(e.0@, e.0@);
                } else {
                    assert(out@[i] == ob[i] && out@[j] == ob[j]);
                }
            }
            vstd::seq_lib::to_multiset_insert(ob, p as int, e);
        }
    }
    assert(done =~= orig);
    out
}

/// A term and the workers' lists of its documents.
pub type TermGroup = (Seq<char>, Seq<Seq<TermDoc>>);

/// The groups of equal consecutive terms as the block writer forms them: the
/// groups written so far and the group being filled, which starts as the
/// empty term with no lists.
pub open spec fn group_terms(entries: Seq<(String, Vec<TermDoc>)>) -> (Seq<TermGroup>, TermGroup)
    decreases entries.len(),
{
    if entries.len() == 0 {
        (Seq::empty(), (Seq::empty(), Seq::empty()))
    } else {
        let prev = group_terms(entries.drop_last());
        let e = entries.last();
        if e.0@ == prev.1.0 {
            (prev.0, (prev.1.0, prev.1.1.push(e.1@)))
        } else {
            (if prev.1.1.len() > 0 { prev.0.push(prev.1) } else { prev.0 }, (e.0@, seq![e.1@]))
        }
    }
}

/// The groups a block writes: every group formed, the last one included even
/// when it has no lists.
pub open spec fn block_groups(entries: Seq<(String, Vec<TermDoc>)>) -> Seq<TermGroup> {
    group_terms(entries).0.push(group_terms(entries).1)
}

/// The dictionary of a block: one entry per group.
pub open spec fn block_dict(groups: Seq<TermGroup>) -> Seq<u8>
    decreases groups.len(),
{
    if groups.len() == 0 {
        Seq::empty()
    } else {
        block_dict(groups.drop_last()) + dict_entry(
            groups.last().0,
            (total_len(groups.last().1) % 0x1_0000_0000) as u32,
        )
    }
}

/// The postings of a block: each group's merged postings in turn.
pub open spec fn block_postings(ms: Seq<Seq<TermDoc>>) -> Seq<u8>
    decreases ms.len(),
{
    if ms.len() == 0 {
        Seq::empty()
    } else {
        block_postings(ms.drop_last()) + term_docs_bytes(ms.last().map_values(|d: TermDoc| d@))
    }
}

/// Each of `ms` merges the lists of its group.
pub open spec fn merges_of(ms: Seq<Seq<TermDoc>>, groups: Seq<TermGroup>) -> bool {
    ms.len() == groups.len() && forall|g: int| 0 <= g < groups.len() ==> is_merge_of(#[trigger] ms[g], groups[g].1)
}

/// Writes a block: its entries sorted by term, the entries of a term
/// together, each term's dictionary entry and merged postings in term order.
pub fn write_block(combined_terms: Vec<(String, Vec<TermDoc>)>, dict_out: &mut Vec<u8>, pl_out: &mut Vec<u8>)
    requires
        forall|i: int| 0 <= i < combined_terms@.len() ==> keys_sorted((#[trigger] combined_terms@[i]).1@),
    ensures
        exists|sorted: Seq<(String, Vec<TermDoc>)>, ms: Seq<Seq<TermDoc>>|
            {
                &&& terms_sorted(sorted)
                &&& sorted.to_multiset() == combined_terms@.to_multiset()
                &&& merges_of(ms, block_groups(sorted))
                &&& final(dict_out)@ == old(dict_out)@ + block_dict(block_groups(sorted))
                &&& final(pl_out)@ == old(pl_out)@ + block_postings(ms)
            },
{
    let ghost orig = combined_terms@;
    let sorted = sort_by_term(combined_terms);
    let ghost sv = sorted@;
    assert forall|i: int| 0 <= i < sv.len() implies keys_sorted((#[trigger] sv[i]).1@) by {
        assert(sv.to_multiset().count(sv[i]) > 0);
        assert(orig.to_multiset().count(sv[i]) > 0);
        assert(orig.contains(sv[i]));
        let j = choose|j: int| 0 <= j < orig.len() && orig[j] == sv[i];
        assert(keys_sorted(orig[j].1@));
    }
    let ghost d0 = dict_out@;
    let ghost p0 = pl_out@;
    let mut rest = sorted;
    let mut curr_term = String::new();
    let mut curr_lists: Vec<Vec<TermDoc>> = Vec::new();
    let ghost mut ms: Seq<Seq<TermDoc>> = Seq::empty();
    let ghost mut i: int = 0;
    assert(sv.subrange(0, 0) =~= Seq::<(String, Vec<TermDoc>)>::empty());
    assert(curr_term@ =~= Seq::<char>::empty());
    assert(lists_view(curr_lists@) =~= Seq::<Seq<TermDoc>>::empty());
    while rest.len() > 0
        invariant
            0 <= i <= sv.len(),
            rest@ == sv.subrange(i, sv.len() as int),
            forall|x: int| 0 <= x < sv.len() ==> keys_sorted((#[trigger] sv[x]).1@),
            forall|k: int| 0 <= k < curr_lists@.len() ==> keys_sorted(#[trigger] curr_lists@[k]@),
            group_terms(sv.subrange(0, i)).1 == (curr_term@, lists_view(curr_lists@)),
            merges_of(ms, group_terms(sv.subrange(0, i)).0),
            dict_out@ == d0 + block_dict(group_terms(sv.subrange(0, i)).0),
            pl_out@ == p0 + block_postings(ms),
        decreases rest@.len(),
    {
        let ghost before = rest@;
        let e = rest.remove(0);
        let ghost prev = group_terms(sv.subrange(0, i));
        proof {
            assert(e == sv[i]);
            assert(sv.subrange(0, i + 1).drop_last() =~= sv.subrange(0, i));
            assert(sv.subrange(0, i + 1).last() == e);
        }
        let (term, docs) = e;
        if term == curr_term {
            let ghost lb = curr_lists@;
            curr_lists.push(docs);
            assert(lists_view(curr_lists@) =~= lists_view(lb).push(docs@));
        } else {
            if curr_lists.len() > 0 {
                let mut lists: Vec<Vec<TermDoc>> = Vec::new();
                std::mem::swap(&mut lists, &mut curr_lists);
                let ghost lv = lists_view(lists@);
                let ghost pb = pl_out@;
                write_term(dict_out, pl_out, &curr_term, lists);
                proof {
                    let m = choose|m: Seq<TermDoc>|
                        is_merge_of(m, lv) && pl_out@ == pb + term_docs_bytes(m.map_values(|d: TermDoc| d@));
                    let ms_old = ms;
                    ms = ms.push(m);
                    assert(ms.drop_last() =~= ms_old);
                    assert(pl_out@ =~= p0 + block_postings(ms));
                    let g = prev.0.push(prev.1);
                    assert(g.drop_last() =~= prev.0);
                }
            }
            curr_term = term;
            let mut fresh: Vec<Vec<TermDoc>> = Vec::new();
            fresh.push(docs);
            curr_lists = fresh;
            assert(lists_view(curr_lists@) =~= seq![docs@]);
        }
        proof {
            i = i + 1;
        }
    }
    proof {
        assert(sv.subrange(0, i) =~= sv);
    }
    let ghost groups = group_terms(sv).0;
    let ghost lv = lists_view(curr_lists@);
    let ghost pb = pl_out@;
    write_term(dict_out, pl_out, &curr_term, curr_lists);
    proof {
        let m = choose|m: Seq<TermDoc>|
            is_merge_of(m, lv) && pl_out@ == pb + term_docs_bytes(m.map_values(|d: TermDoc| d@));
        let ms2 = ms.push(m);
        let bg = block_groups(sv);
        assert(bg.drop_last() =~= groups);
        assert(ms2.drop_last() =~= ms);
        assert(merges_of(ms2, bg));
        assert(dict_out@ == old(dict_out)@ + block_dict(bg));
        assert(pl_out@ == old(pl_out)@ + block_postings(ms2));
    }
}

/// The postings of the workers that indexed documents, one after another.
pub open spec fn worker_terms(results: Seq<WorkerBlockIndexResults>) -> Seq<(String, Vec<TermDoc>)>
    decreases results.len(),
{
    if results.len() == 0 {
        Seq::empty()
    } else {
        worker_terms(results.drop_last()) + if results.last().doc_infos@.len() > 0 {
            results.last().terms@
        } else {
            Seq::empty()
        }
    }
}

/// The document information of the workers, list by list.
pub open spec fn worker_doc_infos(results: Seq<WorkerBlockIndexResults>) -> Seq<Seq<WorkerMinerDocInfo>> {
    results.map_values(|r: WorkerBlockIndexResults| r.doc_infos@)
}

/// Combines the workers' results of a block: the postings of the workers
/// that indexed documents, one after another, and all the document
/// information merged in ascending document id order.
pub fn combine_worker_results(worker_index_results: Vec<WorkerBlockIndexResults>) -> (res: (
    Vec<(String, Vec<TermDoc>)>,
    Vec<WorkerMinerDocInfo>,
))
    requires
        forall|w: int| 0 <= w < worker_index_results@.len() ==> keys_sorted((#[trigger] worker_index_results@[w]).doc_infos@),
    ensures
        res.0@ == worker_terms(worker_index_results@),
        keys_sorted(res.1@),
        res.1@.to_multiset() == concat_all(worker_doc_infos(worker_index_results@)).to_multiset(),
{
    let ghost orig = worker_index_results@;
    let mut rest = worker_index_results;
    let mut combined_terms: Vec<(String, Vec<TermDoc>)> = Vec::new();
    let mut doc_lists: Vec<Vec<WorkerMinerDocInfo>> = Vec::new();
    let ghost mut i: int = 0;
    assert(orig.subrange(0, 0) =~= Seq::<WorkerBlockIndexResults>::empty());
    assert(lists_view(doc_lists@) =~= worker_doc_infos(orig.subrange(0, 0)));
    while rest.len() > 0
        invariant
            0 <= i <= orig.len(),
            rest@ == orig.subrange(i, orig.len() as int),
            forall|w: int| 0 <= w < orig.len() ==> keys_sorted((#[trigger] orig[w]).doc_infos@),
            combined_terms@ == worker_terms(orig.subrange(0, i)),
            lists_view(doc_lists@) == worker_doc_infos(orig.subrange(0, i)),
            forall|k: int| 0 <= k < doc_lists@.len() ==> keys_sorted(#[trigger] doc_lists@[k]@),
        decreases rest@.len(),
    {
        let r = rest.remove(0);
        proof {
            assert(r == orig[i]);
            assert(orig.subrange(0, i + 1).drop_last() =~= orig.subrange(0, i));
        }
        let WorkerBlockIndexResults { terms, doc_infos } = r;
        let ghost tb = combined_terms@;
        let ghost db = doc_lists@;
        let has_docs = doc_infos.len() > 0;
        if has_docs {
            let mut terms = terms;
            combined_terms.append(&mut terms);
        }
        doc_lists.push(doc_infos);
        proof {
            assert(lists_view(doc_lists@) =~= lists_view(db).push(orig[i].doc_infos@));
            assert(worker_doc_infos(orig.subrange(0, i + 1)) =~= worker_doc_infos(orig.subrange(0, i)).push(
                orig[i].doc_infos@,
            ));
            i = i + 1;
        }
    }
    proof {
        assert(orig.subrange(0, i) =~= orig);
    }
    let ghost lv = lists_view(doc_lists@);
    let merged = merge_by_doc_id(doc_lists);
    (combined_terms, merged)
}

} // verus!
