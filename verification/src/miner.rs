//! The indexing miner: turns the zones of each document into per-term
//! postings (document ids, per-field term frequencies and positions) and into
//! per-document information (stored fields, enum and number values, field
//! lengths).

use vstd::prelude::*;
use crate::escape_json::{escape, spec_escape};
use crate::tokenize::{IndexerTokenizer, opt_strings_seq};

verus! {

/// The positional gap put between two zones unless a loader says otherwise.
pub const DEFAULT_ZONE_SEPARATION: u32 = 10;

/// A piece of a document's text and the field it belongs to.
pub struct Zone {
    pub field_name: String,
    pub field_text: String,
    pub separation: u32,
}

/// How often a term occurs in one field of one document, and where.
pub struct DocField {
    pub field_tf: u32,
    pub positions: Vec<u32>,
}

/// The term frequency and positions of a field.
pub type FieldV = (u32, Seq<u32>);

impl View for DocField {
    type V = FieldV;

    open spec fn view(&self) -> FieldV {
        (self.field_tf, self.positions@)
    }
}

impl Default for DocField {
    fn default() -> (res: Self)
        ensures
            res@ == (0u32, Seq::<u32>::empty()),
    {
        DocField { field_tf: 0, positions: Vec::new() }
    }
}

impl Clone for DocField {
    fn clone(&self) -> (res: Self)
        ensures
            res@ == self@,
    {
        DocField { field_tf: self.field_tf, positions: self.positions.clone() }
    }
}

/// The occurrences of a term in one document, field by field.
pub struct TermDoc {
    pub doc_id: u32,
    pub doc_fields: Vec<DocField>,
}

/// A document id and its fields.
pub type TermDocV = (u32, Seq<FieldV>);

impl View for TermDoc {
    type V = TermDocV;

    open spec fn view(&self) -> TermDocV {
        (self.doc_id, self.doc_fields@.map_values(|f: DocField| f@))
    }
}

/// Each term with the documents it occurs in.
pub type TermsV = Seq<(Seq<char>, Seq<TermDocV>)>;

/// The value of a list of term documents.
pub open spec fn docs_view(docs: Seq<TermDoc>) -> Seq<TermDocV> {
    docs.map_values(|d: TermDoc| d@)
}

/// The value of the postings built so far.
pub open spec fn terms_view(terms: Seq<(String, Vec<TermDoc>)>) -> TermsV {
    terms.map_values(|e: (String, Vec<TermDoc>)| (e.0@, docs_view(e.1@)))
}

/// `nf` fields where the term does not occur.
pub open spec fn fresh_fields(nf: nat) -> Seq<FieldV> {
    Seq::new(nf, |i: int| (0u32, Seq::<u32>::empty()))
}

/// A field after one more occurrence at `pos`.
pub open spec fn count_in_field(f: FieldV, pos: u32, with_positions: bool) -> FieldV {
    ((f.0 + 1) as u32, if with_positions { f.1.push(pos) } else { f.1 })
}

/// A term's documents after one more occurrence in field `field_id` of
/// document `doc_id`: a new entry is added unless the last one is that
/// document.
pub open spec fn count_in_docs(
    docs: Seq<TermDocV>,
    doc_id: u32,
    field_id: int,
    nf: nat,
    pos: u32,
    with_positions: bool,
) -> Seq<TermDocV> {
    let ds = if docs.len() > 0 && docs.last().0 == doc_id {
        docs
    } else {
        docs.push((doc_id, fresh_fields(nf)))
    };
    let last = ds.last();
    ds.update(
        ds.len() - 1,
        (last.0, last.1.update(field_id, count_in_field(last.1[field_id], pos, with_positions))),
    )
}

/// Where `term` stands among the postings, if it is there.
pub open spec fn find_key(terms: TermsV, term: Seq<char>) -> Option<int> {
    if exists|i: int| 0 <= i < terms.len() && terms[i].0 == term {
        Some(choose|i: int| 0 <= i < terms.len() && terms[i].0 == term)
    } else {
        None
    }
}

/// The postings after one more occurrence of `term`.
pub open spec fn count_occurrence(
    terms: TermsV,
    term: Seq<char>,
    doc_id: u32,
    field_id: int,
    nf: nat,
    pos: u32,
    with_positions: bool,
) -> TermsV {
    match find_key(terms, term) {
        Some(i) => terms.update(
            i,
            (term, count_in_docs(terms[i].1, doc_id, field_id, nf, pos, with_positions)),
        ),
        None => terms.push(
            (term, count_in_docs(Seq::empty(), doc_id, field_id, nf, pos, with_positions)),
        ),
    }
}

/// The postings after the tokens of a zone, the first at position `pos`;
/// every token, term or gap, takes one position.
pub open spec fn count_tokens(
    terms: TermsV,
    tokens: Seq<Option<Seq<char>>>,
    doc_id: u32,
    field_id: int,
    nf: nat,
    pos: int,
    with_positions: bool,
) -> TermsV
    decreases tokens.len(),
{
    if tokens.len() == 0 {
        terms
    } else {
        let before = count_tokens(terms, tokens.drop_last(), doc_id, field_id, nf, pos, with_positions);
        match tokens.last() {
            Some(t) => count_occurrence(
                before,
                t,
                doc_id,
                field_id,
                nf,
                (pos + tokens.len() - 1) as u32,
                with_positions,
            ),
            None => before,
        }
    }
}

/// How many tokens are terms.
pub open spec fn num_terms(tokens: Seq<Option<Seq<char>>>) -> nat
    decreases tokens.len(),
{
    if tokens.len() == 0 {
        0
    } else {
        num_terms(tokens.drop_last()) + if tokens.last() is Some { 1nat } else { 0nat }
    }
}

/// Every entry has `nf` fields, and the entries are in strictly ascending
/// document id order.
pub open spec fn docs_wf(docs: Seq<TermDocV>, nf: nat) -> bool {
    &&& forall|j: int| 0 <= j < docs.len() ==> (#[trigger] docs[j]).1.len() == nf
    &&& forall|j: int, k: int| 0 <= j < k < docs.len() ==> (#[trigger] docs[j]).0 < (#[trigger] docs[k]).0
}

/// No term occurs twice, and each term's documents are well formed.
pub open spec fn terms_wf(terms: TermsV, nf: nat) -> bool {
    &&& forall|a: int, b: int| 0 <= a < b < terms.len() ==> terms[a].0 != terms[b].0
    &&& forall|i: int| 0 <= i < terms.len() ==> docs_wf(#[trigger] terms[i].1, nf)
}

/// No entry is for a document after `doc_id`, and no frequency in the entry
/// of `doc_id` exceeds `pos`.
pub open spec fn docs_bounded(docs: Seq<TermDocV>, doc_id: u32, pos: int) -> bool {
    &&& forall|j: int| 0 <= j < docs.len() ==> (#[trigger] docs[j]).0 <= doc_id
    &&& forall|j: int, f: int|
        0 <= j < docs.len() && docs[j].0 == doc_id && 0 <= f < docs[j].1.len() ==> #[trigger] docs[j].1[f].0
            <= pos
}

/// While document `doc_id` is indexed with the next position `pos`, the
/// postings hold no later document and no frequency of it above `pos`.
pub open spec fn doc_bounded(terms: TermsV, doc_id: u32, pos: int) -> bool {
    forall|i: int| 0 <= i < terms.len() ==> docs_bounded(#[trigger] terms[i].1, doc_id, pos)
}

proof fn lemma_count_in_docs(
    docs: Seq<TermDocV>,
    doc_id: u32,
    field_id: int,
    nf: nat,
    pos: u32,
    with_positions: bool,
)
    requires
        0 <= field_id < nf,
        pos < u32::MAX,
        docs_wf(docs, nf),
        docs_bounded(docs, doc_id, pos as int),
    ensures
        docs_wf(count_in_docs(docs, doc_id, field_id, nf, pos, with_positions), nf),
        docs_bounded(count_in_docs(docs, doc_id, field_id, nf, pos, with_positions), doc_id, pos + 1),
        count_in_docs(docs, doc_id, field_id, nf, pos, with_positions).len() > 0,
{
    let ds = if docs.len() > 0 && docs.last().0 == doc_id {
        docs
    } else {
        docs.push((doc_id, fresh_fields(nf)))
    };
    if !(docs.len() > 0 && docs.last().0 == doc_id) && docs.len() > 0 {
        assert(docs.last().0 < doc_id);
    }
    assert(docs_wf(ds, nf));
    assert(docs_bounded(ds, doc_id, pos as int));
    let r = count_in_docs(docs, doc_id, field_id, nf, pos, with_positions);
    let n = ds.len() - 1;
    assert forall|j: int| 0 <= j < r.len() implies (#[trigger] r[j]).1.len() == nf by {
        assert(ds[j].1.len() == nf);
    }
    assert forall|j: int, k: int| 0 <= j < k < r.len() implies (#[trigger] r[j]).0 < (#[trigger] r[k]).0 by {
        assert(ds[j].0 < ds[k].0);
    }
    assert forall|j: int| 0 <= j < r.len() implies (#[trigger] r[j]).0 <= doc_id by {
        assert(ds[j].0 <= doc_id);
    }
    assert forall|j: int, f: int|
        0 <= j < r.len() && r[j].0 == doc_id && 0 <= f < r[j].1.len() implies #[trigger] r[j].1[f].0 <= pos + 1 by {
        assert(ds[j].0 == doc_id);
        if j == n && f == field_id {
            assert(ds[j].1[f].0 <= pos);
        } else {
            assert(r[j].1[f] == ds[j].1[f]);
        }
    }
}

proof fn lemma_bounded_mono(terms: TermsV, doc_id: u32, p: int, q: int)
    requires
        p <= q,
        doc_bounded(terms, doc_id, p) || doc_bounded(terms, doc_id, q),
    ensures
        doc_bounded(terms, doc_id, q),
{
    if !doc_bounded(terms, doc_id, q) {
        assert forall|x: int| 0 <= x < terms.len() implies docs_bounded(#[trigger] terms[x].1, doc_id, q) by {
            assert(docs_bounded(terms[x].1, doc_id, p));
        }
    }
}

/// Counting an occurrence keeps the postings well formed and bounded.
proof fn lemma_count_occurrence(
    terms: TermsV,
    term: Seq<char>,
    doc_id: u32,
    field_id: int,
    nf: nat,
    pos: u32,
    with_positions: bool,
)
    requires
        0 <= field_id < nf,
        pos < u32::MAX,
        terms_wf(terms, nf),
        doc_bounded(terms, doc_id, pos as int),
    ensures
        terms_wf(count_occurrence(terms, term, doc_id, field_id, nf, pos, with_positions), nf),
        doc_bounded(count_occurrence(terms, term, doc_id, field_id, nf, pos, with_positions), doc_id, pos + 1),
{
    let r = count_occurrence(terms, term, doc_id, field_id, nf, pos, with_positions);
    match find_key(terms, term) {
        Some(i) => {
            lemma_count_in_docs(terms[i].1, doc_id, field_id, nf, pos, with_positions);
            assert forall|a: int, b: int| 0 <= a < b < r.len() implies r[a].0 != r[b].0 by {
                assert(terms[a].0 != terms[b].0);
            }
            assert forall|x: int| 0 <= x < r.len() implies docs_bounded(#[trigger] r[x].1, doc_id, pos + 1) by {
                if x != i {
                    assert(docs_bounded(terms[x].1, doc_id, pos as int));
                }
            }
        },
        None => {
            assert(docs_wf(Seq::<TermDocV>::empty(), nf));
            assert(docs_bounded(Seq::<TermDocV>::empty(), doc_id, pos as int));
            lemma_count_in_docs(Seq::empty(), doc_id, field_id, nf, pos, with_positions);
            assert forall|a: int, b: int| 0 <= a < b < r.len() implies r[a].0 != r[b].0 by {
                if b == terms.len() {
                    assert(terms[a].0 != term);
                }
            }
            assert forall|x: int| 0 <= x < r.len() implies docs_bounded(#[trigger] r[x].1, doc_id, pos + 1) by {
                if x < terms.len() {
                    assert(docs_bounded(terms[x].1, doc_id, pos as int));
                }
            }
        },
    }
}

/// `nf` fields where the term does not occur.
fn fresh_doc_fields(nf: usize) -> (res: Vec<DocField>)
    ensures
        res@.len() == nf,
        res@.map_values(|f: DocField| f@) == fresh_fields(nf as nat),
{
    let mut res: Vec<DocField> = Vec::new();
    let mut i: usize = 0;
    while i < nf
        invariant
            i <= nf,
            res@.map_values(|f: DocField| f@) == fresh_fields(i as nat),
        decreases nf - i,
    {
        let ghost prev = res@;
        res.push(DocField::default());
        assert(res@.map_values(|f: DocField| f@) =~= prev.map_values(|f: DocField| f@).push(
            (0u32, Seq::<u32>::empty()),
        ));
        i = i + 1;
        assert(fresh_fields(i as nat) =~= fresh_fields((i - 1) as nat).push((0u32, Seq::<u32>::empty())));
    }
    res
}

/// Counts one occurrence in the last entry of `docs`, adding an entry for
/// `doc_id` first unless the last one is that document.
fn count_in_term_docs(
    docs: &mut Vec<TermDoc>,
    doc_id: u32,
    field_id: usize,
    nf: usize,
    pos: u32,
    with_positions: bool,
)
    requires
        field_id < nf,
        forall|j: int| 0 <= j < old(docs)@.len() ==> (#[trigger] old(docs)@[j]).doc_fields@.len() == nf,
        old(docs)@.len() > 0 && old(docs)@.last().doc_id == doc_id ==> old(docs)@.last().doc_fields@[field_id as int].field_tf
            < u32::MAX,
    ensures
        docs_view(final(docs)@) == count_in_docs(
            docs_view(old(docs)@),
            doc_id,
            field_id as int,
            nf as nat,
            pos,
            with_positions,
        ),
{
    let n = docs.len();
    if n == 0 || docs[n - 1].doc_id != doc_id {
        let fields = fresh_doc_fields(nf);
        assert(fields@[field_id as int]@ == fresh_fields(nf as nat)[field_id as int]);
        docs.push(TermDoc { doc_id, doc_fields: fields });
    }
    let ghost mid = docs@;
    assert(docs@.last().doc_fields@.len() == nf);
    assert(docs@.last().doc_fields@[field_id as int].field_tf < u32::MAX);
    let mut last = docs.pop().unwrap();
    let ghost ml = last;
    let mut f = last.doc_fields[field_id].clone();
    f.field_tf = f.field_tf + 1;
    if with_positions {
        f.positions.push(pos);
    }
    assert(f@ == count_in_field(ml@.1[field_id as int], pos, with_positions));
    last.doc_fields.set(field_id, f);
    assert(last@.1 =~= ml@.1.update(field_id as int, count_in_field(ml@.1[field_id as int], pos, with_positions)));
    docs.push(last);
    assert(docs@ =~= mid.update(mid.len() - 1, last));
    assert(docs_view(docs@) =~= docs_view(mid).update(mid.len() - 1, last@));
    assert(docs_view(mid) =~= (if docs_view(old(docs)@).len() > 0 && docs_view(old(docs)@).last().0 == doc_id {
        docs_view(old(docs)@)
    } else {
        docs_view(old(docs)@).push((doc_id, fresh_fields(nf as nat)))
    }));
    assert(docs_view(docs@) =~= count_in_docs(
        docs_view(old(docs)@),
        doc_id,
        field_id as int,
        nf as nat,
        pos,
        with_positions,
    ));
}

/// Counts one occurrence of `term` at `pos` in field `field_id` of document
/// `doc_id`.
fn count_term(
    terms: &mut Vec<(String, Vec<TermDoc>)>,
    term: String,
    doc_id: u32,
    field_id: usize,
    nf: usize,
    pos: u32,
    with_positions: bool,
)
    requires
        field_id < nf,
        pos < u32::MAX,
        terms_wf(terms_view(old(terms)@), nf as nat),
        doc_bounded(terms_view(old(terms)@), doc_id, pos as int),
    ensures
        terms_view(final(terms)@) == count_occurrence(
            terms_view(old(terms)@),
            term@,
            doc_id,
            field_id as int,
            nf as nat,
            pos,
            with_positions,
        ),
{
    let ghost tv = terms_view(terms@);
    let mut i: usize = 0;
    while i < terms.len()
        invariant
            i <= terms@.len(),
            tv == terms_view(terms@),
            terms@ == old(terms)@,
            forall|x: int| 0 <= x < i ==> tv[x].0 != term@,
            field_id < nf,
            pos < u32::MAX,
            terms_wf(tv, nf as nat),
            doc_bounded(tv, doc_id, pos as int),
        decreases terms@.len() - i,
    {
        if terms[i].0 == term {
            assert(tv[i as int].0 == term@);
            assert(find_key(tv, term@) == Some(i as int)) by {
                let c = choose|c: int| 0 <= c < tv.len() && tv[c].0 == term@;
                if c != i as int {
                    assert(tv[c].0 != tv[i as int].0);
                }
            }
            let ghost docs_before = terms@[i as int].1@;
            assert(tv[i as int].1 == docs_view(docs_before));
            assert forall|j: int| 0 <= j < docs_before.len() implies (#[trigger] docs_before[j]).doc_fields@.len() == nf by {
                assert(tv[i as int].1[j] == docs_before[j]@);
            }
            assert(docs_before.len() > 0 && docs_before.last().doc_id == doc_id ==> docs_before.last().doc_fields@[field_id as int].field_tf
                < u32::MAX) by {
                if docs_before.len() > 0 && docs_before.last().doc_id == doc_id {
                    let j = docs_before.len() - 1;
                    assert(tv[i as int].1[j] == docs_before[j]@);
                    assert(tv[i as int].1[j].1[field_id as int] == docs_before[j].doc_fields@[field_id as int]@);
                }
            }
            count_in_term_docs(&mut terms[i].1, doc_id, field_id, nf, pos, with_positions);
            assert(terms_view(terms@) =~= tv.update(
                i as int,
                (term@, count_in_docs(tv[i as int].1, doc_id, field_id as int, nf as nat, pos, with_positions)),
            ));
            assert(terms_view(terms@) == count_occurrence(tv, term@, doc_id, field_id as int, nf as nat, pos, with_positions));
            return;
        }
        i = i + 1;
    }
    assert(find_key(tv, term@) is None);
    let mut docs: Vec<TermDoc> = Vec::new();
    count_in_term_docs(&mut docs, doc_id, field_id, nf, pos, with_positions);
    assert(docs_view(Seq::<TermDoc>::empty()) =~= Seq::<TermDocV>::empty());
    terms.push((term, docs));
    assert(terms_view(terms@) =~= tv.push(
        (term@, count_in_docs(Seq::empty(), doc_id, field_id as int, nf as nat, pos, with_positions)),
    ));
}

/// The bytes of a string.
pub open spec fn bytes_of(s: Seq<char>) -> Seq<u8> {
    vstd::utf8::encode_utf8(s)
}

/// The record of a stored field, `["name","text"]`, after a comma unless it
/// is the first of its document.
pub open spec fn stored_field(first: bool, escaped_name: Seq<char>, text: Seq<char>) -> Seq<u8> {
    (if first { Seq::empty() } else { seq![44u8] }) + seq![91u8, 34u8] + bytes_of(escaped_name) + seq![
        34u8,
        44u8,
        34u8,
    ] + spec_escape(bytes_of(text)) + seq![34u8, 93u8]
}

/// Appends `b`.
pub(crate) fn extend_bytes(out: &mut Vec<u8>, b: &[u8])
    ensures
        final(out)@ == old(out)@ + b@,
{
    let mut i: usize = 0;
    while i < b.len()
        invariant
            i <= b@.len(),
            out@ == old(out)@ + b@.subrange(0, i as int),
        decreases b@.len() - i,
    {
        out.push(b[i]);
        i = i + 1;
        assert(out@ =~= old(out)@ + b@.subrange(0, i as int));
    }
    assert(b@.subrange(0, i as int) =~= b@);
}

/// Counts the tokens of a zone in field `field_id` of document `doc_id`,
/// advancing the position by one per token and the field length by one per
/// term.
fn count_zone_tokens(
    terms: &mut Vec<(String, Vec<TermDoc>)>,
    field_lengths: &mut Vec<u32>,
    pos: &mut u32,
    tokens: &Vec<Option<String>>,
    doc_id: u32,
    field_id: usize,
    nf: usize,
    with_positions: bool,
)
    requires
        field_id < nf,
        old(field_lengths)@.len() == nf,
        *old(pos) + tokens@.len() <= u32::MAX,
        terms_wf(terms_view(old(terms)@), nf as nat),
        doc_bounded(terms_view(old(terms)@), doc_id, *old(pos) as int),
        forall|f: int| 0 <= f < nf ==> #[trigger] old(field_lengths)@[f] <= *old(pos),
    ensures
        terms_view(final(terms)@) == count_tokens(
            terms_view(old(terms)@),
            opt_strings_seq(tokens@),
            doc_id,
            field_id as int,
            nf as nat,
            *old(pos) as int,
            with_positions,
        ),
        *final(pos) == *old(pos) + tokens@.len(),
        final(field_lengths)@ == old(field_lengths)@.update(
            field_id as int,
            (old(field_lengths)@[field_id as int] + num_terms(opt_strings_seq(tokens@))) as u32,
        ),
        terms_wf(terms_view(final(terms)@), nf as nat),
        doc_bounded(terms_view(final(terms)@), doc_id, *final(pos) as int),
        forall|f: int| 0 <= f < nf ==> #[trigger] final(field_lengths)@[f] <= *final(pos),
{
    let ghost toks = opt_strings_seq(tokens@);
    let ghost t0 = terms_view(terms@);
    let ghost p0 = *pos;
    let ghost l0 = field_lengths@;
    let mut i: usize = 0;
    assert(toks.subrange(0, 0) =~= Seq::<Option<Seq<char>>>::empty());
    assert(l0 =~= l0.update(field_id as int, (l0[field_id as int] + num_terms(toks.subrange(0, 0))) as u32));
    while i < tokens.len()
        invariant
            i <= tokens@.len(),
            toks == opt_strings_seq(tokens@),
            field_id < nf,
            l0.len() == nf,
            p0 + tokens@.len() <= u32::MAX,
            *pos == p0 + i,
            terms_view(terms@) == count_tokens(t0, toks.subrange(0, i as int), doc_id, field_id as int, nf as nat, p0 as int, with_positions),
            field_lengths@ == l0.update(field_id as int, (l0[field_id as int] + num_terms(toks.subrange(0, i as int))) as u32),
            l0[field_id as int] + num_terms(toks.subrange(0, i as int)) <= *pos,
            terms_wf(terms_view(terms@), nf as nat),
            doc_bounded(terms_view(terms@), doc_id, *pos as int),
            forall|f: int| 0 <= f < nf ==> #[trigger] field_lengths@[f] <= *pos,
            forall|f: int| 0 <= f < nf ==> #[trigger] l0[f] <= p0,
        decreases tokens@.len() - i,
    {
        let ghost sub = toks.subrange(0, i + 1);
        assert(sub.drop_last() =~= toks.subrange(0, i as int));
        assert(sub.last() == toks[i as int]);
        match &tokens[i] {
            Some(t) => {
                let term = t.clone();
                let ghost before = terms_view(terms@);
                proof {
                    lemma_count_occurrence(before, term@, doc_id, field_id as int, nf as nat, *pos, with_positions);
                }
                count_term(terms, term, doc_id, field_id, nf, *pos, with_positions);
                let len = field_lengths[field_id];
                field_lengths.set(field_id, len + 1);
            },
            None => {},
        }
        *pos = *pos + 1;
        i = i + 1;
        assert(field_lengths@ =~= l0.update(field_id as int, (l0[field_id as int] + num_terms(toks.subrange(0, i as int))) as u32));
        assert forall|f: int| 0 <= f < nf implies #[trigger] field_lengths@[f] <= *pos by {
            if f != field_id {
                assert(field_lengths@[f] == l0[f]);
            }
        }
        proof {
            lemma_bounded_mono(terms_view(terms@), doc_id, *pos - 1, *pos as int);
        }
    }
    assert(toks.subrange(0, i as int) =~= toks);
}

/// What the miner reads of a field's configuration.
pub struct FieldInfo {
    pub name: String,
    /// The name as written in the stored-field records.
    pub escaped_name: String,
    /// The field's index among the scored fields.
    pub id: usize,
    /// The field's index among the enum fields, if it is one.
    pub enum_id: Option<usize>,
    /// The field's index among the number fields, if it is one.
    pub i64_id: Option<usize>,
    /// Whether its text is stored with the document.
    pub store_text: bool,
    /// Whether its terms are indexed (a weight other than zero).
    pub is_scored: bool,
}

/// The configured fields.
pub struct FieldInfos {
    pub field_infos_by_name: Vec<FieldInfo>,
    pub num_scored_fields: usize,
    pub num_enum_fields: usize,
    pub num_i64_fields: usize,
}

/// The first field named `name`, if any.
pub open spec fn find_field(infos: Seq<FieldInfo>, name: Seq<char>) -> Option<int> {
    if exists|i: int| 0 <= i < infos.len() && infos[i].name@ == name {
        Some(
            choose|i: int|
                0 <= i < infos.len() && infos[i].name@ == name && forall|k: int|
                    0 <= k < i ==> infos[k].name@ != name,
        )
    } else {
        None
    }
}

impl FieldInfos {
    /// Every index of a field is within its kind's count.
    pub open spec fn wf(&self) -> bool {
        forall|i: int|
            0 <= i < self.field_infos_by_name@.len() ==> {
                let fi = #[trigger] self.field_infos_by_name@[i];
                &&& fi.is_scored ==> fi.id < self.num_scored_fields
                &&& fi.enum_id matches Some(e) ==> e < self.num_enum_fields
                &&& fi.i64_id matches Some(n) ==> n < self.num_i64_fields
            }
    }

    /// The position of the field named `name`.
    pub fn find(&self, name: &String) -> (res: Option<usize>)
        ensures
            res matches Some(i) ==> i < self.field_infos_by_name@.len() && find_field(self.field_infos_by_name@, name@)
                == Some(i as int),
            res is None ==> find_field(self.field_infos_by_name@, name@) is None,
    {
        let mut i: usize = 0;
        while i < self.field_infos_by_name.len()
            invariant
                i <= self.field_infos_by_name@.len(),
                forall|k: int| 0 <= k < i ==> self.field_infos_by_name@[k].name@ != name@,
            decreases self.field_infos_by_name@.len() - i,
        {
            if self.field_infos_by_name[i].name == *name {
                let ghost infos = self.field_infos_by_name@;
                assert(find_field(infos, name@) == Some(i as int)) by {
                    let c = choose|c: int|
                        0 <= c < infos.len() && infos[c].name@ == name@ && forall|k: int|
                            0 <= k < c ==> infos[k].name@ != name@;
                    assert(infos[i as int].name@ == name@);
                    if c > i {
                        assert(infos[i as int].name@ != name@);
                    }
                }
                return Some(i);
            }
            i = i + 1;
        }
        None
    }
}

/// What is gathered of a document while its zones are processed.
pub struct DocState {
    pub is_first_stored_field: bool,
    /// The stored-field records written so far.
    pub field_store: Vec<u8>,
    pub doc_enums: Vec<String>,
    pub doc_nums: Vec<Option<i64>>,
    pub field_lengths: Vec<u32>,
    /// The position of the next token.
    pub pos: u32,
}

/// The value of a document's state: whether no field is stored yet, the
/// stored-field bytes, the enum values, the numbers, the field lengths and
/// the next position.
pub type DocStateV = (bool, Seq<u8>, Seq<Seq<char>>, Seq<Option<i64>>, Seq<u32>, u32);

impl View for DocState {
    type V = DocStateV;

    open spec fn view(&self) -> DocStateV {
        (
            self.is_first_stored_field,
            self.field_store@,
            self.doc_enums@.map_values(|s: String| s@),
            self.doc_nums@,
            self.field_lengths@,
            self.pos,
        )
    }
}

/// The information gathered of one document.
pub struct WorkerMinerDocInfo {
    pub doc_id: u32,
    pub doc_enums: Vec<String>,
    pub doc_nums: Vec<Option<i64>>,
    pub field_lengths: Vec<u32>,
    /// The stored fields, as a JSON array of `[name, text]` pairs.
    pub field_texts: Vec<u8>,
}

/// The postings and document information of one block.
pub struct WorkerBlockIndexResults {
    pub terms: Vec<(String, Vec<TermDoc>)>,
    pub doc_infos: Vec<WorkerMinerDocInfo>,
}

/// Builds the postings of the documents handed to one worker.
///
/// The terms are a `Vec` of distinct terms, each with its documents, in
/// place of a hash map keyed by the term: with `String` keys Verus proves
/// next to nothing of a map's contents, while the vector's contents are
/// stated exactly (see `wf`).
pub struct WorkerMiner<T: IndexerTokenizer> {
    pub field_infos: FieldInfos,
    pub with_positions: bool,
    pub terms: Vec<(String, Vec<TermDoc>)>,
    pub doc_infos: Vec<WorkerMinerDocInfo>,
    pub tokenizer: T,
}

/// Appends the stored-field record of a zone.
fn record_stored_field(doc: &mut DocState, escaped_name: &String, text: &String)
    ensures
        final(doc)@ == (
            false,
            old(doc)@.1 + stored_field(old(doc)@.0, escaped_name@, text@),
            old(doc)@.2,
            old(doc)@.3,
            old(doc)@.4,
            old(doc)@.5,
        ),
{
    if !doc.is_first_stored_field {
        doc.field_store.push(44);
    } else {
        doc.is_first_stored_field = false;
    }
    doc.field_store.push(91);
    doc.field_store.push(34);
    extend_bytes(&mut doc.field_store, escaped_name.as_str().as_bytes());
    doc.field_store.push(34);
    doc.field_store.push(44);
    doc.field_store.push(34);
    let escaped = escape(text.as_str().as_bytes());
    extend_bytes(&mut doc.field_store, escaped.as_slice());
    doc.field_store.push(34);
    doc.field_store.push(93);
    assert(doc.field_store@ =~= old(doc).field_store@ + stored_field(
        old(doc).is_first_stored_field,
        escaped_name@,
        text@,
    ));
}

/// Sets enum value `e` to `text` unless one is set already.
fn record_enum(doc: &mut DocState, e: usize, text: &String)
    requires
        e < old(doc).doc_enums@.len(),
    ensures
        final(doc)@ == (
            old(doc)@.0,
            old(doc)@.1,
            if old(doc)@.2[e as int].len() == 0 { old(doc)@.2.update(e as int, text@) } else { old(doc)@.2 },
            old(doc)@.3,
            old(doc)@.4,
            old(doc)@.5,
        ),
{
    if doc.doc_enums[e].as_str().is_empty() {
        let ghost prev = doc.doc_enums@;
        doc.doc_enums.set(e, text.clone());
        assert(doc.doc_enums@.map_values(|s: String| s@) =~= prev.map_values(|s: String| s@).update(e as int, text@));
    }
}

/// Sets number `n` to `num` unless one is set already.
fn record_num(doc: &mut DocState, n: usize, num: Option<i64>)
    requires
        n < old(doc).doc_nums@.len(),
    ensures
        final(doc)@ == (
            old(doc)@.0,
            old(doc)@.1,
            old(doc)@.2,
            if old(doc)@.3[n as int] is None { old(doc)@.3.update(n as int, num) } else { old(doc)@.3 },
            old(doc)@.4,
            old(doc)@.5,
        ),
{
    if doc.doc_nums[n].is_none() {
        doc.doc_nums.set(n, num);
    }
}

/// No document of the postings comes at or after `doc_id`.
pub open spec fn doc_is_new(terms: TermsV, doc_id: u32) -> bool {
    forall|i: int, j: int| 0 <= i < terms.len() && 0 <= j < terms[i].1.len() ==> (#[trigger] terms[i].1[j]).0 < doc_id
}

impl<T: IndexerTokenizer> WorkerMiner<T> {
    /// The number of scored fields.
    pub open spec fn nf(&self) -> nat {
        self.field_infos.num_scored_fields as nat
    }

    /// The configuration is consistent and the postings well formed.
    pub open spec fn wf(&self) -> bool {
        &&& self.field_infos.wf()
        &&& terms_wf(terms_view(self.terms@), self.nf())
    }

    /// A document's state fits the configured fields, and the postings hold
    /// nothing beyond it.
    pub open spec fn doc_wf(&self, doc_id: u32, d: DocStateV, terms: TermsV) -> bool {
        &&& d.2.len() == self.field_infos.num_enum_fields
        &&& d.3.len() == self.field_infos.num_i64_fields
        &&& d.4.len() == self.field_infos.num_scored_fields
        &&& forall|f: int| 0 <= f < d.4.len() ==> #[trigger] d.4[f] <= d.5
        &&& doc_bounded(terms, doc_id, d.5 as int)
    }

    /// The state of a document before its first zone: no stored field yet
    /// after the opening bracket, empty enum values, no numbers, zero lengths.
    pub open spec fn new_doc_state(&self) -> DocStateV {
        (
            true,
            seq![91u8],
            Seq::new(self.field_infos.num_enum_fields as nat, |i: int| Seq::<char>::empty()),
            Seq::new(self.field_infos.num_i64_fields as nat, |i: int| None::<i64>),
            Seq::new(self.nf(), |i: int| 0u32),
            0u32,
        )
    }

    /// The tokens of a zone's text.
    pub open spec fn zone_tokens(&self, text: Seq<char>) -> Seq<Option<Seq<char>>> {
        self.tokenizer.spec_index_terms(text)
    }

    /// How many positions a zone takes: one per token and its separation
    /// when its field is scored, none otherwise.
    #[verifier::opaque]
    pub open spec fn zone_positions(&self, zone: Zone) -> nat {
        match find_field(self.field_infos.field_infos_by_name@, zone.field_name@) {
            Some(k) => if self.field_infos.field_infos_by_name@[k].is_scored {
                self.zone_tokens(zone.field_text@).len() + zone.separation as nat
            } else {
                0
            },
            None => 0,
        }
    }

    /// The postings and document state after one zone. A zone of an unknown
    /// field changes nothing. Otherwise its text is stored when the field is
    /// stored, becomes the enum value when none is set yet, `num` becomes the
    /// number when none is set yet, and when the field is scored its terms are
    /// counted, its length grows by the number of terms and the position
    /// moves past its tokens and its separation.
    #[verifier::opaque]
    pub open spec fn zone_effect(
        &self,
        doc_id: u32,
        terms: TermsV,
        d: DocStateV,
        zone: Zone,
        num: Option<i64>,
    ) -> (TermsV, DocStateV) {
        match find_field(self.field_infos.field_infos_by_name@, zone.field_name@) {
            None => (terms, d),
            Some(k) => {
                let fi = self.field_infos.field_infos_by_name@[k];
                let text = zone.field_text@;
                let first = if fi.store_text { false } else { d.0 };
                let store = if fi.store_text {
                    d.1 + stored_field(d.0, fi.escaped_name@, text)
                } else {
                    d.1
                };
                let enums = match fi.enum_id {
                    Some(e) => if d.2[e as int].len() == 0 { d.2.update(e as int, text) } else { d.2 },
                    None => d.2,
                };
                let nums = match fi.i64_id {
                    Some(n) => if d.3[n as int] is None { d.3.update(n as int, num) } else { d.3 },
                    None => d.3,
                };
                if fi.is_scored {
                    let toks = self.zone_tokens(text);
                    (
                        count_tokens(terms, toks, doc_id, fi.id as int, self.nf(), d.5 as int, self.with_positions),
                        (
                            first,
                            store,
                            enums,
                            nums,
                            d.4.update(fi.id as int, (d.4[fi.id as int] + num_terms(toks)) as u32),
                            (d.5 + toks.len() + zone.separation) as u32,
                        ),
                    )
                } else {
                    (terms, (first, store, enums, nums, d.4, d.5))
                }
            },
        }
    }

    /// The postings and document state after the zones, the zone at `i`
    /// taking the number `nums[i]`.
    #[verifier::opaque]
    pub open spec fn zones_effect(
        &self,
        doc_id: u32,
        terms: TermsV,
        d: DocStateV,
        zones: Seq<Zone>,
        nums: Seq<Option<i64>>,
    ) -> (TermsV, DocStateV)
        decreases zones.len(),
    {
        if zones.len() == 0 {
            (terms, d)
        } else {
            let prev = self.zones_effect(doc_id, terms, d, zones.drop_last(), nums);
            self.zone_effect(doc_id, prev.0, prev.1, zones.last(), nums[zones.len() - 1])
        }
    }

    /// How many positions the zones take together.
    #[verifier::opaque]
    pub open spec fn zones_positions(&self, zones: Seq<Zone>) -> nat
        decreases zones.len(),
    {
        if zones.len() == 0 {
            0
        } else {
            self.zones_positions(zones.drop_last()) + self.zone_positions(zones.last())
        }
    }

    /// A miner with no postings and no documents.
    pub fn new(
        field_infos: FieldInfos,
        with_positions: bool,
        expected_num_docs_per_reset: usize,
        tokenizer: T,
    ) -> (res: Self)
        ensures
            res.field_infos == field_infos,
            res.with_positions == with_positions,
            res.tokenizer == tokenizer,
            res.terms@.len() == 0,
            res.doc_infos@.len() == 0,
    {
        WorkerMiner {
            field_infos,
            with_positions,
            terms: Vec::new(),
            doc_infos: Vec::with_capacity(expected_num_docs_per_reset),
            tokenizer,
        }
    }

    /// The state of a document before its first zone.
    pub fn start_doc(&self) -> (res: DocState)
        ensures
            res@ == self.new_doc_state(),
    {
        let mut doc_enums: Vec<String> = Vec::new();
        let mut i: usize = 0;
        while i < self.field_infos.num_enum_fields
            invariant
                i <= self.field_infos.num_enum_fields,
                doc_enums@.map_values(|s: String| s@) == Seq::new(i as nat, |x: int| Seq::<char>::empty()),
            decreases self.field_infos.num_enum_fields - i,
        {
            let ghost prev = doc_enums@;
            let empty = String::new();
            assert(empty@ =~= Seq::<char>::empty());
            doc_enums.push(empty);
            assert(doc_enums@.map_values(|s: String| s@) =~= prev.map_values(|s: String| s@).push(Seq::<char>::empty()));
            i = i + 1;
            assert(doc_enums@.map_values(|s: String| s@) =~= Seq::new(i as nat, |x: int| Seq::<char>::empty()));
        }
        let mut doc_nums: Vec<Option<i64>> = Vec::new();
        let mut i: usize = 0;
        while i < self.field_infos.num_i64_fields
            invariant
                i <= self.field_infos.num_i64_fields,
                doc_nums@ == Seq::new(i as nat, |x: int| None::<i64>),
            decreases self.field_infos.num_i64_fields - i,
        {
            doc_nums.push(None);
            i = i + 1;
            assert(doc_nums@ =~= Seq::new(i as nat, |x: int| None::<i64>));
        }
        let mut field_lengths: Vec<u32> = Vec::new();
        let mut i: usize = 0;
        while i < self.field_infos.num_scored_fields
            invariant
                i <= self.field_infos.num_scored_fields,
                field_lengths@ == Seq::new(i as nat, |x: int| 0u32),
            decreases self.field_infos.num_scored_fields - i,
        {
            field_lengths.push(0);
            i = i + 1;
            assert(field_lengths@ =~= Seq::new(i as nat, |x: int| 0u32));
        }
        let mut field_store: Vec<u8> = Vec::new();
        field_store.push(91);
        assert(field_store@ =~= seq![91u8]);
        DocState { is_first_stored_field: true, field_store, doc_enums, doc_nums, field_lengths, pos: 0 }
    }
}

impl<T: IndexerTokenizer> WorkerMiner<T> {
    /// Processes one zone of document `doc_id`; `num` is the zone's text read
    /// as a number by its field's parse strategy, when the field holds
    /// numbers.
    pub fn process_zone(&mut self, doc_id: u32, doc: &mut DocState, zone: Zone, num: Option<i64>)
        requires
            old(self).wf(),
            old(self).doc_wf(doc_id, old(doc)@, terms_view(old(self).terms@)),
            old(doc).pos + old(self).zone_positions(zone) <= u32::MAX,
        ensures
            (terms_view(final(self).terms@), final(doc)@) == old(self).zone_effect(
                doc_id,
                terms_view(old(self).terms@),
                old(doc)@,
                zone,
                num,
            ),
            final(self).field_infos == old(self).field_infos,
            final(self).with_positions == old(self).with_positions,
            final(self).tokenizer == old(self).tokenizer,
            final(self).doc_infos == old(self).doc_infos,
            final(self).wf(),
            final(self).doc_wf(doc_id, final(doc)@, terms_view(final(self).terms@)),
            final(doc).pos == old(doc).pos + old(self).zone_positions(zone),
    {
        reveal(WorkerMiner::zone_effect);
        reveal(WorkerMiner::zone_positions);
        let k = match self.field_infos.find(&zone.field_name) {
            Some(k) => k,
            None => {
                return;
            },
        };
        let ghost fi = self.field_infos.field_infos_by_name@[k as int];
        assert(self.field_infos.wf());
        assert(fi == self.field_infos.field_infos_by_name@[k as int]);
        let store_text = self.field_infos.field_infos_by_name[k].store_text;
        let enum_id = self.field_infos.field_infos_by_name[k].enum_id;
        let i64_id = self.field_infos.field_infos_by_name[k].i64_id;
        let is_scored = self.field_infos.field_infos_by_name[k].is_scored;
        let field_id = self.field_infos.field_infos_by_name[k].id;
        if store_text {
            record_stored_field(doc, &self.field_infos.field_infos_by_name[k].escaped_name, &zone.field_text);
        }
        match enum_id {
            Some(e) => record_enum(doc, e, &zone.field_text),
            None => {},
        }
        match i64_id {
            Some(n) => record_num(doc, n, num),
            None => {},
        }
        if !is_scored {
            return;
        }
        let nf = self.field_infos.num_scored_fields;
        let tokens = self.tokenizer.tokenize(zone.field_text);
        count_zone_tokens(
            &mut self.terms,
            &mut doc.field_lengths,
            &mut doc.pos,
            &tokens,
            doc_id,
            field_id,
            nf,
            self.with_positions,
        );
        let ghost p = doc.pos;
        doc.pos = doc.pos + zone.separation;
        proof {
            lemma_bounded_mono(terms_view(self.terms@), doc_id, p as int, doc.pos as int);
        }
    }
}

/// The value of a document's information: its id, enum values, numbers,
/// field lengths and stored fields.
pub open spec fn doc_info_view(info: WorkerMinerDocInfo) -> (u32, Seq<Seq<char>>, Seq<Option<i64>>, Seq<u32>, Seq<u8>) {
    (info.doc_id, info.doc_enums@.map_values(|s: String| s@), info.doc_nums@, info.field_lengths@, info.field_texts@)
}

/// The information of document `doc_id` once its zones are processed: the
/// stored fields are closed with a bracket.
pub open spec fn finished_doc(doc_id: u32, d: DocStateV) -> (u32, Seq<Seq<char>>, Seq<Option<i64>>, Seq<u32>, Seq<u8>) {
    (doc_id, d.2, d.3, d.4, d.1.push(93u8))
}

impl<T: IndexerTokenizer> WorkerMiner<T> {
    proof fn lemma_zones_empty(&self, doc_id: u32, terms: TermsV, d: DocStateV, nums: Seq<Option<i64>>)
        ensures
            self.zones_effect(doc_id, terms, d, Seq::empty(), nums) == (terms, d),
            self.zones_positions(Seq::empty()) == 0,
    {
        reveal(WorkerMiner::zones_effect);
        reveal(WorkerMiner::zones_positions);
    }

    /// The zone functions read only the configuration.
    proof fn lemma_same_config(&self, other: Self)
        requires
            other.field_infos == self.field_infos,
            other.tokenizer == self.tokenizer,
            other.with_positions == self.with_positions,
        ensures
            forall|zone: Zone| #[trigger] other.zone_positions(zone) == self.zone_positions(zone),
            forall|doc_id: u32, terms: TermsV, d: DocStateV, zone: Zone, num: Option<i64>|
                #[trigger] other.zone_effect(doc_id, terms, d, zone, num) == self.zone_effect(doc_id, terms, d, zone, num),
            forall|doc_id: u32, d: DocStateV, terms: TermsV|
                #[trigger] other.doc_wf(doc_id, d, terms) == self.doc_wf(doc_id, d, terms),
    {
        reveal(WorkerMiner::zone_effect);
        reveal(WorkerMiner::zone_positions);
    }

    proof fn lemma_zones_step(
        &self,
        doc_id: u32,
        terms: TermsV,
        d: DocStateV,
        zones: Seq<Zone>,
        nums: Seq<Option<i64>>,
        i: int,
    )
        requires
            0 <= i < zones.len(),
        ensures
            self.zones_effect(doc_id, terms, d, zones.subrange(0, i + 1), nums) == ({
                let prev = self.zones_effect(doc_id, terms, d, zones.subrange(0, i), nums);
                self.zone_effect(doc_id, prev.0, prev.1, zones[i], nums[i])
            }),
            self.zones_positions(zones.subrange(0, i + 1)) == self.zones_positions(zones.subrange(0, i))
                + self.zone_positions(zones[i]),
    {
        reveal(WorkerMiner::zones_effect);
        reveal(WorkerMiner::zones_positions);
        assert(zones.subrange(0, i + 1).drop_last() =~= zones.subrange(0, i));
    }

    proof fn lemma_zones_positions_prefix(&self, zones: Seq<Zone>, i: int)
        requires
            0 <= i <= zones.len(),
        ensures
            self.zones_positions(zones.subrange(0, i)) <= self.zones_positions(zones),
        decreases zones.len(),
    {
        reveal(WorkerMiner::zones_positions);
        if i < zones.len() {
            assert(zones.drop_last().subrange(0, i) =~= zones.subrange(0, i));
            self.lemma_zones_positions_prefix(zones.drop_last(), i);
        } else {
            assert(zones.subrange(0, i) =~= zones);
        }
    }

    /// Records the document whose zones are processed.
    pub fn finish_doc(&mut self, doc_id: u32, doc: DocState)
        ensures
            final(self).doc_infos@.len() == old(self).doc_infos@.len() + 1,
            forall|i: int| 0 <= i < old(self).doc_infos@.len() ==> #[trigger] final(self).doc_infos@[i] == old(self).doc_infos@[i],
            doc_info_view(final(self).doc_infos@.last()) == finished_doc(doc_id, doc@),
            final(self).terms == old(self).terms,
            final(self).field_infos == old(self).field_infos,
            final(self).with_positions == old(self).with_positions,
            final(self).tokenizer == old(self).tokenizer,
    {
        let DocState { is_first_stored_field: _, field_store, doc_enums, doc_nums, field_lengths, pos: _ } = doc;
        let mut field_texts = field_store;
        field_texts.push(93);
        self.doc_infos.push(WorkerMinerDocInfo { doc_id, doc_enums, doc_nums, field_lengths, field_texts });
    }

    /// Indexes document `doc_id` from its zones; `nums[i]` is the text of
    /// `field_texts[i]` read as a number by its field's parse strategy, when
    /// the field holds numbers.
    pub fn index_doc(&mut self, doc_id: u32, field_texts: Vec<Zone>, nums: Vec<Option<i64>>)
        requires
            old(self).wf(),
            doc_is_new(terms_view(old(self).terms@), doc_id),
            nums@.len() == field_texts@.len(),
            old(self).zones_positions(field_texts@) <= u32::MAX,
        ensures
            terms_view(final(self).terms@) == old(self).zones_effect(
                doc_id,
                terms_view(old(self).terms@),
                old(self).new_doc_state(),
                field_texts@,
                nums@,
            ).0,
            final(self).doc_infos@.len() == old(self).doc_infos@.len() + 1,
            forall|i: int| 0 <= i < old(self).doc_infos@.len() ==> #[trigger] final(self).doc_infos@[i] == old(self).doc_infos@[i],
            doc_info_view(final(self).doc_infos@.last()) == finished_doc(
                doc_id,
                old(self).zones_effect(
                    doc_id,
                    terms_view(old(self).terms@),
                    old(self).new_doc_state(),
                    field_texts@,
                    nums@,
                ).1,
            ),
            final(self).field_infos == old(self).field_infos,
            final(self).with_positions == old(self).with_positions,
            final(self).tokenizer == old(self).tokenizer,
            final(self).wf(),
    {
        let ghost zones = field_texts@;
        let ghost t0 = terms_view(self.terms@);
        let mut doc = self.start_doc();
        let ghost d0 = doc@;
        proof {
            let tv = t0;
            assert forall|x: int| 0 <= x < tv.len() implies docs_bounded(#[trigger] tv[x].1, doc_id, 0) by {
                assert forall|j: int| 0 <= j < tv[x].1.len() implies (#[trigger] tv[x].1[j]).0 <= doc_id by {
                    assert(tv[x].1[j].0 < doc_id);
                }
                assert forall|j: int, f: int|
                    0 <= j < tv[x].1.len() && tv[x].1[j].0 == doc_id && 0 <= f < tv[x].1[j].1.len() implies #[trigger] tv[x].1[j].1[f].0
                        <= 0 by {
                    assert(tv[x].1[j].0 < doc_id);
                }
            }
            assert(zones.subrange(0, 0) =~= Seq::<Zone>::empty());
            old(self).lemma_zones_empty(doc_id, t0, d0, nums@);
            assert(zones.len() == field_texts.len());
        }
        let mut rest = field_texts;
        let mut i: usize = 0;
        while rest.len() > 0
            invariant
                i <= zones.len() <= usize::MAX,
                rest@ == zones.subrange(i as int, zones.len() as int),
                nums@.len() == zones.len(),
                self.wf(),
                self.field_infos == old(self).field_infos,
                self.with_positions == old(self).with_positions,
                self.tokenizer == old(self).tokenizer,
                self.doc_infos == old(self).doc_infos,
                d0 == old(self).new_doc_state(),
                t0 == terms_view(old(self).terms@),
                old(self).zones_positions(zones) <= u32::MAX,
                old(self).doc_wf(doc_id, doc@, terms_view(self.terms@)),
                doc.pos == old(self).zones_positions(zones.subrange(0, i as int)),
                (terms_view(self.terms@), doc@) == old(self).zones_effect(doc_id, t0, d0, zones.subrange(0, i as int), nums@),
            decreases rest@.len(),
        {
            let zone = rest.remove(0);
            let ghost before = (terms_view(self.terms@), doc@);
            assert(zone == zones[i as int]);
            proof {
                old(self).lemma_zones_positions_prefix(zones, i + 1);
                old(self).lemma_zones_step(doc_id, t0, d0, zones, nums@, i as int);
                old(self).lemma_same_config(*self);
            }
            let num = nums[i];
            self.process_zone(doc_id, &mut doc, zone, num);
            i = i + 1;
            assert(rest@ =~= zones.subrange(i as int, zones.len() as int));
        }
        assert(zones.subrange(0, i as int) =~= zones);
        self.finish_doc(doc_id, doc);
    }

    /// Hands over the postings and document information gathered so far,
    /// leaving none behind.
    pub fn get_results(&mut self) -> (res: WorkerBlockIndexResults)
        ensures
            res.terms@ == old(self).terms@,
            res.doc_infos@ == old(self).doc_infos@,
            final(self).terms@.len() == 0,
            final(self).doc_infos@.len() == 0,
            final(self).field_infos == old(self).field_infos,
            final(self).with_positions == old(self).with_positions,
            final(self).tokenizer == old(self).tokenizer,
    {
        let mut terms: Vec<(String, Vec<TermDoc>)> = Vec::new();
        std::mem::swap(&mut terms, &mut self.terms);
        let mut doc_infos: Vec<WorkerMinerDocInfo> = Vec::new();
        std::mem::swap(&mut doc_infos, &mut self.doc_infos);
        WorkerBlockIndexResults { terms, doc_infos }
    }
}

/// The next document of one worker's postings of a term, with the rest of
/// them; ordered so that a max-heap yields the smallest document id first.
pub struct TermDocComparator(pub TermDoc, pub Vec<TermDoc>);

impl TermDocComparator {
    /// The heap order: the reverse of the document ids' order.
    pub fn heap_cmp(&self, other: &Self) -> (res: std::cmp::Ordering)
        ensures
            res == std::cmp::Ordering::Less <==> other.0.doc_id < self.0.doc_id,
            res == std::cmp::Ordering::Equal <==> other.0.doc_id == self.0.doc_id,
            res == std::cmp::Ordering::Greater <==> other.0.doc_id > self.0.doc_id,
    {
        if other.0.doc_id < self.0.doc_id {
            std::cmp::Ordering::Less
        } else if other.0.doc_id == self.0.doc_id {
            std::cmp::Ordering::Equal
        } else {
            std::cmp::Ordering::Greater
        }
    }

    /// Whether both stand for the same document.
    pub fn same_doc(&self, other: &Self) -> (res: bool)
        ensures
            res == (self.0.doc_id == other.0.doc_id),
    {
        self.0.doc_id == other.0.doc_id
    }
}

/// The next document information of one worker, with the rest of them;
/// ordered so that a max-heap yields the smallest document id first.
pub struct DocIdAndFieldLengthsComparator(pub WorkerMinerDocInfo, pub Vec<WorkerMinerDocInfo>);

impl DocIdAndFieldLengthsComparator {
    /// The heap order: the reverse of the document ids' order.
    pub fn heap_cmp(&self, other: &Self) -> (res: std::cmp::Ordering)
        ensures
            res == std::cmp::Ordering::Less <==> other.0.doc_id < self.0.doc_id,
            res == std::cmp::Ordering::Equal <==> other.0.doc_id == self.0.doc_id,
            res == std::cmp::Ordering::Greater <==> other.0.doc_id > self.0.doc_id,
    {
        if other.0.doc_id < self.0.doc_id {
            std::cmp::Ordering::Less
        } else if other.0.doc_id == self.0.doc_id {
            std::cmp::Ordering::Equal
        } else {
            std::cmp::Ordering::Greater
        }
    }

    /// Whether both stand for the same document.
    pub fn same_doc(&self, other: &Self) -> (res: bool)
        ensures
            res == (self.0.doc_id == other.0.doc_id),
    {
        self.0.doc_id == other.0.doc_id
    }
}

} // verus!
