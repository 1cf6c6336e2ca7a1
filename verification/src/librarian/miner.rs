//! The first-generation worker miner: collects, for each term, the documents
//! it occurs in, and in each document the fields and positions it occurs at.

use vstd::prelude::*;
use crate::librarian::tokenize::{spec_tokenize, tokenize};
use crate::query_parser::strings_model;

verus! {

/// The positions of a term in one field of a document, counted from 1.
pub struct DocField {
    pub field_id: u8,
    pub field_positions: Vec<u32>,
}

/// The fields of a document that a term occurs in, in the order first met.
pub struct TermDoc {
    pub doc_id: u32,
    pub doc_fields: Vec<DocField>,
}

pub type FieldV = (u8, Seq<u32>);

pub type TermDocV = (u32, Seq<FieldV>);

/// Each term with its documents, as plain values.
pub type TermsV = Seq<(Seq<char>, Seq<TermDocV>)>;

impl View for DocField {
    type V = FieldV;

    open spec fn view(&self) -> FieldV {
        (self.field_id, self.field_positions@)
    }
}

impl View for TermDoc {
    type V = TermDocV;

    open spec fn view(&self) -> TermDocV {
        (self.doc_id, self.doc_fields@.map_values(|f: DocField| f@))
    }
}

pub open spec fn docs_view(docs: Seq<TermDoc>) -> Seq<TermDocV> {
    docs.map_values(|d: TermDoc| d@)
}

pub open spec fn terms_view(terms: Seq<(String, Vec<TermDoc>)>) -> TermsV {
    terms.map_values(|e: (String, Vec<TermDoc>)| (e.0@, docs_view(e.1@)))
}

/// The id of the first field named `name`.
pub open spec fn field_id_of(fields: Seq<(Seq<char>, u8)>, name: Seq<char>) -> Option<u8>
    decreases fields.len(),
{
    if fields.len() == 0 {
        None
    } else if fields[0].0 == name {
        Some(fields[0].1)
    } else {
        field_id_of(fields.drop_first(), name)
    }
}

/// The position of `term` among the terms.
pub open spec fn find_term(terms: TermsV, term: Seq<char>) -> Option<int>
    decreases terms.len(),
{
    if terms.len() == 0 {
        None
    } else {
        match find_term(terms.drop_last(), term) {
            Some(i) => Some(i),
            None => if terms.last().0 == term {
                Some(terms.len() - 1)
            } else {
                None
            },
        }
    }
}

/// A term's documents after it occurs at `pos` in field `field_id` of
/// document `doc_id`: the position joins the document's last field when that
/// is `field_id`, else a new field; the document is the last one when that is
/// `doc_id`, else a new one.
pub open spec fn add_position(docs: Seq<TermDocV>, doc_id: u32, field_id: u8, pos: u32) -> Seq<TermDocV> {
    if docs.len() > 0 && docs.last().0 == doc_id {
        let fields = docs.last().1;
        let new_fields = if fields.len() > 0 && fields.last().0 == field_id {
            fields.update(fields.len() - 1, (field_id, fields.last().1.push(pos)))
        } else {
            fields.push((field_id, seq![pos]))
        };
        docs.update(docs.len() - 1, (doc_id, new_fields))
    } else {
        docs.push((doc_id, seq![(field_id, seq![pos])]))
    }
}

/// The postings after one occurrence of `term`.
pub open spec fn add_occurrence(terms: TermsV, term: Seq<char>, doc_id: u32, field_id: u8, pos: u32) -> TermsV {
    match find_term(terms, term) {
        Some(i) => terms.update(i, (term, add_position(terms[i].1, doc_id, field_id, pos))),
        None => terms.push((term, add_position(Seq::empty(), doc_id, field_id, pos))),
    }
}

/// The postings after the terms of one field, the first at position 1.
pub open spec fn index_terms(terms: TermsV, toks: Seq<Seq<char>>, doc_id: u32, field_id: u8) -> TermsV
    decreases toks.len(),
{
    if toks.len() == 0 {
        terms
    } else {
        add_occurrence(
            index_terms(terms, toks.drop_last(), doc_id, field_id),
            toks.last(),
            doc_id,
            field_id,
            toks.len() as u32,
        )
    }
}

/// The postings after the fields of a document, each field's text tokenized.
pub open spec fn index_fields(
    terms: TermsV,
    fields: Seq<(Seq<char>, Seq<char>)>,
    doc_id: u32,
    field_infos: Seq<(Seq<char>, u8)>,
) -> TermsV
    decreases fields.len(),
{
    if fields.len() == 0 {
        terms
    } else {
        index_terms(
            index_fields(terms, fields.drop_last(), doc_id, field_infos),
            spec_tokenize(fields.last().1),
            doc_id,
            field_id_of(field_infos, fields.last().0)->0,
        )
    }
}

/// Every field is known and has fewer than `u32::MAX` terms.
pub open spec fn fields_indexable(fields: Seq<(Seq<char>, Seq<char>)>, field_infos: Seq<(Seq<char>, u8)>) -> bool {
    forall|i: int|
        0 <= i < fields.len() ==> field_id_of(field_infos, (#[trigger] fields[i]).0) is Some
            && spec_tokenize(fields[i].1).len() < u32::MAX
}

pub open spec fn field_infos_view(v: Seq<(String, u8)>) -> Seq<(Seq<char>, u8)> {
    v.map_values(|e: (String, u8)| (e.0@, e.1))
}

pub open spec fn field_texts_view(v: Seq<(String, String)>) -> Seq<(Seq<char>, Seq<char>)> {
    v.map_values(|e: (String, String)| (e.0@, e.1@))
}

/// The terms are distinct.
pub open spec fn terms_distinct(terms: TermsV) -> bool {
    forall|a: int, b: int| 0 <= a < b < terms.len() ==> terms[a].0 != terms[b].0
}

proof fn lemma_find_term(terms: TermsV, term: Seq<char>)
    ensures
        match find_term(terms, term) {
            Some(i) => 0 <= i < terms.len() && terms[i].0 == term,
            None => forall|i: int| 0 <= i < terms.len() ==> (#[trigger] terms[i]).0 != term,
        },
    decreases terms.len(),
{
    if terms.len() > 0 {
        lemma_find_term(terms.drop_last(), term);
        match find_term(terms.drop_last(), term) {
            Some(i) => {
                assert(terms[i] == terms.drop_last()[i]);
            },
            None => {
                assert forall|i: int| 0 <= i < terms.len() - 1 implies (#[trigger] terms[i]).0 != term by {
                    assert(terms[i] == terms.drop_last()[i]);
                }
            },
        }
    }
}

proof fn lemma_find_term_distinct(terms: TermsV, term: Seq<char>, i: int)
    requires
        terms_distinct(terms),
        0 <= i < terms.len(),
        terms[i].0 == term,
    ensures
        find_term(terms, term) == Some(i),
{
    lemma_find_term(terms, term);
    if let Some(j) = find_term(terms, term) {
        if j != i {
            if j < i {
                assert(terms[j].0 != terms[i].0);
            } else {
                assert(terms[i].0 != terms[j].0);
            }
        }
    }
}

proof fn lemma_add_occurrence_distinct(terms: TermsV, term: Seq<char>, doc_id: u32, field_id: u8, pos: u32)
    requires
        terms_distinct(terms),
    ensures
        terms_distinct(add_occurrence(terms, term, doc_id, field_id, pos)),
{
    lemma_find_term(terms, term);
}

/// The first-generation miner: the field ids by name, and the postings of
/// the documents indexed so far.
pub struct WorkerMiner {
    pub field_infos: Vec<(String, u8)>,
    pub terms: Vec<(String, Vec<TermDoc>)>,
}

/// Records position `pos` of a term in field `field_id` of document
/// `doc_id`.
fn add_position_to(docs: &mut Vec<TermDoc>, doc_id: u32, field_id: u8, pos: u32)
    ensures
        docs_view(final(docs)@) == add_position(docs_view(old(docs)@), doc_id, field_id, pos),
{
    let ghost dv = docs_view(docs@);
    let n = docs.len();
    if n > 0 && docs[n - 1].doc_id == doc_id {
        let ghost last = docs@[n - 1];
        let ghost fv = last@.1;
        let ghost old_fields = last.doc_fields@;
        assert(dv.last() == last@);
        let m = docs[n - 1].doc_fields.len();
        let same_field = m > 0 && docs[n - 1].doc_fields[m - 1].field_id == field_id;
        if same_field {
            assert(fv.last() == old_fields[m - 1]@);
            docs[n - 1].doc_fields[m - 1].field_positions.push(pos);
        } else {
            docs[n - 1].doc_fields.push(DocField { field_id, field_positions: vec![pos] });
        }
        proof {
            let new_fields = if fv.len() > 0 && fv.last().0 == field_id {
                fv.update(fv.len() - 1, (field_id, fv.last().1.push(pos)))
            } else {
                fv.push((field_id, seq![pos]))
            };
            let nf = docs@[n - 1].doc_fields@;
            if same_field {
                assert(nf.len() == m);
                assert forall|x: int| 0 <= x < m implies #[trigger] nf[x]@ == new_fields[x] by {
                    if x < m - 1 {
                        assert(nf[x] == old_fields[x]);
                    }
                }
            } else {
                assert(nf.len() == m + 1);
                assert forall|x: int| 0 <= x < m + 1 implies #[trigger] nf[x]@ == new_fields[x] by {
                    if x < m {
                        assert(nf[x] == old_fields[x]);
                    }
                }
            }
            assert(docs@[n - 1]@.1 =~= new_fields);
            assert(docs_view(docs@) =~= dv.update(dv.len() - 1, (doc_id, new_fields)));
        }
    } else {
        docs.push(TermDoc { doc_id, doc_fields: vec![DocField { field_id, field_positions: vec![pos] }] });
        proof {
            let nf = docs@.last().doc_fields@;
            assert(nf.len() == 1 && nf[0]@ == (field_id, seq![pos]));
            assert(docs@.last()@.1 =~= seq![(field_id, seq![pos])]);
            assert(docs_view(docs@) =~= dv.push((doc_id, seq![(field_id, seq![pos])])));
        }
    }
}

impl WorkerMiner {
    /// The miner's own invariant: the terms are distinct.
    pub open spec fn wf(&self) -> bool {
        terms_distinct(terms_view(self.terms@))
    }

    /// A miner for the given fields, with no postings yet.
    pub fn new(field_infos: Vec<(String, u8)>) -> (m: WorkerMiner)
        ensures
            m.wf(),
            m.field_infos == field_infos,
            m.terms@.len() == 0,
    {
        let m = WorkerMiner { field_infos, terms: Vec::new() };
        assert(terms_view(m.terms@) =~= Seq::empty());
        m
    }

    /// The id of the field named `name`.
    fn field_id(&self, name: &String) -> (id: u8)
        requires
            field_id_of(field_infos_view(self.field_infos@), name@) is Some,
        ensures
            Some(id) == field_id_of(field_infos_view(self.field_infos@), name@),
    {
        let ghost fv = field_infos_view(self.field_infos@);
        let mut i: usize = 0;
        assert(fv.subrange(0, fv.len() as int) =~= fv);
        while i < self.field_infos.len()
            invariant
                i <= fv.len() == self.field_infos@.len(),
                fv == field_infos_view(self.field_infos@),
                field_id_of(fv, name@) == field_id_of(fv.subrange(i as int, fv.len() as int), name@),
                field_id_of(fv, name@) is Some,
            decreases fv.len() - i,
        {
            let ghost rest = fv.subrange(i as int, fv.len() as int);
            assert(rest[0] == fv[i as int]);
            if self.field_infos[i].0 == *name {
                return self.field_infos[i].1;
            }
            assert(rest.drop_first() =~= fv.subrange(i + 1, fv.len() as int));
            i = i + 1;
        }
        0
    }

    /// Records one occurrence of `term`.
    fn add_term_occurrence(&mut self, term: String, doc_id: u32, field_id: u8, pos: u32)
        requires
            old(self).wf(),
        ensures
            final(self).wf(),
            final(self).field_infos == old(self).field_infos,
            terms_view(final(self).terms@) == add_occurrence(terms_view(old(self).terms@), term@, doc_id, field_id, pos),
    {
        let ghost tv = terms_view(self.terms@);
        proof {
            lemma_add_occurrence_distinct(tv, term@, doc_id, field_id, pos);
            lemma_find_term(tv, term@);
        }
        let mut i: usize = 0;
        while i < self.terms.len()
            invariant
                i <= self.terms@.len(),
                tv == terms_view(self.terms@),
                self.terms@ == old(self).terms@,
                self.field_infos == old(self).field_infos,
                terms_distinct(tv),
                forall|x: int| 0 <= x < i ==> tv[x].0 != term@,
            decreases self.terms@.len() - i,
        {
            if self.terms[i].0 == term {
                proof {
                    assert(tv[i as int].0 == term@);
                    lemma_find_term_distinct(tv, term@, i as int);
                }
                add_position_to(&mut self.terms[i].1, doc_id, field_id, pos);
                proof {
                    assert(terms_view(self.terms@) =~= tv.update(
                        i as int,
                        (term@, add_position(tv[i as int].1, doc_id, field_id, pos)),
                    ));
                }
                return;
            }
            assert(tv[i as int].0 == self.terms@[i as int].0@);
            i = i + 1;
        }
        proof {
            if find_term(tv, term@) is Some {
                let k = find_term(tv, term@)->0;
                assert(tv[k].0 == term@);
            }
        }
        let mut docs: Vec<TermDoc> = Vec::new();
        add_position_to(&mut docs, doc_id, field_id, pos);
        assert(docs_view(Seq::<TermDoc>::empty()) =~= Seq::<TermDocV>::empty());
        self.terms.push((term, docs));
        proof {
            assert(terms_view(self.terms@) =~= tv.push((term@, add_position(Seq::empty(), doc_id, field_id, pos))));
        }
    }

    /// Indexes the fields of document `doc_id`: each field's text is
    /// tokenized and each term recorded at its position in the field,
    /// counted from 1.
    pub fn index_doc(&mut self, doc_id: u32, field_texts: Vec<(String, String)>)
        requires
            old(self).wf(),
            fields_indexable(field_texts_view(field_texts@), field_infos_view(old(self).field_infos@)),
        ensures
            final(self).wf(),
            final(self).field_infos == old(self).field_infos,
            terms_view(final(self).terms@) == index_fields(
                terms_view(old(self).terms@),
                field_texts_view(field_texts@),
                doc_id,
                field_infos_view(old(self).field_infos@),
            ),
    {
        let ghost fields = field_texts_view(field_texts@);
        let ghost infos = field_infos_view(self.field_infos@);
        let ghost t0 = terms_view(self.terms@);
        let mut f: usize = 0;
        assert(fields.subrange(0, 0) =~= Seq::<(Seq<char>, Seq<char>)>::empty());
        while f < field_texts.len()
            invariant
                f <= fields.len() == field_texts@.len(),
                fields == field_texts_view(field_texts@),
                infos == field_infos_view(self.field_infos@),
                self.field_infos == old(self).field_infos,
                fields_indexable(fields, infos),
                self.wf(),
                terms_view(self.terms@) == index_fields(t0, fields.subrange(0, f as int), doc_id, infos),
            decreases fields.len() - f,
        {
            let ghost before = terms_view(self.terms@);
            assert(fields[f as int] == (field_texts@[f as int].0@, field_texts@[f as int].1@));
            let field_id = self.field_id(&field_texts[f].0);
            let toks = tokenize(field_texts[f].1.as_str());
            let ghost tv = strings_model(toks@);
            assert(tv == spec_tokenize(fields[f as int].1));
            assert(tv.subrange(0, 0) =~= Seq::<Seq<char>>::empty());
            let mut k: usize = 0;
            let mut field_pos: u32 = 0;
            while k < toks.len()
                invariant
                    k <= toks@.len() == tv.len(),
                    tv == strings_model(toks@),
                    tv.len() < u32::MAX,
                    field_pos == k,
                    self.wf(),
                    self.field_infos == old(self).field_infos,
                    terms_view(self.terms@) == index_terms(before, tv.subrange(0, k as int), doc_id, field_id),
                decreases toks@.len() - k,
            {
                field_pos = field_pos + 1;
                let ghost sub = tv.subrange(0, k + 1);
                assert(sub.drop_last() =~= tv.subrange(0, k as int));
                assert(sub.last() == toks@[k as int]@);
                self.add_term_occurrence(toks[k].clone(), doc_id, field_id, field_pos);
                k = k + 1;
            }
            proof {
                assert(tv.subrange(0, k as int) =~= tv);
                let sub = fields.subrange(0, f + 1);
                assert(sub.drop_last() =~= fields.subrange(0, f as int));
                assert(sub.last() == fields[f as int]);
            }
            f = f + 1;
        }
        assert(fields.subrange(0, f as int) =~= fields);
    }
}

} // verus!
