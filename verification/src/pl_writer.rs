//! Writing merged postings lists into postings files of bounded size.

use vstd::prelude::*;
use crate::varint::{encode_var_int, get_var_int_vec, lemma_encode_len};

verus! {

/// One block's postings of a term, ready to be merged with the other blocks'.
pub struct TermDocsForMerge {
    pub term: String,
    pub doc_freq: u32,
    /// The block's postings, each document id as a gap from the previous one.
    pub combined_var_ints: Vec<u8>,
    pub first_doc_id: u32,
    pub last_doc_id: u32,
}

impl Default for TermDocsForMerge {
    fn default() -> (res: Self)
        ensures
            res.term@ == Seq::<char>::empty(),
            res.doc_freq == 0,
            res.combined_var_ints@ == Seq::<u8>::empty(),
            res.first_doc_id == 0,
            res.last_doc_id == 0,
    {
        TermDocsForMerge {
            term: String::new(),
            doc_freq: 0,
            combined_var_ints: Vec::new(),
            first_doc_id: 0,
            last_doc_id: 0,
        }
    }
}

/// The writer of the current postings file: the bytes not yet handed out,
/// the file's number and how many bytes it holds.
pub struct PlWriter {
    /// The bytes written but not yet handed out to the file.
    pub buffer: Vec<u8>,
    pub pl: u32,
    pub pl_offset: u32,
    pub prev_pl_offset: u32,
}

/// The postings of a term over the blocks: each block's first document as a
/// gap from the previous block's last, then the block's postings.
pub open spec fn merged_postings(docs: Seq<TermDocsForMerge>) -> Seq<u8>
    decreases docs.len(),
{
    if docs.len() == 0 {
        Seq::empty()
    } else {
        let prev_last: u32 = if docs.len() >= 2 { docs[docs.len() - 2].last_doc_id } else { 0 };
        let last = docs.last();
        merged_postings(docs.drop_last()) + encode_var_int((last.first_doc_id - prev_last) as nat)
            + last.combined_var_ints@
    }
}

/// Each block starts at or after the previous block's last document.
pub open spec fn blocks_ordered(docs: Seq<TermDocsForMerge>) -> bool {
    forall|i: int| 0 < i < docs.len() ==> (#[trigger] docs[i]).first_doc_id >= docs[i - 1].last_doc_id
}

/// The most bytes a term's merged postings can take: each block's postings
/// and sixteen bytes for its gap.
pub open spec fn max_postings_size(docs: Seq<TermDocsForMerge>) -> nat
    decreases docs.len(),
{
    if docs.len() == 0 {
        0
    } else {
        max_postings_size(docs.drop_last()) + docs.last().combined_var_ints@.len() + 16
    }
}

proof fn lemma_merged_len(docs: Seq<TermDocsForMerge>)
    requires
        blocks_ordered(docs),
    ensures
        merged_postings(docs).len() <= max_postings_size(docs),
    decreases docs.len(),
{
    if docs.len() > 0 {
        let d = docs.drop_last();
        assert forall|i: int| 0 < i < d.len() implies (#[trigger] d[i]).first_doc_id >= d[i - 1].last_doc_id by {
            assert(docs[i].first_doc_id >= docs[i - 1].last_doc_id);
        }
        lemma_merged_len(d);
        let prev_last: u32 = if docs.len() >= 2 { docs[docs.len() - 2].last_doc_id } else { 0 };
        lemma_encode_len((docs.last().first_doc_id - prev_last) as nat);
    }
}

impl PlWriter {
    /// The bytes not yet handed out.
    pub open spec fn pending(&self) -> Seq<u8> {
        self.buffer@
    }

    /// A writer of postings file `curr_pl`, empty.
    pub fn new(curr_pl: u32) -> (res: Self)
        ensures
            res.pl == curr_pl,
            res.pl_offset == 0,
            res.prev_pl_offset == 0,
            res.pending() == Seq::<u8>::empty(),
    {
        PlWriter { buffer: Vec::new(), pl: curr_pl, pl_offset: 0, prev_pl_offset: 0 }
    }

    /// Moves on to postings file `curr_pl`, empty.
    pub fn change_file(&mut self, curr_pl: u32)
        ensures
            final(self).pl == curr_pl,
            final(self).pl_offset == 0,
            final(self).prev_pl_offset == 0,
            final(self).pending() == old(self).pending(),
    {
        self.pl = curr_pl;
        self.pl_offset = 0;
        self.prev_pl_offset = 0;
    }

    /// Hands out the bytes not yet handed out, and lists the current file
    /// among those to cache when it holds more than `pl_cache_threshold`
    /// bytes.
    pub fn flush(&mut self, pl_cache_threshold: u32, pl_names_to_cache: &mut Vec<u32>) -> (bytes: Vec<u8>)
        ensures
            bytes@ == old(self).pending(),
            final(self).pending() == Seq::<u8>::empty(),
            final(self).pl == old(self).pl,
            final(self).pl_offset == old(self).pl_offset,
            final(self).prev_pl_offset == old(self).prev_pl_offset,
            final(pl_names_to_cache)@ == if old(self).pl_offset > pl_cache_threshold {
                old(pl_names_to_cache)@.push(old(self).pl)
            } else {
                old(pl_names_to_cache)@
            },
    {
        let mut bytes: Vec<u8> = Vec::new();
        std::mem::swap(&mut bytes, &mut self.buffer);
        if self.pl_offset > pl_cache_threshold {
            pl_names_to_cache.push(self.pl);
        }
        bytes
    }

    /// Appends `bytes` to the current file.
    pub fn write(&mut self, bytes: &[u8])
        requires
            old(self).pl_offset + bytes@.len() <= u32::MAX,
        ensures
            final(self).pending() == old(self).pending() + bytes@,
            final(self).pl_offset == old(self).pl_offset + bytes@.len(),
            final(self).pl == old(self).pl,
            final(self).prev_pl_offset == old(self).prev_pl_offset,
    {
        let mut i: usize = 0;
        while i < bytes.len()
            invariant
                i <= bytes@.len(),
                self.buffer@ == old(self).buffer@ + bytes@.subrange(0, i as int),
                self.pl == old(self).pl,
                self.pl_offset == old(self).pl_offset,
                self.prev_pl_offset == old(self).prev_pl_offset,
            decreases bytes@.len() - i,
        {
            self.buffer.push(bytes[i]);
            i = i + 1;
            assert(self.buffer@ =~= old(self).buffer@ + bytes@.subrange(0, i as int));
        }
        assert(bytes@.subrange(0, i as int) =~= bytes@);
        let len = bytes.len();
        assert(len <= u32::MAX);
        self.pl_offset = self.pl_offset + (len as u32);
    }

    /// Whether a term's merged postings may not fit in the current file under
    /// `pl_limit`, so that a new file is to be started first.
    pub fn needs_new_file(&self, curr_combined_term_docs: &[TermDocsForMerge], pl_limit: u32) -> (res: bool)
        requires
            max_postings_size(curr_combined_term_docs@) <= u32::MAX,
        ensures
            res == (self.pl_offset + max_postings_size(curr_combined_term_docs@) > pl_limit),
    {
        let mut size: u64 = 0;
        let mut i: usize = 0;
        let ghost docs = curr_combined_term_docs@;
        assert(docs.subrange(0, 0) =~= Seq::<TermDocsForMerge>::empty());
        while i < curr_combined_term_docs.len()
            invariant
                i <= docs.len(),
                docs == curr_combined_term_docs@,
                max_postings_size(docs) <= u32::MAX,
                size == max_postings_size(docs.subrange(0, i as int)),
            decreases docs.len() - i,
        {
            proof {
                lemma_max_size_prefix(docs, i + 1);
                assert(docs.subrange(0, i + 1).drop_last() =~= docs.subrange(0, i as int));
            }
            size = size + (curr_combined_term_docs[i].combined_var_ints.len() as u64) + 16;
            i = i + 1;
        }
        assert(docs.subrange(0, i as int) =~= docs);
        (self.pl_offset as u64) + size > (pl_limit as u64)
    }

    /// Writes a term's merged postings to the current file and returns where
    /// they start in it.
    pub fn write_term_postings(&mut self, curr_combined_term_docs: &[TermDocsForMerge]) -> (start_pl_offset: u32)
        requires
            blocks_ordered(curr_combined_term_docs@),
            old(self).pl_offset + max_postings_size(curr_combined_term_docs@) <= u32::MAX,
        ensures
            start_pl_offset == old(self).pl_offset,
            final(self).pending() == old(self).pending() + merged_postings(curr_combined_term_docs@),
            final(self).pl_offset == old(self).pl_offset + merged_postings(curr_combined_term_docs@).len(),
            final(self).pl == old(self).pl,
            final(self).prev_pl_offset == old(self).prev_pl_offset,
    {
        let start_pl_offset = self.pl_offset;
        let ghost docs = curr_combined_term_docs@;
        let ghost p0 = self.pending();
        let mut prev_block_last_doc_id: u32 = 0;
        let mut i: usize = 0;
        assert(docs.subrange(0, 0) =~= Seq::<TermDocsForMerge>::empty());
        while i < curr_combined_term_docs.len()
            invariant
                i <= docs.len(),
                docs == curr_combined_term_docs@,
                blocks_ordered(docs),
                start_pl_offset + max_postings_size(docs) <= u32::MAX,
                self.pending() == p0 + merged_postings(docs.subrange(0, i as int)),
                self.pl_offset == start_pl_offset + merged_postings(docs.subrange(0, i as int)).len(),
                self.pl == old(self).pl,
                self.prev_pl_offset == old(self).prev_pl_offset,
                prev_block_last_doc_id == if i == 0 { 0 } else { docs[i - 1].last_doc_id },
            decreases docs.len() - i,
        {
            let ghost sub = docs.subrange(0, i + 1);
            proof {
                assert(sub.drop_last() =~= docs.subrange(0, i as int));
                assert forall|k: int| 0 < k < sub.len() implies (#[trigger] sub[k]).first_doc_id >= sub[k - 1].last_doc_id by {
                    assert(docs[k].first_doc_id >= docs[k - 1].last_doc_id);
                }
                lemma_merged_len(sub);
                lemma_max_size_prefix(docs, i + 1);
            }
            let first = curr_combined_term_docs[i].first_doc_id;
            let mut gap: Vec<u8> = Vec::new();
            get_var_int_vec(first - prev_block_last_doc_id, &mut gap);
            self.write(gap.as_slice());
            self.write(curr_combined_term_docs[i].combined_var_ints.as_slice());
            prev_block_last_doc_id = curr_combined_term_docs[i].last_doc_id;
            i = i + 1;
            assert(self.pending() =~= p0 + merged_postings(docs.subrange(0, i as int)));
        }
        assert(docs.subrange(0, i as int) =~= docs);
        start_pl_offset
    }
}

proof fn lemma_max_size_prefix(docs: Seq<TermDocsForMerge>, i: int)
    requires
        0 <= i <= docs.len(),
    ensures
        max_postings_size(docs.subrange(0, i)) <= max_postings_size(docs),
    decreases docs.len(),
{
    if i < docs.len() {
        assert(docs.drop_last().subrange(0, i) =~= docs.subrange(0, i));
        lemma_max_size_prefix(docs.drop_last(), i);
    } else {
        assert(docs.subrange(0, i) =~= docs);
    }
}

} // verus!
