//! Laying out the stored fields of a block's documents over the field store
//! files: each file holds a JSON array of the stored fields of a fixed number
//! of consecutive documents.

use vstd::prelude::*;
use crate::miner::extend_bytes;

verus! {

/// What is appended to one field store file: the stored fields of its
/// documents, separated by commas, without the array's brackets.
pub struct FieldStoreFile {
    pub file_number: u32,
    /// The directory the file lies in.
    pub subdir: u32,
    pub docs_bytes: Vec<u8>,
}

/// The byte strings joined by commas.
pub open spec fn joined(docs: Seq<Seq<u8>>) -> Seq<u8>
    decreases docs.len(),
{
    if docs.len() == 0 {
        Seq::empty()
    } else if docs.len() == 1 {
        docs[0]
    } else {
        joined(docs.drop_last()) + seq![44u8] + docs.last()
    }
}

pub open spec fn byte_seqs(v: Seq<Vec<u8>>) -> Seq<Seq<u8>> {
    v.map_values(|b: Vec<u8>| b@)
}

/// The document id of the first document of the block.
pub open spec fn first_doc_id(
    check_for_existing_field_store: bool,
    start_doc_id: u32,
    doc_id_counter: u32,
    spimi_counter: u32,
) -> int {
    if check_for_existing_field_store {
        start_doc_id as int
    } else {
        doc_id_counter - spimi_counter
    }
}

/// Index of the first of the block's documents that goes to the `k`-th file
/// written, where the first document has `offset` documents before it in its
/// file.
pub open spec fn chunk_start(k: int, per_store: int, offset: int) -> int {
    if k == 0 {
        0
    } else {
        k * per_store - offset
    }
}

/// One past the index of the last of the `n` documents that goes to the
/// `k`-th file written.
pub open spec fn chunk_end(k: int, per_store: int, offset: int, n: int) -> int {
    if (k + 1) * per_store - offset < n {
        (k + 1) * per_store - offset
    } else {
        n
    }
}

/// The `d`-th document of a block whose first document id is `first` goes
/// to file `(first + d) / per_store`: the file written `(first + d) /
/// per_store - first / per_store`-th.
pub proof fn law_document_file(first: int, per_store: int, n: int, d: int)
    requires
        first >= 0,
        per_store > 0,
        0 <= d < n,
    ensures
        ({
            let offset = first % per_store;
            let k = (first + d) / per_store - first / per_store;
            &&& k >= 0
            &&& chunk_start(k, per_store, offset) <= d < chunk_end(k, per_store, offset, n)
        }),
{
    let offset = first % per_store;
    let q0 = first / per_store;
    vstd::arithmetic::div_mod::lemma_fundamental_div_mod(first, per_store);
    vstd::arithmetic::div_mod::lemma_mod_bound(first, per_store);
    vstd::arithmetic::div_mod::lemma_hoist_over_denominator(offset + d, q0, per_store as nat);
    assert(offset + d + q0 * per_store == first + d) by (nonlinear_arith)
        requires
            first == per_store * q0 + offset;
    let k = (offset + d) / per_store;
    assert(k == (first + d) / per_store - q0);
    vstd::arithmetic::div_mod::lemma_fundamental_div_mod(offset + d, per_store);
    vstd::arithmetic::div_mod::lemma_mod_bound(offset + d, per_store);
    vstd::arithmetic::div_mod::lemma_div_pos_is_pos(offset + d, per_store);
    assert((k + 1) * per_store == k * per_store + per_store) by (nonlinear_arith);
    assert(k * per_store == per_store * k) by (nonlinear_arith);
}

/// Splits the stored fields of a block's documents, in document order, over
/// the field store files: document `d` goes to file `d / num_docs_per_store`,
/// and the file lies in directory `file / num_stores_per_dir`. Each file
/// written receives its documents' stored fields separated by commas; the
/// caller opens a new file with `[`, or reopens an existing one by replacing
/// its closing `]` with `,`, and closes every file with `]`.
#[verifier::spinoff_prover]
pub fn store_fields(
    check_for_existing_field_store: bool,
    start_doc_id: u32,
    num_docs_per_store: u32,
    num_stores_per_dir: u32,
    doc_id_counter: u32,
    spimi_counter: u32,
    field_texts: &Vec<Vec<u8>>,
) -> (files: Vec<FieldStoreFile>)
    requires
        num_docs_per_store > 0,
        num_stores_per_dir > 0,
        field_texts.len() > 0,
        !check_for_existing_field_store ==> spimi_counter <= doc_id_counter,
        first_doc_id(check_for_existing_field_store, start_doc_id, doc_id_counter, spimi_counter)
            + field_texts.len() - 1 <= u32::MAX,
    ensures
        ({
            let start = first_doc_id(
                check_for_existing_field_store,
                start_doc_id,
                doc_id_counter,
                spimi_counter,
            );
            let per = num_docs_per_store as int;
            let offset = start % per;
            let n = field_texts.len() as int;
            &&& files.len() == (offset + n - 1) / per + 1
            &&& forall|k: int|
                0 <= k < files.len() ==> {
                    &&& #[trigger] files[k].file_number == start / per + k
                    &&& files[k].subdir == files[k].file_number / num_stores_per_dir
                    &&& files[k].docs_bytes@ == joined(
                        byte_seqs(field_texts@).subrange(
                            chunk_start(k, per, offset),
                            chunk_end(k, per, offset, n),
                        ),
                    )
                }
        }),
{
    let start: u32 = if check_for_existing_field_store {
        start_doc_id
    } else {
        doc_id_counter - spimi_counter
    };
    let ghost st = start as int;
    let ghost per = num_docs_per_store as int;
    let ghost n = field_texts.len() as int;
    let ghost texts = byte_seqs(field_texts@);
    let offset: u32 = start % num_docs_per_store;
    let mut file_number: u64 = (start / num_docs_per_store) as u64;
    let mut count: u32 = offset;
    let mut body: Vec<u8> = Vec::new();
    let mut files: Vec<FieldStoreFile> = Vec::new();
    proof {
        vstd::arithmetic::div_mod::lemma_fundamental_div_mod(st, per);
        vstd::arithmetic::div_mod::lemma_div_pos_is_pos(st, per);
        assert(files.len() == 0);
        assert(0 * per == 0);
        assert(texts.len() == n);
        assert(texts.subrange(0, 0) =~= Seq::<Seq<u8>>::empty());
    }
    let mut i: usize = 0;
    while i < field_texts.len()
        invariant
            per == num_docs_per_store as int,
            per > 0,
            num_stores_per_dir > 0,
            n == field_texts.len(),
            texts == byte_seqs(field_texts@),
            texts.len() == n,
            st + n - 1 <= u32::MAX,
            offset == st % per,
            st == per * (st / per) + offset,
            st / per >= 0,
            0 <= offset < per,
            0 <= i <= n,
            0 <= count < per,
            i + offset == files.len() * per + count,
            file_number == st / per + files.len(),
            0 <= chunk_start(files.len() as int, per, offset as int) <= i,
            i > 0 && count != 0 ==> chunk_start(files.len() as int, per, offset as int) < i,
            count == 0 ==> chunk_start(files.len() as int, per, offset as int) == i,
            body@ == joined(texts.subrange(chunk_start(files.len() as int, per, offset as int), i as int)),
            forall|k: int|
                0 <= k < files.len() ==> {
                    &&& #[trigger] files[k].file_number == st / per + k
                    &&& files[k].subdir == files[k].file_number / num_stores_per_dir
                    &&& chunk_end(k, per, offset as int, n) == (k + 1) * per - offset
                    &&& files[k].docs_bytes@ == joined(
                        texts.subrange(chunk_start(k, per, offset as int), chunk_end(k, per, offset as int, n)),
                    )
                },
        decreases n - i,
    {
        let ghost k = files.len() as int;
        let ghost lo = chunk_start(k, per, offset as int);
        let ghost old_body = body@;
        if i > 0 && count != 0 {
            body.push(44u8);
        }
        extend_bytes(&mut body, field_texts[i].as_slice());
        proof {
            let sub = texts.subrange(lo, i as int + 1);
            assert(sub.drop_last() =~= texts.subrange(lo, i as int));
            assert(texts[i as int] == field_texts@[i as int]@);
            if lo == i {
                assert(sub =~= seq![texts[i as int]]);
                assert(old_body =~= Seq::<u8>::empty());
                assert(i > 0 ==> count == 0) by {
                    if k > 0 {
                        assert(k * per - offset == lo);
                    }
                }
            } else {
                assert(count != 0) by {
                    if k > 0 {
                        assert(k * per - offset == lo);
                    }
                }
            }
            assert(body@ =~= joined(sub));
        }
        count = count + 1;
        i = i + 1;
        if count == num_docs_per_store {
            proof {
                assert((k + 1) * per == k * per + per) by (nonlinear_arith);
                assert(chunk_end(k, per, offset as int, n) == (k + 1) * per - offset);
                assert(chunk_start(k + 1, per, offset as int) == i);
                assert(texts.subrange(i as int, i as int) =~= Seq::<Seq<u8>>::empty());
                assert(st / per + k <= u32::MAX) by {
                    assert(per * (st / per) <= st);
                    assert(k * per <= i + offset);
                    assert((st / per) + k <= per * (st / per) + k * per) by (nonlinear_arith)
                        requires per >= 1, st / per >= 0, k >= 0;
                }
            }
            let fnum = file_number as u32;
            let file = FieldStoreFile {
                file_number: fnum,
                subdir: fnum / num_stores_per_dir,
                docs_bytes: body,
            };
            files.push(file);
            body = Vec::new();
            count = 0;
            file_number = file_number + 1;
        }
    }
    let ghost k = files.len() as int;
    if count != 0 {
        proof {
            assert(st / per + k <= u32::MAX) by {
                assert(per * (st / per) <= st);
                assert(k * per <= n + offset);
                assert((st / per) + k <= per * (st / per) + k * per) by (nonlinear_arith)
                    requires per >= 1, st / per >= 0, k >= 0;
            }
            assert((k + 1) * per == k * per + per) by (nonlinear_arith);
            assert(chunk_end(k, per, offset as int, n) == n);
            vstd::arithmetic::div_mod::lemma_fundamental_div_mod_converse(offset + n - 1, per, k, count - 1);
        }
        let fnum = file_number as u32;
        let file = FieldStoreFile {
            file_number: fnum,
            subdir: fnum / num_stores_per_dir,
            docs_bytes: body,
        };
        files.push(file);
    } else {
        proof {
            assert(k > 0);
            assert((k - 1) * per + per == k * per) by (nonlinear_arith);
            vstd::arithmetic::div_mod::lemma_fundamental_div_mod_converse(offset + n - 1, per, k - 1, per - 1);
        }
    }
    proof {
        assert forall|j: int| 0 <= j < files.len() implies {
            &&& #[trigger] files[j].file_number == st / per + j
            &&& files[j].subdir == files[j].file_number / num_stores_per_dir
            &&& files[j].docs_bytes@ == joined(
                byte_seqs(field_texts@).subrange(
                    chunk_start(j, per, offset as int),
                    chunk_end(j, per, offset as int, n),
                ),
            )
        } by {
            if j < k {
                assert(files[j].file_number == st / per + j);
                assert(files[j].subdir == files[j].file_number / num_stores_per_dir);
            } else {
                assert(files[j].file_number == st / per + j);
                assert(files[j].subdir == files[j].file_number / num_stores_per_dir);
            }
        }
    }
    files
}

} // verus!
