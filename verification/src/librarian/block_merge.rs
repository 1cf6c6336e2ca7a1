//! Merging the blocks of the first-generation indexer: each block holds its
//! terms in strictly ascending order with their documents, the blocks in
//! document order; the merge gives every term once, in ascending order, with
//! its documents from every block, block after block, and their number.

use vstd::prelude::*;
use crate::dictionary::{lemma_lex_antisym, lemma_lex_refl};
use crate::librarian::miner::{TermDoc, TermDocV};
use crate::spimi_writer::{lex_le, lemma_lex_total, lemma_lex_trans, string_le};

verus! {

/// A term and its documents, as plain values.
pub type EntryV = (Seq<char>, Seq<TermDocV>);

pub open spec fn entry_view(e: (String, Vec<TermDoc>)) -> EntryV {
    (e.0@, e.1@.map_values(|d: TermDoc| d@))
}

pub open spec fn entries_view(v: Seq<(String, Vec<TermDoc>)>) -> Seq<EntryV> {
    v.map_values(|e: (String, Vec<TermDoc>)| entry_view(e))
}

/// `a` comes strictly before `b`.
pub open spec fn lex_lt(a: Seq<char>, b: Seq<char>) -> bool {
    lex_le(a, b) && a != b
}

/// The terms strictly ascend.
pub open spec fn strictly_sorted(l: Seq<EntryV>) -> bool {
    forall|i: int, j: int| 0 <= i < j < l.len() ==> lex_lt((#[trigger] l[i]).0, (#[trigger] l[j]).0)
}

/// Whether some entry is term `t`'s.
pub open spec fn has_term(l: Seq<EntryV>, t: Seq<char>) -> bool {
    exists|i: int| 0 <= i < l.len() && (#[trigger] l[i]).0 == t
}

/// The documents of the first entry of term `t`, or none.
pub open spec fn docs_in(l: Seq<EntryV>, t: Seq<char>) -> Seq<TermDocV>
    decreases l.len(),
{
    if l.len() == 0 {
        Seq::empty()
    } else if l[0].0 == t {
        l[0].1
    } else {
        docs_in(l.drop_first(), t)
    }
}

/// Term `t`'s documents in every block, block after block.
pub open spec fn blocks_docs(bs: Seq<Seq<EntryV>>, t: Seq<char>) -> Seq<TermDocV>
    decreases bs.len(),
{
    if bs.len() == 0 {
        Seq::empty()
    } else {
        blocks_docs(bs.drop_last(), t) + docs_in(bs.last(), t)
    }
}

/// Whether some block has term `t`.
pub open spec fn in_some_block(bs: Seq<Seq<EntryV>>, t: Seq<char>) -> bool {
    exists|b: int| 0 <= b < bs.len() && has_term(#[trigger] bs[b], t)
}

proof fn lemma_lt_trans(a: Seq<char>, b: Seq<char>, c: Seq<char>)
    requires
        lex_lt(a, b),
        lex_le(b, c),
    ensures
        lex_lt(a, c),
{
    lemma_lex_trans(a, b, c);
    if a == c {
        lemma_lex_antisym(b, c);
    }
}

proof fn lemma_docs_in_absent(l: Seq<EntryV>, t: Seq<char>)
    requires
        !has_term(l, t),
    ensures
        docs_in(l, t) == Seq::<TermDocV>::empty(),
    decreases l.len(),
{
    if l.len() > 0 {
        assert forall|i: int| 0 <= i < l.drop_first().len() implies (#[trigger] l.drop_first()[i]).0 != t by {
            assert(l.drop_first()[i] == l[i + 1]);
        }
        assert(l[0].0 != t);
        lemma_docs_in_absent(l.drop_first(), t);
    }
}

proof fn lemma_docs_in_push(l: Seq<EntryV>, e: EntryV, t: Seq<char>)
    ensures
        docs_in(l.push(e), t) == if has_term(l, t) {
            docs_in(l, t)
        } else if e.0 == t {
            e.1
        } else {
            Seq::<TermDocV>::empty()
        },
    decreases l.len(),
{
    if l.len() == 0 {
        assert(l.push(e)[0] == e);
        assert(l.push(e).drop_first() =~= Seq::<EntryV>::empty());
        assert(!has_term(l, t));
        assert(docs_in(Seq::<EntryV>::empty(), t) == Seq::<TermDocV>::empty());
    } else {
        let d = l.drop_first();
        assert(l.push(e).drop_first() =~= d.push(e));
        assert(l.push(e)[0] == l[0]);
        lemma_docs_in_push(d, e, t);
        assert(docs_in(l.push(e), t) == if l[0].0 == t { l[0].1 } else { docs_in(d.push(e), t) });
        if l[0].0 != t {
            if has_term(l, t) {
                let i = choose|i: int| 0 <= i < l.len() && (#[trigger] l[i]).0 == t;
                assert(d[i - 1] == l[i]);
            }
            if has_term(d, t) {
                let i = choose|i: int| 0 <= i < d.len() && (#[trigger] d[i]).0 == t;
                assert(l[i + 1] == d[i]);
            }
        } else {
            assert(has_term(l, t)) by {
                assert(l[0].0 == t);
            }
        }
    }
}

proof fn lemma_head_not_in_rest(l: Seq<EntryV>)
    requires
        strictly_sorted(l),
        l.len() > 0,
    ensures
        !has_term(l.drop_first(), l[0].0),
        strictly_sorted(l.drop_first()),
{
    let d = l.drop_first();
    assert forall|i: int| 0 <= i < d.len() implies (#[trigger] d[i]).0 != l[0].0 by {
        assert(d[i] == l[i + 1]);
        assert(lex_lt(l[0].0, l[i + 1].0));
    }
    assert forall|i: int, j: int| 0 <= i < j < d.len() implies lex_lt((#[trigger] d[i]).0, (#[trigger] d[j]).0) by {
        assert(d[i] == l[i + 1]);
        assert(d[j] == l[j + 1]);
    }
}

proof fn lemma_docs_in_at(l: Seq<EntryV>, k: int)
    requires
        strictly_sorted(l),
        0 <= k < l.len(),
    ensures
        docs_in(l, l[k].0) == l[k].1,
    decreases k,
{
    if k > 0 {
        assert(lex_lt(l[0].0, l[k].0));
        lemma_head_not_in_rest(l);
        assert(l.drop_first()[k - 1] == l[k]);
        lemma_docs_in_at(l.drop_first(), k - 1);
    }
}

/// Merges two term lists: every term once, in ascending order, the first
/// list's documents before the second's.
#[verifier::rlimit(80)]
#[verifier::spinoff_prover]
fn merge_two(a: Vec<(String, Vec<TermDoc>)>, b: Vec<(String, Vec<TermDoc>)>) -> (out: Vec<(String, Vec<TermDoc>)>)
    requires
        strictly_sorted(entries_view(a@)),
        strictly_sorted(entries_view(b@)),
    ensures
        strictly_sorted(entries_view(out@)),
        forall|t: Seq<char>| has_term(entries_view(out@), t) <==> (has_term(entries_view(a@), t) || has_term(entries_view(b@), t)),
        forall|t: Seq<char>| docs_in(entries_view(out@), t) == docs_in(entries_view(a@), t) + docs_in(entries_view(b@), t),
{
    let ghost a0 = entries_view(a@);
    let ghost b0 = entries_view(b@);
    let mut ra = a;
    let mut rb = b;
    let mut out: Vec<(String, Vec<TermDoc>)> = Vec::new();
    proof {
        assert forall|t: Seq<char>| docs_in(entries_view(out@), t) + docs_in(a0, t) + docs_in(b0, t) == docs_in(a0, t) + docs_in(b0, t) by {
            assert(docs_in(entries_view(out@), t) =~= Seq::<TermDocV>::empty());
            assert(Seq::<TermDocV>::empty() + docs_in(a0, t) =~= docs_in(a0, t));
        }
    }
    while ra.len() > 0 || rb.len() > 0
        invariant
            strictly_sorted(entries_view(ra@)),
            strictly_sorted(entries_view(rb@)),
            strictly_sorted(entries_view(out@)),
            forall|i: int, j: int|
                0 <= i < out@.len() && 0 <= j < ra@.len() ==> lex_lt(
                    (#[trigger] entries_view(out@)[i]).0,
                    (#[trigger] entries_view(ra@)[j]).0,
                ),
            forall|i: int, j: int|
                0 <= i < out@.len() && 0 <= j < rb@.len() ==> lex_lt(
                    (#[trigger] entries_view(out@)[i]).0,
                    (#[trigger] entries_view(rb@)[j]).0,
                ),
            forall|t: Seq<char>|
                (has_term(entries_view(out@), t) || has_term(entries_view(ra@), t) || has_term(entries_view(rb@), t))
                    <==> (has_term(a0, t) || has_term(b0, t)),
            forall|t: Seq<char>|
                docs_in(entries_view(out@), t) + docs_in(entries_view(ra@), t) + docs_in(entries_view(rb@), t)
                    == docs_in(a0, t) + docs_in(b0, t),
        decreases ra@.len() + rb@.len(),
    {
        let ghost o = entries_view(out@);
        let ghost xa = entries_view(ra@);
        let ghost xb = entries_view(rb@);
        let take_a: bool;
        let take_b: bool;
        if ra.len() == 0 {
            take_a = false;
            take_b = true;
        } else if rb.len() == 0 {
            take_a = true;
            take_b = false;
        } else {
            let le_ab = string_le(&ra[0].0, &rb[0].0);
            let le_ba = string_le(&rb[0].0, &ra[0].0);
            proof {
                assert(xa[0].0 == ra@[0].0@);
                assert(xb[0].0 == rb@[0].0@);
                lemma_lex_total(xa[0].0, xb[0].0);
                if le_ab && le_ba {
                    lemma_lex_antisym(xa[0].0, xb[0].0);
                }
                if le_ab && !le_ba {
                    lemma_lex_refl(xa[0].0);
                }
            }
            take_a = le_ab;
            take_b = le_ba;
        }
        // the term taken, and the entry pushed
        let ghost ta: Seq<char> = if take_a { xa[0].0 } else { xb[0].0 };
        proof {
            if take_a && take_b {
                assert(xa[0].0 == xb[0].0);
            }
            if xa.len() > 0 {
                lemma_head_not_in_rest(xa);
            }
            if xb.len() > 0 {
                lemma_head_not_in_rest(xb);
            }
        }
        let mut e: (String, Vec<TermDoc>);
        if take_a && take_b {
            let (term, mut docs) = ra.remove(0);
            let (_, mut more) = rb.remove(0);
            let ghost d1 = docs@;
            let ghost d2 = more@;
            docs.append(&mut more);
            proof {
                assert(docs@.map_values(|d: TermDoc| d@) =~= d1.map_values(|d: TermDoc| d@) + d2.map_values(|d: TermDoc| d@));
            }
            e = (term, docs);
        } else if take_a {
            e = ra.remove(0);
        } else {
            e = rb.remove(0);
        }
        let ghost ev = entry_view(e);
        proof {
            assert(entries_view(ra@) =~= if take_a { xa.drop_first() } else { xa });
            assert(entries_view(rb@) =~= if take_b { xb.drop_first() } else { xb });
            assert(ev.0 == ta);
            if take_a && take_b {
                assert(ev.1 == xa[0].1 + xb[0].1);
            } else if take_a {
                assert(ev == xa[0]);
            } else {
                assert(ev == xb[0]);
            }
            // the taken term comes before every remaining one
            if take_a && !take_b && xb.len() > 0 {
                assert(lex_lt(xa[0].0, xb[0].0));
            }
            if take_b && !take_a && xa.len() > 0 {
                assert(lex_lt(xb[0].0, xa[0].0)) by {
                    assert(!lex_le(xa[0].0, xb[0].0));
                    lemma_lex_total(xa[0].0, xb[0].0);
                }
            }
        }
        out.push(e);
        proof {
            let o2 = entries_view(out@);
            let ra2 = entries_view(ra@);
            let rb2 = entries_view(rb@);
            assert(o2 =~= o.push(ev));
            assert(!has_term(o, ta)) by {
                if has_term(o, ta) {
                    let i = choose|i: int| 0 <= i < o.len() && (#[trigger] o[i]).0 == ta;
                    if take_a {
                        assert(lex_lt(o[i].0, xa[0].0));
                    } else {
                        assert(lex_lt(o[i].0, xb[0].0));
                    }
                }
            }
            // ordering
            assert forall|j: int| 0 <= j < ra2.len() implies lex_lt(ta, (#[trigger] ra2[j]).0) by {
                if take_a {
                    assert(ra2[j] == xa[j + 1]);
                } else {
                    lemma_lex_refl(xb[0].0);
                    assert(ra2[j] == xa[j]);
                    if j > 0 {
                        lemma_lt_trans(ta, xa[0].0, xa[j].0);
                        assert(lex_le(xa[0].0, xa[j].0));
                    }
                }
            }
            assert forall|j: int| 0 <= j < rb2.len() implies lex_lt(ta, (#[trigger] rb2[j]).0) by {
                if take_b {
                    assert(rb2[j] == xb[j + 1]);
                } else {
                    assert(rb2[j] == xb[j]);
                    if j > 0 {
                        lemma_lt_trans(ta, xb[0].0, xb[j].0);
                    }
                }
            }
            assert forall|i: int, j: int| 0 <= i < j < o2.len() implies lex_lt((#[trigger] o2[i]).0, (#[trigger] o2[j]).0) by {
                if j == o.len() {
                    if take_a {
                        assert(lex_lt(o[i].0, xa[0].0));
                    } else {
                        assert(lex_lt(o[i].0, xb[0].0));
                    }
                }
            }
            assert forall|i: int, j: int| 0 <= i < o2.len() && 0 <= j < ra2.len() implies lex_lt(
                (#[trigger] o2[i]).0,
                (#[trigger] ra2[j]).0,
            ) by {
                if i < o.len() {
                    assert(ra2[j] == if take_a { xa[j + 1] } else { xa[j] });
                }
            }
            assert forall|i: int, j: int| 0 <= i < o2.len() && 0 <= j < rb2.len() implies lex_lt(
                (#[trigger] o2[i]).0,
                (#[trigger] rb2[j]).0,
            ) by {
                if i < o.len() {
                    assert(rb2[j] == if take_b { xb[j + 1] } else { xb[j] });
                }
            }
            // membership and documents
            assert forall|t: Seq<char>|
                (has_term(o2, t) || has_term(ra2, t) || has_term(rb2, t)) <==> (has_term(a0, t) || has_term(b0, t)) by {
                assert(has_term(o2, t) <==> has_term(o, t) || ta == t) by {
                    if has_term(o2, t) {
                        let i = choose|i: int| 0 <= i < o2.len() && (#[trigger] o2[i]).0 == t;
                        if i < o.len() {
                            assert(o[i] == o2[i]);
                        }
                    }
                    if has_term(o, t) {
                        let i = choose|i: int| 0 <= i < o.len() && (#[trigger] o[i]).0 == t;
                        assert(o2[i] == o[i]);
                    }
                    if ta == t {
                        assert(o2[o.len() as int] == ev);
                    }
                }
                if take_a {
                    assert(has_term(xa, t) <==> has_term(ra2, t) || xa[0].0 == t) by {
                        if has_term(xa, t) {
                            let i = choose|i: int| 0 <= i < xa.len() && (#[trigger] xa[i]).0 == t;
                            if i > 0 {
                                assert(ra2[i - 1] == xa[i]);
                            }
                        }
                        if has_term(ra2, t) {
                            let i = choose|i: int| 0 <= i < ra2.len() && (#[trigger] ra2[i]).0 == t;
                            assert(xa[i + 1] == ra2[i]);
                        }
                    }
                }
                if take_b {
                    assert(has_term(xb, t) <==> has_term(rb2, t) || xb[0].0 == t) by {
                        if has_term(xb, t) {
                            let i = choose|i: int| 0 <= i < xb.len() && (#[trigger] xb[i]).0 == t;
                            if i > 0 {
                                assert(rb2[i - 1] == xb[i]);
                            }
                        }
                        if has_term(rb2, t) {
                            let i = choose|i: int| 0 <= i < rb2.len() && (#[trigger] rb2[i]).0 == t;
                            assert(xb[i + 1] == rb2[i]);
                        }
                    }
                }
            }
            assert forall|t: Seq<char>| docs_in(o2, t) + docs_in(ra2, t) + docs_in(rb2, t) == docs_in(a0, t) + docs_in(b0, t) by {
                lemma_docs_in_push(o, ev, t);
                if t == ta {
                    lemma_docs_in_absent(o, t);
                    if take_a {
                        assert(docs_in(xa, t) == xa[0].1);
                        lemma_docs_in_absent(ra2, t);
                    } else if xa.len() > 0 {
                        assert(!has_term(xa, t)) by {
                            if has_term(xa, t) {
                                let i = choose|i: int| 0 <= i < xa.len() && (#[trigger] xa[i]).0 == t;
                                assert(lex_lt(ta, xa[0].0));
                                if i > 0 {
                                    lemma_lt_trans(ta, xa[0].0, xa[i].0);
                                }
                            }
                        }
                        lemma_docs_in_absent(xa, t);
                    } else {
                        lemma_docs_in_absent(xa, t);
                    }
                    if take_b {
                        assert(docs_in(xb, t) == xb[0].1);
                        lemma_docs_in_absent(rb2, t);
                    } else if xb.len() > 0 {
                        assert(!has_term(xb, t)) by {
                            if has_term(xb, t) {
                                let i = choose|i: int| 0 <= i < xb.len() && (#[trigger] xb[i]).0 == t;
                                assert(lex_lt(ta, xb[0].0));
                                if i > 0 {
                                    lemma_lt_trans(ta, xb[0].0, xb[i].0);
                                }
                            }
                        }
                        lemma_docs_in_absent(xb, t);
                    } else {
                        lemma_docs_in_absent(xb, t);
                    }
                    assert(Seq::<TermDocV>::empty() + docs_in(xa, t) + docs_in(xb, t) == docs_in(o, t) + docs_in(xa, t)
                        + docs_in(xb, t));
                    if take_a && take_b {
                        assert(ev.1 + Seq::<TermDocV>::empty() + Seq::<TermDocV>::empty() =~= Seq::<TermDocV>::empty()
                            + xa[0].1 + xb[0].1);
                    } else if take_a {
                        assert(ev.1 + Seq::<TermDocV>::empty() + docs_in(rb2, t) =~= Seq::<TermDocV>::empty() + xa[0].1
                            + docs_in(rb2, t));
                    } else {
                        assert(ev.1 + docs_in(ra2, t) + Seq::<TermDocV>::empty() =~= Seq::<TermDocV>::empty()
                            + docs_in(ra2, t) + xb[0].1);
                    }
                } else {
                    if has_term(o, t) {
                    } else {
                        lemma_docs_in_absent(o, t);
                    }
                    if take_a {
                        assert(docs_in(xa, t) == docs_in(ra2, t));
                    }
                    if take_b {
                        assert(docs_in(xb, t) == docs_in(rb2, t));
                    }
                }
            }
        }
    }
    proof {
        assert forall|t: Seq<char>| docs_in(entries_view(out@), t) == docs_in(a0, t) + docs_in(b0, t) by {
            assert(entries_view(ra@) =~= Seq::<EntryV>::empty());
            assert(entries_view(rb@) =~= Seq::<EntryV>::empty());
            assert(docs_in(entries_view(out@), t) + Seq::<TermDocV>::empty() + Seq::<TermDocV>::empty()
                =~= docs_in(entries_view(out@), t));
        }
        assert forall|t: Seq<char>| has_term(entries_view(out@), t) <==> (has_term(a0, t) || has_term(b0, t)) by {
            assert(!has_term(entries_view(ra@), t));
            assert(!has_term(entries_view(rb@), t));
        }
    }
    out
}

/// The merged terms as plain values: each term and its documents.
pub open spec fn merged_view(v: Seq<(String, u32, Vec<TermDoc>)>) -> Seq<EntryV> {
    v.map_values(|r: (String, u32, Vec<TermDoc>)| (r.0@, r.2@.map_values(|d: TermDoc| d@)))
}

/// The blocks as plain values.
pub open spec fn blocks_view(bs: Seq<Vec<(String, Vec<TermDoc>)>>) -> Seq<Seq<EntryV>> {
    bs.map_values(|b: Vec<(String, Vec<TermDoc>)>| entries_view(b@))
}

/// Merges the blocks: every term of any block once, in ascending order,
/// with its documents from every block, block after block, and their number
/// (its document frequency).
#[verifier::rlimit(40)]
pub fn merge_block_terms(blocks: Vec<Vec<(String, Vec<TermDoc>)>>) -> (res: Vec<(String, u32, Vec<TermDoc>)>)
    requires
        forall|b: int| 0 <= b < blocks@.len() ==> strictly_sorted(entries_view((#[trigger] blocks@[b])@)),
        forall|t: Seq<char>| (#[trigger] blocks_docs(blocks_view(blocks@), t)).len() <= u32::MAX,
    ensures
        strictly_sorted(merged_view(res@)),
        forall|t: Seq<char>| has_term(merged_view(res@), t) <==> in_some_block(blocks_view(blocks@), t),
        forall|t: Seq<char>| #[trigger] docs_in(merged_view(res@), t) == blocks_docs(blocks_view(blocks@), t),
        forall|k: int| 0 <= k < res@.len() ==> (#[trigger] res@[k]).1 == res@[k].2@.len(),
{
    let ghost bs = blocks_view(blocks@);
    let mut rest = blocks;
    let mut acc: Vec<(String, Vec<TermDoc>)> = Vec::new();
    let ghost mut i: int = 0;
    proof {
        assert(bs.subrange(0, 0) =~= Seq::<Seq<EntryV>>::empty());
        assert(blocks_view(rest@) =~= bs.subrange(0, bs.len() as int));
    }
    while rest.len() > 0
        invariant
            0 <= i <= bs.len(),
            blocks_view(rest@) == bs.subrange(i, bs.len() as int),
            forall|b: int| 0 <= b < rest@.len() ==> strictly_sorted(entries_view((#[trigger] rest@[b])@)),
            strictly_sorted(entries_view(acc@)),
            forall|t: Seq<char>| has_term(entries_view(acc@), t) <==> in_some_block(bs.subrange(0, i), t),
            forall|t: Seq<char>| docs_in(entries_view(acc@), t) == blocks_docs(bs.subrange(0, i), t),
        decreases rest@.len(),
    {
        let ghost rv = rest@;
        let block = rest.remove(0);
        let ghost bv = entries_view(block@);
        let ghost av = entries_view(acc@);
        proof {
            assert(rv.len() > 0);
            assert(blocks_view(rv).len() == rv.len());
            assert(i < bs.len());
            assert(rv[0] == block);
            assert(bv == bs[i]) by {
                assert(blocks_view(rv)[0] == bs.subrange(i, bs.len() as int)[0]);
                assert(blocks_view(rv)[0] == entries_view(rv[0]@));
            }
            assert(blocks_view(rest@) =~= bs.subrange(i + 1, bs.len() as int)) by {
                assert(blocks_view(rest@) =~= blocks_view(rv).drop_first());
            }
            assert forall|b: int| 0 <= b < rest@.len() implies strictly_sorted(entries_view((#[trigger] rest@[b])@)) by {
                assert(rest@[b] == rv[b + 1]);
            }
        }
        acc = merge_two(acc, block);
        proof {
            let pre = bs.subrange(0, i);
            let post = bs.subrange(0, i + 1);
            assert(post.drop_last() =~= pre);
            assert(post.last() == bv);
            assert forall|t: Seq<char>| has_term(entries_view(acc@), t) <==> in_some_block(post, t) by {
                if in_some_block(post, t) {
                    let b = choose|b: int| 0 <= b < post.len() && has_term(#[trigger] post[b], t);
                    if b < i {
                        assert(pre[b] == post[b]);
                    }
                }
                if in_some_block(pre, t) {
                    let b = choose|b: int| 0 <= b < pre.len() && has_term(#[trigger] pre[b], t);
                    assert(post[b] == pre[b]);
                }
                if has_term(bv, t) {
                    assert(post[i] == bv);
                }
            }
            i = i + 1;
        }
    }
    proof {
        assert(bs.subrange(0, i) =~= bs);
    }
    let ghost av = entries_view(acc@);
    let acc_len = acc.len();
    let mut res: Vec<(String, u32, Vec<TermDoc>)> = Vec::new();
    let mut k: usize = 0;
    let mut src = acc;
    proof {
        assert(merged_view(res@) =~= av.subrange(0, 0));
        assert(entries_view(src@) =~= av.subrange(0, av.len() as int));
    }
    while src.len() > 0
        invariant
            k <= av.len(),
            av.len() == acc_len,
            strictly_sorted(av),
            forall|t: Seq<char>| docs_in(av, t) == blocks_docs(bs, t),
            forall|t: Seq<char>| (#[trigger] blocks_docs(bs, t)).len() <= u32::MAX,
            merged_view(res@) == av.subrange(0, k as int),
            entries_view(src@) == av.subrange(k as int, av.len() as int),
            forall|x: int| 0 <= x < res@.len() ==> (#[trigger] res@[x]).1 == res@[x].2@.len(),
        decreases src@.len(),
    {
        let ghost sv = src@;
        proof {
            assert(entries_view(sv).len() == sv.len());
            assert(k < av.len());
        }
        let (term, docs) = src.remove(0);
        proof {
            assert(entries_view(sv)[0] == av.subrange(k as int, av.len() as int)[0]);
            assert(entries_view(sv)[0] == av[k as int]);
            assert(entry_view((term, docs)) == av[k as int]) by {
                assert(sv[0] == (term, docs));
            }
            lemma_docs_in_at(av, k as int);
            assert(blocks_docs(bs, av[k as int].0).len() <= u32::MAX);
            assert(docs@.len() == av[k as int].1.len());
            assert(entries_view(src@) =~= entries_view(sv).drop_first());
        }
        let n = docs.len() as u32;
        let ghost r0 = res@;
        res.push((term, n, docs));
        proof {
            assert(merged_view(res@) =~= merged_view(r0).push(av[k as int]));
            assert(av.subrange(0, k + 1) =~= av.subrange(0, k as int).push(av[k as int]));
            assert forall|x: int| 0 <= x < res@.len() implies (#[trigger] res@[x]).1 == res@[x].2@.len() by {
                if x < r0.len() {
                    assert(res@[x] == r0[x]);
                }
            }
        }
        k = k + 1;
    }
    proof {
        assert(av.subrange(0, k as int) =~= av);
        assert forall|t: Seq<char>| has_term(merged_view(res@), t) <==> in_some_block(blocks_view(blocks@), t) by {}
    }
    res
}

} // verus!
