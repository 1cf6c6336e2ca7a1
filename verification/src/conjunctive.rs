//! The documents a group of postings lists gives: a bracket's or a
//! top-level query's children combined by their `+` (mandatory) and `-`
//! (subtracted) operators. The scores, which are floating point, are
//! computed from the number of children each document matches.

use vstd::prelude::*;

verus! {

/// One child's postings list: its document ids in increasing order, and its
/// operators.
pub struct ChildPl {
    pub doc_ids: Vec<u32>,
    pub is_mandatory: bool,
    pub is_subtracted: bool,
}

/// Whether the ids strictly increase.
pub open spec fn increasing(ids: Seq<u32>) -> bool {
    forall|i: int, j: int| 0 <= i < j < ids.len() ==> ids[i] < ids[j]
}

/// Whether the child's list holds document `d`.
pub open spec fn holds(c: ChildPl, d: int) -> bool {
    exists|x: int| 0 <= x < c.doc_ids@.len() && c.doc_ids@[x] == d
}

/// Whether some child is mandatory.
pub open spec fn has_mandatory(cs: Seq<ChildPl>) -> bool {
    exists|c: int| 0 <= c < cs.len() && (#[trigger] cs[c]).is_mandatory
}

/// Whether document `d` is in the result: no subtracted child holds it, and
/// every mandatory child holds it (the largest id, `u32::MAX`, ends the
/// search among mandatory children), or, without mandatory children, some
/// child holds it.
pub open spec fn kept(cs: Seq<ChildPl>, d: int) -> bool {
    &&& forall|c: int| 0 <= c < cs.len() && (#[trigger] cs[c]).is_subtracted ==> !holds(cs[c], d)
    &&& if has_mandatory(cs) {
        d != u32::MAX && forall|c: int| 0 <= c < cs.len() && (#[trigger] cs[c]).is_mandatory ==> holds(cs[c], d)
    } else {
        exists|c: int| 0 <= c < cs.len() && holds(#[trigger] cs[c], d)
    }
}

/// How many children that are not subtracted hold document `d`.
pub open spec fn matched(cs: Seq<ChildPl>, d: int) -> nat
    decreases cs.len(),
{
    if cs.len() == 0 {
        0
    } else {
        matched(cs.drop_last(), d) + if !cs.last().is_subtracted && holds(cs.last(), d) {
            1nat
        } else {
            0nat
        }
    }
}

/// Whether `res` holds document `d`.
pub open spec fn listed(res: Seq<(u32, usize)>, d: int) -> bool {
    exists|k: int| 0 <= k < res.len() && res[k].0 == d
}

/// The id a child's list is at, or `u32::MAX` once it is read through.
pub open spec fn head(c: ChildPl, at: int) -> int {
    if at < c.doc_ids@.len() {
        c.doc_ids@[at] as int
    } else {
        u32::MAX as int
    }
}

/// How many ids the lists have left after the cursors of the first `k`.
pub open spec fn remaining(cs: Seq<ChildPl>, cur: Seq<usize>, k: int) -> int
    decreases k,
{
    if k <= 0 {
        0
    } else {
        remaining(cs, cur, k - 1) + (cs[k - 1].doc_ids@.len() - cur[k - 1])
    }
}

proof fn lemma_remaining(cs: Seq<ChildPl>, a: Seq<usize>, b: Seq<usize>, k: int)
    requires
        0 <= k <= cs.len(),
        k <= a.len(),
        k <= b.len(),
        forall|c: int| 0 <= c < k ==> a[c] <= #[trigger] b[c] <= cs[c].doc_ids@.len(),
    ensures
        0 <= remaining(cs, b, k) <= remaining(cs, a, k),
        (exists|c: int| 0 <= c < k && a[c] < b[c]) ==> remaining(cs, b, k) < remaining(cs, a, k),
    decreases k,
{
    if k > 0 {
        lemma_remaining(cs, a, b, k - 1);
        if exists|c: int| 0 <= c < k && a[c] < b[c] {
            let c = choose|c: int| 0 <= c < k && a[c] < b[c];
            if c < k - 1 {
                assert(exists|c: int| 0 <= c < k - 1 && a[c] < b[c]);
            }
        }
    }
}

/// The documents the children give, in increasing id order, each with how
/// many children that are not subtracted hold it: the documents every
/// mandatory child holds, or, without mandatory children, those some child
/// holds; less those a subtracted child holds.
#[verifier::rlimit(60)]
#[verifier::spinoff_prover]
pub fn conjunctive_docs(children: &Vec<ChildPl>) -> (res: Vec<(u32, usize)>)
    requires
        forall|c: int| 0 <= c < children@.len() ==> increasing((#[trigger] children@[c]).doc_ids@),
    ensures
        forall|i: int, j: int| 0 <= i < j < res@.len() ==> res@[i].0 < res@[j].0,
        forall|d: int| 0 <= d <= u32::MAX ==> (listed(res@, d) <==> kept(children@, d)),
        forall|k: int| 0 <= k < res@.len() ==> res@[k].1 == matched(children@, res@[k].0 as int),
{
    let n = children.len();
    let ghost cs = children@;
    let mut any_m = false;
    let mut c: usize = 0;
    while c < n
        invariant
            c <= n == cs.len(),
            children@ == cs,
            any_m <==> exists|x: int| 0 <= x < c && (#[trigger] cs[x]).is_mandatory,
        decreases n - c,
    {
        if children[c].is_mandatory {
            any_m = true;
        }
        c = c + 1;
    }
    let mut cur: Vec<usize> = Vec::new();
    let mut c: usize = 0;
    while c < n
        invariant
            c <= n,
            cur@.len() == c,
            forall|x: int| 0 <= x < c ==> cur@[x] == 0,
        decreases n - c,
    {
        cur.push(0);
        c = c + 1;
    }
    let mut res: Vec<(u32, usize)> = Vec::new();
    let ghost mut t: int = 0;
    let mut done = false;
    proof {
        lemma_remaining(cs, cur@, cur@, n as int);
    }
    while !done
        invariant
            n == cs.len(),
            children@ == cs,
            forall|c: int| 0 <= c < n ==> increasing((#[trigger] cs[c]).doc_ids@),
            any_m == has_mandatory(cs),
            cur@.len() == n,
            forall|c: int| 0 <= c < n ==> cur@[c] <= (#[trigger] cs[c]).doc_ids@.len(),
            forall|c: int, x: int| 0 <= c < n && 0 <= x < cur@[c] ==> (#[trigger] cs[c].doc_ids@[x]) < t,
            forall|c: int| 0 <= c < n && cur@[c] < cs[c].doc_ids@.len() ==> (#[trigger] cs[c]).doc_ids@[cur@[c] as int] >= t,
            0 <= t <= u32::MAX + 1,
            remaining(cs, cur@, n as int) >= 0,
            forall|i: int, j: int| 0 <= i < j < res@.len() ==> res@[i].0 < res@[j].0,
            forall|k: int| 0 <= k < res@.len() ==> res@[k].0 < t,
            forall|d: int| 0 <= d < t ==> (listed(res@, d) <==> kept(cs, d)),
            forall|k: int| 0 <= k < res@.len() ==> res@[k].1 == matched(cs, res@[k].0 as int),
            done ==> forall|d: int| t <= d <= u32::MAX ==> !kept(cs, d),
        decreases remaining(cs, cur@, n as int) + if done { 0int } else { 1int },
    {
        // the next document to look at, and a child whose list is at it
        let mut doc: u32 = 0;
        let mut found = false;
        let ghost mut w: int = 0;
        let mut c: usize = 0;
        while c < n
            invariant
                c <= n == cs.len(),
                children@ == cs,
                cur@.len() == n,
                any_m == has_mandatory(cs),
                forall|c: int| 0 <= c < n ==> cur@[c] <= (#[trigger] cs[c]).doc_ids@.len(),
                found ==> 0 <= w < c,
                found ==> doc == head(cs[w], cur@[w] as int),
                found && any_m ==> cs[w].is_mandatory,
                !found && any_m ==> forall|x: int| 0 <= x < c ==> !(#[trigger] cs[x]).is_mandatory,
                found && any_m ==> forall|x: int| 0 <= x < c && (#[trigger] cs[x]).is_mandatory ==> head(cs[x], cur@[x] as int) <= doc,
                found && !any_m ==> cur@[w] < cs[w].doc_ids@.len(),
                !found && !any_m ==> forall|x: int| 0 <= x < c ==> cur@[x] == (#[trigger] cs[x]).doc_ids@.len(),
                found && !any_m ==> forall|x: int| 0 <= x < c && cur@[x] < (#[trigger] cs[x]).doc_ids@.len() ==> doc <= cs[x].doc_ids@[cur@[x] as int],
            decreases n - c,
        {
            let ids = &children[c].doc_ids;
            let at = cur[c];
            if any_m {
                if children[c].is_mandatory {
                    let h: u32 = if at < ids.len() { ids[at] } else { u32::MAX };
                    if !found || h > doc {
                        doc = h;
                        found = true;
                        proof { w = c as int; }
                    }
                }
            } else if at < ids.len() {
                let h = ids[at];
                if !found || h < doc {
                    doc = h;
                    found = true;
                    proof { w = c as int; }
                }
            }
            c = c + 1;
        }
        if any_m && doc == u32::MAX {
            proof {
                assert(cs[w].is_mandatory);
                assert forall|d: int| t <= d <= u32::MAX implies !kept(cs, d) by {
                    if d < u32::MAX && holds(cs[w], d) {
                        let x = choose|x: int| 0 <= x < cs[w].doc_ids@.len() && cs[w].doc_ids@[x] == d;
                        if x >= cur@[w] {
                            assert(cur@[w] < cs[w].doc_ids@.len());
                            assert(cs[w].doc_ids@[cur@[w] as int] <= cs[w].doc_ids@[x]);
                        } else {
                            assert(cs[w].doc_ids@[x] < t);
                        }
                    }
                }
            }
            done = true;
        } else if !found {
            proof {
                assert(!any_m);
                assert forall|d: int| t <= d <= u32::MAX implies !kept(cs, d) by {
                    assert forall|x: int| 0 <= x < n implies !holds(#[trigger] cs[x], d) by {
                        if holds(cs[x], d) {
                            let y = choose|y: int| 0 <= y < cs[x].doc_ids@.len() && cs[x].doc_ids@[y] == d;
                            assert(cs[x].doc_ids@[y] < t);
                        }
                    }
                }
            }
            done = true;
        } else {
            proof {
                // no document between `t` and `doc` is kept
                assert(cur@[w] < cs[w].doc_ids@.len());
                assert(doc >= t);
                assert forall|d: int| t <= d < doc implies !kept(cs, d) by {
                    if any_m {
                        if holds(cs[w], d) {
                            let x = choose|x: int| 0 <= x < cs[w].doc_ids@.len() && cs[w].doc_ids@[x] == d;
                            if x >= cur@[w] {
                                assert(cs[w].doc_ids@[cur@[w] as int] <= cs[w].doc_ids@[x]);
                            } else {
                                assert(cs[w].doc_ids@[x] < t);
                            }
                        }
                    } else {
                        assert forall|x: int| 0 <= x < n implies !holds(#[trigger] cs[x], d) by {
                            if holds(cs[x], d) {
                                let y = choose|y: int| 0 <= y < cs[x].doc_ids@.len() && cs[x].doc_ids@[y] == d;
                                if y >= cur@[x] {
                                    assert(cs[x].doc_ids@[cur@[x] as int] <= cs[x].doc_ids@[y]);
                                } else {
                                    assert(cs[x].doc_ids@[y] < t);
                                }
                            }
                        }
                    }
                }
            }
            let ghost cur0 = cur@;
            let mut is_sub = false;
            let mut all_m = true;
            let mut count: usize = 0;
            let mut c: usize = 0;
            assert(cs.subrange(0, 0) =~= Seq::<ChildPl>::empty());
            while c < n
                invariant
                    c <= n == cs.len(),
                    children@ == cs,
                    forall|c: int| 0 <= c < n ==> increasing((#[trigger] cs[c]).doc_ids@),
                    cur@.len() == n,
                    cur0.len() == n,
                    t <= doc,
                    count <= c,
                    forall|x: int| 0 <= x < n ==> cur0[x] <= #[trigger] cur@[x] && cur@[x] <= cs[x].doc_ids@.len(),
                    forall|x: int| c <= x < n ==> cur@[x] == cur0[x],
                    forall|x: int, y: int| 0 <= x < n && 0 <= y < cur0[x] ==> (#[trigger] cs[x].doc_ids@[y]) < t,
                    forall|x: int| 0 <= x < n && cur0[x] < cs[x].doc_ids@.len() ==> (#[trigger] cs[x]).doc_ids@[cur0[x] as int] >= t,
                    forall|x: int, y: int| 0 <= x < c && 0 <= y < cur@[x] ==> (#[trigger] cs[x].doc_ids@[y]) <= doc,
                    forall|x: int| 0 <= x < c && cur@[x] < cs[x].doc_ids@.len() ==> (#[trigger] cs[x]).doc_ids@[cur@[x] as int] > doc,
                    is_sub <==> exists|x: int| 0 <= x < c && (#[trigger] cs[x]).is_subtracted && holds(cs[x], doc as int),
                    all_m <==> forall|x: int| 0 <= x < c && (#[trigger] cs[x]).is_mandatory ==> holds(cs[x], doc as int) && !cs[x].is_subtracted,
                    count == matched(cs.subrange(0, c as int), doc as int),
                decreases n - c,
            {
                let ids = &children[c].doc_ids;
                let mut p = cur[c];
                let mut hit = false;
                while p < ids.len() && ids[p] <= doc
                    invariant
                        cur0[c as int] <= p <= ids@.len(),
                        ids@ == cs[c as int].doc_ids@,
                        forall|y: int| 0 <= y < p ==> #[trigger] ids@[y] <= doc || y < cur0[c as int],
                        hit <==> exists|y: int| cur0[c as int] <= y < p && ids@[y] == doc,
                    decreases ids@.len() - p,
                {
                    if ids[p] == doc {
                        hit = true;
                    }
                    p = p + 1;
                }
                proof {
                    let l = cs[c as int].doc_ids@;
                    assert(increasing(l));
                    assert(hit <==> holds(cs[c as int], doc as int)) by {
                        if holds(cs[c as int], doc as int) {
                            let y = choose|y: int| 0 <= y < l.len() && l[y] == doc;
                            if y < cur0[c as int] {
                                assert(l[y] < t);
                            } else if y >= p {
                                assert(p < l.len());
                                assert(l[p as int] <= l[y]);
                            }
                        }
                    }
                    assert forall|y: int| 0 <= y < p implies #[trigger] l[y] <= doc by {
                        if y < cur0[c as int] {
                            assert(l[y] < t);
                        }
                    }
                    let sub = cs.subrange(0, c + 1);
                    assert(sub.drop_last() =~= cs.subrange(0, c as int));
                    assert(sub.last() == cs[c as int]);
                }
                let ghost before = cur@;
                cur.set(c, p);
                proof {
                    assert forall|x: int| 0 <= x < n implies cur0[x] <= #[trigger] cur@[x] && cur@[x] <= cs[x].doc_ids@.len() by {
                        if x != c {
                            assert(cur0[x] <= before[x] <= cs[x].doc_ids@.len());
                            assert(cur@[x] == before[x]);
                        } else {
                            assert(cur@[x] == p);
                            assert(cur0[x] <= p);
                            assert(p <= cs[x].doc_ids@.len());
                        }
                    }
                }
                if children[c].is_subtracted {
                    if hit {
                        is_sub = true;
                    }
                    if children[c].is_mandatory {
                        all_m = false;
                    }
                } else {
                    if hit {
                        count = count + 1;
                    } else if children[c].is_mandatory {
                        all_m = false;
                    }
                }
                c = c + 1;
            }
            proof {
                assert(cs.subrange(0, n as int) =~= cs);
                lemma_remaining(cs, cur0, cur@, n as int);
                assert(cur0[w] < cur@[w]) by {
                    assert(cs[w].doc_ids@[cur0[w] as int] <= doc);
                }
                assert(kept(cs, doc as int) <==> (!is_sub && (!any_m || all_m))) by {
                    if !any_m {
                        assert(holds(cs[w], doc as int)) by {
                            assert(cs[w].doc_ids@[cur0[w] as int] == doc);
                        }
                    }
                }
            }
            let ghost res0 = res@;
            if !is_sub && (!any_m || all_m) {
                res.push((doc, count));
            }
            proof {
                assert forall|d: int| 0 <= d < doc + 1 implies (listed(res@, d) <==> kept(cs, d)) by {
                    if listed(res@, d) {
                        let k = choose|k: int| 0 <= k < res@.len() && res@[k].0 == d;
                        if k < res0.len() {
                            assert(res0[k].0 == d);
                        }
                    }
                    if d < t && listed(res0, d) {
                        let k = choose|k: int| 0 <= k < res0.len() && res0[k].0 == d;
                        assert(res@[k].0 == d);
                    }
                    if d == doc && kept(cs, d) {
                        assert(res@[res@.len() - 1].0 == d);
                    }
                }
                t = doc + 1;
            }
        }
    }
    res
}

} // verus!
