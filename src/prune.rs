use vstd::prelude::*;

use crate::filter::in_lineage;
use crate::process::{MyProcess, MyProcessID};
use crate::sort::deref_all;
use crate::tree::{children_of, has_bucket, keys_unique, ChildBucket, ProcessForest};

verus! {

/// Some record with this id is a match of (column, value) or an ancestor of one.
pub open spec fn id_retained(procs: Seq<MyProcess>, column: Seq<char>, value: Seq<char>, id: int) -> bool {
    exists|k: int|
        0 <= k < procs.len() && procs[k].id == id && #[trigger] in_lineage(procs, column, value, k)
}

/// The records of `s` that survive one predicate, in order.
pub open spec fn select_one(
    s: Seq<MyProcess>,
    procs: Seq<MyProcess>,
    column: Seq<char>,
    value: Seq<char>,
) -> Seq<MyProcess>
    decreases s.len(),
{
    if s.len() == 0 {
        s
    } else if id_retained(procs, column, value, s.last().id as int) {
        select_one(s.drop_last(), procs, column, value).push(s.last())
    } else {
        select_one(s.drop_last(), procs, column, value)
    }
}

/// The record survives every predicate.
pub open spec fn retained_all(
    procs: Seq<MyProcess>,
    preds: Seq<(Seq<char>, Seq<char>)>,
    p: MyProcess,
) -> bool {
    forall|j: int| 0 <= j < preds.len() ==> id_retained(procs, #[trigger] preds[j].0, preds[j].1, p.id as int)
}

/// The records of `s` that survive every predicate, in order.
pub open spec fn select(
    s: Seq<MyProcess>,
    procs: Seq<MyProcess>,
    preds: Seq<(Seq<char>, Seq<char>)>,
) -> Seq<MyProcess>
    decreases s.len(),
{
    if s.len() == 0 {
        s
    } else if retained_all(procs, preds, s.last()) {
        select(s.drop_last(), procs, preds).push(s.last())
    } else {
        select(s.drop_last(), procs, preds)
    }
}

/// Applying the predicates one after another keeps what survives them all.
pub proof fn lemma_select_push(
    s: Seq<MyProcess>,
    procs: Seq<MyProcess>,
    preds: Seq<(Seq<char>, Seq<char>)>,
    pred: (Seq<char>, Seq<char>),
)
    ensures
        select(s, procs, preds.push(pred)) == select_one(select(s, procs, preds), procs, pred.0, pred.1),
    decreases s.len(),
{
    if s.len() > 0 {
        lemma_select_push(s.drop_last(), procs, preds, pred);
        let x = s.last();
        let ps = preds.push(pred);
        assert(retained_all(procs, ps, x) == (retained_all(procs, preds, x) && id_retained(
            procs,
            pred.0,
            pred.1,
            x.id as int,
        ))) by {
            assert(ps[preds.len() as int] == pred);
            assert(forall|j: int| 0 <= j < preds.len() ==> ps[j] == preds[j]);
            if retained_all(procs, preds, x) && id_retained(procs, pred.0, pred.1, x.id as int) {
                assert forall|j: int| 0 <= j < ps.len() implies id_retained(
                    procs,
                    #[trigger] ps[j].0,
                    ps[j].1,
                    x.id as int,
                ) by {
                    if j < preds.len() {
                        assert(ps[j] == preds[j]);
                    }
                }
            }
            if retained_all(procs, ps, x) {
                assert forall|j: int| 0 <= j < preds.len() implies id_retained(
                    procs,
                    #[trigger] preds[j].0,
                    preds[j].1,
                    x.id as int,
                ) by {
                    assert(ps[j] == preds[j]);
                    assert(id_retained(procs, ps[j].0, ps[j].1, x.id as int));
                }
                assert(id_retained(procs, ps[preds.len() as int].0, ps[preds.len() as int].1, x.id as int));
            }
        }
        let prev = select(s.drop_last(), procs, preds);
        assert(prev.push(x).drop_last() =~= prev);
    }
}

/// Whether a record with this id is marked in `keep`.
fn id_kept(procs: &Vec<MyProcess>, keep: &Vec<bool>, id: MyProcessID) -> (r: bool)
    requires
        keep@.len() == procs@.len(),
    ensures
        r == exists|k: int| 0 <= k < procs@.len() && procs@[k].id == id && #[trigger] keep@[k],
{
    let mut k: usize = 0;
    while k < procs.len()
        invariant
            keep@.len() == procs@.len(),
            k <= procs@.len(),
            forall|m: int| 0 <= m < k ==> !(procs@[m].id == id && #[trigger] keep@[m]),
        decreases procs@.len() - k,
    {
        if procs[k].id == id && keep[k] {
            return true;
        }
        k = k + 1;
    }
    false
}

/// The entries of `v` whose id is retained.
fn prune_refs<'a>(
    v: &Vec<&'a MyProcess>,
    procs: &Vec<MyProcess>,
    keep: &Vec<bool>,
    column: Ghost<Seq<char>>,
    value: Ghost<Seq<char>>,
) -> (r: Vec<&'a MyProcess>)
    requires
        keep@.len() == procs@.len(),
        forall|k: int| 0 <= k < procs@.len() ==> (#[trigger] keep@[k] <==> in_lineage(procs@, column@, value@, k)),
    ensures
        deref_all(r@) == select_one(deref_all(v@), procs@, column@, value@),
{
    let mut out: Vec<&'a MyProcess> = Vec::new();
    let mut i: usize = 0;
    assert(deref_all(v@.take(0)) =~= Seq::<MyProcess>::empty());
    assert(deref_all(out@) =~= Seq::<MyProcess>::empty());
    while i < v.len()
        invariant
            i <= v@.len(),
            keep@.len() == procs@.len(),
            forall|k: int| 0 <= k < procs@.len() ==> (#[trigger] keep@[k] <==> in_lineage(procs@, column@, value@, k)),
            deref_all(out@) == select_one(deref_all(v@.take(i as int)), procs@, column@, value@),
        decreases v@.len() - i,
    {
        let p = v[i];
        proof {
            assert(deref_all(v@.take(i + 1)).drop_last() =~= deref_all(v@.take(i as int)));
            assert(deref_all(v@.take(i + 1)).last() == *p);
        }
        let kept = id_kept(procs, keep, p.id);
        proof {
            if kept {
                let k = choose|k: int| 0 <= k < procs@.len() && procs@[k].id == p.id && #[trigger] keep@[k];
                assert(in_lineage(procs@, column@, value@, k));
            } else {
                if id_retained(procs@, column@, value@, p.id as int) {
                    let k = choose|k: int| 0 <= k < procs@.len() && procs@[k].id == p.id && #[trigger] in_lineage(procs@, column@, value@, k);
                    assert(keep@[k]);
                }
            }
        }
        if kept {
            out.push(p);
            assert(deref_all(out@) =~= select_one(deref_all(v@.take(i as int)), procs@, column@, value@).push(*p));
        }
        i = i + 1;
    }
    assert(v@.take(v@.len() as int) =~= v@);
    out
}

/// Drops from the forest every record whose id is not retained, and every
/// bucket left empty.
pub fn prune_forest<'a>(
    f: ProcessForest<'a>,
    procs: &Vec<MyProcess>,
    keep: &Vec<bool>,
    column: Ghost<Seq<char>>,
    value: Ghost<Seq<char>>,
) -> (r: ProcessForest<'a>)
    requires
        f.wf(),
        keep@.len() == procs@.len(),
        forall|k: int| 0 <= k < procs@.len() ==> (#[trigger] keep@[k] <==> in_lineage(procs@, column@, value@, k)),
    ensures
        r.wf(),
        r.root_records() == select_one(f.root_records(), procs@, column@, value@),
        forall|id: int| #[trigger] r.children(id) == select_one(f.children(id), procs@, column@, value@),
{
    let roots = prune_refs(&f.roots, procs, keep, column, value);
    let mut buckets: Vec<ChildBucket<'a>> = Vec::new();
    let ghost mut origin: Seq<int> = Seq::empty();
    let mut i: usize = 0;
    while i < f.buckets.len()
        invariant
            f.wf(),
            i <= f.buckets@.len(),
            keep@.len() == procs@.len(),
            forall|k: int| 0 <= k < procs@.len() ==> (#[trigger] keep@[k] <==> in_lineage(procs@, column@, value@, k)),
            origin.len() == buckets@.len(),
            forall|j: int| 0 <= j < origin.len() ==> 0 <= #[trigger] origin[j] < i,
            forall|j: int, m: int| 0 <= j < m < origin.len() ==> origin[j] < origin[m],
            forall|j: int| 0 <= j < origin.len() ==> (#[trigger] buckets@[j]).parent_id == f.buckets@[origin[j]].parent_id,
            forall|j: int| 0 <= j < origin.len() ==> deref_all((#[trigger] buckets@[j]).children@) == select_one(deref_all(f.buckets@[origin[j]].children@), procs@, column@, value@),
            forall|j: int| 0 <= j < origin.len() ==> (#[trigger] buckets@[j]).children@.len() > 0,
            forall|m: int| 0 <= m < i && select_one(deref_all(f.buckets@[m].children@), procs@, column@, value@).len() > 0 ==> exists|j: int| 0 <= j < origin.len() && #[trigger] origin[j] == m,
        decreases f.buckets@.len() - i,
    {
        let kept = prune_refs(&f.buckets[i].children, procs, keep, column, value);
        let ghost old_origin = origin;
        if kept.len() > 0 {
            let ghost ob = buckets@;
            buckets.push(ChildBucket { parent_id: f.buckets[i].parent_id, children: kept });
            proof {
                origin = origin.push(i as int);
                assert forall|j: int| 0 <= j < origin.len() - 1 implies buckets@[j] == ob[j] by {}
                assert(origin[origin.len() - 1] == i as int);
            }
        }
        proof {
            assert forall|m: int| 0 <= m < i + 1 && select_one(deref_all(f.buckets@[m].children@), procs@, column@, value@).len() > 0 implies exists|j: int| 0 <= j < origin.len() && #[trigger] origin[j] == m by {
                if m < i {
                    let j = choose|j: int| 0 <= j < old_origin.len() && #[trigger] old_origin[j] == m;
                    assert(origin[j] == m);
                } else {
                    assert(origin[origin.len() - 1] == m);
                }
            }
        }
        i = i + 1;
    }
    let r = ProcessForest { roots, buckets };
    proof {
        assert(keys_unique(buckets@)) by {
            assert forall|a: int, b: int| 0 <= a < buckets@.len() && 0 <= b < buckets@.len() && a != b implies buckets@[a].parent_id != buckets@[b].parent_id by {
                assert(origin[a] != origin[b]);
            }
        }
        assert forall|id: int| #[trigger] r.children(id) == select_one(f.children(id), procs@, column@, value@) by {
            if has_bucket(f.buckets@, id) {
                let m = choose|m: int| 0 <= m < f.buckets@.len() && f.buckets@[m].parent_id == id;
                crate::tree::lemma_children_at(f.buckets@, m);
                if select_one(deref_all(f.buckets@[m].children@), procs@, column@, value@).len() > 0 {
                    let j = choose|j: int| 0 <= j < origin.len() && #[trigger] origin[j] == m;
                    crate::tree::lemma_children_at(buckets@, j);
                } else {
                    if has_bucket(buckets@, id) {
                        let j = choose|j: int| 0 <= j < buckets@.len() && buckets@[j].parent_id == id;
                        assert(origin[j] == m);
                    }
                }
            } else {
                if has_bucket(buckets@, id) {
                    let j = choose|j: int| 0 <= j < buckets@.len() && buckets@[j].parent_id == id;
                    assert(f.buckets@[origin[j]].parent_id == id);
                }
                assert(select_one(Seq::<MyProcess>::empty(), procs@, column@, value@) =~= Seq::<MyProcess>::empty());
            }
        }
    }
    r
}

} // verus!
