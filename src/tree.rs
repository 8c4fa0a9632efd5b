use vstd::prelude::*;

use crate::process::{MyProcess, MyProcessID};
use crate::sort::deref_all;

verus! {

/// The direct children of one parent id, in snapshot order.
pub struct ChildBucket<'a> {
    pub parent_id: MyProcessID,
    pub children: Vec<&'a MyProcess>,
}

/// A snapshot as a forest: the roots, and the children of each parent id.
pub struct ProcessForest<'a> {
    pub roots: Vec<&'a MyProcess>,
    pub buckets: Vec<ChildBucket<'a>>,
}

/// The records of `s` whose parent id is `id`, in order.
pub open spec fn with_parent(s: Seq<MyProcess>, id: int) -> Seq<MyProcess>
    decreases s.len(),
{
    if s.len() == 0 {
        s
    } else if s.last().parent_id == id {
        with_parent(s.drop_last(), id).push(s.last())
    } else {
        with_parent(s.drop_last(), id)
    }
}

/// No two buckets share a parent id.
pub open spec fn keys_unique(bs: Seq<ChildBucket>) -> bool {
    forall|i: int, j: int|
        0 <= i < bs.len() && 0 <= j < bs.len() && i != j ==> bs[i].parent_id != bs[j].parent_id
}

pub open spec fn has_bucket(bs: Seq<ChildBucket>, id: int) -> bool {
    exists|k: int| 0 <= k < bs.len() && bs[k].parent_id == id
}

/// The children listed under `id`; none where no bucket has that key.
pub open spec fn children_of(bs: Seq<ChildBucket>, id: int) -> Seq<MyProcess> {
    if has_bucket(bs, id) {
        let k = choose|k: int| 0 <= k < bs.len() && bs[k].parent_id == id;
        deref_all(bs[k].children@)
    } else {
        Seq::empty()
    }
}

impl<'a> ProcessForest<'a> {
    pub open spec fn wf(&self) -> bool {
        keys_unique(self.buckets@)
    }

    pub open spec fn root_records(&self) -> Seq<MyProcess> {
        deref_all(self.roots@)
    }

    pub open spec fn children(&self, id: int) -> Seq<MyProcess> {
        children_of(self.buckets@, id)
    }
}

/// Index of the bucket for `id`, if there is one.
pub fn find_bucket(bs: &Vec<ChildBucket>, id: MyProcessID) -> (r: Option<usize>)
    ensures
        match r {
            Some(k) => k < bs@.len() && bs@[k as int].parent_id == id,
            None => !has_bucket(bs@, id as int),
        },
{
    let mut k: usize = 0;
    while k < bs.len()
        invariant
            k <= bs@.len(),
            forall|m: int| 0 <= m < k ==> bs@[m].parent_id != id,
        decreases bs@.len() - k,
    {
        if bs[k].parent_id == id {
            return Some(k);
        }
        k = k + 1;
    }
    None
}

pub proof fn lemma_children_at(bs: Seq<ChildBucket>, k: int)
    requires
        keys_unique(bs),
        0 <= k < bs.len(),
    ensures
        children_of(bs, bs[k].parent_id as int) == deref_all(bs[k].children@),
{
    assert(has_bucket(bs, bs[k].parent_id as int));
}

/// Splits a snapshot into its roots (parent id `0`) and, for each other
/// parent id, the records under it; both keep the snapshot's order.
pub fn to_root_parents_and_children<'a>(procs: &'a Vec<MyProcess>) -> (r: ProcessForest<'a>)
    ensures
        r.wf(),
        r.root_records() == with_parent(procs@, 0),
        forall|id: int| id != 0 ==> #[trigger] r.children(id) == with_parent(procs@, id),
        !has_bucket(r.buckets@, 0),
        forall|k: int| 0 <= k < r.buckets@.len() ==> r.buckets@[k].children@.len() > 0,
{
    let mut roots: Vec<&'a MyProcess> = Vec::new();
    let mut buckets: Vec<ChildBucket<'a>> = Vec::new();
    let mut i: usize = 0;
    assert(deref_all(roots@) =~= with_parent(procs@.take(0), 0));
    while i < procs.len()
        invariant
            i <= procs@.len(),
            keys_unique(buckets@),
            deref_all(roots@) == with_parent(procs@.take(i as int), 0),
            forall|id: int| id != 0 ==> #[trigger] children_of(buckets@, id) == with_parent(
                procs@.take(i as int),
                id,
            ),
            !has_bucket(buckets@, 0),
            forall|k: int| 0 <= k < buckets@.len() ==> buckets@[k].children@.len() > 0,
        decreases procs@.len() - i,
    {
        let p: &'a MyProcess = &procs[i];
        let ghost pre = procs@.take(i as int);
        let ghost next = procs@.take(i + 1);
        assert(next.drop_last() =~= pre);
        assert(next.last() == *p);
        let ghost old_buckets = buckets@;
        if p.parent_id == 0 {
            roots.push(p);
            assert(deref_all(roots@) =~= with_parent(next, 0));
            assert forall|id: int| id != 0 implies #[trigger] children_of(buckets@, id)
                == with_parent(next, id) by {
                assert(with_parent(next, id) == with_parent(pre, id));
            }
        } else {
            match find_bucket(&buckets, p.parent_id) {
                Some(k) => {
                    proof {
                        lemma_children_at(buckets@, k as int);
                    }
                    let mut b = buckets.remove(k);
                    b.children.push(p);
                    buckets.insert(k, b);
                    assert(buckets@ =~= old_buckets.update(k as int, b));
                    assert(b.parent_id == old_buckets[k as int].parent_id);
                    assert(forall|j: int|
                        0 <= j < buckets@.len() ==> buckets@[j].parent_id
                            == old_buckets[j].parent_id);
                    assert(keys_unique(buckets@));
                    assert(deref_all(b.children@) =~= deref_all(old_buckets[k as int].children@).push(
                        *p,
                    ));
                    assert forall|id: int| id != 0 implies #[trigger] children_of(buckets@, id)
                        == with_parent(next, id) by {
                        assert(children_of(old_buckets, id) == with_parent(pre, id));
                        if id == p.parent_id {
                            lemma_children_at(buckets@, k as int);
                            lemma_children_at(old_buckets, k as int);
                            assert(children_of(old_buckets, id) == with_parent(pre, id));
                            assert(with_parent(next, id) == with_parent(pre, id).push(*p));
                        } else {
                            assert(with_parent(next, id) == with_parent(pre, id));
                            if has_bucket(buckets@, id) {
                                let j = choose|j: int|
                                    0 <= j < buckets@.len() && buckets@[j].parent_id == id;
                                lemma_children_at(buckets@, j);
                                assert(j < old_buckets.len());
                                assert(old_buckets[j].parent_id == id);
                                lemma_children_at(old_buckets, j);
                                assert(buckets@[j] == old_buckets[j]);
                            } else {
                                if has_bucket(old_buckets, id) {
                                    let j = choose|j: int|
                                        0 <= j < old_buckets.len() && old_buckets[j].parent_id
                                            == id;
                                    assert(buckets@[j].parent_id == id);
                                }
                            }
                        }
                    }
                    assert(!has_bucket(buckets@, 0));
                },
                None => {
                    let mut children: Vec<&'a MyProcess> = Vec::new();
                    children.push(p);
                    buckets.push(ChildBucket { parent_id: p.parent_id, children });
                    let ghost k = old_buckets.len() as int;
                    assert(buckets@ =~= old_buckets.push(ChildBucket { parent_id: p.parent_id, children }));
                    assert forall|id: int| id != 0 implies #[trigger] children_of(buckets@, id)
                        == with_parent(next, id) by {
                        assert(children_of(old_buckets, id) == with_parent(pre, id));
                        if id == p.parent_id {
                            assert(keys_unique(buckets@)) by {
                                assert(forall|j: int|
                                    0 <= j < old_buckets.len() ==> buckets@[j] == old_buckets[j]);
                                assert(!has_bucket(old_buckets, p.parent_id as int));
                            }
                            lemma_children_at(buckets@, k);
                            assert(with_parent(pre, id) == children_of(old_buckets, id));
                            assert(with_parent(next, id) == with_parent(pre, id).push(*p));
                            assert(deref_all(buckets@[k].children@) =~= seq![*p]);
                            assert(with_parent(pre, id) =~= Seq::<MyProcess>::empty());
                        } else {
                            assert(with_parent(next, id) == with_parent(pre, id));
                            if has_bucket(buckets@, id) {
                                let j = choose|j: int|
                                    0 <= j < buckets@.len() && buckets@[j].parent_id == id;
                                lemma_children_at(buckets@, j);
                                assert(j < old_buckets.len());
                                assert(old_buckets[j].parent_id == id);
                                lemma_children_at(old_buckets, j);
                                assert(buckets@[j] == old_buckets[j]);
                            } else {
                                if has_bucket(old_buckets, id) {
                                    let j = choose|j: int|
                                        0 <= j < old_buckets.len() && old_buckets[j].parent_id
                                            == id;
                                    assert(buckets@[j].parent_id == id);
                                }
                            }
                        }
                    }
                    assert(!has_bucket(buckets@, 0));
                },
            }
            assert(deref_all(roots@) =~= with_parent(next, 0));
        }
        i = i + 1;
    }
    assert(procs@.take(procs@.len() as int) =~= procs@);
    ProcessForest { roots, buckets }
}

} // verus!
