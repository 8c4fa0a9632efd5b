use vstd::prelude::*;
use vstd::set_lib::{lemma_int_range, lemma_len_subset, set_int_range};

use crate::process::MyProcess;
use crate::tree::{find_bucket, lemma_children_at, ProcessForest};

verus! {

/// Some row shows a record with this id.
pub open spec fn shows_id(rows: Seq<(&MyProcess, usize)>, id: int) -> bool {
    exists|m: int| 0 <= m < rows.len() && (#[trigger] rows[m]).0.id == id
}

/// The list that an anchor refers to: the roots for `-1`, else the children
/// of the record in that row.
pub open spec fn list_at(f: &ProcessForest, rows: Seq<(&MyProcess, usize)>, a: int) -> Seq<MyProcess> {
    if a < 0 {
        f.root_records()
    } else {
        f.children(rows[a].0.id as int)
    }
}

/// Entry `e` with depth `d`, anchored at row `a`, position `p`, is placed
/// correctly with respect to rows `0..upto`.
pub open spec fn placed(
    f: &ProcessForest,
    rows: Seq<(&MyProcess, usize)>,
    upto: int,
    e: &MyProcess,
    d: usize,
    a: int,
    p: int,
) -> bool {
    &&& (a == -1 <==> d == 0)
    &&& -1 <= a < upto
    &&& a >= 0 ==> rows[a].1 + 1 == d && forall|x: int| a < x < upto ==> (#[trigger] rows[x]).1 >= d
    &&& 0 <= p < list_at(f, rows, a).len()
    &&& list_at(f, rows, a)[p] == *e
}

/// Rows at the same depth with nothing shallower between them are siblings.
pub open spec fn between_not_shallower(rows: Seq<(&MyProcess, usize)>, i: int, j: int) -> bool {
    forall|m: int| i < m < j ==> (#[trigger] rows[m]).1 >= rows[i].1
}

pub open spec fn rows_ok(f: &ProcessForest, rows: Seq<(&MyProcess, usize)>, ra: Seq<int>, rp: Seq<int>) -> bool {
    &&& ra.len() == rows.len()
    &&& rp.len() == rows.len()
    &&& forall|i: int, j: int| 0 <= i < j < rows.len() ==> rows[i].0.id != rows[j].0.id
    &&& forall|m: int| 0 <= m < rows.len() ==> placed(f, rows, m, (#[trigger] rows[m]).0, rows[m].1, ra[m], rp[m])
    &&& forall|m: int, m2: int| 0 <= m < m2 < rows.len() && ra[m] == ra[m2] ==> rp[m] < rp[m2]
}

pub open spec fn stack_ok(
    f: &ProcessForest,
    rows: Seq<(&MyProcess, usize)>,
    stack: Seq<(&MyProcess, usize)>,
    sa: Seq<int>,
    sp: Seq<int>,
) -> bool {
    &&& sa.len() == stack.len()
    &&& sp.len() == stack.len()
    &&& forall|k: int| 0 <= k < stack.len() ==> placed(f, rows, rows.len() as int, (#[trigger] stack[k]).0, stack[k].1, sa[k], sp[k])
    &&& forall|k: int, k2: int| 0 <= k < k2 < stack.len() ==> stack[k].1 <= stack[k2].1
    &&& forall|k: int, k2: int| 0 <= k < k2 < stack.len() && sa[k] == sa[k2] ==> sp[k2] < sp[k]
}

pub open spec fn cross_ok(ra: Seq<int>, rp: Seq<int>, sa: Seq<int>, sp: Seq<int>) -> bool {
    forall|m: int, k: int| 0 <= m < ra.len() && 0 <= k < sa.len() && ra[m] == sa[k] ==> rp[m] < sp[k]
}

/// The id is shown or waits on the stack.
pub open spec fn pending(rows: Seq<(&MyProcess, usize)>, stack: Seq<(&MyProcess, usize)>, id: int) -> bool {
    shows_id(rows, id) || exists|k: int| 0 <= k < stack.len() && (#[trigger] stack[k]).0.id == id
}

pub open spec fn complete_ok(f: &ProcessForest, rows: Seq<(&MyProcess, usize)>, stack: Seq<(&MyProcess, usize)>) -> bool {
    &&& forall|p: int| 0 <= p < f.root_records().len() ==> pending(rows, stack, #[trigger] f.root_records()[p].id as int)
    &&& forall|i: int, q: int| 0 <= i < rows.len() && 0 <= q < f.children(rows[i].0.id as int).len()
        ==> pending(rows, stack, #[trigger] f.children(rows[i].0.id as int)[q].id as int)
}

/// State of the depth-first walk: the rows shown so far and the stack of
/// entries still to visit. For each row and each entry, `ra`/`sa` hold the
/// row it hangs under (`-1` for a root) and `rp`/`sp` its position in that
/// row's list.
struct Dfs<'a> {
    rows: Vec<(&'a MyProcess, usize)>,
    stack: Vec<(&'a MyProcess, usize)>,
    ra: Ghost<Seq<int>>,
    rp: Ghost<Seq<int>>,
    sa: Ghost<Seq<int>>,
    sp: Ghost<Seq<int>>,
}

impl<'a> Dfs<'a> {
    spec fn inv(&self, f: &ProcessForest) -> bool {
        &&& f.wf()
        &&& rows_ok(f, self.rows@, self.ra@, self.rp@)
        &&& stack_ok(f, self.rows@, self.stack@, self.sa@, self.sp@)
        &&& cross_ok(self.ra@, self.rp@, self.sa@, self.sp@)
        &&& complete_ok(f, self.rows@, self.stack@)
    }
}

proof fn lemma_placed_extend(
    f: &ProcessForest,
    rows: Seq<(&MyProcess, usize)>,
    row: (&MyProcess, usize),
    e: &MyProcess,
    d: usize,
    a: int,
    p: int,
)
    requires
        placed(f, rows, rows.len() as int, e, d, a, p),
        row.1 >= d,
    ensures
        placed(f, rows.push(row), rows.push(row).len() as int, e, d, a, p),
{
    let r2 = rows.push(row);
    if a >= 0 {
        assert(r2[a] == rows[a]);
        assert forall|x: int| a < x < r2.len() implies (#[trigger] r2[x]).1 >= d by {
            if x < rows.len() {
                assert(r2[x] == rows[x]);
            }
        }
    }
    assert(list_at(f, r2, a) == list_at(f, rows, a));
}

proof fn lemma_placed_prefix(
    f: &ProcessForest,
    rows: Seq<(&MyProcess, usize)>,
    row: (&MyProcess, usize),
    m: int,
    e: &MyProcess,
    d: usize,
    a: int,
    p: int,
)
    requires
        0 <= m <= rows.len(),
        placed(f, rows, m, e, d, a, p),
    ensures
        placed(f, rows.push(row), m, e, d, a, p),
{
    let r2 = rows.push(row);
    if a >= 0 {
        assert(r2[a] == rows[a]);
        assert forall|x: int| a < x < m implies (#[trigger] r2[x]).1 >= d by {
            assert(r2[x] == rows[x]);
        }
    }
    assert(list_at(f, r2, a) == list_at(f, rows, a));
}

/// Emitting the popped entry as a new row keeps the row and stack facts.
proof fn lemma_emit(
    f: &ProcessForest,
    rows: Seq<(&MyProcess, usize)>,
    ra: Seq<int>,
    rp: Seq<int>,
    stack: Seq<(&MyProcess, usize)>,
    sa: Seq<int>,
    sp: Seq<int>,
)
    requires
        stack.len() > 0,
        rows_ok(f, rows, ra, rp),
        stack_ok(f, rows, stack, sa, sp),
        cross_ok(ra, rp, sa, sp),
        !shows_id(rows, stack.last().0.id as int),
    ensures
        rows_ok(f, rows.push(stack.last()), ra.push(sa.last()), rp.push(sp.last())),
        stack_ok(f, rows.push(stack.last()), stack.drop_last(), sa.drop_last(), sp.drop_last()),
        cross_ok(ra.push(sa.last()), rp.push(sp.last()), sa.drop_last(), sp.drop_last()),
{
    let t = stack.last();
    let n = stack.len() - 1;
    let r2 = rows.push(t);
    let ra2 = ra.push(sa.last());
    let rp2 = rp.push(sp.last());
    assert(placed(f, rows, rows.len() as int, stack[n].0, stack[n].1, sa[n], sp[n]));
    assert forall|m: int| 0 <= m < r2.len() implies placed(f, r2, m, (#[trigger] r2[m]).0, r2[m].1, ra2[m], rp2[m]) by {
        if m < rows.len() {
            assert(r2[m] == rows[m]);
            lemma_placed_prefix(f, rows, t, m, rows[m].0, rows[m].1, ra[m], rp[m]);
        } else {
            lemma_placed_prefix(f, rows, t, m, t.0, t.1, sa[n], sp[n]);
        }
    }
    assert forall|i: int, j: int| 0 <= i < j < r2.len() implies r2[i].0.id != r2[j].0.id by {
        if j == rows.len() {
            assert(r2[i] == rows[i]);
        }
    }
    assert forall|m: int, m2: int| 0 <= m < m2 < r2.len() && ra2[m] == ra2[m2] implies rp2[m] < rp2[m2] by {
        if m2 == rows.len() {
            assert(ra[m] == sa[n]);
        }
    }
    let st2 = stack.drop_last();
    assert forall|k: int| 0 <= k < st2.len() implies placed(f, r2, r2.len() as int, (#[trigger] st2[k]).0, st2[k].1, sa[k], sp[k]) by {
        assert(st2[k] == stack[k]);
        assert(stack[k].1 <= stack[n].1);
        lemma_placed_extend(f, rows, t, stack[k].0, stack[k].1, sa[k], sp[k]);
    }
    assert forall|m: int, k: int| 0 <= m < ra2.len() && 0 <= k < sa.len() - 1 && ra2[m] == sa.drop_last()[k] implies rp2[m] < sp.drop_last()[k] by {
        if m == rows.len() {
            assert(sa[k] == sa[n]);
        }
    }
}

/// Pushing a child of the newest row keeps the stack facts.
proof fn lemma_push_child(
    f: &ProcessForest,
    rows: Seq<(&MyProcess, usize)>,
    ra: Seq<int>,
    rp: Seq<int>,
    stack: Seq<(&MyProcess, usize)>,
    sa: Seq<int>,
    sp: Seq<int>,
    c: &MyProcess,
    q: int,
)
    requires
        rows.len() > 0,
        rows_ok(f, rows, ra, rp),
        stack_ok(f, rows, stack, sa, sp),
        cross_ok(ra, rp, sa, sp),
        rows.last().1 + 1 <= usize::MAX,
        0 <= q < f.children(rows.last().0.id as int).len(),
        f.children(rows.last().0.id as int)[q] == *c,
        forall|k: int| 0 <= k < stack.len() ==> stack[k].1 <= rows.last().1 + 1,
        forall|k: int| 0 <= k < stack.len() && sa[k] == rows.len() - 1 ==> q < sp[k],
    ensures
        stack_ok(f, rows, stack.push((c, (rows.last().1 + 1) as usize)), sa.push(rows.len() - 1), sp.push(q)),
        cross_ok(ra, rp, sa.push(rows.len() - 1), sp.push(q)),
{
    let a = rows.len() - 1;
    let d = (rows.last().1 + 1) as usize;
    let st2 = stack.push((c, d));
    let sa2 = sa.push(a);
    let sp2 = sp.push(q);
    assert(placed(f, rows, a, rows[a].0, rows[a].1, ra[a], rp[a]));
    assert(placed(f, rows, rows.len() as int, c, d, a, q));
    assert forall|k: int| 0 <= k < st2.len() implies placed(f, rows, rows.len() as int, (#[trigger] st2[k]).0, st2[k].1, sa2[k], sp2[k]) by {
        if k < stack.len() {
            assert(st2[k] == stack[k]);
        }
    }
    assert forall|m: int, k: int| 0 <= m < ra.len() && 0 <= k < sa2.len() && ra[m] == sa2[k] implies rp[m] < sp2[k] by {
        if k == sa.len() {
            assert(placed(f, rows, m, rows[m].0, rows[m].1, ra[m], rp[m]));
        }
    }
}

fn shown(rows: &Vec<(&MyProcess, usize)>, id: i32) -> (r: bool)
    ensures
        r == shows_id(rows@, id as int),
{
    let mut m: usize = 0;
    while m < rows.len()
        invariant
            m <= rows@.len(),
            forall|x: int| 0 <= x < m ==> (#[trigger] rows@[x]).0.id != id,
        decreases rows@.len() - m,
    {
        if rows[m].0.id == id {
            return true;
        }
        m = m + 1;
    }
    false
}

proof fn lemma_pending_kept(
    rows: Seq<(&MyProcess, usize)>,
    stack: Seq<(&MyProcess, usize)>,
    rows2: Seq<(&MyProcess, usize)>,
    stack2: Seq<(&MyProcess, usize)>,
    id: int,
)
    requires
        stack.len() > 0,
        pending(rows, stack, id),
        rows.len() <= rows2.len(),
        rows2.subrange(0, rows.len() as int) == rows,
        stack.len() - 1 <= stack2.len(),
        stack2.subrange(0, stack.len() - 1) == stack.drop_last(),
        shows_id(rows2, stack.last().0.id as int),
    ensures
        pending(rows2, stack2, id),
{
    if shows_id(rows, id) {
        let m = choose|m: int| 0 <= m < rows.len() && (#[trigger] rows[m]).0.id == id;
        assert(rows2.subrange(0, rows.len() as int)[m] == rows2[m]);
        assert(rows2[m].0.id == id);
    } else {
        let k = choose|k: int| 0 <= k < stack.len() && (#[trigger] stack[k]).0.id == id;
        if k < stack.len() - 1 {
            assert(stack2.subrange(0, stack.len() - 1)[k] == stack2[k]);
            assert(stack2[k].0.id == id);
        }
    }
}

proof fn lemma_rows_bounded(rows: Seq<(&MyProcess, usize)>)
    requires
        forall|i: int, j: int| 0 <= i < j < rows.len() ==> rows[i].0.id != rows[j].0.id,
    ensures
        rows.len() <= 0x1_0000_0000,
{
    let s = rows.map_values(|r: (&MyProcess, usize)| r.0.id as int);
    assert forall|i: int, j: int| 0 <= i < s.len() && 0 <= j < s.len() && i != j implies s[i] != s[j] by {
        if i < j {
            assert(rows[i].0.id != rows[j].0.id);
        } else {
            assert(rows[j].0.id != rows[i].0.id);
        }
    }
    assert(s.no_duplicates());
    s.unique_seq_to_set();
    let range = set_int_range(i32::MIN as int, i32::MAX as int + 1);
    lemma_int_range(i32::MIN as int, i32::MAX as int + 1);
    assert forall|x: int| s.to_set().contains(x) implies range.contains(x) by {
        let i = choose|i: int| 0 <= i < s.len() && s[i] == x;
        assert(s[i] == rows[i].0.id as int);
    }
    lemma_len_subset(s.to_set(), range);
}

impl<'a> Dfs<'a> {
    /// Pops the top entry; shows it, and queues its children, unless its id
    /// is already shown.
    fn visit(&mut self, f: &ProcessForest<'a>)
        requires
            old(self).inv(f),
            old(self).stack@.len() > 0,
        ensures
            final(self).inv(f),
            final(self).rows@.len() > old(self).rows@.len() || (final(self).rows@.len()
                == old(self).rows@.len() && final(self).stack@.len() < old(self).stack@.len()),
    {
        let ghost rows0 = self.rows@;
        let ghost stack0 = self.stack@;
        let ghost ra0 = self.ra@;
        let ghost rp0 = self.rp@;
        let ghost sa0 = self.sa@;
        let ghost sp0 = self.sp@;
        let ghost n = stack0.len() - 1;
        let top = self.stack.pop();
        let (e, d) = match top {
            Some(t) => t,
            None => {
                return;
            },
        };
        assert(self.stack@ == stack0.drop_last());
        proof {
            self.sa = Ghost(sa0.drop_last());
            self.sp = Ghost(sp0.drop_last());
        }
        if shown(&self.rows, e.id) {
            proof {
                assert(stack0.last() == (e, d));
                lemma_skip(f, rows0, stack0, sa0, sp0);
            }
            return;
        }
        proof {
            assert(stack0.last() == (e, d));
            lemma_emit(f, rows0, ra0, rp0, stack0, sa0, sp0);
            assert(placed(f, rows0, rows0.len() as int, stack0[n].0, stack0[n].1, sa0[n], sp0[n]));
        }
        self.rows.push((e, d));
        proof {
            self.ra = Ghost(ra0.push(sa0.last()));
            self.rp = Ghost(rp0.push(sp0.last()));
            lemma_rows_bounded(self.rows@);
            assert(self.rows@[rows0.len() as int].0.id == e.id);
            assert(shows_id(self.rows@, e.id as int));
            assert(d <= rows0.len()) by {
                if d > 0 {
                    assert(rows0[sa0[n]].1 + 1 == d);
                    assert(placed(f, rows0, sa0[n], rows0[sa0[n]].0, rows0[sa0[n]].1, ra0[sa0[n]], rp0[sa0[n]]));
                    lemma_depth_bound(f, rows0, ra0, rp0, sa0[n]);
                }
            }
        }
        let ghost stack1 = self.stack@;
        proof {
            assert forall|k: int| 0 <= k < stack1.len() implies (#[trigger] stack1[k]).1 <= d by {
                assert(stack1[k] == stack0[k]);
            }
            assert forall|k: int| 0 <= k < stack1.len() implies #[trigger] self.sa@[k] != rows0.len() by {
                assert(stack1[k] == stack0[k]);
                assert(self.sa@[k] == sa0[k]);
                assert(placed(f, rows0, rows0.len() as int, stack0[k].0, stack0[k].1, sa0[k], sp0[k]));
            }
        }
        self.queue_children(f, e, d, Ghost(rows0.len() as int));
        proof {
            lemma_complete_after(f, rows0, stack0, self.rows@, self.stack@, e, d, stack1);
        }
    }

    #[verifier::rlimit(60)]
    fn queue_children(&mut self, f: &ProcessForest<'a>, e: &'a MyProcess, d: usize, base: Ghost<int>)
        requires
            f.wf(),
            old(self).rows@.len() == base@ + 1,
            old(self).rows@.last() == (e, d),
            d < old(self).rows@.len(),
            rows_ok(f, old(self).rows@, old(self).ra@, old(self).rp@),
            stack_ok(f, old(self).rows@, old(self).stack@, old(self).sa@, old(self).sp@),
            cross_ok(old(self).ra@, old(self).rp@, old(self).sa@, old(self).sp@),
            forall|k: int| 0 <= k < old(self).stack@.len() ==> (#[trigger] old(self).stack@[k]).1 <= d,
            forall|k: int| 0 <= k < old(self).stack@.len() ==> old(self).sa@[k] != base@,
        ensures
            final(self).rows@ == old(self).rows@,
            final(self).ra@ == old(self).ra@,
            final(self).rp@ == old(self).rp@,
            stack_ok(f, final(self).rows@, final(self).stack@, final(self).sa@, final(self).sp@),
            cross_ok(final(self).ra@, final(self).rp@, final(self).sa@, final(self).sp@),
            final(self).stack@.len() >= old(self).stack@.len(),
            final(self).stack@.subrange(0, old(self).stack@.len() as int) == old(self).stack@,
            forall|x: int| 0 <= x < f.children(e.id as int).len() ==> pending(final(self).rows@, final(self).stack@, #[trigger] f.children(e.id as int)[x].id as int),
    {
        let ghost stack1 = self.stack@;
        let ghost rows0len = base@;
        let ghost kids = f.children(e.id as int);
        // `d` is below the number of rows, itself a `usize`.
        let _rows_len = self.rows.len();
        assert(d + 1 <= usize::MAX);
        match find_bucket(&f.buckets, e.id) {
            Some(b) => {
                let ch = &f.buckets[b].children;
                proof {
                    lemma_children_at(f.buckets@, b as int);
                    assert(kids == crate::sort::deref_all(ch@));
                }
                let mut q: usize = ch.len();
                while q > 0
                    invariant
                        f.wf(),
                        q <= ch@.len(),
                        kids == crate::sort::deref_all(ch@),
                        kids == f.children(e.id as int),
                        self.rows@ == old(self).rows@,
                        self.ra@ == old(self).ra@,
                        self.rp@ == old(self).rp@,
                        self.rows@.len() == rows0len + 1,
                        self.rows@.last() == (e, d),
                        d < self.rows@.len(),
                        d + 1 <= usize::MAX,
                        rows_ok(f, self.rows@, self.ra@, self.rp@),
                        stack_ok(f, self.rows@, self.stack@, self.sa@, self.sp@),
                        cross_ok(self.ra@, self.rp@, self.sa@, self.sp@),
                        self.stack@.len() == stack1.len() + (ch@.len() - q),
                        self.stack@.subrange(0, stack1.len() as int) == stack1,
                        forall|k: int| 0 <= k < self.stack@.len() ==> (#[trigger] self.stack@[k]).1 <= d + 1,
                        forall|k: int| 0 <= k < self.stack@.len() && self.sa@[k] == rows0len ==> q <= self.sp@[k],
                        forall|x: int| q <= x < ch@.len() ==> #[trigger] self.stack@[stack1.len() + (ch@.len() - 1 - x)].0 == ch@[x],
                    decreases q,
                {
                    q = q - 1;
                    proof {
                        assert(kids[q as int] == *ch@[q as int]);
                        assert forall|k: int| 0 <= k < self.stack@.len() implies self.stack@[k].1 <= self.rows@.last().1 + 1 by {
                            assert(self.stack@[k].1 <= d + 1);
                        }
                        lemma_push_child(f, self.rows@, self.ra@, self.rp@, self.stack@, self.sa@, self.sp@, ch@[q as int], q as int);
                    }
                    let ghost before = self.stack@;
                    self.stack.push((ch[q], d + 1));
                    proof {
                        self.sa = Ghost(self.sa@.push(rows0len));
                        self.sp = Ghost(self.sp@.push(q as int));
                        assert(self.stack@.subrange(0, stack1.len() as int) =~= before.subrange(0, stack1.len() as int));
                        assert forall|x: int| q <= x < ch@.len() implies #[trigger] self.stack@[stack1.len() + (ch@.len() - 1 - x)].0 == ch@[x] by {
                            if x > q {
                                assert(self.stack@[stack1.len() + (ch@.len() - 1 - x)] == before[stack1.len() + (ch@.len() - 1 - x)]);
                            }
                        }
                    }
                }
                proof {
                    assert forall|x: int| 0 <= x < kids.len() implies pending(self.rows@, self.stack@, #[trigger] kids[x].id as int) by {
                        let k = stack1.len() + (ch@.len() - 1 - x);
                        assert(self.stack@[k].0 == ch@[x]);
                    }
                }
            },
            None => {
                assert(kids.len() == 0);
                assert(self.stack@.subrange(0, stack1.len() as int) =~= stack1);
            },
        }
    }
}

proof fn lemma_skip(
    f: &ProcessForest,
    rows0: Seq<(&MyProcess, usize)>,
    stack0: Seq<(&MyProcess, usize)>,
    sa0: Seq<int>,
    sp0: Seq<int>,
)
    requires
        stack0.len() > 0,
        stack_ok(f, rows0, stack0, sa0, sp0),
        complete_ok(f, rows0, stack0),
        shows_id(rows0, stack0.last().0.id as int),
    ensures
        stack_ok(f, rows0, stack0.drop_last(), sa0.drop_last(), sp0.drop_last()),
        complete_ok(f, rows0, stack0.drop_last()),
{
    let st = stack0.drop_last();
    assert forall|k: int| 0 <= k < st.len() implies placed(f, rows0, rows0.len() as int, (#[trigger] st[k]).0, st[k].1, sa0.drop_last()[k], sp0.drop_last()[k]) by {
        assert(st[k] == stack0[k]);
    }
    assert(rows0.subrange(0, rows0.len() as int) =~= rows0);
    assert(st.subrange(0, stack0.len() - 1) =~= stack0.drop_last());
    assert forall|p: int| 0 <= p < f.root_records().len() implies pending(rows0, st, #[trigger] f.root_records()[p].id as int) by {
        lemma_pending_kept(rows0, stack0, rows0, st, f.root_records()[p].id as int);
    }
    assert forall|i: int, q: int| 0 <= i < rows0.len() && 0 <= q < f.children(rows0[i].0.id as int).len()
        implies pending(rows0, st, #[trigger] f.children(rows0[i].0.id as int)[q].id as int) by {
        lemma_pending_kept(rows0, stack0, rows0, st, f.children(rows0[i].0.id as int)[q].id as int);
    }
}

proof fn lemma_complete_after(
    f: &ProcessForest,
    rows0: Seq<(&MyProcess, usize)>,
    stack0: Seq<(&MyProcess, usize)>,
    rows2: Seq<(&MyProcess, usize)>,
    st2: Seq<(&MyProcess, usize)>,
    e: &MyProcess,
    d: usize,
    stack1: Seq<(&MyProcess, usize)>,
)
    requires
        stack0.len() > 0,
        stack0.last() == (e, d),
        complete_ok(f, rows0, stack0),
        rows2 == rows0.push((e, d)),
        stack1 == stack0.drop_last(),
        st2.len() >= stack1.len(),
        st2.subrange(0, stack1.len() as int) == stack1,
        forall|x: int| 0 <= x < f.children(e.id as int).len() ==> pending(rows2, st2, #[trigger] f.children(e.id as int)[x].id as int),
    ensures
        complete_ok(f, rows2, st2),
{
    assert(rows2.subrange(0, rows0.len() as int) =~= rows0);
    assert(rows2[rows0.len() as int].0.id == e.id);
    assert(shows_id(rows2, stack0.last().0.id as int));
    assert forall|p: int| 0 <= p < f.root_records().len() implies pending(rows2, st2, #[trigger] f.root_records()[p].id as int) by {
        lemma_pending_kept(rows0, stack0, rows2, st2, f.root_records()[p].id as int);
    }
    assert forall|i: int, q: int| 0 <= i < rows2.len() && 0 <= q < f.children(rows2[i].0.id as int).len()
        implies pending(rows2, st2, #[trigger] f.children(rows2[i].0.id as int)[q].id as int) by {
        if i < rows0.len() {
            assert(rows2[i] == rows0[i]);
            lemma_pending_kept(rows0, stack0, rows2, st2, f.children(rows0[i].0.id as int)[q].id as int);
        } else {
            assert(rows2[i].0.id == e.id);
        }
    }
}

proof fn lemma_depth_bound(f: &ProcessForest, rows: Seq<(&MyProcess, usize)>, ra: Seq<int>, rp: Seq<int>, m: int)
    requires
        rows_ok(f, rows, ra, rp),
        0 <= m < rows.len(),
    ensures
        rows[m].1 <= m,
    decreases m,
{
    assert(placed(f, rows, m, rows[m].0, rows[m].1, ra[m], rp[m]));
    if ra[m] >= 0 {
        lemma_depth_bound(f, rows, ra, rp, ra[m]);
    }
}

/// Rows at one depth with nothing shallower between them hang under the
/// same anchor.
proof fn lemma_same_anchor(f: &ProcessForest, rows: Seq<(&MyProcess, usize)>, ra: Seq<int>, rp: Seq<int>, i: int, j: int)
    requires
        rows_ok(f, rows, ra, rp),
        0 <= i < j < rows.len(),
        rows[i].1 == rows[j].1,
        between_not_shallower(rows, i, j),
    ensures
        ra[i] == ra[j],
{
    assert(placed(f, rows, i, rows[i].0, rows[i].1, ra[i], rp[i]));
    assert(placed(f, rows, j, rows[j].0, rows[j].1, ra[j], rp[j]));
    if rows[i].1 > 0 {
        let a = ra[i];
        let b = ra[j];
        if b > i {
            assert(rows[b].1 >= rows[i].1);
        } else if b == i {
        } else if a < b {
            assert(rows[b].1 >= rows[i].1);
        } else if b < a {
            assert(rows[a].1 >= rows[j].1);
        }
    }
}

fn start<'a>(f: &ProcessForest<'a>) -> (st: Dfs<'a>)
    requires
        f.wf(),
    ensures
        st.inv(f),
{
    let mut stack: Vec<(&'a MyProcess, usize)> = Vec::new();
    let ghost mut sa: Seq<int> = Seq::empty();
    let ghost mut sp: Seq<int> = Seq::empty();
    let mut r: usize = f.roots.len();
    while r > 0
        invariant
            f.wf(),
            r <= f.roots@.len(),
            stack@.len() == f.roots@.len() - r,
            sa.len() == stack@.len(),
            sp.len() == stack@.len(),
            forall|k: int| 0 <= k < stack@.len() ==> sa[k] == -1 && (#[trigger] stack@[k]).1 == 0
                && sp[k] == f.roots@.len() - 1 - k && *stack@[k].0 == f.root_records()[sp[k]],
        decreases r,
    {
        r = r - 1;
        proof {
            assert(f.root_records()[r as int] == *f.roots@[r as int]);
        }
        let ghost s0 = stack@;
        let ghost sa0 = sa;
        let ghost sp0 = sp;
        stack.push((f.roots[r], 0));
        proof {
            sa = sa.push(-1);
            sp = sp.push(r as int);
            let k = s0.len() as int;
            assert(stack@[k] == (f.roots@[r as int], 0usize));
            assert(sa[k] == -1);
            assert(sp[k] == r as int);
            assert(sp[k] == f.roots@.len() - 1 - k);
            assert(*stack@[k].0 == f.root_records()[sp[k]]);
            assert forall|j: int| 0 <= j < s0.len() implies stack@[j] == s0[j] && sa[j] == sa0[j] && sp[j] == sp0[j] by {}
        }
    }
    let ghost stk = stack@;
    let st = Dfs { rows: Vec::new(), stack, ra: Ghost(Seq::empty()), rp: Ghost(Seq::empty()), sa: Ghost(sa), sp: Ghost(sp) };
    proof {
        assert forall|p: int| 0 <= p < f.root_records().len() implies pending(st.rows@, st.stack@, #[trigger] f.root_records()[p].id as int) by {
            let k = f.roots@.len() - 1 - p;
            assert(st.stack@[k].0.id == f.root_records()[p].id);
        }
        assert forall|k: int| 0 <= k < st.stack@.len() implies placed(f, st.rows@, st.rows@.len() as int, (#[trigger] st.stack@[k]).0, st.stack@[k].1, st.sa@[k], st.sp@[k]) by {
            assert(stk[k] == st.stack@[k]);
            assert(sp[k] == f.roots@.len() - 1 - k);
        }
        assert forall|k: int, k2: int| 0 <= k < k2 < st.stack@.len() implies st.stack@[k].1 <= st.stack@[k2].1 by {
            assert(st.stack@[k].1 == 0);
            assert(st.stack@[k2].1 == 0);
        }
        assert forall|k: int, k2: int| 0 <= k < k2 < st.stack@.len() && st.sa@[k] == st.sa@[k2] implies st.sp@[k2] < st.sp@[k] by {
            assert(st.stack@[k].1 == 0);
            assert(st.stack@[k2].1 == 0);
        }
    }
    st
}

proof fn lemma_finish_complete(
    f: &ProcessForest,
    rows: Seq<(&MyProcess, usize)>,
    stack: Seq<(&MyProcess, usize)>,
)
    requires
        complete_ok(f, rows, stack),
        stack.len() == 0,
    ensures
        covers(f, rows),
{
    assert forall|p: int| 0 <= p < f.root_records().len() implies shows_id(rows, #[trigger] f.root_records()[p].id as int) by {
        assert(pending(rows, stack, f.root_records()[p].id as int));
    }
    assert forall|i: int, q: int| 0 <= i < rows.len() && 0 <= q < f.children(rows[i].0.id as int).len()
        implies shows_id(rows, #[trigger] f.children(rows[i].0.id as int)[q].id as int) by {
        assert(pending(rows, stack, f.children(rows[i].0.id as int)[q].id as int));
    }
}

proof fn lemma_finish_parents(f: &ProcessForest, rows: Seq<(&MyProcess, usize)>, ra: Seq<int>, rp: Seq<int>)
    requires
        rows_ok(f, rows, ra, rp),
    ensures
        parented(f, rows),
{
    assert forall|i: int| 0 <= i < rows.len() && (#[trigger] rows[i]).1 == 0 implies f.root_records().contains(*rows[i].0) by {
        assert(placed(f, rows, i, rows[i].0, rows[i].1, ra[i], rp[i]));
    }
    assert forall|i: int| 0 <= i < rows.len() && (#[trigger] rows[i]).1 > 0 implies exists|a: int|
        0 <= a < i && rows[a].1 + 1 == rows[i].1
            && f.children(rows[a].0.id as int).contains(*rows[i].0)
            && forall|x: int| a < x < i ==> (#[trigger] rows[x]).1 >= rows[i].1 by {
        assert(placed(f, rows, i, rows[i].0, rows[i].1, ra[i], rp[i]));
        let a = ra[i];
        assert(f.children(rows[a].0.id as int)[rp[i]] == *rows[i].0);
    }
}

proof fn lemma_finish_siblings(f: &ProcessForest, rows: Seq<(&MyProcess, usize)>, ra: Seq<int>, rp: Seq<int>)
    requires
        rows_ok(f, rows, ra, rp),
    ensures
        siblings_in_order(f, rows),
{
    reveal(siblings_in_order);
    assert forall|i: int, j: int| 0 <= i < j < rows.len() && rows[i].1 == rows[j].1 && between_not_shallower(rows, i, j) implies exists|a: int, p: int, q: int|
        -1 <= a < i && 0 <= p < q < list_at(f, rows, a).len()
            && (a == -1 <==> rows[i].1 == 0)
            && list_at(f, rows, a)[p] == *rows[i].0
            && list_at(f, rows, a)[q] == *rows[j].0 by {
        lemma_same_anchor(f, rows, ra, rp, i, j);
        assert(placed(f, rows, i, rows[i].0, rows[i].1, ra[i], rp[i]));
        assert(placed(f, rows, j, rows[j].0, rows[j].1, ra[j], rp[j]));
        assert(rp[i] < rp[j]);
    }
}

#[verifier::rlimit(60)]
fn finish<'a>(f: &ProcessForest<'a>, st: Dfs<'a>) -> (rows: Vec<(&'a MyProcess, usize)>)
    requires
        rows_ok(f, st.rows@, st.ra@, st.rp@),
        complete_ok(f, st.rows@, st.stack@),
        st.stack@.len() == 0,
    ensures
        flat_ok(f, rows@),
{
    let rows = st.rows;
    proof {
        reveal(flat_ok);
        lemma_finish_complete(f, rows@, st.stack@);
        lemma_finish_parents(f, rows@, st.ra@, st.rp@);
        lemma_finish_siblings(f, rows@, st.ra@, st.rp@);
    }
    rows
}

/// No two rows show the same id.
pub open spec fn ids_distinct(rows: Seq<(&MyProcess, usize)>) -> bool {
    forall|i: int, j: int| 0 <= i < j < rows.len() ==> rows[i].0.id != rows[j].0.id
}

/// Every root, and every child of a shown record, is shown.
pub open spec fn covers(f: &ProcessForest, rows: Seq<(&MyProcess, usize)>) -> bool {
    &&& forall|p: int| 0 <= p < f.root_records().len() ==> shows_id(rows, #[trigger] f.root_records()[p].id as int)
    &&& forall|i: int, q: int| 0 <= i < rows.len() && 0 <= q < f.children(rows[i].0.id as int).len()
        ==> shows_id(rows, #[trigger] f.children(rows[i].0.id as int)[q].id as int)
}

/// Depth-`0` rows are roots; every deeper row comes after a row of its
/// parent, one level up, with nothing at the parent's depth or above between.
pub open spec fn parented(f: &ProcessForest, rows: Seq<(&MyProcess, usize)>) -> bool {
    &&& forall|i: int| 0 <= i < rows.len() && (#[trigger] rows[i]).1 == 0 ==> f.root_records().contains(*rows[i].0)
    &&& forall|i: int| 0 <= i < rows.len() && (#[trigger] rows[i]).1 > 0 ==> exists|a: int|
        0 <= a < i && rows[a].1 + 1 == rows[i].1
            && f.children(rows[a].0.id as int).contains(*rows[i].0)
            && forall|x: int| a < x < i ==> (#[trigger] rows[x]).1 >= rows[i].1
}

/// Siblings (same depth, nothing shallower between) keep the order of the
/// list they come from.
#[verifier::opaque]
pub open spec fn siblings_in_order(f: &ProcessForest, rows: Seq<(&MyProcess, usize)>) -> bool {
    forall|i: int, j: int| 0 <= i < j < rows.len() && rows[i].1 == rows[j].1 && between_not_shallower(rows, i, j) ==> exists|a: int, p: int, q: int|
        -1 <= a < i && 0 <= p < q < list_at(f, rows, a).len()
            && (a == -1 <==> rows[i].1 == 0)
            && list_at(f, rows, a)[p] == *rows[i].0
            && list_at(f, rows, a)[q] == *rows[j].0
}

/// What the flattened rows of a forest satisfy.
#[verifier::opaque]
pub open spec fn flat_ok(f: &ProcessForest, rows: Seq<(&MyProcess, usize)>) -> bool {
    &&& ids_distinct(rows)
    &&& covers(f, rows)
    &&& parented(f, rows)
    &&& siblings_in_order(f, rows)
}

/// Depth-first, pre-order flattening of the forest with an explicit stack:
/// every root at depth `0`, each record directly before its subtree, the
/// children one level deeper, siblings in the order of their list. A record
/// whose id was already shown is not shown again.
#[verifier::rlimit(60)]
pub fn flatten<'a>(f: &ProcessForest<'a>) -> (rows: Vec<(&'a MyProcess, usize)>)
    requires
        f.wf(),
    ensures
        flat_ok(f, rows@),
{
    let mut st = start(f);
    while st.stack.len() > 0
        invariant
            st.inv(f),
        decreases 0x1_0000_0000 - st.rows@.len(), st.stack@.len(),
    {
        proof {
            lemma_rows_bounded(st.rows@);
        }
        st.visit(f);
        proof {
            lemma_rows_bounded(st.rows@);
        }
    }
    finish(f, st)
}

pub proof fn lemma_flat_parts(f: &ProcessForest, rows: Seq<(&MyProcess, usize)>)
    requires
        flat_ok(f, rows),
    ensures
        ids_distinct(rows),
        covers(f, rows),
        parented(f, rows),
        siblings_in_order(f, rows),
{
    reveal(flat_ok);
}

} // verus!
