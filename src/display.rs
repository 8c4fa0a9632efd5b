use vstd::prelude::*;

use crate::filter::lineage;
use crate::flatten::{between_not_shallower, covers, flat_ok, flatten, ids_distinct, lemma_flat_parts, list_at, parented, shows_id, siblings_in_order};
use crate::process::{Column, MyProcess, SortOrder};
use crate::prune::{lemma_select_push, prune_forest, select, select_one};
use crate::search::{parse_query, parse_search_query, Search};
use crate::sort::{deref_all, insert_sorted, sorted_ascending, sorted_by, SortMyProcesses};
use crate::tree::{
    children_of, has_bucket, keys_unique, lemma_children_at, to_root_parents_and_children, with_parent,
    ChildBucket, ProcessForest,
};

verus! {

/// No two records of the snapshot share an id.
pub open spec fn ids_unique(procs: Seq<MyProcess>) -> bool {
    forall|i: int, j: int| 0 <= i < j < procs.len() ==> procs[i].id != procs[j].id
}

/// The roots that remain after filtering, in display order.
#[verifier::opaque]
pub open spec fn visible_roots(
    procs: Seq<MyProcess>,
    col: Column,
    ord: SortOrder,
    preds: Seq<(Seq<char>, Seq<char>)>,
) -> Seq<MyProcess> {
    sorted_by(col, ord, select(with_parent(procs, 0), procs, preds))
}

/// The children of `id` that remain after filtering, in display order.
#[verifier::opaque]
pub open spec fn visible_children(
    procs: Seq<MyProcess>,
    col: Column,
    ord: SortOrder,
    preds: Seq<(Seq<char>, Seq<char>)>,
    id: int,
) -> Seq<MyProcess> {
    if id == 0 {
        Seq::empty()
    } else {
        sorted_by(col, ord, select(with_parent(procs, id), procs, preds))
    }
}

/// The display list at an anchor: the visible roots for `-1`, else the
/// visible children of the record in that row.
pub open spec fn visible_at(
    procs: Seq<MyProcess>,
    col: Column,
    ord: SortOrder,
    preds: Seq<(Seq<char>, Seq<char>)>,
    rows: Seq<(MyProcess, usize)>,
    a: int,
) -> Seq<MyProcess> {
    if a < 0 {
        visible_roots(procs, col, ord, preds)
    } else {
        visible_children(procs, col, ord, preds, rows[a].0.id as int)
    }
}

/// Rows `i < j` are at one depth with nothing shallower between them.
pub open spec fn sibling_rows(rows: Seq<(MyProcess, usize)>, i: int, j: int) -> bool {
    &&& 0 <= i < j < rows.len()
    &&& rows[i].1 == rows[j].1
    &&& forall|m: int| i < m < j ==> (#[trigger] rows[m]).1 >= rows[i].1
}

/// Rows `i` and `j` come from one display list, `i`'s entry first.
pub open spec fn ordered_siblings(
    procs: Seq<MyProcess>,
    col: Column,
    ord: SortOrder,
    preds: Seq<(Seq<char>, Seq<char>)>,
    rows: Seq<(MyProcess, usize)>,
    i: int,
    j: int,
) -> bool {
    exists|a: int, p: int, q: int|
        -1 <= a < i && 0 <= p < q < visible_at(procs, col, ord, preds, rows, a).len()
            && (a == -1 <==> rows[i].1 == 0)
            && visible_at(procs, col, ord, preds, rows, a)[p] == rows[i].0
            && visible_at(procs, col, ord, preds, rows, a)[q] == rows[j].0
}

pub open spec fn row_shows(rows: Seq<(MyProcess, usize)>, id: int) -> bool {
    exists|m: int| 0 <= m < rows.len() && (#[trigger] rows[m]).0.id == id
}

/// No two rows show the same id.
#[verifier::opaque]
pub open spec fn display_distinct(rows: Seq<(MyProcess, usize)>) -> bool {
    forall|i: int, j: int| 0 <= i < j < rows.len() ==> rows[i].0.id != rows[j].0.id
}

/// Every visible root, and every visible child of a shown record, is shown.
#[verifier::opaque]
pub open spec fn display_covers(
    procs: Seq<MyProcess>,
    col: Column,
    ord: SortOrder,
    preds: Seq<(Seq<char>, Seq<char>)>,
    rows: Seq<(MyProcess, usize)>,
) -> bool {
    &&& forall|p: int| 0 <= p < visible_roots(procs, col, ord, preds).len()
        ==> row_shows(rows, #[trigger] visible_roots(procs, col, ord, preds)[p].id as int)
    &&& forall|i: int, q: int| 0 <= i < rows.len() && 0 <= q < visible_children(procs, col, ord, preds, rows[i].0.id as int).len()
        ==> row_shows(rows, #[trigger] visible_children(procs, col, ord, preds, rows[i].0.id as int)[q].id as int)
}

/// Depth `0` for visible roots; each deeper row after a row of its parent,
/// one level up, with nothing at the parent's depth or above between.
#[verifier::opaque]
pub open spec fn display_parented(
    procs: Seq<MyProcess>,
    col: Column,
    ord: SortOrder,
    preds: Seq<(Seq<char>, Seq<char>)>,
    rows: Seq<(MyProcess, usize)>,
) -> bool {
    &&& forall|i: int| 0 <= i < rows.len() && (#[trigger] rows[i]).1 == 0
        ==> visible_roots(procs, col, ord, preds).contains(rows[i].0)
    &&& forall|i: int| 0 <= i < rows.len() && (#[trigger] rows[i]).1 > 0 ==> exists|a: int|
        0 <= a < i && rows[a].1 + 1 == rows[i].1
            && visible_children(procs, col, ord, preds, rows[a].0.id as int).contains(rows[i].0)
            && forall|x: int| a < x < i ==> (#[trigger] rows[x]).1 >= rows[i].1
}

/// Siblings appear in the order of their display list.
#[verifier::opaque]
pub open spec fn display_siblings(
    procs: Seq<MyProcess>,
    col: Column,
    ord: SortOrder,
    preds: Seq<(Seq<char>, Seq<char>)>,
    rows: Seq<(MyProcess, usize)>,
) -> bool {
    forall|i: int, j: int| #[trigger] sibling_rows(rows, i, j) ==> ordered_siblings(procs, col, ord, preds, rows, i, j)
}

/// The display rows of a snapshot, filtered by `preds`, sorted on `col` in
/// direction `ord`.
pub open spec fn display_ok(
    procs: Seq<MyProcess>,
    col: Column,
    ord: SortOrder,
    preds: Seq<(Seq<char>, Seq<char>)>,
    rows: Seq<(MyProcess, usize)>,
) -> bool {
    &&& display_distinct(rows)
    &&& display_covers(procs, col, ord, preds, rows)
    &&& display_parented(procs, col, ord, preds, rows)
    &&& display_siblings(procs, col, ord, preds, rows)
}

proof fn lemma_with_parent_in(s: Seq<MyProcess>, id: int, x: MyProcess)
    requires
        with_parent(s, id).contains(x),
    ensures
        s.contains(x),
    decreases s.len(),
{
    if s.len() > 0 {
        let prev = with_parent(s.drop_last(), id);
        if s.last().parent_id == id {
            if x != s.last() {
                let k = choose|k: int| 0 <= k < prev.push(s.last()).len() && prev.push(s.last())[k] == x;
                assert(prev[k] == x);
            }
        }
        if x != s.last() {
            lemma_with_parent_in(s.drop_last(), id, x);
            let k = choose|k: int| 0 <= k < s.drop_last().len() && s.drop_last()[k] == x;
            assert(s[k] == x);
        } else {
            assert(s[s.len() - 1] == x);
        }
    }
}

proof fn lemma_select_in(s: Seq<MyProcess>, procs: Seq<MyProcess>, preds: Seq<(Seq<char>, Seq<char>)>, x: MyProcess)
    requires
        select(s, procs, preds).contains(x),
    ensures
        s.contains(x),
    decreases s.len(),
{
    if s.len() > 0 {
        let prev = select(s.drop_last(), procs, preds);
        if x != s.last() {
            if crate::prune::retained_all(procs, preds, s.last()) {
                let k = choose|k: int| 0 <= k < prev.push(s.last()).len() && prev.push(s.last())[k] == x;
                assert(prev[k] == x);
            }
            lemma_select_in(s.drop_last(), procs, preds, x);
            let k = choose|k: int| 0 <= k < s.drop_last().len() && s.drop_last()[k] == x;
            assert(s[k] == x);
        } else {
            assert(s[s.len() - 1] == x);
        }
    }
}

proof fn lemma_insert_in(col: Column, s: Seq<MyProcess>, y: MyProcess, x: MyProcess)
    requires
        insert_sorted(col, s, y).contains(x),
    ensures
        s.contains(x) || x == y,
    decreases s.len(),
{
    let r = insert_sorted(col, s, y);
    let k = choose|k: int| 0 <= k < r.len() && r[k] == x;
    if s.len() == 0 || crate::sort::key_le(col, s.last(), y) {
        if k < s.len() {
            assert(s[k] == x);
        }
    } else {
        let prev = insert_sorted(col, s.drop_last(), y);
        if k < prev.len() {
            assert(prev[k] == x);
            lemma_insert_in(col, s.drop_last(), y, x);
            if s.drop_last().contains(x) {
                let j = choose|j: int| 0 <= j < s.drop_last().len() && s.drop_last()[j] == x;
                assert(s[j] == x);
            }
        } else {
            assert(s[s.len() - 1] == x);
        }
    }
}

proof fn lemma_sorted_in(col: Column, s: Seq<MyProcess>, x: MyProcess)
    requires
        sorted_ascending(col, s).contains(x),
    ensures
        s.contains(x),
    decreases s.len(),
{
    if s.len() > 0 {
        lemma_insert_in(col, sorted_ascending(col, s.drop_last()), s.last(), x);
        if x != s.last() {
            lemma_sorted_in(col, s.drop_last(), x);
            let j = choose|j: int| 0 <= j < s.drop_last().len() && s.drop_last()[j] == x;
            assert(s[j] == x);
        } else {
            assert(s[s.len() - 1] == x);
        }
    }
}

proof fn lemma_visible_in(
    procs: Seq<MyProcess>,
    col: Column,
    ord: SortOrder,
    preds: Seq<(Seq<char>, Seq<char>)>,
    id: int,
    x: MyProcess,
)
    requires
        sorted_by(col, ord, select(with_parent(procs, id), procs, preds)).contains(x),
    ensures
        procs.contains(x),
{
    let sel = select(with_parent(procs, id), procs, preds);
    if ord == SortOrder::Descending {
        let r = sorted_ascending(col, sel);
        let k = choose|k: int| 0 <= k < r.reverse().len() && r.reverse()[k] == x;
        assert(r[r.len() - 1 - k] == x);
        assert(r.contains(x));
    }
    lemma_sorted_in(col, sel, x);
    lemma_select_in(with_parent(procs, id), procs, preds, x);
    lemma_with_parent_in(procs, id, x);
}

/// Sorts the roots and every bucket of the forest.
fn sort_forest<'a>(f: ProcessForest<'a>, col: Column, ord: SortOrder) -> (r: ProcessForest<'a>)
    requires
        f.wf(),
    ensures
        r.wf(),
        r.root_records() == sorted_by(col, ord, f.root_records()),
        forall|id: int| has_bucket(f.buckets@, id) ==> #[trigger] r.children(id) == sorted_by(col, ord, f.children(id)),
        forall|id: int| !has_bucket(f.buckets@, id) ==> #[trigger] r.children(id) == Seq::<MyProcess>::empty(),
{
    let mut roots = f.roots;
    SortMyProcesses::sort(&mut roots, &col, &ord);
    let mut buckets: Vec<ChildBucket<'a>> = Vec::new();
    let mut old_buckets = f.buckets;
    let ghost ob = old_buckets@;
    let mut i: usize = 0;
    while i < old_buckets.len()
        invariant
            keys_unique(ob),
            old_buckets@.len() == ob.len(),
            forall|j: int| i <= j < ob.len() ==> old_buckets@[j] == ob[j],
            i <= ob.len(),
            buckets@.len() == i,
            forall|j: int| 0 <= j < i ==> (#[trigger] buckets@[j]).parent_id == ob[j].parent_id
                && deref_all(buckets@[j].children@) == sorted_by(col, ord, deref_all(ob[j].children@)),
        decreases ob.len() - i,
    {
        let b = old_buckets.remove(i);
        old_buckets.insert(i, ChildBucket { parent_id: b.parent_id, children: Vec::new() });
        let mut ch = b.children;
        SortMyProcesses::sort(&mut ch, &col, &ord);
        buckets.push(ChildBucket { parent_id: b.parent_id, children: ch });
        proof {
            assert forall|j: int| i < j < ob.len() implies old_buckets@[j] == ob[j] by {}
        }
        i = i + 1;
    }
    let r = ProcessForest { roots, buckets };
    proof {
        assert(keys_unique(buckets@));
        assert forall|id: int| has_bucket(f.buckets@, id) implies #[trigger] r.children(id) == sorted_by(col, ord, f.children(id)) by {
            let k = choose|k: int| 0 <= k < ob.len() && ob[k].parent_id == id;
            lemma_children_at(ob, k);
            lemma_children_at(buckets@, k);
        }
        assert forall|id: int| !has_bucket(f.buckets@, id) implies #[trigger] r.children(id) == Seq::<MyProcess>::empty() by {
            if has_bucket(buckets@, id) {
                let k = choose|k: int| 0 <= k < buckets@.len() && buckets@[k].parent_id == id;
                assert(ob[k].parent_id == id);
            }
        }
    }
    r
}

#[verifier::opaque]
pub open spec fn forest_shows(
    f: &ProcessForest,
    procs: Seq<MyProcess>,
    col: Column,
    ord: SortOrder,
    preds: Seq<(Seq<char>, Seq<char>)>,
) -> bool {
    &&& f.root_records() == visible_roots(procs, col, ord, preds)
    &&& forall|id: int| #[trigger] f.children(id) == visible_children(procs, col, ord, preds, id)
}

#[verifier::opaque]
pub open spec fn owned_rows(rows: Seq<(&MyProcess, usize)>, out: Seq<(MyProcess, usize)>) -> bool {
    &&& out.len() == rows.len()
    &&& forall|i: int| 0 <= i < rows.len() ==> #[trigger] out[i] == (*rows[i].0, rows[i].1)
}

proof fn lemma_bridge_cover(
    f: &ProcessForest,
    procs: Seq<MyProcess>,
    col: Column,
    ord: SortOrder,
    preds: Seq<(Seq<char>, Seq<char>)>,
    rows: Seq<(&MyProcess, usize)>,
    out: Seq<(MyProcess, usize)>,
)
    requires
        forest_shows(f, procs, col, ord, preds),
        ids_distinct(rows),
        covers(f, rows),
        owned_rows(rows, out),
    ensures
        display_distinct(out),
        display_covers(procs, col, ord, preds, out),
{
    reveal(display_distinct);
    reveal(display_covers);
    reveal(forest_shows);
    reveal(owned_rows);
    assert forall|i: int, j: int| 0 <= i < j < out.len() implies out[i].0.id != out[j].0.id by {
        assert(out[i] == (*rows[i].0, rows[i].1));
        assert(out[j] == (*rows[j].0, rows[j].1));
    }
    assert forall|id: int| shows_id(rows, id) implies row_shows(out, id) by {
        let m = choose|m: int| 0 <= m < rows.len() && (#[trigger] rows[m]).0.id == id;
        assert(out[m] == (*rows[m].0, rows[m].1));
    }
    assert forall|p: int| 0 <= p < visible_roots(procs, col, ord, preds).len()
        implies row_shows(out, #[trigger] visible_roots(procs, col, ord, preds)[p].id as int) by {
        assert(shows_id(rows, f.root_records()[p].id as int));
    }
    assert forall|i: int, q: int| 0 <= i < out.len() && 0 <= q < visible_children(procs, col, ord, preds, out[i].0.id as int).len()
        implies row_shows(out, #[trigger] visible_children(procs, col, ord, preds, out[i].0.id as int)[q].id as int) by {
        assert(out[i] == (*rows[i].0, rows[i].1));
        assert(f.children(rows[i].0.id as int) == visible_children(procs, col, ord, preds, out[i].0.id as int));
        assert(shows_id(rows, f.children(rows[i].0.id as int)[q].id as int));
    }
}

proof fn lemma_bridge_parents(
    f: &ProcessForest,
    procs: Seq<MyProcess>,
    col: Column,
    ord: SortOrder,
    preds: Seq<(Seq<char>, Seq<char>)>,
    rows: Seq<(&MyProcess, usize)>,
    out: Seq<(MyProcess, usize)>,
)
    requires
        forest_shows(f, procs, col, ord, preds),
        parented(f, rows),
        owned_rows(rows, out),
    ensures
        display_parented(procs, col, ord, preds, out),
{
    reveal(display_parented);
    reveal(forest_shows);
    reveal(owned_rows);
    assert forall|i: int| 0 <= i < out.len() && (#[trigger] out[i]).1 == 0
        implies visible_roots(procs, col, ord, preds).contains(out[i].0) by {
        assert(out[i] == (*rows[i].0, rows[i].1));
        assert(rows[i].1 == 0);
    }
    assert forall|i: int| 0 <= i < out.len() && (#[trigger] out[i]).1 > 0 implies exists|a: int|
        0 <= a < i && out[a].1 + 1 == out[i].1
            && visible_children(procs, col, ord, preds, out[a].0.id as int).contains(out[i].0)
            && forall|x: int| a < x < i ==> (#[trigger] out[x]).1 >= out[i].1 by {
        assert(out[i] == (*rows[i].0, rows[i].1));
        assert(rows[i].1 > 0);
        let a = choose|a: int|
            0 <= a < i && rows[a].1 + 1 == rows[i].1
                && f.children(rows[a].0.id as int).contains(*rows[i].0)
                && forall|x: int| a < x < i ==> (#[trigger] rows[x]).1 >= rows[i].1;
        assert(out[a] == (*rows[a].0, rows[a].1));
        assert(f.children(rows[a].0.id as int) == visible_children(procs, col, ord, preds, out[a].0.id as int));
        assert forall|x: int| a < x < i implies (#[trigger] out[x]).1 >= out[i].1 by {
            assert(out[x] == (*rows[x].0, rows[x].1));
            assert(rows[x].1 >= rows[i].1);
        }
    }
}

proof fn lemma_bridge_pair(
    f: &ProcessForest,
    procs: Seq<MyProcess>,
    col: Column,
    ord: SortOrder,
    preds: Seq<(Seq<char>, Seq<char>)>,
    rows: Seq<(&MyProcess, usize)>,
    out: Seq<(MyProcess, usize)>,
    i: int,
    j: int,
)
    requires
        forest_shows(f, procs, col, ord, preds),
        siblings_in_order(f, rows),
        owned_rows(rows, out),
        sibling_rows(out, i, j),
    ensures
        ordered_siblings(procs, col, ord, preds, out, i, j),
{
    reveal(forest_shows);
    reveal(owned_rows);
    reveal(siblings_in_order);
    assert(out[i] == (*rows[i].0, rows[i].1));
    assert(out[j] == (*rows[j].0, rows[j].1));
    assert forall|m: int| i < m < j implies (#[trigger] rows[m]).1 >= rows[i].1 by {
        assert(out[m] == (*rows[m].0, rows[m].1));
    }
    assert(between_not_shallower(rows, i, j));
    let (a, p, q) = choose|a: int, p: int, q: int|
        -1 <= a < i && 0 <= p < q < list_at(f, rows, a).len()
            && (a == -1 <==> rows[i].1 == 0)
            && list_at(f, rows, a)[p] == *rows[i].0
            && list_at(f, rows, a)[q] == *rows[j].0;
    if a >= 0 {
        assert(out[a] == (*rows[a].0, rows[a].1));
        assert(f.children(rows[a].0.id as int) == visible_children(procs, col, ord, preds, out[a].0.id as int));
    }
    assert(list_at(f, rows, a) == visible_at(procs, col, ord, preds, out, a));
}

proof fn lemma_bridge_siblings(
    f: &ProcessForest,
    procs: Seq<MyProcess>,
    col: Column,
    ord: SortOrder,
    preds: Seq<(Seq<char>, Seq<char>)>,
    rows: Seq<(&MyProcess, usize)>,
    out: Seq<(MyProcess, usize)>,
)
    requires
        forest_shows(f, procs, col, ord, preds),
        siblings_in_order(f, rows),
        owned_rows(rows, out),
    ensures
        display_siblings(procs, col, ord, preds, out),
{
    reveal(display_siblings);
    assert forall|i: int, j: int| #[trigger] sibling_rows(out, i, j) implies ordered_siblings(procs, col, ord, preds, out, i, j) by {
        lemma_bridge_pair(f, procs, col, ord, preds, rows, out, i, j);
    }
}

/// The rows with each reference replaced by the record it points at.
pub open spec fn owned_view(rows: Seq<(&MyProcess, usize)>) -> Seq<(MyProcess, usize)> {
    rows.map_values(|r: (&MyProcess, usize)| (*r.0, r.1))
}

/// With no predicate every record is kept: filtering by an empty list
/// changes nothing.
pub proof fn lemma_select_none(s: Seq<MyProcess>, procs: Seq<MyProcess>)
    ensures
        select(s, procs, Seq::empty()) == s,
    decreases s.len(),
{
    if s.len() > 0 {
        lemma_select_none(s.drop_last(), procs);
        assert(s.drop_last().push(s.last()) =~= s);
    }
}

proof fn lemma_sorted_empty(col: Column, ord: SortOrder)
    ensures
        sorted_by(col, ord, Seq::<MyProcess>::empty()) == Seq::<MyProcess>::empty(),
{
    assert(sorted_ascending(col, Seq::<MyProcess>::empty()).reverse() =~= Seq::<MyProcess>::empty());
}

fn filtered_forest<'a>(processes: &'a Vec<MyProcess>, searches: &Vec<Search>) -> (f: ProcessForest<'a>)
    requires
        forall|k: int| 0 <= k < processes@.len() ==> (#[trigger] processes@[k]).wf(),
    ensures
        f.wf(),
        f.root_records() == select(with_parent(processes@, 0), processes@, searches@.map_values(|s: Search| s.pair())),
        forall|id: int| id != 0 ==> #[trigger] f.children(id) == select(with_parent(processes@, id), processes@, searches@.map_values(|s: Search| s.pair())),
        f.children(0) == Seq::<MyProcess>::empty(),
{
    let ghost procs = processes@;
    let ghost preds = searches@.map_values(|s: Search| s.pair());
    let mut forest = to_root_parents_and_children(processes);
    proof {
        lemma_select_none(with_parent(procs, 0), procs);
        assert(preds.take(0) =~= Seq::<(Seq<char>, Seq<char>)>::empty());
        assert forall|id: int| id != 0 implies #[trigger] forest.children(id) == select(with_parent(procs, id), procs, preds.take(0)) by {
            lemma_select_none(with_parent(procs, id), procs);
        }
        assert(!has_bucket(forest.buckets@, 0));
    }
    let mut j: usize = 0;
    while j < searches.len()
        invariant
            procs == processes@,
            preds == searches@.map_values(|s: Search| s.pair()),
            forall|k: int| 0 <= k < processes@.len() ==> (#[trigger] processes@[k]).wf(),
            j <= searches@.len(),
            forest.wf(),
            forest.root_records() == select(with_parent(procs, 0), procs, preds.take(j as int)),
            forall|id: int| id != 0 ==> #[trigger] forest.children(id) == select(with_parent(procs, id), procs, preds.take(j as int)),
            forest.children(0) == Seq::<MyProcess>::empty(),
        decreases searches@.len() - j,
    {
        let column = searches[j].column;
        let value = searches[j].value;
        let keep = lineage(processes, column, value);
        let ghost old_forest_roots = forest.root_records();
        forest = prune_forest(forest, processes, &keep, Ghost(column@), Ghost(value@));
        proof {
            let pj = preds[j as int];
            assert(pj == (column@, value@));
            assert(preds.take(j + 1) =~= preds.take(j as int).push(pj));
            lemma_select_push(with_parent(procs, 0), procs, preds.take(j as int), pj);
            assert forall|id: int| id != 0 implies #[trigger] forest.children(id) == select(with_parent(procs, id), procs, preds.take(j + 1)) by {
                lemma_select_push(with_parent(procs, id), procs, preds.take(j as int), pj);
            }
            assert(select_one(Seq::<MyProcess>::empty(), procs, column@, value@) =~= Seq::<MyProcess>::empty());
        }
        j = j + 1;
    }
    proof {
        assert(preds.take(searches@.len() as int) =~= preds);
    }
    forest
}

proof fn lemma_forest_shows(
    filtered: &ProcessForest,
    forest: &ProcessForest,
    procs: Seq<MyProcess>,
    col: Column,
    ord: SortOrder,
    preds: Seq<(Seq<char>, Seq<char>)>,
)
    requires
        filtered.root_records() == select(with_parent(procs, 0), procs, preds),
        forall|id: int| id != 0 ==> #[trigger] filtered.children(id) == select(with_parent(procs, id), procs, preds),
        filtered.children(0) == Seq::<MyProcess>::empty(),
        forest.root_records() == sorted_by(col, ord, filtered.root_records()),
        forall|id: int| has_bucket(filtered.buckets@, id) ==> #[trigger] forest.children(id) == sorted_by(col, ord, filtered.children(id)),
        forall|id: int| !has_bucket(filtered.buckets@, id) ==> #[trigger] forest.children(id) == Seq::<MyProcess>::empty(),
    ensures
        forest_shows(forest, procs, col, ord, preds),
{
    reveal(forest_shows);
    reveal(visible_roots);
    reveal(visible_children);
    lemma_sorted_empty(col, ord);
    assert forall|id: int| #[trigger] forest.children(id) == visible_children(procs, col, ord, preds, id) by {
        if id != 0 {
            assert(filtered.children(id) == select(with_parent(procs, id), procs, preds));
        }
        if !has_bucket(filtered.buckets@, id) {
            assert(filtered.children(id) == Seq::<MyProcess>::empty());
        }
    }
}

proof fn lemma_display_ok(
    forest: &ProcessForest,
    procs: Seq<MyProcess>,
    col: Column,
    ord: SortOrder,
    preds: Seq<(Seq<char>, Seq<char>)>,
    rows: Seq<(&MyProcess, usize)>,
)
    requires
        forest_shows(forest, procs, col, ord, preds),
        flat_ok(forest, rows),
    ensures
        display_ok(procs, col, ord, preds, owned_view(rows)),
{
    lemma_flat_parts(forest, rows);
    let out = owned_view(rows);
    reveal(owned_rows);
    assert(owned_rows(rows, out));
    lemma_bridge_cover(forest, procs, col, ord, preds, rows, out);
    lemma_bridge_parents(forest, procs, col, ord, preds, rows, out);
    lemma_bridge_siblings(forest, procs, col, ord, preds, rows, out);
}

fn display_refs<'a>(processes: &'a Vec<MyProcess>, col: Column, ord: SortOrder, search_term: &str) -> (rows: Vec<(&'a MyProcess, usize)>)
    requires
        forall|k: int| 0 <= k < processes@.len() ==> (#[trigger] processes@[k]).wf(),
    ensures
        display_ok(processes@, col, ord, parse_query(search_term@), owned_view(rows@)),
{
    let ghost procs = processes@;
    let ghost preds = parse_query(search_term@);
    let searches = parse_search_query(search_term);
    let filtered = filtered_forest(processes, &searches);
    let forest = sort_forest(filtered, col, ord);
    proof {
        lemma_forest_shows(&filtered, &forest, procs, col, ord, preds);
    }
    let rows = flatten(&forest);
    proof {
        lemma_display_ok(&forest, procs, col, ord, preds, rows@);
    }
    rows
}

proof fn lemma_rows_in_procs(
    procs: Seq<MyProcess>,
    col: Column,
    ord: SortOrder,
    preds: Seq<(Seq<char>, Seq<char>)>,
    rows: Seq<(MyProcess, usize)>,
)
    requires
        display_ok(procs, col, ord, preds, rows),
    ensures
        forall|i: int| 0 <= i < rows.len() ==> procs.contains(#[trigger] rows[i].0),
{
    reveal(display_parented);
    assert forall|i: int| 0 <= i < rows.len() implies procs.contains(#[trigger] rows[i].0) by {
        if rows[i].1 == 0 {
            reveal(visible_roots);
            lemma_visible_in(procs, col, ord, preds, 0, rows[i].0);
        } else {
            let a = choose|a: int|
                0 <= a < i && rows[a].1 + 1 == rows[i].1
                    && visible_children(procs, col, ord, preds, rows[a].0.id as int).contains(rows[i].0)
                    && forall|x: int| a < x < i ==> (#[trigger] rows[x]).1 >= rows[i].1;
            reveal(visible_children);
            lemma_visible_in(procs, col, ord, preds, rows[a].0.id as int, rows[i].0);
        }
    }
}

/// Position of the slot that still holds a record with this id.
fn find_slot(slots: &Vec<Option<MyProcess>>, id: i32) -> (r: Option<usize>)
    ensures
        match r {
            Some(k) => k < slots@.len() && slots@[k as int] is Some && slots@[k as int]->0.id == id,
            None => forall|k: int| 0 <= k < slots@.len() ==> !(#[trigger] slots@[k] is Some && slots@[k]->0.id == id),
        },
{
    let mut k: usize = 0;
    while k < slots.len()
        invariant
            k <= slots@.len(),
            forall|m: int| 0 <= m < k ==> !(#[trigger] slots@[m] is Some && slots@[m]->0.id == id),
        decreases slots@.len() - k,
    {
        match &slots[k] {
            Some(p) => {
                if p.id == id {
                    return Some(k);
                }
            },
            None => {},
        }
        k = k + 1;
    }
    None
}

/// Id shown in one of the first `i` rows.
pub open spec fn shown_before(rows: Seq<(MyProcess, usize)>, i: int, id: int) -> bool {
    exists|m: int| 0 <= m < i && (#[trigger] rows[m]).0.id == id
}

/// The display rows of a snapshot: the records that match every predicate
/// of `search_term` and their ancestors, as a forest of depth-tagged rows in
/// depth-first order, siblings sorted on `sort_by` in `sort_order`.
pub fn get_sorted_process_list(
    processes: Vec<MyProcess>,
    sort_by: &Column,
    sort_order: &SortOrder,
    search_term: &str,
) -> (r: Vec<(MyProcess, usize)>)
    requires
        forall|k: int| 0 <= k < processes@.len() ==> (#[trigger] processes@[k]).wf(),
        ids_unique(processes@),
    ensures
        display_ok(processes@, *sort_by, *sort_order, parse_query(search_term@), r@),
{
    let ghost procs = processes@;
    let ghost preds = parse_query(search_term@);
    let mut ids: Vec<(i32, usize)> = Vec::new();
    let ghost view: Seq<(MyProcess, usize)>;
    {
        let rows = display_refs(&processes, *sort_by, *sort_order, search_term);
        proof {
            view = owned_view(rows@);
        }
        let mut i: usize = 0;
        while i < rows.len()
            invariant
                i <= rows@.len(),
                view == owned_view(rows@),
                ids@.len() == i,
                forall|m: int| 0 <= m < i ==> #[trigger] ids@[m] == (view[m].0.id, view[m].1),
            decreases rows@.len() - i,
        {
            ids.push((rows[i].0.id, rows[i].1));
            i = i + 1;
        }
    }
    proof {
        lemma_rows_in_procs(procs, *sort_by, *sort_order, preds, view);
        reveal(display_distinct);
    }
    let n = processes.len();
    let mut source = processes;
    let mut slots: Vec<Option<MyProcess>> = Vec::new();
    while source.len() > 0
        invariant
            source@.len() + slots@.len() == n,
            n == procs.len(),
            source@ == procs.take(source@.len() as int),
            forall|k: int| 0 <= k < slots@.len() ==> #[trigger] slots@[k] == Some(procs[n - 1 - k]),
        decreases source@.len(),
    {
        let last = source.pop();
        match last {
            Some(p) => {
                slots.push(Some(p));
            },
            None => {},
        }
        assert(source@ =~= procs.take(source@.len() as int));
    }
    let mut out: Vec<(MyProcess, usize)> = Vec::new();
    let mut i: usize = 0;
    while i < ids.len()
        invariant
            n == procs.len(),
            slots@.len() == n,
            ids@.len() == view.len(),
            ids_unique(procs),
            display_distinct(view),
            forall|m: int| 0 <= m < view.len() ==> procs.contains(#[trigger] view[m].0),
            forall|m: int| 0 <= m < ids@.len() ==> #[trigger] ids@[m] == (view[m].0.id, view[m].1),
            forall|k: int| 0 <= k < n ==> #[trigger] slots@[k] == if shown_before(view, i as int, procs[n - 1 - k].id as int) {
                None
            } else {
                Some(procs[n - 1 - k])
            },
            i <= ids@.len(),
            out@ == view.take(i as int),
        decreases ids@.len() - i,
    {
        let (id, depth) = ids[i];
        let ghost target = view[i as int].0;
        proof {
            reveal(display_distinct);
            let t = choose|t: int| 0 <= t < procs.len() && procs[t] == target;
            let k = n - 1 - t;
            assert(procs[n - 1 - k] == target);
            if shown_before(view, i as int, target.id as int) {
                let m = choose|m: int| 0 <= m < i && (#[trigger] view[m]).0.id == target.id;
                assert(view[m].0.id != view[i as int].0.id);
            }
            assert(slots@[k] == Some(target));
        }
        match find_slot(&slots, id) {
            Some(k) => {
                let item = slots.remove(k);
                slots.insert(k, None);
                match item {
                    Some(p) => {
                        proof {
                            let t = choose|t: int| 0 <= t < procs.len() && procs[t] == target;
                            if !shown_before(view, i as int, procs[n - 1 - k].id as int) {
                                assert(p == procs[n - 1 - k]);
                                if n - 1 - k != t {
                                    if n - 1 - k < t {
                                        assert(procs[n - 1 - k].id != procs[t].id);
                                    } else {
                                        assert(procs[t].id != procs[n - 1 - k].id);
                                    }
                                }
                            }
                            assert(p == target);
                        }
                        out.push((p, depth));
                        proof {
                            assert(out@ =~= view.take(i + 1));
                        }
                    },
                    None => {},
                }
                proof {
                    assert forall|k2: int| 0 <= k2 < n implies #[trigger] slots@[k2] == if shown_before(view, i + 1, procs[n - 1 - k2].id as int) {
                        None
                    } else {
                        Some(procs[n - 1 - k2])
                    } by {
                        if shown_before(view, i as int, procs[n - 1 - k2].id as int) {
                            let m = choose|m: int| 0 <= m < i && (#[trigger] view[m]).0.id == procs[n - 1 - k2].id;
                            assert(shown_before(view, i + 1, procs[n - 1 - k2].id as int));
                        }
                        if k2 == k {
                            assert(view[i as int].0.id == id);
                            assert(shown_before(view, i + 1, procs[n - 1 - k2].id as int));
                        } else {
                            if shown_before(view, i + 1, procs[n - 1 - k2].id as int) && !shown_before(view, i as int, procs[n - 1 - k2].id as int) {
                                let t = n - 1 - k2;
                                let t0 = n - 1 - k;
                                assert(procs[t].id == id);
                                assert(procs[t0].id == id);
                                if t < t0 {
                                    assert(procs[t].id != procs[t0].id);
                                } else {
                                    assert(procs[t0].id != procs[t].id);
                                }
                            }
                        }
                    }
                }
            },
            None => {},
        }
        i = i + 1;
    }
    proof {
        assert(view.take(view.len() as int) =~= view);
    }
    out
}

pub proof fn lemma_sorted_in_pub(col: Column, s: Seq<MyProcess>, x: MyProcess)
    requires
        sorted_ascending(col, s).contains(x),
    ensures
        s.contains(x),
{
    lemma_sorted_in(col, s, x);
}

pub proof fn lemma_select_in_pub(s: Seq<MyProcess>, procs: Seq<MyProcess>, preds: Seq<(Seq<char>, Seq<char>)>, x: MyProcess)
    requires
        select(s, procs, preds).contains(x),
    ensures
        s.contains(x),
{
    lemma_select_in(s, procs, preds, x);
}

pub proof fn lemma_insert_in_pub(col: Column, s: Seq<MyProcess>, y: MyProcess, x: MyProcess)
    requires
        insert_sorted(col, s, y).contains(x),
    ensures
        s.contains(x) || x == y,
{
    lemma_insert_in(col, s, y, x);
}

} // verus!
