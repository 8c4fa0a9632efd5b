use vstd::prelude::*;

use crate::display::{
    display_ok, display_parented, display_siblings, ids_unique, ordered_siblings, sibling_rows,
    visible_at, visible_children, visible_roots,
};
use crate::text::bytes_le;
use crate::filter::{in_lineage, is_lineage_path, parent_step};
use crate::process::{Column, MyProcess, SortOrder};
use crate::prune::{id_retained, retained_all, select};
use crate::sort::{insert_sorted, key_le, sorted_ascending, sorted_by};
use crate::tree::with_parent;

verus! {

/// Filtering with no predicate returns the list unchanged.
pub proof fn lemma_no_predicates_keep_everything(s: Seq<MyProcess>, procs: Seq<MyProcess>)
    ensures
        select(s, procs, Seq::empty()) == s,
{
    crate::display::lemma_select_none(s, procs);
}

/// A record kept by the filter keeps its parent: whenever a record survives
/// every predicate and its parent is in the snapshot, the parent survives
/// too, so every kept record has a kept path up to a root.
pub proof fn lemma_filter_keeps_parent(
    procs: Seq<MyProcess>,
    preds: Seq<(Seq<char>, Seq<char>)>,
    i: int,
    k: int,
)
    requires
        ids_unique(procs),
        parent_step(procs, i, k),
        retained_all(procs, preds, procs[i]),
    ensures
        retained_all(procs, preds, procs[k]),
{
    assert forall|j: int| 0 <= j < preds.len() implies id_retained(procs, #[trigger] preds[j].0, preds[j].1, procs[k].id as int) by {
        let (c, v) = (preds[j].0, preds[j].1);
        assert(id_retained(procs, c, v, procs[i].id as int));
        let i2 = choose|i2: int| 0 <= i2 < procs.len() && procs[i2].id == procs[i].id && #[trigger] in_lineage(procs, c, v, i2);
        if i2 != i {
            if i2 < i {
                assert(procs[i2].id != procs[i].id);
            } else {
                assert(procs[i].id != procs[i2].id);
            }
        }
        let path = choose|path: Seq<int>| #[trigger] is_lineage_path(procs, c, v, path) && path.last() == i;
        let longer = path.push(k);
        assert forall|m: int| 0 <= m < longer.len() - 1 implies #[trigger] parent_step(procs, longer[m], longer[m + 1]) by {
            if m < path.len() - 1 {
                assert(parent_step(procs, path[m], path[m + 1]));
            }
        }
        assert(is_lineage_path(procs, c, v, longer));
        assert(in_lineage(procs, c, v, k));
    }
}

/// Sorting descending gives exactly the ascending order reversed, ties
/// included.
pub proof fn lemma_descending_reverses_ascending(col: Column, s: Seq<MyProcess>)
    ensures
        sorted_by(col, SortOrder::Descending, s) == sorted_by(col, SortOrder::Ascending, s).reverse(),
{
}

proof fn lemma_with_parent_parent(s: Seq<MyProcess>, id: int, x: MyProcess)
    requires
        with_parent(s, id).contains(x),
    ensures
        x.parent_id == id,
    decreases s.len(),
{
    if s.len() > 0 {
        let prev = with_parent(s.drop_last(), id);
        if s.last().parent_id == id && x != s.last() {
            let k = choose|k: int| 0 <= k < prev.push(s.last()).len() && prev.push(s.last())[k] == x;
            assert(prev[k] == x);
        }
        if s.last().parent_id != id || x != s.last() {
            lemma_with_parent_parent(s.drop_last(), id, x);
        }
    }
}

proof fn lemma_visible_parent(
    procs: Seq<MyProcess>,
    col: Column,
    ord: SortOrder,
    preds: Seq<(Seq<char>, Seq<char>)>,
    id: int,
    x: MyProcess,
)
    requires
        sorted_by(col, ord, select(with_parent(procs, id), procs, preds)).contains(x),
    ensures
        x.parent_id == id,
{
    let sel = select(with_parent(procs, id), procs, preds);
    if ord == SortOrder::Descending {
        let r = sorted_ascending(col, sel);
        let k = choose|k: int| 0 <= k < r.reverse().len() && r.reverse()[k] == x;
        assert(r[r.len() - 1 - k] == x);
    }
    crate::display::lemma_sorted_in_pub(col, sel, x);
    crate::display::lemma_select_in_pub(with_parent(procs, id), procs, preds, x);
    lemma_with_parent_parent(procs, id, x);
}

proof fn lemma_depth_row(
    procs: Seq<MyProcess>,
    col: Column,
    ord: SortOrder,
    preds: Seq<(Seq<char>, Seq<char>)>,
    rows: Seq<(MyProcess, usize)>,
    i: int,
)
    requires
        display_parented(procs, col, ord, preds, rows),
        0 <= i < rows.len(),
    ensures
        rows[i].1 == 0 ==> rows[i].0.parent_id == 0,
        rows[i].1 > 0 ==> exists|a: int|
            0 <= a < i && rows[a].1 + 1 == rows[i].1 && rows[a].0.id == rows[i].0.parent_id
                && forall|x: int| a < x < i ==> (#[trigger] rows[x]).1 > rows[a].1,
{
    reveal(display_parented);
    if rows[i].1 == 0 {
        assert(visible_roots(procs, col, ord, preds).contains(rows[i].0));
        reveal(visible_roots);
        lemma_visible_parent(procs, col, ord, preds, 0, rows[i].0);
    } else {
        let a = choose|a: int|
            0 <= a < i && rows[a].1 + 1 == rows[i].1
                && visible_children(procs, col, ord, preds, rows[a].0.id as int).contains(rows[i].0)
                && forall|x: int| a < x < i ==> (#[trigger] rows[x]).1 >= rows[i].1;
        reveal(visible_children);
        lemma_visible_parent(procs, col, ord, preds, rows[a].0.id as int, rows[i].0);
        assert forall|x: int| a < x < i implies (#[trigger] rows[x]).1 > rows[a].1 by {
            assert(rows[x].1 >= rows[i].1);
        }
    }
}

/// Depths in the display rows: a row at depth `0` shows a root (parent id
/// `0`); a row at depth `d + 1` comes after the row of its parent, which is
/// at depth `d`, with only deeper rows between them.
pub proof fn lemma_display_depths(
    procs: Seq<MyProcess>,
    col: Column,
    ord: SortOrder,
    preds: Seq<(Seq<char>, Seq<char>)>,
    rows: Seq<(MyProcess, usize)>,
)
    requires
        display_ok(procs, col, ord, preds, rows),
    ensures
        forall|i: int| 0 <= i < rows.len() && (#[trigger] rows[i]).1 == 0 ==> rows[i].0.parent_id == 0,
        forall|i: int| 0 <= i < rows.len() && (#[trigger] rows[i]).1 > 0 ==> exists|a: int|
            0 <= a < i && rows[a].1 + 1 == rows[i].1 && rows[a].0.id == rows[i].0.parent_id
                && forall|x: int| a < x < i ==> (#[trigger] rows[x]).1 > rows[a].1,
{
    assert forall|i: int| 0 <= i < rows.len() && (#[trigger] rows[i]).1 == 0 implies rows[i].0.parent_id == 0 by {
        lemma_depth_row(procs, col, ord, preds, rows, i);
    }
    assert forall|i: int| 0 <= i < rows.len() && (#[trigger] rows[i]).1 > 0 implies exists|a: int|
        0 <= a < i && rows[a].1 + 1 == rows[i].1 && rows[a].0.id == rows[i].0.parent_id
            && forall|x: int| a < x < i ==> (#[trigger] rows[x]).1 > rows[a].1 by {
        lemma_depth_row(procs, col, ord, preds, rows, i);
    }
}

/// `a` may be shown before `b` when sorting on `col` in direction `ord`.
pub open spec fn in_order(col: Column, ord: SortOrder, a: MyProcess, b: MyProcess) -> bool {
    match ord {
        SortOrder::Ascending => key_le(col, a, b),
        SortOrder::Descending => key_le(col, b, a),
    }
}

proof fn lemma_bytes_total(a: Seq<u8>, b: Seq<u8>)
    ensures
        bytes_le(a, b) || bytes_le(b, a),
    decreases a.len(),
{
    if a.len() > 0 && b.len() > 0 && a[0] == b[0] {
        lemma_bytes_total(a.drop_first(), b.drop_first());
    }
}

proof fn lemma_bytes_trans(a: Seq<u8>, b: Seq<u8>, c: Seq<u8>)
    requires
        bytes_le(a, b),
        bytes_le(b, c),
    ensures
        bytes_le(a, c),
    decreases a.len(),
{
    if a.len() > 0 && b.len() > 0 && c.len() > 0 && a[0] == b[0] && b[0] == c[0] {
        lemma_bytes_trans(a.drop_first(), b.drop_first(), c.drop_first());
    }
}

proof fn lemma_key_total(col: Column, a: MyProcess, b: MyProcess)
    ensures
        key_le(col, a, b) || key_le(col, b, a),
{
    match col {
        Column::Name => lemma_bytes_total(crate::text::folded(a.name@), crate::text::folded(b.name@)),
        Column::User => lemma_bytes_total(crate::text::folded(a.user@), crate::text::folded(b.user@)),
        Column::Command => lemma_bytes_total(crate::text::folded(a.command@), crate::text::folded(b.command@)),
        _ => {},
    }
}

proof fn lemma_key_trans(col: Column, a: MyProcess, b: MyProcess, c: MyProcess)
    requires
        key_le(col, a, b),
        key_le(col, b, c),
    ensures
        key_le(col, a, c),
{
    match col {
        Column::Name => lemma_bytes_trans(crate::text::folded(a.name@), crate::text::folded(b.name@), crate::text::folded(c.name@)),
        Column::User => lemma_bytes_trans(crate::text::folded(a.user@), crate::text::folded(b.user@), crate::text::folded(c.user@)),
        Column::Command => lemma_bytes_trans(crate::text::folded(a.command@), crate::text::folded(b.command@), crate::text::folded(c.command@)),
        _ => {},
    }
}

pub open spec fn pairwise_le(col: Column, s: Seq<MyProcess>) -> bool {
    forall|p: int, q: int| 0 <= p < q < s.len() ==> key_le(col, #[trigger] s[p], #[trigger] s[q])
}

proof fn lemma_insert_pairwise(col: Column, s: Seq<MyProcess>, x: MyProcess)
    requires
        pairwise_le(col, s),
    ensures
        pairwise_le(col, insert_sorted(col, s, x)),
    decreases s.len(),
{
    let r = insert_sorted(col, s, x);
    if s.len() == 0 {
    } else if key_le(col, s.last(), x) {
        assert forall|p: int, q: int| 0 <= p < q < r.len() implies key_le(col, #[trigger] r[p], #[trigger] r[q]) by {
            if q == s.len() {
                if p < s.len() - 1 {
                    lemma_key_trans(col, s[p], s[s.len() - 1], x);
                }
            }
        }
    } else {
        let s2 = s.drop_last();
        let last = s.last();
        lemma_key_total(col, last, x);
        assert(pairwise_le(col, s2)) by {
            assert forall|p: int, q: int| 0 <= p < q < s2.len() implies key_le(col, #[trigger] s2[p], #[trigger] s2[q]) by {
                assert(s2[p] == s[p] && s2[q] == s[q]);
            }
        }
        lemma_insert_pairwise(col, s2, x);
        let ins = insert_sorted(col, s2, x);
        assert forall|p: int, q: int| 0 <= p < q < r.len() implies key_le(col, #[trigger] r[p], #[trigger] r[q]) by {
            if q == ins.len() {
                assert(r[p] == ins[p]);
                assert(ins.contains(ins[p]));
                crate::display::lemma_insert_in_pub(col, s2, x, ins[p]);
                if s2.contains(ins[p]) {
                    let m = choose|m: int| 0 <= m < s2.len() && s2[m] == ins[p];
                    assert(key_le(col, s[m], s[s.len() - 1]));
                }
            } else {
                assert(r[p] == ins[p] && r[q] == ins[q]);
            }
        }
    }
}

proof fn lemma_sorted_pairwise(col: Column, s: Seq<MyProcess>)
    ensures
        pairwise_le(col, sorted_ascending(col, s)),
    decreases s.len(),
{
    if s.len() > 0 {
        lemma_sorted_pairwise(col, s.drop_last());
        lemma_insert_pairwise(col, sorted_ascending(col, s.drop_last()), s.last());
    }
}

proof fn lemma_sorted_by_in_order(col: Column, ord: SortOrder, s: Seq<MyProcess>, p: int, q: int)
    requires
        0 <= p < q < sorted_by(col, ord, s).len(),
    ensures
        in_order(col, ord, sorted_by(col, ord, s)[p], sorted_by(col, ord, s)[q]),
{
    let asc = sorted_ascending(col, s);
    lemma_sorted_pairwise(col, s);
    if ord == SortOrder::Descending {
        let n = asc.len();
        assert(asc.reverse()[p] == asc[n - 1 - p]);
        assert(asc.reverse()[q] == asc[n - 1 - q]);
        assert(key_le(col, asc[n - 1 - q], asc[n - 1 - p]));
    } else {
        assert(key_le(col, asc[p], asc[q]));
    }
}

/// Siblings in the display rows appear in the requested sort order.
pub proof fn lemma_siblings_sorted(
    procs: Seq<MyProcess>,
    col: Column,
    ord: SortOrder,
    preds: Seq<(Seq<char>, Seq<char>)>,
    rows: Seq<(MyProcess, usize)>,
)
    requires
        display_ok(procs, col, ord, preds, rows),
    ensures
        forall|i: int, j: int| #[trigger] sibling_rows(rows, i, j) ==> in_order(col, ord, rows[i].0, rows[j].0),
{
    reveal(display_siblings);
    assert forall|i: int, j: int| #[trigger] sibling_rows(rows, i, j) implies in_order(col, ord, rows[i].0, rows[j].0) by {
        assert(ordered_siblings(procs, col, ord, preds, rows, i, j));
        let (a, p, q) = choose|a: int, p: int, q: int|
            -1 <= a < i && 0 <= p < q < visible_at(procs, col, ord, preds, rows, a).len()
                && (a == -1 <==> rows[i].1 == 0)
                && visible_at(procs, col, ord, preds, rows, a)[p] == rows[i].0
                && visible_at(procs, col, ord, preds, rows, a)[q] == rows[j].0;
        if a < 0 {
            reveal(visible_roots);
            lemma_sorted_by_in_order(col, ord, select(with_parent(procs, 0), procs, preds), p, q);
        } else {
            reveal(visible_children);
            let id = rows[a].0.id as int;
            if id != 0 {
                lemma_sorted_by_in_order(col, ord, select(with_parent(procs, id), procs, preds), p, q);
            }
        }
    }
}

} // verus!
