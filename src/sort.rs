use vstd::prelude::*;

use crate::process::{Column, MyProcess, SortOrder};
use crate::text::{bytes_le, folded, folded_le};

verus! {

/// `a` may stand before `b` when sorting ascending on `col`.
pub open spec fn key_le(col: Column, a: MyProcess, b: MyProcess) -> bool {
    match col {
        Column::Name => bytes_le(folded(a.name@), folded(b.name@)),
        Column::ID => a.id <= b.id,
        Column::CPU => a.cpu_hundredths <= b.cpu_hundredths,
        Column::Memory => a.memory_bytes <= b.memory_bytes,
        Column::ParentID => a.parent_id <= b.parent_id,
        Column::State => a.state.rank() <= b.state.rank(),
        Column::StartTime => match (a.start_time, b.start_time) {
            (None, _) => true,
            (Some(_), None) => false,
            (Some(x), Some(y)) => x.seconds < y.seconds || (x.seconds == y.seconds && x.nanos
                <= y.nanos),
        },
        Column::User => bytes_le(folded(a.user@), folded(b.user@)),
        Column::Command => bytes_le(folded(a.command@), folded(b.command@)),
    }
}

/// Stable insertion of `x` into `s`: after every element whose key does
/// not exceed that of `x`.
pub open spec fn insert_sorted(col: Column, s: Seq<MyProcess>, x: MyProcess) -> Seq<MyProcess>
    decreases s.len(),
{
    if s.len() == 0 || key_le(col, s.last(), x) {
        s.push(x)
    } else {
        insert_sorted(col, s.drop_last(), x).push(s.last())
    }
}

/// The stable ascending sort of `s` on `col`.
pub open spec fn sorted_ascending(col: Column, s: Seq<MyProcess>) -> Seq<MyProcess>
    decreases s.len(),
{
    if s.len() == 0 {
        s
    } else {
        insert_sorted(col, sorted_ascending(col, s.drop_last()), s.last())
    }
}

/// Ascending: the stable sort; descending: that sequence reversed.
pub open spec fn sorted_by(col: Column, order: SortOrder, s: Seq<MyProcess>) -> Seq<MyProcess> {
    match order {
        SortOrder::Ascending => sorted_ascending(col, s),
        SortOrder::Descending => sorted_ascending(col, s).reverse(),
    }
}

/// The records that a list of references points at.
pub open spec fn deref_all(v: Seq<&MyProcess>) -> Seq<MyProcess> {
    v.map_values(|p: &MyProcess| *p)
}

pub fn key_le_exec(col: Column, a: &MyProcess, b: &MyProcess) -> (r: bool)
    ensures
        r == key_le(col, *a, *b),
{
    match col {
        Column::Name => folded_le(a.name.as_str(), b.name.as_str()),
        Column::ID => a.id <= b.id,
        Column::CPU => a.cpu_hundredths <= b.cpu_hundredths,
        Column::Memory => a.memory_bytes <= b.memory_bytes,
        Column::ParentID => a.parent_id <= b.parent_id,
        Column::State => a.state.rank_of() <= b.state.rank_of(),
        Column::StartTime => match (&a.start_time, &b.start_time) {
            (None, _) => true,
            (Some(_), None) => false,
            (Some(x), Some(y)) => x.seconds < y.seconds || (x.seconds == y.seconds && x.nanos
                <= y.nanos),
        },
        Column::User => folded_le(a.user.as_str(), b.user.as_str()),
        Column::Command => folded_le(a.command.as_str(), b.command.as_str()),
    }
}

/// Sorts a list of process references in place on a column.
pub trait SortMyProcesses {
    spec fn records(&self) -> Seq<MyProcess>;

    fn sort(&mut self, sort_by: &Column, sort_order: &SortOrder)
        ensures
            final(self).records() == sorted_by(*sort_by, *sort_order, old(self).records()),
    ;
}

fn insert_ref<'a>(out: &mut Vec<&'a MyProcess>, x: &'a MyProcess, col: Column)
    ensures
        deref_all(final(out)@) == insert_sorted(col, deref_all(old(out)@), *x),
{
    let ghost prefix = deref_all(out@);
    out.push(x);
    let mut j: usize = out.len() - 1;
    assert(prefix.take(j as int) =~= prefix);
    assert(deref_all(out@) =~= prefix.take(j as int).push(*x) + prefix.skip(j as int));
    while j > 0 && !key_le_exec(col, out[j - 1], x)
        invariant
            j < out@.len(),
            out@.len() == prefix.len() + 1,
            j <= prefix.len(),
            deref_all(out@) == prefix.take(j as int).push(*x) + prefix.skip(j as int),
            insert_sorted(col, prefix, *x) == insert_sorted(col, prefix.take(j as int), *x)
                + prefix.skip(j as int),
        decreases j,
    {
        let ghost pj = prefix.take(j as int);
        proof {
            assert(deref_all(out@)[j - 1] == pj[j - 1]);
            assert(pj.drop_last() =~= prefix.take(j - 1));
            assert(pj.last() == prefix[j - 1]);
            assert(!key_le(col, pj.last(), *x));
            assert(insert_sorted(col, pj, *x) == insert_sorted(col, prefix.take(j - 1), *x).push(
                prefix[j - 1],
            ));
            assert(insert_sorted(col, prefix.take(j - 1), *x).push(prefix[j - 1]) + prefix.skip(
                j as int,
            ) =~= insert_sorted(col, prefix.take(j - 1), *x) + prefix.skip(j - 1));
        }
        let y = out[j - 1];
        let ghost before = deref_all(out@);
        out.set(j, y);
        out.set(j - 1, x);
        proof {
            assert(deref_all(out@) =~= before.update(j as int, *y).update(j - 1, *x));
            assert(*y == prefix[j - 1]);
        }
        j = j - 1;
        assert(deref_all(out@) =~= prefix.take(j as int).push(*x) + prefix.skip(j as int));
    }
    proof {
        let pj = prefix.take(j as int);
        if j > 0 {
            assert(deref_all(out@)[j - 1] == pj[j - 1]);
            assert(pj.last() == prefix[j - 1]);
        }
        assert(insert_sorted(col, pj, *x) == pj.push(*x));
        assert(deref_all(out@) =~= insert_sorted(col, prefix, *x));
    }
}

fn sort_refs<'a>(v: &Vec<&'a MyProcess>, col: Column) -> (r: Vec<&'a MyProcess>)
    ensures
        deref_all(r@) == sorted_ascending(col, deref_all(v@)),
{
    let mut out: Vec<&'a MyProcess> = Vec::new();
    let mut i: usize = 0;
    assert(deref_all(v@.take(0)) =~= Seq::<MyProcess>::empty());
    assert(deref_all(out@) =~= Seq::<MyProcess>::empty());
    while i < v.len()
        invariant
            i <= v@.len(),
            deref_all(out@) == sorted_ascending(col, deref_all(v@.take(i as int))),
        decreases v@.len() - i,
    {
        let x = v[i];
        proof {
            assert(deref_all(v@.take(i + 1)).drop_last() =~= deref_all(v@.take(i as int)));
            assert(deref_all(v@.take(i + 1)).last() == *x);
        }
        insert_ref(&mut out, x, col);
        i = i + 1;
    }
    assert(v@.take(v@.len() as int) =~= v@);
    out
}

fn reversed<'a>(v: &Vec<&'a MyProcess>) -> (r: Vec<&'a MyProcess>)
    ensures
        r@ == v@.reverse(),
{
    let mut out: Vec<&'a MyProcess> = Vec::new();
    let mut i: usize = v.len();
    while i > 0
        invariant
            i <= v@.len(),
            out@ == v@.skip(i as int).reverse(),
        decreases i,
    {
        i = i - 1;
        out.push(v[i]);
        assert(out@ =~= v@.skip(i as int).reverse());
    }
    assert(v@.skip(0) =~= v@);
    out
}

impl<'a> SortMyProcesses for Vec<&'a MyProcess> {
    open spec fn records(&self) -> Seq<MyProcess> {
        deref_all(self@)
    }

    fn sort(&mut self, sort_by: &Column, sort_order: &SortOrder) {
        let sorted = sort_refs(self, *sort_by);
        match sort_order {
            SortOrder::Ascending => {
                *self = sorted;
            },
            SortOrder::Descending => {
                let r = reversed(&sorted);
                assert(deref_all(r@) =~= deref_all(sorted@).reverse());
                *self = r;
            },
        }
    }
}

} // verus!
