use vstd::prelude::*;

use crate::process::{cpu_text, render_cpu, render_integer, render_unsigned, MyProcess};
use crate::text::{contains_bytes, decimal, folded, is_infix, lower_of, lowercase, signed_decimal};

verus! {

/// The record field that a search column key names.
#[derive(Debug, Clone, Copy, PartialEq, Eq)]
pub enum SearchField {
    File,
    Id,
    Cpu,
    Memory,
    ParentId,
    State,
    StartTime,
    User,
    Command,
    Name,
}

/// Field named by a lowercase column key; any other key names the name.
pub open spec fn field_of(key: Seq<char>) -> SearchField {
    if key == "file"@ {
        SearchField::File
    } else if key == "id"@ {
        SearchField::Id
    } else if key == "cpu"@ {
        SearchField::Cpu
    } else if key == "memory"@ {
        SearchField::Memory
    } else if key == "parentid"@ {
        SearchField::ParentId
    } else if key == "state"@ {
        SearchField::State
    } else if key == "starttime"@ {
        SearchField::StartTime
    } else if key == "user"@ {
        SearchField::User
    } else if key == "command"@ {
        SearchField::Command
    } else {
        SearchField::Name
    }
}

/// Text of a field as search compares it.
pub open spec fn field_text(p: MyProcess, f: SearchField) -> Seq<char> {
    match f {
        SearchField::Id => signed_decimal(p.id as int),
        SearchField::Cpu => cpu_text(p.cpu_hundredths as nat),
        SearchField::Memory => decimal(p.memory_bytes as nat),
        SearchField::ParentId => signed_decimal(p.parent_id as int),
        SearchField::State => p.state.spec_name(),
        SearchField::StartTime => match p.start_time {
            Some(t) => t.spec_text(),
            None => "N/A"@,
        },
        SearchField::User => p.user@,
        SearchField::Command => p.command@,
        _ => p.name@,
    }
}

/// Either text contains the other, ignoring case.
pub open spec fn texts_match(a: Seq<char>, b: Seq<char>) -> bool {
    is_infix(folded(b), folded(a)) || is_infix(folded(a), folded(b))
}

/// Some open file's path contains `value`, ignoring case.
pub open spec fn uses_file(p: MyProcess, value: Seq<char>) -> bool {
    exists|k: int|
        0 <= k < p.files_using@.len() && is_infix(folded(value), folded(#[trigger] p.files_using@[k]@))
}

/// The record satisfies the predicate (column, value).
pub open spec fn matches(p: MyProcess, column: Seq<char>, value: Seq<char>) -> bool {
    let f = field_of(lower_of(column));
    if f == SearchField::File {
        uses_file(p, value)
    } else {
        texts_match(field_text(p, f), value)
    }
}

fn field_of_exec(key: &String) -> (r: SearchField)
    ensures
        r == field_of(key@),
{
    if *key == String::from_str("file") {
        SearchField::File
    } else if *key == String::from_str("id") {
        SearchField::Id
    } else if *key == String::from_str("cpu") {
        SearchField::Cpu
    } else if *key == String::from_str("memory") {
        SearchField::Memory
    } else if *key == String::from_str("parentid") {
        SearchField::ParentId
    } else if *key == String::from_str("state") {
        SearchField::State
    } else if *key == String::from_str("starttime") {
        SearchField::StartTime
    } else if *key == String::from_str("user") {
        SearchField::User
    } else if *key == String::from_str("command") {
        SearchField::Command
    } else {
        SearchField::Name
    }
}

fn texts_match_exec(a: &str, b: &str) -> (r: bool)
    ensures
        r == texts_match(a@, b@),
{
    let la = lowercase(a);
    let lb = lowercase(b);
    contains_bytes(la.as_str().as_bytes(), lb.as_str().as_bytes()) || contains_bytes(
        lb.as_str().as_bytes(),
        la.as_str().as_bytes(),
    )
}

fn field_text_exec(p: &MyProcess, f: SearchField) -> (r: String)
    requires
        p.wf(),
    ensures
        r@ == field_text(*p, f),
{
    match f {
        SearchField::Id => render_integer(p.id as i64),
        SearchField::Cpu => render_cpu(p.cpu_hundredths),
        SearchField::Memory => render_unsigned(p.memory_bytes),
        SearchField::ParentId => render_integer(p.parent_id as i64),
        SearchField::State => String::from_str(p.state.name()),
        SearchField::StartTime => match &p.start_time {
            Some(t) => t.text(),
            None => String::from_str("N/A"),
        },
        SearchField::User => p.user.clone(),
        SearchField::Command => p.command.clone(),
        _ => p.name.clone(),
    }
}

/// Whether a record satisfies one search predicate.
pub fn process_matches(p: &MyProcess, column: &str, value: &str) -> (r: bool)
    requires
        p.wf(),
    ensures
        r == matches(*p, column@, value@),
{
    let key = lowercase(column);
    let f = field_of_exec(&key);
    if let SearchField::File = f {
        let lv = lowercase(value);
        let mut k: usize = 0;
        while k < p.files_using.len()
            invariant
                k <= p.files_using@.len(),
                lv@ == lower_of(value@),
                field_of(lower_of(column@)) == SearchField::File,
                forall|m: int|
                    0 <= m < k ==> !is_infix(folded(value@), folded(#[trigger] p.files_using@[m]@)),
            decreases p.files_using@.len() - k,
        {
            let lf = lowercase(p.files_using[k].as_str());
            if contains_bytes(lf.as_str().as_bytes(), lv.as_str().as_bytes()) {
                assert(is_infix(folded(value@), folded(p.files_using@[k as int]@)));
                assert(uses_file(*p, value@));
                return true;
            }
            k = k + 1;
        }
        false
    } else {
        let text = field_text_exec(p, f);
        texts_match_exec(text.as_str(), value)
    }
}

/// Record `k` is the parent of record `i` in the snapshot.
pub open spec fn parent_step(procs: Seq<MyProcess>, i: int, k: int) -> bool {
    &&& 0 <= i < procs.len()
    &&& 0 <= k < procs.len()
    &&& procs[i].parent_id != 0
    &&& procs[k].id == procs[i].parent_id
}

/// `path` runs from a matching record up through parents, one step at a time.
pub open spec fn is_lineage_path(
    procs: Seq<MyProcess>,
    column: Seq<char>,
    value: Seq<char>,
    path: Seq<int>,
) -> bool {
    &&& path.len() >= 1
    &&& 0 <= path[0] < procs.len()
    &&& matches(procs[path[0]], column, value)
    &&& forall|j: int| 0 <= j < path.len() - 1 ==> #[trigger] parent_step(procs, path[j], path[j + 1])
}

/// Record `k` matches the predicate or is an ancestor of a record that does.
pub open spec fn in_lineage(procs: Seq<MyProcess>, column: Seq<char>, value: Seq<char>, k: int) -> bool {
    exists|path: Seq<int>| #[trigger] is_lineage_path(procs, column, value, path) && path.last() == k
}

pub open spec fn count_false(s: Seq<bool>) -> nat
    decreases s.len(),
{
    if s.len() == 0 {
        0
    } else {
        count_false(s.drop_last()) + if s.last() {
            0nat
        } else {
            1nat
        }
    }
}

proof fn lemma_count_false_set(s: Seq<bool>, k: int)
    requires
        0 <= k < s.len(),
        !s[k],
    ensures
        count_false(s.update(k, true)) + 1 == count_false(s),
    decreases s.len(),
{
    let t = s.update(k, true);
    if k == s.len() - 1 {
        assert(t.drop_last() =~= s.drop_last());
    } else {
        assert(t.drop_last() =~= s.drop_last().update(k, true));
        lemma_count_false_set(s.drop_last(), k);
    }
}

proof fn lemma_closed_complete(
    procs: Seq<MyProcess>,
    column: Seq<char>,
    value: Seq<char>,
    keep: Seq<bool>,
    path: Seq<int>,
)
    requires
        keep.len() == procs.len(),
        forall|m: int| 0 <= m < procs.len() && matches(procs[m], column, value) ==> keep[m],
        forall|i: int, m: int| #[trigger] parent_step(procs, i, m) && keep[i] ==> keep[m],
        is_lineage_path(procs, column, value, path),
    ensures
        keep[path.last()],
    decreases path.len(),
{
    if path.len() > 1 {
        let shorter = path.drop_last();
        assert forall|j: int| 0 <= j < shorter.len() - 1 implies #[trigger] parent_step(
            procs,
            shorter[j],
            shorter[j + 1],
        ) by {
            assert(parent_step(procs, path[j], path[j + 1]));
        }
        lemma_closed_complete(procs, column, value, keep, shorter);
        let j = path.len() - 2;
        assert(parent_step(procs, path[j], path[j + 1]));
        assert(shorter.last() == path[j]);
    }
}

/// For each record: whether it matches the predicate or is an ancestor of
/// a record that does.
pub fn lineage(procs: &Vec<MyProcess>, column: &str, value: &str) -> (keep: Vec<bool>)
    requires
        forall|k: int| 0 <= k < procs@.len() ==> (#[trigger] procs@[k]).wf(),
    ensures
        keep@.len() == procs@.len(),
        forall|k: int| 0 <= k < procs@.len() ==> (#[trigger] keep@[k] <==> in_lineage(procs@, column@, value@, k)),
{
    let n = procs.len();
    let mut keep: Vec<bool> = Vec::new();
    let mut i: usize = 0;
    while i < n
        invariant
            n == procs@.len(),
            i <= n,
            keep@.len() == i,
            forall|k: int| 0 <= k < procs@.len() ==> (#[trigger] procs@[k]).wf(),
            forall|k: int| 0 <= k < i ==> (#[trigger] keep@[k] <==> matches(procs@[k], column@, value@)),
        decreases n - i,
    {
        let m = process_matches(&procs[i], column, value);
        keep.push(m);
        i = i + 1;
    }
    proof {
        assert forall|k: int| 0 <= k < n && #[trigger] keep@[k] implies in_lineage(procs@, column@, value@, k) by {
            assert(is_lineage_path(procs@, column@, value@, seq![k]));
        }
    }
    let mut changed = true;
    while changed
        invariant
            n == procs@.len(),
            keep@.len() == n,
            forall|k: int| 0 <= k < n && matches(procs@[k], column@, value@) ==> keep@[k],
            forall|k: int| 0 <= k < n && #[trigger] keep@[k] ==> in_lineage(procs@, column@, value@, k),
            !changed ==> forall|a: int, b: int| #[trigger] parent_step(procs@, a, b) && keep@[a] ==> keep@[b],
        decreases count_false(keep@) + if changed { 1nat } else { 0nat },
    {
        changed = false;
        let ghost start_count = count_false(keep@);
        let mut a: usize = 0;
        while a < n
            invariant
                n == procs@.len(),
                keep@.len() == n,
                a <= n,
                forall|k: int| 0 <= k < n && matches(procs@[k], column@, value@) ==> keep@[k],
                forall|k: int| 0 <= k < n && #[trigger] keep@[k] ==> in_lineage(procs@, column@, value@, k),
                !changed ==> count_false(keep@) == start_count,
                changed ==> count_false(keep@) < start_count,
                !changed ==> forall|x: int, y: int| 0 <= x < a && #[trigger] parent_step(procs@, x, y) && keep@[x] ==> keep@[y],
            decreases n - a,
        {
            if keep[a] && procs[a].parent_id != 0 {
                let pid = procs[a].parent_id;
                let mut b: usize = 0;
                while b < n
                    invariant
                        n == procs@.len(),
                        keep@.len() == n,
                        a < n,
                        b <= n,
                        keep@[a as int],
                        pid == procs@[a as int].parent_id,
                        pid != 0,
                        forall|k: int| 0 <= k < n && matches(procs@[k], column@, value@) ==> keep@[k],
                        forall|k: int| 0 <= k < n && #[trigger] keep@[k] ==> in_lineage(procs@, column@, value@, k),
                        !changed ==> count_false(keep@) == start_count,
                        changed ==> count_false(keep@) < start_count,
                        !changed ==> forall|x: int, y: int| 0 <= x < a && #[trigger] parent_step(procs@, x, y) && keep@[x] ==> keep@[y],
                        !changed ==> forall|y: int| 0 <= y < b && #[trigger] parent_step(procs@, a as int, y) ==> keep@[y],
                    decreases n - b,
                {
                    if procs[b].id == pid && !keep[b] {
                        proof {
                            assert(in_lineage(procs@, column@, value@, a as int));
                            let path = choose|path: Seq<int>| #[trigger] is_lineage_path(procs@, column@, value@, path) && path.last() == a as int;
                            let longer = path.push(b as int);
                            assert(parent_step(procs@, a as int, b as int));
                            assert forall|j: int| 0 <= j < longer.len() - 1 implies #[trigger] parent_step(procs@, longer[j], longer[j + 1]) by {
                                if j < path.len() - 1 {
                                    assert(parent_step(procs@, path[j], path[j + 1]));
                                }
                            }
                            assert(is_lineage_path(procs@, column@, value@, longer));
                            assert(in_lineage(procs@, column@, value@, b as int));
                            lemma_count_false_set(keep@, b as int);
                        }
                        keep.set(b, true);
                        changed = true;
                    }
                    b = b + 1;
                }
            }
            a = a + 1;
        }
    }
    proof {
        assert forall|k: int| 0 <= k < procs@.len() implies (#[trigger] keep@[k] <==> in_lineage(procs@, column@, value@, k)) by {
            if in_lineage(procs@, column@, value@, k) {
                let path = choose|path: Seq<int>| #[trigger] is_lineage_path(procs@, column@, value@, path) && path.last() == k;
                lemma_closed_complete(procs@, column@, value@, keep@, path);
            }
        }
    }
    keep
}

} // verus!
