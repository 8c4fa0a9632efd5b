use vstd::prelude::*;

verus! {

/// One parsed search clause: a column key and the value to look for.
#[derive(Debug)]
pub struct Search<'a> {
    pub column: &'a str,
    pub value: &'a str,
}

impl<'a> Search<'a> {
    pub open spec fn pair(self) -> (Seq<char>, Seq<char>) {
        (self.column@, self.value@)
    }
}

/// Unicode `White_Space`.
pub open spec fn is_white_space(c: char) -> bool {
    let u = c as u32;
    (0x9 <= u <= 0xD) || u == 0x20 || u == 0x85 || u == 0xA0 || u == 0x1680 || (0x2000 <= u
        <= 0x200A) || u == 0x2028 || u == 0x2029 || u == 0x202F || u == 0x205F || u == 0x3000
}

/// The pieces of `s` between commas, in order; one more than there are commas.
pub open spec fn split_commas(s: Seq<char>) -> Seq<Seq<char>>
    decreases s.len(),
{
    if s.len() == 0 {
        seq![Seq::empty()]
    } else {
        let prev = split_commas(s.drop_last());
        if s.last() == ',' {
            prev.push(Seq::empty())
        } else {
            prev.update(prev.len() - 1, prev.last().push(s.last()))
        }
    }
}

pub open spec fn trim_start(s: Seq<char>) -> Seq<char>
    decreases s.len(),
{
    if s.len() > 0 && is_white_space(s[0]) {
        trim_start(s.drop_first())
    } else {
        s
    }
}

pub open spec fn trim_end(s: Seq<char>) -> Seq<char>
    decreases s.len(),
{
    if s.len() > 0 && is_white_space(s.last()) {
        trim_end(s.drop_last())
    } else {
        s
    }
}

pub open spec fn trim(s: Seq<char>) -> Seq<char> {
    trim_end(trim_start(s))
}

/// The leading characters of `s` before its first whitespace.
pub open spec fn until_white_space(s: Seq<char>) -> Seq<char>
    decreases s.len(),
{
    if s.len() == 0 || is_white_space(s[0]) {
        Seq::empty()
    } else {
        seq![s[0]] + until_white_space(s.drop_first())
    }
}

/// `s` without its leading `@` characters.
pub open spec fn strip_at(s: Seq<char>) -> Seq<char>
    decreases s.len(),
{
    if s.len() > 0 && s[0] == '@' {
        strip_at(s.drop_first())
    } else {
        s
    }
}

/// A clause, trimmed, splits at its first whitespace run into a column key
/// (leading `@` removed) and a value; it yields nothing unless both the
/// pieces are there and the value is not empty.
pub open spec fn parse_clause(c: Seq<char>) -> Option<(Seq<char>, Seq<char>)> {
    let t = trim(c);
    let head = until_white_space(t);
    let rest = t.skip(head.len() as int);
    let value = trim(rest);
    if head.len() == 0 || rest.len() == 0 || value.len() == 0 {
        None
    } else {
        Some((strip_at(head), value))
    }
}

pub open spec fn parse_clauses(cs: Seq<Seq<char>>) -> Seq<(Seq<char>, Seq<char>)>
    decreases cs.len(),
{
    if cs.len() == 0 {
        Seq::empty()
    } else {
        let prev = parse_clauses(cs.drop_last());
        match parse_clause(cs.last()) {
            Some(p) => prev.push(p),
            None => prev,
        }
    }
}

/// The predicates of a search query, in order.
pub open spec fn parse_query(q: Seq<char>) -> Seq<(Seq<char>, Seq<char>)> {
    parse_clauses(split_commas(q))
}

pub fn is_white_space_char(c: char) -> (r: bool)
    ensures
        r == is_white_space(c),
{
    let u = c as u32;
    (0x9 <= u && u <= 0xD) || u == 0x20 || u == 0x85 || u == 0xA0 || u == 0x1680 || (0x2000 <= u
        && u <= 0x200A) || u == 0x2028 || u == 0x2029 || u == 0x202F || u == 0x205F || u == 0x3000
}

fn chars_of(s: &str) -> (r: Vec<char>)
    ensures
        r@ == s@,
{
    let n = s.unicode_len();
    let mut r: Vec<char> = Vec::new();
    let mut i: usize = 0;
    while i < n
        invariant
            n == s@.len(),
            i <= n,
            r@ == s@.take(i as int),
        decreases n - i,
    {
        r.push(s.get_char(i));
        i = i + 1;
        assert(r@ =~= s@.take(i as int));
    }
    assert(r@ =~= s@);
    r
}

fn skip_white_space(c: &Vec<char>, a: usize, b: usize) -> (r: usize)
    requires
        a <= b <= c@.len(),
    ensures
        a <= r <= b,
        c@.subrange(r as int, b as int) == trim_start(c@.subrange(a as int, b as int)),
        r < b ==> !is_white_space(c@[r as int]),
{
    let mut i = a;
    while i < b && is_white_space_char(c[i])
        invariant
            a <= i <= b <= c@.len(),
            trim_start(c@.subrange(i as int, b as int)) == trim_start(
                c@.subrange(a as int, b as int),
            ),
        decreases b - i,
    {
        assert(c@.subrange(i as int, b as int).drop_first() =~= c@.subrange(
            i + 1,
            b as int,
        ));
        i = i + 1;
    }
    i
}

fn trim_white_space_end(c: &Vec<char>, a: usize, b: usize) -> (r: usize)
    requires
        a <= b <= c@.len(),
    ensures
        a <= r <= b,
        c@.subrange(a as int, r as int) == trim_end(c@.subrange(a as int, b as int)),
{
    let mut j = b;
    while j > a && is_white_space_char(c[j - 1])
        invariant
            a <= j <= b <= c@.len(),
            trim_end(c@.subrange(a as int, j as int)) == trim_end(
                c@.subrange(a as int, b as int),
            ),
        decreases j,
    {
        assert(c@.subrange(a as int, j as int).drop_last() =~= c@.subrange(
            a as int,
            j - 1,
        ));
        j = j - 1;
    }
    j
}

fn find_white_space(c: &Vec<char>, a: usize, b: usize) -> (r: usize)
    requires
        a <= b <= c@.len(),
    ensures
        a <= r <= b,
        c@.subrange(a as int, r as int) == until_white_space(c@.subrange(a as int, b as int)),
{
    let mut i = a;
    while i < b && !is_white_space_char(c[i])
        invariant
            a <= i <= b <= c@.len(),
            until_white_space(c@.subrange(a as int, b as int)) == c@.subrange(a as int, i as int)
                + until_white_space(c@.subrange(i as int, b as int)),
        decreases b - i,
    {
        let ghost s = c@.subrange(i as int, b as int);
        assert(s.drop_first() =~= c@.subrange(i + 1, b as int));
        assert(c@.subrange(a as int, i as int) + seq![s[0]] =~= c@.subrange(a as int, i + 1));
        assert(c@.subrange(a as int, i as int) + until_white_space(s) =~= c@.subrange(
            a as int,
            i + 1,
        ) + until_white_space(c@.subrange(i + 1, b as int)));
        i = i + 1;
    }
    assert(c@.subrange(a as int, i as int) + until_white_space(c@.subrange(i as int, b as int))
        =~= c@.subrange(a as int, i as int));
    i
}

fn skip_at_signs(c: &Vec<char>, a: usize, b: usize) -> (r: usize)
    requires
        a <= b <= c@.len(),
    ensures
        a <= r <= b,
        c@.subrange(r as int, b as int) == strip_at(c@.subrange(a as int, b as int)),
{
    let mut i = a;
    while i < b && c[i] == '@'
        invariant
            a <= i <= b <= c@.len(),
            strip_at(c@.subrange(i as int, b as int)) == strip_at(c@.subrange(a as int, b as int)),
        decreases b - i,
    {
        assert(c@.subrange(i as int, b as int).drop_first() =~= c@.subrange(
            i + 1,
            b as int,
        ));
        i = i + 1;
    }
    i
}

/// Parses the clause `q[a..b)`.
fn parse_one<'a>(q: &'a str, c: &Vec<char>, a: usize, b: usize) -> (r: Option<Search<'a>>)
    requires
        c@ == q@,
        a <= b <= c@.len(),
    ensures
        match r {
            Some(s) => parse_clause(c@.subrange(a as int, b as int)) == Some(s.pair()),
            None => parse_clause(c@.subrange(a as int, b as int)) is None,
        },
{
    let ghost whole = c@.subrange(a as int, b as int);
    let s = skip_white_space(c, a, b);
    let e = trim_white_space_end(c, s, b);
    assert(c@.subrange(s as int, e as int) == trim(whole));
    let m = find_white_space(c, s, e);
    let ghost t = c@.subrange(s as int, e as int);
    assert(t.skip((m - s) as int) =~= c@.subrange(m as int, e as int));
    let vs = skip_white_space(c, m, e);
    let ve = trim_white_space_end(c, vs, e);
    assert(c@.subrange(vs as int, ve as int) == trim(c@.subrange(m as int, e as int)));
    if m == s || m == e || vs == ve {
        return None;
    }
    let cs = skip_at_signs(c, s, m);
    let column = q.substring_char(cs, m);
    let value = q.substring_char(vs, ve);
    Some(Search { column, value })
}

/// Splits a search query into (column, value) predicates.
pub fn parse_search_query<'a>(query: &'a str) -> (r: Vec<Search<'a>>)
    ensures
        r@.map_values(|s: Search<'a>| s.pair()) == parse_query(query@),
{
    let c = chars_of(query);
    let n = c.len();
    let mut out: Vec<Search<'a>> = Vec::new();
    let mut start: usize = 0;
    let mut i: usize = 0;
    let ghost mut done: Seq<Seq<char>> = Seq::empty();
    assert(c@.take(0) =~= Seq::<char>::empty());
    assert(c@.subrange(0, 0) =~= Seq::<char>::empty());
    assert(done.push(c@.subrange(0, 0)) =~= seq![Seq::<char>::empty()]);
    while i < n
        invariant
            c@ == query@,
            n == c@.len(),
            start <= i <= n,
            split_commas(c@.take(i as int)) == done.push(c@.subrange(start as int, i as int)),
            out@.map_values(|s: Search<'a>| s.pair()) == parse_clauses(done),
        decreases n - i,
    {
        let ghost pre = c@.take(i as int);
        assert(c@.take(i + 1).drop_last() =~= pre);
        if c[i] == ',' {
            let p = parse_one(query, &c, start, i);
            let ghost old_out = out@;
            proof {
                assert(done.push(c@.subrange(start as int, i as int)).drop_last() =~= done);
            }
            match p {
                Some(s) => {
                    out.push(s);
                    assert(out@.map_values(|s: Search<'a>| s.pair()) =~= old_out.map_values(
                        |s: Search<'a>| s.pair(),
                    ).push(s.pair()));
                },
                None => {},
            }
            proof {
                done = done.push(c@.subrange(start as int, i as int));
                assert(c@.subrange(i + 1, i + 1) =~= Seq::<char>::empty());
            }
            start = i + 1;
        } else {
            proof {
                assert(c@.subrange(start as int, i as int).push(c@[i as int]) =~= c@.subrange(
                    start as int,
                    i + 1,
                ));
                assert(done.push(c@.subrange(start as int, i as int)).update(
                    done.len() as int,
                    c@.subrange(start as int, i + 1),
                ) =~= done.push(c@.subrange(start as int, i + 1)));
            }
        }
        i = i + 1;
    }
    assert(c@.take(n as int) =~= c@);
    let p = parse_one(query, &c, start, n);
    let ghost old_out = out@;
    proof {
        assert(done.push(c@.subrange(start as int, n as int)).drop_last() =~= done);
    }
    match p {
        Some(s) => {
            out.push(s);
            assert(out@.map_values(|s: Search<'a>| s.pair()) =~= old_out.map_values(
                |s: Search<'a>| s.pair(),
            ).push(s.pair()));
        },
        None => {},
    }
    out
}

} // verus!
