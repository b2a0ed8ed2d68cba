use vstd::prelude::*;
use vstd::string::StringSliceAdditionalSpecFns;
use crate::day24::{ascii_string, comma_join, join_with_commas, name_order, sort_names};

verus! {

/// Number of two-letter computer names.
pub const NAMES: usize = 676;

pub open spec fn is_lower(b: u8) -> bool {
    97 <= b <= 122
}

/// The index of the computer named by the two letters at `k`.
pub open spec fn name_at(s: Seq<u8>, k: int) -> Option<int> {
    if 0 <= k && k + 1 < s.len() && is_lower(s[k]) && is_lower(s[k + 1]) {
        Some((s[k] - 97) * 26 + (s[k + 1] - 97))
    } else {
        None
    }
}

/// The links listed from `i` on, one `ab-cd` line each.
pub open spec fn links_from(s: Seq<u8>, i: int) -> Option<Seq<(int, int)>>
    decreases s.len() - i,
{
    if i == s.len() {
        Some(Seq::empty())
    } else if i < 0 || i + 6 > s.len() || s[i + 2] != 45 || s[i + 5] != 10 {
        None
    } else {
        match (name_at(s, i), name_at(s, i + 3)) {
            (Some(a), Some(b)) => match links_from(s, i + 6) {
                Some(rest) => Some(seq![(a, b)] + rest),
                None => None,
            },
            _ => None,
        }
    }
}

/// Computers `a` and `b` are linked, in either direction.
pub open spec fn linked(l: Seq<(int, int)>, a: int, b: int) -> bool {
    exists|j: int| 0 <= j < l.len() && (#[trigger] l[j] == (a, b) || l[j] == (b, a))
}

/// The name of computer `a` starts with `t`.
pub open spec fn starts_with_t(a: int) -> bool {
    a / 26 == 19
}

/// Computers `a`, `b`, `c` are linked to each other and one of their names
/// starts with `t`.
pub open spec fn counted(l: Seq<(int, int)>, a: int, b: int, c: int) -> bool {
    &&& linked(l, a, b)
    &&& linked(l, b, c)
    &&& linked(l, a, c)
    &&& (starts_with_t(a) || starts_with_t(b) || starts_with_t(c))
}

/// How many `c` with `b < c < k` complete a counted triangle with `a`, `b`.
pub open spec fn count_c(l: Seq<(int, int)>, a: int, b: int, k: int) -> nat
    decreases k - b,
{
    if k <= b + 1 {
        0
    } else {
        count_c(l, a, b, k - 1) + if counted(l, a, b, k - 1) {
            1nat
        } else {
            0nat
        }
    }
}

/// Counted triangles `a < b < c` with `b < k`.
pub open spec fn count_b(l: Seq<(int, int)>, a: int, k: int) -> nat
    decreases k - a,
{
    if k <= a + 1 {
        0
    } else {
        count_b(l, a, k - 1) + count_c(l, a, k - 1, NAMES as int)
    }
}

/// Counted triangles `a < b < c` with `a < k`.
pub open spec fn count_a(l: Seq<(int, int)>, k: int) -> nat
    decreases k,
{
    if k <= 0 {
        0
    } else {
        count_a(l, k - 1) + count_b(l, k - 1, NAMES as int)
    }
}

proof fn lemma_count_c_zero(l: Seq<(int, int)>, a: int, b: int, k: int)
    requires
        !linked(l, a, b),
    ensures
        count_c(l, a, b, k) == 0,
    decreases k - b,
{
    if k > b + 1 {
        lemma_count_c_zero(l, a, b, k - 1);
    }
}

proof fn lemma_count_c_bound(l: Seq<(int, int)>, a: int, b: int, k: int)
    ensures
        count_c(l, a, b, k) <= if k > b {
            k - b
        } else {
            0
        },
    decreases k - b,
{
    if k > b + 1 {
        lemma_count_c_bound(l, a, b, k - 1);
    }
}

proof fn lemma_count_b_bound(l: Seq<(int, int)>, a: int, k: int)
    requires
        0 <= a,
        0 <= k <= NAMES,
    ensures
        count_b(l, a, k) <= k * NAMES,
    decreases k - a,
{
    if k > a + 1 {
        lemma_count_b_bound(l, a, k - 1);
        lemma_count_c_bound(l, a, k - 1, NAMES as int);
    }
}

proof fn lemma_count_a_bound(l: Seq<(int, int)>, k: int)
    requires
        0 <= k <= NAMES,
    ensures
        count_a(l, k) <= k * NAMES * NAMES,
    decreases k,
{
    if k > 0 {
        lemma_count_a_bound(l, k - 1);
        lemma_count_b_bound(l, k - 1, NAMES as int);
        assert((k - 1) * NAMES * NAMES + NAMES * NAMES == k * NAMES * NAMES) by (nonlinear_arith);
    }
}

fn read_name(s: &[u8], k: usize) -> (r: Option<usize>)
    ensures
        match name_at(s@, k as int) {
            Some(v) => r == Some(v as usize) && v < NAMES,
            None => r is None,
        },
{
    if k < s.len() && k + 1 < s.len() && 97 <= s[k] && s[k] <= 122 && 97 <= s[k + 1] && s[k + 1]
        <= 122 {
        Some((s[k] - 97) as usize * 26 + (s[k + 1] - 97) as usize)
    } else {
        None
    }
}

/// The link table: entry `a * NAMES + b` tells whether `a` and `b` are
/// linked; `None` where the input is not a list of links.
fn link_table(s: &[u8]) -> (r: Option<Vec<bool>>)
    ensures
        match links_from(s@, 0) {
            Some(l) => r is Some && r->Some_0.len() == NAMES * NAMES && forall|a: int, b: int|
                0 <= a < NAMES && 0 <= b < NAMES ==> #[trigger] r->Some_0@[a * NAMES + b]
                    == linked(l, a, b),
            None => r is None,
        },
{
    let mut adj: Vec<bool> = Vec::new();
    let mut j: usize = 0;
    while j < NAMES * NAMES
        invariant
            j <= NAMES * NAMES,
            adj.len() == j,
            forall|q: int| 0 <= q < j ==> !#[trigger] adj@[q],
        decreases NAMES * NAMES - j,
    {
        adj.push(false);
        j = j + 1;
    }
    let mut i: usize = 0;
    let ghost mut done: Seq<(int, int)> = Seq::empty();
    while i < s.len()
        invariant
            i <= s.len(),
            adj.len() == NAMES * NAMES,
            links_from(s@, 0) == match links_from(s@, i as int) {
                Some(rest) => Some(done + rest),
                None => None::<Seq<(int, int)>>,
            },
            forall|a: int, b: int|
                0 <= a < NAMES && 0 <= b < NAMES ==> #[trigger] adj@[a * NAMES + b] == linked(
                    done,
                    a,
                    b,
                ),
        decreases s.len() - i,
    {
        if s.len() - i < 6 || s[i + 2] != 45 || s[i + 5] != 10 {
            return None;
        }
        let a = match read_name(s, i) {
            Some(a) => a,
            None => {
                return None;
            },
        };
        let b = match read_name(s, i + 3) {
            Some(b) => b,
            None => {
                return None;
            },
        };
        let ghost before = adj@;
        adj.set(a * NAMES + b, true);
        adj.set(b * NAMES + a, true);
        proof {
            let next = done.push((a as int, b as int));
            assert forall|x: int, y: int| 0 <= x < NAMES && 0 <= y < NAMES implies #[trigger] adj@[x
                * NAMES + y] == linked(next, x, y) by {
                if linked(done, x, y) {
                    let q = choose|q: int|
                        0 <= q < done.len() && (#[trigger] done[q] == (x, y) || done[q] == (y, x));
                    assert(next[q] == done[q]);
                }
                if linked(next, x, y) {
                    let q = choose|q: int|
                        0 <= q < next.len() && (#[trigger] next[q] == (x, y) || next[q] == (y, x));
                    if q < done.len() {
                        assert(done[q] == next[q]);
                    }
                }
                if (x, y) == (a as int, b as int) || (y, x) == (a as int, b as int) {
                    assert(next[done.len() as int] == (a as int, b as int));
                }
                if x * NAMES + y == a * NAMES + b {
                    assert(x == a && y == b) by (nonlinear_arith)
                        requires
                            x * 676 + y == a * 676 + b,
                            0 <= x < 676,
                            0 <= y < 676,
                            0 <= a < 676,
                            0 <= b < 676,
                    ;
                }
                if x * NAMES + y == b * NAMES + a {
                    assert(x == b && y == a) by (nonlinear_arith)
                        requires
                            x * 676 + y == b * 676 + a,
                            0 <= x < 676,
                            0 <= y < 676,
                            0 <= a < 676,
                            0 <= b < 676,
                    ;
                }
            }
            match links_from(s@, i + 6) {
                Some(rest) => {
                    assert(done + (seq![(a as int, b as int)] + rest) =~= next + rest);
                },
                None => {},
            }
            done = next;
        }
        i = i + 6;
    }
    proof {
        assert(done + Seq::<(int, int)>::empty() =~= done);
    }
    Some(adj)
}

/// How many sets of three computers are linked to each other and hold a
/// computer whose name starts with `t`; `None` where the input is not a
/// list of `ab-cd` links, one per line.
pub fn part1(input: &str) -> (r: Option<u64>)
    ensures
        match links_from(input.spec_bytes(), 0) {
            Some(l) => r == Some(count_a(l, NAMES as int) as u64),
            None => r is None,
        },
{
    inner_part1(input.as_bytes())
}

/// The number of counted triangles, as `part1` says, from the bytes of the
/// input.
pub fn inner_part1(s: &[u8]) -> (r: Option<u64>)
    ensures
        match links_from(s@, 0) {
            Some(l) => r == Some(count_a(l, NAMES as int) as u64),
            None => r is None,
        },
{
    let adj = link_table(s)?;
    let ghost l = links_from(s@, 0)->Some_0;
    let mut total: u64 = 0;
    let mut a: usize = 0;
    while a < NAMES
        invariant
            a <= NAMES,
            adj.len() == NAMES * NAMES,
            forall|x: int, y: int|
                0 <= x < NAMES && 0 <= y < NAMES ==> #[trigger] adj@[x * NAMES + y] == linked(l, x, y),
            total == count_a(l, a as int),
            total <= a * NAMES * NAMES,
        decreases NAMES - a,
    {
        let mut b: usize = a + 1;
        let mut tb: u64 = 0;
        while b < NAMES
            invariant
                a < NAMES,
                a + 1 <= b <= NAMES,
                adj.len() == NAMES * NAMES,
                forall|x: int, y: int|
                    0 <= x < NAMES && 0 <= y < NAMES ==> #[trigger] adj@[x * NAMES + y] == linked(
                        l,
                        x,
                        y,
                    ),
                tb == count_b(l, a as int, b as int),
                tb <= b * NAMES,
            decreases NAMES - b,
        {
            let mut tc: u64 = 0;
            if adj[a * NAMES + b] {
                let mut c: usize = b + 1;
                while c < NAMES
                    invariant
                        a < b < NAMES,
                        b + 1 <= c <= NAMES,
                        adj.len() == NAMES * NAMES,
                        forall|x: int, y: int|
                            0 <= x < NAMES && 0 <= y < NAMES ==> #[trigger] adj@[x * NAMES + y]
                                == linked(l, x, y),
                        linked(l, a as int, b as int),
                        tc == count_c(l, a as int, b as int, c as int),
                        tc <= c - b,
                    decreases NAMES - c,
                {
                    if adj[b * NAMES + c] && adj[a * NAMES + c] && (a / 26 == 19 || b / 26 == 19 || c
                        / 26 == 19) {
                        tc = tc + 1;
                    }
                    c = c + 1;
                }
            } else {
                proof {
                    lemma_count_c_zero(l, a as int, b as int, NAMES as int);
                }
            }
            proof {
                lemma_count_c_bound(l, a as int, b as int, NAMES as int);
            }
            tb = tb + tc;
            b = b + 1;
        }
        proof {
            lemma_count_b_bound(l, a as int, NAMES as int);
            assert(count_b(l, a as int, NAMES as int) == count_b(l, a as int, b as int));
            assert(a * NAMES * NAMES + NAMES * NAMES == (a + 1) * NAMES * NAMES) by (nonlinear_arith);
        }
        total = total + tb;
        a = a + 1;
    }
    Some(total)
}

/// The neighbours of `a`, in the order their links are listed.
pub open spec fn neighbours(l: Seq<(int, int)>, a: int) -> Seq<int>
    decreases l.len(),
{
    if l.len() == 0 {
        Seq::empty()
    } else {
        let prev = neighbours(l.drop_last(), a);
        let (x, y) = l.last();
        let with_x = if x == a {
            prev.push(y)
        } else {
            prev
        };
        if y == a {
            with_x.push(x)
        } else {
            with_x
        }
    }
}

/// The computers in the order they first appear in the links.
pub open spec fn computers(l: Seq<(int, int)>) -> Seq<int>
    decreases l.len(),
{
    if l.len() == 0 {
        Seq::empty()
    } else {
        let prev = computers(l.drop_last());
        let (x, y) = l.last();
        let with_x = if prev.contains(x) {
            prev
        } else {
            prev.push(x)
        };
        if with_x.contains(y) {
            with_x
        } else {
            with_x.push(y)
        }
    }
}

/// `e` is linked to every computer of `set`.
pub open spec fn joins(l: Seq<(int, int)>, set: Seq<int>, e: int) -> bool {
    forall|i: int| 0 <= i < set.len() ==> linked(l, e, #[trigger] set[i])
}

/// The first of `nb[j..]` linked to every computer of `set`.
pub open spec fn first_joining(l: Seq<(int, int)>, set: Seq<int>, nb: Seq<int>, j: int) -> Option<int>
    decreases nb.len() - j,
{
    if j < 0 || j >= nb.len() {
        None
    } else if joins(l, set, nb[j]) {
        Some(nb[j])
    } else {
        first_joining(l, set, nb, j + 1)
    }
}

/// The group grown greedily from `set` through `s`: `s` joins it, and the
/// growth goes on from the first neighbour of `s` linked to all of it.
pub open spec fn grow(l: Seq<(int, int)>, s: int, set: Seq<int>) -> Seq<int>
    decreases NAMES - set.len(),
{
    if set.contains(s) || set.len() >= NAMES {
        set
    } else {
        let bigger = set.push(s);
        match first_joining(l, bigger, neighbours(l, s), 0) {
            Some(e) => grow(l, e, bigger),
            None => bigger,
        }
    }
}

/// The groups grown from the first `k` computers, skipping a computer that
/// an earlier group already holds.
pub open spec fn groups(l: Seq<(int, int)>, ks: Seq<int>, k: int) -> Seq<Seq<int>>
    decreases k,
{
    if k <= 0 {
        Seq::empty()
    } else {
        let prev = groups(l, ks, k - 1);
        if exists|g: int| 0 <= g < prev.len() && #[trigger] prev[g].contains(ks[k - 1]) {
            prev
        } else {
            prev.push(grow(l, ks[k - 1], Seq::empty()))
        }
    }
}

/// The index of the first longest group among `gs[..k]`.
pub open spec fn largest(gs: Seq<Seq<int>>, k: int) -> int
    decreases k,
{
    if k <= 1 {
        0
    } else if gs[k - 1].len() > gs[largest(gs, k - 1)].len() {
        k - 1
    } else {
        largest(gs, k - 1)
    }
}

/// The two characters of the name of computer `a`.
pub open spec fn computer_name(a: u32) -> Seq<char> {
    seq![((97 + a / 26) as u8) as char, ((97 + a % 26) as u8) as char]
}

/// Computer numbers as integers.
pub open spec fn ints(v: Seq<u32>) -> Seq<int> {
    v.map_values(|x: u32| x as int)
}

/// The links of the text, as computer numbers, as `links_from` says.
fn parse_links(s: &[u8]) -> (r: Option<Vec<(u32, u32)>>)
    ensures
        match links_from(s@, 0) {
            Some(l) => r is Some && r->Some_0.len() == l.len() && forall|j: int|
                0 <= j < l.len() ==> (#[trigger] r->Some_0@[j]).0 as int == l[j].0 && r->Some_0@[j].1
                    as int == l[j].1 && r->Some_0@[j].0 < NAMES && r->Some_0@[j].1 < NAMES,
            None => r is None,
        },
{
    let mut out: Vec<(u32, u32)> = Vec::new();
    let mut i: usize = 0;
    let ghost mut done: Seq<(int, int)> = Seq::empty();
    while i < s.len()
        invariant
            i <= s.len(),
            out.len() == done.len(),
            forall|j: int|
                0 <= j < done.len() ==> (#[trigger] out@[j]).0 as int == done[j].0 && out@[j].1 as int
                    == done[j].1 && out@[j].0 < NAMES && out@[j].1 < NAMES,
            links_from(s@, 0) == match links_from(s@, i as int) {
                Some(rest) => Some(done + rest),
                None => None::<Seq<(int, int)>>,
            },
        decreases s.len() - i,
    {
        if s.len() - i < 6 || s[i + 2] != 45 || s[i + 5] != 10 {
            return None;
        }
        let a = match read_name(s, i) {
            Some(a) => a,
            None => {
                return None;
            },
        };
        let b = match read_name(s, i + 3) {
            Some(b) => b,
            None => {
                return None;
            },
        };
        out.push((a as u32, b as u32));
        proof {
            let next = done.push((a as int, b as int));
            match links_from(s@, i + 6) {
                Some(rest) => {
                    assert(done + (seq![(a as int, b as int)] + rest) =~= next + rest);
                },
                None => {},
            }
            done = next;
        }
        i = i + 6;
    }
    proof {
        assert(done + Seq::<(int, int)>::empty() =~= done);
    }
    Some(out)
}

/// The neighbours of `a` among `links`, as `neighbours` says.
fn neighbour_list(links: &Vec<(u32, u32)>, a: u32, Ghost(l): Ghost<Seq<(int, int)>>) -> (r: Vec<u32>)
    requires
        links.len() == l.len(),
        forall|j: int|
            0 <= j < l.len() ==> (#[trigger] links@[j]).0 as int == l[j].0 && links@[j].1 as int
                == l[j].1 && links@[j].0 < NAMES && links@[j].1 < NAMES,
    ensures
        ints(r@) == neighbours(l, a as int),
        forall|i: int| 0 <= i < r.len() ==> #[trigger] r@[i] < NAMES,
{
    let mut r: Vec<u32> = Vec::new();
    let mut j: usize = 0;
    assert(l.subrange(0, 0) =~= Seq::<(int, int)>::empty());
    assert(ints(r@) =~= Seq::<int>::empty());
    while j < links.len()
        invariant
            links.len() == l.len(),
            forall|q: int|
                0 <= q < l.len() ==> (#[trigger] links@[q]).0 as int == l[q].0 && links@[q].1 as int
                    == l[q].1 && links@[q].0 < NAMES && links@[q].1 < NAMES,
            j <= l.len(),
            ints(r@) == neighbours(l.subrange(0, j as int), a as int),
            forall|i: int| 0 <= i < r.len() ==> #[trigger] r@[i] < NAMES,
        decreases l.len() - j,
    {
        let (x, y) = links[j];
        let ghost before = r@;
        if x == a {
            r.push(y);
        }
        let ghost mid = r@;
        if y == a {
            r.push(x);
        }
        proof {
            let sub = l.subrange(0, j + 1);
            assert(sub.drop_last() =~= l.subrange(0, j as int));
            assert(sub.last() == l[j as int]);
            if x == a {
                assert(ints(mid) =~= ints(before).push(y as int));
            } else {
                assert(mid == before);
            }
            if y == a {
                assert(ints(r@) =~= ints(mid).push(x as int));
            }
        }
        j = j + 1;
    }
    proof {
        assert(l.subrange(0, l.len() as int) =~= l);
    }
    r
}

/// The computers linked to each other that `adj` records: entry
/// `a * NAMES + b` tells whether `a` and `b` are linked in `l`.
pub open spec fn table_of(adj: Seq<bool>, l: Seq<(int, int)>) -> bool {
    &&& adj.len() == NAMES * NAMES
    &&& forall|a: int, b: int|
        0 <= a < NAMES && 0 <= b < NAMES ==> #[trigger] adj[a * NAMES + b] == linked(l, a, b)
}

/// The links `links` hold `l`, with computer numbers below `NAMES`.
pub open spec fn links_of(links: Seq<(u32, u32)>, l: Seq<(int, int)>) -> bool {
    &&& links.len() == l.len()
    &&& forall|j: int|
        0 <= j < l.len() ==> (#[trigger] links[j]).0 as int == l[j].0 && links[j].1 as int == l[j].1
            && links[j].0 < NAMES && links[j].1 < NAMES
}

pub open spec fn all_names(v: Seq<u32>) -> bool {
    forall|i: int| 0 <= i < v.len() ==> #[trigger] v[i] < NAMES
}

fn holds(v: &Vec<u32>, x: u32) -> (r: bool)
    ensures
        r == ints(v@).contains(x as int),
{
    let mut i: usize = 0;
    while i < v.len()
        invariant
            i <= v.len(),
            forall|j: int| 0 <= j < i ==> v@[j] != x,
        decreases v.len() - i,
    {
        if v[i] == x {
            proof {
                assert(ints(v@)[i as int] == x as int);
            }
            return true;
        }
        i = i + 1;
    }
    proof {
        if ints(v@).contains(x as int) {
            let j = choose|j: int| 0 <= j < ints(v@).len() && ints(v@)[j] == x as int;
            assert(v@[j] == x);
        }
    }
    false
}

fn joins_exec(adj: &Vec<bool>, set: &Vec<u32>, e: u32, Ghost(l): Ghost<Seq<(int, int)>>) -> (r: bool)
    requires
        table_of(adj@, l),
        e < NAMES,
        all_names(set@),
    ensures
        r == joins(l, ints(set@), e as int),
{
    let mut i: usize = 0;
    while i < set.len()
        invariant
            table_of(adj@, l),
            e < NAMES,
            all_names(set@),
            i <= set.len(),
            forall|q: int| 0 <= q < i ==> linked(l, e as int, #[trigger] ints(set@)[q]),
        decreases set.len() - i,
    {
        let x = set[i];
        proof {
            assert(x < NAMES);
        }
        if !adj[e as usize * NAMES + x as usize] {
            proof {
                assert(!linked(l, e as int, ints(set@)[i as int]));
            }
            return false;
        }
        i = i + 1;
    }
    true
}

/// Grows `set` from `s`, as `grow` says.
fn grow_exec(
    adj: &Vec<bool>,
    links: &Vec<(u32, u32)>,
    s: u32,
    set: &mut Vec<u32>,
    Ghost(l): Ghost<Seq<(int, int)>>,
)
    requires
        table_of(adj@, l),
        links_of(links@, l),
        s < NAMES,
        all_names(old(set)@),
    ensures
        ints(final(set)@) == grow(l, s as int, ints(old(set)@)),
        all_names(final(set)@),
    decreases NAMES - old(set).len(),
{
    if holds(set, s) || set.len() >= NAMES {
        return;
    }
    let ghost before = ints(set@);
    set.push(s);
    proof {
        assert(ints(set@) =~= before.push(s as int));
    }
    let nb = neighbour_list(links, s, Ghost(l));
    let mut j: usize = 0;
    while j < nb.len()
        invariant
            table_of(adj@, l),
            links_of(links@, l),
            all_names(set@),
            all_names(nb@),
            ints(set@) == before.push(s as int),
            before == ints(old(set)@),
            !before.contains(s as int),
            set.len() == old(set).len() + 1,
            before.len() < NAMES,
            ints(nb@) == neighbours(l, s as int),
            j <= nb.len(),
            first_joining(l, ints(set@), ints(nb@), 0) == first_joining(
                l,
                ints(set@),
                ints(nb@),
                j as int,
            ),
        decreases nb.len() - j,
    {
        let e = nb[j];
        if joins_exec(adj, set, e, Ghost(l)) {
            proof {
                assert(ints(nb@)[j as int] == e as int);
            }
            grow_exec(adj, links, e, set, Ghost(l));
            return;
        }
        proof {
            assert(ints(nb@)[j as int] == e as int);
        }
        j = j + 1;
    }
}

/// The computers in order of first appearance, as `computers` says.
fn computer_list(links: &Vec<(u32, u32)>, Ghost(l): Ghost<Seq<(int, int)>>) -> (r: Vec<u32>)
    requires
        links_of(links@, l),
    ensures
        ints(r@) == computers(l),
        all_names(r@),
{
    let mut r: Vec<u32> = Vec::new();
    let mut j: usize = 0;
    assert(l.subrange(0, 0) =~= Seq::<(int, int)>::empty());
    assert(ints(r@) =~= Seq::<int>::empty());
    while j < links.len()
        invariant
            links_of(links@, l),
            j <= l.len(),
            ints(r@) == computers(l.subrange(0, j as int)),
            all_names(r@),
        decreases l.len() - j,
    {
        let (x, y) = links[j];
        let ghost before = ints(r@);
        if !holds(&r, x) {
            r.push(x);
            proof {
                assert(ints(r@) =~= before.push(x as int));
            }
        }
        let ghost mid = ints(r@);
        if !holds(&r, y) {
            r.push(y);
            proof {
                assert(ints(r@) =~= mid.push(y as int));
            }
        }
        proof {
            let sub = l.subrange(0, j + 1);
            assert(sub.drop_last() =~= l.subrange(0, j as int));
            assert(sub.last() == l[j as int]);
        }
        j = j + 1;
    }
    proof {
        assert(l.subrange(0, l.len() as int) =~= l);
    }
    r
}

/// Computer numbers back from integers.
pub open spec fn as_u32(v: Seq<int>) -> Seq<u32> {
    v.map_values(|x: int| x as u32)
}

/// The answer for groups `gs`: the names of the first largest group, in
/// order, with a comma between each two; empty where there is no group.
pub open spec fn password(gs: Seq<Seq<int>>) -> Seq<char> {
    if gs.len() == 0 {
        Seq::empty()
    } else {
        comma_join(
            as_u32(gs[largest(gs, gs.len() as int)]).sort_by(name_order()).map_values(
                |w: u32| computer_name(w),
            ),
        )
    }
}

/// The groups grown from the computers in `keys`, as `groups` says.
fn group_list(
    adj: &Vec<bool>,
    links: &Vec<(u32, u32)>,
    keys: &Vec<u32>,
    Ghost(l): Ghost<Seq<(int, int)>>,
) -> (r: Vec<Vec<u32>>)
    requires
        table_of(adj@, l),
        links_of(links@, l),
        all_names(keys@),
    ensures
        r.len() == groups(l, ints(keys@), keys.len() as int).len(),
        forall|g: int|
            0 <= g < r.len() ==> ints(#[trigger] r@[g]@) == groups(l, ints(keys@), keys.len() as int)[g]
                && all_names(r@[g]@),
{
    let ghost ks = ints(keys@);
    let mut gs: Vec<Vec<u32>> = Vec::new();
    let mut k: usize = 0;
    while k < keys.len()
        invariant
            table_of(adj@, l),
            links_of(links@, l),
            all_names(keys@),
            ks == ints(keys@),
            k <= keys.len(),
            gs.len() == groups(l, ks, k as int).len(),
            forall|g: int|
                0 <= g < gs.len() ==> ints(#[trigger] gs@[g]@) == groups(l, ks, k as int)[g]
                    && all_names(gs@[g]@),
        decreases keys.len() - k,
    {
        let key = keys[k];
        let ghost prev = groups(l, ks, k as int);
        proof {
            assert(ks[k as int] == key as int);
        }
        let mut found = false;
        let mut g: usize = 0;
        while g < gs.len() && !found
            invariant
                g <= gs.len(),
                gs.len() == prev.len(),
                forall|q: int| 0 <= q < gs.len() ==> ints(#[trigger] gs@[q]@) == prev[q],
                found ==> exists|q: int| 0 <= q < prev.len() && #[trigger] prev[q].contains(key as int),
                !found ==> forall|q: int| 0 <= q < g ==> !(#[trigger] prev[q]).contains(key as int),
            decreases gs.len() - g + if found {
                0int
            } else {
                1int
            },
        {
            if holds(&gs[g], key) {
                found = true;
                proof {
                    assert(prev[g as int].contains(key as int));
                }
            } else {
                g = g + 1;
            }
        }
        if !found {
            let mut set: Vec<u32> = Vec::new();
            proof {
                assert(ints(set@) =~= Seq::<int>::empty());
            }
            grow_exec(adj, links, key, &mut set, Ghost(l));
            gs.push(set);
        }
        proof {
            assert forall|g: int|
                0 <= g < gs.len() implies ints(#[trigger] gs@[g]@) == groups(l, ks, k + 1)[g] by {
            }
        }
        k = k + 1;
    }
    gs
}

/// The index of the first longest group, as `largest` says.
fn largest_exec(gs: &Vec<Vec<u32>>, Ghost(spec_gs): Ghost<Seq<Seq<int>>>) -> (r: usize)
    requires
        gs.len() == spec_gs.len(),
        gs.len() > 0,
        forall|g: int| 0 <= g < gs.len() ==> ints(#[trigger] gs@[g]@) == spec_gs[g],
    ensures
        r as int == largest(spec_gs, spec_gs.len() as int),
        r < gs.len(),
{
    let mut best: usize = 0;
    let mut k: usize = 1;
    while k < gs.len()
        invariant
            gs.len() == spec_gs.len(),
            forall|g: int| 0 <= g < gs.len() ==> ints(#[trigger] gs@[g]@) == spec_gs[g],
            1 <= k <= gs.len(),
            best < k,
            best as int == largest(spec_gs, k as int),
        decreases gs.len() - k,
    {
        proof {
            assert(ints(gs@[k as int]@).len() == gs@[k as int]@.len());
            assert(ints(gs@[best as int]@).len() == gs@[best as int]@.len());
        }
        if gs[k].len() > gs[best].len() {
            best = k;
        }
        k = k + 1;
    }
    best
}

/// The password of the LAN party: the names of the computers of the largest
/// group grown greedily, in order, joined with commas; `None` where the
/// input is not a list of `ab-cd` links, one per line.
pub fn part2(input: &str) -> (r: Option<String>)
    ensures
        match links_from(input.spec_bytes(), 0) {
            Some(l) => r is Some && r->Some_0@ == password(
                groups(l, computers(l), computers(l).len() as int),
            ),
            None => r is None,
        },
{
    let s = input.as_bytes();
    let links = match parse_links(s) {
        Some(x) => x,
        None => {
            return None;
        },
    };
    let adj = match link_table(s) {
        Some(x) => x,
        None => {
            return None;
        },
    };
    let ghost l = links_from(s@, 0)->Some_0;
    let keys = computer_list(&links, Ghost(l));
    let gs = group_list(&adj, &links, &keys, Ghost(l));
    let ghost spec_gs = groups(l, computers(l), computers(l).len() as int);
    if gs.len() == 0 {
        return Some(String::new());
    }
    let best = largest_exec(&gs, Ghost(spec_gs));
    let sorted = sort_names(&gs[best]);
    let mut parts: Vec<String> = Vec::new();
    let mut k: usize = 0;
    while k < sorted.len()
        invariant
            k <= sorted.len(),
            parts.len() == k,
            all_names(gs@[best as int]@),
            forall|i: int| 0 <= i < sorted.len() ==> gs@[best as int]@.contains(#[trigger] sorted@[i]),
            forall|i: int| 0 <= i < k ==> (#[trigger] parts@[i])@ == computer_name(sorted@[i]),
        decreases sorted.len() - k,
    {
        let w = sorted[k];
        proof {
            assert(gs@[best as int]@.contains(w));
            let q = choose|q: int| 0 <= q < gs@[best as int]@.len() && gs@[best as int]@[q] == w;
            assert(w < NAMES);
        }
        let bytes: Vec<u8> = vec![(97 + w / 26) as u8, (97 + w % 26) as u8];
        let text = ascii_string(&bytes);
        proof {
            assert(text@ =~= computer_name(w));
        }
        parts.push(text);
        k = k + 1;
    }
    proof {
        let v = gs@[best as int]@;
        assert(as_u32(spec_gs[best as int]) =~= v);
        assert(parts@.map_values(|p: String| p@) =~= sorted@.map_values(|w: u32| computer_name(w)));
    }
    Some(join_with_commas(&parts))
}

} // verus!
