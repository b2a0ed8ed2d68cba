use vstd::prelude::*;
use vstd::string::StringSliceAdditionalSpecFns;

verus! {

/// Where a hiking trail ends: height 0.
pub const TRAILHEAD_END: u8 = 48;

/// Where a hiking trail starts: height 9.
pub const TRAIL_TOP: u8 = 57;

pub open spec fn pow4(k: nat) -> nat
    decreases k,
{
    if k == 0 {
        1
    } else {
        4 * pow4((k - 1) as nat)
    }
}

/// The height of cell `i`, as the ordering measure of the trail recursion.
pub open spec fn height(g: Seq<u8>, i: int) -> int {
    if 0 <= i < g.len() {
        g[i] as int
    } else {
        0
    }
}

/// Trails from cell `i` through its neighbour `n`: none unless `n` is in the
/// grid one step lower; one where `n` is at height 0; else those from `n`.
pub open spec fn branch(g: Seq<u8>, dim: int, i: int, n: int) -> nat
    decreases height(g, i), 0int,
{
    if 0 <= i < g.len() && 0 <= n < g.len() && g[n] == g[i] - 1 {
        if g[n] == TRAILHEAD_END {
            1
        } else {
            trails_from(g, dim, n)
        }
    } else {
        0
    }
}

/// The number of paths that go down one height at a time from cell `i` to a
/// cell of height 0, each step to the cell before or after it, or one row
/// (`dim` bytes) up or down.
pub open spec fn trails_from(g: Seq<u8>, dim: int, i: int) -> nat
    decreases height(g, i), 1int,
{
    if 0 <= i < g.len() {
        branch(g, dim, i, i - dim) + branch(g, dim, i, i + dim) + branch(g, dim, i, i - 1) + branch(
            g,
            dim,
            i,
            i + 1,
        )
    } else {
        0
    }
}

/// The `k`-th neighbour of `i`: one row up, one row down, the cell before,
/// the cell after.
pub open spec fn neighbor_of(dim: int, i: int, k: int) -> int {
    if k == 0 {
        i - dim
    } else if k == 1 {
        i + dim
    } else if k == 2 {
        i - 1
    } else {
        i + 1
    }
}

/// The trails from `i` through its first `k` neighbours.
pub open spec fn branches_upto(g: Seq<u8>, dim: int, i: int, k: int) -> nat
    decreases k,
{
    if k <= 0 {
        0
    } else {
        branches_upto(g, dim, i, k - 1) + branch(g, dim, i, neighbor_of(dim, i, k - 1))
    }
}

fn neighbor(len: usize, dim: usize, i: usize, k: usize) -> (r: Option<usize>)
    requires
        i < len,
        k < 4,
    ensures
        match r {
            Some(n) => n == neighbor_of(dim as int, i as int, k as int) && n < len,
            None => !(0 <= neighbor_of(dim as int, i as int, k as int) < len),
        },
{
    if k == 0 {
        if i >= dim {
            Some(i - dim)
        } else {
            None
        }
    } else if k == 1 {
        if dim < len - i {
            Some(i + dim)
        } else {
            None
        }
    } else if k == 2 {
        if i >= 1 {
            Some(i - 1)
        } else {
            None
        }
    } else {
        if i + 1 < len {
            Some(i + 1)
        } else {
            None
        }
    }
}

/// Counts the trails from cell `i`, as `trails_from` says.
fn count_trails(g: &[u8], dim: usize, i: usize) -> (r: u64)
    requires
        i < g.len(),
        TRAILHEAD_END < g@[i as int] <= TRAIL_TOP,
    ensures
        r == trails_from(g@, dim as int, i as int),
        r <= pow4((g@[i as int] - TRAILHEAD_END) as nat),
    decreases g@[i as int],
{
    let ghost h = (g@[i as int] - TRAILHEAD_END) as nat;
    let mut total: u64 = 0;
    let mut k: usize = 0;
    proof {
        reveal_with_fuel(pow4, 10);
    }
    while k < 4
        invariant
            i < g.len(),
            TRAILHEAD_END < g@[i as int] <= TRAIL_TOP,
            h == (g@[i as int] - TRAILHEAD_END) as nat,
            k <= 4,
            total == branches_upto(g@, dim as int, i as int, k as int),
            total <= k * pow4((h - 1) as nat),
            pow4(h) == 4 * pow4((h - 1) as nat),
            pow4((h - 1) as nat) <= 65536,
        decreases 4 - k,
    {
        let mut b: u64 = 0;
        if let Some(n) = neighbor(g.len(), dim, i, k) {
            if g[n] as u16 + 1 == g[i] as u16 {
                if g[n] == TRAILHEAD_END {
                    b = 1;
                    proof {
                        assert(h == 1);
                    }
                } else {
                    b = count_trails(g, dim, n);
                }
            }
        }
        proof {
            assert(b <= pow4((h - 1) as nat)) by {
                lemma_pow4_positive((h - 1) as nat);
            }
            assert(total + b <= (k + 1) * pow4((h - 1) as nat)) by (nonlinear_arith)
                requires
                    total <= k * pow4((h - 1) as nat),
                    b <= pow4((h - 1) as nat),
            ;
            assert((k + 1) * pow4((h - 1) as nat) <= 4 * 65536) by (nonlinear_arith)
                requires
                    k < 4,
                    pow4((h - 1) as nat) <= 65536,
            ;
        }
        total = total + b;
        k = k + 1;
    }
    proof {
        reveal_with_fuel(branches_upto, 5);
    }
    total
}

proof fn lemma_pow4_positive(k: nat)
    ensures
        pow4(k) >= 1,
    decreases k,
{
    if k > 0 {
        lemma_pow4_positive((k - 1) as nat);
    }
}

/// The position of the first line break at or after `k`.
pub open spec fn newline_from(g: Seq<u8>, k: int) -> Option<int>
    decreases g.len() - k,
{
    if k < 0 || k >= g.len() {
        None
    } else if g[k] == 10 {
        Some(k)
    } else {
        newline_from(g, k + 1)
    }
}

/// The width of a grid row, line break included.
pub open spec fn row_width(g: Seq<u8>) -> Option<int> {
    match newline_from(g, 0) {
        Some(k) => Some(k + 1),
        None => None,
    }
}

/// The trails from every cell of height 9 before position `k`.
pub open spec fn rating_upto(g: Seq<u8>, dim: int, k: int) -> nat
    decreases k,
{
    if k <= 0 {
        0
    } else {
        rating_upto(g, dim, k - 1) + if g[k - 1] == TRAIL_TOP {
            trails_from(g, dim, k - 1)
        } else {
            0
        }
    }
}

pub fn find_row_width(g: &[u8]) -> (r: Option<usize>)
    ensures
        match row_width(g@) {
            Some(d) => r == Some(d as usize) && 1 <= d <= g.len(),
            None => r is None,
        },
{
    let mut k: usize = 0;
    while k < g.len()
        invariant
            k <= g.len(),
            newline_from(g@, 0) == newline_from(g@, k as int),
        decreases g.len() - k,
    {
        if g[k] == 10 {
            return Some(k + 1);
        }
        k = k + 1;
    }
    None
}

/// The number of distinct trails that start at height 9, summed over the
/// grid; `None` where the text has no line break to give the row width.
pub fn part2(input: &str) -> (r: Option<u128>)
    ensures
        match row_width(input.spec_bytes()) {
            Some(dim) => r == Some(
                rating_upto(input.spec_bytes(), dim, input.spec_bytes().len() as int) as u128,
            ),
            None => r is None,
        },
{
    let g = input.as_bytes();
    let dim = find_row_width(g)?;
    let mut result: u128 = 0;
    let mut i: usize = 0;
    while i < g.len()
        invariant
            i <= g.len(),
            result == rating_upto(g@, dim as int, i as int),
            result <= i * 262144,
        decreases g.len() - i,
    {
        if g[i] == TRAIL_TOP {
            let t = count_trails(g, dim, i);
            proof {
                reveal_with_fuel(pow4, 10);
                assert(pow4(9) == 262144);
            }
            result = result + t as u128;
        }
        i = i + 1;
    }
    Some(result)
}

/// Cells of height 0 reached from `i` through its neighbour `n`.
pub open spec fn reach_branch(g: Seq<u8>, dim: int, i: int, n: int) -> Set<int>
    decreases height(g, i), 0int,
{
    if 0 <= i < g.len() && 0 <= n < g.len() && g[n] == g[i] - 1 {
        if g[n] == TRAILHEAD_END {
            set![n]
        } else {
            reach_from(g, dim, n)
        }
    } else {
        Set::empty()
    }
}

/// The cells of height 0 at the end of some trail from `i`.
pub open spec fn reach_from(g: Seq<u8>, dim: int, i: int) -> Set<int>
    decreases height(g, i), 1int,
{
    if 0 <= i < g.len() {
        reach_branch(g, dim, i, i - dim) + reach_branch(g, dim, i, i + dim) + reach_branch(
            g,
            dim,
            i,
            i - 1,
        ) + reach_branch(g, dim, i, i + 1)
    } else {
        Set::empty()
    }
}

pub open spec fn reach_upto(g: Seq<u8>, dim: int, i: int, k: int) -> Set<int>
    decreases k,
{
    if k <= 0 {
        Set::empty()
    } else {
        reach_upto(g, dim, i, k - 1) + reach_branch(g, dim, i, neighbor_of(dim, i, k - 1))
    }
}

/// How many of the positions below `k` lie in `s`.
pub open spec fn count_below(s: Set<int>, k: int) -> nat
    decreases k,
{
    if k <= 0 {
        0
    } else {
        count_below(s, k - 1) + if s.contains(k - 1) {
            1nat
        } else {
            0nat
        }
    }
}

/// The score of every cell of height 9 before position `k`: how many cells of
/// height 0 its trails reach.
pub open spec fn score_upto(g: Seq<u8>, dim: int, k: int) -> nat
    decreases k,
{
    if k <= 0 {
        0
    } else {
        score_upto(g, dim, k - 1) + if g[k - 1] == TRAIL_TOP {
            count_below(reach_from(g, dim, k - 1), g.len() as int)
        } else {
            0
        }
    }
}

/// Marks every cell of height 0 that a trail from `i` reaches.
fn mark_reachable(g: &[u8], dim: usize, i: usize, marks: &mut Vec<bool>)
    requires
        i < g.len(),
        TRAILHEAD_END < g@[i as int] <= TRAIL_TOP,
        old(marks).len() == g.len(),
    ensures
        final(marks).len() == g.len(),
        forall|j: int|
            0 <= j < g.len() ==> #[trigger] final(marks)@[j] == (old(marks)@[j] || reach_from(
                g@,
                dim as int,
                i as int,
            ).contains(j)),
    decreases g@[i as int],
{
    let mut k: usize = 0;
    while k < 4
        invariant
            i < g.len(),
            TRAILHEAD_END < g@[i as int] <= TRAIL_TOP,
            k <= 4,
            marks.len() == g.len(),
            forall|j: int|
                0 <= j < g.len() ==> #[trigger] marks@[j] == (old(marks)@[j] || reach_upto(
                    g@,
                    dim as int,
                    i as int,
                    k as int,
                ).contains(j)),
        decreases 4 - k,
    {
        let ghost before = marks@;
        if let Some(n) = neighbor(g.len(), dim, i, k) {
            if g[n] as u16 + 1 == g[i] as u16 {
                if g[n] == TRAILHEAD_END {
                    marks.set(n, true);
                } else {
                    mark_reachable(g, dim, n, marks);
                }
            }
        }
        proof {
            assert forall|j: int| 0 <= j < g.len() implies #[trigger] marks@[j] == (old(marks)@[j]
                || reach_upto(g@, dim as int, i as int, k + 1).contains(j)) by {
                assert(before[j] == (old(marks)@[j] || reach_upto(
                    g@,
                    dim as int,
                    i as int,
                    k as int,
                ).contains(j)));
            }
        }
        k = k + 1;
    }
    proof {
        reveal_with_fuel(reach_upto, 5);
        assert forall|j: int| 0 <= j < g.len() implies #[trigger] marks@[j] == (old(marks)@[j]
            || reach_from(g@, dim as int, i as int).contains(j)) by {
            assert(reach_upto(g@, dim as int, i as int, 4) =~= reach_from(g@, dim as int, i as int));
        }
    }
}

/// How many cells of height 0 the trails from `i` reach.
fn score(g: &[u8], dim: usize, i: usize) -> (r: u64)
    requires
        i < g.len(),
        g@[i as int] == TRAIL_TOP,
    ensures
        r == count_below(reach_from(g@, dim as int, i as int), g.len() as int),
        r <= g.len(),
{
    let mut marks: Vec<bool> = Vec::new();
    let mut j: usize = 0;
    while j < g.len()
        invariant
            j <= g.len(),
            marks.len() == j,
            forall|x: int| 0 <= x < j ==> !#[trigger] marks@[x],
        decreases g.len() - j,
    {
        marks.push(false);
        j = j + 1;
    }
    mark_reachable(g, dim, i, &mut marks);
    let ghost reached = reach_from(g@, dim as int, i as int);
    let mut count: u64 = 0;
    let mut k: usize = 0;
    while k < g.len()
        invariant
            k <= g.len(),
            marks.len() == g.len(),
            forall|x: int| 0 <= x < g.len() ==> #[trigger] marks@[x] == reached.contains(x),
            count == count_below(reached, k as int),
            count <= k,
        decreases g.len() - k,
    {
        if marks[k] {
            count = count + 1;
        }
        k = k + 1;
    }
    count
}

/// The scores of all cells of height 9 added up; `None` where the text has
/// no line break to give the row width.
pub fn part1(input: &str) -> (r: Option<u128>)
    ensures
        match row_width(input.spec_bytes()) {
            Some(dim) => r == Some(
                score_upto(input.spec_bytes(), dim, input.spec_bytes().len() as int) as u128,
            ),
            None => r is None,
        },
{
    let g = input.as_bytes();
    let dim = find_row_width(g)?;
    let mut result: u128 = 0;
    let mut i: usize = 0;
    while i < g.len()
        invariant
            i <= g.len(),
            result == score_upto(g@, dim as int, i as int),
            result <= i * g.len(),
        decreases g.len() - i,
    {
        if g[i] == TRAIL_TOP {
            let t = score(g, dim, i);
            proof {
                assert(result + t <= (i + 1) * g.len()) by (nonlinear_arith)
                    requires
                        result <= i * g.len(),
                        t <= g.len(),
                ;
                assert((i + 1) * g.len() <= g.len() * g.len()) by (nonlinear_arith)
                    requires
                        i < g.len(),
                ;
                assert(g.len() * g.len() <= 0xffffffffffffffff * 0xffffffffffffffff) by (nonlinear_arith)
                    requires
                        g.len() <= 0xffffffffffffffff,
                ;
            }
            result = result + t as u128;
        } else {
            proof {
                assert(result <= (i + 1) * g.len()) by (nonlinear_arith)
                    requires
                        result <= i * g.len(),
                ;
            }
        }
        i = i + 1;
    }
    Some(result)
}

} // verus!
