use vstd::prelude::*;
use vstd::string::StringSliceAdditionalSpecFns;
use crate::day10::{count_below, find_row_width, row_width};

verus! {

/// The offset of direction `k`: north, east, south, west for 0 to 3, where
/// a row is `dim` bytes long.
pub open spec fn dir_of(dim: int, k: int) -> int {
    if k == 0 {
        -dim
    } else if k == 1 {
        1
    } else if k == 2 {
        dim
    } else {
        -1
    }
}

pub open spec fn in_grid(g: Seq<u8>, x: int) -> bool {
    0 <= x < g.len()
}

/// `y` is the cell in direction `k` from `x` and holds the same plant.
pub open spec fn same_step(g: Seq<u8>, dim: int, x: int, k: int) -> bool {
    &&& 0 <= k < 4
    &&& in_grid(g, x)
    &&& in_grid(g, x + dir_of(dim, k))
    &&& g[x + dir_of(dim, k)] == g[x]
}

/// A set of cells that no step to a neighbour with the same plant leaves.
pub open spec fn closed(g: Seq<u8>, dim: int, s: Set<int>) -> bool {
    forall|x: int, k: int|
        #![trigger s.contains(x), dir_of(dim, k)]
        s.contains(x) && same_step(g, dim, x, k) ==> s.contains(x + dir_of(dim, k))
}

/// The region of cell `c`: the cells in every closed set that holds `c`.
pub open spec fn region(g: Seq<u8>, dim: int, c: int) -> Set<int> {
    Set::new(|x: int| forall|s: Set<int>| #[trigger] closed(g, dim, s) && s.contains(c) ==> s.contains(x))
}

/// Whether side `k` of cell `x` is a fence: the neighbour there is outside
/// the grid or holds another plant.
pub open spec fn fence(g: Seq<u8>, dim: int, x: int, k: int) -> bool {
    let n = x + dir_of(dim, k);
    !in_grid(g, n) || g[n] != g[x]
}

/// Whether cell `x` has a corner of its region between side `k` and the
/// next side clockwise: outside, where both sides are fences; inside, where
/// side `k` is a fence, the clockwise neighbour is of the region, and the
/// cell diagonal to both is too.
pub open spec fn corner(g: Seq<u8>, dim: int, x: int, k: int) -> bool {
    let n = x + dir_of(dim, k);
    let cw = x + dir_of(dim, (k + 1) % 4);
    let diag = cw + dir_of(dim, k);
    if !in_grid(g, n) {
        !in_grid(g, cw) || g[cw] != g[x]
    } else if g[n] == g[x] {
        false
    } else {
        !in_grid(g, cw) || g[cw] != g[x] || (in_grid(g, diag) && g[diag] == g[x])
    }
}

pub open spec fn side_count(g: Seq<u8>, dim: int, x: int, k: int, sides: bool) -> nat {
    if (if sides {
        corner(g, dim, x, k)
    } else {
        fence(g, dim, x, k)
    }) {
        1
    } else {
        0
    }
}

/// What cell `x` adds to its region's measure: its fences, or where `sides`
/// its corners (a region has as many sides as corners).
pub open spec fn cell_measure(g: Seq<u8>, dim: int, x: int, sides: bool) -> nat {
    side_count(g, dim, x, 0, sides) + side_count(g, dim, x, 1, sides) + side_count(
        g,
        dim,
        x,
        2,
        sides,
    ) + side_count(g, dim, x, 3, sides)
}

/// The measures of the cells of `s` below position `k`.
pub open spec fn measure_below(g: Seq<u8>, dim: int, s: Set<int>, k: int, sides: bool) -> nat
    decreases k,
{
    if k <= 0 {
        0
    } else {
        measure_below(g, dim, s, k - 1, sides) + if s.contains(k - 1) {
            cell_measure(g, dim, k - 1, sides)
        } else {
            0
        }
    }
}

/// Cell `c` is a plant and the first cell of its region.
pub open spec fn region_start(g: Seq<u8>, dim: int, c: int) -> bool {
    &&& in_grid(g, c)
    &&& g[c] != 10
    &&& forall|j: int| 0 <= j < c ==> !#[trigger] region(g, dim, c).contains(j)
}

/// The price of the regions that start before position `k`: each region's
/// area times its measure.
pub open spec fn price_upto(g: Seq<u8>, dim: int, k: int, sides: bool) -> nat
    decreases k,
{
    if k <= 0 {
        0
    } else {
        price_upto(g, dim, k - 1, sides) + if region_start(g, dim, k - 1) {
            count_below(region(g, dim, k - 1), g.len() as int) * measure_below(
                g,
                dim,
                region(g, dim, k - 1),
                g.len() as int,
                sides,
            )
        } else {
            0
        }
    }
}

/// A region is closed.
proof fn lemma_region_closed(g: Seq<u8>, dim: int, c: int)
    ensures
        closed(g, dim, region(g, dim, c)),
        region(g, dim, c).contains(c),
{
    let r = region(g, dim, c);
    assert forall|x: int, k: int|
        r.contains(x) && same_step(g, dim, x, k) implies r.contains(x + dir_of(dim, k)) by {
        assert forall|s: Set<int>| #[trigger] closed(g, dim, s) && s.contains(c) implies s.contains(
            x + dir_of(dim, k),
        ) by {
            assert(s.contains(x));
        }
    }
}

/// A closed set that holds `c` holds its region.
proof fn lemma_region_within(g: Seq<u8>, dim: int, c: int, s: Set<int>)
    requires
        closed(g, dim, s),
        s.contains(c),
    ensures
        region(g, dim, c).subset_of(s),
{
    assert forall|x: int| region(g, dim, c).contains(x) implies s.contains(x) by {
        assert(closed(g, dim, s) && s.contains(c));
    }
}

/// The cells of a region hold the plant of the cell it is the region of.
proof fn lemma_region_same_plant(g: Seq<u8>, dim: int, c: int, x: int)
    requires
        in_grid(g, c),
        region(g, dim, c).contains(x),
    ensures
        in_grid(g, x),
        g[x] == g[c],
{
    let s = Set::new(|j: int| in_grid(g, j) && g[j] == g[c]);
    assert(closed(g, dim, s));
    lemma_region_within(g, dim, c, s);
}

/// Same-plant steps go both ways.
proof fn lemma_step_back(g: Seq<u8>, dim: int, x: int, k: int)
    requires
        same_step(g, dim, x, k),
    ensures
        same_step(g, dim, x + dir_of(dim, k), (k + 2) % 4),
        x + dir_of(dim, k) + dir_of(dim, (k + 2) % 4) == x,
{
}

/// Cells are in each other's regions: where `x` is in the region of `c`,
/// `c` is in the region of `x`.
proof fn lemma_region_symmetric(g: Seq<u8>, dim: int, c: int, x: int)
    requires
        region(g, dim, c).contains(x),
    ensures
        region(g, dim, x).contains(c),
{
    assert forall|s: Set<int>| #[trigger] closed(g, dim, s) && s.contains(x) implies s.contains(c) by {
        if !s.contains(c) {
            let u = Set::new(|y: int| !s.contains(y));
            assert forall|y: int, k: int| u.contains(y) && same_step(g, dim, y, k) implies u.contains(
                y + dir_of(dim, k),
            ) by {
                if s.contains(y + dir_of(dim, k)) {
                    lemma_step_back(g, dim, y, k);
                    let z = y + dir_of(dim, k);
                    assert(s.contains(z + dir_of(dim, (k + 2) % 4)));
                }
            }
            assert(closed(g, dim, u));
            lemma_region_within(g, dim, c, u);
        }
    }
}

pub(crate) proof fn lemma_count_insert(s: Set<int>, x: int, k: int)
    requires
        !s.contains(x),
    ensures
        count_below(s.insert(x), k) == count_below(s, k) + if 0 <= x < k {
            1nat
        } else {
            0nat
        },
    decreases k,
{
    if k > 0 {
        lemma_count_insert(s, x, k - 1);
    }
}

proof fn lemma_count_positive(s: Set<int>, x: int, k: int)
    requires
        s.contains(x),
        0 <= x < k,
    ensures
        count_below(s, k) >= 1,
    decreases k,
{
    if x < k - 1 {
        lemma_count_positive(s, x, k - 1);
    }
}

pub(crate) proof fn lemma_count_at_most(s: Set<int>, k: int)
    ensures
        count_below(s, k) <= if k < 0 {
            0
        } else {
            k
        },
    decreases k,
{
    if k > 0 {
        lemma_count_at_most(s, k - 1);
    }
}

proof fn lemma_measure_insert(g: Seq<u8>, dim: int, s: Set<int>, x: int, k: int, sides: bool)
    requires
        !s.contains(x),
    ensures
        measure_below(g, dim, s.insert(x), k, sides) == measure_below(g, dim, s, k, sides) + if 0
            <= x < k {
            cell_measure(g, dim, x, sides)
        } else {
            0
        },
    decreases k,
{
    if k > 0 {
        lemma_measure_insert(g, dim, s, x, k - 1, sides);
    }
}

proof fn lemma_measure_at_most(g: Seq<u8>, dim: int, s: Set<int>, k: int, sides: bool)
    ensures
        measure_below(g, dim, s, k, sides) <= 4 * count_below(s, k),
    decreases k,
{
    if k > 0 {
        lemma_measure_at_most(g, dim, s, k - 1, sides);
    }
}

proof fn lemma_price_grows(g: Seq<u8>, dim: int, j: int, k: int, sides: bool)
    requires
        j <= k,
    ensures
        price_upto(g, dim, j, sides) <= price_upto(g, dim, k, sides),
    decreases k - j,
{
    if j < k {
        lemma_price_grows(g, dim, j, k - 1, sides);
    }
}

/// The cells marked in `v`.
pub open spec fn marked(v: Seq<bool>) -> Set<int> {
    Set::new(|j: int| 0 <= j < v.len() && v[j])
}

/// The cell in direction `k` from `x`, where it is in a grid of `len` bytes.
pub(crate) fn offset(len: usize, dim: usize, x: usize, k: usize) -> (r: Option<usize>)
    requires
        x < len,
        k < 4,
    ensures
        match r {
            Some(n) => n == x + dir_of(dim as int, k as int) && n < len,
            None => !(0 <= x + dir_of(dim as int, k as int) < len),
        },
{
    if k == 0 {
        if x >= dim {
            Some(x - dim)
        } else {
            None
        }
    } else if k == 1 {
        if x + 1 < len {
            Some(x + 1)
        } else {
            None
        }
    } else if k == 2 {
        if dim < len - x {
            Some(x + dim)
        } else {
            None
        }
    } else {
        if x >= 1 {
            Some(x - 1)
        } else {
            None
        }
    }
}

/// Whether side `k` of cell `x` counts: a fence, or where `sides` a corner.
fn side_hit(g: &[u8], dim: usize, x: usize, k: usize, sides: bool) -> (r: bool)
    requires
        x < g.len(),
        k < 4,
    ensures
        r == (side_count(g@, dim as int, x as int, k as int, sides) == 1),
{
    let n = offset(g.len(), dim, x, k);
    if !sides {
        return match n {
            None => true,
            Some(n) => g[n] != g[x],
        };
    }
    let cw = offset(g.len(), dim, x, (k + 1) % 4);
    match n {
        None => match cw {
            None => true,
            Some(c) => g[c] != g[x],
        },
        Some(n) => {
            if g[n] == g[x] {
                false
            } else {
                match cw {
                    None => true,
                    Some(c) => {
                        if g[c] != g[x] {
                            true
                        } else {
                            match offset(g.len(), dim, c, k) {
                                Some(d) => g[d] == g[x],
                                None => false,
                            }
                        }
                    },
                }
            }
        },
    }
}

fn measure_of(g: &[u8], dim: usize, x: usize, sides: bool) -> (r: u64)
    requires
        x < g.len(),
    ensures
        r == cell_measure(g@, dim as int, x as int, sides),
        r <= 4,
{
    let mut r: u64 = 0;
    if side_hit(g, dim, x, 0, sides) {
        r = r + 1;
    }
    if side_hit(g, dim, x, 1, sides) {
        r = r + 1;
    }
    if side_hit(g, dim, x, 2, sides) {
        r = r + 1;
    }
    if side_hit(g, dim, x, 3, sides) {
        r = r + 1;
    }
    r
}

pub(crate) proof fn lemma_empty_counts(g: Seq<u8>, dim: int, k: int, sides: bool)
    ensures
        count_below(Set::empty(), k) == 0,
        measure_below(g, dim, Set::empty(), k, sides) == 0,
    decreases k,
{
    if k > 0 {
        lemma_empty_counts(g, dim, k - 1, sides);
    }
}

/// Marks every cell of the region of `c`, and returns its area and measure.
fn flood(g: &[u8], dim: usize, c: usize, visited: &mut Vec<bool>, sides: bool) -> (r: (u64, u128))
    requires
        c < g.len(),
        old(visited).len() == g.len(),
        !old(visited)@[c as int],
        closed(g@, dim as int, marked(old(visited)@)),
    ensures
        final(visited).len() == g.len(),
        marked(final(visited)@) == marked(old(visited)@) + region(g@, dim as int, c as int),
        r.0 == count_below(region(g@, dim as int, c as int), g.len() as int),
        r.1 == measure_below(g@, dim as int, region(g@, dim as int, c as int), g.len() as int, sides),
{
    let ghost gg = g@;
    let ghost d = dim as int;
    let ghost len = g.len() as int;
    let ghost v0 = marked(visited@);
    let ghost reg = region(gg, d, c as int);
    proof {
        lemma_region_closed(gg, d, c as int);
        lemma_empty_counts(gg, d, len, sides);
        lemma_count_insert(Set::empty(), c as int, len);
    }
    visited.set(c, true);
    let mut stack: Vec<usize> = Vec::new();
    stack.push(c);
    let mut area: u64 = 1;
    let mut meas: u128 = 0;
    let ghost mut m: Set<int> = Set::empty().insert(c as int);
    let ghost mut p: Set<int> = Set::empty();
    proof {
        assert(marked(visited@) =~= v0 + m);
        assert forall|j: int| m.contains(j) && !p.contains(j) implies exists|i: int|
            0 <= i < stack.len() && #[trigger] stack@[i] as int == j by {
            assert(stack@[0] as int == j);
        }
    }
    while stack.len() > 0
        invariant
            g@ == gg,
            d == dim as int,
            len == g.len(),
            c < g.len(),
            visited.len() == g.len(),
            marked(visited@) == v0 + m,
            closed(gg, d, v0),
            reg == region(gg, d, c as int),
            closed(gg, d, reg),
            reg.contains(c as int),
            m.contains(c as int),
            forall|j: int| m.contains(j) ==> !v0.contains(j),
            forall|j: int| m.contains(j) ==> reg.contains(j) && 0 <= j < len,
            forall|j: int| p.contains(j) ==> m.contains(j),
            forall|i: int|
                0 <= i < stack.len() ==> m.contains(#[trigger] stack@[i] as int) && !p.contains(
                    stack@[i] as int,
                ),
            forall|i1: int, i2: int|
                0 <= i1 < i2 < stack.len() ==> #[trigger] stack@[i1] != #[trigger] stack@[i2],
            forall|j: int|
                m.contains(j) && !p.contains(j) ==> exists|i: int|
                    0 <= i < stack.len() && #[trigger] stack@[i] as int == j,
            forall|x: int, k: int|
                p.contains(x) && #[trigger] same_step(gg, d, x, k) ==> (v0 + m).contains(
                    x + dir_of(d, k),
                ),
            area == count_below(m, len),
            area <= len,
            meas == measure_below(gg, d, p, len, sides),
            meas <= 4 * count_below(p, len),
            count_below(p, len) <= len,
        decreases len - count_below(p, len),
    {
        let ghost old_stack = stack@;
        let x = stack.pop().unwrap();
        let ghost m_before = m;
        proof {
            assert(stack@ =~= old_stack.drop_last());
            assert(x == old_stack[old_stack.len() - 1]);
            assert forall|i: int| 0 <= i < stack.len() implies #[trigger] stack@[i] != x by {
                assert(old_stack[i] != old_stack[old_stack.len() - 1]);
            }
            assert forall|j: int| m.contains(j) && !p.contains(j) && j != x implies exists|i: int|
                0 <= i < stack.len() && #[trigger] stack@[i] as int == j by {
                let i = choose|i: int| 0 <= i < old_stack.len() && #[trigger] old_stack[i] as int == j;
                assert(stack@[i] as int == j);
            }
        }
        let mut k: usize = 0;
        while k < 4
            invariant
                g@ == gg,
                d == dim as int,
                len == g.len(),
                x < g.len(),
                k <= 4,
                visited.len() == g.len(),
                marked(visited@) == v0 + m,
                m_before.subset_of(m),
                m_before.contains(x as int),
                !p.contains(x as int),
                forall|j: int| m.contains(j) ==> !v0.contains(j),
                forall|j: int| m.contains(j) ==> reg.contains(j) && 0 <= j < len,
                closed(gg, d, reg),
                forall|j: int| p.contains(j) ==> m.contains(j),
                forall|i: int|
                    0 <= i < stack.len() ==> m.contains(#[trigger] stack@[i] as int) && !p.contains(
                        stack@[i] as int,
                    ) && stack@[i] != x,
                forall|i1: int, i2: int|
                    0 <= i1 < i2 < stack.len() ==> #[trigger] stack@[i1] != #[trigger] stack@[i2],
                forall|j: int|
                    m.contains(j) && !p.contains(j) && j != x ==> exists|i: int|
                        0 <= i < stack.len() && #[trigger] stack@[i] as int == j,
                forall|kk: int|
                    0 <= kk < k && #[trigger] same_step(gg, d, x as int, kk) ==> (v0 + m).contains(
                        x + dir_of(d, kk),
                    ),
                forall|y: int, kk: int|
                    p.contains(y) && #[trigger] same_step(gg, d, y, kk) ==> (v0 + m).contains(
                        y + dir_of(d, kk),
                    ),
                area == count_below(m, len),
                area <= len,
            decreases 4 - k,
        {
            if let Some(n) = offset(g.len(), dim, x, k) {
                if g[n] == g[x] && !visited[n] {
                    proof {
                        assert(!marked(visited@).contains(n as int));
                        assert(same_step(gg, d, x as int, k as int));
                        assert(reg.contains(n as int));
                        lemma_count_insert(m, n as int, len);
                        lemma_count_at_most(m.insert(n as int), len);
                    }
                    let ghost vis_before = visited@;
                    let ghost stack_before = stack@;
                    visited.set(n, true);
                    stack.push(n);
                    area = area + 1;
                    proof {
                        m = m.insert(n as int);
                        assert(visited@ == vis_before.update(n as int, true));
                        assert(stack@ == stack_before.push(n));
                        assert(marked(visited@) =~= marked(vis_before).insert(n as int));
                        assert(marked(visited@) =~= v0 + m);
                        assert forall|j: int| m.contains(j) && !p.contains(j) && j != x implies exists|
                            i: int,
                        | 0 <= i < stack.len() && #[trigger] stack@[i] as int == j by {
                            if j == n {
                                assert(stack@[stack.len() - 1] as int == j);
                            } else {
                                let i = choose|i: int|
                                    0 <= i < stack_before.len() && #[trigger] stack_before[i] as int
                                        == j;
                                assert(stack@[i] as int == j);
                            }
                        }
                    }
                }
            }
            k = k + 1;
        }
        let w = measure_of(g, dim, x, sides);
        proof {
            lemma_measure_insert(gg, d, p, x as int, len, sides);
            lemma_count_insert(p, x as int, len);
            lemma_count_at_most(p.insert(x as int), len);
            p = p.insert(x as int);
        }
        meas = meas + w as u128;
    }
    proof {
        assert forall|j: int| m.contains(j) implies p.contains(j) by {
            if !p.contains(j) {
                let i = choose|i: int| 0 <= i < stack.len() && #[trigger] stack@[i] as int == j;
            }
        }
        let vm = v0 + m;
        assert forall|y: int, kk: int|
            vm.contains(y) && same_step(gg, d, y, kk) implies vm.contains(y + dir_of(d, kk)) by {
            if v0.contains(y) {
                assert(v0.contains(y + dir_of(d, kk)));
            } else {
                assert(p.contains(y));
            }
        }
        assert(closed(gg, d, vm));
        lemma_region_within(gg, d, c as int, vm);
        assert forall|x: int| reg.contains(x) implies m.contains(x) by {
            if v0.contains(x) {
                lemma_region_symmetric(gg, d, c as int, x);
                lemma_region_within(gg, d, x, v0);
            }
        }
        assert(m =~= reg);
        assert(p =~= m);
    }
    (area, meas)
}

/// Cell `j` is in the region of a region start before `s`.
pub open spec fn covered(g: Seq<u8>, dim: int, s: int, j: int) -> bool {
    exists|t: int| 0 <= t < s && region_start(g, dim, t) && #[trigger] region(g, dim, t).contains(j)
}

/// The price of all regions of the grid, as `price_upto` says; `None` where
/// it does not fit in a `u64`.
fn total_price(g: &[u8], dim: usize, sides: bool) -> (r: Option<u64>)
    ensures
        price_upto(g@, dim as int, g.len() as int, sides) <= u64::MAX ==> r == Some(
            price_upto(g@, dim as int, g.len() as int, sides) as u64,
        ),
        price_upto(g@, dim as int, g.len() as int, sides) > u64::MAX ==> r is None,
{
    let ghost gg = g@;
    let ghost d = dim as int;
    let ghost len = g.len() as int;
    let mut visited: Vec<bool> = Vec::new();
    let mut j: usize = 0;
    while j < g.len()
        invariant
            j <= g.len(),
            visited.len() == j,
            forall|q: int| 0 <= q < j ==> !#[trigger] visited@[q],
        decreases g.len() - j,
    {
        visited.push(false);
        j = j + 1;
    }
    proof {
        assert(marked(visited@) =~= Set::<int>::empty());
        assert(closed(gg, d, marked(visited@)));
    }
    let mut total: u64 = 0;
    let mut s: usize = 0;
    while s < g.len()
        invariant
            g@ == gg,
            d == dim as int,
            len == g.len(),
            s <= g.len(),
            visited.len() == g.len(),
            forall|q: int| #[trigger] marked(visited@).contains(q) <==> covered(gg, d, s as int, q),
            closed(gg, d, marked(visited@)),
            forall|q: int| 0 <= q < s && gg[q] != 10 ==> #[trigger] visited@[q],
            total == price_upto(gg, d, s as int, sides),
        decreases g.len() - s,
    {
        if g[s] != 10 && !visited[s] {
            proof {
                assert forall|q: int| 0 <= q < s implies !#[trigger] region(gg, d, s as int).contains(
                    q,
                ) by {
                    if region(gg, d, s as int).contains(q) {
                        lemma_region_same_plant(gg, d, s as int, q);
                        assert(visited@[q]);
                        assert(marked(visited@).contains(q));
                        let t = choose|t: int|
                            0 <= t < s && region_start(gg, d, t) && #[trigger] region(
                                gg,
                                d,
                                t,
                            ).contains(q);
                        lemma_region_closed(gg, d, t);
                        lemma_region_within(gg, d, q, region(gg, d, t));
                        lemma_region_symmetric(gg, d, s as int, q);
                        assert(covered(gg, d, s as int, s as int));
                        assert(marked(visited@).contains(s as int));
                    }
                }
                assert(region_start(gg, d, s as int));
            }
            let ghost before = marked(visited@);
            let (area, meas) = flood(g, dim, s, &mut visited, sides);
            proof {
                let reg = region(gg, d, s as int);
                lemma_region_closed(gg, d, s as int);
                assert forall|q: int| #[trigger] marked(visited@).contains(q) <==> covered(
                    gg,
                    d,
                    s + 1,
                    q,
                ) by {
                    if reg.contains(q) {
                        assert(covered(gg, d, s + 1, q));
                    }
                    if covered(gg, d, s + 1, q) {
                        let t = choose|t: int|
                            0 <= t < s + 1 && region_start(gg, d, t) && #[trigger] region(
                                gg,
                                d,
                                t,
                            ).contains(q);
                        if t < s {
                            assert(covered(gg, d, s as int, q));
                        }
                    }
                }
                let vm = marked(visited@);
                assert forall|y: int, k: int|
                    vm.contains(y) && same_step(gg, d, y, k) implies vm.contains(
                    y + dir_of(d, k),
                ) by {
                    if before.contains(y) {
                        assert(before.contains(y + dir_of(d, k)));
                    } else {
                        assert(reg.contains(y + dir_of(d, k)));
                    }
                }
                assert(closed(gg, d, vm));
                assert forall|q: int| 0 <= q < s + 1 && gg[q] != 10 implies #[trigger] visited@[q] by {
                    assert(marked(visited@).contains(q));
                }
                lemma_count_at_most(reg, len);
                lemma_measure_at_most(gg, d, reg, len, sides);
                lemma_count_positive(reg, s as int, len);
                lemma_price_grows(gg, d, s + 1, len, sides);
            }
            if meas > u64::MAX as u128 {
                proof {
                    assert(area * meas >= meas) by (nonlinear_arith)
                        requires
                            area >= 1,
                            meas >= 0,
                    ;
                }
                return None;
            }
            proof {
                assert(area * meas <= 0xffffffffffffffff * 0xffffffffffffffff) by (nonlinear_arith)
                    requires
                        area <= 0xffffffffffffffff,
                        meas <= 0xffffffffffffffff,
                ;
            }
            let cost = area as u128 * meas;
            if cost > (u64::MAX - total) as u128 {
                return None;
            }
            total = total + cost as u64;
        } else {
            proof {
                if g[s as int] != 10 {
                    assert(marked(visited@).contains(s as int));
                    let t = choose|t: int|
                        0 <= t < s && region_start(gg, d, t) && #[trigger] region(
                            gg,
                            d,
                            t,
                        ).contains(s as int);
                    lemma_region_symmetric(gg, d, t, s as int);
                }
                assert(!region_start(gg, d, s as int));
                assert forall|q: int| #[trigger] marked(visited@).contains(q) <==> covered(
                    gg,
                    d,
                    s + 1,
                    q,
                ) by {
                    if covered(gg, d, s + 1, q) {
                        let t = choose|t: int|
                            0 <= t < s + 1 && region_start(gg, d, t) && #[trigger] region(
                                gg,
                                d,
                                t,
                            ).contains(q);
                        assert(t != s);
                        assert(covered(gg, d, s as int, q));
                    }
                }
            }
        }
        s = s + 1;
    }
    Some(total)
}

/// The total price of fencing every region: area times perimeter; `None`
/// where the text has no line break to give the row width, or the price
/// does not fit in a `u64`.
pub fn part1(input: &str) -> (r: Option<u64>)
    ensures
        match row_width(input.spec_bytes()) {
            Some(dim) => {
                let p = price_upto(input.spec_bytes(), dim, input.spec_bytes().len() as int, false);
                if p <= u64::MAX {
                    r == Some(p as u64)
                } else {
                    r is None
                }
            },
            None => r is None,
        },
{
    let g = input.as_bytes();
    let dim = find_row_width(g)?;
    total_price(g, dim, false)
}

/// The total price with the bulk discount: area times number of sides;
/// `None` where the text has no line break to give the row width, or the
/// price does not fit in a `u64`.
pub fn part2(input: &str) -> (r: Option<u64>)
    ensures
        match row_width(input.spec_bytes()) {
            Some(dim) => {
                let p = price_upto(input.spec_bytes(), dim, input.spec_bytes().len() as int, true);
                if p <= u64::MAX {
                    r == Some(p as u64)
                } else {
                    r is None
                }
            },
            None => r is None,
        },
{
    let g = input.as_bytes();
    let dim = find_row_width(g)?;
    total_price(g, dim, true)
}

} // verus!
