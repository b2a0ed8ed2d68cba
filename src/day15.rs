use vstd::prelude::*;
use vstd::string::StringSliceAdditionalSpecFns;
use crate::day10::{find_row_width, row_width};
use crate::day10::count_below;
use crate::day12::{dir_of, in_grid, lemma_count_at_most, lemma_count_insert, offset};

verus! {

pub const ROBOT: u8 = 64;

pub const WALL: u8 = 35;

pub const BOX: u8 = 79;

pub const AIR: u8 = 46;

/// The direction of move byte `m`: 0 north (`^`), 1 east (`>`), 2 south
/// (`v`), 3 west (`<`); `None` for any other byte, which is skipped.
pub open spec fn direction(m: u8) -> Option<int> {
    if m == 94 {
        Some(0)
    } else if m == 62 {
        Some(1)
    } else if m == 118 {
        Some(2)
    } else if m == 60 {
        Some(3)
    } else {
        None
    }
}

/// The first cell from `pos` on, in direction `k`, that does not hold a box;
/// -1 where the boxes run off the grid.
pub open spec fn push_end(g: Seq<u8>, dim: int, pos: int, k: int) -> int
    decreases (if !in_grid(g, pos) {
        0
    } else if dir_of(dim, k) > 0 {
        g.len() - pos
    } else {
        pos + 1
    }),
{
    if !in_grid(g, pos) || dim < 1 || !(0 <= k < 4) {
        -1
    } else if g[pos] == BOX {
        push_end(g, dim, pos + dir_of(dim, k), k)
    } else {
        pos
    }
}

/// The grid and robot position after move `m`: the robot steps where the
/// cell is free, or pushes the row of boxes ahead of it where free space
/// follows them; otherwise nothing moves.
pub open spec fn step(g: Seq<u8>, dim: int, rob: int, m: u8) -> (Seq<u8>, int) {
    match direction(m) {
        None => (g, rob),
        Some(k) => {
            let next = rob + dir_of(dim, k);
            let e = push_end(g, dim, next, k);
            if in_grid(g, e) && g[e] == AIR {
                if e == next {
                    (g.update(rob, AIR).update(next, ROBOT), next)
                } else {
                    (g.update(rob, AIR).update(next, ROBOT).update(e, BOX), next)
                }
            } else {
                (g, rob)
            }
        },
    }
}

/// The grid after all moves in `moves`, in order.
pub open spec fn run_moves(g: Seq<u8>, dim: int, rob: int, moves: Seq<u8>) -> Seq<u8>
    decreases moves.len(),
{
    if moves.len() == 0 {
        g
    } else {
        let (g2, r2) = step(g, dim, rob, moves[0]);
        run_moves(g2, dim, r2, moves.drop_first())
    }
}

/// The sum of the boxes' coordinates below position `k`: 100 times the row
/// plus the column.
pub open spec fn gps_below(g: Seq<u8>, dim: int, k: int) -> nat
    decreases k,
{
    if k <= 0 {
        0
    } else {
        gps_below(g, dim, k - 1) + if g[k - 1] == BOX {
            (100 * ((k - 1) / dim) + (k - 1) % dim) as nat
        } else {
            0
        }
    }
}

/// The first position at or after `k` where a blank line starts.
pub open spec fn blank_from(s: Seq<u8>, k: int) -> Option<int>
    decreases s.len() - k,
{
    if k < 0 || k + 1 >= s.len() {
        None
    } else if s[k] == 10 && s[k + 1] == 10 {
        Some(k)
    } else {
        blank_from(s, k + 1)
    }
}

/// The first position at or after `k` that holds `x`.
pub open spec fn byte_from(s: Seq<u8>, x: u8, k: int) -> Option<int>
    decreases s.len() - k,
{
    if k < 0 || k >= s.len() {
        None
    } else if s[k] == x {
        Some(k)
    } else {
        byte_from(s, x, k + 1)
    }
}

/// The warehouse in the text: the grid (its rows up to the blank line, line
/// breaks included), its row width, the robot's position, and the moves
/// after the blank line.
pub open spec fn warehouse(s: Seq<u8>) -> Option<(Seq<u8>, int, int, Seq<u8>)> {
    match blank_from(s, 0) {
        None => None,
        Some(b) => {
            let grid = s.subrange(0, b + 1);
            match row_width(grid) {
                None => None,
                Some(dim) => match byte_from(grid, ROBOT, 0) {
                    None => None,
                    Some(rob) => Some((grid, dim, rob, s.subrange(b + 2, s.len() as int))),
                },
            }
        },
    }
}

/// Where the first blank line starts, as `blank_from` says.
pub(crate) fn find_blank(s: &[u8]) -> (r: Option<usize>)
    ensures
        match blank_from(s@, 0) {
            Some(b) => r == Some(b as usize) && 0 <= b && b + 1 < s.len(),
            None => r is None,
        },
{
    if s.len() < 2 {
        return None;
    }
    let mut b: usize = 0;
    while b < s.len() - 1 && !(s[b] == 10 && s[b + 1] == 10)
        invariant
            s.len() >= 2,
            blank_from(s@, 0) == blank_from(s@, b as int),
            b <= s.len() - 1,
        decreases s.len() - b,
    {
        b = b + 1;
    }
    if b >= s.len() - 1 {
        return None;
    }
    Some(b)
}

/// Applies move `m` to the grid and returns the robot's new position, as
/// `step` says.
fn apply_move(grid: &mut Vec<u8>, dim: usize, rob: usize, m: u8) -> (r: usize)
    requires
        dim >= 1,
        rob < old(grid).len(),
    ensures
        (final(grid)@, r as int) == step(old(grid)@, dim as int, rob as int, m),
        final(grid).len() == old(grid).len(),
        r < old(grid).len(),
{
    let k: usize = if m == 94 {
        0
    } else if m == 62 {
        1
    } else if m == 118 {
        2
    } else if m == 60 {
        3
    } else {
        return rob;
    };
    let ghost g = grid@;
    let next = match offset(grid.len(), dim, rob, k) {
        Some(n) => n,
        None => {
            return rob;
        },
    };
    let mut e = next;
    while grid[e] == BOX
        invariant
            grid@ == g,
            grid.len() == g.len(),
            dim >= 1,
            k < 4,
            direction(m) == Some(k as int),
            rob < g.len(),
            next == rob + dir_of(dim as int, k as int),
            e < g.len(),
            push_end(g, dim as int, next as int, k as int) == push_end(g, dim as int, e as int, k as int),
        decreases (if dir_of(dim as int, k as int) > 0 {
            g.len() - e
        } else {
            e + 1
        }),
    {
        e = match offset(grid.len(), dim, e, k) {
            Some(n) => n,
            None => {
                proof {
                    assert(push_end(g, dim as int, e + dir_of(dim as int, k as int), k as int) == -1);
                    assert(push_end(g, dim as int, e as int, k as int) == -1);
                }
                return rob;
            },
        };
    }
    if grid[e] != AIR {
        return rob;
    }
    grid.set(rob, AIR);
    grid.set(next, ROBOT);
    if e != next {
        grid.set(e, BOX);
    }
    next
}

/// The sum of the boxes' coordinates, as `gps_below` says; `None` where it
/// does not fit in a `u64`.
fn gps_sum(g: &Vec<u8>, dim: usize) -> (r: Option<u64>)
    requires
        dim >= 1,
    ensures
        gps_below(g@, dim as int, g.len() as int) <= u64::MAX ==> r == Some(
            gps_below(g@, dim as int, g.len() as int) as u64,
        ),
        gps_below(g@, dim as int, g.len() as int) > u64::MAX ==> r is None,
{
    let mut total: u64 = 0;
    let mut i: usize = 0;
    while i < g.len()
        invariant
            dim >= 1,
            i <= g.len(),
            total == gps_below(g@, dim as int, i as int),
        decreases g.len() - i,
    {
        if g[i] == BOX {
            let row = (i / dim) as u128;
            let col = (i % dim) as u128;
            let v = 100 * row + col;
            proof {
                lemma_gps_grows(g@, dim as int, i + 1, g.len() as int);
            }
            if v > (u64::MAX - total) as u128 {
                return None;
            }
            total = total + v as u64;
        }
        i = i + 1;
    }
    Some(total)
}

proof fn lemma_gps_grows(g: Seq<u8>, dim: int, j: int, k: int)
    requires
        j <= k,
    ensures
        gps_below(g, dim, j) <= gps_below(g, dim, k),
    decreases k - j,
{
    if j < k {
        lemma_gps_grows(g, dim, j, k - 1);
    }
}

/// Reads the warehouse, as `warehouse` says: the grid, its row width, the
/// robot's position, and where the moves start.
fn read_warehouse(s: &[u8]) -> (r: Option<(Vec<u8>, usize, usize, usize)>)
    ensures
        match warehouse(s@) {
            Some((g, dim, rob, moves)) => r is Some && r->Some_0.0@ == g && r->Some_0.1 == dim
                && r->Some_0.2 == rob && r->Some_0.3 <= s.len() && moves == s@.subrange(
                r->Some_0.3 as int,
                s.len() as int,
            ) && dim >= 1 && rob < g.len(),
            None => r is None,
        },
{
    let b = match find_blank(s) {
        Some(b) => b,
        None => {
            return None;
        },
    };
    let mut grid: Vec<u8> = Vec::new();
    let mut j: usize = 0;
    while j <= b
        invariant
            j <= b + 1,
            b + 1 < s.len(),
            grid@ == s@.subrange(0, j as int),
        decreases b + 1 - j,
    {
        grid.push(s[j]);
        proof {
            assert(grid@ =~= s@.subrange(0, j + 1));
        }
        j = j + 1;
    }
    let dim = match find_row_width(grid.as_slice()) {
        Some(d) => d,
        None => {
            return None;
        },
    };
    let mut rob: usize = 0;
    while rob < grid.len() && grid[rob] != ROBOT
        invariant
            byte_from(grid@, ROBOT, 0) == byte_from(grid@, ROBOT, rob as int),
            rob <= grid.len(),
        decreases grid.len() - rob,
    {
        rob = rob + 1;
    }
    if rob == grid.len() {
        return None;
    }
    Some((grid, dim, rob, b + 2))
}

/// The sum of the boxes' coordinates once the robot has made every move;
/// `None` where the text has no blank line, no row width or no robot, or
/// the sum does not fit in a `u64`.
pub fn part1(input: &str) -> (r: Option<u64>)
    ensures
        match warehouse(input.spec_bytes()) {
            Some((g, dim, rob, moves)) => {
                let t = gps_below(run_moves(g, dim, rob, moves), dim, g.len() as int);
                if t <= u64::MAX {
                    r == Some(t as u64)
                } else {
                    r is None
                }
            },
            None => r is None,
        },
{
    let s = input.as_bytes();
    let (mut grid, dim, mut rob, start) = match read_warehouse(s) {
        Some(x) => x,
        None => {
            return None;
        },
    };
    let ghost g0 = grid@;
    let ghost rob0 = rob as int;
    let ghost moves = s@.subrange(start as int, s@.len() as int);
    let mut q: usize = start;
    assert(moves.subrange(0, moves.len() as int) =~= moves);
    while q < s.len()
        invariant
            start <= q <= s.len(),
            dim >= 1,
            rob < grid.len(),
            grid.len() == g0.len(),
            moves == s@.subrange(start as int, s@.len() as int),
            run_moves(g0, dim as int, rob0, moves) == run_moves(
                grid@,
                dim as int,
                rob as int,
                s@.subrange(q as int, s@.len() as int),
            ),
        decreases s.len() - q,
    {
        let ghost rest = s@.subrange(q as int, s@.len() as int);
        proof {
            assert(rest[0] == s@[q as int]);
            assert(rest.drop_first() =~= s@.subrange(q + 1, s@.len() as int));
        }
        rob = apply_move(&mut grid, dim, rob, s[q]);
        q = q + 1;
    }
    proof {
        assert(s@.subrange(q as int, s@.len() as int) =~= Seq::<u8>::empty());
    }
    gps_sum(&grid, dim)
}

pub const BOX_LEFT: u8 = 91;

pub const BOX_RIGHT: u8 = 93;

/// The wide form of one byte of the grid: walls, free space and the robot
/// take two cells (the robot's second one free), a box becomes `[]`, and
/// line breaks go.
pub open spec fn widen_byte(b: u8) -> Seq<u8> {
    if b == WALL {
        seq![WALL, WALL]
    } else if b == BOX {
        seq![BOX_LEFT, BOX_RIGHT]
    } else if b == AIR {
        seq![AIR, AIR]
    } else if b == ROBOT {
        seq![ROBOT, AIR]
    } else {
        Seq::empty()
    }
}

/// The grid twice as wide, with its line breaks dropped.
pub open spec fn widen(g: Seq<u8>) -> Seq<u8>
    decreases g.len(),
{
    if g.len() == 0 {
        Seq::empty()
    } else {
        widen(g.drop_last()) + widen_byte(g.last())
    }
}

pub open spec fn is_box_cell(b: u8) -> bool {
    b == BOX_LEFT || b == BOX_RIGHT
}

/// The first cell from `pos` on, in direction `k`, that is not part of a
/// box; -1 where the boxes run off the grid.
pub open spec fn wide_end(g: Seq<u8>, w: int, pos: int, k: int) -> int
    decreases (if !in_grid(g, pos) {
        0
    } else if dir_of(w, k) > 0 {
        g.len() - pos
    } else {
        pos + 1
    }),
{
    if !in_grid(g, pos) || w < 1 || !(0 <= k < 4) {
        -1
    } else if is_box_cell(g[pos]) {
        wide_end(g, w, pos + dir_of(w, k), k)
    } else {
        pos
    }
}

/// Cell `j` lies on the run from `from` to `to` in direction `d`.
pub open spec fn on_run(j: int, from: int, to: int, d: int) -> bool {
    if d > 0 {
        from <= j <= to
    } else {
        to <= j <= from
    }
}

/// A sideways move: the run of box cells ahead of the robot shifts one cell
/// where free space follows it.
pub open spec fn side_step(g: Seq<u8>, w: int, rob: int, k: int) -> (Seq<u8>, int) {
    let d = dir_of(w, k);
    let next = rob + d;
    let e = wide_end(g, w, next, k);
    if in_grid(g, e) && g[e] == AIR && in_grid(g, rob) {
        (
            Seq::new(
                g.len(),
                |j: int|
                    if j == rob {
                        AIR
                    } else if on_run(j, next, e, d) {
                        g[j - d]
                    } else {
                        g[j]
                    },
            ),
            next,
        )
    } else {
        (g, rob)
    }
}

/// The left cell of the box that covers cell `c`.
pub open spec fn box_left(g: Seq<u8>, c: int) -> int {
    if g[c] == BOX_LEFT {
        c
    } else {
        c - 1
    }
}

/// The cells a box at `p` moves into, in direction `d`.
pub open spec fn ahead(p: int, d: int, half: int) -> int {
    p + half + d
}

/// A set of box positions that holds every box in the way of each of its
/// boxes, moving by `d`.
pub open spec fn push_closed(g: Seq<u8>, d: int, s: Set<int>) -> bool {
    forall|p: int, half: int|
        #![trigger s.contains(p), ahead(p, d, half)]
        s.contains(p) && 0 <= half < 2 && in_grid(g, ahead(p, d, half)) && is_box_cell(
            g[ahead(p, d, half)],
        ) ==> s.contains(box_left(g, ahead(p, d, half)))
}

/// The boxes that a push by `d` on the box at `start` moves: those in every
/// push-closed set that holds it.
pub open spec fn pushed(g: Seq<u8>, d: int, start: int) -> Set<int> {
    Set::new(
        |p: int| forall|s: Set<int>| #[trigger] push_closed(g, d, s) && s.contains(start) ==> s.contains(p),
    )
}

/// Some box of `bs` cannot move by `d`: a cell of it is off the grid, or a
/// cell ahead of it is a wall or off the grid.
pub open spec fn blocked(g: Seq<u8>, d: int, bs: Set<int>) -> bool {
    exists|p: int, half: int| bs.contains(p) && 0 <= half < 2 && #[trigger] cell_blocked(g, d, p, half)
}

/// Cell `half` of the box at `p` is off the grid, or the cell ahead of it
/// is a wall or off the grid.
pub open spec fn cell_blocked(g: Seq<u8>, d: int, p: int, half: int) -> bool {
    !in_grid(g, p) || !in_grid(g, p + 1) || !in_grid(g, ahead(p, d, half)) || g[ahead(p, d, half)]
        == WALL
}

/// A move up or down: the robot steps into free space, or pushes every box
/// in the way where none of them is blocked.
pub open spec fn upright_step(g: Seq<u8>, w: int, rob: int, k: int) -> (Seq<u8>, int) {
    let d = dir_of(w, k);
    let n = rob + d;
    if !in_grid(g, n) || !in_grid(g, rob) {
        (g, rob)
    } else if g[n] == AIR {
        (g.update(rob, AIR).update(n, ROBOT), n)
    } else if is_box_cell(g[n]) && 0 <= box_left(g, n) {
        let bs = pushed(g, d, box_left(g, n));
        if blocked(g, d, bs) {
            (g, rob)
        } else {
            (
                Seq::new(
                    g.len(),
                    |j: int|
                        if j == n {
                            ROBOT
                        } else if bs.contains(j - d) {
                            BOX_LEFT
                        } else if bs.contains(j - 1 - d) {
                            BOX_RIGHT
                        } else if bs.contains(j) || bs.contains(j - 1) || j == rob {
                            AIR
                        } else {
                            g[j]
                        },
                ),
                n,
            )
        }
    } else {
        (g, rob)
    }
}

/// The wide grid and robot position after move `m`.
pub open spec fn wide_step(g: Seq<u8>, w: int, rob: int, m: u8) -> (Seq<u8>, int) {
    match direction(m) {
        None => (g, rob),
        Some(k) => if k == 1 || k == 3 {
            side_step(g, w, rob, k)
        } else {
            upright_step(g, w, rob, k)
        },
    }
}

/// The wide grid after all moves in `moves`, in order.
pub open spec fn run_wide(g: Seq<u8>, w: int, rob: int, moves: Seq<u8>) -> Seq<u8>
    decreases moves.len(),
{
    if moves.len() == 0 {
        g
    } else {
        let (g2, r2) = wide_step(g, w, rob, moves[0]);
        run_wide(g2, w, r2, moves.drop_first())
    }
}

/// The sum of the boxes' coordinates below position `k` in a grid of rows
/// `w` cells wide, each box counted at its left cell.
pub open spec fn wide_gps_below(g: Seq<u8>, w: int, k: int) -> nat
    decreases k,
{
    if k <= 0 {
        0
    } else {
        wide_gps_below(g, w, k - 1) + if g[k - 1] == BOX_LEFT {
            (100 * ((k - 1) / w) + (k - 1) % w) as nat
        } else {
            0
        }
    }
}

proof fn lemma_pushed_closed(g: Seq<u8>, d: int, start: int)
    ensures
        push_closed(g, d, pushed(g, d, start)),
        pushed(g, d, start).contains(start),
{
    let ps = pushed(g, d, start);
    assert forall|p: int, half: int|
        ps.contains(p) && 0 <= half < 2 && in_grid(g, ahead(p, d, half)) && is_box_cell(
            g[ahead(p, d, half)],
        ) implies ps.contains(box_left(g, ahead(p, d, half))) by {
        assert forall|s: Set<int>| #[trigger] push_closed(g, d, s) && s.contains(start) implies s.contains(
            box_left(g, ahead(p, d, half)),
        ) by {
            assert(s.contains(p));
        }
    }
}

proof fn lemma_pushed_within(g: Seq<u8>, d: int, start: int, s: Set<int>)
    requires
        push_closed(g, d, s),
        s.contains(start),
    ensures
        pushed(g, d, start).subset_of(s),
{
    assert forall|p: int| pushed(g, d, start).contains(p) implies s.contains(p) by {
        assert(push_closed(g, d, s) && s.contains(start));
    }
}


/// Every box of `done` has both its cells in the grid and no wall or edge
/// ahead of it.
pub open spec fn all_free_ahead(g: Seq<u8>, d: int, done: Set<int>) -> bool {
    forall|p: int|
        #[trigger] done.contains(p) ==> in_grid(g, p + 1) && !cell_blocked(g, d, p, 0)
            && !cell_blocked(g, d, p, 1)
}

/// Every box in the way of a box of `done` is in `m`.
pub open spec fn followed_up(g: Seq<u8>, d: int, done: Set<int>, m: Set<int>) -> bool {
    forall|p: int|
        #[trigger] done.contains(p) ==> follows(g, d, m, p, 0) && follows(g, d, m, p, 1)
}

/// The box in the way of cell `half` of the box at `p`, if any, is in `m`.
pub open spec fn follows(g: Seq<u8>, d: int, m: Set<int>, p: int, half: int) -> bool {
    in_grid(g, ahead(p, d, half)) && is_box_cell(g[ahead(p, d, half)]) ==> m.contains(
        box_left(g, ahead(p, d, half)),
    )
}

proof fn lemma_blocked_by(g: Seq<u8>, d: int, bs: Set<int>, p: int, half: int)
    requires
        bs.contains(p),
        0 <= half < 2,
        !in_grid(g, p) || !in_grid(g, p + 1) || !in_grid(g, ahead(p, d, half)) || g[ahead(
            p,
            d,
            half,
        )] == WALL,
    ensures
        blocked(g, d, bs),
{
    assert(cell_blocked(g, d, p, half));
}

/// The cell `half` to the right of `p` and one row in direction `k` (north
/// or south), where it is in a grid of `len` cells with rows `w` wide.
fn cell_ahead(len: usize, w: usize, p: usize, half: usize, k: usize) -> (r: Option<usize>)
    requires
        p < len,
        half < 2,
        k == 0 || k == 2,
    ensures
        match r {
            Some(c) => c == ahead(p as int, dir_of(w as int, k as int), half as int) && c < len,
            None => !(0 <= ahead(p as int, dir_of(w as int, k as int), half as int) < len),
        },
{
    let q = p + half;
    if k == 0 {
        if q >= w && q - w < len {
            Some(q - w)
        } else {
            None
        }
    } else {
        if q < len && w < len - q {
            Some(q + w)
        } else {
            None
        }
    }
}

/// The boxes a push on the box at `start` moves, marked in the result, and
/// whether the push is blocked.
fn push_set(g: &Vec<u8>, w: usize, k: usize, start: usize) -> (r: (Vec<bool>, bool))
    requires
        k == 0 || k == 2,
        start < g.len(),
    ensures
        r.0.len() == g.len(),
        r.1 == blocked(g@, dir_of(w as int, k as int), pushed(g@, dir_of(w as int, k as int), start as int)),
        !r.1 ==> forall|j: int| 0 <= j < g.len() ==> (#[trigger] r.0@[j] == pushed(g@, dir_of(w as int, k as int), start as int).contains(j)),
        !r.1 ==> forall|j: int| #[trigger] pushed(g@, dir_of(w as int, k as int), start as int).contains(j) ==> 0 <= j < g.len(),
{
    let ghost gg = g@;
    let ghost d = dir_of(w as int, k as int);
    let ghost ps = pushed(gg, d, start as int);
    let len = g.len();
    let mut marks: Vec<bool> = Vec::new();
    let mut j: usize = 0;
    while j < len
        invariant
            j <= len,
            marks.len() == j,
            forall|q: int| 0 <= q < j ==> !#[trigger] marks@[q],
        decreases len - j,
    {
        marks.push(false);
        j = j + 1;
    }
    proof {
        lemma_pushed_closed(gg, d, start as int);
    }
    marks.set(start, true);
    let mut work: Vec<usize> = Vec::new();
    work.push(start);
    let mut stuck = false;
    let ghost mut m: Set<int> = Set::empty().insert(start as int);
    let ghost mut done: Set<int> = Set::empty();
    proof {
        crate::day12::lemma_empty_counts(gg, d, len as int, false);
        assert forall|q: int| 0 <= q < len implies #[trigger] marks@[q] == m.contains(q) by {}
        assert forall|q: int| m.contains(q) && !done.contains(q) implies exists|i: int|
            0 <= i < work.len() && #[trigger] work@[i] as int == q by {
            assert(work@[0] as int == q);
        }
    }
    while work.len() > 0
        invariant
            g@ == gg,
            len == g.len(),
            d == dir_of(w as int, k as int),
            k == 0 || k == 2,
            ps == pushed(gg, d, start as int),
            push_closed(gg, d, ps),
            marks.len() == len,
            forall|q: int| 0 <= q < len ==> #[trigger] marks@[q] == m.contains(q),
            forall|q: int| m.contains(q) ==> ps.contains(q) && 0 <= q < len,
            m.contains(start as int),
            forall|q: int| done.contains(q) ==> m.contains(q),
            forall|i: int|
                0 <= i < work.len() ==> m.contains(#[trigger] work@[i] as int) && !done.contains(
                    work@[i] as int,
                ),
            forall|i1: int, i2: int|
                0 <= i1 < i2 < work.len() ==> #[trigger] work@[i1] != #[trigger] work@[i2],
            forall|q: int|
                m.contains(q) && !done.contains(q) ==> exists|i: int|
                    0 <= i < work.len() && #[trigger] work@[i] as int == q,
            !stuck ==> followed_up(gg, d, done, m),
            stuck ==> blocked(gg, d, ps),
            !stuck ==> all_free_ahead(gg, d, done),
            count_below(done, len as int) <= len,
        decreases len - count_below(done, len as int),
    {
        let ghost old_work = work@;
        let p = work.pop().unwrap();
        let ghost m_before = m;
        proof {
            assert(work@ =~= old_work.drop_last());
            assert(p == old_work[old_work.len() - 1]);
            assert forall|i: int| 0 <= i < work.len() implies #[trigger] work@[i] != p by {
                assert(old_work[i] != old_work[old_work.len() - 1]);
            }
            assert forall|q: int| m.contains(q) && !done.contains(q) && q != p implies exists|i: int|
                0 <= i < work.len() && #[trigger] work@[i] as int == q by {
                let i = choose|i: int| 0 <= i < old_work.len() && #[trigger] old_work[i] as int == q;
                assert(work@[i] as int == q);
            }
            assert(ps.contains(p as int));
        }
        if p + 1 >= len {
            stuck = true;
            proof {
                lemma_blocked_by(gg, d, ps, p as int, 0);
            }
        }
        let mut half: usize = 0;
        while half < 2
            invariant
                g@ == gg,
                len == g.len(),
                d == dir_of(w as int, k as int),
                k == 0 || k == 2,
                ps == pushed(gg, d, start as int),
                push_closed(gg, d, ps),
                p < len,
                half <= 2,
                marks.len() == len,
                forall|q: int| 0 <= q < len ==> #[trigger] marks@[q] == m.contains(q),
                forall|q: int| m.contains(q) ==> ps.contains(q) && 0 <= q < len,
                m.contains(start as int),
                m_before.subset_of(m),
                m_before.contains(p as int),
                ps.contains(p as int),
                !done.contains(p as int),
                forall|q: int| done.contains(q) ==> m.contains(q),
                forall|i: int|
                    0 <= i < work.len() ==> m.contains(#[trigger] work@[i] as int) && !done.contains(
                        work@[i] as int,
                    ) && work@[i] != p,
                forall|i1: int, i2: int|
                    0 <= i1 < i2 < work.len() ==> #[trigger] work@[i1] != #[trigger] work@[i2],
                forall|q: int|
                    m.contains(q) && !done.contains(q) && q != p ==> exists|i: int|
                        0 <= i < work.len() && #[trigger] work@[i] as int == q,
                !stuck ==> followed_up(gg, d, done, m),
                forall|hh: int|
                    0 <= hh < half && in_grid(gg, ahead(p as int, d, hh)) && is_box_cell(
                        gg[#[trigger] ahead(p as int, d, hh)],
                    ) ==> m.contains(box_left(gg, ahead(p as int, d, hh))) || stuck,
                stuck ==> blocked(gg, d, ps),
                !stuck ==> in_grid(gg, p + 1),
                !stuck ==> forall|hh: int|
                    0 <= hh < half ==> in_grid(gg, #[trigger] ahead(p as int, d, hh)) && gg[ahead(
                        p as int,
                        d,
                        hh,
                    )] != WALL,
                !stuck ==> all_free_ahead(gg, d, done),
            decreases 2 - half,
        {
            match cell_ahead(len, w, p, half, k) {
                None => {
                    stuck = true;
                    proof {
                        lemma_blocked_by(gg, d, ps, p as int, half as int);
                    }
                },
                Some(c) => {
                    if g[c] == WALL {
                        stuck = true;
                        proof {
                            lemma_blocked_by(gg, d, ps, p as int, half as int);
                        }
                    } else if g[c] == BOX_LEFT || g[c] == BOX_RIGHT {
                        if g[c] == BOX_RIGHT && c == 0 {
                            stuck = true;
                            proof {
                                assert(ps.contains(box_left(gg, c as int)));
                                assert(box_left(gg, c as int) == -1);
                                lemma_blocked_by(gg, d, ps, -1, 0);
                            }
                        } else {
                            let bl = if g[c] == BOX_LEFT {
                                c
                            } else {
                                c - 1
                            };
                            proof {
                                assert(bl as int == box_left(gg, c as int));
                                assert(ps.contains(bl as int));
                            }
                            if !marks[bl] {
                                let ghost marks_before = marks@;
                                let ghost work_before = work@;
                                marks.set(bl, true);
                                work.push(bl);
                                proof {
                                    m = m.insert(bl as int);
                                    assert forall|q: int| 0 <= q < len implies #[trigger] marks@[q]
                                        == m.contains(q) by {
                                        if q != bl {
                                            assert(marks@[q] == marks_before[q]);
                                        }
                                    }
                                    assert forall|q: int|
                                        m.contains(q) && !done.contains(q) && q != p implies exists|
                                        i: int,
                                    | 0 <= i < work.len() && #[trigger] work@[i] as int == q by {
                                        if q == bl {
                                            assert(work@[work.len() - 1] as int == q);
                                        } else {
                                            let i = choose|i: int|
                                                0 <= i < work_before.len() && #[trigger] work_before[i]
                                                    as int == q;
                                            assert(work@[i] as int == q);
                                        }
                                    }
                                }
                            }
                        }
                    }
                },
            }
            half = half + 1;
        }
        proof {
            lemma_count_insert(done, p as int, len as int);
            lemma_count_at_most(done.insert(p as int), len as int);
            let nd = done.insert(p as int);
            if !stuck {
                assert forall|pp: int, hh: int|
                    nd.contains(pp) && 0 <= hh < 2 && in_grid(gg, ahead(pp, d, hh)) && is_box_cell(
                        gg[ahead(pp, d, hh)],
                    ) implies m.contains(box_left(gg, ahead(pp, d, hh))) by {
                    if pp != p {
                        assert(done.contains(pp));
                    }
                }
                assert forall|pp: int, hh: int|
                    nd.contains(pp) && 0 <= hh < 2 implies in_grid(gg, pp + 1) && in_grid(
                    gg,
                    ahead(pp, d, hh),
                ) && gg[ahead(pp, d, hh)] != WALL by {
                    if pp != p {
                        assert(done.contains(pp));
                        assert(all_free_ahead(gg, d, done));
                        assert(in_grid(gg, pp + 1));
                    } else {
                        assert(in_grid(gg, p + 1));
                        assert(in_grid(gg, ahead(p as int, d, hh)) && gg[ahead(p as int, d, hh)]
                            != WALL);
                    }
                }
            }
            done = nd;
        }
    }
    proof {
        assert forall|q: int| m.contains(q) implies done.contains(q) by {
            if !done.contains(q) {
                let i = choose|i: int| 0 <= i < work.len() && #[trigger] work@[i] as int == q;
            }
        }
        if !stuck {
            assert forall|pp: int, hh: int|
                m.contains(pp) && 0 <= hh < 2 && in_grid(gg, ahead(pp, d, hh)) && is_box_cell(
                    gg[ahead(pp, d, hh)],
                ) implies m.contains(box_left(gg, ahead(pp, d, hh))) by {
                assert(done.contains(pp));
            }
            assert(push_closed(gg, d, m));
            lemma_pushed_within(gg, d, start as int, m);
            assert(m =~= ps);
            assert(!blocked(gg, d, ps)) by {
                if blocked(gg, d, ps) {
                    let (pp, hh) = choose|pp: int, hh: int|
                        ps.contains(pp) && 0 <= hh < 2 && #[trigger] cell_blocked(gg, d, pp, hh);
                    assert(done.contains(pp));
                    assert(m.contains(pp));
                }
            }
        }
    }
    (marks, stuck)
}

fn widen_exec(g: &Vec<u8>) -> (r: Vec<u8>)
    ensures
        r@ == widen(g@),
{
    let mut r: Vec<u8> = Vec::new();
    let mut i: usize = 0;
    assert(g@.subrange(0, 0) =~= Seq::<u8>::empty());
    while i < g.len()
        invariant
            i <= g.len(),
            r@ == widen(g@.subrange(0, i as int)),
        decreases g.len() - i,
    {
        let b = g[i];
        let ghost before = r@;
        if b == WALL {
            r.push(WALL);
            r.push(WALL);
        } else if b == BOX {
            r.push(BOX_LEFT);
            r.push(BOX_RIGHT);
        } else if b == AIR {
            r.push(AIR);
            r.push(AIR);
        } else if b == ROBOT {
            r.push(ROBOT);
            r.push(AIR);
        }
        proof {
            let sub = g@.subrange(0, i + 1);
            assert(sub.drop_last() =~= g@.subrange(0, i as int));
            assert(sub.last() == b);
            assert(r@ =~= before + widen_byte(b));
        }
        i = i + 1;
    }
    assert(g@.subrange(0, g.len() as int) =~= g@);
    r
}

/// Whether `j + off` is marked, for a set whose members all lie within the
/// marks.
fn marked_at(marks: &Vec<bool>, j: usize, off: i128, Ghost(s): Ghost<Set<int>>) -> (r: bool)
    requires
        forall|q: int| 0 <= q < marks.len() ==> #[trigger] marks@[q] == s.contains(q),
        forall|q: int| #[trigger] s.contains(q) ==> 0 <= q < marks.len(),
        j < marks.len(),
        -0x10000000000000000 < off < 0x10000000000000000,
    ensures
        r == s.contains(j + off),
{
    let q: i128 = j as i128 + off;
    if q < 0 || q >= marks.len() as i128 {
        return false;
    }
    marks[q as usize]
}

/// Applies a sideways move, as `side_step` says.
fn side_move(grid: &mut Vec<u8>, w: usize, rob: usize, k: usize) -> (r: usize)
    requires
        w >= 1,
        rob < old(grid).len(),
        k == 1 || k == 3,
    ensures
        (final(grid)@, r as int) == side_step(old(grid)@, w as int, rob as int, k as int),
        final(grid).len() == old(grid).len(),
        r < old(grid).len(),
{
    let ghost g = grid@;
    let ghost d = dir_of(w as int, k as int);
    let len = grid.len();
    let next = match offset(len, w, rob, k) {
        Some(n) => n,
        None => {
            proof {
                assert(wide_end(g, w as int, rob + d, k as int) == -1);
            }
            return rob;
        },
    };
    let mut e = next;
    while grid[e] == BOX_LEFT || grid[e] == BOX_RIGHT
        invariant
            grid@ == g,
            grid.len() == len,
            len == g.len(),
            w >= 1,
            k == 1 || k == 3,
            d == dir_of(w as int, k as int),
            rob < len,
            next == rob + d,
            e < len,
            wide_end(g, w as int, next as int, k as int) == wide_end(g, w as int, e as int, k as int),
            if k == 1 {
                next <= e
            } else {
                e <= next
            },
        decreases (if k == 1 {
            len - e
        } else {
            e + 1
        }),
    {
        e = match offset(len, w, e, k) {
            Some(n) => n,
            None => {
                proof {
                    assert(wide_end(g, w as int, e + d, k as int) == -1);
                    assert(wide_end(g, w as int, e as int, k as int) == -1);
                }
                return rob;
            },
        };
    }
    if grid[e] != AIR {
        return rob;
    }
    let mut out: Vec<u8> = Vec::new();
    let mut j: usize = 0;
    let ghost target = side_step(g, w as int, rob as int, k as int).0;
    while j < len
        invariant
            grid@ == g,
            len == g.len(),
            j <= len,
            k == 1 || k == 3,
            d == dir_of(w as int, k as int),
            next == rob + d,
            rob < len,
            e < len,
            if k == 1 {
                next <= e
            } else {
                e <= next
            },
            wide_end(g, w as int, next as int, k as int) == e,
            g[e as int] == AIR,
            target == side_step(g, w as int, rob as int, k as int).0,
            target.len() == len,
            out.len() == j,
            forall|q: int| 0 <= q < j ==> #[trigger] out@[q] == target[q],
        decreases len - j,
    {
        let v = if j == rob {
            AIR
        } else if k == 1 && next <= j && j <= e {
            grid[j - 1]
        } else if k == 3 && e <= j && j <= next {
            grid[j + 1]
        } else {
            grid[j]
        };
        out.push(v);
        j = j + 1;
    }
    proof {
        assert(out@ =~= target);
    }
    *grid = out;
    next
}

/// Applies a move up or down, as `upright_step` says.
fn upright_move(grid: &mut Vec<u8>, w: usize, rob: usize, k: usize) -> (r: usize)
    requires
        w >= 1,
        rob < old(grid).len(),
        k == 0 || k == 2,
    ensures
        (final(grid)@, r as int) == upright_step(old(grid)@, w as int, rob as int, k as int),
        final(grid).len() == old(grid).len(),
        r < old(grid).len(),
{
    let ghost g = grid@;
    let ghost d = dir_of(w as int, k as int);
    let len = grid.len();
    let n = match offset(len, w, rob, k) {
        Some(n) => n,
        None => {
            return rob;
        },
    };
    if grid[n] == AIR {
        grid.set(rob, AIR);
        grid.set(n, ROBOT);
        return n;
    }
    if !(grid[n] == BOX_LEFT || grid[n] == BOX_RIGHT) || (grid[n] == BOX_RIGHT && n == 0) {
        return rob;
    }
    let start = if grid[n] == BOX_LEFT {
        n
    } else {
        n - 1
    };
    let (marks, stuck) = push_set(grid, w, k, start);
    if stuck {
        return rob;
    }
    let ghost bs = pushed(g, d, start as int);
    let ghost target = upright_step(g, w as int, rob as int, k as int).0;
    let mut out: Vec<u8> = Vec::new();
    let mut j: usize = 0;
    while j < len
        invariant
            grid@ == g,
            len == g.len(),
            j <= len,
            k == 0 || k == 2,
            d == dir_of(w as int, k as int),
            n == rob + d,
            rob < len,
            n < len,
            bs == pushed(g, d, start as int),
            start as int == box_left(g, n as int),
            is_box_cell(g[n as int]),
            !blocked(g, d, bs),
            marks.len() == len,
            forall|q: int| 0 <= q < len ==> #[trigger] marks@[q] == bs.contains(q),
            forall|q: int| #[trigger] bs.contains(q) ==> 0 <= q < len,
            target == upright_step(g, w as int, rob as int, k as int).0,
            target.len() == len,
            out.len() == j,
            forall|q: int| 0 <= q < j ==> #[trigger] out@[q] == target[q],
        decreases len - j,
    {
        let step: i128 = if k == 0 {
            -(w as i128)
        } else {
            w as i128
        };
        let v = if j == n {
            ROBOT
        } else if marked_at(&marks, j, -step, Ghost(bs)) {
            BOX_LEFT
        } else if marked_at(&marks, j, -1 - step, Ghost(bs)) {
            BOX_RIGHT
        } else if marks[j] || marked_at(&marks, j, -1, Ghost(bs)) || j == rob {
            AIR
        } else {
            grid[j]
        };
        proof {
            assert(target[j as int] == v);
        }
        out.push(v);
        j = j + 1;
    }
    proof {
        assert(out@ =~= target);
    }
    *grid = out;
    n
}

/// The wide warehouse: the grid twice as wide without line breaks, its row
/// width (which must fit in a `usize`), the robot's position in it, and the
/// moves.
pub open spec fn wide_warehouse(s: Seq<u8>) -> Option<(Seq<u8>, int, int, Seq<u8>)> {
    match warehouse(s) {
        Some((g, dim, _, moves)) => {
            let wg = widen(g);
            let w = 2 * (dim - 1);
            if 1 <= w <= usize::MAX {
                match byte_from(wg, ROBOT, 0) {
                    Some(r) => Some((wg, w, r, moves)),
                    None => None,
                }
            } else {
                None
            }
        },
        None => None,
    }
}

/// Applies move `m` to the wide grid, as `wide_step` says.
fn wide_move(grid: &mut Vec<u8>, w: usize, rob: usize, m: u8) -> (r: usize)
    requires
        w >= 1,
        rob < old(grid).len(),
    ensures
        (final(grid)@, r as int) == wide_step(old(grid)@, w as int, rob as int, m),
        final(grid).len() == old(grid).len(),
        r < old(grid).len(),
{
    if m == 62 {
        side_move(grid, w, rob, 1)
    } else if m == 60 {
        side_move(grid, w, rob, 3)
    } else if m == 94 {
        upright_move(grid, w, rob, 0)
    } else if m == 118 {
        upright_move(grid, w, rob, 2)
    } else {
        rob
    }
}

/// The sum of the boxes' coordinates in the wide grid, as `wide_gps_below`
/// says; `None` where it does not fit in a `u64`.
fn wide_gps_sum(g: &Vec<u8>, w: usize) -> (r: Option<u64>)
    requires
        w >= 1,
    ensures
        wide_gps_below(g@, w as int, g.len() as int) <= u64::MAX ==> r == Some(
            wide_gps_below(g@, w as int, g.len() as int) as u64,
        ),
        wide_gps_below(g@, w as int, g.len() as int) > u64::MAX ==> r is None,
{
    let mut total: u64 = 0;
    let mut i: usize = 0;
    while i < g.len()
        invariant
            w >= 1,
            i <= g.len(),
            total == wide_gps_below(g@, w as int, i as int),
        decreases g.len() - i,
    {
        if g[i] == BOX_LEFT {
            let v = 100 * (i / w) as u128 + (i % w) as u128;
            proof {
                lemma_wide_gps_grows(g@, w as int, i + 1, g.len() as int);
            }
            if v > (u64::MAX - total) as u128 {
                return None;
            }
            total = total + v as u64;
        }
        i = i + 1;
    }
    Some(total)
}

proof fn lemma_wide_gps_grows(g: Seq<u8>, w: int, j: int, k: int)
    requires
        j <= k,
    ensures
        wide_gps_below(g, w, j) <= wide_gps_below(g, w, k),
    decreases k - j,
{
    if j < k {
        lemma_wide_gps_grows(g, w, j, k - 1);
    }
}

/// The sum of the boxes' coordinates once the robot has made every move in
/// the wide warehouse; `None` where the text has no blank line, no row
/// width or no robot, or the sum does not fit in a `u64`.
pub fn part2(input: &str) -> (r: Option<u64>)
    ensures
        match wide_warehouse(input.spec_bytes()) {
            Some((g, w, rob, moves)) => {
                let t = wide_gps_below(run_wide(g, w, rob, moves), w, g.len() as int);
                if t <= u64::MAX {
                    r == Some(t as u64)
                } else {
                    r is None
                }
            },
            None => r is None,
        },
{
    let s = input.as_bytes();
    let (narrow, dim, _, start) = match read_warehouse(s) {
        Some(x) => x,
        None => {
            return None;
        },
    };
    let mut grid = widen_exec(&narrow);
    if dim < 2 || dim - 1 > usize::MAX / 2 {
        return None;
    }
    let w = 2 * (dim - 1);
    let mut rob: usize = 0;
    while rob < grid.len() && grid[rob] != ROBOT
        invariant
            byte_from(grid@, ROBOT, 0) == byte_from(grid@, ROBOT, rob as int),
            rob <= grid.len(),
        decreases grid.len() - rob,
    {
        rob = rob + 1;
    }
    if rob == grid.len() {
        return None;
    }
    let ghost g0 = grid@;
    let ghost rob0 = rob as int;
    let ghost moves = s@.subrange(start as int, s@.len() as int);
    let mut q: usize = start;
    assert(moves.subrange(0, moves.len() as int) =~= moves);
    while q < s.len()
        invariant
            start <= q <= s.len(),
            w >= 1,
            rob < grid.len(),
            grid.len() == g0.len(),
            moves == s@.subrange(start as int, s@.len() as int),
            run_wide(g0, w as int, rob0, moves) == run_wide(
                grid@,
                w as int,
                rob as int,
                s@.subrange(q as int, s@.len() as int),
            ),
        decreases s.len() - q,
    {
        let ghost rest = s@.subrange(q as int, s@.len() as int);
        proof {
            assert(rest[0] == s@[q as int]);
            assert(rest.drop_first() =~= s@.subrange(q + 1, s@.len() as int));
        }
        rob = wide_move(&mut grid, w, rob, s[q]);
        q = q + 1;
    }
    proof {
        assert(s@.subrange(q as int, s@.len() as int) =~= Seq::<u8>::empty());
    }
    wide_gps_sum(&grid, w)
}

} // verus!
