use vstd::prelude::*;
use vstd::string::StringSliceAdditionalSpecFns;
use crate::text::{number_at, read_number, pow10, lemma_pow10_values};

verus! {

/// Width of the room, in tiles.
pub const WIDTH: i64 = 101;

/// Height of the room, in tiles.
pub const HEIGHT: i64 = 103;

/// Seconds the robots move before the safety factor is taken.
pub const SECONDS: i64 = 100;

/// A robot: its position and its velocity in tiles per second.
#[derive(Clone, Copy, Debug, Default, PartialEq, Eq, Structural)]
pub struct Robot {
    pub px: i32,
    pub py: i32,
    pub vx: i32,
    pub vy: i32,
}

/// The number at `k`, with an optional minus sign before it.
pub open spec fn signed_at(s: Seq<u8>, k: int) -> Option<(int, int)> {
    if 0 <= k < s.len() && s[k] == 45 {
        match number_at(s, k + 1) {
            Some((v, e)) => Some((-v, e)),
            None => None,
        }
    } else {
        match number_at(s, k) {
            Some((v, e)) => Some((v as int, e)),
            None => None,
        }
    }
}

pub open spec fn fits_i32(v: int) -> bool {
    -0x80000000 < v < 0x80000000
}

/// The robot whose line `p=x,y v=dx,dy` starts at `i`, and the position of
/// the line break that ends it.
pub open spec fn robot_at(s: Seq<u8>, i: int) -> Option<(Robot, int)> {
    match number_at(s, i + 2) {
        Some((px, e1)) => if e1 < s.len() && s[e1] == 44 {
            match number_at(s, e1 + 1) {
                Some((py, e2)) => if e2 < s.len() && s[e2] == 32 {
                    match signed_at(s, e2 + 3) {
                        Some((vx, e3)) => if e3 < s.len() && s[e3] == 44 {
                            match signed_at(s, e3 + 1) {
                                Some((vy, e4)) => if e4 < s.len() && s[e4] == 10 && fits_i32(
                                    px as int,
                                ) && fits_i32(py as int) && fits_i32(vx) && fits_i32(vy) {
                                    Some(
                                        (
                                            Robot {
                                                px: px as i32,
                                                py: py as i32,
                                                vx: vx as i32,
                                                vy: vy as i32,
                                            },
                                            e4,
                                        ),
                                    )
                                } else {
                                    None
                                },
                                None => None,
                            }
                        } else {
                            None
                        },
                        None => None,
                    }
                } else {
                    None
                },
                None => None,
            }
        } else {
            None
        },
        None => None,
    }
}

fn read_signed(s: &[u8], k: usize) -> (r: Option<(i64, usize)>)
    ensures
        match signed_at(s@, k as int) {
            Some((v, e)) => r == Some((v as i64, e as usize)) && -pow10(18) < v < pow10(18) && k
                < e <= s.len(),
            None => r is None,
        },
{
    if k < s.len() && s[k] == 45 {
        match read_number(s, k + 1) {
            Some((v, e)) => {
                proof {
                    lemma_pow10_values();
                }
                Some((-(v as i64), e))
            },
            None => None,
        }
    } else {
        match read_number(s, k) {
            Some((v, e)) => {
                proof {
                    lemma_pow10_values();
                }
                Some((v as i64, e))
            },
            None => None,
        }
    }
}

fn in_i32(v: i64) -> (r: bool)
    ensures
        r == fits_i32(v as int),
{
    -0x80000000 < v && v < 0x80000000
}

/// Reads the robot whose line starts at `*i` and leaves `*i` on the line
/// break that ends it, as `robot_at` says.
pub fn parse_robot(input: &[u8], i: &mut usize) -> (r: Option<Robot>)
    ensures
        match robot_at(input@, *old(i) as int) {
            Some((rb, e)) => r == Some(rb) && *final(i) == e && *old(i) < e < input.len(),
            None => r is None,
        },
{
    let start = *i;
    if start >= input.len() || input.len() - start < 3 {
        return None;
    }
    let (px, e1) = match read_number(input, start + 2) {
        Some(x) => x,
        None => {
            return None;
        },
    };
    if e1 >= input.len() || input[e1] != 44 {
        return None;
    }
    let (py, e2) = match read_number(input, e1 + 1) {
        Some(x) => x,
        None => {
            return None;
        },
    };
    if e2 >= input.len() || input[e2] != 32 || e2 > usize::MAX - 3 {
        return None;
    }
    let (vx, e3) = match read_signed(input, e2 + 3) {
        Some(x) => x,
        None => {
            return None;
        },
    };
    if e3 >= input.len() || input[e3] != 44 {
        return None;
    }
    let (vy, e4) = match read_signed(input, e3 + 1) {
        Some(x) => x,
        None => {
            return None;
        },
    };
    proof {
        lemma_pow10_values();
    }
    if e4 >= input.len() || input[e4] != 10 || !in_i32(px as i64) || !in_i32(py as i64) || !in_i32(
        vx,
    ) || !in_i32(vy) {
        return None;
    }
    *i = e4;
    Some(Robot { px: px as i32, py: py as i32, vx: vx as i32, vy: vy as i32 })
}

/// The robots listed from `i` on, one line each, up to the end of the input.
pub open spec fn robots_from(s: Seq<u8>, i: int) -> Option<Seq<Robot>>
    decreases s.len() - i,
{
    if i == s.len() {
        Some(Seq::empty())
    } else if i < 0 || i > s.len() {
        None
    } else {
        match robot_at(s, i) {
            Some((r, e)) => if e >= i {
                match robots_from(s, e + 1) {
                    Some(rest) => Some(seq![r] + rest),
                    None => None,
                }
            } else {
                None
            },
            None => None,
        }
    }
}

/// A coordinate after `t` seconds, wrapped around a room side of `size`.
pub open spec fn moved(p: int, v: int, t: int, size: int) -> int {
    (p + t * v) % size
}

/// The quadrant a robot is in after `SECONDS`: 1 top right, 2 top left,
/// 3 bottom left, 4 bottom right, 0 on a middle line.
pub open spec fn quadrant_of(r: Robot) -> int {
    let x = moved(r.px as int, r.vx as int, SECONDS as int, WIDTH as int);
    let y = moved(r.py as int, r.vy as int, SECONDS as int, HEIGHT as int);
    if x < WIDTH / 2 {
        if y < HEIGHT / 2 {
            2
        } else if y > HEIGHT / 2 {
            3
        } else {
            0
        }
    } else if x > WIDTH / 2 {
        if y < HEIGHT / 2 {
            1
        } else if y > HEIGHT / 2 {
            4
        } else {
            0
        }
    } else {
        0
    }
}

/// How many of `rs` end in quadrant `q`.
pub open spec fn count_in(rs: Seq<Robot>, q: int) -> nat
    decreases rs.len(),
{
    if rs.len() == 0 {
        0
    } else {
        count_in(rs.drop_last(), q) + if quadrant_of(rs.last()) == q {
            1nat
        } else {
            0nat
        }
    }
}

/// The product of the four quadrants' robot counts.
pub open spec fn safety_factor(rs: Seq<Robot>) -> nat {
    count_in(rs, 1) * count_in(rs, 2) * count_in(rs, 3) * count_in(rs, 4)
}

/// `t` modulo `m`, never negative, as `rem_euclid`.
fn wrap(t: i64, m: i64) -> (r: i64)
    requires
        m > 0,
        t > i64::MIN,
    ensures
        r == t % m,
        0 <= r < m,
{
    if t >= 0 {
        ((t as u64) % (m as u64)) as i64
    } else {
        let k = ((-t) as u64) % (m as u64);
        proof {
            let q = (-t) / (m as int);
            vstd::arithmetic::div_mod::lemma_fundamental_div_mod(-t, m as int);
            assert(-t == m * q + k);
            assert((-q - 1) * m + (m - k) == -(m * q + k)) by (nonlinear_arith);
            if k != 0 {
                vstd::arithmetic::div_mod::lemma_fundamental_div_mod_converse_mod(
                    t as int,
                    m as int,
                    -q - 1,
                    m - k,
                );
            } else {
                assert(-q * m + 0 == -(m * q + k)) by (nonlinear_arith)
                    requires
                        k == 0,
                ;
                vstd::arithmetic::div_mod::lemma_fundamental_div_mod_converse_mod(
                    t as int,
                    m as int,
                    -q,
                    0,
                );
            }
        }
        if k == 0 {
            0
        } else {
            m - k as i64
        }
    }
}

/// The quadrant robot `r` is in after `SECONDS`, as `quadrant_of` says.
pub fn quadrant(r: &Robot) -> (q: u8)
    ensures
        q == quadrant_of(*r),
{
    let x = wrap(r.px as i64 + SECONDS * r.vx as i64, WIDTH);
    let y = wrap(r.py as i64 + SECONDS * r.vy as i64, HEIGHT);
    if x < WIDTH / 2 {
        if y < HEIGHT / 2 {
            2
        } else if y > HEIGHT / 2 {
            3
        } else {
            0
        }
    } else if x > WIDTH / 2 {
        if y < HEIGHT / 2 {
            1
        } else if y > HEIGHT / 2 {
            4
        } else {
            0
        }
    } else {
        0
    }
}

fn product_or_none(a: u64, b: u64) -> (r: Option<u64>)
    ensures
        a * b <= u64::MAX ==> r == Some((a * b) as u64),
        a * b > u64::MAX ==> r is None,
{
    proof {
        assert(a * b <= 0xffffffffffffffff * 0xffffffffffffffff) by (nonlinear_arith)
            requires
                a <= 0xffffffffffffffff,
                b <= 0xffffffffffffffff,
        ;
    }
    let p = a as u128 * b as u128;
    if p > u64::MAX as u128 {
        None
    } else {
        Some(p as u64)
    }
}

proof fn lemma_counts_bounded(rs: Seq<Robot>, q: int)
    ensures
        count_in(rs, q) <= rs.len(),
    decreases rs.len(),
{
    if rs.len() > 0 {
        lemma_counts_bounded(rs.drop_last(), q);
    }
}

/// The safety factor after `SECONDS`; `None` where the input is not a list
/// of robot lines or the product does not fit in a `u64`.
pub fn part1(input: &str) -> (r: Option<u64>)
    ensures
        match robots_from(input.spec_bytes(), 0) {
            Some(rs) => if safety_factor(rs) <= u64::MAX {
                r == Some(safety_factor(rs) as u64)
            } else {
                r is None
            },
            None => r is None,
        },
{
    let s = input.as_bytes();
    let mut counts: [u64; 4] = [0, 0, 0, 0];
    let mut i: usize = 0;
    let ghost mut done: Seq<Robot> = Seq::empty();
    while i < s.len()
        invariant
            s@ == input.spec_bytes(),
            i <= s.len(),
            done.len() <= i,
            robots_from(s@, 0) == match robots_from(s@, i as int) {
                Some(rest) => Some(done + rest),
                None => None::<Seq<Robot>>,
            },
            forall|q: int| 0 <= q < 4 ==> #[trigger] counts@[q] == count_in(done, q + 1),
        decreases s.len() - i,
    {
        let ghost start = i as int;
        let r = match parse_robot(s, &mut i) {
            Some(r) => r,
            None => {
                proof {
                    assert(robot_at(s@, start) is None);
                    assert(robots_from(s@, start) is None);
                }
                return None;
            },
        };
        let q = quadrant(&r);
        proof {
            lemma_counts_bounded(done, q as int);
        }
        if q != 0 {
            counts[(q - 1) as usize] = counts[(q - 1) as usize] + 1;
        }
        proof {
            let next = done.push(r);
            assert(next.drop_last() =~= done);
            match robots_from(s@, i + 1) {
                Some(rest) => {
                    assert(done + (seq![r] + rest) =~= next + rest);
                },
                None => {},
            }
            done = next;
        }
        i = i + 1;
    }
    proof {
        assert(done + Seq::<Robot>::empty() =~= done);
    }
    if counts[0] == 0 || counts[1] == 0 || counts[2] == 0 || counts[3] == 0 {
        proof {
            assert(safety_factor(done) == 0) by (nonlinear_arith)
                requires
                    count_in(done, 1) == 0 || count_in(done, 2) == 0 || count_in(done, 3) == 0
                        || count_in(done, 4) == 0,
                    safety_factor(done) == count_in(done, 1) * count_in(done, 2) * count_in(done, 3)
                        * count_in(done, 4),
            ;
        }
        return Some(0);
    }
    let ghost c1 = count_in(done, 1);
    let ghost c2 = count_in(done, 2);
    let ghost c3 = count_in(done, 3);
    let ghost c4 = count_in(done, 4);
    proof {
        assert(c1 * c2 <= c1 * c2 * c3) by (nonlinear_arith)
            requires
                c1 >= 1,
                c2 >= 1,
                c3 >= 1,
        ;
        assert(c1 * c2 * c3 <= c1 * c2 * c3 * c4) by (nonlinear_arith)
            requires
                c1 >= 1,
                c2 >= 1,
                c3 >= 1,
                c4 >= 1,
        ;
    }
    let p12 = product_or_none(counts[0], counts[1])?;
    let p123 = product_or_none(p12, counts[2])?;
    product_or_none(p123, counts[3])
}

/// How many robots, from the top of the list, the search for the tree
/// watches.
pub const TREE_ROBOTS: usize = 50;

/// The first `n` robots listed from `i` on.
pub open spec fn robots_prefix(s: Seq<u8>, i: int, n: nat) -> Option<Seq<Robot>>
    decreases n,
{
    if n == 0 {
        Some(Seq::empty())
    } else {
        match robot_at(s, i) {
            Some((r, e)) => match robots_prefix(s, e + 1, (n - 1) as nat) {
                Some(rest) => Some(seq![r] + rest),
                None => None,
            },
            None => None,
        }
    }
}

/// Column of robot `r` after `t` seconds; at 0 seconds, its column as given.
pub open spec fn col(r: Robot, t: int) -> int {
    if t == 0 {
        r.px as int
    } else {
        moved(r.px as int, r.vx as int, t, WIDTH as int)
    }
}

/// Row of robot `r` after `t` seconds; at 0 seconds, its row as given.
pub open spec fn row(r: Robot, t: int) -> int {
    if t == 0 {
        r.py as int
    } else {
        moved(r.py as int, r.vy as int, t, HEIGHT as int)
    }
}

pub open spec fn dist(a: int, b: int) -> nat {
    if a < b {
        (b - a) as nat
    } else {
        (a - b) as nat
    }
}

/// How far the columns of robots `0..k` jump along the list after `t`
/// seconds, starting from robot 0's column one second earlier: a rough
/// measure of how scattered they are.
pub open spec fn spread_x(rs: Seq<Robot>, t: int, k: int) -> nat
    decreases k,
{
    if k <= 0 {
        0
    } else if k == 1 {
        dist(col(rs[0], t), col(rs[0], t - 1))
    } else {
        spread_x(rs, t, k - 1) + dist(col(rs[k - 1], t), col(rs[k - 2], t))
    }
}

/// The same measure over rows.
pub open spec fn spread_y(rs: Seq<Robot>, t: int, k: int) -> nat
    decreases k,
{
    if k <= 0 {
        0
    } else if k == 1 {
        dist(row(rs[0], t), row(rs[0], t - 1))
    } else {
        spread_y(rs, t, k - 1) + dist(row(rs[k - 1], t), row(rs[k - 2], t))
    }
}

/// `s` is the first second in `1..=last` at which `spread` is least.
pub open spec fn first_least(spread: spec_fn(int) -> nat, s: int, last: int) -> bool {
    &&& 1 <= s <= last
    &&& forall|t: int| 1 <= t <= last ==> spread(s) <= #[trigger] spread(t)
    &&& forall|t: int| 1 <= t < s ==> spread(s) < #[trigger] spread(t)
}

/// `s` is the first second in `1..=WIDTH` at which the columns are least
/// scattered.
pub open spec fn best_column_step(rs: Seq<Robot>, s: int) -> bool {
    first_least(|t: int| spread_x(rs, t, TREE_ROBOTS as int), s, WIDTH as int)
}

/// `s` is the first second in `1..=HEIGHT` at which the rows are least
/// scattered.
pub open spec fn best_row_step(rs: Seq<Robot>, s: int) -> bool {
    first_least(|t: int| spread_y(rs, t, TREE_ROBOTS as int), s, HEIGHT as int)
}

/// `r`, below `WIDTH * HEIGHT`, is congruent to the best column step modulo
/// `WIDTH` and to the best row step modulo `HEIGHT`.
pub open spec fn is_tree_second(rs: Seq<Robot>, r: int) -> bool {
    &&& 0 <= r < 10403
    &&& exists|sx: int, sy: int|
        #![trigger best_column_step(rs, sx), best_row_step(rs, sy)]
        {
            &&& best_column_step(rs, sx)
            &&& best_row_step(rs, sy)
            &&& r % 101 == sx % 101
            &&& r % 103 == sy % 103
        }
}

proof fn lemma_step_mod(p: int, v: int, t: int, m: int)
    requires
        m > 0,
        t >= 1,
    ensures
        moved(p, v, t, m) == ((if t == 1 {
            p
        } else {
            moved(p, v, t - 1, m)
        }) + v) % m,
{
    if t > 1 {
        let a = p + (t - 1) * v;
        assert(p + t * v == a + v) by (nonlinear_arith)
            requires
                a == p + (t - 1) * v,
        ;
        vstd::arithmetic::div_mod::lemma_add_mod_noop(a, v, m);
        vstd::arithmetic::div_mod::lemma_add_mod_noop(a % m, v, m);
        vstd::arithmetic::div_mod::lemma_mod_twice(a, m);
    }
}

/// The second, modulo `WIDTH * HEIGHT`, at which the robots form the tree:
/// the columns repeat every `WIDTH` seconds and the rows every `HEIGHT`, so
/// it is the second congruent to the least scattered column step modulo
/// `WIDTH` and to the least scattered row step modulo `HEIGHT`.
pub fn tree_second(robots: &Vec<Robot>) -> (r: u64)
    requires
        robots.len() == TREE_ROBOTS,
    ensures
        is_tree_second(robots@, r as int),
{
    let ghost rs = robots@;
    let ghost fx = |t: int| spread_x(rs, t, TREE_ROBOTS as int);
    let ghost fy = |t: int| spread_y(rs, t, TREE_ROBOTS as int);
    let mut xs: Vec<i64> = Vec::new();
    let mut ys: Vec<i64> = Vec::new();
    let mut j: usize = 0;
    while j < TREE_ROBOTS
        invariant
            robots@ == rs,
            rs.len() == TREE_ROBOTS,
            j <= TREE_ROBOTS,
            xs.len() == j,
            ys.len() == j,
            forall|q: int| 0 <= q < j ==> #[trigger] xs@[q] == col(rs[q], 0),
            forall|q: int| 0 <= q < j ==> #[trigger] ys@[q] == row(rs[q], 0),
        decreases TREE_ROBOTS - j,
    {
        xs.push(robots[j].px as i64);
        ys.push(robots[j].py as i64);
        j = j + 1;
    }
    let mut sx: u64 = 0;
    let mut sy: u64 = 0;
    let mut min_x: u64 = u64::MAX;
    let mut min_y: u64 = u64::MAX;
    let mut t: u64 = 1;
    while t <= HEIGHT as u64
        invariant
            robots@ == rs,
            rs.len() == TREE_ROBOTS,
            1 <= t <= HEIGHT + 1,
            xs.len() == TREE_ROBOTS,
            ys.len() == TREE_ROBOTS,
            forall|q: int| 0 <= q < TREE_ROBOTS ==> #[trigger] xs@[q] == col(rs[q], t - 1),
            forall|q: int| 0 <= q < TREE_ROBOTS ==> #[trigger] ys@[q] == row(rs[q], t - 1),
            fx == (|t: int| spread_x(rs, t, TREE_ROBOTS as int)),
            fy == (|t: int| spread_y(rs, t, TREE_ROBOTS as int)),
            t == 1 ==> min_x == u64::MAX && min_y == u64::MAX,
            t > 1 ==> min_x == fx(sx as int) && first_least(
                fx,
                sx as int,
                if t - 1 < WIDTH {
                    t - 1
                } else {
                    WIDTH as int
                },
            ),
            t > 1 ==> min_y == fy(sy as int) && first_least(fy, sy as int, t - 1),
        decreases HEIGHT + 1 - t,
    {
        let mut prev_x: i64 = xs[0];
        let mut prev_y: i64 = ys[0];
        let mut tot_x: u64 = 0;
        let mut tot_y: u64 = 0;
        let mut k: usize = 0;
        while k < TREE_ROBOTS
            invariant
                robots@ == rs,
                rs.len() == TREE_ROBOTS,
                1 <= t <= HEIGHT,
                k <= TREE_ROBOTS,
                xs.len() == TREE_ROBOTS,
                ys.len() == TREE_ROBOTS,
                forall|q: int| 0 <= q < k ==> #[trigger] xs@[q] == col(rs[q], t as int),
                forall|q: int| k <= q < TREE_ROBOTS ==> #[trigger] xs@[q] == col(rs[q], t - 1),
                forall|q: int| 0 <= q < k ==> #[trigger] ys@[q] == row(rs[q], t as int),
                forall|q: int| k <= q < TREE_ROBOTS ==> #[trigger] ys@[q] == row(rs[q], t - 1),
                prev_x == if k == 0 {
                    col(rs[0], t - 1)
                } else {
                    col(rs[k - 1], t as int)
                },
                prev_y == if k == 0 {
                    row(rs[0], t - 1)
                } else {
                    row(rs[k - 1], t as int)
                },
                tot_x == spread_x(rs, t as int, k as int),
                tot_y == spread_y(rs, t as int, k as int),
                tot_x <= k * 0x100000000,
                tot_y <= k * 0x100000000,
            decreases TREE_ROBOTS - k,
        {
            let r = robots[k];
            proof {
                lemma_step_mod(r.px as int, r.vx as int, t as int, WIDTH as int);
                lemma_step_mod(r.py as int, r.vy as int, t as int, HEIGHT as int);
            }
            let x = wrap(xs[k] + r.vx as i64, WIDTH);
            let y = wrap(ys[k] + r.vy as i64, HEIGHT);
            xs.set(k, x);
            ys.set(k, y);
            let dx: u64 = if x < prev_x {
                (prev_x - x) as u64
            } else {
                (x - prev_x) as u64
            };
            let dy: u64 = if y < prev_y {
                (prev_y - y) as u64
            } else {
                (y - prev_y) as u64
            };
            tot_x = tot_x + dx;
            tot_y = tot_y + dy;
            prev_x = x;
            prev_y = y;
            k = k + 1;
        }
        proof {
            assert(tot_x == fx(t as int));
            assert(tot_y == fy(t as int));
        }
        if tot_x < min_x && t <= WIDTH as u64 {
            min_x = tot_x;
            sx = t;
        }
        if tot_y < min_y {
            min_y = tot_y;
            sy = t;
        }
        t = t + 1;
    }
    // 2 * fh == sx modulo WIDTH, and -2 * fw == sy modulo HEIGHT
    let fh: u64 = if sx % 2 == 0 {
        sx / 2
    } else {
        (sx + WIDTH as u64) / 2
    };
    let fw: u64 = if sy % 2 == 0 {
        HEIGHT as u64 - sy / 2
    } else {
        (HEIGHT as u64 - sy) / 2
    };
    let total = fw * WIDTH as u64 + fh * HEIGHT as u64;
    let r = total % (WIDTH * HEIGHT) as u64;
    proof {
        lemma_crt(sx as int, sy as int, fh as int, fw as int, total as int);
        assert(best_column_step(rs, sx as int));
        assert(best_row_step(rs, sy as int));
    }
    r
}

proof fn lemma_crt(sx: int, sy: int, fh: int, fw: int, total: int)
    requires
        1 <= sx <= 101,
        1 <= sy <= 103,
        fh == if sx % 2 == 0 {
            sx / 2
        } else {
            (sx + 101) / 2
        },
        fw == if sy % 2 == 0 {
            103 - sy / 2
        } else {
            (103 - sy) / 2
        },
        total == fw * 101 + fh * 103,
    ensures
        (total % (10403)) % 101 == sx % 101,
        (total % (10403)) % 103 == sy % 103,
{
    let w = WIDTH as int;
    let h = HEIGHT as int;
    let kx = if sx % 2 == 0 {
        fw + fh
    } else {
        fw + fh + 1
    };
    let ky = if sy % 2 == 0 {
        fw + fh - 2
    } else {
        fw + fh - 1
    };
    assert(total == w * kx + sx) by (nonlinear_arith)
        requires
            total == fw * w + fh * h,
            w == 101,
            h == 103,
            kx == if sx % 2 == 0 {
                fw + fh
            } else {
                fw + fh + 1
            },
            sx % 2 == 0 ==> 2 * fh == sx,
            sx % 2 != 0 ==> 2 * fh == sx + 101,
    ;
    assert(total == h * ky + sy) by (nonlinear_arith)
        requires
            total == fw * w + fh * h,
            w == 101,
            h == 103,
            ky == if sy % 2 == 0 {
                fw + fh - 2
            } else {
                fw + fh - 1
            },
            sy % 2 == 0 ==> 2 * fw == 206 - sy,
            sy % 2 != 0 ==> 2 * fw == 103 - sy,
    ;
    vstd::arithmetic::div_mod::lemma_mod_multiples_vanish(kx, sx, w);
    vstd::arithmetic::div_mod::lemma_mod_multiples_vanish(ky, sy, h);
    vstd::arithmetic::div_mod::lemma_mod_mod(total, w, h);
    vstd::arithmetic::mul::lemma_mul_is_commutative(w, h);
    vstd::arithmetic::div_mod::lemma_mod_mod(total, h, w);
}

/// The second at which the robots form the tree, from the first
/// `TREE_ROBOTS` robot lines; `None` where the input has fewer such lines.
pub fn part2(input: &str) -> (r: Option<u64>)
    ensures
        match robots_prefix(input.spec_bytes(), 0, TREE_ROBOTS as nat) {
            Some(rs) => r is Some && is_tree_second(rs, r->Some_0 as int),
            None => r is None,
        },
{
    inner_part2(input.as_bytes())
}

/// The second at which the robots form the tree, as `part2` says, from the
/// bytes of the input.
pub fn inner_part2(s: &[u8]) -> (r: Option<u64>)
    ensures
        match robots_prefix(s@, 0, TREE_ROBOTS as nat) {
            Some(rs) => r is Some && is_tree_second(rs, r->Some_0 as int),
            None => r is None,
        },
{
    let mut robots: Vec<Robot> = Vec::new();
    let mut i: usize = 0;
    while robots.len() < TREE_ROBOTS
        invariant
            robots.len() <= TREE_ROBOTS,
            robots_prefix(s@, 0, TREE_ROBOTS as nat) == match robots_prefix(
                s@,
                i as int,
                (TREE_ROBOTS - robots.len()) as nat,
            ) {
                Some(rest) => Some(robots@ + rest),
                None => None::<Seq<Robot>>,
            },
        decreases TREE_ROBOTS - robots.len(),
    {
        let ghost start = i as int;
        let ghost n = (TREE_ROBOTS - robots.len()) as nat;
        let r = match parse_robot(s, &mut i) {
            Some(r) => r,
            None => {
                proof {
                    assert(robots_prefix(s@, start, n) is None);
                }
                return None;
            },
        };
        let ghost before = robots@;
        robots.push(r);
        proof {
            match robots_prefix(s@, i + 1, (n - 1) as nat) {
                Some(rest) => {
                    assert(before + (seq![r] + rest) =~= robots@ + rest);
                },
                None => {},
            }
        }
        i = i + 1;
    }
    proof {
        assert(robots@ + Seq::<Robot>::empty() =~= robots@);
    }
    Some(tree_second(&robots))
}

} // verus!
