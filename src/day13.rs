use vstd::prelude::*;
use vstd::string::StringSliceAdditionalSpecFns;
use crate::text::{is_digit, number_at, read_number};

verus! {

/// Distance added to both prize coordinates in the second part.
pub const PRIZE_OFFSET: u64 = 10000000000000;

/// A claw machine: the moves of buttons A and B, and the prize position.
#[derive(Clone, Copy, Debug, PartialEq, Eq, Structural)]
pub struct Machine {
    pub ax: i64,
    pub ay: i64,
    pub bx: i64,
    pub by: i64,
    pub cx: i64,
    pub cy: i64,
}

/// The two-digit number at `k`.
pub open spec fn two_digits_at(s: Seq<u8>, k: int) -> Option<int> {
    if 0 <= k && k + 1 < s.len() && is_digit(s[k]) && is_digit(s[k + 1]) {
        Some((s[k] - 48) * 10 + (s[k + 1] - 48))
    } else {
        None
    }
}

/// The machine whose record starts at `i`, with `offset` added to the prize
/// coordinates, and the position of the line break that ends the record.
///
/// A record reads `Button A: X+dd, Y+dd`, `Button B: X+dd, Y+dd`,
/// `Prize: X=n, Y=n`, one per line; the button moves have two digits.
pub open spec fn machine_at(s: Seq<u8>, i: int, offset: nat) -> Option<(Machine, int)> {
    match (
        two_digits_at(s, i + 12),
        two_digits_at(s, i + 18),
        two_digits_at(s, i + 33),
        two_digits_at(s, i + 39),
        number_at(s, i + 51),
    ) {
        (Some(ax), Some(ay), Some(bx), Some(by), Some((cx, xe))) => if xe < s.len() && s[xe]
            == 44 {
            match number_at(s, xe + 4) {
                Some((cy, ye)) => if ye < s.len() && s[ye] == 10 {
                    Some(
                        (
                            Machine {
                                ax: ax as i64,
                                ay: ay as i64,
                                bx: bx as i64,
                                by: by as i64,
                                cx: (cx + offset) as i64,
                                cy: (cy + offset) as i64,
                            },
                            ye,
                        ),
                    )
                } else {
                    None
                },
                None => None,
            }
        } else {
            None
        },
        _ => None,
    }
}

fn read_two_digits(s: &[u8], k: usize) -> (r: Option<i64>)
    ensures
        match two_digits_at(s@, k as int) {
            Some(v) => r == Some(v as i64),
            None => r is None,
        },
{
    if k < s.len() && k + 1 < s.len() && 48 <= s[k] && s[k] <= 57 && 48 <= s[k + 1] && s[k + 1]
        <= 57 {
        Some(((s[k] - 48) as i64) * 10 + (s[k + 1] - 48) as i64)
    } else {
        None
    }
}

fn parse_machine(input: &[u8], i: &mut usize, offset: u64) -> (r: Option<Machine>)
    requires
        offset <= PRIZE_OFFSET,
    ensures
        match machine_at(input@, *old(i) as int, offset as nat) {
            Some((m, e)) => r == Some(m) && *final(i) == e && machine_in_range(m) && e > *old(i),
            None => r is None,
        },
{
    let start = *i;
    if start >= input.len() || input.len() - start < 58 {
        return None;
    }
    let ax = read_two_digits(input, start + 12);
    let ay = read_two_digits(input, start + 18);
    let bx = read_two_digits(input, start + 33);
    let by = read_two_digits(input, start + 39);
    let cx = read_number(input, start + 51);
    match (ax, ay, bx, by, cx) {
        (Some(ax), Some(ay), Some(bx), Some(by), Some((cx, xe))) => {
            if xe < input.len() && input[xe] == 44 && xe <= usize::MAX - 4 {
                match read_number(input, xe + 4) {
                    Some((cy, ye)) => {
                        if ye < input.len() && input[ye] == 10 {
                            proof {
                                crate::text::lemma_pow10_values();
                                assert(two_digits_at(input@, start + 12) == Some(ax as int));
                                assert(number_at(input@, start + 51) == Some((cx as nat, xe as int)));
                                assert(number_at(input@, xe + 4) == Some((cy as nat, ye as int)));
                            }
                            *i = ye;
                            return Some(
                                Machine {
                                    ax,
                                    ay,
                                    bx,
                                    by,
                                    cx: (cx + offset) as i64,
                                    cy: (cy + offset) as i64,
                                },
                            );
                        }
                        None
                    },
                    None => None,
                }
            } else {
                None
            }
        },
        _ => None,
    }
}

/// The button moves have two digits and the prize coordinates stay below
/// `2^60`.
pub open spec fn machine_in_range(m: Machine) -> bool {
    &&& 0 <= m.ax < 100
    &&& 0 <= m.ay < 100
    &&& 0 <= m.bx < 100
    &&& 0 <= m.by < 100
    &&& 0 <= m.cx < 0x1000000000000000
    &&& 0 <= m.cy < 0x1000000000000000
}

pub open spec fn abs(x: int) -> int {
    if x < 0 {
        -x
    } else {
        x
    }
}

/// Integer division rounded toward zero, as Rust's `/` on signed integers.
pub open spec fn trunc_div(n: int, d: int) -> int {
    if (n < 0) == (d < 0) {
        abs(n) / abs(d)
    } else {
        -(abs(n) / abs(d))
    }
}

/// The determinant of the two button moves: not 0 exactly where the moves
/// are independent.
pub open spec fn det_of(m: Machine) -> int {
    m.ax * m.by - m.ay * m.bx
}

/// Cramer's numerator of the presses of A.
pub open spec fn a_num(m: Machine) -> int {
    m.cx * m.by - m.cy * m.bx
}

/// Cramer's numerator of the presses of B.
pub open spec fn b_num(m: Machine) -> int {
    m.ax * m.cy - m.ay * m.cx
}

/// Pressing A `a` times and B `b` times reaches the prize exactly.
pub open spec fn solves(m: Machine, a: int, b: int) -> bool {
    a * m.ax + b * m.bx == m.cx && a * m.ay + b * m.by == m.cy
}

/// Press counts that may be used: none negative and, where `capped`, none
/// above 100.
pub open spec fn allowed(a: int, b: int, capped: bool) -> bool {
    0 <= a && 0 <= b && (!capped || (a <= 100 && b <= 100))
}

/// Tokens to win the prize of `m`: where the moves are independent, the
/// only press counts that can reach the prize are Cramer's quotients (taken
/// here rounded toward zero); where they reach it exactly and are allowed,
/// A costs 3 tokens a press and B one. Any other machine costs 0.
pub open spec fn prize_cost(m: Machine, capped: bool) -> nat {
    let d = det_of(m);
    let a = trunc_div(a_num(m), d);
    let b = trunc_div(b_num(m), d);
    if d != 0 && solves(m, a, b) && allowed(a, b, capped) {
        (3 * a + b) as nat
    } else {
        0
    }
}

/// Press counts that reach the prize are Cramer's quotients exactly.
proof fn lemma_solution_quotients(m: Machine, a: int, b: int)
    requires
        solves(m, a, b),
    ensures
        a * det_of(m) == a_num(m),
        b * det_of(m) == b_num(m),
{
    let (ax, ay, bx, by, cx, cy) = (m.ax as int, m.ay as int, m.bx as int, m.by as int, m.cx as int, m.cy as int);
    assert(a * (ax * by - ay * bx) == cx * by - cy * bx) by (nonlinear_arith)
        requires
            a * ax + b * bx == cx,
            a * ay + b * by == cy,
    ;
    assert(b * (ax * by - ay * bx) == ax * cy - ay * cx) by (nonlinear_arith)
        requires
            a * ax + b * bx == cx,
            a * ay + b * by == cy,
    ;
}

/// An exact quotient is what division rounded toward zero gives.
proof fn lemma_exact_trunc_div(n: int, d: int, q: int)
    requires
        d != 0,
        q * d == n,
    ensures
        trunc_div(n, d) == q,
{
    assert(abs(n) == abs(q) * abs(d)) by (nonlinear_arith)
        requires
            q * d == n,
            abs(n) == if n < 0 {
                -n
            } else {
                n
            },
            abs(q) == if q < 0 {
                -q
            } else {
                q
            },
            abs(d) == if d < 0 {
                -d
            } else {
                d
            },
    ;
    vstd::arithmetic::div_mod::lemma_fundamental_div_mod_converse_div(abs(n), abs(d), abs(q), 0);
    if n != 0 {
        assert((n < 0) == (d < 0) <==> q > 0) by (nonlinear_arith)
            requires
                q * d == n,
                n != 0,
                d != 0,
        ;
    } else {
        assert(q == 0) by (nonlinear_arith)
            requires
                q * d == n,
                n == 0,
                d != 0,
        ;
    }
}

/// With independent moves, a machine costs `3 * a + b` for the press counts
/// `a`, `b` that reach its prize exactly, where those counts are allowed,
/// and nothing where they are not.
pub proof fn lemma_cost_of_solution(m: Machine, capped: bool, a: int, b: int)
    requires
        det_of(m) != 0,
        solves(m, a, b),
    ensures
        prize_cost(m, capped) == if allowed(a, b, capped) {
            (3 * a + b) as nat
        } else {
            0
        },
{
    lemma_solution_quotients(m, a, b);
    lemma_exact_trunc_div(a_num(m), det_of(m), a);
    lemma_exact_trunc_div(b_num(m), det_of(m), b);
}

/// A machine costs something only where allowed press counts reach its
/// prize exactly, and then it costs `3 * a + b` for them.
pub proof fn lemma_cost_needs_solution(m: Machine, capped: bool)
    ensures
        prize_cost(m, capped) > 0 ==> exists|a: int, b: int|
            #[trigger] solves(m, a, b) && allowed(a, b, capped) && prize_cost(m, capped) == 3 * a
                + b,
{
    if prize_cost(m, capped) > 0 {
        let a = trunc_div(a_num(m), det_of(m));
        let b = trunc_div(b_num(m), det_of(m));
        assert(solves(m, a, b));
    }
}

/// The machines whose records start at `i`, each record followed by one
/// blank line but the last, which ends the input.
pub open spec fn machines_from(s: Seq<u8>, i: int, offset: nat) -> Option<Seq<Machine>>
    decreases s.len() + 2 - i,
{
    if i == s.len() + 1 {
        Some(Seq::empty())
    } else if i < 0 || i > s.len() + 1 {
        None
    } else {
        match machine_at(s, i, offset) {
            Some((m, e)) => if e > i {
                match machines_from(s, e + 2, offset) {
                    Some(rest) => Some(seq![m] + rest),
                    None => None,
                }
            } else {
                None
            },
            None => None,
        }
    }
}

pub open spec fn total_cost(ms: Seq<Machine>, capped: bool) -> nat
    decreases ms.len(),
{
    if ms.len() == 0 {
        0
    } else {
        prize_cost(ms[0], capped) + total_cost(ms.drop_first(), capped)
    }
}

fn trunc_div_exec(n: i128, d: i128) -> (q: i128)
    requires
        d != 0,
        -0x1000000000000000000000000 < n < 0x1000000000000000000000000,
        -0x1000000000000000000000000 < d < 0x1000000000000000000000000,
    ensures
        q == trunc_div(n as int, d as int),
        abs(q as int) <= abs(n as int),
{
    let nm: u128 = if n < 0 {
        (-n) as u128
    } else {
        n as u128
    };
    let dm: u128 = if d < 0 {
        (-d) as u128
    } else {
        d as u128
    };
    let q = nm / dm;
    proof {
        assert(q <= nm) by (nonlinear_arith)
            requires
                dm >= 1,
                q == nm / dm,
        ;
    }
    if (n < 0) == (d < 0) {
        q as i128
    } else {
        -(q as i128)
    }
}

/// Tokens to win the prize of `m`, as `prize_cost` says.
pub fn cost(m: &Machine, capped: bool) -> (r: u128)
    requires
        machine_in_range(*m),
    ensures
        r == prize_cost(*m, capped),
{
    let ax = m.ax as i128;
    let ay = m.ay as i128;
    let bx = m.bx as i128;
    let by = m.by as i128;
    let cx = m.cx as i128;
    let cy = m.cy as i128;
    proof {
        assert(0 <= ax * by < 10000) by (nonlinear_arith)
            requires
                0 <= ax < 100,
                0 <= by < 100,
        ;
        assert(0 <= ay * bx < 10000) by (nonlinear_arith)
            requires
                0 <= ay < 100,
                0 <= bx < 100,
        ;
        assert(0 <= ax * cy < 0x100000000000000000) by (nonlinear_arith)
            requires
                0 <= ax < 100,
                0 <= cy < 0x1000000000000000,
        ;
        assert(0 <= ay * cx < 0x100000000000000000) by (nonlinear_arith)
            requires
                0 <= ay < 100,
                0 <= cx < 0x1000000000000000,
        ;
    }
    let det = ax * by - ay * bx;
    if det == 0 {
        return 0;
    }
    proof {
        assert(0 <= cx * by < 0x100000000000000000) by (nonlinear_arith)
            requires
                0 <= by < 100,
                0 <= cx < 0x1000000000000000,
        ;
        assert(0 <= cy * bx < 0x100000000000000000) by (nonlinear_arith)
            requires
                0 <= bx < 100,
                0 <= cy < 0x1000000000000000,
        ;
    }
    let an = cx * by - cy * bx;
    let bn = ax * cy - ay * cx;
    let a = trunc_div_exec(an, det);
    let b = trunc_div_exec(bn, det);
    proof {
        assert(abs(a * ax) <= 0x10000000000000000000 && abs(a * ay) <= 0x10000000000000000000)
            by (nonlinear_arith)
            requires
                abs(a as int) <= 0x100000000000000000,
                0 <= ax < 100,
                0 <= ay < 100,
        ;
        assert(abs(b * bx) <= 0x10000000000000000000 && abs(b * by) <= 0x10000000000000000000)
            by (nonlinear_arith)
            requires
                abs(b as int) <= 0x100000000000000000,
                0 <= bx < 100,
                0 <= by < 100,
        ;
    }
    if !(a * ax + b * bx == cx && a * ay + b * by == cy) {
        proof {
            let ae = trunc_div(a_num(*m), det_of(*m));
            let be = trunc_div(b_num(*m), det_of(*m));
            if solves(*m, ae, be) {
                lemma_solution_quotients(*m, ae, be);
                lemma_exact_trunc_div(a_num(*m), det_of(*m), ae);
                lemma_exact_trunc_div(b_num(*m), det_of(*m), be);
            }
        }
        return 0;
    }
    proof {
        lemma_cost_of_solution(*m, capped, a as int, b as int);
    }
    if a < 0 || b < 0 || (capped && (a > 100 || b > 100)) {
        return 0;
    }
    (3 * a + b) as u128
}

pub open spec fn after(done: Seq<Machine>, rest: Option<Seq<Machine>>) -> Option<Seq<Machine>> {
    match rest {
        Some(r) => Some(done + r),
        None => None,
    }
}

proof fn lemma_total_cost_concat(x: Seq<Machine>, y: Seq<Machine>, capped: bool)
    ensures
        total_cost(x + y, capped) == total_cost(x, capped) + total_cost(y, capped),
    decreases x.len(),
{
    if x.len() > 0 {
        assert((x + y).drop_first() =~= x.drop_first() + y);
        lemma_total_cost_concat(x.drop_first(), y, capped);
    } else {
        assert(x + y =~= y);
    }
}

/// Sum of the tokens over every machine in `input`, with `offset` added to
/// the prize coordinates; `None` where the input is not a list of machine
/// records or the sum does not fit in a `u64`.
fn total_tokens(input: &[u8], offset: u64, capped: bool) -> (r: Option<u64>)
    requires
        offset <= PRIZE_OFFSET,
    ensures
        match machines_from(input@, 0, offset as nat) {
            Some(ms) => if total_cost(ms, capped) <= u64::MAX {
                r == Some(total_cost(ms, capped) as u64)
            } else {
                r is None
            },
            None => r is None,
        },
{
    if input.len() == 0 {
        return None;
    }
    let mut i: usize = 0;
    let mut acc: u64 = 0;
    let ghost mut done: Seq<Machine> = Seq::empty();
    assert(done + Seq::<Machine>::empty() =~= Seq::<Machine>::empty());
    loop
        invariant
            offset <= PRIZE_OFFSET,
            i < input.len(),
            machines_from(input@, 0, offset as nat) == after(
                done,
                machines_from(input@, i as int, offset as nat),
            ),
            acc == total_cost(done, capped),
        decreases input.len() - i,
    {
        let ghost start = i as int;
        let m = match parse_machine(input, &mut i, offset) {
            Some(m) => m,
            None => {
                return None;
            },
        };
        let c = cost(&m, capped);
        proof {
            let rest = machines_from(input@, i + 2, offset as nat);
            assert(machines_from(input@, start, offset as nat) == after(seq![m], rest));
            lemma_total_cost_concat(done, seq![m], capped);
            assert(total_cost(seq![m], capped) == prize_cost(m, capped)) by {
                assert(seq![m].drop_first() =~= Seq::<Machine>::empty());
                assert(seq![m][0] == m);
                assert(total_cost(Seq::<Machine>::empty(), capped) == 0);
            }
            match rest {
                Some(t) => {
                    assert(done + (seq![m] + t) =~= (done + seq![m]) + t);
                    lemma_total_cost_concat(done + seq![m], t, capped);
                },
                None => {},
            }
            done = done + seq![m];
        }
        if c > (u64::MAX - acc) as u128 {
            return None;
        }
        acc = acc + c as u64;
        if i + 1 == input.len() {
            proof {
                assert(done + Seq::<Machine>::empty() =~= done);
            }
            return Some(acc);
        }
        if i + 2 >= input.len() {
            return None;
        }
        i = i + 2;
    }
}

/// Tokens to win every prize that can be won with at most 100 presses of
/// each button.
pub fn part1(input: &str) -> (r: Option<u64>)
    ensures
        match machines_from(input.spec_bytes(), 0, 0) {
            Some(ms) => if total_cost(ms, true) <= u64::MAX {
                r == Some(total_cost(ms, true) as u64)
            } else {
                r is None
            },
            None => r is None,
        },
{
    total_tokens(input.as_bytes(), 0, true)
}

/// Tokens to win every prize once each prize coordinate is moved by
/// `PRIZE_OFFSET`, with no cap on the presses.
pub fn part2(input: &str) -> (r: Option<u64>)
    ensures
        match machines_from(input.spec_bytes(), 0, PRIZE_OFFSET as nat) {
            Some(ms) => if total_cost(ms, false) <= u64::MAX {
                r == Some(total_cost(ms, false) as u64)
            } else {
                r is None
            },
            None => r is None,
        },
{
    total_tokens(input.as_bytes(), PRIZE_OFFSET, false)
}

} // verus!
