use vstd::prelude::*;
use vstd::arithmetic::power2::{
    pow2, lemma2_to64, lemma2_to64_rest, lemma_pow2_adds, lemma_pow2_pos,
    lemma_pow2_strictly_increases,
};
use vstd::arithmetic::div_mod::lemma_div_denominator;
use crate::day17::computer::{execution, first_output, Computer, MachineError};

verus! {

/// Longest program the search accepts: one octal digit of the seed per
/// program entry, and 21 of them fill 63 bits.
pub const MAX_SEARCH_DIGITS: usize = 21;

/// Why the search returned no seed.
#[derive(Clone, Copy, Debug, PartialEq, Eq, Structural)]
pub enum SearchError {
    /// No value in the searched space makes the program print itself.
    NotFound,
}

/// `8^k`.
pub open spec fn pow8(k: nat) -> nat {
    pow2(3 * k)
}

/// The first digit that `x` makes program `p` emit is `p[k]`.
pub open spec fn digit_matches(p: Seq<u64>, x: nat, k: nat) -> bool {
    first_output(x as u64, p) == Ok::<Option<u64>, MachineError>(Some(p[k as int]))
}

/// Running `p` from `a` emits exactly `p`.
pub open spec fn is_quine(p: Seq<u64>, a: u64) -> bool {
    execution(a, p) == Ok::<Seq<u64>, MachineError>(p)
}

/// `a` has one octal digit per program entry, each right shift of `a` by
/// `3 * k` bits starts with the output digit `p[k]`, and the full run of `p`
/// from `a` reproduces `p`.
pub open spec fn qualifies(p: Seq<u64>, a: nat) -> bool {
    &&& a < pow8(p.len())
    &&& forall|k: nat| k < p.len() ==> #[trigger] digit_matches(p, a / pow8(k), k)
    &&& is_quine(p, a as u64)
}

/// `v`, taken as the seed shifted right by `3 * j` bits, already matches the
/// entries from `j` on.
pub open spec fn suffix_matches(p: Seq<u64>, v: nat, j: nat) -> bool {
    forall|k: nat| j <= k < p.len() ==> #[trigger] digit_matches(p, v / pow8((k - j) as nat), k)
}

proof fn lemma_pow8_facts(j: nat, m: nat)
    ensures
        pow8(0) == 1,
        pow8(1) == 8,
        pow8(j) > 0,
        pow8(j) * pow8(m) == pow8(j + m),
        j <= m ==> pow8(j) <= pow8(m),
        pow8(21) == 0x8000000000000000,
{
    lemma2_to64();
    lemma2_to64_rest();
    lemma_pow2_pos(3 * j);
    lemma_pow2_adds(3 * j, 3 * m);
    assert(3 * j + 3 * m == 3 * (j + m));
    if j < m {
        lemma_pow2_strictly_increases(3 * j, 3 * m);
    }
}

/// Shifting right by `3 * j` and then by `3 * m` bits is shifting by `3 * (j + m)`.
proof fn lemma_div_pow8(x: nat, j: nat, m: nat)
    ensures
        x / pow8(j) / pow8(m) == x / pow8(j + m),
{
    lemma_pow8_facts(j, m);
    lemma_pow8_facts(m, j);
    lemma_div_denominator(x as int, pow8(j) as int, pow8(m) as int);
}

/// A value whose top digits `t / 8 == v` match from `i + 1` on, and whose own
/// first output matches entry `i`, matches from `i` on.
proof fn lemma_suffix_extend(p: Seq<u64>, v: nat, t: nat, i: nat)
    requires
        suffix_matches(p, v, i + 1),
        t / 8 == v,
        digit_matches(p, t, i),
    ensures
        suffix_matches(p, t, i),
{
    lemma_pow8_facts(0, 0);
    assert forall|k: nat| i <= k < p.len() implies #[trigger] digit_matches(
        p,
        t / pow8((k - i) as nat),
        k,
    ) by {
        if k == i {
            assert((k - i) as nat == 0);
            assert(t / pow8((k - i) as nat) == t);
        } else {
            lemma_div_pow8(t, 1, (k - i - 1) as nat);
            lemma_pow8_facts(1, 0);
            assert((1 + (k - i - 1)) as nat == (k - i) as nat);
            assert(digit_matches(p, v / pow8((k - (i + 1)) as nat), k));
        }
    }
}

impl Computer {
    /// Whether the first digit that `a` makes the loaded program emit equals
    /// entry `i` of the program.
    pub fn check(&mut self, a: u64, i: usize) -> (r: bool)
        requires
            i < old(self).program.len(),
        ensures
            final(self).program == old(self).program,
            r == (first_output(a, old(self).program@) == Ok::<Option<u64>, MachineError>(
                Some(old(self).program@[i as int]),
            )),
    {
        self.reset(a);
        match self.run_until_output() {
            Ok(Some(v)) => v == self.program[i],
            _ => false,
        }
    }

    /// Whether the full run from `a` reproduces the loaded program.
    pub fn reproduces_program(&mut self, a: u64) -> (r: bool)
        ensures
            final(self).program == old(self).program,
            r == is_quine(old(self).program@, a),
    {
        self.reset(a);
        match self.run() {
            Ok(out) => {
                let r = same_digits(&out, &self.program);
                proof {
                    if !r {
                        assert(!(out@ =~= self.program@));
                    }
                }
                r
            },
            Err(_) => false,
        }
    }
}

fn same_digits(x: &Vec<u64>, y: &Vec<u64>) -> (r: bool)
    ensures
        r == (x@ == y@),
{
    if x.len() != y.len() {
        return false;
    }
    let mut i: usize = 0;
    while i < x.len()
        invariant
            x.len() == y.len(),
            i <= x.len(),
            forall|j: int| 0 <= j < i ==> x@[j] == y@[j],
        decreases x.len() - i,
    {
        if x[i] != y[i] {
            return false;
        }
        i = i + 1;
    }
    assert(x@ =~= y@);
    true
}

/// A search node: a candidate base (a seed prefix shifted left by three
/// bits) and the index of the program entry its next digit must reproduce.
pub type Node = (u64, usize);

/// The least seed below node `e`.
pub open spec fn lo(e: Node) -> int {
    e.0 as int * pow8(e.1 as nat) as int
}

/// The seed just past those below node `e`.
pub open spec fn hi(e: Node) -> int {
    (e.0 as int + 8) * pow8(e.1 as nat) as int
}

pub open spec fn below(e: Node, a: int) -> bool {
    lo(e) <= a < hi(e)
}

/// Node `e` may stand on the stack: its base holds whole digits that already
/// reproduce the entries after its index, and all its seeds are in range.
pub open spec fn node_ok(p: Seq<u64>, e: Node) -> bool {
    &&& e.1 < p.len()
    &&& e.0 % 8 == 0
    &&& suffix_matches(p, (e.0 / 8) as nat, (e.1 + 1) as nat)
    &&& hi(e) <= pow8(p.len())
}

/// Stack invariant: every node is valid, the nodes' seed ranges are disjoint
/// and fall toward the top, and every qualifying seed lies below some node.
pub open spec fn stack_ok(p: Seq<u64>, st: Seq<Node>) -> bool {
    &&& forall|m: int| 0 <= m < st.len() ==> #[trigger] node_ok(p, st[m])
    &&& forall|m1: int, m2: int|
        0 <= m1 < m2 < st.len() ==> hi(#[trigger] st[m2]) <= lo(#[trigger] st[m1])
    &&& forall|a: nat|
        #[trigger] qualifies(p, a) ==> exists|m: int|
            0 <= m < st.len() && #[trigger] below(st[m], a as int)
}

/// The child of node `(8 * v, i)` for digit value `t = 8 * v + d`.
proof fn lemma_child_range(t: int, i: nat)
    requires
        t >= 0,
        i >= 1,
    ensures
        (8 * t) * pow8((i - 1) as nat) == t * pow8(i),
        (8 * t + 8) * pow8((i - 1) as nat) == (t + 1) * pow8(i),
{
    lemma_pow8_facts(1, (i - 1) as nat);
    assert((1 + (i - 1)) as nat == i);
    let q = pow8((i - 1) as nat) as int;
    assert((8 * t) * q == t * (8 * q)) by (nonlinear_arith);
    assert((8 * t + 8) * q == (t + 1) * (8 * q)) by (nonlinear_arith);
}

/// A seed `a` whose first output matches entry 0 and whose higher digits
/// `a / 8 == v` match from entry 1 on, and whose full run reproduces the
/// program, qualifies.
proof fn lemma_qualifies_from_digits(p: Seq<u64>, v: nat, a: nat)
    requires
        suffix_matches(p, v, 1),
        a / 8 == v,
        digit_matches(p, a, 0),
        a < pow8(p.len()),
        is_quine(p, a as u64),
    ensures
        qualifies(p, a),
{
    lemma_suffix_extend(p, v, a, 0);
    lemma_pow8_facts(0, 0);
    assert forall|k: nat| k < p.len() implies #[trigger] digit_matches(p, a / pow8(k), k) by {
        assert(digit_matches(p, a / pow8((k - 0) as nat), k));
    }
}

/// The smallest seed `a` below `8^len` whose octal digits each reproduce the
/// program entry at their position as first output and whose full run
/// reproduces the program; `NotFound` where there is none.
///
/// The search runs depth first over an explicit stack of nodes, fixing one
/// octal digit per level from the last program entry back to the first. A
/// digit is kept only where the first output of the seed so far matches the
/// entry; digits are pushed in decreasing order so that nodes leave the
/// stack in increasing order of their seeds, and at the last level the
/// digits are tried in increasing order, each confirmed by a full run.
///
/// The digit-wise condition holds of programs that emit one digit per loop
/// and shift A right by three bits per loop; for programs of another shape
/// the search may miss a seed that reproduces the program.
pub fn find_min_quine_seed(program: &Vec<u64>) -> (r: Result<u64, SearchError>)
    requires
        program.len() <= MAX_SEARCH_DIGITS,
    ensures
        match r {
            Ok(a) => {
                &&& qualifies(program@, a as nat)
                &&& is_quine(program@, a)
                &&& forall|b: nat| b < a ==> !#[trigger] qualifies(program@, b)
            },
            Err(SearchError::NotFound) => forall|b: nat| !#[trigger] qualifies(program@, b),
        },
{
    let mut computer = Computer::new(0, program.clone());
    proof {
        assert(computer.program@ =~= program@);
        lemma_pow8_facts(0, 0);
    }
    let n = program.len();
    if n == 0 {
        if computer.reproduces_program(0) {
            return Ok(0);
        }
        return Err(SearchError::NotFound);
    }
    let ghost p = program@;
    let mut stack: Vec<Node> = Vec::new();
    stack.push((0, n - 1));
    proof {
        lemma_pow8_facts((n - 1) as nat, 1);
        assert(((n - 1) + 1) as nat == n as nat);
        lemma_pow8_facts(n as nat, 21);
        assert(hi((0, (n - 1) as usize)) == pow8(n as nat)) by (nonlinear_arith)
            requires
                hi((0, (n - 1) as usize)) == (0 + 8) * pow8((n - 1) as nat),
                pow8((n - 1) as nat) * pow8(1) == pow8(n as nat),
                pow8(1) == 8,
        ;
        assert(node_ok(p, stack@[0]));
        assert forall|a: nat| #[trigger] qualifies(p, a) implies exists|m: int|
            0 <= m < stack@.len() && #[trigger] below(stack@[m], a as int) by {
            assert(below(stack@[0], a as int));
        }
    }
    while stack.len() > 0
        invariant
            computer.program@ == p,
            p == program@,
            n == p.len(),
            1 <= n <= MAX_SEARCH_DIGITS,
            pow8(n as nat) <= 0x8000000000000000,
            stack_ok(p, stack@),
        decreases
            if stack.len() == 0 {
                0
            } else {
                pow8(n as nat) - lo(stack@.last())
            },
            if stack.len() == 0 {
                0
            } else {
                stack@.last().1 as int
            },
    {
        let ghost old_stack = stack@;
        let (s, i) = match stack.pop() {
            Some(e) => e,
            None => {
                return Err(SearchError::NotFound);
            },
        };
        let ghost top = (s, i);
        let ghost rest = stack@;
        proof {
            assert(old_stack.last() == top);
            assert(rest =~= old_stack.drop_last());
            assert(node_ok(p, old_stack[old_stack.len() - 1]));
            lemma_pow8_facts(i as nat, n as nat);
            lemma_pow8_facts(0, 0);
            assert(lo(top) < hi(top)) by (nonlinear_arith)
                requires
                    lo(top) == s * pow8(i as nat),
                    hi(top) == (s + 8) * pow8(i as nat),
                    pow8(i as nat) > 0,
            ;
        }
        if i == 0 {
            let mut d: u64 = 0;
            proof {
                assert(top.1 == 0);
                assert(pow8(top.1 as nat) == 1);
                assert(lo(top) == s && hi(top) == s + 8) by (nonlinear_arith)
                    requires
                        lo(top) == s * pow8(top.1 as nat),
                        hi(top) == (s + 8) * pow8(top.1 as nat),
                        pow8(top.1 as nat) == 1,
                ;
            }
            while d < 8
                invariant
                    computer.program@ == p,
                    p == program@,
                    n == p.len(),
                    i == 0,
                    d <= 8,
                    old_stack.len() > 0,
                    stack@ == rest,
                    rest == old_stack.drop_last(),
                    lo(top) == s,
                    hi(top) == s + 8,
                    old_stack.last() == top,
                    top == (s, i),
                    stack_ok(p, old_stack),
                    node_ok(p, top),
                    pow8(0) == 1,
                    forall|b: nat| s <= b < s + d ==> !#[trigger] qualifies(p, b),
                decreases 8 - d,
            {
                let a = s + d;
                if computer.check(a, 0) && computer.reproduces_program(a) {
                    proof {
                        lemma_qualifies_from_digits(p, (s / 8) as nat, a as nat);
                        assert forall|b: nat| b < a implies !#[trigger] qualifies(p, b) by {
                            if qualifies(p, b) {
                                let m = choose|m: int|
                                    0 <= m < old_stack.len() && #[trigger] below(
                                        old_stack[m],
                                        b as int,
                                    );
                                if m < old_stack.len() - 1 {
                                    assert(hi(old_stack[old_stack.len() - 1]) <= lo(
                                        old_stack[m],
                                    ));
                                } else {
                                    assert(old_stack[m] == top);
                                    assert(s <= b < s + d);
                                }
                            }
                        }
                    }
                    return Ok(a);
                }
                proof {
                    if qualifies(p, a as nat) {
                        assert(digit_matches(p, a as nat / pow8(0), 0));
                    }
                }
                d = d + 1;
            }
            proof {
                assert forall|a: nat| #[trigger] qualifies(p, a) implies exists|m: int|
                    0 <= m < stack@.len() && #[trigger] below(stack@[m], a as int) by {
                    let m = choose|m: int|
                        0 <= m < old_stack.len() && #[trigger] below(old_stack[m], a as int);
                    if m == old_stack.len() - 1 {
                        assert(old_stack[m] == top);
                    }
                    assert(below(stack@[m], a as int));
                }
                if stack.len() > 0 {
                    assert(stack@.last() == old_stack[stack.len() - 1]);
                    assert(hi(old_stack[old_stack.len() - 1]) <= lo(old_stack[stack.len() - 1]));
                }
            }
        } else {
            let ghost v = (s / 8) as nat;
            let mut d: u64 = 8;
            proof {
                lemma_pow8_facts(1, i as nat);
                assert forall|a: nat| #[trigger] qualifies(p, a) implies (s * pow8(i as nat) <= a < (s
                    + d) * pow8(i as nat)) || exists|m: int|
                    0 <= m < stack@.len() && #[trigger] below(stack@[m], a as int) by {
                    let m = choose|m: int|
                        0 <= m < old_stack.len() && #[trigger] below(old_stack[m], a as int);
                    if m < old_stack.len() - 1 {
                        assert(below(stack@[m], a as int));
                    } else {
                        assert(old_stack[m] == top);
                    }
                }
                assert forall|m: int| 0 <= m < stack@.len() implies lo(#[trigger] stack@[m]) >= (s
                    + d) * pow8(i as nat) by {
                    assert(hi(old_stack[old_stack.len() - 1]) <= lo(old_stack[m]));
                }
            }
            while d > 0
                invariant
                    computer.program@ == p,
                    p == program@,
                    n == p.len(),
                    1 <= i < n,
                    d <= 8,
                    s % 8 == 0,
                    v == s / 8,
                    (s + 8) * pow8(i as nat) <= pow8(n as nat),
                    pow8(n as nat) <= 0x8000000000000000,
                    pow8(i as nat) >= 8,
                    suffix_matches(p, v, (i + 1) as nat),
                    old_stack.len() > 0,
                    rest == old_stack.drop_last(),
                    old_stack.last() == top,
                    top == (s, i),
                    stack@.len() >= rest.len(),
                    forall|m: int| 0 <= m < rest.len() ==> #[trigger] stack@[m] == rest[m],
                    forall|m: int| 0 <= m < stack@.len() ==> #[trigger] node_ok(p, stack@[m]),
                    forall|m1: int, m2: int|
                        0 <= m1 < m2 < stack@.len() ==> hi(#[trigger] stack@[m2]) <= lo(
                            #[trigger] stack@[m1],
                        ),
                    forall|m: int|
                        0 <= m < stack@.len() ==> lo(#[trigger] stack@[m]) >= (s + d) * pow8(
                            i as nat,
                        ),
                    forall|m: int|
                        rest.len() <= m < stack@.len() ==> (#[trigger] stack@[m]).1 == i - 1,
                    forall|a: nat|
                        #[trigger] qualifies(p, a) ==> (s * pow8(i as nat) <= a < (s + d) * pow8(
                            i as nat,
                        )) || exists|m: int|
                            0 <= m < stack@.len() && #[trigger] below(stack@[m], a as int),
                decreases d,
            {
                d = d - 1;
                let t = s + d;
                proof {
                    assert(t * 8 < 0x8000000000000000) by (nonlinear_arith)
                        requires
                            t < s + 8,
                            (s + 8) * pow8(i as nat) <= 0x8000000000000000,
                            pow8(i as nat) >= 8,
                    ;
                    lemma_child_range(t as int, i as nat);
                }
                let ghost before = stack@;
                if computer.check(t, i) {
                    stack.push((t * 8, i - 1));
                    proof {
                        let c: Node = ((t * 8) as u64, (i - 1) as usize);
                        assert(stack@.last() == c);
                        assert((t * 8) / 8 == t);
                        lemma_suffix_extend(p, v, t as nat, i as nat);
                        assert((i - 1 + 1) as nat == i as nat);
                        assert(hi(c) <= (s + 8) * pow8(i as nat)) by (nonlinear_arith)
                            requires
                                hi(c) == (t + 1) * pow8(i as nat),
                                t + 1 <= s + 8,
                        ;
                        assert(node_ok(p, c));
                    }
                }
                proof {
                    assert((s + d) * pow8(i as nat) <= (s + d + 1) * pow8(i as nat)) by (
                    nonlinear_arith);
                    assert forall|a: nat| #[trigger] qualifies(p, a) implies (s * pow8(i as nat) <= a
                        < (s + d) * pow8(i as nat)) || exists|m: int|
                        0 <= m < stack@.len() && #[trigger] below(stack@[m], a as int) by {
                        if s * pow8(i as nat) <= a < (s + d + 1) * pow8(i as nat) && !(s * pow8(
                            i as nat,
                        ) <= a < (s + d) * pow8(i as nat)) {
                            assert(t * pow8(i as nat) <= a < (t + 1) * pow8(i as nat));
                            assert(a / pow8(i as nat) == t) by {
                                assert((t + 1) * pow8(i as nat) == t * pow8(i as nat) + pow8(
                                    i as nat,
                                )) by (nonlinear_arith);
                                vstd::arithmetic::div_mod::lemma_fundamental_div_mod_converse_div(
                                    a as int,
                                    pow8(i as nat) as int,
                                    t as int,
                                    a - t * pow8(i as nat),
                                );
                            }
                            assert(digit_matches(p, a / pow8(i as nat), i as nat));
                            assert(below(stack@[stack@.len() - 1], a as int));
                        } else if !(s * pow8(i as nat) <= a < (s + d + 1) * pow8(i as nat)) {
                            let m = choose|m: int|
                                0 <= m < before.len() && #[trigger] below(before[m], a as int);
                            assert(below(stack@[m], a as int));
                        }
                    }
                }
            }
            proof {
                assert(stack_ok(p, stack@)) by {
                    assert forall|a: nat| #[trigger] qualifies(p, a) implies exists|m: int|
                        0 <= m < stack@.len() && #[trigger] below(stack@[m], a as int) by {
                        assert(s * pow8(i as nat) + 0 == (s + 0) * pow8(i as nat));
                    }
                }
                if stack.len() > rest.len() {
                    assert(lo(stack@.last()) >= lo(top));
                    assert(stack@.last().1 == i - 1);
                } else if stack.len() > 0 {
                    assert(stack@.last() == old_stack[stack.len() - 1]);
                    assert(hi(old_stack[old_stack.len() - 1]) <= lo(old_stack[stack.len() - 1]));
                }
            }
        }
        proof {
            if stack.len() > 0 {
                let e = stack@.last();
                assert(node_ok(p, stack@[stack.len() - 1]));
                assert(lo(e) <= hi(e)) by (nonlinear_arith)
                    requires
                        lo(e) == e.0 * pow8(e.1 as nat),
                        hi(e) == (e.0 + 8) * pow8(e.1 as nat),
                        pow8(e.1 as nat) >= 0,
                ;
            }
        }
    }
    Err(SearchError::NotFound)
}

} // verus!
