use vstd::prelude::*;
use vstd::relations::{sorted_by, total_ordering};
use vstd::arithmetic::power2::{pow2, lemma2_to64, lemma2_to64_rest, lemma_pow2_unfold};
use vstd::string::StringSliceAdditionalSpecFns;
use itertools::Itertools;
use crate::day15::{blank_from, find_blank};

verus! {

/// The kind of a gate: AND, OR or XOR.
#[derive(Clone, Copy, Debug, PartialEq, Eq, Structural)]
pub enum GateType {
    And,
    Or,
    Xor,
}

/// A gate: its kind, its two input wires and its output wire. A wire name of three bytes `b0 b1 b2` is held as the
/// number `b0 * 65536 + b1 * 256 + b2`, which orders names as text does.
#[derive(Clone, Copy, Debug, PartialEq, Eq, Structural)]
pub struct Gate {
    pub kind: GateType,
    pub a: u32,
    pub b: u32,
    pub out: u32,
}

pub open spec fn is_name_byte(b: u8) -> bool {
    (97 <= b <= 122) || (48 <= b <= 57)
}

/// The wire name of three letters or digits at `k`.
pub open spec fn name_at(s: Seq<u8>, k: int) -> Option<u32> {
    if 0 <= k && k + 2 < s.len() && is_name_byte(s[k]) && is_name_byte(s[k + 1]) && is_name_byte(
        s[k + 2],
    ) {
        Some((s[k] * 65536 + s[k + 1] * 256 + s[k + 2]) as u32)
    } else {
        None
    }
}

/// The operator at `k` and its length.
pub open spec fn op_at(s: Seq<u8>, k: int) -> Option<(GateType, int)> {
    if 0 <= k && k + 2 < s.len() && s[k] == 65 && s[k + 1] == 78 && s[k + 2] == 68 {
        Some((GateType::And, 3))
    } else if 0 <= k && k + 1 < s.len() && s[k] == 79 && s[k + 1] == 82 {
        Some((GateType::Or, 2))
    } else if 0 <= k && k + 2 < s.len() && s[k] == 88 && s[k + 1] == 79 && s[k + 2] == 82 {
        Some((GateType::Xor, 3))
    } else {
        None
    }
}

/// A gate written as `abc AND def -> ghi` (or with OR or XOR) from `i` on,
/// and the position just past its line break.
pub open spec fn gate_at(s: Seq<u8>, i: int) -> Option<(Gate, int)> {
    match (name_at(s, i), op_at(s, i + 4)) {
        (Some(a), Some((kind, n))) => {
            let j = i + 4 + n;
            match (name_at(s, j + 1), name_at(s, j + 8)) {
                (Some(b), Some(out)) => if s[i + 3] == 32 && s[j] == 32 && s[j + 4] == 32 && s[j
                    + 5] == 45 && s[j + 6] == 62 && s[j + 7] == 32 && j + 11 < s.len() && s[j + 11]
                    == 10 {
                    Some((Gate { kind, a, b, out }, j + 12))
                } else {
                    None
                },
                _ => None,
            }
        },
        _ => None,
    }
}

/// The gates listed from `i` on, up to the end of the input.
pub open spec fn gates_from(s: Seq<u8>, i: int) -> Option<Seq<Gate>>
    decreases s.len() - i,
{
    if i == s.len() {
        Some(Seq::empty())
    } else if i < 0 || i > s.len() {
        None
    } else {
        match gate_at(s, i) {
            Some((g, e)) => if e > i {
                match gates_from(s, e) {
                    Some(rest) => Some(seq![g] + rest),
                    None => None,
                }
            } else {
                None
            },
            None => None,
        }
    }
}

/// The gates of the circuit: the lines after the blank line that ends the
/// initial wire values.
pub open spec fn circuit(s: Seq<u8>) -> Option<Seq<Gate>> {
    match blank_from(s, 0) {
        Some(b) => gates_from(s, b + 2),
        None => None,
    }
}

pub open spec fn first_byte(w: u32) -> int {
    w as int / 65536
}

pub open spec fn is_xy(w: u32) -> bool {
    first_byte(w) == 120 || first_byte(w) == 121
}

pub open spec fn is_z(w: u32) -> bool {
    first_byte(w) == 122
}

/// `z45`, the carry out of the adder.
pub const LAST_Z: u32 = 122 * 65536 + 52 * 256 + 53;

/// Inputs `x00` and `y00`: the digits are `00`.
pub const FIRST_BITS: u32 = 48 * 256 + 48;

/// A gate whose output breaks the adder's shape on its own: an XOR whose
/// input is no `x`/`y` wire and whose output is no `z` wire; or an AND or OR
/// that drives a `z` wire other than `z45`.
pub open spec fn misplaced(g: Gate) -> bool {
    match g.kind {
        GateType::Xor => !is_xy(g.a) && !is_z(g.out),
        _ => is_z(g.out) && g.out != LAST_Z,
    }
}

/// The gates the check follows: all but XOR gates without `x`/`y` input.
pub open spec fn followed(g: Gate) -> bool {
    !(g.kind == GateType::Xor && !is_xy(g.a))
}

/// Some followed gate of `kind` has wire `w` as its first input.
pub open spec fn feeds(gs: Seq<Gate>, w: u32, kind: GateType) -> bool {
    exists|j: int| 0 <= j < gs.len() && followed(#[trigger] gs[j]) && gs[j].a == w && gs[j].kind == kind
}

/// A followed gate with `x`/`y` input that is wired wrongly downstream: an
/// AND, not on the first input bits, that feeds another AND; or an XOR
/// that feeds an OR.
pub open spec fn miswired(gs: Seq<Gate>, g: Gate) -> bool {
    &&& followed(g)
    &&& is_xy(g.a)
    &&& match g.kind {
        GateType::And => g.a % 65536 != FIRST_BITS && feeds(gs, g.out, GateType::And),
        GateType::Xor => feeds(gs, g.out, GateType::Or),
        GateType::Or => false,
    }
}

/// The outputs of the misplaced gates among `gs[..k]`, in order.
pub open spec fn misplaced_outputs(gs: Seq<Gate>, k: int) -> Seq<u32>
    decreases k,
{
    if k <= 0 {
        Seq::empty()
    } else {
        misplaced_outputs(gs, k - 1) + if misplaced(gs[k - 1]) {
            seq![gs[k - 1].out]
        } else {
            Seq::empty()
        }
    }
}

/// The outputs of the miswired gates among `gs[..k]`, in order.
pub open spec fn miswired_outputs(gs: Seq<Gate>, k: int) -> Seq<u32>
    decreases k,
{
    if k <= 0 {
        Seq::empty()
    } else {
        miswired_outputs(gs, k - 1) + if miswired(gs, gs[k - 1]) {
            seq![gs[k - 1].out]
        } else {
            Seq::empty()
        }
    }
}

/// Every flagged output, misplaced first.
pub open spec fn flagged(gs: Seq<Gate>) -> Seq<u32> {
    misplaced_outputs(gs, gs.len() as int) + miswired_outputs(gs, gs.len() as int)
}

/// The three characters of a wire name.
pub open spec fn name_chars(w: u32) -> Seq<char> {
    seq![
        ((w as int / 65536) as u8) as char,
        ((w as int / 256 % 256) as u8) as char,
        ((w as int % 256) as u8) as char,
    ]
}

fn name_byte(b: u8) -> (r: bool)
    ensures
        r == is_name_byte(b),
{
    (97 <= b && b <= 122) || (48 <= b && b <= 57)
}

fn read_name(s: &[u8], k: usize) -> (r: Option<u32>)
    ensures
        r == name_at(s@, k as int),
{
    if k < s.len() && s.len() - k > 2 && name_byte(s[k]) && name_byte(s[k + 1]) && name_byte(
        s[k + 2],
    ) {
        Some((s[k] as u32) * 65536 + (s[k + 1] as u32) * 256 + s[k + 2] as u32)
    } else {
        None
    }
}

fn read_op(s: &[u8], k: usize) -> (r: Option<(GateType, usize)>)
    ensures
        match op_at(s@, k as int) {
            Some((kind, n)) => r == Some((kind, n as usize)),
            None => r is None,
        },
{
    if k < s.len() && s.len() - k > 2 && s[k] == 65 && s[k + 1] == 78 && s[k + 2] == 68 {
        Some((GateType::And, 3))
    } else if k < s.len() && s.len() - k > 1 && s[k] == 79 && s[k + 1] == 82 {
        Some((GateType::Or, 2))
    } else if k < s.len() && s.len() - k > 2 && s[k] == 88 && s[k + 1] == 79 && s[k + 2] == 82 {
        Some((GateType::Xor, 3))
    } else {
        None
    }
}

fn parse_gate(s: &[u8], i: usize) -> (r: Option<(Gate, usize)>)
    ensures
        match gate_at(s@, i as int) {
            Some((g, e)) => r == Some((g, e as usize)) && i < e <= s.len(),
            None => r is None,
        },
{
    if i >= s.len() || s.len() - i < 16 {
        return None;
    }
    let a = match read_name(s, i) {
        Some(a) => a,
        None => {
            return None;
        },
    };
    let (kind, n) = match read_op(s, i + 4) {
        Some(x) => x,
        None => {
            return None;
        },
    };
    let j = i + 4 + n;
    if s.len() - j < 12 {
        return None;
    }
    let b = read_name(s, j + 1);
    let out = read_name(s, j + 8);
    match (b, out) {
        (Some(b), Some(out)) => {
            if s[i + 3] == 32 && s[j] == 32 && s[j + 4] == 32 && s[j + 5] == 45 && s[j + 6] == 62
                && s[j + 7] == 32 && s[j + 11] == 10 {
                Some((Gate { kind, a, b, out }, j + 12))
            } else {
                None
            }
        },
        _ => None,
    }
}

fn is_misplaced(g: &Gate) -> (r: bool)
    ensures
        r == misplaced(*g),
{
    let first_a = g.a / 65536;
    let first_out = g.out / 65536;
    match g.kind {
        GateType::Xor => !(first_a == 120 || first_a == 121) && first_out != 122,
        _ => first_out == 122 && g.out != LAST_Z,
    }
}

fn is_followed(g: &Gate) -> (r: bool)
    ensures
        r == followed(*g),
{
    let first_a = g.a / 65536;
    !(g.kind == GateType::Xor && !(first_a == 120 || first_a == 121))
}

fn feeds_exec(gs: &Vec<Gate>, w: u32, kind: GateType) -> (r: bool)
    ensures
        r == feeds(gs@, w, kind),
{
    let mut j: usize = 0;
    while j < gs.len()
        invariant
            j <= gs.len(),
            forall|q: int|
                0 <= q < j ==> !(followed(#[trigger] gs@[q]) && gs@[q].a == w && gs@[q].kind == kind),
        decreases gs.len() - j,
    {
        if is_followed(&gs[j]) && gs[j].a == w && gs[j].kind == kind {
            return true;
        }
        j = j + 1;
    }
    false
}

fn is_miswired(gs: &Vec<Gate>, g: &Gate) -> (r: bool)
    ensures
        r == miswired(gs@, *g),
{
    let first_a = g.a / 65536;
    if !is_followed(g) || !(first_a == 120 || first_a == 121) {
        return false;
    }
    match g.kind {
        GateType::And => g.a % 65536 != FIRST_BITS && feeds_exec(gs, g.out, GateType::And),
        GateType::Xor => feeds_exec(gs, g.out, GateType::Or),
        GateType::Or => false,
    }
}

/// A wire name made of three ASCII bytes.
pub open spec fn ascii_name(w: u32) -> bool {
    &&& w < 0x800000
    &&& w as int / 256 % 256 < 128
    &&& w as int % 256 < 128
}

proof fn lemma_name_ascii(s: Seq<u8>, k: int)
    requires
        name_at(s, k) is Some,
    ensures
        ascii_name(name_at(s, k)->Some_0),
{
    let b0 = s[k] as int;
    let b1 = s[k + 1] as int;
    let b2 = s[k + 2] as int;
    let w = b0 * 65536 + b1 * 256 + b2;
    assert(w / 256 == b0 * 256 + b1 && w % 256 == b2) by (nonlinear_arith)
        requires
            w == b0 * 65536 + b1 * 256 + b2,
            0 <= b0 < 128,
            0 <= b1 < 128,
            0 <= b2 < 128,
    ;
    assert((b0 * 256 + b1) % 256 == b1) by (nonlinear_arith)
        requires
            0 <= b0 < 128,
            0 <= b1 < 128,
    ;
}

/// Every gate names its output wire with ASCII bytes.
pub open spec fn ascii_gates(gs: Seq<Gate>) -> bool {
    forall|j: int| 0 <= j < gs.len() ==> ascii_name(#[trigger] gs[j].out)
}

fn parse_gates(s: &[u8], start: usize) -> (r: Option<Vec<Gate>>)
    ensures
        match gates_from(s@, start as int) {
            Some(gs) => r is Some && r->Some_0@ == gs && ascii_gates(gs),
            None => r is None,
        },
{
    let mut gs: Vec<Gate> = Vec::new();
    let mut i = start;
    if i > s.len() {
        return None;
    }
    while i < s.len()
        invariant
            start <= i <= s.len(),
            ascii_gates(gs@),
            gates_from(s@, start as int) == match gates_from(s@, i as int) {
                Some(rest) => Some(gs@ + rest),
                None => None::<Seq<Gate>>,
            },
        decreases s.len() - i,
    {
        let (g, e) = match parse_gate(s, i) {
            Some(x) => x,
            None => {
                return None;
            },
        };
        proof {
            let j = i + 4 + (if g.kind == GateType::Or {
                2int
            } else {
                3int
            });
            lemma_name_ascii(s@, j + 8);
        }
        let ghost before = gs@;
        gs.push(g);
        proof {
            match gates_from(s@, e as int) {
                Some(rest) => {
                    assert(before + (seq![g] + rest) =~= gs@ + rest);
                },
                None => {},
            }
        }
        i = e;
    }
    proof {
        assert(gs@ + Seq::<Gate>::empty() =~= gs@);
    }
    Some(gs)
}

/// The order of wire names.
pub open spec fn name_order() -> spec_fn(u32, u32) -> bool {
    |x: u32, y: u32| x <= y
}

/// Texts written out with a comma between each two.
pub open spec fn comma_join(parts: Seq<Seq<char>>) -> Seq<char>
    decreases parts.len(),
{
    if parts.len() == 0 {
        Seq::empty()
    } else if parts.len() == 1 {
        parts[0]
    } else {
        parts[0] + seq![','] + comma_join(parts.drop_first())
    }
}

/// Wire names written out with a comma between each two.
pub open spec fn comma_names(v: Seq<u32>) -> Seq<char> {
    comma_join(v.map_values(|w: u32| name_chars(w)))
}

/// Relies on std's String::from_utf8: ASCII bytes read as the same
/// characters.
#[verifier::external_body]
pub(crate) fn ascii_string(b: &Vec<u8>) -> (r: String)
    ensures
        (forall|i: int| 0 <= i < b.len() ==> b@[i] < 128) ==> r@ == Seq::new(
            b.len() as nat,
            |i: int| b@[i] as char,
        ),
{
    String::from_utf8(b.clone()).unwrap_or_default()
}

/// Relies on itertools::Itertools::join: each element in its `Display`
/// form, which for a `String` is its text, with the separator between each
/// two.
#[verifier::external_body]
pub(crate) fn join_with_commas(parts: &Vec<String>) -> (r: String)
    ensures
        r@ == comma_join(parts@.map_values(|p: String| p@)),
{
    parts.iter().join(",")
}

fn flagged_outputs(gs: &Vec<Gate>) -> (r: Vec<u32>)
    requires
        ascii_gates(gs@),
    ensures
        r@ == flagged(gs@),
        forall|i: int| 0 <= i < r.len() ==> ascii_name(#[trigger] r@[i]),
{
    let mut r: Vec<u32> = Vec::new();
    let mut k: usize = 0;
    while k < gs.len()
        invariant
            k <= gs.len(),
            ascii_gates(gs@),
            r@ == misplaced_outputs(gs@, k as int),
            forall|i: int| 0 <= i < r.len() ==> ascii_name(#[trigger] r@[i]),
        decreases gs.len() - k,
    {
        let ghost before = r@;
        if is_misplaced(&gs[k]) {
            r.push(gs[k].out);
        }
        proof {
            assert(r@ =~= misplaced_outputs(gs@, k + 1));
        }
        k = k + 1;
    }
    let ghost first = r@;
    let mut k: usize = 0;
    assert(first + miswired_outputs(gs@, 0) =~= first);
    while k < gs.len()
        invariant
            k <= gs.len(),
            ascii_gates(gs@),
            first == misplaced_outputs(gs@, gs.len() as int),
            r@ == first + miswired_outputs(gs@, k as int),
            forall|i: int| 0 <= i < r.len() ==> ascii_name(#[trigger] r@[i]),
        decreases gs.len() - k,
    {
        if is_miswired(gs, &gs[k]) {
            r.push(gs[k].out);
        }
        proof {
            assert(r@ =~= first + miswired_outputs(gs@, k + 1));
        }
        k = k + 1;
    }
    r
}

proof fn lemma_name_order_total()
    ensures
        total_ordering(name_order()),
{
}

/// `v` in increasing order.
pub(crate) fn sort_names(v: &Vec<u32>) -> (r: Vec<u32>)
    ensures
        r@ == v@.sort_by(name_order()),
        forall|i: int| 0 <= i < r.len() ==> v@.contains(#[trigger] r@[i]),
{
    broadcast use vstd::seq_lib::group_to_multiset_ensures;

    let mut out: Vec<u32> = Vec::new();
    let mut k: usize = 0;
    assert(v@.subrange(0, 0) =~= Seq::<u32>::empty());
    while k < v.len()
        invariant
            k <= v.len(),
            sorted_by(out@, name_order()),
            out@.to_multiset() == v@.subrange(0, k as int).to_multiset(),
        decreases v.len() - k,
    {
        let x = v[k];
        let mut p: usize = 0;
        while p < out.len() && out[p] <= x
            invariant
                p <= out.len(),
                forall|q: int| 0 <= q < p ==> out@[q] <= x,
            decreases out.len() - p,
        {
            p = p + 1;
        }
        let ghost before = out@;
        out.insert(p, x);
        proof {
            assert(out@ == before.insert(p as int, x));
            assert forall|i: int, j: int| 0 <= i < j < out@.len() implies #[trigger] name_order()(
                out@[i],
                out@[j],
            ) by {
                if j < p {
                    assert(name_order()(before[i], before[j]));
                } else if j == p {
                    assert(before[i] <= x);
                } else if i == p {
                    assert(p < before.len());
                    assert(x < before[p as int]);
                    if j - 1 > p {
                        assert(name_order()(before[p as int], before[j - 1]));
                    }
                } else if i < p {
                    assert(name_order()(before[i], before[j - 1]));
                } else {
                    assert(name_order()(before[i - 1], before[j - 1]));
                }
            }
            vstd::seq_lib::to_multiset_insert(before, p as int, x);
            assert(v@.subrange(0, k + 1) =~= v@.subrange(0, k as int).push(x));
            vstd::seq_lib::to_multiset_build(v@.subrange(0, k as int), x);
        }
        k = k + 1;
    }
    proof {
        assert(v@.subrange(0, v.len() as int) =~= v@);
        lemma_name_order_total();
        v@.lemma_sort_by_ensures(name_order());
        vstd::seq_lib::lemma_sorted_unique(out@, v@.sort_by(name_order()), name_order());
        assert forall|i: int| 0 <= i < out.len() implies v@.contains(#[trigger] out@[i]) by {
            assert(out@.to_multiset().count(out@[i]) > 0);
        }
    }
    out
}

/// The output wires of the gates that break the shape of a ripple-carry
/// adder, sorted and joined with commas; `None` where the input has no
/// blank line or its gate lines are not of the form `abc AND def -> ghi`.
pub fn part2(input: &str) -> (r: Option<String>)
    ensures
        match circuit(input.spec_bytes()) {
            Some(gs) => r is Some && r->Some_0@ == comma_names(flagged(gs).sort_by(name_order())),
            None => r is None,
        },
{
    let s = input.as_bytes();
    let b = match find_blank(s) {
        Some(b) => b,
        None => {
            return None;
        },
    };
    let gates = match parse_gates(s, b + 2) {
        Some(g) => g,
        None => {
            return None;
        },
    };
    let flagged_names = flagged_outputs(&gates);
    let sorted = sort_names(&flagged_names);
    let mut parts: Vec<String> = Vec::new();
    let mut k: usize = 0;
    while k < sorted.len()
        invariant
            k <= sorted.len(),
            parts.len() == k,
            forall|i: int| 0 <= i < sorted.len() ==> flagged_names@.contains(#[trigger] sorted@[i]),
            forall|i: int| 0 <= i < flagged_names.len() ==> ascii_name(#[trigger] flagged_names@[i]),
            forall|i: int| 0 <= i < k ==> (#[trigger] parts@[i])@ == name_chars(sorted@[i]),
        decreases sorted.len() - k,
    {
        let w = sorted[k];
        let bytes: Vec<u8> = vec![(w / 65536) as u8, (w / 256 % 256) as u8, (w % 256) as u8];
        proof {
            assert(flagged_names@.contains(w));
            let q = choose|q: int| 0 <= q < flagged_names.len() && flagged_names@[q] == w;
            assert(ascii_name(flagged_names@[q]));
        }
        let text = ascii_string(&bytes);
        proof {
            assert(text@ =~= name_chars(w));
        }
        parts.push(text);
        k = k + 1;
    }
    proof {
        assert(parts@.map_values(|p: String| p@) =~= sorted@.map_values(|w: u32| name_chars(w)));
    }
    Some(join_with_commas(&parts))
}

/// The initial wire values listed from `i` up to `end`, one `abc: 0` or
/// `abc: 1` line each.
pub open spec fn inits_from(s: Seq<u8>, i: int, end: int) -> Option<Seq<(u32, bool)>>
    decreases end - i,
{
    if i == end {
        Some(Seq::empty())
    } else if i < 0 || i + 7 > end || end > s.len() {
        None
    } else {
        match name_at(s, i) {
            Some(w) => if s[i + 3] == 58 && s[i + 4] == 32 && (s[i + 5] == 48 || s[i + 5] == 49)
                && s[i + 6] == 10 {
                match inits_from(s, i + 7, end) {
                    Some(rest) => Some(seq![(w, s[i + 5] == 49)] + rest),
                    None => None,
                }
            } else {
                None
            },
            None => None,
        }
    }
}

/// The wire values that a list of initial values gives; a later line for
/// the same wire wins.
pub open spec fn init_values(l: Seq<(u32, bool)>) -> Map<u32, bool>
    decreases l.len(),
{
    if l.len() == 0 {
        Map::empty()
    } else {
        init_values(l.drop_last()).insert(l.last().0, l.last().1)
    }
}

pub open spec fn gate_value(kind: GateType, x: bool, y: bool) -> bool {
    match kind {
        GateType::And => x && y,
        GateType::Or => x || y,
        GateType::Xor => x != y,
    }
}

/// Gate `g` fires where both its inputs have values, setting its output.
pub open spec fn fire(m: Map<u32, bool>, g: Gate) -> Map<u32, bool> {
    if m.contains_key(g.a) && m.contains_key(g.b) {
        m.insert(g.out, gate_value(g.kind, m[g.a], m[g.b]))
    } else {
        m
    }
}

/// The values after the gates `gs[..k]` fire in turn.
pub open spec fn sweep(m: Map<u32, bool>, gs: Seq<Gate>, k: int) -> Map<u32, bool>
    decreases k,
{
    if k <= 0 {
        m
    } else {
        fire(sweep(m, gs, k - 1), gs[k - 1])
    }
}

/// The values after `n` sweeps over all gates; as many sweeps as gates let
/// every gate of a circuit without loops fire once its inputs are known.
pub open spec fn settle(m: Map<u32, bool>, gs: Seq<Gate>, n: nat) -> Map<u32, bool>
    decreases n,
{
    if n == 0 {
        m
    } else {
        settle(sweep(m, gs, gs.len() as int), gs, (n - 1) as nat)
    }
}

/// The wire `zNN` for `n` below 100.
pub open spec fn z_wire(n: int) -> u32 {
    (122 * 65536 + (48 + n / 10) * 256 + (48 + n % 10)) as u32
}

/// The number whose bit `n`, for `n` below `k`, is the value of wire `zNN`
/// (0 where that wire has none).
pub open spec fn z_number(m: Map<u32, bool>, k: int) -> nat
    decreases k,
{
    if k <= 0 {
        0
    } else {
        z_number(m, k - 1) + if m.contains_key(z_wire(k - 1)) && m[z_wire(k - 1)] {
            pow2((k - 1) as nat)
        } else {
            0
        }
    }
}

/// The wire values of the circuit in the text once it has settled.
pub open spec fn circuit_values(s: Seq<u8>) -> Option<Map<u32, bool>> {
    match blank_from(s, 0) {
        Some(b) => match (inits_from(s, 0, b + 1), gates_from(s, b + 2)) {
            (Some(l), Some(gs)) => Some(settle(init_values(l), gs, gs.len() as nat)),
            _ => None,
        },
        None => None,
    }
}

/// Wire values held as two lists: `keys` without repeats and `vals` beside
/// them.
pub open spec fn represents(keys: Seq<u32>, vals: Seq<bool>, m: Map<u32, bool>) -> bool {
    &&& keys.len() == vals.len()
    &&& forall|i: int| 0 <= i < keys.len() ==> m.contains_key(#[trigger] keys[i]) && m[keys[i]] == vals[i]
    &&& forall|w: u32| #[trigger] m.contains_key(w) ==> exists|i: int| 0 <= i < keys.len() && keys[i] == w
    &&& forall|i: int, j: int| 0 <= i < j < keys.len() ==> keys[i] != keys[j]
}

fn lookup(keys: &Vec<u32>, vals: &Vec<bool>, w: u32, Ghost(m): Ghost<Map<u32, bool>>) -> (r: Option<bool>)
    requires
        represents(keys@, vals@, m),
    ensures
        r == if m.contains_key(w) {
            Some(m[w])
        } else {
            None::<bool>
        },
{
    let mut i: usize = 0;
    while i < keys.len()
        invariant
            represents(keys@, vals@, m),
            i <= keys.len(),
            forall|j: int| 0 <= j < i ==> keys@[j] != w,
        decreases keys.len() - i,
    {
        if keys[i] == w {
            return Some(vals[i]);
        }
        i = i + 1;
    }
    proof {
        if m.contains_key(w) {
            let j = choose|j: int| 0 <= j < keys.len() && keys@[j] == w;
        }
    }
    None
}

fn store(keys: &mut Vec<u32>, vals: &mut Vec<bool>, w: u32, v: bool, Ghost(m): Ghost<Map<u32, bool>>)
    requires
        represents(old(keys)@, old(vals)@, m),
    ensures
        represents(final(keys)@, final(vals)@, m.insert(w, v)),
{
    let mut i: usize = 0;
    while i < keys.len()
        invariant
            represents(keys@, vals@, m),
            i <= keys.len(),
            forall|j: int| 0 <= j < i ==> keys@[j] != w,
        decreases keys.len() - i,
    {
        if keys[i] == w {
            vals.set(i, v);
            proof {
                let m2 = m.insert(w, v);
                assert forall|x: u32| #[trigger] m2.contains_key(x) implies exists|j: int|
                    0 <= j < keys.len() && keys@[j] == x by {
                    if x != w {
                        let j = choose|j: int| 0 <= j < keys.len() && keys@[j] == x;
                    } else {
                        assert(keys@[i as int] == x);
                    }
                }
            }
            return;
        }
        i = i + 1;
    }
    let ghost old_keys = keys@;
    keys.push(w);
    vals.push(v);
    proof {
        let m2 = m.insert(w, v);
        assert forall|x: u32| #[trigger] m2.contains_key(x) implies exists|j: int|
            0 <= j < keys.len() && keys@[j] == x by {
            if x != w {
                assert(m.contains_key(x));
                let j = choose|j: int| 0 <= j < old_keys.len() && old_keys[j] == x;
                assert(keys@[j] == x);
            } else {
                assert(keys@[keys.len() - 1] == x);
            }
        }
        assert forall|i: int| 0 <= i < keys.len() implies m2.contains_key(#[trigger] keys@[i]) && m2[keys@[i]]
            == vals@[i] by {
            if i < keys.len() - 1 {
                assert(keys@[i] != w);
            }
        }
    }
}

fn read_inits(s: &[u8], end: usize, keys: &mut Vec<u32>, vals: &mut Vec<bool>) -> (r: bool)
    requires
        end <= s.len(),
        old(keys).len() == 0,
        old(vals).len() == 0,
    ensures
        match inits_from(s@, 0, end as int) {
            Some(l) => r && represents(final(keys)@, final(vals)@, init_values(l)),
            None => !r,
        },
{
    let mut i: usize = 0;
    let ghost mut done: Seq<(u32, bool)> = Seq::empty();
    proof {
        assert(represents(keys@, vals@, init_values(done)));
    }
    while i < end
        invariant
            i <= end <= s.len(),
            represents(keys@, vals@, init_values(done)),
            inits_from(s@, 0, end as int) == match inits_from(s@, i as int, end as int) {
                Some(rest) => Some(done + rest),
                None => None::<Seq<(u32, bool)>>,
            },
        decreases end - i,
    {
        if end - i < 7 {
            return false;
        }
        let w = match read_name(s, i) {
            Some(w) => w,
            None => {
                return false;
            },
        };
        if !(s[i + 3] == 58 && s[i + 4] == 32 && (s[i + 5] == 48 || s[i + 5] == 49) && s[i + 6]
            == 10) {
            return false;
        }
        let v = s[i + 5] == 49;
        store(keys, vals, w, v, Ghost(init_values(done)));
        proof {
            let next = done.push((w, v));
            assert(next.drop_last() =~= done);
            match inits_from(s@, i + 7, end as int) {
                Some(rest) => {
                    assert(done + (seq![(w, v)] + rest) =~= next + rest);
                },
                None => {},
            }
            done = next;
        }
        i = i + 7;
    }
    proof {
        assert(done + Seq::<(u32, bool)>::empty() =~= done);
    }
    true
}

fn gate_output(kind: GateType, x: bool, y: bool) -> (r: bool)
    ensures
        r == gate_value(kind, x, y),
{
    match kind {
        GateType::And => x && y,
        GateType::Or => x || y,
        GateType::Xor => x != y,
    }
}

/// Lets the gates fire, one sweep after another, `gates.len()` times.
fn settle_exec(gates: &Vec<Gate>, keys: &mut Vec<u32>, vals: &mut Vec<bool>, Ghost(m): Ghost<Map<u32, bool>>)
    requires
        represents(old(keys)@, old(vals)@, m),
    ensures
        represents(final(keys)@, final(vals)@, settle(m, gates@, gates.len() as nat)),
{
    let ghost gs = gates@;
    let ghost mut cur = m;
    let mut n: usize = 0;
    while n < gates.len()
        invariant
            gates@ == gs,
            n <= gs.len(),
            represents(keys@, vals@, cur),
            settle(m, gs, gs.len() as nat) == settle(cur, gs, (gs.len() - n) as nat),
        decreases gs.len() - n,
    {
        let ghost start = cur;
        let mut k: usize = 0;
        while k < gates.len()
            invariant
                gates@ == gs,
                k <= gs.len(),
                represents(keys@, vals@, cur),
                cur == sweep(start, gs, k as int),
            decreases gs.len() - k,
        {
            let g = gates[k];
            let x = lookup(keys, vals, g.a, Ghost(cur));
            let y = lookup(keys, vals, g.b, Ghost(cur));
            if let (Some(x), Some(y)) = (x, y) {
                let v = gate_output(g.kind, x, y);
                store(keys, vals, g.out, v, Ghost(cur));
                proof {
                    cur = cur.insert(g.out, v);
                }
            }
            proof {
                assert(cur == sweep(start, gs, k + 1));
            }
            k = k + 1;
        }
        n = n + 1;
    }
}

proof fn lemma_z_number_bound(m: Map<u32, bool>, k: int)
    requires
        0 <= k,
    ensures
        z_number(m, k) < pow2(k as nat),
    decreases k,
{
    if k > 0 {
        lemma_z_number_bound(m, k - 1);
        lemma_pow2_unfold(k as nat);
    } else {
        lemma2_to64();
    }
}

/// The number that the `z` wires show once the circuit has settled, bit
/// `NN` from wire `zNN`; `None` where the text is not a list of initial
/// values, a blank line and a list of gates.
pub fn part1(input: &str) -> (r: Option<u64>)
    ensures
        match circuit_values(input.spec_bytes()) {
            Some(m) => r == Some(z_number(m, 64) as u64),
            None => r is None,
        },
{
    let s = input.as_bytes();
    let b = match find_blank(s) {
        Some(b) => b,
        None => {
            return None;
        },
    };
    let mut keys: Vec<u32> = Vec::new();
    let mut vals: Vec<bool> = Vec::new();
    if !read_inits(s, b + 1, &mut keys, &mut vals) {
        return None;
    }
    let gates = match parse_gates(s, b + 2) {
        Some(g) => g,
        None => {
            return None;
        },
    };
    let ghost m0 = init_values(inits_from(s@, 0, b + 1)->Some_0);
    settle_exec(&gates, &mut keys, &mut vals, Ghost(m0));
    let ghost m = settle(m0, gates@, gates.len() as nat);
    let mut total: u64 = 0;
    let mut bit: u64 = 1;
    let mut n: u32 = 0;
    proof {
        lemma2_to64();
        lemma2_to64_rest();
    }
    while n < 64
        invariant
            n <= 64,
            represents(keys@, vals@, m),
            total == z_number(m, n as int),
            n < 64 ==> bit == pow2(n as nat) && bit <= 0x8000000000000000,
            total < pow2(n as nat),
            pow2(63) == 0x8000000000000000,
            pow2(64) == 0x10000000000000000,
        decreases 64 - n,
    {
        let w: u32 = 122 * 65536 + (48 + n / 10) * 256 + (48 + n % 10);
        proof {
            lemma_z_number_bound(m, n + 1);
            lemma_pow2_unfold((n + 1) as nat);
            if n < 62 {
                vstd::arithmetic::power2::lemma_pow2_strictly_increases(n as nat, 62);
                lemma_pow2_unfold(63);
            }
        }
        if let Some(true) = lookup(&keys, &vals, w, Ghost(m)) {
            total = total + bit;
        }
        if n < 63 {
            bit = bit * 2;
        }
        n = n + 1;
    }
    Some(total)
}

} // verus!
