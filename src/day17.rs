use vstd::prelude::*;
use vstd::string::StringSliceAdditionalSpecFns;
use itertools::Itertools;
use crate::text::{is_digit, number_at, read_number};
use crate::day17::computer::{
    execute, execution, initial, lemma_outputs_octal, MachineError, STEP_LIMIT,
};
use crate::day17::search::{find_min_quine_seed, qualifies, MAX_SEARCH_DIGITS};

pub mod computer;
pub mod search;

verus! {

/// The character of an octal digit.
pub open spec fn digit_char(d: u64) -> char {
    if d == 0 {
        '0'
    } else if d == 1 {
        '1'
    } else if d == 2 {
        '2'
    } else if d == 3 {
        '3'
    } else if d == 4 {
        '4'
    } else if d == 5 {
        '5'
    } else if d == 6 {
        '6'
    } else {
        '7'
    }
}

/// Octal digits written out with a comma between each two.
pub open spec fn comma_list(s: Seq<u64>) -> Seq<char>
    decreases s.len(),
{
    if s.len() == 0 {
        Seq::empty()
    } else if s.len() == 1 {
        seq![digit_char(s[0])]
    } else {
        seq![digit_char(s[0]), ','] + comma_list(s.drop_first())
    }
}

/// Relies on itertools::Itertools::format: each element in its `Display`
/// form, with the separator between each two; a digit below 8 displays as
/// its one character.
#[verifier::external_body]
fn join_digits(digits: &Vec<u64>) -> (r: String)
    requires
        forall|i: int| 0 <= i < digits.len() ==> digits@[i] < 8,
    ensures
        r@ == comma_list(digits@),
{
    digits.iter().format(",").to_string()
}

/// The program listed from `q` on: a separator, then a digit, repeated up to
/// the line break.
pub open spec fn program_from(s: Seq<u8>, q: int) -> Option<Seq<u64>>
    decreases s.len() - q,
{
    if q < 0 || q >= s.len() {
        None
    } else if s[q] == 10 {
        Some(Seq::empty())
    } else if q + 1 < s.len() && is_digit(s[q + 1]) {
        match program_from(s, q + 2) {
            Some(rest) => Some(seq![(s[q + 1] - 48) as u64] + rest),
            None => None,
        }
    } else {
        None
    }
}

/// The starting value of A and the program in the puzzle text: A's digits
/// follow `Register A: ` up to the line break, two register lines and a blank
/// line (38 bytes up to the separator before the first entry) come next, and
/// then the program's entries.
pub open spec fn puzzle_input(s: Seq<u8>) -> Option<(u64, Seq<u64>)> {
    match number_at(s, 12) {
        Some((a, e)) => if e < s.len() && s[e] == 10 {
            match program_from(s, e + 38) {
                Some(p) => Some((a as u64, p)),
                None => None,
            }
        } else {
            None
        },
        None => None,
    }
}

fn parse_program(s: &[u8], start: usize) -> (r: Option<Vec<u64>>)
    ensures
        match program_from(s@, start as int) {
            Some(p) => r is Some && r->Some_0@ == p,
            None => r is None,
        },
{
    let mut program: Vec<u64> = Vec::new();
    let mut q = start;
    while q < s.len() && s[q] != 10
        invariant
            match program_from(s@, start as int) {
                Some(p) => program_from(s@, q as int) is Some && p == program@ + program_from(
                    s@,
                    q as int,
                )->Some_0,
                None => program_from(s@, q as int) is None,
            },
        decreases s.len() - q,
    {
        if q + 1 >= s.len() || s[q + 1] < 48 || s[q + 1] > 57 {
            return None;
        }
        let ghost before = program@;
        program.push((s[q + 1] - 48) as u64);
        proof {
            match program_from(s@, q + 2) {
                Some(rest) => {
                    assert(before + (seq![(s@[q + 1] - 48) as u64] + rest) =~= program@ + rest);
                },
                None => {},
            }
        }
        q = q + 2;
    }
    if q >= s.len() {
        return None;
    }
    proof {
        assert(program@ + Seq::<u64>::empty() =~= program@);
    }
    Some(program)
}

/// Reads the starting value of A and the program, as `puzzle_input` says.
pub fn parse_input(input: &str) -> (r: Option<(u64, Vec<u64>)>)
    ensures
        match puzzle_input(input.spec_bytes()) {
            Some((a, p)) => r is Some && r->Some_0.0 == a && r->Some_0.1@ == p,
            None => r is None,
        },
{
    let s = input.as_bytes();
    match read_number(s, 12) {
        Some((a, e)) => {
            if e < s.len() && s[e] == 10 && e <= usize::MAX - 38 {
                match parse_program(s, e + 38) {
                    Some(p) => Some((a, p)),
                    None => None,
                }
            } else {
                None
            }
        },
        None => None,
    }
}

/// The full output of `program` run from `initial_a`, as digits with a comma
/// between each two; the run's error where it fails.
pub fn execute_listing(initial_a: u64, program: &Vec<u64>) -> (r: Result<String, MachineError>)
    ensures
        match execution(initial_a, program@) {
            Ok(out) => r is Ok && r->Ok_0@ == comma_list(out),
            Err(e) => r == Err::<String, MachineError>(e),
        },
{
    match execute(initial_a, program) {
        Ok(out) => {
            proof {
                lemma_outputs_octal(initial(initial_a), program@, STEP_LIMIT as nat);
                assert(out@ == execution(initial_a, program@)->Ok_0);
                assert forall|i: int| 0 <= i < out.len() implies out@[i] < 8 by {
                    assert(execution(initial_a, program@)->Ok_0[i] < 8);
                }
            }
            Ok(join_digits(&out))
        },
        Err(e) => Err(e),
    }
}

/// The comma-separated output of the program in the puzzle text, run from
/// the value of A given there; `None` where the text is not in that form or
/// the run fails.
pub fn part1(input: &str) -> (r: Option<String>)
    ensures
        match puzzle_input(input.spec_bytes()) {
            Some((a, p)) => match execution(a, p) {
                Ok(out) => r is Some && r->Some_0@ == comma_list(out),
                Err(_) => r is None,
            },
            None => r is None,
        },
{
    let (a, program) = parse_input(input)?;
    match execute_listing(a, &program) {
        Ok(text) => Some(text),
        Err(_) => None,
    }
}

/// The smallest value of A that makes the program in the puzzle text print
/// itself, as `find_min_quine_seed` finds it; `None` where the text is not
/// in that form, the program is too long to search, or no value is found.
pub fn part2(input: &str) -> (r: Option<u64>)
    ensures
        match puzzle_input(input.spec_bytes()) {
            Some((_, p)) => if p.len() <= MAX_SEARCH_DIGITS {
                match r {
                    Some(a) => qualifies(p, a as nat) && forall|b: nat|
                        b < a ==> !#[trigger] qualifies(p, b),
                    None => forall|b: nat| !#[trigger] qualifies(p, b),
                }
            } else {
                r is None
            },
            None => r is None,
        },
{
    let (_, program) = parse_input(input)?;
    if program.len() > MAX_SEARCH_DIGITS {
        return None;
    }
    match find_min_quine_seed(&program) {
        Ok(a) => Some(a),
        Err(_) => None,
    }
}

} // verus!
