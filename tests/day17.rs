use aoc2024::day17::computer::{execute, execute_until_first_output, Computer, MachineError, Opcode};
use aoc2024::day17::search::{find_min_quine_seed, SearchError};
use aoc2024::day17::{execute_listing, parse_input, part1, part2};

#[test]
fn example_program_output() {
    let program = vec![0, 1, 5, 4, 3, 0];
    assert_eq!(execute(729, &program), Ok(vec![4, 6, 3, 5, 6, 3, 5, 2, 1, 0]));
}

#[test]
fn shift_by_three_loop_output() {
    // 729 -> 91 -> 11 -> 1 -> 0, emitting A mod 8 after each shift
    let program = vec![0, 3, 5, 4, 3, 0];
    assert_eq!(execute(729, &program), Ok(vec![3, 3, 1, 0]));
}

#[test]
fn execution_is_repeatable() {
    let program = vec![0, 1, 5, 4, 3, 0];
    assert_eq!(execute(2024, &program), execute(2024, &program));
    assert_eq!(execute_until_first_output(2024, &program), execute_until_first_output(2024, &program));
}

#[test]
fn first_output_matches_full_run() {
    let program = vec![0, 1, 5, 4, 3, 0];
    let full = execute(729, &program).unwrap();
    assert_eq!(execute_until_first_output(729, &program), Ok(Some(full[0])));
    assert_eq!(execute_until_first_output(729, &program), Ok(Some(4)));
}

#[test]
fn first_output_none_when_silent() {
    assert_eq!(execute_until_first_output(5, &vec![1, 3]), Ok(None));
}

#[test]
fn divide_by_one_keeps_a() {
    assert_eq!(execute(13, &vec![0, 0, 5, 4]), Ok(vec![5]));
}

#[test]
fn divide_by_large_power_zeroes() {
    assert_eq!(execute(100, &vec![0, 4, 5, 4]), Ok(vec![0]));
    assert_eq!(execute(100, &vec![6, 4, 5, 5]), Ok(vec![0]));
    assert_eq!(execute(100, &vec![7, 1, 5, 6]), Ok(vec![2]));
}

#[test]
fn jump_falls_through_on_zero() {
    assert_eq!(execute(0, &vec![3, 4, 5, 0, 5, 1]), Ok(vec![0, 1]));
}

#[test]
fn jump_taken_on_nonzero() {
    assert_eq!(execute(5, &vec![3, 4, 5, 0, 5, 1]), Ok(vec![1]));
}

#[test]
fn out_takes_low_three_bits() {
    assert_eq!(execute(9, &vec![5, 4]), Ok(vec![1]));
    assert_eq!(execute(16, &vec![5, 4]), Ok(vec![0]));
}

#[test]
fn xor_and_store_instructions() {
    // B = 0 ^ 5, C = A >> 1 = 6, B = 5 ^ 6 = 3, B = A mod 8 after out
    assert_eq!(execute(12, &vec![1, 5, 7, 1, 4, 0, 5, 5, 2, 4, 5, 5]), Ok(vec![3, 4]));
}

#[test]
fn malformed_programs_fault() {
    assert_eq!(execute(1, &vec![5, 7]), Err(MachineError::MalformedProgram));
    assert_eq!(execute(1, &vec![5]), Err(MachineError::MalformedProgram));
    assert_eq!(execute(1, &vec![3, 8]), Err(MachineError::MalformedProgram));
    assert_eq!(execute(1, &vec![3, 1]), Err(MachineError::MalformedProgram));
    assert_eq!(execute(1, &vec![8, 0]), Err(MachineError::MalformedProgram));
}

#[test]
fn endless_loop_hits_step_limit() {
    assert_eq!(execute(1, &vec![3, 0]), Err(MachineError::StepLimitExceeded));
}

#[test]
fn computer_steps_one_instruction() {
    let mut c = Computer::new(40, vec![0, 2, 5, 4]);
    assert_eq!(c.step(), Ok(None));
    assert_eq!(c.regs.a, 10);
    assert_eq!(c.regs.inst_ptr, 2);
    assert_eq!(c.step(), Ok(Some(2)));
    assert_eq!(Opcode::from_code(5), Some(Opcode::Out));
    assert_eq!(Opcode::from_code(9), None);
}

#[test]
fn quine_seed_of_example() {
    let program = vec![0, 3, 5, 4, 3, 0];
    let a = find_min_quine_seed(&program).unwrap();
    assert_eq!(a, 117440);
    assert_eq!(execute(a, &program), Ok(program.clone()));
}

#[test]
fn quine_seed_not_found() {
    assert_eq!(find_min_quine_seed(&vec![5, 4]), Err(SearchError::NotFound));
    assert_eq!(find_min_quine_seed(&vec![3, 0]), Err(SearchError::NotFound));
}

#[test]
fn quine_seed_of_empty_program() {
    assert_eq!(find_min_quine_seed(&vec![]), Ok(0));
}

#[test]
fn parse_puzzle_text() {
    let text = "Register A: 729\nRegister B: 0\nRegister C: 0\n\nProgram: 0,1,5,4,3,0\n";
    assert_eq!(parse_input(text), Some((729, vec![0, 1, 5, 4, 3, 0])));
    assert_eq!(parse_input("Register A: x\n"), None);
    assert_eq!(parse_input("Register A: 7\nRegister B: 0\nRegister C: 0\n\nProgram: 0,1"), None);
}

#[test]
fn part1_joins_output_with_commas() {
    let text = "Register A: 729\nRegister B: 0\nRegister C: 0\n\nProgram: 0,1,5,4,3,0\n";
    assert_eq!(part1(text), Some("4,6,3,5,6,3,5,2,1,0".to_string()));
    let faulty = "Register A: 1\nRegister B: 0\nRegister C: 0\n\nProgram: 5,7\n";
    assert_eq!(part1(faulty), None);
}

#[test]
fn part2_finds_seed() {
    let text = "Register A: 2024\nRegister B: 0\nRegister C: 0\n\nProgram: 0,3,5,4,3,0\n";
    assert_eq!(part2(text), Some(117440));
}

#[test]
fn listing_of_full_run() {
    let program = vec![0, 1, 5, 4, 3, 0];
    assert_eq!(execute_listing(729, &program), Ok("4,6,3,5,6,3,5,2,1,0".to_string()));
    assert_eq!(execute_listing(1, &vec![5, 4]), Ok("1".to_string()));
    assert_eq!(execute_listing(1, &vec![1, 1]), Ok(String::new()));
    assert_eq!(execute_listing(1, &vec![5, 7]), Err(MachineError::MalformedProgram));
}
