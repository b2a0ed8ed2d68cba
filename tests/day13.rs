use aoc2024::day13::{cost, part1, part2, Machine};

const EXAMPLE: &str = "Button A: X+94, Y+34\nButton B: X+22, Y+67\nPrize: X=8400, Y=5400\n\nButton A: X+26, Y+66\nButton B: X+67, Y+21\nPrize: X=12748, Y=12176\n\nButton A: X+17, Y+86\nButton B: X+84, Y+37\nPrize: X=7870, Y=6450\n\nButton A: X+69, Y+23\nButton B: X+27, Y+71\nPrize: X=18641, Y=10279\n";

#[test]
fn example_part1() {
    assert_eq!(part1(EXAMPLE), Some(480));
}

#[test]
fn example_part2() {
    assert_eq!(part2(EXAMPLE), Some(875318608908));
}

#[test]
fn single_machine_cost() {
    let m = Machine { ax: 94, ay: 34, bx: 22, by: 67, cx: 8400, cy: 5400 };
    assert_eq!(cost(&m, true), 280);
    let unsolvable = Machine { ax: 26, ay: 66, bx: 67, by: 21, cx: 12748, cy: 12176 };
    assert_eq!(cost(&unsolvable, true), 0);
}

#[test]
fn dependent_moves_cost_nothing() {
    let m = Machine { ax: 2, ay: 4, bx: 1, by: 2, cx: 10, cy: 20 };
    assert_eq!(cost(&m, false), 0);
}

#[test]
fn capped_presses() {
    // 150 presses of A would be needed
    let m = Machine { ax: 10, ay: 1, bx: 1, by: 10, cx: 1500, cy: 150 };
    assert_eq!(cost(&m, true), 0);
    assert_eq!(cost(&m, false), 450);
}

#[test]
fn malformed_input() {
    assert_eq!(part1(""), None);
    assert_eq!(part1("Button A: X+94, Y+34\n"), None);
    let no_final_newline = "Button A: X+94, Y+34\nButton B: X+22, Y+67\nPrize: X=8400, Y=5400";
    assert_eq!(part1(no_final_newline), None);
}

#[test]
fn no_whole_solution_costs_nothing() {
    // 10a + 30b can never be 161
    let m = Machine { ax: 10, ay: 10, bx: 10, by: 30, cx: 60, cy: 161 };
    assert_eq!(cost(&m, true), 0);
    assert_eq!(cost(&m, false), 0);
    let text = "Button A: X+10, Y+10\nButton B: X+10, Y+30\nPrize: X=60, Y=161\n";
    assert_eq!(part1(text), Some(0));
    assert_eq!(part2(text), Some(0));
}

#[test]
fn exact_solution_is_counted() {
    // 1 press of A and 5 of B reach (60, 160)
    let m = Machine { ax: 10, ay: 10, bx: 10, by: 30, cx: 60, cy: 160 };
    assert_eq!(cost(&m, true), 8);
}
