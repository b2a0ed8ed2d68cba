use aoc2024::day10::{part1, part2};

const EXAMPLE: &str = "89010123\n78121874\n87430965\n96549874\n45678903\n32019012\n01329801\n10456732\n";

#[test]
fn example_scores() {
    assert_eq!(part1(EXAMPLE), Some(36));
}

#[test]
fn example_ratings() {
    assert_eq!(part2(EXAMPLE), Some(81));
}

#[test]
fn single_straight_trail() {
    assert_eq!(part1("9876543210\n"), Some(1));
    assert_eq!(part2("9876543210\n"), Some(1));
}

#[test]
fn two_trails_to_one_end() {
    // both routes from the 9 meet at the same 0
    let grid = "9876\n8765\n7654\n6543\n5432\n4321\n3210\n";
    assert_eq!(part1(grid), Some(1));
    assert!(part2(grid).unwrap() > 1);
}

#[test]
fn no_trail() {
    assert_eq!(part1("90\n"), Some(0));
    assert_eq!(part2("90\n"), Some(0));
}

#[test]
fn missing_line_break() {
    assert_eq!(part1("9876543210"), None);
    assert_eq!(part2("9876543210"), None);
}
