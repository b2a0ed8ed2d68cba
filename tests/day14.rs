use aoc2024::day14::{inner_part2, parse_robot, part1, part2, quadrant, Robot};

#[test]
fn parse_one_robot() {
    let text = "p=0,4 v=3,-3\n".as_bytes();
    let mut i = 0;
    let r = parse_robot(text, &mut i);
    assert_eq!(r, Some(Robot { px: 0, py: 4, vx: 3, vy: -3 }));
    assert_eq!(i, 12);
}

#[test]
fn parse_rejects_broken_line() {
    let mut i = 0;
    assert_eq!(parse_robot("p=0;4 v=3,-3\n".as_bytes(), &mut i), None);
}

#[test]
fn quadrant_after_wrapping() {
    // x = 2 + 200 = 202 -> 0, y = 4 - 300 = -296 -> 13
    assert_eq!(quadrant(&Robot { px: 2, py: 4, vx: 2, vy: -3 }), 2);
    assert_eq!(quadrant(&Robot { px: 50, py: 0, vx: 0, vy: 0 }), 0);
    assert_eq!(quadrant(&Robot { px: 0, py: 0, vx: 1, vy: 1 }), 4);
}

#[test]
fn safety_factor_of_four_corners() {
    let text = "p=0,0 v=0,0\np=100,0 v=0,0\np=0,102 v=0,0\np=100,102 v=0,0\np=0,0 v=-1,-1\np=50,10 v=0,0\n";
    assert_eq!(part1(text), Some(2));
}

#[test]
fn empty_quadrant_gives_zero() {
    assert_eq!(part1("p=0,0 v=0,0\n"), Some(0));
    assert_eq!(part1(""), Some(0));
    assert_eq!(part1("p=0,0 v=0,0"), None);
}

fn robot_lines(f: impl Fn(i64) -> (i64, i64, i64, i64)) -> String {
    let mut text = String::new();
    for j in 0..50 {
        let (px, py, vx, vy) = f(j);
        text.push_str(&format!("p={},{} v={},{}\n", px, py, vx, vy));
    }
    text
}

#[test]
fn tree_second_of_still_robots() {
    let text = robot_lines(|_| (5, 5, 0, 0));
    assert_eq!(part2(&text), Some(1));
}

#[test]
fn tree_second_when_columns_meet() {
    // columns all meet at 0 after 3 seconds; rows never change
    let text = robot_lines(|j| ((-3 * j).rem_euclid(101), 0, j, 0));
    assert_eq!(part2(&text), Some(104));
}

#[test]
fn tree_second_when_rows_meet_on_even_second() {
    // columns meet after 3 seconds, rows after 4
    let text = robot_lines(|j| ((-3 * j).rem_euclid(101), (-4 * j).rem_euclid(103), j, j));
    assert_eq!(part2(&text), Some(5154));
}

#[test]
fn tree_needs_fifty_robots() {
    assert_eq!(part2("p=5,5 v=0,0\n"), None);
}

#[test]
fn tree_second_from_bytes() {
    let text = robot_lines(|j| ((-3 * j).rem_euclid(101), 0, j, 0));
    assert_eq!(inner_part2(text.as_bytes()), Some(104));
}
