use aoc2024::day15::{part1, part2};

const SMALL: &str = "########\n#..O.O.#\n##@.O..#\n#...O..#\n#.#.O..#\n#...O..#\n#......#\n########\n\n<^^>>>vv<v>>v<<\n";

const LARGE: &str = "##########\n#..O..O.O#\n#......O.#\n#.OO..O.O#\n#..O@..O.#\n#O#..O...#\n#O..O..O.#\n#.OO.O.OO#\n#....O...#\n##########\n\n<vv>^<v^>v>^vv^v>v<>v^v<v<^vv<<<^><<><>>v<vvv<>^v^>^<<<><<v<<<v^vv^v>^\nvvv<<^>^v^^><<>>><>^<<><^vv^^<>vvv<>><^^v>^>vv<>v<<<<v<^v>^<^^>>>^<v<v\n><>vv>v^v^<>><>>>><^^>vv>v<^^^>>v^v^<^^>v^^>v^<^v>v<>>v^v^<v>v^^<^^vv<\n<<v<^>>^^^^>>>v^<>vvv^><v<<<>^^^vv^<vvv>^>v<^^^^v<>^>vvvv><>>v^<<^^^^^\n^><^><>>><>^^<<^^v>>><^<v>^<vv>>v>>>^v><>^v><<<<v>>v<v<v>vvv>^<><<>^><\n^>><>^v<><^vvv<^^<><v<<<<<><^v<<<><<<^^<v<^^^><^>>^<v^><<<^>>^v<v^v<v^\n>^>>^v>vv>^<<^v<>><<><<v<<v><>v<^vv<<<>^^v^>^^>>><<^v>>v^v><^^>>^<>vv^\n<><^^>^^^<><vvvvv^v<v<<>^v<v>v<<^><<><<><<<^^<<<^<<>><<><^^^>^^<>^>v<>\n^^>vv<^v^v<vv>^<><v<^v>^^^>>>^^vvv^>vvv<>>>^<^>>>>>^<<^v>^vvv<>^<><<v>\nv^^>>><<^^<>>^v^<v^vv<>v^<<>^<^v^v><^<<<><<^<v><v<>vv>>v><v^<vv<>v^<<^\n";

#[test]
fn small_warehouse() {
    assert_eq!(part1(SMALL), Some(2028));
}

#[test]
fn large_warehouse() {
    assert_eq!(part1(LARGE), Some(10092));
}

#[test]
fn push_blocked_by_wall() {
    // the robot pushes the box once, then the wall stops both
    let text = "#####\n#@O.#\n#####\n\n>>>\n";
    assert_eq!(part1(text), Some(100 + 3));
}

#[test]
fn no_moves() {
    assert_eq!(part1("####\n#@O#\n####\n\n"), Some(100 + 2));
}

#[test]
fn missing_robot_or_blank_line() {
    assert_eq!(part1("####\n#.O#\n####\n\n>\n"), None);
    assert_eq!(part1("####\n#@O#\n####\n"), None);
}

#[test]
fn large_wide_warehouse() {
    assert_eq!(part2(LARGE), Some(9021));
}

#[test]
fn small_wide_warehouse() {
    let text = "#######\n#...#.#\n#.....#\n#..OO@#\n#..O..#\n#.....#\n#######\n\n<vv<<^^<<^^\n";
    assert_eq!(part2(text), Some(618));
}

#[test]
fn wide_push_blocked_by_wall() {
    // the stacked boxes cannot move up into the wall
    let text = "#####\n#...#\n#.O.#\n#.O.#\n#.@.#\n#####\n\n^^^\n";
    // widened, the robot sits under the left half of the lower box
    assert_eq!(part2(text), Some(100 * 1 + 4 + 100 * 2 + 4));
}

#[test]
fn wide_missing_robot() {
    assert_eq!(part2("####\n#.O#\n####\n\n>\n"), None);
}
