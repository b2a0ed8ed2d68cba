use aoc2024::day12::{part1, part2};

const SMALL: &str = "AAAA\nBBCD\nBBCC\nEEEC\n";
const NESTED: &str = "OOOOO\nOXOXO\nOOOOO\nOXOXO\nOOOOO\n";
const LARGE: &str = "RRRRIICCFF\nRRRRIICCCF\nVVRRRCCFFF\nVVRCCCJFFF\nVVVVCJJCFE\nVVIVCCJJEE\nVVIIICJJEE\nMIIIIIJJEE\nMIIISIJEEE\nMMMISSJEEE\n";

#[test]
fn small_example_perimeter_price() {
    assert_eq!(part1(SMALL), Some(140));
}

#[test]
fn nested_example_perimeter_price() {
    assert_eq!(part1(NESTED), Some(772));
}

#[test]
fn large_example_perimeter_price() {
    assert_eq!(part1(LARGE), Some(1930));
}

#[test]
fn small_example_side_price() {
    assert_eq!(part2(SMALL), Some(80));
}

#[test]
fn nested_example_side_price() {
    assert_eq!(part2(NESTED), Some(436));
}

#[test]
fn e_shape_side_price() {
    assert_eq!(part2("EEEEE\nEXXXX\nEEEEE\nEXXXX\nEEEEE\n"), Some(236));
}

#[test]
fn diagonal_touch_side_price() {
    assert_eq!(part2("AAAAAA\nAAABBA\nAAABBA\nABBAAA\nABBAAA\nAAAAAA\n"), Some(368));
}

#[test]
fn large_example_side_price() {
    assert_eq!(part2(LARGE), Some(1206));
}

#[test]
fn single_cell() {
    assert_eq!(part1("A\n"), Some(4));
    assert_eq!(part2("A\n"), Some(4));
}

#[test]
fn no_line_break() {
    assert_eq!(part1("AAAA"), None);
    assert_eq!(part2("AAAA"), None);
}
