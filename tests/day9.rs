use aoc2024::day9::{part1, part2};

#[test]
fn example_block_compaction() {
    assert_eq!(part1("2333133121414131402"), Some(1928));
}

#[test]
fn example_file_compaction() {
    assert_eq!(part2("2333133121414131402"), Some(2858));
}

#[test]
fn small_map_block_compaction() {
    // 0..111....22222 becomes 022111222
    assert_eq!(part1("12345"), Some(60));
}

#[test]
fn small_map_no_file_fits() {
    // no free run can hold file 2 or file 1, so nothing moves
    assert_eq!(part2("12345"), Some(132));
}

#[test]
fn trailing_line_break_is_ignored() {
    assert_eq!(part1("2333133121414131402\n"), Some(1928));
    assert_eq!(part2("2333133121414131402\n"), Some(2858));
}

#[test]
fn single_file() {
    assert_eq!(part1("3"), Some(0));
    assert_eq!(part2("3"), Some(0));
    assert_eq!(part1(""), Some(0));
}

#[test]
fn not_a_disk_map() {
    assert_eq!(part1("12a45"), None);
    assert_eq!(part2("12a45"), None);
}
