use aoc2024::day23::{inner_part1, part1, part2};

const EXAMPLE: &str = "kh-tc\nqp-kh\nde-cg\nka-co\nyn-aq\nqp-ub\ncg-tb\nvc-aq\ntb-ka\nwh-tc\nyn-cg\nkh-ub\nta-co\nde-co\ntc-td\ntb-wq\nwh-td\nta-ka\ntd-qp\naq-cg\nwq-ub\nub-vc\nde-ta\nwq-aq\nwq-vc\nwh-yn\nka-de\nkh-ta\nco-tc\nwh-qp\ntb-vc\ntd-yn\n";

#[test]
fn example_triangles_with_t() {
    assert_eq!(part1(EXAMPLE), Some(7));
}

#[test]
fn one_triangle() {
    assert_eq!(part1("ta-bb\nbb-cc\ncc-ta\n"), Some(1));
    assert_eq!(part1("ta-bb\nbb-cc\ncc-ta\nbb-ta\n"), Some(1));
}

#[test]
fn triangle_without_t() {
    assert_eq!(part1("aa-bb\nbb-cc\ncc-aa\n"), Some(0));
}

#[test]
fn empty_and_malformed() {
    assert_eq!(part1(""), Some(0));
    assert_eq!(part1("aa-bb"), None);
    assert_eq!(part1("aA-bb\n"), None);
}

#[test]
fn example_password() {
    assert_eq!(part2(EXAMPLE), Some("co,de,ka,ta".to_string()));
}

#[test]
fn triangle_with_tail_password() {
    assert_eq!(part2("aa-bb\nbb-cc\ncc-aa\ncc-dd\n"), Some("aa,bb,cc".to_string()));
}

#[test]
fn single_link_password() {
    assert_eq!(part2("xa-xb\n"), Some("xa,xb".to_string()));
    assert_eq!(part2(""), Some(String::new()));
    assert_eq!(part2("xa-xb"), None);
}

#[test]
fn triangles_from_bytes() {
    assert_eq!(inner_part1(EXAMPLE.as_bytes()), Some(7));
}
