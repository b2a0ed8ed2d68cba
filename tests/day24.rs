use aoc2024::day24::{part1, part2};

#[test]
fn and_gate_driving_z_is_flagged() {
    let text = "x00: 1\ny00: 0\n\nx00 XOR y00 -> z00\nx00 AND y00 -> z01\n";
    assert_eq!(part2(text), Some("z01".to_string()));
}

#[test]
fn every_rule_flags_and_sorts() {
    let text = "x00: 1\n\nabc XOR def -> ghi\nx01 XOR y01 -> kkk\nkkk OR mmm -> nnn\nx02 AND y02 -> ppp\nppp AND qqq -> rrr\naaa OR bbb -> z45\nccc AND ddd -> z03\n";
    assert_eq!(part2(text), Some("ghi,kkk,ppp,z03".to_string()));
}

#[test]
fn sound_adder_flags_nothing() {
    let text = "x00: 1\ny00: 1\n\nx00 XOR y00 -> z00\nx00 AND y00 -> z01\n";
    assert_eq!(part2(&text.replace("-> z01", "-> z45")), Some(String::new()));
}

#[test]
fn malformed_circuit() {
    assert_eq!(part2("x00: 1\nx00 AND y00 -> z01\n"), None);
    assert_eq!(part2("x00: 1\n\nx00 NAND y00 -> z01\n"), None);
}

#[test]
fn small_circuit_output() {
    let text = "x00: 1\nx01: 1\nx02: 1\ny00: 0\ny01: 1\ny02: 0\n\nx00 AND y00 -> z00\nx01 XOR y01 -> z01\nx02 OR y02 -> z02\n";
    assert_eq!(part1(text), Some(4));
}

#[test]
fn gate_listed_before_its_input() {
    let text = "x00: 1\ny00: 1\n\naaa OR x00 -> z01\nx00 AND y00 -> aaa\n";
    assert_eq!(part1(text), Some(2));
}

#[test]
fn unset_wires_give_zero_bits() {
    let text = "x00: 1\n\nx00 AND y00 -> z00\n";
    assert_eq!(part1(text), Some(0));
}

#[test]
fn malformed_initial_values() {
    assert_eq!(part1("x00: 2\n\nx00 AND y00 -> z00\n"), None);
    assert_eq!(part1("x00 1\n\nx00 AND y00 -> z00\n"), None);
}
