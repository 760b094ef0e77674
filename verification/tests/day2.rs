use advent::day2::{input, parse_records, part1, part2, run_part1, run_part2};

fn sample() -> &'static str {
    "\n1-3 a: abcde\n1-3 b: cdefg\n2-9 c: ccccccccc\n            "
}

#[test]
fn test_part1() {
    assert_eq!(2, part1(&input(sample())));
}

#[test]
fn test_part2() {
    assert_eq!(1, part2(&input(sample())));
}

#[test]
fn run_entry_points_agree_with_parts() {
    assert_eq!(2, run_part1(sample()));
    assert_eq!(1, run_part2(sample()));
}

#[test]
fn parse_reads_all_fields() {
    let v = input("2-9 c: ccccccccc");
    assert_eq!(1, v.len());
    assert_eq!(2, v[0].from);
    assert_eq!(9, v[0].to);
    assert_eq!('c', v[0].letter);
    let expected: Vec<char> = "ccccccccc".chars().collect();
    assert_eq!(expected, v[0].password);
}

#[test]
fn parse_twice_yields_equal_records() {
    let a = input(sample());
    let b = input(sample());
    assert_eq!(a.len(), b.len());
    for i in 0..a.len() {
        assert_eq!(a[i].from, b[i].from);
        assert_eq!(a[i].to, b[i].to);
        assert_eq!(a[i].letter, b[i].letter);
        assert_eq!(a[i].password, b[i].password);
    }
}

#[test]
fn malformed_lines_are_rejected() {
    assert!(parse_records("1-3 a").is_none());
    assert!(parse_records("abc").is_none());
    assert!(parse_records("1-3 a: abcde\nnot a record").is_none());
    assert!(parse_records("1-3 a: abcde\n\n1-3 b: cdefg").is_none());
    assert!(parse_records("-3 a: abcde").is_none());
    assert!(parse_records("1- a: abcde").is_none());
    assert!(parse_records("1-3 ab: cdefg").is_none());
    assert!(parse_records("1-3 a:abcde").is_none());
    assert!(parse_records("1-3 a: ").is_none());
}

#[test]
fn oversized_count_is_rejected() {
    assert!(parse_records("99999999999999999999999999-3 a: xx").is_none());
}

#[test]
fn blank_input_has_no_records() {
    let v = parse_records("   \n  ").unwrap();
    assert_eq!(0, v.len());
    assert_eq!(0, part1(&input("   ")));
}

#[test]
fn absent_letter_is_valid_only_from_zero() {
    assert_eq!(1, part1(&input("0-3 z: aaaa")));
    assert_eq!(0, part1(&input("1-3 z: aaaa")));
}

#[test]
fn equal_positions_are_never_valid() {
    assert_eq!(0, part2(&input("2-2 a: aa")));
    assert_eq!(0, part2(&input("3-3 a: aaaa")));
}

#[test]
fn out_of_bounds_position_is_a_non_match() {
    assert_eq!(1, part2(&input("1-30 a: abc")));
    assert_eq!(0, part2(&input("20-30 a: abc")));
}

#[test]
fn unicode_white_space_is_trimmed() {
    assert_eq!(1, part1(&input("\u{2003}\u{000C}1-3 a: abcde\u{000C}\u{00A0}")));
}

#[test]
fn carriage_returns_are_stripped() {
    assert_eq!(1, part1(&input("1-3 a: abcde\r\n1-3 b: cdefg")));
}
