use advent::driver::{select, solve, Solution};
use advent::output::{format_line, input_path, pad_answer};

#[test]
fn year_only_selection_covers_that_year() {
    let s = select(Some(2020), None, None);
    assert_eq!(50, s.len());
    for t in &s {
        assert_eq!(2020, t.0);
    }
    assert!(s.contains(&(2020, 1, 1)));
    assert!(s.contains(&(2020, 25, 2)));
    assert!(!s.contains(&(2021, 1, 1)));
}

#[test]
fn full_criteria_select_one_combination() {
    let s = select(Some(2020), Some(2), Some(1));
    assert_eq!(vec![(2020, 2, 1)], s);
}

#[test]
fn no_criteria_select_the_whole_matrix() {
    let s = select(None, None, None);
    assert_eq!(350, s.len());
    assert_eq!((2015, 1, 1), s[0]);
    assert_eq!((2021, 25, 2), s[349]);
}

#[test]
fn out_of_matrix_criteria_select_nothing() {
    assert_eq!(0, select(Some(2030), None, None).len());
    assert_eq!(0, select(None, Some(26), None).len());
    assert_eq!(0, select(None, None, Some(3)).len());
}

#[test]
fn registered_combinations_resolve_to_their_input() {
    assert_eq!(Some(String::from("input/2021/03")), solve(2021, 3));
    assert_eq!(Some(String::from("input/2020/19")), solve(2020, 19));
    assert_eq!(Some(String::from("input/2020/02")), solve(2020, 2));
}

#[test]
fn unregistered_combinations_are_skipped_in_silence() {
    assert_eq!(None, solve(2019, 1));
    assert_eq!(None, solve(2021, 4));
    assert_eq!(None, solve(2020, 20));
    assert_eq!(None, solve(2015, 1));
    assert_eq!(None, solve(2022, 1));
}

#[test]
fn input_paths_are_zero_padded() {
    assert_eq!("input/2020/02", input_path(2020, 2).as_str());
    assert_eq!("input/2021/19", input_path(2021, 19).as_str());
}

#[test]
fn short_answers_gain_trailing_spaces() {
    assert_eq!("123            ", pad_answer("123").as_str());
    assert_eq!(format!("{:15}", "abc"), pad_answer("abc"));
}

#[test]
fn long_answers_stay_unchanged() {
    assert_eq!("aaaaaaaaaaaaaaaa", pad_answer("aaaaaaaaaaaaaaaa").as_str());
}

#[test]
fn result_lines_match_the_fixed_format() {
    assert_eq!(
        format!("{} day {:02} part {} => {:15} (took {}ms)", 2020, 2, 1, "123", 5),
        format_line(2020, 2, 1, "123", 5)
    );
    assert_eq!(
        format!("{} day {:02} part {} => {:15} (took {}ms)", 2021, 13, 2, "aaaaaaaaaaaaaaaaaaaa", 12),
        format_line(2021, 13, 2, "aaaaaaaaaaaaaaaaaaaa", 12)
    );
}

struct Doubler;

impl Solution for Doubler {
    type Input = usize;
    type Output = usize;

    // The four model functions are ghost: verified callers reason with them,
    // but no compiled path ever runs them.
    fn spec_parse_input(&self, _text: vstd::seq::Seq<char>) -> usize {
        unreachable!()
    }

    fn spec_part1(&self, _input: usize) -> usize {
        unreachable!()
    }

    fn spec_part2(&self, _input: usize) -> usize {
        unreachable!()
    }

    fn spec_render(&self, _output: usize) -> vstd::seq::Seq<char> {
        unreachable!()
    }

    fn parse_input(&self, input: &str) -> usize {
        input.len()
    }

    fn part1(&self, input: usize) -> usize {
        input
    }

    fn part2(&self, input: usize) -> usize {
        input * 2
    }

    fn render(&self, output: usize) -> String {
        format!("{}", output)
    }
}

#[test]
fn default_solve_parses_once_and_picks_the_part() {
    assert_eq!("3", Doubler.solve("abc", 1));
    assert_eq!("6", Doubler.solve("abc", 2));
}
