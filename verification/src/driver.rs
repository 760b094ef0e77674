//! The driver's logic: the day-solver contract, the candidate matrix of
//! (year, day, part) combinations with its selection filter, and the
//! fixed dispatch table of registered puzzles.
//!
//! Reading input files, timing a run and printing belong to the binary
//! around this library; everything that decides or computes stands here.

use vstd::prelude::*;
use crate::output::{input_path, spec_input_path};

verus! {

/// The shape every per-puzzle solver conforms to: parse the raw input
/// text once into a structured form, then compute either part's answer
/// independently from that form.
pub trait Solution {
    type Input;

    type Output;

    /// The structured form the module reads in the raw text.
    spec fn spec_parse_input(&self, text: Seq<char>) -> Self::Input;

    /// The first part's answer for a parsed input.
    spec fn spec_part1(&self, input: Self::Input) -> Self::Output;

    /// The second part's answer for a parsed input.
    spec fn spec_part2(&self, input: Self::Input) -> Self::Output;

    /// The text an answer is rendered as.
    spec fn spec_render(&self, output: Self::Output) -> Seq<char>;

    /// Turns raw input text into the puzzle's structured form.
    fn parse_input(&self, input: &str) -> (r: Self::Input)
        ensures
            r == self.spec_parse_input(input@),
    ;

    /// Computes the first part's answer from the parsed input.
    fn part1(&self, input: Self::Input) -> (r: Self::Output)
        ensures
            r == self.spec_part1(input),
    ;

    /// Computes the second part's answer from the parsed input.
    fn part2(&self, input: Self::Input) -> (r: Self::Output)
        ensures
            r == self.spec_part2(input),
    ;

    /// Renders an answer as text.
    fn render(&self, output: Self::Output) -> (r: String)
        ensures
            r@ == self.spec_render(output),
    ;

    /// Parses the input text once, then computes and renders the
    /// requested part's answer; any part besides 1 means part 2.
    fn solve(&self, text: &str, part: u8) -> (r: String)
        ensures
            part == 1 ==> r@ == self.spec_render(self.spec_part1(self.spec_parse_input(text@))),
            part != 1 ==> r@ == self.spec_render(self.spec_part2(self.spec_parse_input(text@))),
    {
        let input = self.parse_input(text);
        if part == 1 {
            let out = self.part1(input);
            self.render(out)
        } else {
            let out = self.part2(input);
            self.render(out)
        }
    }
}

/// The candidate matrix: years 2015 through 2021, days 1 through 25,
/// parts 1 and 2.
pub open spec fn spec_in_space(t: (u16, u8, u8)) -> bool {
    2015 <= t.0 <= 2021 && 1 <= t.1 <= 25 && 1 <= t.2 <= 2
}

/// A candidate matches the criteria when each given constraint equals
/// the candidate's value; an absent constraint matches any value.
pub open spec fn spec_matches(
    year: Option<u16>,
    day: Option<u8>,
    part: Option<u8>,
    t: (u16, u8, u8),
) -> bool {
    &&& (year matches Some(y) ==> t.0 == y)
    &&& (day matches Some(d) ==> t.1 == d)
    &&& (part matches Some(p) ==> t.2 == p)
}

/// `a` is walked before `b` in the candidate matrix: by year, then day,
/// then part.
pub open spec fn lex_before(a: (u16, u8, u8), b: (u16, u8, u8)) -> bool {
    ||| a.0 < b.0
    ||| (a.0 == b.0 && a.1 < b.1)
    ||| (a.0 == b.0 && a.1 == b.1 && a.2 < b.2)
}

/// `s` is the selection for the criteria: it holds exactly the matching
/// candidates, each once, in the order the matrix is walked.
pub open spec fn spec_selection(
    s: Seq<(u16, u8, u8)>,
    year: Option<u16>,
    day: Option<u8>,
    part: Option<u8>,
) -> bool {
    &&& (forall|t: (u16, u8, u8)|
        #[trigger] s.contains(t) <==> spec_in_space(t) && spec_matches(year, day, part, t))
    &&& (forall|i: int, j: int| 0 <= i < j < s.len() ==> s[i] != s[j])
    &&& (forall|i: int, j: int| 0 <= i < j < s.len() ==> lex_before(s[i], s[j]))
}

/// `t` comes strictly before position (`y`, `d`, `p`) in the order the
/// matrix is walked.
spec fn before(t: (u16, u8, u8), y: int, d: int, p: int) -> bool {
    ||| t.0 < y
    ||| (t.0 == y && t.1 < d)
    ||| (t.0 == y && t.1 == d && t.2 < p)
}

fn matches_criteria(
    year: Option<u16>,
    day: Option<u8>,
    part: Option<u8>,
    y: u16,
    d: u8,
    p: u8,
) -> (r: bool)
    ensures
        r == spec_matches(year, day, part, (y, d, p)),
{
    let ym = match year {
        Some(v) => v == y,
        None => true,
    };
    let dm = match day {
        Some(v) => v == d,
        None => true,
    };
    let pm = match part {
        Some(v) => v == p,
        None => true,
    };
    ym && dm && pm
}

/// Enumerates the candidate matrix in order and keeps the combinations
/// that match the criteria.
#[verifier::loop_isolation(false)]
pub fn select(year: Option<u16>, day: Option<u8>, part: Option<u8>) -> (r: Vec<(u16, u8, u8)>)
    ensures
        spec_selection(r@, year, day, part),
{
    let mut r: Vec<(u16, u8, u8)> = Vec::new();
    let mut y: u16 = 2015;
    while y <= 2021
        invariant
            2015 <= y <= 2022,
            forall|t: (u16, u8, u8)|
                #[trigger] r@.contains(t) <==> spec_in_space(t) && spec_matches(
                    year,
                    day,
                    part,
                    t,
                ) && before(t, y as int, 1, 1),
            forall|i: int| 0 <= i < r@.len() ==> before(#[trigger] r@[i], y as int, 1, 1),
            forall|i: int, j: int| 0 <= i < j < r@.len() ==> r@[i] != r@[j],
            forall|i: int, j: int| 0 <= i < j < r@.len() ==> lex_before(r@[i], r@[j]),
        decreases 2022 - y,
    {
        let mut d: u8 = 1;
        while d <= 25
            invariant
                1 <= d <= 26,
                forall|t: (u16, u8, u8)|
                    #[trigger] r@.contains(t) <==> spec_in_space(t) && spec_matches(
                        year,
                        day,
                        part,
                        t,
                    ) && before(t, y as int, d as int, 1),
                forall|i: int| 0 <= i < r@.len() ==> before(#[trigger] r@[i], y as int, d as int, 1),
                forall|i: int, j: int| 0 <= i < j < r@.len() ==> r@[i] != r@[j],
                forall|i: int, j: int| 0 <= i < j < r@.len() ==> lex_before(r@[i], r@[j]),
            decreases 26 - d,
        {
            let mut p: u8 = 1;
            while p <= 2
                invariant
                    1 <= p <= 3,
                    forall|t: (u16, u8, u8)|
                        #[trigger] r@.contains(t) <==> spec_in_space(t) && spec_matches(
                            year,
                            day,
                            part,
                            t,
                        ) && before(t, y as int, d as int, p as int),
                    forall|i: int|
                        0 <= i < r@.len() ==> before(#[trigger] r@[i], y as int, d as int, p as int),
                    forall|i: int, j: int| 0 <= i < j < r@.len() ==> r@[i] != r@[j],
                    forall|i: int, j: int| 0 <= i < j < r@.len() ==> lex_before(r@[i], r@[j]),
                decreases 3 - p,
            {
                if matches_criteria(year, day, part, y, d, p) {
                    let ghost old_r = r@;
                    r.push((y, d, p));
                    proof {
                        broadcast use vstd::seq_lib::lemma_seq_contains_after_push;

                        assert(forall|t: (u16, u8, u8)|
                            #[trigger] r@.contains(t) <==> (old_r.contains(t) || t == (y, d, p)));
                    }
                }
                p = p + 1;
            }
            d = d + 1;
        }
        y = y + 1;
    }
    r
}

/// The fixed dispatch table registers days 1 through 3 of 2021 and days
/// 1 through 19 of 2020; every other combination has no handler.
pub open spec fn spec_registered(year: int, day: int) -> bool {
    ||| (year == 2021 && 1 <= day <= 3)
    ||| (year == 2020 && 1 <= day <= 19)
}

/// Looks up the handler for a combination in the dispatch table.  A
/// registered combination yields the path of the input file its handler
/// reads; an unregistered one yields nothing, so the caller skips it in
/// silence rather than failing.
pub fn solve(year: u16, day: u8) -> (r: Option<String>)
    ensures
        (r is Some) <==> spec_registered(year as int, day as int),
        r matches Some(file) ==> file@ == spec_input_path(year as int, day as int),
{
    if year == 2021 && 1 <= day && day <= 3 {
        Some(input_path(year, day))
    } else if year == 2020 && 1 <= day && day <= 19 {
        Some(input_path(year, day))
    } else {
        None
    }
}

/// The standalone password-list solver stays orphaned: the file a
/// dispatched combination reads is derived from its year and day and is
/// never that solver's fixed input file, so no run that goes through the
/// dispatch table can reach its entry points.
pub proof fn lemma_standalone_solver_unreachable(year: int, day: int)
    ensures
        spec_input_path(year, day) != "input/day2.txt"@,
{
    reveal_strlit("input/");
    reveal_strlit("input/day2.txt");
    crate::output::lemma_dec_digits(year);
    let p = spec_input_path(year, day);
    assert(p[6] == crate::output::spec_dec(year)[0]);
    if p == "input/day2.txt"@ {
        assert(p[6] == 'd');
        assert(!crate::day2::is_digit('d'));
        assert(false);
    }
}

/// With only a year requested, the selection holds exactly the candidate
/// combinations of that year: every day and part for it, none for any
/// other year.
pub proof fn lemma_select_year_only(s: Seq<(u16, u8, u8)>, y: u16, t: (u16, u8, u8))
    requires
        spec_selection(s, Some(y), None, None),
    ensures
        s.contains(t) <==> (spec_in_space(t) && t.0 == y),
{
}

/// With all three criteria given, at most one combination survives the
/// filter.
pub proof fn lemma_select_all_given(s: Seq<(u16, u8, u8)>, y: u16, d: u8, p: u8)
    requires
        spec_selection(s, Some(y), Some(d), Some(p)),
    ensures
        s.len() <= 1,
{
    if s.len() >= 2 {
        assert(s.contains(s[0]));
        assert(s.contains(s[1]));
        assert(s[0] == (y, d, p));
        assert(s[1] == (y, d, p));
        assert(false);
    }
}

} // verus!
