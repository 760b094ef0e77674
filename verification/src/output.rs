//! Rendering of results: decimal numerals, the zero-padded day, the
//! fixed-width answer field, the printed result line, and the path of a
//! puzzle's input file.

use vstd::prelude::*;
use vstd::string::*;

verus! {

/// The decimal digit character for `d`.
pub open spec fn spec_digit(d: int) -> char {
    if d == 0 {
        '0'
    } else if d == 1 {
        '1'
    } else if d == 2 {
        '2'
    } else if d == 3 {
        '3'
    } else if d == 4 {
        '4'
    } else if d == 5 {
        '5'
    } else if d == 6 {
        '6'
    } else if d == 7 {
        '7'
    } else if d == 8 {
        '8'
    } else {
        '9'
    }
}

/// The decimal numeral for `n`, most significant digit first, with no
/// leading zeroes.
pub open spec fn spec_dec(n: int) -> Seq<char>
    decreases n,
{
    if n < 10 {
        seq![spec_digit(n)]
    } else {
        spec_dec(n / 10).push(spec_digit(n % 10))
    }
}

/// The decimal numeral for `n`, widened with a leading zero to at least
/// two digits.
pub open spec fn spec_pad2(n: int) -> Seq<char> {
    if n < 10 {
        seq!['0'] + spec_dec(n)
    } else {
        spec_dec(n)
    }
}

/// `k` spaces.
pub open spec fn spaces(k: int) -> Seq<char> {
    Seq::new(k as nat, |i: int| ' ')
}

/// An answer left-justified in the fixed-width field: text shorter than
/// 15 characters gains trailing spaces up to that width, longer text is
/// unchanged.
pub open spec fn spec_pad15(s: Seq<char>) -> Seq<char> {
    if s.len() >= 15 {
        s
    } else {
        s + spaces(15 - s.len())
    }
}

/// One printed result line: the year, the zero-padded day, the part, the
/// answer in its fixed-width field, and the elapsed milliseconds.
pub open spec fn spec_line(year: int, day: int, part: int, answer: Seq<char>, ms: int) -> Seq<
    char,
> {
    spec_dec(year) + " day "@ + spec_pad2(day) + " part "@ + spec_dec(part) + " => "@ + spec_pad15(
        answer,
    ) + " (took "@ + spec_dec(ms) + "ms)"@
}

/// The path of the input file for a year and day: `input/<year>/<day>`,
/// with the day zero-padded to two digits.
pub open spec fn spec_input_path(year: int, day: int) -> Seq<char> {
    "input/"@ + spec_dec(year) + "/"@ + spec_pad2(day)
}

fn digit_str(d: u8) -> (r: &'static str)
    requires
        d < 10,
    ensures
        r@ == seq![spec_digit(d as int)],
{
    let r: &'static str = if d == 0 {
        "0"
    } else if d == 1 {
        "1"
    } else if d == 2 {
        "2"
    } else if d == 3 {
        "3"
    } else if d == 4 {
        "4"
    } else if d == 5 {
        "5"
    } else if d == 6 {
        "6"
    } else if d == 7 {
        "7"
    } else if d == 8 {
        "8"
    } else {
        "9"
    };
    proof {
        reveal_strlit("0");
        reveal_strlit("1");
        reveal_strlit("2");
        reveal_strlit("3");
        reveal_strlit("4");
        reveal_strlit("5");
        reveal_strlit("6");
        reveal_strlit("7");
        reveal_strlit("8");
        reveal_strlit("9");
        assert(r@ =~= seq![spec_digit(d as int)]);
    }
    r
}

/// Writes `n` in decimal.
pub fn dec_string(n: u128) -> (s: String)
    ensures
        s@ == spec_dec(n as int),
    decreases n,
{
    if n < 10 {
        String::from_str(digit_str(n as u8))
    } else {
        let mut s = dec_string(n / 10);
        s.append(digit_str((n % 10) as u8));
        proof {
            assert(s@ =~= spec_dec((n / 10) as int).push(spec_digit((n % 10) as int)));
        }
        s
    }
}

/// Writes `n` in decimal, zero-padded to at least two digits.
pub fn pad2_string(n: u8) -> (s: String)
    ensures
        s@ == spec_pad2(n as int),
{
    if n < 10 {
        let mut s = String::from_str("0");
        s.append(digit_str(n));
        proof {
            reveal_strlit("0");
            assert(s@ =~= seq!['0'] + spec_dec(n as int));
        }
        s
    } else {
        dec_string(n as u128)
    }
}

/// Left-justifies an answer in the fixed-width field.
#[verifier::loop_isolation(false)]
pub fn pad_answer(answer: &str) -> (r: String)
    ensures
        r@ == spec_pad15(answer@),
{
    let mut s = String::from_str(answer);
    let n = answer.unicode_len();
    if n >= 15 {
        return s;
    }
    let mut k = n;
    proof {
        assert(answer@ + spaces(0) =~= answer@);
    }
    while k < 15
        invariant
            n <= k <= 15,
            s@ == answer@ + spaces(k - n),
        decreases 15 - k,
    {
        s.append(" ");
        proof {
            reveal_strlit(" ");
            assert((answer@ + spaces(k - n)) + " "@ =~= answer@ + spaces(k + 1 - n));
        }
        k = k + 1;
    }
    s
}

/// Writes the result line for one solved combination.
pub fn format_line(year: u16, day: u8, part: u8, answer: &str, ms: u128) -> (r: String)
    ensures
        r@ == spec_line(year as int, day as int, part as int, answer@, ms as int),
{
    let mut s = dec_string(year as u128);
    s.append(" day ");
    let d = pad2_string(day);
    s.append(d.as_str());
    s.append(" part ");
    let p = dec_string(part as u128);
    s.append(p.as_str());
    s.append(" => ");
    let a = pad_answer(answer);
    s.append(a.as_str());
    s.append(" (took ");
    let m = dec_string(ms);
    s.append(m.as_str());
    s.append("ms)");
    s
}

/// Derives the path of the input file for a year and day.
pub fn input_path(year: u16, day: u8) -> (r: String)
    ensures
        r@ == spec_input_path(year as int, day as int),
{
    let mut s = String::from_str("input/");
    let y = dec_string(year as u128);
    s.append(y.as_str());
    s.append("/");
    let d = pad2_string(day);
    s.append(d.as_str());
    s
}

/// Every character of a decimal numeral is a digit, and a numeral is
/// never empty.
pub proof fn lemma_dec_digits(n: int)
    ensures
        spec_dec(n).len() >= 1,
        forall|i: int| 0 <= i < spec_dec(n).len() ==> crate::day2::is_digit(#[trigger] spec_dec(n)[i]),
    decreases n,
{
    if n < 10 {
        assert(crate::day2::is_digit(spec_digit(n)));
    } else {
        lemma_dec_digits(n / 10);
        assert(crate::day2::is_digit(spec_digit(n % 10)));
    }
}

/// A short answer is left-justified in the fixed-width field: the padded
/// text opens with the answer itself and closes with trailing spaces up
/// to width 15.
pub proof fn lemma_short_answer_padding(s: Seq<char>)
    requires
        s.len() < 15,
    ensures
        spec_pad15(s).len() == 15,
        spec_pad15(s).subrange(0, s.len() as int) == s,
        forall|i: int| s.len() <= i < 15 ==> spec_pad15(s)[i] == ' ',
{
    assert(spec_pad15(s).subrange(0, s.len() as int) =~= s);
}

} // verus!
