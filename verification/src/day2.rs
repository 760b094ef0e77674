//! Standalone solver for a fixed-format password-policy list.
//!
//! Each record pairs an inclusive numeric range `[from, to]` and a required
//! letter with a password.  One count asks how many passwords contain the
//! letter a number of times that lies inside the range; the other asks how
//! many passwords carry the letter at exactly one of the two 1-based
//! positions `from` and `to`.
//!
//! This solver predates the generic day-solver contract in `driver` and is
//! not registered with it: nothing in the dispatch table reaches it.

use vstd::prelude::*;
use vstd::pervasive::unreached;
use vstd::string::*;

verus! {

/// One line of the password list: a required letter, an inclusive
/// range `[from, to]` of 1-based positions or counts, and the password.
pub struct PasswordWithPolicy {
    pub password: Vec<char>,
    pub letter: char,
    pub from: usize,
    pub to: usize,
}

/// The mathematical model of a record.
pub ghost struct Record {
    pub password: Seq<char>,
    pub letter: char,
    pub from: nat,
    pub to: nat,
}

impl View for PasswordWithPolicy {
    type V = Record;

    open spec fn view(&self) -> Record {
        Record {
            password: self.password@,
            letter: self.letter,
            from: self.from as nat,
            to: self.to as nat,
        }
    }
}

/// The records a sequence of parsed lines stands for.
pub open spec fn records_view(s: Seq<PasswordWithPolicy>) -> Seq<Record> {
    s.map_values(|p: PasswordWithPolicy| p@)
}

/// How many times `c` occurs in `s`.
pub open spec fn count_matches(s: Seq<char>, c: char) -> nat
    decreases s.len(),
{
    if s.len() == 0 {
        0
    } else {
        count_matches(s.drop_last(), c) + (if s.last() == c {
            1nat
        } else {
            0nat
        })
    }
}

/// The frequency policy: the required letter occurs between `from` and
/// `to` times (inclusive) in the password.
pub open spec fn freq_valid(r: Record) -> bool {
    r.from <= count_matches(r.password, r.letter) <= r.to
}

/// The character at 1-based position `pos` of `s` is `c`; a position
/// outside the password is a non-match, not an error.
pub open spec fn position_matches(s: Seq<char>, pos: int, c: char) -> bool {
    1 <= pos <= s.len() && s[pos - 1] == c
}

/// The positional policy: exactly one of positions `from` and `to`
/// holds the required letter.
pub open spec fn positional_valid(r: Record) -> bool {
    position_matches(r.password, r.from as int, r.letter) != position_matches(
        r.password,
        r.to as int,
        r.letter,
    )
}

/// How many records of `rs` satisfy `ok`.
pub open spec fn count_valid(rs: Seq<Record>, ok: spec_fn(Record) -> bool) -> nat
    decreases rs.len(),
{
    if rs.len() == 0 {
        0
    } else {
        count_valid(rs.drop_last(), ok) + (if ok(rs.last()) {
            1nat
        } else {
            0nat
        })
    }
}

/// The answer to the first question: how many records are valid under
/// the frequency policy.
pub open spec fn spec_part1(rs: Seq<Record>) -> nat {
    count_valid(rs, |r: Record| freq_valid(r))
}

/// The answer to the second question: how many records are valid under
/// the positional policy.
pub open spec fn spec_part2(rs: Seq<Record>) -> nat {
    count_valid(rs, |r: Record| positional_valid(r))
}

/// Counts the occurrences of `c` in `password`.
#[verifier::loop_isolation(false)]
fn count_letter(password: &Vec<char>, c: char) -> (n: usize)
    ensures
        n == count_matches(password@, c),
{
    let mut n: usize = 0;
    let mut i: usize = 0;
    while i < password.len()
        invariant
            i <= password.len(),
            n <= i,
            n == count_matches(password@.take(i as int), c),
        decreases password.len() - i,
    {
        if password[i] == c {
            n = n + 1;
        }
        proof {
            assert(password@.take(i + 1).drop_last() =~= password@.take(i as int));
        }
        i = i + 1;
    }
    proof {
        assert(password@.take(password@.len() as int) =~= password@);
    }
    n
}

/// Counts the records valid under the frequency policy.
#[verifier::loop_isolation(false)]
pub fn part1(input: &Vec<PasswordWithPolicy>) -> (r: usize)
    ensures
        r == spec_part1(records_view(input@)),
{
    let ghost rs = records_view(input@);
    let mut r: usize = 0;
    let mut i: usize = 0;
    while i < input.len()
        invariant
            i <= input.len(),
            r <= i,
            r == spec_part1(rs.take(i as int)),
        decreases input.len() - i,
    {
        let p = &input[i];
        let n = count_letter(&p.password, p.letter);
        if p.from <= n && n <= p.to {
            r = r + 1;
        }
        proof {
            assert(rs.take(i + 1).drop_last() =~= rs.take(i as int));
            assert(rs.take(i + 1).last() == input@[i as int]@);
        }
        i = i + 1;
    }
    proof {
        assert(rs.take(input@.len() as int) =~= rs);
    }
    r
}

/// Counts the records valid under the positional policy.
#[verifier::loop_isolation(false)]
pub fn part2(input: &Vec<PasswordWithPolicy>) -> (r: usize)
    ensures
        r == spec_part2(records_view(input@)),
{
    let ghost rs = records_view(input@);
    let mut r: usize = 0;
    let mut i: usize = 0;
    while i < input.len()
        invariant
            i <= input.len(),
            r <= i,
            r == spec_part2(rs.take(i as int)),
        decreases input.len() - i,
    {
        let p = &input[i];
        let first = 1 <= p.from && p.from <= p.password.len() && p.password[p.from - 1] == p.letter;
        let second = 1 <= p.to && p.to <= p.password.len() && p.password[p.to - 1] == p.letter;
        assert(first == position_matches(p.password@, p.from as int, p.letter));
        assert(second == position_matches(p.password@, p.to as int, p.letter));
        if (first || second) && !(first && second) {
            r = r + 1;
        }
        proof {
            assert(rs.take(i + 1).drop_last() =~= rs.take(i as int));
            assert(rs.take(i + 1).last() == input@[i as int]@);
        }
        i = i + 1;
    }
    proof {
        assert(rs.take(input@.len() as int) =~= rs);
    }
    r
}

/// A letter that is absent from the password has frequency zero, so the
/// record is valid under the frequency policy exactly when `from` is zero.
pub proof fn lemma_absent_letter_frequency(r: Record)
    requires
        forall|i: int| 0 <= i < r.password.len() ==> r.password[i] != r.letter,
    ensures
        count_matches(r.password, r.letter) == 0,
        freq_valid(r) <==> r.from == 0,
{
    lemma_count_matches_absent(r.password, r.letter);
}

proof fn lemma_count_matches_absent(s: Seq<char>, c: char)
    requires
        forall|i: int| 0 <= i < s.len() ==> s[i] != c,
    ensures
        count_matches(s, c) == 0,
    decreases s.len(),
{
    if s.len() > 0 {
        assert(forall|i: int| 0 <= i < s.drop_last().len() ==> s.drop_last()[i] != c);
        lemma_count_matches_absent(s.drop_last(), c);
    }
}

/// When `from` and `to` name the same position, at most one position can
/// never match exclusively: the record is invalid under the positional
/// policy whatever the password holds.
pub proof fn lemma_equal_positions_invalid(r: Record)
    requires
        r.from == r.to,
    ensures
        !positional_valid(r),
{
}

/// `c` is an ASCII decimal digit.
pub open spec fn is_digit(c: char) -> bool {
    48 <= c as int <= 57
}

/// `c` is white space: the Unicode white-space characters, the set that
/// trimming removes from the ends of the input.
pub open spec fn is_space(c: char) -> bool {
    let u = c as int;
    ||| (9 <= u <= 13)
    ||| u == 0x20
    ||| u == 0x85
    ||| u == 0xA0
    ||| u == 0x1680
    ||| (0x2000 <= u <= 0x200A)
    ||| u == 0x2028
    ||| u == 0x2029
    ||| u == 0x202F
    ||| u == 0x205F
    ||| u == 0x3000
}

/// The first index at or after `i` that does not hold a digit, or the
/// end of `s`.
pub open spec fn digits_end(s: Seq<char>, i: int) -> int
    decreases s.len() - i,
{
    if i < 0 || i >= s.len() {
        i
    } else if is_digit(s[i]) {
        digits_end(s, i + 1)
    } else {
        i
    }
}

/// The number written by a sequence of decimal digits, most significant
/// first.
pub open spec fn digits_val(s: Seq<char>) -> int
    decreases s.len(),
{
    if s.len() == 0 {
        0
    } else {
        digits_val(s.drop_last()) * 10 + (s.last() as int - 48)
    }
}

/// The first index at or after `i` where `c` stands, or the end of `s`.
pub open spec fn find_char(s: Seq<char>, c: char, i: int) -> int
    decreases s.len() - i,
{
    if i < 0 || i >= s.len() {
        i
    } else if s[i] == c {
        i
    } else {
        find_char(s, c, i + 1)
    }
}

/// The first index at or after `i` that holds something besides blank
/// space, or the end of `s`.
pub open spec fn first_non_space(s: Seq<char>, i: int) -> int
    decreases s.len() - i,
{
    if i < 0 || i >= s.len() {
        i
    } else if is_space(s[i]) {
        first_non_space(s, i + 1)
    } else {
        i
    }
}

/// One past the last index below `j` that holds something besides blank
/// space, or zero.
pub open spec fn trim_end_at(s: Seq<char>, j: int) -> int
    decreases j,
{
    if j <= 0 {
        0
    } else if is_space(s[j - 1]) {
        trim_end_at(s, j - 1)
    } else {
        j
    }
}

/// `s` without its leading and trailing blank space.
pub open spec fn spec_trim(s: Seq<char>) -> Seq<char> {
    let lo = first_non_space(s, 0);
    if lo >= s.len() {
        Seq::empty()
    } else {
        s.subrange(lo, trim_end_at(s, s.len() as int))
    }
}

/// `s` split at each newline; the separators are dropped.
pub open spec fn split_newlines(s: Seq<char>) -> Seq<Seq<char>>
    decreases s.len(),
{
    let i = find_char(s, '\n', 0);
    if 0 <= i < s.len() {
        seq![s.take(i)] + split_newlines(s.skip(i + 1))
    } else {
        seq![s]
    }
}

/// A line without its trailing carriage return, if it has one.
pub open spec fn strip_cr(l: Seq<char>) -> Seq<char> {
    if l.len() > 0 && l.last() == '\r' {
        l.drop_last()
    } else {
        l
    }
}

/// The lines of a trimmed, nonempty text: split at newlines, each line
/// without a trailing carriage return.
pub open spec fn lines_of(t: Seq<char>) -> Seq<Seq<char>> {
    split_newlines(t).map_values(|l: Seq<char>| strip_cr(l))
}

/// The lines of the input: the text is trimmed, split at newlines, and
/// each line loses a trailing carriage return.  Blank input has no lines.
pub open spec fn spec_lines(text: Seq<char>) -> Seq<Seq<char>> {
    let t = spec_trim(text);
    if t.len() == 0 {
        Seq::empty()
    } else {
        lines_of(t)
    }
}

/// The record written on one line, in the grammar
/// `<from>-<to> <letter>: <password>`: two nonempty runs of digits whose
/// values fit a machine word, one letter, a colon-space separator, and a
/// nonempty password reaching to the end of the line.  A line of any
/// other shape has no record.
pub open spec fn parse_line(s: Seq<char>) -> Option<Record> {
    let n = s.len() as int;
    let i1 = digits_end(s, 0);
    let i2 = digits_end(s, i1 + 1);
    if i1 == 0 || i1 >= n || s[i1] != '-' {
        None
    } else if i2 == i1 + 1 || i2 >= n || s[i2] != ' ' {
        None
    } else if n - i2 < 5 {
        None
    } else if s[i2 + 2] != ':' || s[i2 + 3] != ' ' {
        None
    } else {
        let from = digits_val(s.subrange(0, i1));
        let to = digits_val(s.subrange(i1 + 1, i2));
        if from > usize::MAX as int || to > usize::MAX as int {
            None
        } else {
            Some(
                Record {
                    password: s.subrange(i2 + 4, n),
                    letter: s[i2 + 1],
                    from: from as nat,
                    to: to as nat,
                },
            )
        }
    }
}

/// The records of a sequence of lines, in order; nothing if any line is
/// malformed.
pub open spec fn parse_lines(ls: Seq<Seq<char>>) -> Option<Seq<Record>>
    decreases ls.len(),
{
    if ls.len() == 0 {
        Some(Seq::empty())
    } else {
        match parse_line(ls.first()) {
            None => None,
            Some(r) => match parse_lines(ls.drop_first()) {
                None => None,
                Some(rest) => Some(seq![r] + rest),
            },
        }
    }
}

/// The records written in the full input text; nothing if any line is
/// malformed.
pub open spec fn spec_parse(text: Seq<char>) -> Option<Seq<Record>> {
    parse_lines(spec_lines(text))
}

fn is_digit_char(c: char) -> (b: bool)
    ensures
        b == is_digit(c),
{
    let u = c as u32;
    48 <= u && u <= 57
}

fn is_space_char(c: char) -> (b: bool)
    ensures
        b == is_space(c),
{
    let u = c as u32;
    (9 <= u && u <= 13) || u == 0x20 || u == 0x85 || u == 0xA0 || u == 0x1680 || (0x2000 <= u
        && u <= 0x200A) || u == 0x2028 || u == 0x2029 || u == 0x202F || u == 0x205F || u == 0x3000
}

/// The characters of `s`, in order.
#[verifier::loop_isolation(false)]
fn chars_of(s: &str) -> (r: Vec<char>)
    ensures
        r@ == s@,
{
    let n = s.unicode_len();
    let mut r: Vec<char> = Vec::new();
    let mut i: usize = 0;
    while i < n
        invariant
            i <= n,
            r@ == s@.take(i as int),
        decreases n - i,
    {
        let c = s.get_char(i);
        r.push(c);
        proof {
            assert(s@.take(i + 1) =~= s@.take(i as int).push(s@[i as int]));
        }
        i = i + 1;
    }
    proof {
        assert(s@.take(n as int) =~= s@);
    }
    r
}

/// Scans past the run of digits that starts at `start`.
#[verifier::loop_isolation(false)]
fn scan_digits(line: &Vec<char>, start: usize) -> (i: usize)
    requires
        start <= line.len(),
    ensures
        start <= i <= line.len(),
        i == digits_end(line@, start as int),
        forall|k: int| start <= k < i ==> is_digit(line@[k]),
{
    let mut i: usize = start;
    while i < line.len() && is_digit_char(line[i])
        invariant
            start <= i <= line.len(),
            digits_end(line@, start as int) == digits_end(line@, i as int),
            forall|k: int| start <= k < i ==> is_digit(line@[k]),
        decreases line.len() - i,
    {
        i = i + 1;
    }
    i
}

proof fn lemma_digits_val_bounds(s: Seq<char>)
    requires
        forall|k: int| 0 <= k < s.len() ==> is_digit(s[k]),
    ensures
        0 <= digits_val(s),
    decreases s.len(),
{
    if s.len() > 0 {
        assert(forall|k: int| 0 <= k < s.drop_last().len() ==> is_digit(s.drop_last()[k]));
        lemma_digits_val_bounds(s.drop_last());
    }
}

/// Appending digits to a digit string never lowers its value.
proof fn lemma_digits_val_extend(s: Seq<char>, b: int, c: int)
    requires
        0 <= b <= c <= s.len(),
        forall|k: int| 0 <= k < s.len() ==> is_digit(s[k]),
    ensures
        digits_val(s.subrange(0, b)) <= digits_val(s.subrange(0, c)),
    decreases c - b,
{
    if b < c {
        let t = s.subrange(0, c);
        assert(t.drop_last() =~= s.subrange(0, c - 1));
        assert(forall|k: int| 0 <= k < t.len() ==> is_digit(t[k]));
        lemma_digits_val_bounds(s.subrange(0, c - 1));
        lemma_digits_val_extend(s, b, c - 1);
    }
}

/// Reads the number written by the digits of `line` between `start` and
/// `end`; nothing if its value does not fit a machine word.
#[verifier::loop_isolation(false)]
fn digits_value(line: &Vec<char>, start: usize, end: usize) -> (r: Option<usize>)
    requires
        start <= end <= line.len(),
        forall|k: int| start <= k < end ==> is_digit(line@[k]),
    ensures
        match r {
            Some(v) => v == digits_val(line@.subrange(start as int, end as int)),
            None => digits_val(line@.subrange(start as int, end as int)) > usize::MAX as int,
        },
{
    let ghost whole = line@.subrange(start as int, end as int);
    proof {
        assert(forall|k: int| 0 <= k < whole.len() ==> is_digit(whole[k]));
    }
    let mut val: usize = 0;
    let mut j: usize = start;
    while j < end
        invariant
            start <= j <= end,
            val == digits_val(line@.subrange(start as int, j as int)),
        decreases end - j,
    {
        let u = line[j] as u32;
        let d = (u - 48) as usize;
        proof {
            assert(line@.subrange(start as int, j + 1).drop_last() =~= line@.subrange(
                start as int,
                j as int,
            ));
        }
        let next = match val.checked_mul(10) {
            Some(v10) => v10.checked_add(d),
            None => None,
        };
        match next {
            Some(v) => {
                val = v;
            },
            None => {
                proof {
                    assert(digits_val(line@.subrange(start as int, j + 1)) > usize::MAX as int);
                    assert(whole.subrange(0, j + 1 - start) =~= line@.subrange(start as int, j + 1));
                    assert(whole.subrange(0, whole.len() as int) =~= whole);
                    lemma_digits_val_extend(whole, j + 1 - start, whole.len() as int);
                }
                return None;
            },
        }
        j = j + 1;
    }
    Some(val)
}

/// Copies the characters of `cs` between `start` and `end`.
#[verifier::loop_isolation(false)]
fn copy_range(cs: &Vec<char>, start: usize, end: usize) -> (r: Vec<char>)
    requires
        start <= end <= cs.len(),
    ensures
        r@ == cs@.subrange(start as int, end as int),
{
    let mut r: Vec<char> = Vec::new();
    let mut k: usize = start;
    while k < end
        invariant
            start <= k <= end,
            r@ == cs@.subrange(start as int, k as int),
        decreases end - k,
    {
        r.push(cs[k]);
        proof {
            assert(cs@.subrange(start as int, k + 1) =~= cs@.subrange(start as int, k as int).push(
                cs@[k as int],
            ));
        }
        k = k + 1;
    }
    r
}

/// The index of the first newline between `start` and `end`, or `end`.
#[verifier::loop_isolation(false)]
fn find_newline(cs: &Vec<char>, start: usize, end: usize) -> (r: usize)
    requires
        start <= end <= cs.len(),
    ensures
        start <= r <= end,
        r - start == find_char(cs@.subrange(start as int, end as int), '\n', 0),
        r < end ==> cs@[r as int] == '\n',
{
    let ghost sub = cs@.subrange(start as int, end as int);
    let mut k: usize = start;
    while k < end && !(cs[k] == '\n')
        invariant
            start <= k <= end,
            find_char(sub, '\n', 0) == find_char(sub, '\n', k - start),
        decreases end - k,
    {
        proof {
            assert(sub[k - start] == cs@[k as int]);
        }
        k = k + 1;
    }
    proof {
        if k < end {
            assert(sub[k - start] == cs@[k as int]);
        }
    }
    k
}

/// Reads one record from a line, or nothing when the line is malformed.
fn parse_line_exec(line: &Vec<char>) -> (r: Option<PasswordWithPolicy>)
    ensures
        match r {
            Some(p) => parse_line(line@) == Some(p@),
            None => (parse_line(line@) is None),
        },
{
    let n = line.len();
    let i1 = scan_digits(line, 0);
    if i1 == 0 || i1 == n || !(line[i1] == '-') {
        return None;
    }
    let i2 = scan_digits(line, i1 + 1);
    if i2 == i1 + 1 || i2 == n || !(line[i2] == ' ') {
        return None;
    }
    if n - i2 < 5 {
        return None;
    }
    let letter = line[i2 + 1];
    if !(line[i2 + 2] == ':') || !(line[i2 + 3] == ' ') {
        return None;
    }
    let from = match digits_value(line, 0, i1) {
        Some(v) => v,
        None => {
            return None;
        },
    };
    let to = match digits_value(line, i1 + 1, i2) {
        Some(v) => v,
        None => {
            return None;
        },
    };
    let password = copy_range(line, i2 + 4, n);
    let p = PasswordWithPolicy { password, letter, from, to };
    Some(p)
}

/// After the records of the first `j` lines have been read into `done`,
/// the outcome over all of `lines` is settled by the lines that remain.
pub open spec fn parse_progress(lines: Seq<Seq<char>>, j: int, done: Seq<Record>) -> bool {
    parse_lines(lines) == (match parse_lines(lines.skip(j)) {
        None => None::<Seq<Record>>,
        Some(rest) => Some(done + rest),
    })
}

/// Reads the whole password list from the input text, or nothing when
/// some line is malformed.
#[verifier::loop_isolation(false)]
pub fn parse_records(text: &str) -> (r: Option<Vec<PasswordWithPolicy>>)
    ensures
        match r {
            Some(v) => spec_parse(text@) == Some(records_view(v@)),
            None => (spec_parse(text@) is None),
        },
{
    let cs = chars_of(text);
    let n = cs.len();
    let mut lo: usize = 0;
    while lo < n && is_space_char(cs[lo])
        invariant
            lo <= n,
            first_non_space(cs@, 0) == first_non_space(cs@, lo as int),
        decreases n - lo,
    {
        lo = lo + 1;
    }
    if lo == n {
        proof {
            assert(spec_trim(text@) =~= Seq::<char>::empty());
            assert(records_view(Seq::<PasswordWithPolicy>::empty())
                =~= Seq::<Record>::empty());
        }
        let v: Vec<PasswordWithPolicy> = Vec::new();
        return Some(v);
    }
    let mut hi: usize = n;
    while hi > lo && is_space_char(cs[hi - 1])
        invariant
            lo < hi <= n,
            !is_space(cs@[lo as int]),
            trim_end_at(cs@, n as int) == trim_end_at(cs@, hi as int),
        decreases hi,
    {
        hi = hi - 1;
    }
    let ghost t = cs@.subrange(lo as int, hi as int);
    let ghost lines = spec_lines(text@);
    proof {
        assert(trim_end_at(cs@, hi as int) == hi);
        assert(spec_trim(text@) =~= t);
        assert(t.len() > 0);
        assert(lines == lines_of(t));
        assert(lines.skip(0) =~= lines);
        assert(t[t.len() - 1] == cs@[hi - 1]);
        assert(cs@[hi - 1] != '\n');
    }
    let mut recs: Vec<PasswordWithPolicy> = Vec::new();
    let mut pos: usize = lo;
    let ghost mut j: int = 0;
    while pos < hi
        invariant
            lo <= pos <= hi,
            0 <= j <= lines.len(),
            pos < hi ==> lines.skip(j) == lines_of(cs@.subrange(pos as int, hi as int)),
            pos == hi ==> j == lines.len(),
            parse_progress(lines, j, records_view(recs@)),
        decreases hi - pos,
    {
        let ghost rem = cs@.subrange(pos as int, hi as int);
        let le = find_newline(&cs, pos, hi);
        let ghost f: int = le - pos;
        let pe = if le > pos && cs[le - 1] == '\r' {
            le - 1
        } else {
            le
        };
        let line = copy_range(&cs, pos, pe);
        let ghost lineseq = if f < rem.len() {
            rem.take(f)
        } else {
            rem
        };
        proof {
            if le < hi {
                assert(rem[f] == cs@[le as int]);
                assert(split_newlines(rem) == seq![rem.take(f)] + split_newlines(rem.skip(f + 1)));
            } else {
                assert(f == rem.len());
                assert(split_newlines(rem) == seq![rem]);
            }
            assert(lineseq =~= cs@.subrange(pos as int, le as int));
            assert(line@ =~= strip_cr(lineseq));
            assert(lines.skip(j)[0] == strip_cr(split_newlines(rem)[0]));
            assert(split_newlines(rem)[0] == lineseq);
            assert(lines[j] == line@);
        }
        match parse_line_exec(&line) {
            None => {
                proof {
                    assert(lines.skip(j).len() > 0);
                    assert(lines.skip(j).first() == lines[j]);
                    assert(parse_lines(lines.skip(j)) is None);
                }
                return None;
            },
            Some(p) => {
                let ghost old_recs = recs@;
                proof {
                    assert(lines.skip(j).first() == lines[j]);
                    assert(lines.skip(j).drop_first() =~= lines.skip(j + 1));
                    assert(records_view(old_recs.push(p)) =~= records_view(old_recs).push(p@));
                    match parse_lines(lines.skip(j + 1)) {
                        None => {
                            assert(parse_lines(lines.skip(j)) is None);
                        },
                        Some(rest) => {
                            assert(parse_lines(lines.skip(j)) == Some(seq![p@] + rest));
                            assert(records_view(old_recs).push(p@) + rest =~= records_view(old_recs) + (seq![p@] + rest));
                        },
                    }
                }
                recs.push(p);
                proof {
                    j = j + 1;
                }
                if le < hi {
                    proof {
                        assert(cs@[le as int] == '\n');
                        if le + 1 == hi {
                            assert(cs@[hi - 1] == '\n');
                            assert(false);
                        }
                        assert(cs@.subrange(le + 1, hi as int) =~= rem.skip(f + 1));
                        let g = |l: Seq<char>| strip_cr(l);
                        assert(lines.skip(j) =~= split_newlines(rem).map_values(g).skip(1));
                        assert(lines.skip(j) =~= lines_of(rem.skip(f + 1)));
                    }
                    pos = le + 1;
                } else {
                    proof {
                        assert(lines.skip(j - 1).len() == 1);
                        assert(j == lines.len());
                    }
                    pos = hi;
                }
            },
        }
    }
    proof {
        assert(lines.skip(j) =~= Seq::<Seq<char>>::empty());
        assert(records_view(recs@) + Seq::<Record>::empty() =~= records_view(recs@));
    }
    Some(recs)
}

/// Reads the password list from well-formed input text.
pub fn input(string: &str) -> (r: Vec<PasswordWithPolicy>)
    requires
        spec_parse(string@) is Some,
    ensures
        spec_parse(string@) == Some(records_view(r@)),
{
    match parse_records(string) {
        Some(v) => v,
        None => unreached(),
    }
}

/// Answers the first question for the given file contents: how many
/// records are valid under the frequency policy.
pub fn run_part1(contents: &str) -> (r: usize)
    requires
        spec_parse(contents@) is Some,
    ensures
        spec_parse(contents@) matches Some(rs) ==> r == spec_part1(rs),
{
    part1(&input(contents))
}

/// Answers the second question for the given file contents: how many
/// records are valid under the positional policy.
pub fn run_part2(contents: &str) -> (r: usize)
    requires
        spec_parse(contents@) is Some,
    ensures
        spec_parse(contents@) matches Some(rs) ==> r == spec_part2(rs),
{
    part2(&input(contents))
}

/// Parsing is a pure function of the text: any two record sequences read
/// from the same input are equal, so parsing twice changes nothing.
pub proof fn lemma_parse_pure(text: Seq<char>, a: Seq<Record>, b: Seq<Record>)
    requires
        spec_parse(text) == Some(a),
        spec_parse(text) == Some(b),
    ensures
        a == b,
{
}

} // verus!
