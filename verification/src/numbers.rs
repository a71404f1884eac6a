//! The numbers written in a file name.
//!
//! A name is read as a row of characters. Wherever decimal digits stand
//! side by side they form a run; a run that cannot be made longer on either
//! side is maximal. The numbers of a name are its maximal runs, read as
//! decimal numbers from left to right, without those too large for `u32`.

use crate::rows::{lemma_filter_push, lemma_map_push};
use vstd::prelude::*;

verus! {

/// Whether `c` is one of the ten decimal digits.
pub open spec fn is_digit(c: char) -> bool {
    '0' <= c && c <= '9'
}

/// The value of the decimal digit `c`.
pub open spec fn digit_value(c: char) -> nat
    recommends
        is_digit(c),
{
    (c as int - '0' as int) as nat
}

/// The number that a row of decimal digits denotes; leading zeros count
/// for nothing, and the empty row denotes zero.
pub open spec fn decimal_value(digits: Seq<char>) -> nat
    decreases digits.len(),
{
    if digits.len() == 0 {
        0
    } else {
        decimal_value(digits.drop_last()) * 10 + digit_value(digits.last())
    }
}

/// What reading `digits` as a `u32` gives: the number, or nothing where it
/// does not fit.
pub open spec fn parsed_u32(digits: Seq<char>) -> Option<u32> {
    if decimal_value(digits) <= u32::MAX {
        Some(decimal_value(digits) as u32)
    } else {
        None
    }
}

/// Whether a maximal run of digits ends just before position `end` of `s`.
pub open spec fn ends_run(s: Seq<char>, end: int) -> bool {
    &&& 0 < end <= s.len()
    &&& is_digit(s[end - 1])
    &&& (end == s.len() || !is_digit(s[end]))
}

/// Where the digits that stand directly before position `end` begin
/// (`end` itself where no digit stands before it).
pub open spec fn run_start(s: Seq<char>, end: int) -> int
    decreases end,
{
    if 0 < end <= s.len() && is_digit(s[end - 1]) {
        run_start(s, end - 1)
    } else {
        end
    }
}

/// The maximal digit runs of `s` that end at or before position `end`, from
/// left to right.
pub open spec fn digit_runs_upto(s: Seq<char>, end: int) -> Seq<Seq<char>>
    decreases end,
{
    if end <= 0 {
        Seq::empty()
    } else if ends_run(s, end) {
        digit_runs_upto(s, end - 1).push(s.subrange(run_start(s, end), end))
    } else {
        digit_runs_upto(s, end - 1)
    }
}

/// The maximal digit runs of `s`, from left to right.
pub open spec fn digit_runs(s: Seq<char>) -> Seq<Seq<char>> {
    digit_runs_upto(s, s.len() as int)
}

/// The numbers of a row of runs: each run read as a `u32`, in order, the
/// ones that do not fit left out.
pub open spec fn numbers_of_runs(runs: Seq<Seq<char>>) -> Seq<u32> {
    runs.filter_map(|run: Seq<char>| parsed_u32(run))
}

/// The numbers written in `name`.
pub open spec fn extracted_numbers(name: Seq<char>) -> Seq<u32> {
    numbers_of_runs(digit_runs(name))
}

/// The digits before a position reach back to `run_start` and no further.
pub proof fn lemma_run_start(s: Seq<char>, end: int)
    requires
        0 <= end <= s.len(),
    ensures
        0 <= run_start(s, end) <= end,
        forall|j: int| run_start(s, end) <= j < end ==> is_digit(#[trigger] s[j]),
        run_start(s, end) == 0 || !is_digit(s[run_start(s, end) - 1]),
    decreases end,
{
    if 0 < end && is_digit(s[end - 1]) {
        lemma_run_start(s, end - 1);
    }
}

/// The numbers of a row of runs with one more run at its end.
proof fn lemma_numbers_of_runs_push(runs: Seq<Seq<char>>, run: Seq<char>)
    ensures
        numbers_of_runs(runs.push(run)) == match parsed_u32(run) {
            Some(n) => numbers_of_runs(runs).push(n),
            None => numbers_of_runs(runs),
        },
{
    assert(runs.push(run).drop_last() == runs);
}

/// The decimal digit that `c` is, if it is one.
pub fn digit_of(c: char) -> (d: Option<u32>)
    ensures
        d == (if is_digit(c) {
            Some(digit_value(c) as u32)
        } else {
            None::<u32>
        }),
{
    if '0' <= c && c <= '9' {
        Some(c as u32 - '0' as u32)
    } else {
        None
    }
}

/// The numbers written in `name`: its maximal runs of decimal digits, read
/// from left to right. A run whose number does not fit in a `u32` is
/// skipped.
pub fn extract_numbers(name: &str) -> (numbers: Vec<u32>)
    ensures
        numbers@ == extracted_numbers(name@),
{
    let mut numbers: Vec<u32> = Vec::new();
    // The run being read, if the last character was a digit: its value so
    // far, unless that has outgrown `u32`.
    let mut in_run = false;
    let mut value: u32 = 0;
    let mut fits = true;
    for c in it: name.chars()
        invariant
            it.seq() == name@,
            in_run ==> it.index() > 0 && is_digit(name@[it.index() - 1]),
            !in_run ==> it.index() == 0 || !is_digit(name@[it.index() - 1]),
            in_run ==> numbers@ == numbers_of_runs(digit_runs_upto(name@, it.index() - 1)),
            !in_run ==> numbers@ == numbers_of_runs(digit_runs_upto(name@, it.index() as int)),
            in_run && fits ==> value == decimal_value(
                name@.subrange(run_start(name@, it.index() as int), it.index() as int),
            ),
            in_run && !fits ==> decimal_value(
                name@.subrange(run_start(name@, it.index() as int), it.index() as int),
            ) > u32::MAX,
    {
        let ghost k = it.index() as int;
        let ghost s = name@;
        proof {
            lemma_run_start(s, k);
        }
        match digit_of(c) {
            Some(d) => {
                proof {
                    let run = s.subrange(run_start(s, k + 1), k + 1);
                    assert(run.drop_last() == s.subrange(run_start(s, k), k));
                    if !in_run {
                        assert(decimal_value(s.subrange(k, k)) == 0);
                    }
                }
                if !in_run {
                    in_run = true;
                    value = d;
                    fits = true;
                } else if fits {
                    match value.checked_mul(10) {
                        Some(tens) => match tens.checked_add(d) {
                            Some(sum) => {
                                value = sum;
                            },
                            None => {
                                fits = false;
                            },
                        },
                        None => {
                            fits = false;
                        },
                    }
                }
            },
            None => {
                if in_run {
                    proof {
                        lemma_numbers_of_runs_push(
                            digit_runs_upto(s, k - 1),
                            s.subrange(run_start(s, k), k),
                        );
                    }
                    if fits {
                        numbers.push(value);
                    }
                    in_run = false;
                }
                assert(digit_runs_upto(s, k + 1) == digit_runs_upto(s, k));
            },
        }
    }
    if in_run {
        proof {
            let s = name@;
            let k = s.len() as int;
            lemma_run_start(s, k);
            lemma_numbers_of_runs_push(digit_runs_upto(s, k - 1), s.subrange(run_start(s, k), k));
        }
        if fits {
            numbers.push(value);
        }
    }
    numbers
}

/// Whether a file has a name.
pub open spec fn has_name<P>(file: (P, Option<String>)) -> bool {
    file.1 is Some
}

/// A file that has a name, with the numbers of its name in the name's
/// place.
pub open spec fn with_numbers<P>(file: (P, Option<String>)) -> (P, Seq<u32>) {
    (file.0, extracted_numbers(file.1->0@))
}

/// A path and a list of numbers, the list as a row.
pub open spec fn numbers_view<P>(pair: (P, Vec<u32>)) -> (P, Seq<u32>) {
    (pair.0, pair.1@)
}

/// The numbers written in the name of each file.
///
/// A file is given as whatever stands for its path and, beside it, its
/// file name if it has one. Each file that has a name gives a pair of its
/// path and the numbers of its name; a file without a name gives nothing.
/// The pairs keep the order of the files.
pub fn extract_numbers_from_names<P>(files: Vec<(P, Option<String>)>) -> (sheet_list: Vec<
    (P, Vec<u32>),
>)
    ensures
        sheet_list@.map_values(|pair: (P, Vec<u32>)| numbers_view(pair)) == files@.filter(
            |file: (P, Option<String>)| has_name(file),
        ).map_values(|file: (P, Option<String>)| with_numbers(file)),
{
    let ghost named = |file: (P, Option<String>)| has_name(file);
    let ghost numbered = |file: (P, Option<String>)| with_numbers(file);
    let ghost view = |pair: (P, Vec<u32>)| numbers_view(pair);
    let mut sheet_list: Vec<(P, Vec<u32>)> = Vec::new();
    proof {
        reveal(Seq::filter);
        assert(files@.take(0).filter(named).map_values(numbered) =~= sheet_list@.map_values(view));
    }
    for file in it: files.into_iter()
        invariant
            it.seq() == files@,
            named == |file: (P, Option<String>)| has_name(file),
            numbered == |file: (P, Option<String>)| with_numbers(file),
            view == |pair: (P, Vec<u32>)| numbers_view(pair),
            sheet_list@.map_values(view) == files@.take(it.index() as int).filter(
                named,
            ).map_values(numbered),
    {
        let ghost before = sheet_list@;
        proof {
            let k = it.index() as int;
            assert(files@.take(k + 1) == files@.take(k).push(file));
            lemma_filter_push(files@.take(k), file, named);
            lemma_map_push(files@.take(k).filter(named), file, numbered);
        }
        let (path, name) = file;
        match name {
            Some(name) => {
                let numbers = extract_numbers(name.as_str());
                sheet_list.push((path, numbers));
                proof {
                    lemma_map_push(before, (path, numbers), view);
                }
            },
            None => {},
        }
    }
    proof {
        assert(files@.take(files@.len() as int) == files@);
    }
    sheet_list
}

/// Whether the characters of `s` from `start` up to `end` are a maximal
/// run of digits: digits all, with no digit directly before or behind.
pub open spec fn is_maximal_run(s: Seq<char>, start: int, end: int) -> bool {
    &&& 0 <= start < end <= s.len()
    &&& forall|i: int| start <= i < end ==> is_digit(#[trigger] s[i])
    &&& (start == 0 || !is_digit(s[start - 1]))
    &&& (end == s.len() || !is_digit(s[end]))
}

/// What is listed as a run is a maximal run of digits.
pub proof fn lemma_listed_run_is_maximal(s: Seq<char>, end: int)
    requires
        ends_run(s, end),
    ensures
        is_maximal_run(s, run_start(s, end), end),
{
    lemma_run_start(s, end);
}

/// A run that is listed among those ending by `end` stays listed further on.
proof fn lemma_digit_runs_grow(s: Seq<char>, end: int, later: int)
    requires
        end <= later,
    ensures
        forall|run: Seq<char>|
            digit_runs_upto(s, end).contains(run) ==> digit_runs_upto(s, later).contains(run),
    decreases later - end,
{
    if end < later {
        lemma_digit_runs_grow(s, end, later - 1);
        let before = digit_runs_upto(s, later - 1);
        assert forall|run: Seq<char>| before.contains(run) implies digit_runs_upto(
            s,
            later,
        ).contains(run) by {
            if later > 0 && ends_run(s, later) {
                let i = choose|i: int| 0 <= i < before.len() && before[i] == run;
                assert(digit_runs_upto(s, later)[i] == run);
            }
        }
    }
}

/// Every maximal run of digits is listed, under the position where it ends.
pub proof fn lemma_maximal_run_is_listed(s: Seq<char>, start: int, end: int)
    requires
        is_maximal_run(s, start, end),
    ensures
        ends_run(s, end),
        run_start(s, end) == start,
        digit_runs(s).contains(s.subrange(start, end)),
{
    lemma_run_start(s, end);
    let listed = digit_runs_upto(s, end);
    assert(listed[listed.len() - 1] == s.subrange(start, end));
    lemma_digit_runs_grow(s, end, s.len() as int);
}

/// A name without a digit holds no number.
pub proof fn lemma_no_digit_no_number(name: Seq<char>)
    requires
        forall|i: int| 0 <= i < name.len() ==> !is_digit(#[trigger] name[i]),
    ensures
        extracted_numbers(name) == Seq::<u32>::empty(),
{
    lemma_no_digit_no_run(name, name.len() as int);
}

/// Where no digit stands before `end`, no run ends by then.
proof fn lemma_no_digit_no_run(s: Seq<char>, end: int)
    requires
        end <= s.len(),
        forall|i: int| 0 <= i < end ==> !is_digit(#[trigger] s[i]),
    ensures
        digit_runs_upto(s, end) == Seq::<Seq<char>>::empty(),
    decreases end,
{
    if end > 0 {
        lemma_no_digit_no_run(s, end - 1);
    }
}

} // verus!
