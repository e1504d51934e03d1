//! Verified solvers for a set of small text puzzles.
//!
//! Each day module parses one textual input format and computes two
//! numeric or string answers. Malformed input is reported through typed
//! errors; no solver panics. The dispatcher maps a day id to its
//! solver pair.

use vstd::prelude::*;

pub mod day01;
pub mod day02;
pub mod day03;
pub mod day04;
pub mod day05;
pub mod day06;
pub mod errors;
pub mod text;

use crate::errors::PuzzleError;

verus! {

/// A solver's answer: an integer or a string, depending on the day.
#[derive(Debug, PartialEq, Eq)]
pub enum Answer {
    Int(i32),
    Text(String),
}

/// The days this library solves.
pub open spec fn day_known(day: u8) -> bool {
    1 <= day <= 6
}

/// How a pair of integer answers relates to the two parts' specified
/// results: both answers exact on success, the first failing part's
/// error otherwise.
pub open spec fn int_answers(
    r: Result<(Answer, Answer), PuzzleError>,
    p1: Result<int, PuzzleError>,
    p2: Result<int, PuzzleError>,
) -> bool {
    match r {
        Ok(pair) => (pair.0 matches Answer::Int(a) && p1 == Ok::<int, PuzzleError>(a as int)) && (
        pair.1 matches Answer::Int(b) && p2 == Ok::<int, PuzzleError>(b as int)),
        Err(e) => p1 == Err::<int, PuzzleError>(e) || (p1 is Ok && p2 == Err::<int, PuzzleError>(
            e,
        )),
    }
}

/// As `int_answers`, for a day whose answers are strings.
pub open spec fn str_answers(
    r: Result<(Answer, Answer), PuzzleError>,
    p1: Result<Seq<char>, PuzzleError>,
    p2: Result<Seq<char>, PuzzleError>,
) -> bool {
    match r {
        Ok(pair) => (pair.0 matches Answer::Text(a) && p1 matches Ok(t) && a@ == t) && (
        pair.1 matches Answer::Text(b) && p2 matches Ok(u) && b@ == u),
        Err(e) => p1 == Err::<Seq<char>, PuzzleError>(e) || (p1 is Ok && p2 == Err::<
            Seq<char>,
            PuzzleError,
        >(e)),
    }
}

/// The loader's guard: empty puzzle text is a typed error, never a
/// crash.
pub fn validate_puzzle_text(s: &str) -> (r: Result<(), PuzzleError>)
    ensures
        s@.len() > 0 ==> r == Ok::<(), PuzzleError>(()),
        s@.len() == 0 ==> r == Err::<(), PuzzleError>(PuzzleError::EmptyInput),
{
    if s.is_empty() {
        Err(PuzzleError::EmptyInput)
    } else {
        Ok(())
    }
}

/// Solve both parts of the named day, or report why not: an unknown
/// day id, or the first part's typed failure.
pub fn solve_day(day: u8, input: &str) -> (r: Result<(Answer, Answer), PuzzleError>)
    ensures
        !day_known(day) ==> r == Err::<(Answer, Answer), PuzzleError>(PuzzleError::UnknownDay),
        day == 1 ==> int_answers(r, day01::part_one_spec(input@), day01::part_two_spec(input@)),
        day == 2 ==> int_answers(r, day02::part_one_spec(input@), day02::part_two_spec(input@)),
        day == 3 ==> int_answers(r, day03::part_one_spec(input@), day03::part_two_spec(input@)),
        day == 4 ==> int_answers(r, day04::part_one_spec(input@), day04::part_two_spec(input@)),
        day == 5 ==> str_answers(r, day05::part_one_spec(input@), day05::part_two_spec(input@)),
        day == 6 ==> int_answers(r, day06::part_one_spec(input@), day06::part_two_spec(input@)),
{
    match day {
        1 => match day01::solve_part_one(input) {
            Err(e) => Err(e),
            Ok(a) => match day01::solve_part_two(input) {
                Err(e) => Err(e),
                Ok(b) => Ok((Answer::Int(a), Answer::Int(b))),
            },
        },
        2 => match day02::solve_part_one(input) {
            Err(e) => Err(e),
            Ok(a) => match day02::solve_part_two(input) {
                Err(e) => Err(e),
                Ok(b) => Ok((Answer::Int(a), Answer::Int(b))),
            },
        },
        3 => match day03::solve_part_one(input) {
            Err(e) => Err(e),
            Ok(a) => match day03::solve_part_two(input) {
                Err(e) => Err(e),
                Ok(b) => Ok((Answer::Int(a), Answer::Int(b))),
            },
        },
        4 => match day04::solve_part_one(input) {
            Err(e) => Err(e),
            Ok(a) => match day04::solve_part_two(input) {
                Err(e) => Err(e),
                Ok(b) => Ok((Answer::Int(a), Answer::Int(b))),
            },
        },
        5 => match day05::solve_part_one(input) {
            Err(e) => Err(e),
            Ok(a) => match day05::solve_part_two(input) {
                Err(e) => Err(e),
                Ok(b) => Ok((Answer::Text(a), Answer::Text(b))),
            },
        },
        6 => match day06::solve_part_one(input) {
            Err(e) => Err(e),
            Ok(a) => match day06::solve_part_two(input) {
                Err(e) => Err(e),
                Ok(b) => Ok((Answer::Int(a), Answer::Int(b))),
            },
        },
        _ => Err(PuzzleError::UnknownDay),
    }
}

} // verus!
