use puzzle_solvers::day03::priority;
use puzzle_solvers::day03::solve_part_one;
use puzzle_solvers::day03::solve_part_two;
use puzzle_solvers::errors::PuzzleError;

const EXAMPLE: &str = "vJrwpWtwJgWrhcsFMMfFFhFp\njqHRNqRjqzjGDLGLrsFMfFZSrLrFZsSL\nPmmdzqPrVvPwwTWBwg\nwMqvLMZHhHMvwLHjbvcjnnSBnvTQFn\nttgJtRGJQctTZtZT\nCrZsJsPPZsGzwwsLwLmpwMDw";

#[test]
fn day03_test_part_one() {
    let res = solve_part_one(EXAMPLE);
    assert_eq!(res, Ok(157));
}

#[test]
fn day03_test_part_two() {
    let res = solve_part_two(EXAMPLE);
    assert_eq!(res, Ok(70));
}

#[test]
fn day03_priorities() {
    assert_eq!(priority(&'a'), Ok(1));
    assert_eq!(priority(&'z'), Ok(26));
    assert_eq!(priority(&'A'), Ok(27));
    assert_eq!(priority(&'Z'), Ok(52));
    assert_eq!(priority(&'!'), Err(PuzzleError::UnknownItem));
}

#[test]
fn day03_shared_items_count_once() {
    // both halves are "abc": each shared item counts a single time
    assert_eq!(solve_part_one("abcabc"), Ok(6));
    // a repeated shared item still counts once
    assert_eq!(solve_part_one("aaaa"), Ok(1));
}

#[test]
fn day03_errors() {
    assert_eq!(solve_part_one("ab!b"), Err(PuzzleError::UnknownItem));
    assert_eq!(
        solve_part_two("aa\nbb\ncc\ndd"),
        Err(PuzzleError::IncompleteGroup)
    );
}
