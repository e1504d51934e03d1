use puzzle_solvers::day02::solve_part_one;
use puzzle_solvers::day02::solve_part_two;
use puzzle_solvers::errors::PuzzleError;

#[test]
fn day02_test_part_one() {
    let res = solve_part_one("A Y\nB X\nC Z");
    assert_eq!(res, Ok(15));
}

#[test]
fn day02_test_part_two() {
    let res = solve_part_two("A Y\nB X\nC Z");
    assert_eq!(res, Ok(12));
}

#[test]
fn day02_single_rounds() {
    // paper (2) against rock wins (6)
    assert_eq!(solve_part_one("A Y"), Ok(8));
    // rock (1) against paper loses (0)
    assert_eq!(solve_part_one("B X"), Ok(1));
    // a required draw against rock means rock: 3 + 1
    assert_eq!(solve_part_two("A Y"), Ok(4));
}

#[test]
fn day02_unknown_tokens() {
    assert_eq!(solve_part_one("A D"), Err(PuzzleError::UnknownHand));
    assert_eq!(solve_part_one("D Y"), Err(PuzzleError::UnknownHand));
    assert_eq!(solve_part_two("A D"), Err(PuzzleError::UnknownOutcome));
    assert_eq!(solve_part_one("AY"), Err(PuzzleError::MalformedLine));
    assert_eq!(solve_part_one("A  Y"), Err(PuzzleError::UnknownHand));
}
