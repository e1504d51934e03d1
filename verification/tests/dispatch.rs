use puzzle_solvers::Answer;
use puzzle_solvers::errors::PuzzleError;
use puzzle_solvers::solve_day;
use puzzle_solvers::validate_puzzle_text;

#[test]
fn dispatch_known_days() {
    let res = solve_day(2, "A Y\nB X\nC Z");
    assert_eq!(res, Ok((Answer::Int(15), Answer::Int(12))));
    let res = solve_day(4, "2-4,6-8\n2-3,4-5\n5-7,7-9\n2-8,3-7\n6-6,4-6\n2-6,4-8");
    assert_eq!(res, Ok((Answer::Int(2), Answer::Int(4))));
}

#[test]
fn dispatch_string_day() {
    let input = "    [D]    \n[N] [C]    \n[Z] [M] [P]\n 1   2   3 \n\nmove 1 from 2 to 1\nmove 3 from 1 to 3\nmove 2 from 2 to 1\nmove 1 from 1 to 2";
    let res = solve_day(5, input);
    assert_eq!(
        res,
        Ok((Answer::Text("CMZ".to_string()), Answer::Text("MCD".to_string())))
    );
}

#[test]
fn dispatch_unknown_day() {
    assert_eq!(solve_day(0, "x"), Err(PuzzleError::UnknownDay));
    assert_eq!(solve_day(7, "x"), Err(PuzzleError::UnknownDay));
    assert_eq!(solve_day(42, "x"), Err(PuzzleError::UnknownDay));
}

#[test]
fn dispatch_error_propagates() {
    assert_eq!(solve_day(2, "A D"), Err(PuzzleError::UnknownHand));
}

#[test]
fn loader_rejects_empty_text() {
    assert_eq!(validate_puzzle_text(""), Err(PuzzleError::EmptyInput));
    assert_eq!(validate_puzzle_text("1000"), Ok(()));
}
