use puzzle_solvers::day06::find_marker;
use puzzle_solvers::day06::solve_part_one;
use puzzle_solvers::day06::solve_part_two;
use puzzle_solvers::errors::PuzzleError;

#[test]
fn day06_test_part_one() {
    let res = solve_part_one("mjqjpqmgbljsphdztnvjfqwrcgsmlb");
    assert_eq!(res, Ok(7));
    let res = solve_part_one("bvwbjplbgvbhsrlpgdmjqwftvncz");
    assert_eq!(res, Ok(5));
    let res = solve_part_one("nppdvjthqldpwncqszvftbrmi");
    assert_eq!(res, Ok(6));
    let res = solve_part_one("nznrnfrfntjfmvfwmzdfjlvtqnbhcprsg");
    assert_eq!(res, Ok(10));
    let res = solve_part_one("zcfzfwzzqfrljwzlrfnpqdbhtmscgvjw");
    assert_eq!(res, Ok(11));
}

#[test]
fn day06_test_part_two() {
    let res = solve_part_two("mjqjpqmgbljsphdztnvjfqwrcgsmlb");
    assert_eq!(res, Ok(19));
    let res = solve_part_two("bvwbjplbgvbhsrlpgdmjqwftvncz");
    assert_eq!(res, Ok(23));
    let res = solve_part_two("nppdvjthqldpwncqszvftbrmi");
    assert_eq!(res, Ok(23));
    let res = solve_part_two("nznrnfrfntjfmvfwmzdfjlvtqnbhcprsg");
    assert_eq!(res, Ok(29));
    let res = solve_part_two("zcfzfwzzqfrljwzlrfnpqdbhtmscgvjw");
    assert_eq!(res, Ok(26));
}

#[test]
fn day06_grapheme_units() {
    // combining marks keep their base letter: four distinct units
    let input = "a\u{0301}e\u{0301}i\u{0301}o";
    assert_eq!(solve_part_one(input), Ok(4));
}

#[test]
fn day06_marker_position_is_at_least_window() {
    for input in [
        "mjqjpqmgbljsphdztnvjfqwrcgsmlb",
        "bvwbjplbgvbhsrlpgdmjqwftvncz",
        "nppdvjthqldpwncqszvftbrmi",
    ] {
        let p = solve_part_one(input).unwrap();
        assert!(p >= 4);
        let q = solve_part_two(input).unwrap();
        assert!(q >= 14);
    }
}

#[test]
fn day06_no_marker() {
    // the window never fills with distinct units
    assert_eq!(solve_part_one("aabbaabb"), Ok(0));
    // only the first line is scanned
    assert_eq!(solve_part_one("\nabcd"), Ok(0));
}

#[test]
fn day06_empty_input() {
    assert_eq!(solve_part_one(""), Err(PuzzleError::EmptyInput));
    assert_eq!(solve_part_two(""), Err(PuzzleError::EmptyInput));
}

#[test]
fn day06_find_marker_direct() {
    let units: Vec<String> = "abcad"
        .chars()
        .map(|c| c.to_string())
        .collect();
    assert_eq!(find_marker(&units, 4), Some(5));
    assert_eq!(find_marker(&units, 3), Some(3));
    assert_eq!(find_marker(&units, 6), None);
}
