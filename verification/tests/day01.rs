use puzzle_solvers::day01::solve_part_one;
use puzzle_solvers::day01::solve_part_two;

const EXAMPLE: &str =
    "1000\n2000\n3000\n\n4000\n\n5000\n6000\n\n7000\n8000\n9000\n\n10000";

#[test]
fn day01_test_part_one() {
    let res = solve_part_one(EXAMPLE);
    assert_eq!(res, Ok(24000));
}

#[test]
fn day01_test_part_two() {
    let res = solve_part_two(EXAMPLE);
    assert_eq!(res, Ok(45000));
}

#[test]
fn day01_trailing_group_counts() {
    // the last group has no trailing blank line and must still win
    assert_eq!(solve_part_one("1\n2\n\n10"), Ok(10));
}

#[test]
fn day01_malformed_line_is_separator() {
    // a non-numeric line separates groups instead of failing
    assert_eq!(solve_part_one("5\nabc\n7"), Ok(7));
    // a value too large for an i32 is not a number either
    assert_eq!(solve_part_one("99999999999999999999\n5"), Ok(5));
}

#[test]
fn day01_empty_and_blank_lines() {
    assert_eq!(solve_part_one(""), Ok(0));
    assert_eq!(solve_part_one("\n\n"), Ok(0));
    assert_eq!(solve_part_two(""), Ok(0));
}

#[test]
fn day01_top_three_fewer_groups() {
    // fewer than three groups: missing ones count as zero
    assert_eq!(solve_part_two("4\n\n7"), Ok(11));
}
