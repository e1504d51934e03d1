use puzzle_solvers::day04::Section;
use puzzle_solvers::day04::solve_part_one;
use puzzle_solvers::day04::solve_part_two;
use puzzle_solvers::errors::PuzzleError;

const EXAMPLE: &str = "2-4,6-8\n2-3,4-5\n5-7,7-9\n2-8,3-7\n6-6,4-6\n2-6,4-8";

#[test]
fn day04_test_part_one() {
    let res = solve_part_one(EXAMPLE);
    assert_eq!(res, Ok(2));
}

#[test]
fn day04_test_part_two() {
    let res = solve_part_two(EXAMPLE);
    assert_eq!(res, Ok(4));
}

#[test]
fn day04_section_parse() {
    assert_eq!(Section::parse("2-4"), Ok(Section(2, 4)));
    assert_eq!(Section::parse("24"), Err(PuzzleError::MalformedRange));
    assert_eq!(Section::parse("a-4"), Err(PuzzleError::MalformedRange));
    assert_eq!(Section::parse("4-"), Err(PuzzleError::MalformedRange));
}

#[test]
fn day04_section_relations() {
    let a = Section(2, 8);
    let b = Section(3, 7);
    assert!(a.contains(&b));
    assert!(!b.contains(&a));
    assert!(a.overlaps(&b));
    let c = Section(9, 10);
    assert!(!a.overlaps(&c));
}

#[test]
fn day04_errors() {
    assert_eq!(solve_part_one("2-4"), Err(PuzzleError::MalformedRange));
    assert_eq!(solve_part_one("2-4,"), Err(PuzzleError::MalformedRange));
}
