use puzzle_solvers::day05::Crate;
use puzzle_solvers::day05::Instruction;
use puzzle_solvers::day05::Slot;
use puzzle_solvers::day05::SupplyStacks;
use puzzle_solvers::day05::read_diagram;
use puzzle_solvers::day05::render_diagram;
use puzzle_solvers::day05::solve_part_one;
use puzzle_solvers::day05::solve_part_two;
use puzzle_solvers::errors::PuzzleError;

const EXAMPLE: &str = "    [D]    \n[N] [C]    \n[Z] [M] [P]\n 1   2   3 \n\nmove 1 from 2 to 1\nmove 3 from 1 to 3\nmove 2 from 2 to 1\nmove 1 from 1 to 2";

#[test]
fn day05_test_part_one() {
    let res = solve_part_one(EXAMPLE);
    assert_eq!(res, Ok("CMZ".to_string()));
}

#[test]
fn day05_test_part_two() {
    let res = solve_part_two(EXAMPLE);
    assert_eq!(res, Ok("MCD".to_string()));
}

#[test]
fn test_instruction_from_str_1() {
    let input = "move 1 from 1 to 2";
    let res = Instruction::parse(input);
    assert_eq!(
        res,
        Ok(Instruction {
            amount: 1,
            from: 1,
            to: 2
        })
    );
}

#[test]
fn test_instruction_from_str_2() {
    let input = "move 12 from 1123 to 223";
    let res = Instruction::parse(input);
    assert_eq!(
        res,
        Ok(Instruction {
            amount: 12,
            from: 1123,
            to: 223
        })
    );
}

#[test]
fn test_instruction_from_str_3() {
    let input = "move 1 from 1 to 2 ";
    let res = Instruction::parse(input);
    assert_eq!(res, Err(PuzzleError::ParseInstructionError));
}

#[test]
fn test_crate_from_str_1() {
    let input = "[1]";
    let res = Crate::parse(input);
    assert_eq!(res, Ok(Crate('1')));
}

#[test]
fn test_crate_from_str_2() {
    let input = "[12]";
    let res = Crate::parse(input);
    assert_eq!(res, Err(PuzzleError::ParseCrateError));
}

#[test]
fn test_crate_from_str_3() {
    let input = "[1] ";
    let res = Crate::parse(input);
    assert_eq!(res, Err(PuzzleError::ParseCrateError));
}

#[test]
fn test_seacks_from_str_1() {
    let res = SupplyStacks::parse(EXAMPLE);
    let supply_stacks = SupplyStacks {
        stacks: vec![vec!['Z', 'N'], vec!['M', 'C', 'D'], vec!['P']],
        instructions: vec![
            Instruction {
                amount: 1,
                from: 2,
                to: 1,
            },
            Instruction {
                amount: 3,
                from: 1,
                to: 3,
            },
            Instruction {
                amount: 2,
                from: 2,
                to: 1,
            },
            Instruction {
                amount: 1,
                from: 1,
                to: 2,
            },
        ],
    };
    assert_eq!(res, Ok(supply_stacks));
}

#[test]
fn day05_slot_parse() {
    assert_eq!(Slot::parse("   "), Ok(Slot::Empty));
    assert_eq!(Slot::parse("[A]"), Ok(Slot::Crate(Crate('A'))));
    assert_eq!(Slot::parse("  "), Err(PuzzleError::ParseCrateError));
}

#[test]
fn day05_render_round_trip() {
    // re-serializing the parsed diagram reproduces the stack contents
    let parsed = SupplyStacks::parse(EXAMPLE).unwrap();
    let rows = render_diagram(&parsed.stacks);
    let again = read_diagram(&rows).unwrap();
    assert_eq!(again, parsed.stacks);
}

#[test]
fn day05_empty_stack_is_skipped() {
    // emptying a stack must not crash; its column is left out of the answer
    let input = "[A] [B]\n 1   2 \n\nmove 1 from 1 to 2";
    assert_eq!(solve_part_one(input), Ok("A".to_string()));
}

#[test]
fn day05_errors() {
    let too_many = "[A]\n 1 \n\nmove 2 from 1 to 1";
    assert_eq!(solve_part_one(too_many), Err(PuzzleError::InvalidMove));
    let bad_index = "[A]\n 1 \n\nmove 1 from 3 to 1";
    assert_eq!(solve_part_one(bad_index), Err(PuzzleError::InvalidMove));
    let no_blank = "[A]\n 1 \nmove 1 from 1 to 1";
    assert_eq!(solve_part_one(no_blank), Err(PuzzleError::ParseLineError));
    let bad_cell = "xyz\n 1 \n\n";
    assert_eq!(solve_part_one(bad_cell), Err(PuzzleError::ParseCrateError));
    let bad_move = "[A]\n 1 \n\nmove one from 1 to 1";
    assert_eq!(
        solve_part_one(bad_move),
        Err(PuzzleError::ParseInstructionError)
    );
}
