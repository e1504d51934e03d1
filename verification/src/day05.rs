//! Crate stack simulation. The input opens with a fixed-width diagram
//! of labeled stacks (top of stack at the top), then a label line, a
//! blank line, and move instructions. Part one moves crates one at a
//! time (reversing each batch), part two moves each batch as a unit.
//! The answer strings together the top crate of every non-empty stack.

use vstd::prelude::*;

use itertools::Itertools;

use crate::errors::PuzzleError;
use crate::text;

verus! {

/// A single crate, named by one character.
#[derive(Debug, PartialEq, Eq, Clone, Copy)]
pub struct Crate(pub char);

/// One cell of a diagram row: empty space or a crate.
#[derive(Debug, PartialEq, Eq, Clone, Copy)]
pub enum Slot {
    Empty,
    Crate(Crate),
}

/// One move: take `amount` crates off stack `from` and put them on
/// stack `to`; stacks are 1-based.
#[derive(Debug, PartialEq, Eq, Clone, Copy)]
pub struct Instruction {
    pub amount: usize,
    pub from: usize,
    pub to: usize,
}

/// The parsed puzzle: stack contents bottom to top, and the moves.
#[derive(Debug, PartialEq, Eq)]
pub struct SupplyStacks {
    pub stacks: Vec<Vec<char>>,
    pub instructions: Vec<Instruction>,
}

/// The views of a sequence of slot-row vectors.
pub open spec fn rows_view(v: Seq<Vec<Option<char>>>) -> Seq<Seq<Option<char>>> {
    v.map_values(|x: Vec<Option<char>>| x@)
}

/// A crate cell: an opening bracket, the crate's character, a closing
/// bracket, and nothing more.
pub open spec fn crate_spec(s: Seq<char>) -> Result<char, PuzzleError> {
    if s.len() == 3 && s[0] == '[' && s[2] == ']' {
        Ok(s[1])
    } else {
        Err(PuzzleError::ParseCrateError)
    }
}

pub open spec fn blank_cell() -> Seq<char> {
    seq![' ', ' ', ' ']
}

/// A diagram cell: three blanks for no crate, else a crate cell.
pub open spec fn slot_spec(s: Seq<char>) -> Result<Option<char>, PuzzleError> {
    if s == blank_cell() {
        Ok(None)
    } else {
        match crate_spec(s) {
            Ok(c) => Ok(Some(c)),
            Err(e) => Err(e),
        }
    }
}

/// The cells of one diagram row: three characters every four, as long
/// as a full cell fits on the line.
pub open spec fn row_slots(line: Seq<char>) -> Result<Seq<Option<char>>, PuzzleError>
    decreases line.len(),
{
    if line.len() < 3 {
        Ok(Seq::empty())
    } else {
        match slot_spec(line.take(3)) {
            Err(e) => Err(e),
            Ok(o) => if line.len() <= 4 {
                Ok(seq![o])
            } else {
                match row_slots(line.skip(4)) {
                    Err(e) => Err(e),
                    Ok(rest) => Ok(seq![o] + rest),
                }
            },
        }
    }
}

/// The line of stack labels that closes the diagram.
pub open spec fn is_label(line: Seq<char>) -> bool {
    line.len() >= 2 && line[0] == ' ' && line[1] == '1'
}

/// Index of the label line, or `lines.len()` if there is none.
pub open spec fn find_label(lines: Seq<Seq<char>>) -> int
    decreases lines.len(),
{
    if lines.len() == 0 {
        0
    } else if is_label(lines[0]) {
        0
    } else {
        1 + find_label(lines.skip(1))
    }
}

pub proof fn lemma_find_label(lines: Seq<Seq<char>>)
    ensures
        0 <= find_label(lines) <= lines.len(),
        find_label(lines) < lines.len() ==> is_label(lines[find_label(lines)]),
        forall|j: int| 0 <= j < find_label(lines) ==> !is_label(lines[j]),
    decreases lines.len(),
{
    if lines.len() == 0 {
    } else if is_label(lines[0]) {
    } else {
        lemma_find_label(lines.skip(1));
        assert forall|j: int| 0 <= j < find_label(lines) implies !is_label(lines[j]) by {
            if j > 0 {
                assert(lines.skip(1)[j - 1] == lines[j]);
            }
        }
    }
}

proof fn lemma_find_label_eq(lines: Seq<Seq<char>>, k: int)
    requires
        0 <= k <= lines.len(),
        k < lines.len() ==> is_label(lines[k]),
        forall|j: int| 0 <= j < k ==> !is_label(lines[j]),
    ensures
        find_label(lines) == k,
{
    lemma_find_label(lines);
    let f = find_label(lines);
    if f < k {
        assert(!is_label(lines[f]));
    } else if f > k {
        assert(k < lines.len());
        assert(is_label(lines[k]));
    }
}

/// The cells of every diagram row, or the first bad cell's error.
pub open spec fn parse_rows(lines: Seq<Seq<char>>) -> Result<Seq<Seq<Option<char>>>, PuzzleError>
    decreases lines.len(),
{
    if lines.len() == 0 {
        Ok(Seq::empty())
    } else {
        match row_slots(lines[0]) {
            Err(e) => Err(e),
            Ok(r0) => match parse_rows(lines.skip(1)) {
                Err(e) => Err(e),
                Ok(rest) => Ok(seq![r0] + rest),
            },
        }
    }
}

/// Stack `j` read off the rows, bottom to top: each row's cell `j`
/// from the bottom row upward, skipping empty cells.
pub open spec fn column_stack(rows: Seq<Seq<Option<char>>>, j: int) -> Seq<char>
    decreases rows.len(),
{
    if rows.len() == 0 {
        Seq::empty()
    } else {
        let below = column_stack(rows.skip(1), j);
        if 0 <= j < rows[0].len() && rows[0][j] is Some {
            below + seq![rows[0][j]->0]
        } else {
            below
        }
    }
}

/// The widest row decides how many stacks the diagram has.
pub open spec fn max_width(rows: Seq<Seq<Option<char>>>) -> int
    decreases rows.len(),
{
    if rows.len() == 0 {
        0
    } else {
        vstd::math::max(max_width(rows.drop_last()), rows.last().len() as int)
    }
}

pub proof fn lemma_max_width_nonneg(rows: Seq<Seq<Option<char>>>)
    ensures
        max_width(rows) >= 0,
    decreases rows.len(),
{
    if rows.len() > 0 {
        lemma_max_width_nonneg(rows.drop_last());
    }
}

/// The stacks a diagram denotes, one per column.
pub open spec fn stacks_of(rows: Seq<Seq<Option<char>>>) -> Seq<Seq<char>> {
    Seq::new(max_width(rows) as nat, |j: int| column_stack(rows, j))
}

pub open spec fn move_prefix() -> Seq<char> {
    seq!['m', 'o', 'v', 'e', ' ']
}

pub open spec fn from_prefix() -> Seq<char> {
    seq!['f', 'r', 'o', 'm', ' ']
}

pub open spec fn to_prefix() -> Seq<char> {
    seq!['t', 'o', ' ']
}

pub open spec fn has_prefix(s: Seq<char>, p: Seq<char>) -> bool {
    p.len() <= s.len() && s.take(p.len() as int) == p
}

/// The instruction a move line denotes: the word `move`, an amount, the
/// word `from`, a source, the word `to`, and a target filling the rest
/// of the line, all space-separated.
pub open spec fn instr_spec(line: Seq<char>) -> Result<Instruction, PuzzleError> {
    if !has_prefix(line, move_prefix()) {
        Err(PuzzleError::ParseInstructionError)
    } else {
        let s1 = line.skip(5);
        let sp1 = text::find_char(s1, ' ');
        if sp1 == s1.len() {
            Err(PuzzleError::ParseInstructionError)
        } else {
            match text::usize_value(s1.take(sp1)) {
                None => Err(PuzzleError::ParseInstructionError),
                Some(amount) => {
                    let s2 = s1.skip(sp1 + 1);
                    if !has_prefix(s2, from_prefix()) {
                        Err(PuzzleError::ParseInstructionError)
                    } else {
                        let s3 = s2.skip(5);
                        let sp2 = text::find_char(s3, ' ');
                        if sp2 == s3.len() {
                            Err(PuzzleError::ParseInstructionError)
                        } else {
                            match text::usize_value(s3.take(sp2)) {
                                None => Err(PuzzleError::ParseInstructionError),
                                Some(from) => {
                                    let s4 = s3.skip(sp2 + 1);
                                    if !has_prefix(s4, to_prefix()) {
                                        Err(PuzzleError::ParseInstructionError)
                                    } else {
                                        match text::usize_value(s4.skip(3)) {
                                            None => Err(PuzzleError::ParseInstructionError),
                                            Some(to) => Ok(
                                                Instruction {
                                                    amount: amount as usize,
                                                    from: from as usize,
                                                    to: to as usize,
                                                },
                                            ),
                                        }
                                    }
                                },
                            }
                        }
                    }
                },
            }
        }
    }
}

/// Every instruction line, or the first bad line's error.
pub open spec fn parse_instrs(lines: Seq<Seq<char>>) -> Result<Seq<Instruction>, PuzzleError>
    decreases lines.len(),
{
    if lines.len() == 0 {
        Ok(Seq::empty())
    } else {
        match instr_spec(lines[0]) {
            Err(e) => Err(e),
            Ok(i0) => match parse_instrs(lines.skip(1)) {
                Err(e) => Err(e),
                Ok(rest) => Ok(seq![i0] + rest),
            },
        }
    }
}

/// What the whole input denotes: diagram rows up to the label line,
/// then one blank line, then instructions.
pub open spec fn supply_spec(lines: Seq<Seq<char>>) -> Result<
    (Seq<Seq<char>>, Seq<Instruction>),
    PuzzleError,
> {
    let k = find_label(lines);
    if k == lines.len() {
        Err(PuzzleError::ParseLineError)
    } else {
        match parse_rows(lines.take(k)) {
            Err(e) => Err(e),
            Ok(rows) => if !(k + 1 < lines.len() && lines[k + 1].len() == 0) {
                Err(PuzzleError::ParseLineError)
            } else {
                match parse_instrs(lines.skip(k + 2)) {
                    Err(e) => Err(e),
                    Ok(instrs) => Ok((stacks_of(rows), instrs)),
                }
            },
        }
    }
}

/// One move applied to the stacks: the taken crates leave the top of
/// the source and arrive on the target, reversed when moved one at a
/// time (`chunked` false), in order when moved as one batch.
pub open spec fn apply_move(stacks: Seq<Seq<char>>, m: Instruction, chunked: bool) -> Result<
    Seq<Seq<char>>,
    PuzzleError,
> {
    let n = stacks.len() as int;
    if 1 <= m.from <= n && 1 <= m.to <= n && m.amount <= stacks[m.from as int - 1].len() {
        let src = stacks[m.from as int - 1];
        let cut = src.len() - m.amount as int;
        let taken = src.skip(cut);
        let moved = if chunked {
            taken
        } else {
            taken.reverse()
        };
        let s1 = stacks.update(m.from as int - 1, src.take(cut));
        Ok(s1.update(m.to as int - 1, s1[m.to as int - 1] + moved))
    } else {
        Err(PuzzleError::InvalidMove)
    }
}

/// All moves applied in input order; the first invalid move is an
/// error.
pub open spec fn apply_moves(
    stacks: Seq<Seq<char>>,
    ms: Seq<Instruction>,
    chunked: bool,
) -> Result<Seq<Seq<char>>, PuzzleError>
    decreases ms.len(),
{
    if ms.len() == 0 {
        Ok(stacks)
    } else {
        match apply_move(stacks, ms[0], chunked) {
            Err(e) => Err(e),
            Ok(s2) => apply_moves(s2, ms.skip(1), chunked),
        }
    }
}

/// The top crates of the non-empty stacks, in stack order.
pub open spec fn tops(stacks: Seq<Seq<char>>) -> Seq<char>
    decreases stacks.len(),
{
    if stacks.len() == 0 {
        Seq::empty()
    } else {
        tops(stacks.drop_last()) + (if stacks.last().len() > 0 {
            seq![stacks.last().last()]
        } else {
            Seq::empty()
        })
    }
}

/// What a part must return: the tops after every move, moving one at a
/// time (part one) or in batches (part two).
pub open spec fn part_result(s: Seq<char>, chunked: bool) -> Result<Seq<char>, PuzzleError> {
    match supply_spec(text::split_lines_spec(s)) {
        Err(e) => Err(e),
        Ok(p) => match apply_moves(p.0, p.1, chunked) {
            Err(e) => Err(e),
            Ok(fin) => Ok(tops(fin)),
        },
    }
}

pub open spec fn part_one_spec(s: Seq<char>) -> Result<Seq<char>, PuzzleError> {
    part_result(s, false)
}

pub open spec fn part_two_spec(s: Seq<char>) -> Result<Seq<char>, PuzzleError> {
    part_result(s, true)
}

/// The cell showing stack `j` at height `lvl` (0 is the bottom).
pub open spec fn cell_at(stacks: Seq<Seq<char>>, j: int, lvl: int) -> Option<char> {
    if 0 <= j < stacks.len() && 0 <= lvl < stacks[j].len() {
        Some(stacks[j][lvl])
    } else {
        None
    }
}

/// The slot rows of a diagram of height `h`, top row first.
pub open spec fn slot_rows(stacks: Seq<Seq<char>>, h: int) -> Seq<Seq<Option<char>>> {
    Seq::new(
        h as nat,
        |k: int| Seq::new(stacks.len(), |j: int| cell_at(stacks, j, h - 1 - k)),
    )
}

pub open spec fn render_cell(o: Option<char>) -> Seq<char> {
    match o {
        Some(c) => seq!['[', c, ']'],
        None => blank_cell(),
    }
}

/// One rendered diagram row: the cells, single spaces between them.
pub open spec fn render_row(slots: Seq<Option<char>>) -> Seq<char>
    decreases slots.len(),
{
    if slots.len() == 0 {
        Seq::empty()
    } else if slots.len() == 1 {
        render_cell(slots[0])
    } else {
        render_cell(slots[0]) + seq![' '] + render_row(slots.skip(1))
    }
}

/// The tallest stack decides how many rows the diagram needs.
pub open spec fn max_height(stacks: Seq<Seq<char>>) -> int
    decreases stacks.len(),
{
    if stacks.len() == 0 {
        0
    } else {
        vstd::math::max(max_height(stacks.drop_last()), stacks.last().len() as int)
    }
}

/// The diagram lines that show the stacks.
pub open spec fn render_lines(stacks: Seq<Seq<char>>) -> Seq<Seq<char>> {
    slot_rows(stacks, max_height(stacks)).map_values(|r: Seq<Option<char>>| render_row(r))
}

pub proof fn lemma_max_height(stacks: Seq<Seq<char>>)
    ensures
        max_height(stacks) >= 0,
        forall|j: int| 0 <= j < stacks.len() ==> stacks[j].len() <= max_height(stacks),
    decreases stacks.len(),
{
    if stacks.len() > 0 {
        lemma_max_height(stacks.drop_last());
        assert forall|j: int| 0 <= j < stacks.len() implies stacks[j].len() <= max_height(
            stacks,
        ) by {
            if j < stacks.len() - 1 {
                assert(stacks.drop_last()[j] == stacks[j]);
            }
        }
    }
}

/// A rendered row reads back as exactly the slots it shows.
proof fn lemma_render_row_parses(slots: Seq<Option<char>>)
    ensures
        slots.len() >= 1 ==> render_row(slots).len() == 4 * slots.len() - 1,
        slots.len() == 0 ==> render_row(slots).len() == 0,
        row_slots(render_row(slots)) == Ok::<Seq<Option<char>>, PuzzleError>(slots),
    decreases slots.len(),
{
    let line = render_row(slots);
    if slots.len() == 0 {
        assert(line =~= Seq::<char>::empty());
        assert(row_slots(line) == Ok::<Seq<Option<char>>, PuzzleError>(Seq::empty()));
        assert(Seq::<Option<char>>::empty() =~= slots);
    } else if slots.len() == 1 {
        assert(line == render_cell(slots[0]));
        assert(line.len() == 3);
        assert(line.take(3) =~= line);
        match slots[0] {
            Some(c) => {
                assert(line[0] == '[');
                assert(line != blank_cell());
                assert(crate_spec(line) == Ok::<char, PuzzleError>(c));
            },
            None => {
                assert(line =~= blank_cell());
            },
        }
        assert(slot_spec(line.take(3)) == Ok::<Option<char>, PuzzleError>(slots[0]));
        assert(seq![slots[0]] =~= slots);
    } else {
        lemma_render_row_parses(slots.skip(1));
        let rest = render_row(slots.skip(1));
        assert(line == render_cell(slots[0]) + seq![' '] + rest);
        assert(line.len() == 4 + rest.len());
        assert(rest.len() == 4 * (slots.len() - 1) - 1);
        assert(line.take(3) =~= render_cell(slots[0]));
        match slots[0] {
            Some(c) => {
                assert(line.take(3)[0] == '[');
                assert(line.take(3) != blank_cell());
                assert(crate_spec(line.take(3)) == Ok::<char, PuzzleError>(c));
            },
            None => {
                assert(line.take(3) =~= blank_cell());
            },
        }
        assert(slot_spec(line.take(3)) == Ok::<Option<char>, PuzzleError>(slots[0]));
        assert(line.len() > 4);
        assert(line.skip(4) =~= rest);
        assert(seq![slots[0]] + slots.skip(1) =~= slots);
    }
}

/// Appending one slot appends one separated cell to the rendered row.
proof fn lemma_render_row_snoc(slots: Seq<Option<char>>, o: Option<char>)
    ensures
        render_row(slots.push(o)) == render_row(slots) + (if slots.len() > 0 {
            seq![' ']
        } else {
            Seq::<char>::empty()
        }) + render_cell(o),
    decreases slots.len(),
{
    if slots.len() == 0 {
        assert(slots.push(o) =~= seq![o]);
        assert(render_row(seq![o]) == render_cell(o));
        assert(render_row(slots) =~= Seq::<char>::empty());
        assert(Seq::<char>::empty() + Seq::<char>::empty() + render_cell(o) =~= render_cell(o));
    } else {
        lemma_render_row_snoc(slots.skip(1), o);
        assert(slots.push(o).skip(1) =~= slots.skip(1).push(o));
        assert(slots.push(o).len() >= 2);
        assert(slots.push(o)[0] == slots[0]);
        if slots.len() == 1 {
            assert(render_row(slots) == render_cell(slots[0]));
            assert(render_row(slots.skip(1)) =~= Seq::<char>::empty());
            assert(render_row(slots.push(o)) =~= render_row(slots) + seq![' '] + render_cell(o));
        } else {
            assert(render_row(slots.push(o)) =~= render_row(slots) + seq![' '] + render_cell(o));
        }
    }
}

/// Rendered rows parse back to the very rows.
proof fn lemma_parse_rendered_rows(rows: Seq<Seq<Option<char>>>)
    ensures
        parse_rows(rows.map_values(|r: Seq<Option<char>>| render_row(r))) == Ok::<
            Seq<Seq<Option<char>>>,
            PuzzleError,
        >(rows),
    decreases rows.len(),
{
    let lines = rows.map_values(|r: Seq<Option<char>>| render_row(r));
    if rows.len() == 0 {
        assert(lines.len() == 0);
        assert(Seq::<Seq<Option<char>>>::empty() =~= rows);
    } else {
        lemma_render_row_parses(rows[0]);
        lemma_parse_rendered_rows(rows.skip(1));
        assert(lines[0] == render_row(rows[0]));
        assert(lines.skip(1) =~= rows.skip(1).map_values(|r: Seq<Option<char>>| render_row(r)));
        assert(seq![rows[0]] + rows.skip(1) =~= rows);
    }
}

/// The stacks truncated to height at most `m`.
pub open spec fn trunc_stacks(stacks: Seq<Seq<char>>, m: int) -> Seq<Seq<char>> {
    Seq::new(
        stacks.len(),
        |j: int|
            if stacks[j].len() <= m {
                stacks[j]
            } else {
                stacks[j].take(m)
            },
    )
}

/// Reading a rendered column bottom-up recovers the stack.
proof fn lemma_columns_of_render(stacks: Seq<Seq<char>>, h: int, j: int)
    requires
        0 <= j < stacks.len(),
        h >= 0,
        forall|l: int| 0 <= l < stacks.len() ==> (#[trigger] stacks[l]).len() <= h,
    ensures
        column_stack(slot_rows(stacks, h), j) == stacks[j],
    decreases h,
{
    let rows = slot_rows(stacks, h);
    if h == 0 {
        assert(rows.len() == 0);
        assert(stacks[j].len() == 0);
        assert(column_stack(rows, j) =~= stacks[j]);
    } else {
        let small = trunc_stacks(stacks, h - 1);
        assert forall|l: int| 0 <= l < small.len() implies (#[trigger] small[l]).len() <= h
            - 1 by {}
        lemma_columns_of_render(small, h - 1, j);
        assert(rows.skip(1) =~~= slot_rows(small, h - 1)) by {
            let a = rows.skip(1);
            let b = slot_rows(small, h - 1);
            assert(a.len() == b.len());
            assert forall|k: int| 0 <= k < a.len() implies a[k] =~= b[k] by {
                assert(a[k] == rows[k + 1]);
                assert forall|l: int| 0 <= l < stacks.len() implies #[trigger] cell_at(
                    stacks,
                    l,
                    h - 1 - (k + 1),
                ) == cell_at(small, l, (h - 1) - 1 - k) by {
                    let lvl = h - 2 - k;
                    if 0 <= lvl {
                        assert(small[l] == if stacks[l].len() <= h - 1 {
                            stacks[l]
                        } else {
                            stacks[l].take(h - 1)
                        });
                    }
                }
            }
        }
        assert(column_stack(rows, j) == column_stack(rows.skip(1), j) + (if rows[0][j] is Some {
            seq![rows[0][j]->0]
        } else {
            Seq::<char>::empty()
        })) by {
            assert(rows[0].len() == stacks.len());
        }
        assert(column_stack(rows.skip(1), j) == small[j]);
        assert(rows[0][j] == cell_at(stacks, j, h - 1));
        if stacks[j].len() == h {
            assert(rows[0][j] == Some(stacks[j][h - 1]));
            assert(small[j] == stacks[j].take(h - 1));
            assert(stacks[j].take(h - 1) + seq![stacks[j][h - 1]] =~= stacks[j]);
        } else {
            assert(rows[0][j] is None);
            assert(small[j] == stacks[j]);
            assert(stacks[j] + Seq::<char>::empty() =~= stacks[j]);
        }
    }
}

proof fn lemma_max_width_const(rows: Seq<Seq<Option<char>>>, n: int)
    requires
        n >= 0,
        forall|k: int| 0 <= k < rows.len() ==> (#[trigger] rows[k]).len() == n,
    ensures
        rows.len() > 0 ==> max_width(rows) == n,
        rows.len() == 0 ==> max_width(rows) == 0,
    decreases rows.len(),
{
    if rows.len() > 0 {
        assert forall|k: int| 0 <= k < rows.len() - 1 implies (#[trigger] rows.drop_last()[k]).len()
            == n by {
            assert(rows.drop_last()[k] == rows[k]);
        }
        lemma_max_width_const(rows.drop_last(), n);
    }
}

/// Round trip: the rendered diagram of any stacks holding at least one
/// crate parses back to exactly those stacks.
pub proof fn lemma_render_parse_round_trip(stacks: Seq<Seq<char>>)
    requires
        exists|j: int| 0 <= j < stacks.len() && stacks[j].len() > 0,
    ensures
        parse_rows(render_lines(stacks)) matches Ok(rows) && stacks_of(rows) == stacks,
{
    let h = max_height(stacks);
    lemma_max_height(stacks);
    let w = choose|j: int| 0 <= j < stacks.len() && stacks[j].len() > 0;
    assert(h >= 1);
    let rows = slot_rows(stacks, h);
    lemma_parse_rendered_rows(rows);
    assert forall|k: int| 0 <= k < rows.len() implies (#[trigger] rows[k]).len()
        == stacks.len() by {}
    lemma_max_width_const(rows, stacks.len() as int);
    assert forall|j: int| 0 <= j < stacks.len() implies column_stack(rows, j) == stacks[j] by {
        lemma_columns_of_render(stacks, h, j);
    }
    assert(stacks_of(rows) =~= stacks);
}

/// The diagram lines showing the stacks, tallest stack deciding the
/// height; all rows span every stack.
pub fn render_diagram(stacks: &Vec<Vec<char>>) -> (r: Vec<Vec<char>>)
    ensures
        text::lines_view(r@) == render_lines(text::lines_view(stacks@)),
{
    let ghost sv = text::lines_view(stacks@);
    let n = stacks.len();
    let mut h: usize = 0;
    let mut j: usize = 0;
    proof {
        assert(sv.take(0) =~= Seq::<Seq<char>>::empty());
    }
    while j < n
        invariant
            j <= n,
            n == stacks@.len(),
            sv == text::lines_view(stacks@),
            h as int == max_height(sv.take(j as int)),
        decreases n - j,
    {
        proof {
            assert(sv.take(j as int + 1).drop_last() =~= sv.take(j as int));
            assert(sv.take(j as int + 1).last() == stacks@[j as int]@);
        }
        if stacks[j].len() > h {
            h = stacks[j].len();
        }
        j += 1;
    }
    proof {
        assert(sv.take(n as int) =~= sv);
    }
    let mut out: Vec<Vec<char>> = Vec::new();
    let mut k: usize = 0;
    proof {
        assert(render_lines(sv).take(0) =~= Seq::<Seq<char>>::empty());
        assert(text::lines_view(out@) =~= Seq::<Seq<char>>::empty());
    }
    while k < h
        invariant
            k <= h,
            n == stacks@.len(),
            sv == text::lines_view(stacks@),
            h as int == max_height(sv),
            text::lines_view(out@) == render_lines(sv).take(k as int),
        decreases h - k,
    {
        let ghost slots = Seq::new(sv.len(), |j: int| cell_at(sv, j, h - 1 - k));
        let lvl = h - 1 - k;
        let mut row: Vec<char> = Vec::new();
        let mut j: usize = 0;
        proof {
            assert(slots.take(0) =~= Seq::<Option<char>>::empty());
        }
        while j < n
            invariant
                j <= n,
                n == stacks@.len(),
                sv == text::lines_view(stacks@),
                lvl == h - 1 - k,
                k < h,
                h as int == max_height(sv),
                slots == Seq::new(sv.len(), |j: int| cell_at(sv, j, h - 1 - k as int)),
                row@ == render_row(slots.take(j as int)),
            decreases n - j,
        {
            proof {
                assert(slots.take(j as int + 1) =~= slots.take(j as int).push(
                    slots[j as int],
                ));
                lemma_render_row_snoc(slots.take(j as int), slots[j as int]);
                assert(sv[j as int] == stacks@[j as int]@);
            }
            if j > 0 {
                row.push(' ');
            }
            let sl = stacks[j].len();
            if sl > lvl {
                row.push('[');
                row.push(stacks[j][lvl]);
                row.push(']');
                proof {
                    assert(slots[j as int] == Some(stacks@[j as int]@[lvl as int]));
                    assert(row@ =~= render_row(slots.take(j as int)) + (if j > 0 {
                        seq![' ']
                    } else {
                        Seq::<char>::empty()
                    }) + render_cell(slots[j as int]));
                }
            } else {
                row.push(' ');
                row.push(' ');
                row.push(' ');
                proof {
                    assert(slots[j as int] is None);
                    assert(render_cell(slots[j as int]) == blank_cell());
                    assert(row@ =~= render_row(slots.take(j as int)) + (if j > 0 {
                        seq![' ']
                    } else {
                        Seq::<char>::empty()
                    }) + render_cell(slots[j as int]));
                }
            }
            j += 1;
        }
        proof {
            assert(slots.take(n as int) =~= slots);
            assert(render_lines(sv)[k as int] == render_row(slots)) by {
                assert(slot_rows(sv, h as int)[k as int] =~= slots);
            }
            assert(text::lines_view(out@.push(row)) =~= text::lines_view(out@).push(row@));
            assert(render_lines(sv).take(k as int + 1) =~= render_lines(sv).take(k as int).push(
                render_lines(sv)[k as int],
            ));
        }
        out.push(row);
        k += 1;
    }
    proof {
        assert(render_lines(sv).len() == h);
        assert(render_lines(sv).take(h as int) =~= render_lines(sv));
    }
    out
}

/// Read stacks back off bare diagram lines (no label line below them).
pub fn read_diagram(lines: &Vec<Vec<char>>) -> (r: Result<Vec<Vec<char>>, PuzzleError>)
    ensures
        match r {
            Ok(st) => parse_rows(text::lines_view(lines@)) matches Ok(rows) && text::lines_view(
                st@,
            ) == stacks_of(rows),
            Err(e) => parse_rows(text::lines_view(lines@)) == Err::<
                Seq<Seq<Option<char>>>,
                PuzzleError,
            >(e),
        },
{
    let ghost lseq = text::lines_view(lines@);
    let mut rows: Vec<Vec<Option<char>>> = Vec::new();
    let mut li: usize = 0;
    proof {
        assert(lseq.skip(0) =~= lseq);
        match parse_rows(lseq) {
            Ok(rest) => {
                assert(rows_view(rows@) + rest =~= rest);
            },
            Err(_) => {},
        }
    }
    while li < lines.len()
        invariant
            li <= lines.len(),
            lseq == text::lines_view(lines@),
            match parse_rows(lseq.skip(li as int)) {
                Ok(rest) => parse_rows(lseq) == Ok::<Seq<Seq<Option<char>>>, PuzzleError>(
                    rows_view(rows@) + rest,
                ),
                Err(e) => parse_rows(lseq) == Err::<Seq<Seq<Option<char>>>, PuzzleError>(e),
            },
        decreases lines.len() - li,
    {
        let ghost sfx = lseq.skip(li as int);
        proof {
            assert(sfx[0] == lseq[li as int]);
            assert(lseq[li as int] == lines@[li as int]@);
            assert(sfx.skip(1) =~= lseq.skip(li as int + 1));
        }
        match parse_row(&lines[li]) {
            Err(e) => {
                return Err(e);
            },
            Ok(row) => {
                proof {
                    match parse_rows(lseq.skip(li as int + 1)) {
                        Ok(rest) => {
                            assert(rows_view(rows@.push(row)) =~= rows_view(rows@).push(row@));
                            assert(rows_view(rows@) + (seq![row@] + rest) =~= rows_view(
                                rows@,
                            ).push(row@) + rest);
                        },
                        Err(_) => {},
                    }
                }
                rows.push(row);
            },
        }
        li += 1;
    }
    proof {
        assert(lseq.skip(lines@.len() as int) =~= Seq::<Seq<char>>::empty());
        assert(rows_view(rows@) + Seq::<Seq<Option<char>>>::empty() =~= rows_view(rows@));
    }
    Ok(stacks_from_rows(&rows))
}

/// Relies on itertools' join: characters joined by an empty separator
/// form exactly the string of those characters.
#[verifier::external_body]
fn join_chars(chars: &Vec<char>) -> (r: String)
    ensures
        r@ == chars@,
{
    chars.iter().join("")
}

impl Crate {
    /// Parse a whole string as a single bracketed crate cell.
    pub fn parse(s: &str) -> (r: Result<Crate, PuzzleError>)
        ensures
            match r {
                Ok(c) => crate_spec(s@) == Ok::<char, PuzzleError>(c.0),
                Err(e) => crate_spec(s@) is Err && e == PuzzleError::ParseCrateError,
            },
    {
        let chars = text::chars_of(s);
        if chars.len() == 3 {
            let c0 = chars[0];
            let c2 = chars[2];
            if c0 == '[' && c2 == ']' {
                return Ok(Crate(chars[1]));
            }
        }
        Err(PuzzleError::ParseCrateError)
    }
}

impl Slot {
    /// Parse a whole string as one diagram cell.
    pub fn parse(s: &str) -> (r: Result<Slot, PuzzleError>)
        ensures
            match r {
                Ok(Slot::Empty) => slot_spec(s@) == Ok::<Option<char>, PuzzleError>(None),
                Ok(Slot::Crate(c)) => slot_spec(s@) == Ok::<Option<char>, PuzzleError>(
                    Some(c.0),
                ),
                Err(e) => slot_spec(s@) is Err && e == PuzzleError::ParseCrateError,
            },
    {
        let chars = text::chars_of(s);
        if chars.len() == 3 && chars[0] == ' ' && chars[1] == ' ' && chars[2] == ' ' {
            proof {
                assert(s@ =~= blank_cell());
            }
            return Ok(Slot::Empty);
        }
        proof {
            if s@.len() == 3 {
                assert(s@ =~= chars@);
                if chars@[0] == ' ' && chars@[1] == ' ' && chars@[2] == ' ' {
                    assert(false);
                } else {
                    assert(s@ != blank_cell());
                }
            } else {
                assert(s@.len() != blank_cell().len());
            }
        }
        match Crate::parse(s) {
            Ok(c) => Ok(Slot::Crate(c)),
            Err(e) => Err(e),
        }
    }
}

/// One cell of a row, read at `line[i..i + 3]`.
fn slot_at(line: &Vec<char>, i: usize) -> (r: Result<Option<char>, PuzzleError>)
    requires
        i + 3 <= line@.len(),
    ensures
        r == slot_spec(line@.subrange(i as int, i as int + 3)),
{
    let ghost cell = line@.subrange(i as int, i as int + 3);
    let n = line.len();
    proof {
        assert(i + 3 <= n);
    }
    let c0 = line[i];
    let c1 = line[i + 1];
    let c2 = line[i + 2];
    proof {
        assert(cell[0] == c0 && cell[1] == c1 && cell[2] == c2);
        assert(cell.len() == 3);
        if c0 == ' ' && c1 == ' ' && c2 == ' ' {
            assert(cell =~= blank_cell());
        } else {
            assert(cell != blank_cell());
        }
    }
    if c0 == ' ' && c1 == ' ' && c2 == ' ' {
        Ok(None)
    } else if c0 == '[' && c2 == ']' {
        Ok(Some(c1))
    } else {
        Err(PuzzleError::ParseCrateError)
    }
}

/// The cells of one diagram row.
fn parse_row(line: &Vec<char>) -> (r: Result<Vec<Option<char>>, PuzzleError>)
    ensures
        match r {
            Ok(v) => row_slots(line@) == Ok::<Seq<Option<char>>, PuzzleError>(v@),
            Err(e) => row_slots(line@) == Err::<Seq<Option<char>>, PuzzleError>(e),
        },
{
    let n = line.len();
    let mut acc: Vec<Option<char>> = Vec::new();
    let mut pos: usize = 0;
    proof {
        assert(line@.skip(0) =~= line@);
    }
    while pos < n && n - pos > 2
        invariant
            pos <= n,
            n == line@.len(),
            match row_slots(line@.skip(pos as int)) {
                Ok(rest) => row_slots(line@) == Ok::<Seq<Option<char>>, PuzzleError>(acc@ + rest),
                Err(e) => row_slots(line@) == Err::<Seq<Option<char>>, PuzzleError>(e),
            },
        decreases n - pos,
    {
        let ghost sfx = line@.skip(pos as int);
        proof {
            assert(sfx.len() == n - pos >= 3);
            assert(sfx.take(3) =~= line@.subrange(pos as int, pos as int + 3));
        }
        match slot_at(line, pos) {
            Err(e) => {
                return Err(e);
            },
            Ok(o) => {
                let ghost acc0 = acc@;
                acc.push(o);
                proof {
                    assert(acc@ =~= acc0 + seq![o]);
                    if sfx.len() <= 4 {
                        assert(row_slots(sfx) == Ok::<Seq<Option<char>>, PuzzleError>(seq![o]));
                        assert(acc0 + seq![o] =~= acc@ + Seq::<Option<char>>::empty());
                    } else {
                        assert(sfx.skip(4) =~= line@.skip(pos as int + 4));
                        match row_slots(line@.skip(pos as int + 4)) {
                            Ok(rest) => {
                                assert(row_slots(sfx) == Ok::<Seq<Option<char>>, PuzzleError>(
                                    seq![o] + rest,
                                ));
                                assert(acc0 + (seq![o] + rest) =~= acc@ + rest);
                            },
                            Err(_) => {},
                        }
                    }
                }
                if n - pos <= 4 {
                    pos = n;
                    proof {
                        assert(line@.skip(n as int) =~= Seq::<char>::empty());
                        assert(row_slots(line@.skip(n as int)) == Ok::<
                            Seq<Option<char>>,
                            PuzzleError,
                        >(Seq::empty()));
                        assert(acc@ + Seq::<Option<char>>::empty() =~= acc@);
                    }
                } else {
                    pos = pos + 4;
                }
            },
        }
    }
    proof {
        let sfx = line@.skip(pos as int);
        if pos < n {
            assert(sfx.len() == n - pos < 3);
        } else {
            assert(sfx =~= Seq::<char>::empty());
        }
        assert(row_slots(sfx) == Ok::<Seq<Option<char>>, PuzzleError>(Seq::empty()));
        assert(acc@ + Seq::<Option<char>>::empty() =~= acc@);
    }
    Ok(acc)
}

/// Read the stacks off the parsed diagram rows, column by column.
fn stacks_from_rows(rows: &Vec<Vec<Option<char>>>) -> (r: Vec<Vec<char>>)
    ensures
        text::lines_view(r@) == stacks_of(rows_view(rows@)),
{
    let ghost rv = rows_view(rows@);
    // the number of stacks is the widest row
    let mut width: usize = 0;
    let mut i: usize = 0;
    proof {
        assert(rv.take(0) =~= Seq::<Seq<Option<char>>>::empty());
    }
    while i < rows.len()
        invariant
            i <= rows.len(),
            rv == rows_view(rows@),
            width as int == max_width(rv.take(i as int)),
        decreases rows.len() - i,
    {
        proof {
            assert(rv.take(i as int + 1).drop_last() =~= rv.take(i as int));
            assert(rv.take(i as int + 1).last() == rows@[i as int]@);
        }
        if rows[i].len() > width {
            width = rows[i].len();
        }
        i += 1;
    }
    proof {
        assert(rv.take(rows@.len() as int) =~= rv);
    }
    let mut stacks: Vec<Vec<char>> = Vec::new();
    let mut j: usize = 0;
    while j < width
        invariant
            j <= width,
            rv == rows_view(rows@),
            width as int == max_width(rv),
            stacks@.len() == j,
            forall|l: int| 0 <= l < j ==> #[trigger] stacks@[l]@ == column_stack(rv, l),
        decreases width - j,
    {
        let mut col: Vec<char> = Vec::new();
        let mut i = rows.len();
        proof {
            assert(rv.skip(rows@.len() as int) =~= Seq::<Seq<Option<char>>>::empty());
        }
        while i > 0
            invariant
                i <= rows.len(),
                rv == rows_view(rows@),
                col@ == column_stack(rv.skip(i as int), j as int),
            decreases i,
        {
            i -= 1;
            let ghost sfx = rv.skip(i as int);
            proof {
                assert(sfx[0] == rv[i as int]);
                assert(rv[i as int] == rows@[i as int]@);
                assert(sfx.skip(1) =~= rv.skip(i as int + 1));
            }
            let row = &rows[i];
            if j < row.len() {
                match row[j] {
                    Some(c) => {
                        col.push(c);
                        proof {
                            assert(col@ =~= col@.drop_last() + seq![c]);
                        }
                    },
                    None => {},
                }
            }
        }
        proof {
            assert(rv.skip(0) =~= rv);
            assert(col@ == column_stack(rv, j as int));
        }
        stacks.push(col);
        j += 1;
    }
    proof {
        lemma_max_width_nonneg(rv);
        assert(text::lines_view(stacks@) =~= stacks_of(rv));
    }
    stacks
}

/// Whether `line[at..]` starts with the five characters `move `,
/// `from `, or the three characters `to `.
fn prefix_at(line: &Vec<char>, at: usize, which: u8) -> (r: bool)
    requires
        which == 0 || which == 1 || which == 2,
        at <= line@.len(),
    ensures
        which == 0 ==> r == has_prefix(line@.skip(at as int), move_prefix()),
        which == 1 ==> r == has_prefix(line@.skip(at as int), from_prefix()),
        which == 2 ==> r == has_prefix(line@.skip(at as int), to_prefix()),
{
    let n = line.len();
    let ghost sfx = line@.skip(at as int);
    if which == 2 {
        let ok = n - at >= 3 && line[at] == 't' && line[at + 1] == 'o' && line[at + 2] == ' ';
        proof {
            if ok {
                assert(sfx.take(3) =~= to_prefix());
            } else if sfx.len() >= 3 {
                assert(sfx.take(3)[0] == line@[at as int]);
                assert(sfx.take(3)[1] == line@[at as int + 1]);
                assert(sfx.take(3)[2] == line@[at as int + 2]);
            }
        }
        ok
    } else {
        let c = if which == 0 {
            'm'
        } else {
            'f'
        };
        let ok = n - at >= 5 && line[at] == c && (if which == 0 {
            line[at + 1] == 'o' && line[at + 2] == 'v' && line[at + 3] == 'e'
        } else {
            line[at + 1] == 'r' && line[at + 2] == 'o' && line[at + 3] == 'm'
        }) && line[at + 4] == ' ';
        proof {
            let p = if which == 0 {
                move_prefix()
            } else {
                from_prefix()
            };
            if ok {
                assert(sfx.take(5) =~= p);
            } else if sfx.len() >= 5 {
                assert(sfx.take(5)[0] == line@[at as int]);
                assert(sfx.take(5)[1] == line@[at as int + 1]);
                assert(sfx.take(5)[2] == line@[at as int + 2]);
                assert(sfx.take(5)[3] == line@[at as int + 3]);
                assert(sfx.take(5)[4] == line@[at as int + 4]);
            }
        }
        ok
    }
}

impl Instruction {
    /// Parse one move line held in a character vector.
    #[verifier::rlimit(50)]
    fn parse_line(line: &Vec<char>) -> (r: Result<Instruction, PuzzleError>)
        ensures
            match r {
                Ok(m) => instr_spec(line@) == Ok::<Instruction, PuzzleError>(m),
                Err(e) => instr_spec(line@) == Err::<Instruction, PuzzleError>(e),
            },
    {
        let n = line.len();
        proof {
            assert(line@.skip(0) =~= line@);
        }
        if !prefix_at(line, 0, 0) {
            return Err(PuzzleError::ParseInstructionError);
        }
        let ghost s1 = line@.skip(5);
        let sp1 = text::find_from(line, 5, n, ' ');
        proof {
            assert(s1 =~= line@.subrange(5, n as int));
            assert(s1.take(sp1 as int - 5) =~= line@.subrange(5, sp1 as int));
        }
        if sp1 == n {
            return Err(PuzzleError::ParseInstructionError);
        }
        let amount = match text::parse_usize_range(line, 5, sp1) {
            None => {
                return Err(PuzzleError::ParseInstructionError);
            },
            Some(a) => a,
        };
        let ghost s2 = s1.skip(sp1 as int - 5 + 1);
        proof {
            assert(s2 =~= line@.skip(sp1 as int + 1));
        }
        if !prefix_at(line, sp1 + 1, 1) {
            return Err(PuzzleError::ParseInstructionError);
        }
        let ghost s3 = s2.skip(5);
        let base2 = sp1 + 6;
        proof {
            assert(s3 =~= line@.subrange(base2 as int, n as int));
        }
        let sp2 = text::find_from(line, base2, n, ' ');
        proof {
            assert(s3.take(sp2 as int - base2 as int) =~= line@.subrange(
                base2 as int,
                sp2 as int,
            ));
        }
        if sp2 == n {
            return Err(PuzzleError::ParseInstructionError);
        }
        let from = match text::parse_usize_range(line, base2, sp2) {
            None => {
                return Err(PuzzleError::ParseInstructionError);
            },
            Some(f) => f,
        };
        let ghost s4 = s3.skip(sp2 as int - base2 as int + 1);
        proof {
            assert(s4 =~= line@.skip(sp2 as int + 1));
        }
        if !prefix_at(line, sp2 + 1, 2) {
            return Err(PuzzleError::ParseInstructionError);
        }
        let base3 = sp2 + 4;
        proof {
            assert(s4.skip(3) =~= line@.subrange(base3 as int, n as int));
        }
        let to = match text::parse_usize_range(line, base3, n) {
            None => {
                return Err(PuzzleError::ParseInstructionError);
            },
            Some(t) => t,
        };
        Ok(Instruction { amount, from, to })
    }

    /// Parse a whole string as one move line.
    pub fn parse(s: &str) -> (r: Result<Instruction, PuzzleError>)
        ensures
            match r {
                Ok(m) => instr_spec(s@) == Ok::<Instruction, PuzzleError>(m),
                Err(e) => instr_spec(s@) == Err::<Instruction, PuzzleError>(e),
            },
    {
        let chars = text::chars_of(s);
        Instruction::parse_line(&chars)
    }
}

/// Whether the line is the diagram's label line.
fn is_label_line(line: &Vec<char>) -> (r: bool)
    ensures
        r == is_label(line@),
{
    line.len() >= 2 && line[0] == ' ' && line[1] == '1'
}

impl SupplyStacks {
    /// Parse the whole input: diagram, label line, blank line, moves.
    pub fn parse(s: &str) -> (r: Result<SupplyStacks, PuzzleError>)
        ensures
            match r {
                Ok(ss) => supply_spec(text::split_lines_spec(s@)) matches Ok(p)
                    && text::lines_view(ss.stacks@) == p.0 && ss.instructions@ == p.1,
                Err(e) => supply_spec(text::split_lines_spec(s@)) == Err::<
                    (Seq<Seq<char>>, Seq<Instruction>),
                    PuzzleError,
                >(e),
            },
    {
        let chars = text::chars_of(s);
        let lines = text::split_lines(&chars);
        let ghost lseq = text::lines_view(lines@);
        let n = lines.len();
        // find the label line
        let mut k: usize = 0;
        while k < n && !is_label_line(&lines[k])
            invariant
                k <= n,
                n == lines@.len(),
                lseq == text::lines_view(lines@),
                forall|j: int| 0 <= j < k ==> !is_label(#[trigger] lseq[j]),
            decreases n - k,
        {
            proof {
                assert(lseq[k as int] == lines@[k as int]@);
            }
            k += 1;
        }
        proof {
            if k < n {
                assert(lseq[k as int] == lines@[k as int]@);
                assert(is_label(lseq[k as int]));
            }
            lemma_find_label_eq(lseq, k as int);
        }
        if k == n {
            return Err(PuzzleError::ParseLineError);
        }
        // parse the diagram rows above the label
        let mut rows: Vec<Vec<Option<char>>> = Vec::new();
        let mut li: usize = 0;
        proof {
            assert(lseq.subrange(0, k as int) =~= lseq.take(k as int));
            assert(rows_view(rows@) =~= Seq::<Seq<Option<char>>>::empty());
            match parse_rows(lseq.take(k as int)) {
                Ok(rest) => {
                    assert(rows_view(rows@) + rest =~= rest);
                },
                Err(_) => {},
            }
        }
        while li < k
            invariant
                li <= k,
                k < lines@.len(),
                lseq == text::lines_view(lines@),
                lseq == text::split_lines_spec(s@),
                find_label(lseq) == k,
                match parse_rows(lseq.subrange(li as int, k as int)) {
                    Ok(rest) => parse_rows(lseq.take(k as int)) == Ok::<
                        Seq<Seq<Option<char>>>,
                        PuzzleError,
                    >(rows_view(rows@) + rest),
                    Err(e) => parse_rows(lseq.take(k as int)) == Err::<
                        Seq<Seq<Option<char>>>,
                        PuzzleError,
                    >(e),
                },
            decreases k - li,
        {
            let ghost sfx = lseq.subrange(li as int, k as int);
            proof {
                assert(sfx[0] == lseq[li as int]);
                assert(lseq[li as int] == lines@[li as int]@);
                assert(sfx.skip(1) =~= lseq.subrange(li as int + 1, k as int));
            }
            match parse_row(&lines[li]) {
                Err(e) => {
                    return Err(e);
                },
                Ok(row) => {
                    proof {
                        match parse_rows(lseq.subrange(li as int + 1, k as int)) {
                            Ok(rest) => {
                                assert(rows_view(rows@.push(row)) =~= rows_view(rows@).push(
                                    row@,
                                ));
                                assert(rows_view(rows@) + (seq![row@] + rest) =~= rows_view(
                                    rows@,
                                ).push(row@) + rest);
                            },
                            Err(_) => {},
                        }
                    }
                    rows.push(row);
                },
            }
            li += 1;
        }
        proof {
            assert(lseq.subrange(k as int, k as int) =~= Seq::<Seq<char>>::empty());
            assert(rows_view(rows@) + Seq::<Seq<Option<char>>>::empty() =~= rows_view(rows@));
        }
        // the line after the label must exist and be blank
        let blank_ok = k + 1 < n && lines[k + 1].len() == 0;
        proof {
            if k + 1 < n {
                assert(lseq[k as int + 1] == lines@[k as int + 1]@);
            }
        }
        if !blank_ok {
            return Err(PuzzleError::ParseLineError);
        }
        // parse the instructions
        let mut instrs: Vec<Instruction> = Vec::new();
        let mut li = k + 2;
        proof {
            match parse_instrs(lseq.skip(k as int + 2)) {
                Ok(rest) => {
                    assert(instrs@ + rest =~= rest);
                },
                Err(_) => {},
            }
        }
        while li < n
            invariant
                k + 2 <= li <= n || li == n,
                li >= k + 2 || li == n,
                li <= n,
                n == lines@.len(),
                lseq == text::lines_view(lines@),
                lseq == text::split_lines_spec(s@),
                find_label(lseq) == k,
                k + 1 < lseq.len() && lseq[k as int + 1].len() == 0,
                parse_rows(lseq.take(k as int)) == Ok::<Seq<Seq<Option<char>>>, PuzzleError>(
                    rows_view(rows@),
                ),
                li >= k + 2,
                match parse_instrs(lseq.skip(li as int)) {
                    Ok(rest) => parse_instrs(lseq.skip(k as int + 2)) == Ok::<
                        Seq<Instruction>,
                        PuzzleError,
                    >(instrs@ + rest),
                    Err(e) => parse_instrs(lseq.skip(k as int + 2)) == Err::<
                        Seq<Instruction>,
                        PuzzleError,
                    >(e),
                },
            decreases n - li,
        {
            let ghost sfx = lseq.skip(li as int);
            proof {
                assert(sfx[0] == lseq[li as int]);
                assert(lseq[li as int] == lines@[li as int]@);
                assert(sfx.skip(1) =~= lseq.skip(li as int + 1));
            }
            match Instruction::parse_line(&lines[li]) {
                Err(e) => {
                    return Err(e);
                },
                Ok(m) => {
                    proof {
                        match parse_instrs(lseq.skip(li as int + 1)) {
                            Ok(rest) => {
                                assert(instrs@ + (seq![m] + rest) =~= instrs@.push(m) + rest);
                            },
                            Err(_) => {},
                        }
                    }
                    instrs.push(m);
                },
            }
            li += 1;
        }
        proof {
            assert(lseq.skip(n as int) =~= Seq::<Seq<char>>::empty());
            assert(instrs@ + Seq::<Instruction>::empty() =~= instrs@);
        }
        let stacks = stacks_from_rows(&rows);
        Ok(SupplyStacks { stacks, instructions: instrs })
    }

    /// Run the moves one crate at a time (each batch arrives reversed)
    /// and string together the stack tops.
    pub fn simulate(&self) -> (r: Result<String, PuzzleError>)
        ensures
            match apply_moves(text::lines_view(self.stacks@), self.instructions@, false) {
                Ok(fin) => r matches Ok(ans) && ans@ == tops(fin),
                Err(e) => r matches Err(e2) && e2 == e,
            },
    {
        self.run(false)
    }

    /// Run the moves batch-wise (order within a batch kept) and string
    /// together the stack tops.
    pub fn simulate2(&self) -> (r: Result<String, PuzzleError>)
        ensures
            match apply_moves(text::lines_view(self.stacks@), self.instructions@, true) {
                Ok(fin) => r matches Ok(ans) && ans@ == tops(fin),
                Err(e) => r matches Err(e2) && e2 == e,
            },
    {
        self.run(true)
    }

    fn run(&self, chunked: bool) -> (r: Result<String, PuzzleError>)
        ensures
            match apply_moves(text::lines_view(self.stacks@), self.instructions@, chunked) {
                Ok(fin) => r matches Ok(ans) && ans@ == tops(fin),
                Err(e) => r matches Err(e2) && e2 == e,
            },
    {
        let ghost orig = text::lines_view(self.stacks@);
        let ghost ms = self.instructions@;
        // a working copy of the stacks
        let mut stacks: Vec<Vec<char>> = Vec::new();
        let mut j: usize = 0;
        while j < self.stacks.len()
            invariant
                j <= self.stacks@.len(),
                orig == text::lines_view(self.stacks@),
                stacks@.len() == j,
                forall|l: int| 0 <= l < j ==> #[trigger] stacks@[l]@ == orig[l],
            decreases self.stacks@.len() - j,
        {
            let src = &self.stacks[j];
            let c = text::copy_range(src, 0, src.len());
            proof {
                assert(c@ =~= self.stacks@[j as int]@);
                assert(orig[j as int] == self.stacks@[j as int]@);
            }
            stacks.push(c);
            j += 1;
        }
        proof {
            assert(text::lines_view(stacks@) =~= orig);
            assert(ms.skip(0) =~= ms);
        }
        let mut ii: usize = 0;
        while ii < self.instructions.len()
            invariant
                ii <= ms.len(),
                ms == self.instructions@,
                orig == text::lines_view(self.stacks@),
                match apply_moves(text::lines_view(stacks@), ms.skip(ii as int), chunked) {
                    Ok(fin) => apply_moves(orig, ms, chunked) == Ok::<
                        Seq<Seq<char>>,
                        PuzzleError,
                    >(fin),
                    Err(e) => apply_moves(orig, ms, chunked) == Err::<
                        Seq<Seq<char>>,
                        PuzzleError,
                    >(e),
                },
            decreases ms.len() - ii,
        {
            let ghost cur = text::lines_view(stacks@);
            let ghost sfx = ms.skip(ii as int);
            proof {
                assert(sfx[0] == ms[ii as int]);
                assert(sfx.skip(1) =~= ms.skip(ii as int + 1));
            }
            let m = self.instructions[ii];
            let nst = stacks.len();
            if m.from == 0 || m.from > nst || m.to == 0 || m.to > nst {
                proof {
                    assert(cur.len() == stacks@.len());
                    assert(apply_move(cur, m, chunked) == Err::<Seq<Seq<char>>, PuzzleError>(
                        PuzzleError::InvalidMove,
                    ));
                    assert(apply_moves(cur, sfx, chunked) == Err::<Seq<Seq<char>>, PuzzleError>(
                        PuzzleError::InvalidMove,
                    ));
                }
                return Err(PuzzleError::InvalidMove);
            }
            let fi = m.from - 1;
            let ti = m.to - 1;
            let fl = stacks[fi].len();
            if m.amount > fl {
                proof {
                    assert(cur.len() == stacks@.len());
                    assert(cur[fi as int] == stacks@[fi as int]@);
                    assert(apply_move(cur, m, chunked) == Err::<Seq<Seq<char>>, PuzzleError>(
                        PuzzleError::InvalidMove,
                    ));
                    assert(apply_moves(cur, sfx, chunked) == Err::<Seq<Seq<char>>, PuzzleError>(
                        PuzzleError::InvalidMove,
                    ));
                }
                return Err(PuzzleError::InvalidMove);
            }
            proof {
                assert(cur[fi as int] == stacks@[fi as int]@);
            }
            let cut = fl - m.amount;
            let taken = text::copy_range(&stacks[fi], cut, fl);
            let new_from = text::copy_range(&stacks[fi], 0, cut);
            let removed = stacks.remove(fi);
            stacks.insert(fi, new_from);
            let ghost mid = text::lines_view(stacks@);
            proof {
                assert(stacks@ =~= stacks@.subrange(0, fi as int) + seq![stacks@[fi as int]]
                    + stacks@.subrange(fi as int + 1, stacks@.len() as int));
                assert(mid =~= cur.update(fi as int, cur[fi as int].take(cut as int)));
            }
            let tl = stacks[ti].len();
            let mut new_to = text::copy_range(&stacks[ti], 0, tl);
            let ghost base = mid[ti as int];
            proof {
                assert(new_to@ =~= base);
            }
            if chunked {
                let mut t: usize = 0;
                while t < taken.len()
                    invariant
                        t <= taken@.len(),
                        new_to@ == base + taken@.take(t as int),
                    decreases taken@.len() - t,
                {
                    new_to.push(taken[t]);
                    proof {
                        assert(base + taken@.take(t as int + 1) =~= (base + taken@.take(
                            t as int,
                        )).push(taken@[t as int]));
                    }
                    t += 1;
                }
                proof {
                    assert(taken@.take(taken@.len() as int) =~= taken@);
                }
            } else {
                let mut t: usize = taken.len();
                proof {
                    assert(taken@.skip(taken@.len() as int).reverse() =~= Seq::<char>::empty());
                    assert(new_to@ =~= base + taken@.skip(taken@.len() as int).reverse());
                }
                while t > 0
                    invariant
                        t <= taken@.len(),
                        new_to@ == base + taken@.skip(t as int).reverse(),
                    decreases t,
                {
                    t -= 1;
                    new_to.push(taken[t]);
                    proof {
                        assert(base + taken@.skip(t as int).reverse() =~= (base + taken@.skip(
                            t as int + 1,
                        ).reverse()).push(taken@[t as int]));
                    }
                }
                proof {
                    assert(taken@.skip(0) =~= taken@);
                }
            }
            let removed2 = stacks.remove(ti);
            stacks.insert(ti, new_to);
            proof {
                let cur2 = text::lines_view(stacks@);
                assert(cur2 =~= mid.update(ti as int, new_to@));
                let src = cur[fi as int];
                let taken_s = src.skip(src.len() - m.amount as int);
                assert(taken@ =~= taken_s);
                let moved = if chunked {
                    taken_s
                } else {
                    taken_s.reverse()
                };
                let s1 = cur.update(fi as int, src.take(src.len() - m.amount as int));
                assert(mid =~= s1);
                assert(new_to@ == base + moved);
                assert(apply_move(cur, m, chunked) == Ok::<Seq<Seq<char>>, PuzzleError>(
                    s1.update(ti as int, s1[ti as int] + moved),
                ));
                assert(cur2 =~= s1.update(ti as int, s1[ti as int] + moved));
            }
            ii += 1;
        }
        // collect the visible tops
        let ghost fin = text::lines_view(stacks@);
        proof {
            assert(ms.skip(ms.len() as int) =~= Seq::<Instruction>::empty());
            assert(fin.take(0) =~= Seq::<Seq<char>>::empty());
        }
        let mut out: Vec<char> = Vec::new();
        let mut j: usize = 0;
        while j < stacks.len()
            invariant
                j <= stacks@.len(),
                fin == text::lines_view(stacks@),
                out@ == tops(fin.take(j as int)),
            decreases stacks@.len() - j,
        {
            proof {
                assert(fin.take(j as int + 1).drop_last() =~= fin.take(j as int));
                assert(fin.take(j as int + 1).last() == stacks@[j as int]@);
            }
            let sl = stacks[j].len();
            if sl > 0 {
                out.push(stacks[j][sl - 1]);
                proof {
                    assert(out@ =~= out@.drop_last() + seq![stacks@[j as int]@.last()]);
                }
            } else {
                proof {
                    assert(out@ =~= out@ + Seq::<char>::empty());
                }
            }
            j += 1;
        }
        proof {
            assert(fin.take(stacks@.len() as int) =~= fin);
        }
        Ok(join_chars(&out))
    }
}

/// Tops after single-crate moves.
pub fn solve_part_one(input: &str) -> (r: Result<String, PuzzleError>)
    ensures
        match r {
            Ok(ans) => part_one_spec(input@) matches Ok(t) && ans@ == t,
            Err(e) => part_one_spec(input@) == Err::<Seq<char>, PuzzleError>(e),
        },
{
    match SupplyStacks::parse(input) {
        Err(e) => Err(e),
        Ok(ss) => ss.simulate(),
    }
}

/// Tops after batch moves.
pub fn solve_part_two(input: &str) -> (r: Result<String, PuzzleError>)
    ensures
        match r {
            Ok(ans) => part_two_spec(input@) matches Ok(t) && ans@ == t,
            Err(e) => part_two_spec(input@) == Err::<Seq<char>, PuzzleError>(e),
        },
{
    match SupplyStacks::parse(input) {
        Err(e) => Err(e),
        Ok(ss) => ss.simulate2(),
    }
}

} // verus!
