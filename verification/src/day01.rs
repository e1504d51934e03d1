//! Calorie grouping. Lines that parse as `i32` literals are meals; any
//! other line (blank or otherwise malformed) separates one group from
//! the next. Part one is the largest group sum, part two the sum of
//! the three largest.

use vstd::prelude::*;

use crate::errors::PuzzleError;
use crate::text;

verus! {

/// The calorie count a line carries, if it parses as an `i32`.
pub open spec fn meal_value(line: Seq<char>) -> Option<int> {
    text::i32_value(line)
}

/// Index of the first separator line (one with no meal value), or
/// `lines.len()` if every line is a meal.
pub open spec fn find_sep(lines: Seq<Seq<char>>) -> int
    decreases lines.len(),
{
    if lines.len() == 0 {
        0
    } else if meal_value(lines[0]) is None {
        0
    } else {
        1 + find_sep(lines.skip(1))
    }
}

pub proof fn lemma_find_sep(lines: Seq<Seq<char>>)
    ensures
        0 <= find_sep(lines) <= lines.len(),
        find_sep(lines) < lines.len() ==> meal_value(lines[find_sep(lines)]) is None,
        forall|j: int| 0 <= j < find_sep(lines) ==> meal_value(lines[j]) is Some,
    decreases lines.len(),
{
    if lines.len() == 0 {
    } else if meal_value(lines[0]) is None {
    } else {
        lemma_find_sep(lines.skip(1));
        assert forall|j: int| 0 <= j < find_sep(lines) implies meal_value(lines[j]) is Some by {
            if j > 0 {
                assert(lines.skip(1)[j - 1] == lines[j]);
            }
        }
    }
}

/// Sum of the meal values in a run of meal lines (a separator counts
/// as zero, but never occurs inside a group).
pub open spec fn sum_meals(lines: Seq<Seq<char>>) -> int
    decreases lines.len(),
{
    if lines.len() == 0 {
        0
    } else {
        (match meal_value(lines[0]) {
            Some(v) => v,
            None => 0,
        }) + sum_meals(lines.skip(1))
    }
}

/// The group sums, in input order: separator lines delimit groups, and
/// the trailing group counts even without a trailing separator. There
/// is always at least one (possibly empty, hence zero) group.
pub open spec fn group_sums(lines: Seq<Seq<char>>) -> Seq<int>
    decreases lines.len() via group_sums_dec
{
    let i = find_sep(lines);
    if i == lines.len() {
        seq![sum_meals(lines)]
    } else {
        seq![sum_meals(lines.take(i))] + group_sums(lines.skip(i + 1))
    }
}

#[via_fn]
proof fn group_sums_dec(lines: Seq<Seq<char>>) {
    lemma_find_sep(lines);
}

pub proof fn lemma_group_sums_nonempty(lines: Seq<Seq<char>>)
    ensures
        group_sums(lines).len() >= 1,
{
    lemma_find_sep(lines);
}

/// The first group sum raised by `d`.
pub open spec fn add_first(sums: Seq<int>, d: int) -> Seq<int> {
    sums.update(0, sums[0] + d)
}

/// Largest value in the sums, floored at zero.
pub open spec fn max_group(sums: Seq<int>) -> int
    decreases sums.len(),
{
    if sums.len() == 0 {
        0
    } else {
        vstd::math::max(max_group(sums.drop_last()), sums.last())
    }
}

/// Insert `x` into a descending triple of maxima.
pub open spec fn top3_update(t: (int, int, int), x: int) -> (int, int, int) {
    if x >= t.0 {
        (x, t.0, t.1)
    } else if x >= t.1 {
        (t.0, x, t.1)
    } else if x >= t.2 {
        (t.0, t.1, x)
    } else {
        t
    }
}

/// The three largest sums in descending order, floored at zero.
pub open spec fn top3(sums: Seq<int>) -> (int, int, int)
    decreases sums.len(),
{
    if sums.len() == 0 {
        (0, 0, 0)
    } else {
        top3_update(top3(sums.drop_last()), sums.last())
    }
}

/// The maximum dominates every group sum.
pub proof fn lemma_max_group_dominates(sums: Seq<int>, i: int)
    requires
        0 <= i < sums.len(),
    ensures
        max_group(sums) >= sums[i],
    decreases sums.len(),
{
    if i < sums.len() - 1 {
        lemma_max_group_dominates(sums.drop_last(), i);
        assert(sums.drop_last()[i] == sums[i]);
    }
}

/// The maximum is zero or one of the group sums.
pub proof fn lemma_max_group_attained(sums: Seq<int>)
    ensures
        max_group(sums) == 0 || sums.contains(max_group(sums)),
    decreases sums.len(),
{
    if sums.len() > 0 {
        lemma_max_group_attained(sums.drop_last());
        let m = max_group(sums);
        if m != 0 {
            if m == sums.last() {
                assert(sums[sums.len() - 1] == m);
            } else {
                let w = choose|w: int|
                    0 <= w < sums.len() - 1 && sums.drop_last()[w] == m;
                assert(sums[w] == m);
            }
        }
    }
}

proof fn lemma_top3_sorted(sums: Seq<int>)
    ensures
        ({
            let t = top3(sums);
            t.0 >= t.1 >= t.2 >= 0
        }),
    decreases sums.len(),
{
    if sums.len() > 0 {
        lemma_top3_sorted(sums.drop_last());
    }
}

/// The head of the maxima triple is the maximum group sum.
pub proof fn lemma_top3_head_is_max(sums: Seq<int>)
    ensures
        top3(sums).0 == max_group(sums),
    decreases sums.len(),
{
    if sums.len() > 0 {
        lemma_top3_head_is_max(sums.drop_last());
        lemma_top3_sorted(sums.drop_last());
    }
}

proof fn lemma_top1_dominates(sums: Seq<int>, i: int)
    requires
        0 <= i < sums.len(),
    ensures
        top3(sums).0 >= sums[i],
{
    lemma_top3_head_is_max(sums);
    lemma_max_group_dominates(sums, i);
}

proof fn lemma_top2_dominates(sums: Seq<int>, i: int, j: int)
    requires
        0 <= i < j < sums.len(),
    ensures
        top3(sums).0 + top3(sums).1 >= sums[i] + sums[j],
    decreases sums.len(),
{
    lemma_top3_sorted(sums.drop_last());
    if j < sums.len() - 1 {
        lemma_top2_dominates(sums.drop_last(), i, j);
        assert(sums.drop_last()[i] == sums[i]);
        assert(sums.drop_last()[j] == sums[j]);
    } else {
        lemma_top1_dominates(sums.drop_last(), i);
        assert(sums.drop_last()[i] == sums[i]);
    }
}

/// The sum of the maxima triple dominates the sum of any three group
/// sums: part two's answer is the sum of the three largest.
pub proof fn lemma_top3_dominates(sums: Seq<int>, i: int, j: int, k: int)
    requires
        0 <= i < j < k < sums.len(),
    ensures
        ({
            let t = top3(sums);
            t.0 + t.1 + t.2 >= sums[i] + sums[j] + sums[k]
        }),
    decreases sums.len(),
{
    lemma_top3_sorted(sums.drop_last());
    if k < sums.len() - 1 {
        lemma_top3_dominates(sums.drop_last(), i, j, k);
        assert(sums.drop_last()[i] == sums[i]);
        assert(sums.drop_last()[j] == sums[j]);
        assert(sums.drop_last()[k] == sums[k]);
    } else {
        lemma_top2_dominates(sums.drop_last(), i, j);
        assert(sums.drop_last()[i] == sums[i]);
        assert(sums.drop_last()[j] == sums[j]);
    }
}

/// Each entry of the maxima triple is zero or one of the group sums.
pub proof fn lemma_top3_attained(sums: Seq<int>)
    ensures
        ({
            let t = top3(sums);
            (t.0 == 0 || sums.contains(t.0)) && (t.1 == 0 || sums.contains(t.1)) && (t.2 == 0
                || sums.contains(t.2))
        }),
    decreases sums.len(),
{
    if sums.len() > 0 {
        lemma_top3_attained(sums.drop_last());
        let t = top3(sums);
        let p = top3(sums.drop_last());
        assert(sums[sums.len() - 1] == sums.last());
        assert forall|v: int| sums.drop_last().contains(v) implies sums.contains(v) by {
            let w = choose|w: int| 0 <= w < sums.len() - 1 && sums.drop_last()[w] == v;
            assert(sums[w] == v);
        }
    }
}

/// What part one must return: the largest group sum.
pub open spec fn part_one_spec(s: Seq<char>) -> Result<int, PuzzleError> {
    let m = max_group(group_sums(text::split_lines_spec(s)));
    if i32::MIN <= m <= i32::MAX {
        Ok(m)
    } else {
        Err(PuzzleError::AnswerOverflow)
    }
}

/// What part two must return: the sum of the three largest group sums.
pub open spec fn part_two_spec(s: Seq<char>) -> Result<int, PuzzleError> {
    let t = top3(group_sums(text::split_lines_spec(s)));
    let m = t.0 + t.1 + t.2;
    if i32::MIN <= m <= i32::MAX {
        Ok(m)
    } else {
        Err(PuzzleError::AnswerOverflow)
    }
}

/// Peeling a meal line off the front folds its value into the first
/// group.
proof fn lemma_group_sums_meal(lines: Seq<Seq<char>>)
    requires
        lines.len() > 0,
        meal_value(lines[0]) is Some,
    ensures
        group_sums(lines) == add_first(group_sums(lines.skip(1)), meal_value(lines[0])->0),
{
    let v = meal_value(lines[0])->0;
    let rest = lines.skip(1);
    let f = find_sep(lines);
    lemma_find_sep(lines);
    lemma_find_sep(rest);
    assert(f == 1 + find_sep(rest));
    if f == lines.len() {
        assert(group_sums(lines) == seq![sum_meals(lines)]);
        assert(sum_meals(lines) == v + sum_meals(rest));
        assert(group_sums(rest) == seq![sum_meals(rest)]);
        assert(add_first(seq![sum_meals(rest)], v) =~= seq![v + sum_meals(rest)]);
    } else {
        let f2 = f - 1;
        assert(group_sums(lines) == seq![sum_meals(lines.take(f))] + group_sums(
            lines.skip(f + 1),
        ));
        assert(group_sums(rest) == seq![sum_meals(rest.take(f2))] + group_sums(
            rest.skip(f2 + 1),
        ));
        assert(lines.take(f).skip(1) =~= rest.take(f2));
        assert(lines.take(f)[0] == lines[0]);
        assert(sum_meals(lines.take(f)) == v + sum_meals(rest.take(f2)));
        assert(lines.skip(f + 1) =~= rest.skip(f2 + 1));
        assert(add_first(group_sums(rest), v) =~= group_sums(lines));
    }
}

/// Peeling a separator line off the front opens a fresh first group.
proof fn lemma_group_sums_sep(lines: Seq<Seq<char>>)
    requires
        lines.len() > 0,
        meal_value(lines[0]) is None,
    ensures
        group_sums(lines) == seq![0int] + group_sums(lines.skip(1)),
{
    assert(find_sep(lines) == 0);
    assert(lines.take(0) =~= Seq::<Seq<char>>::empty());
    assert(sum_meals(lines.take(0)) == 0);
}

/// The sums of all groups, in order, as 128-bit integers.
fn group_totals(lines: &Vec<Vec<char>>) -> (r: Vec<i128>)
    ensures
        r@.map_values(|x: i128| x as int) == group_sums(text::lines_view(lines@)),
        forall|k: int|
            0 <= k < r@.len() ==> -0x8000_0000i128 * lines@.len() <= #[trigger] r@[k]
                <= 0x8000_0000i128 * lines@.len(),
{
    let ghost lseq = text::lines_view(lines@);
    let ghost bound = 0x8000_0000int * lines@.len();
    let mut done: Vec<i128> = Vec::new();
    let mut cur: i128 = 0;
    let mut li: usize = 0;
    proof {
        assert(lseq.skip(0) =~= lseq);
        lemma_group_sums_nonempty(lseq);
        assert(done@.map_values(|x: i128| x as int) =~= Seq::<int>::empty());
        assert(Seq::<int>::empty() + add_first(group_sums(lseq), 0) =~= add_first(
            group_sums(lseq),
            0,
        ));
        assert(add_first(group_sums(lseq), 0) =~= group_sums(lseq));
    }
    while li < lines.len()
        invariant
            li <= lines.len(),
            lseq == text::lines_view(lines@),
            bound == 0x8000_0000int * lines@.len(),
            -0x8000_0000int * li as int <= cur as int <= 0x8000_0000int * li as int,
            forall|k: int|
                0 <= k < done@.len() ==> -bound <= #[trigger] done@[k] as int <= bound,
            group_sums(lseq) == done@.map_values(|x: i128| x as int) + add_first(
                group_sums(lseq.skip(li as int)),
                cur as int,
            ),
        decreases lines.len() - li,
    {
        let ghost sfx = lseq.skip(li as int);
        proof {
            assert(sfx[0] == lseq[li as int]);
            assert(lseq[li as int] == lines@[li as int]@);
            assert(sfx.skip(1) =~= lseq.skip(li as int + 1));
            lemma_group_sums_nonempty(sfx);
            lemma_group_sums_nonempty(sfx.skip(1));
        }
        let line = &lines[li];
        proof {
            assert(line@.subrange(0, line@.len() as int) =~= line@);
        }
        match text::parse_i32_range(line, 0, line.len()) {
            Some(v) => {
                proof {
                    lemma_group_sums_meal(sfx);
                    assert(add_first(add_first(group_sums(sfx.skip(1)), v as int), cur as int)
                        =~= add_first(group_sums(sfx.skip(1)), cur as int + v as int));
                }
                cur = cur + v as i128;
            },
            None => {
                proof {
                    lemma_group_sums_sep(sfx);
                    let dm = done@.map_values(|x: i128| x as int);
                    assert(add_first(seq![0int] + group_sums(sfx.skip(1)), cur as int) =~= seq![
                        cur as int,
                    ] + add_first(group_sums(sfx.skip(1)), 0));
                    assert(add_first(group_sums(sfx.skip(1)), 0) =~= group_sums(sfx.skip(1)));
                    assert(done@.push(cur).map_values(|x: i128| x as int) =~= dm + seq![
                        cur as int,
                    ]);
                    assert((dm + (seq![cur as int] + group_sums(sfx.skip(1)))) =~= ((dm + seq![
                        cur as int,
                    ]) + group_sums(sfx.skip(1))));
                    assert(group_sums(sfx.skip(1)) =~= add_first(group_sums(sfx.skip(1)), 0));
                }
                done.push(cur);
                cur = 0;
            },
        }
        li += 1;
    }
    proof {
        let empty = lseq.skip(li as int);
        assert(empty =~= Seq::<Seq<char>>::empty());
        assert(find_sep(empty) == 0);
        assert(group_sums(empty) == seq![sum_meals(empty)]);
        assert(sum_meals(empty) == 0);
        assert(add_first(seq![0int], cur as int) =~= seq![cur as int]);
        let dm = done@.map_values(|x: i128| x as int);
        assert(done@.push(cur).map_values(|x: i128| x as int) =~= dm + seq![cur as int]);
    }
    done.push(cur);
    done
}

/// Largest group sum, or an overflow report.
pub fn solve_part_one(input: &str) -> (r: Result<i32, PuzzleError>)
    ensures
        match r {
            Ok(v) => part_one_spec(input@) == Ok::<int, PuzzleError>(v as int),
            Err(e) => part_one_spec(input@) == Err::<int, PuzzleError>(e),
        },
{
    let chars = text::chars_of(input);
    let lines = text::split_lines(&chars);
    let sums = group_totals(&lines);
    let ghost sseq = sums@.map_values(|x: i128| x as int);
    let mut best: i128 = 0;
    let mut j: usize = 0;
    proof {
        assert(sseq.take(0) =~= Seq::<int>::empty());
    }
    while j < sums.len()
        invariant
            j <= sums.len(),
            sseq == sums@.map_values(|x: i128| x as int),
            best as int == max_group(sseq.take(j as int)),
        decreases sums.len() - j,
    {
        proof {
            assert(sseq.take(j as int + 1).drop_last() =~= sseq.take(j as int));
            assert(sseq.take(j as int + 1).last() == sums@[j as int] as int);
        }
        if sums[j] > best {
            best = sums[j];
        }
        j += 1;
    }
    proof {
        assert(sseq.take(sums@.len() as int) =~= sseq);
    }
    if -0x8000_0000i128 <= best && best <= 0x7FFF_FFFFi128 {
        Ok(best as i32)
    } else {
        Err(PuzzleError::AnswerOverflow)
    }
}

/// Sum of the three largest group sums, or an overflow report.
pub fn solve_part_two(input: &str) -> (r: Result<i32, PuzzleError>)
    ensures
        match r {
            Ok(v) => part_two_spec(input@) == Ok::<int, PuzzleError>(v as int),
            Err(e) => part_two_spec(input@) == Err::<int, PuzzleError>(e),
        },
{
    let chars = text::chars_of(input);
    let lines = text::split_lines(&chars);
    let sums = group_totals(&lines);
    let nlines = lines.len();
    let ghost sseq = sums@.map_values(|x: i128| x as int);
    let ghost bound = 0x8000_0000int * lines@.len();
    proof {
        assert(bound == 0x8000_0000int * nlines as int);
    }
    let mut t0: i128 = 0;
    let mut t1: i128 = 0;
    let mut t2: i128 = 0;
    let mut j: usize = 0;
    proof {
        assert(sseq.take(0) =~= Seq::<int>::empty());
    }
    while j < sums.len()
        invariant
            j <= sums.len(),
            sseq == sums@.map_values(|x: i128| x as int),
            (t0 as int, t1 as int, t2 as int) == top3(sseq.take(j as int)),
            0 <= t2 <= t1 <= t0,
            t0 as int <= vstd::math::max(bound, 0),
            bound == 0x8000_0000int * nlines as int,
            forall|k: int|
                0 <= k < sums@.len() ==> -bound <= #[trigger] sums@[k] as int <= bound,
        decreases sums.len() - j,
    {
        proof {
            assert(sseq.take(j as int + 1).drop_last() =~= sseq.take(j as int));
            assert(sseq.take(j as int + 1).last() == sums@[j as int] as int);
        }
        let x = sums[j];
        if x >= t0 {
            t2 = t1;
            t1 = t0;
            t0 = x;
        } else if x >= t1 {
            t2 = t1;
            t1 = x;
        } else if x >= t2 {
            t2 = x;
        }
        j += 1;
    }
    proof {
        assert(sseq.take(sums@.len() as int) =~= sseq);
        assert(nlines as int <= usize::MAX as int);
        assert(bound <= 0x8000_0000int * usize::MAX as int);
        assert(t0 as int + t1 as int + t2 as int <= 3 * vstd::math::max(bound, 0));
    }
    let total = t0 + t1 + t2;
    if -0x8000_0000i128 <= total && total <= 0x7FFF_FFFFi128 {
        Ok(total as i32)
    } else {
        Err(PuzzleError::AnswerOverflow)
    }
}

} // verus!
