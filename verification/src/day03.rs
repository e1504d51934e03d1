//! Rucksack priorities. Every line is a bag of item types, one
//! character each. Part one sums the priorities of the item types the
//! two halves of a line share; part two sums, over each triple of
//! lines, the priority of the item types all three share. A shared
//! item type counts once per rucksack or triple.

use vstd::prelude::*;

use itertools::Itertools;

use crate::errors::PuzzleError;
use crate::text;

verus! {

/// Priority of an item type: `a`..`z` map to 1..26, `A`..`Z` to
/// 27..52; anything else is not an item type.
pub open spec fn priority_spec(c: char) -> Option<int> {
    if 'a' <= c && c <= 'z' {
        Some(c as int - 'a' as int + 1)
    } else if 'A' <= c && c <= 'Z' {
        Some(c as int - 'A' as int + 27)
    } else {
        None
    }
}

/// Priority of an item type, or an error for any other character.
pub fn priority(ch: &char) -> (r: Result<i32, PuzzleError>)
    ensures
        match r {
            Ok(v) => priority_spec(*ch) == Some(v as int) && 1 <= v <= 52,
            Err(e) => priority_spec(*ch) is None && e == PuzzleError::UnknownItem,
        },
{
    let c = *ch;
    if 'a' <= c && c <= 'z' {
        Ok(c as i32 - 'a' as i32 + 1)
    } else if 'A' <= c && c <= 'Z' {
        Ok(c as i32 - 'A' as i32 + 27)
    } else {
        Err(PuzzleError::UnknownItem)
    }
}

/// Whether every character of the line is an item type.
pub open spec fn line_ok(line: Seq<char>) -> bool {
    forall|i: int| 0 <= i < line.len() ==> priority_spec(line[i]) is Some
}

pub open spec fn all_lines_ok(lines: Seq<Seq<char>>) -> bool {
    forall|i: int| 0 <= i < lines.len() ==> line_ok(#[trigger] lines[i])
}

/// Sum of the priorities of the distinct characters of `a` that also
/// occur in `b`; each such character is counted at its first
/// occurrence in `a` only.
pub open spec fn dup_sum(a: Seq<char>, b: Seq<char>) -> int
    decreases a.len(),
{
    if a.len() == 0 {
        0
    } else {
        dup_sum(a.drop_last(), b) + (if b.contains(a.last()) && !a.drop_last().contains(a.last()) {
            match priority_spec(a.last()) {
                Some(v) => v,
                None => 0,
            }
        } else {
            0
        })
    }
}

/// As `dup_sum`, for characters of `a` that occur in both `b` and `c`.
pub open spec fn tri_dup_sum(a: Seq<char>, b: Seq<char>, c: Seq<char>) -> int
    decreases a.len(),
{
    if a.len() == 0 {
        0
    } else {
        tri_dup_sum(a.drop_last(), b, c) + (if b.contains(a.last()) && c.contains(a.last())
            && !a.drop_last().contains(a.last()) {
            match priority_spec(a.last()) {
                Some(v) => v,
                None => 0,
            }
        } else {
            0
        })
    }
}

/// Priority total of one rucksack: the items common to its two halves.
pub open spec fn rucksack_one(line: Seq<char>) -> int {
    dup_sum(line.take(line.len() as int / 2), line.skip(line.len() as int / 2))
}

/// Priority total over all rucksacks.
pub open spec fn sum_one(lines: Seq<Seq<char>>) -> int
    decreases lines.len(),
{
    if lines.len() == 0 {
        0
    } else {
        rucksack_one(lines[0]) + sum_one(lines.skip(1))
    }
}

/// Priority total of the badges: one item common to each consecutive
/// triple of lines.
pub open spec fn sum_badges(lines: Seq<Seq<char>>) -> int
    decreases lines.len(),
{
    if lines.len() < 3 {
        0
    } else {
        tri_dup_sum(lines[0], lines[1], lines[2]) + sum_badges(lines.skip(3))
    }
}

/// What part one must return: the sum over all lines of the priorities
/// of the items both halves share. Any character that is not an item
/// type is rejected first.
pub open spec fn part_one_spec(s: Seq<char>) -> Result<int, PuzzleError> {
    let lines = text::split_lines_spec(s);
    if !all_lines_ok(lines) {
        Err(PuzzleError::UnknownItem)
    } else if sum_one(lines) <= i32::MAX {
        Ok(sum_one(lines))
    } else {
        Err(PuzzleError::AnswerOverflow)
    }
}

/// What part two must return: the badge priority total over the
/// triples of lines. Any character that is not an item type is
/// rejected first; then a line count that is no multiple of three.
pub open spec fn part_two_spec(s: Seq<char>) -> Result<int, PuzzleError> {
    let lines = text::split_lines_spec(s);
    if !all_lines_ok(lines) {
        Err(PuzzleError::UnknownItem)
    } else if lines.len() % 3 != 0 {
        Err(PuzzleError::IncompleteGroup)
    } else if sum_badges(lines) <= i32::MAX {
        Ok(sum_badges(lines))
    } else {
        Err(PuzzleError::AnswerOverflow)
    }
}

proof fn lemma_dup_sum_bounds(a: Seq<char>, b: Seq<char>)
    ensures
        0 <= dup_sum(a, b) <= 52 * a.len(),
    decreases a.len(),
{
    if a.len() > 0 {
        lemma_dup_sum_bounds(a.drop_last(), b);
    }
}

proof fn lemma_tri_dup_sum_bounds(a: Seq<char>, b: Seq<char>, c: Seq<char>)
    ensures
        0 <= tri_dup_sum(a, b, c) <= 52 * a.len(),
    decreases a.len(),
{
    if a.len() > 0 {
        lemma_tri_dup_sum_bounds(a.drop_last(), b, c);
    }
}

proof fn lemma_sum_one_nonneg(lines: Seq<Seq<char>>)
    ensures
        sum_one(lines) >= 0,
    decreases lines.len(),
{
    if lines.len() > 0 {
        lemma_sum_one_nonneg(lines.skip(1));
        lemma_dup_sum_bounds(
            lines[0].take(lines[0].len() as int / 2),
            lines[0].skip(lines[0].len() as int / 2),
        );
    }
}

proof fn lemma_sum_badges_nonneg(lines: Seq<Seq<char>>)
    ensures
        sum_badges(lines) >= 0,
    decreases lines.len(),
{
    if lines.len() >= 3 {
        lemma_sum_badges_nonneg(lines.skip(3));
        lemma_tri_dup_sum_bounds(lines[0], lines[1], lines[2]);
    }
}

/// Check every character of every line; report the witness-free
/// verdict exactly.
fn check_items(lines: &Vec<Vec<char>>) -> (r: bool)
    ensures
        r == all_lines_ok(text::lines_view(lines@)),
{
    let ghost lseq = text::lines_view(lines@);
    let mut li: usize = 0;
    while li < lines.len()
        invariant
            li <= lines.len(),
            lseq == text::lines_view(lines@),
            forall|i: int| 0 <= i < li ==> line_ok(#[trigger] lseq[i]),
        decreases lines.len() - li,
    {
        let line = &lines[li];
        let mut i: usize = 0;
        while i < line.len()
            invariant
                i <= line.len(),
                line@ == lines@[li as int]@,
                li < lines.len(),
                lseq == text::lines_view(lines@),
                forall|k: int| 0 <= k < i ==> priority_spec(line@[k]) is Some,
            decreases line.len() - i,
        {
            match priority(&line[i]) {
                Ok(_) => {},
                Err(_) => {
                    proof {
                        assert(lseq[li as int] == line@);
                        assert(!line_ok(lseq[li as int]));
                    }
                    return false;
                },
            }
            i += 1;
        }
        proof {
            assert(line_ok(lseq[li as int]));
        }
        li += 1;
    }
    true
}

/// Sum the priorities of the items both halves of the line share.
fn rucksack_line(line: &Vec<char>) -> (r: i128)
    requires
        line_ok(line@),
    ensures
        r as int == rucksack_one(line@),
        0 <= r <= 52 * line@.len(),
        r <= 52 * usize::MAX as int,
{
    let n = line.len();
    let half = n / 2;
    let ghost a = line@.take(n as int / 2);
    let ghost b = line@.skip(n as int / 2);
    let mut acc: i128 = 0;
    let mut i: usize = 0;
    proof {
        assert(a.take(0) =~= Seq::<char>::empty());
    }
    while i < half
        invariant
            i <= half,
            half == line@.len() as int / 2,
            n == line@.len(),
            line_ok(line@),
            a == line@.take(n as int / 2),
            b == line@.skip(n as int / 2),
            acc as int == dup_sum(a.take(i as int), b),
            0 <= acc <= 52 * i as int,
        decreases half - i,
    {
        let c = line[i];
        proof {
            assert(a.take(i as int + 1).drop_last() =~= a.take(i as int));
            assert(a.take(i as int + 1).last() == line@[i as int]);
            assert(a.take(i as int) =~= line@.subrange(0, i as int));
            assert(b =~= line@.subrange(half as int, n as int));
        }
        let in_b = text::range_contains(line, half, n, c);
        let seen = text::range_contains(line, 0, i, c);
        if in_b && !seen {
            match priority(&c) {
                Ok(v) => {
                    acc = acc + v as i128;
                },
                Err(_) => {
                    proof {
                        assert(priority_spec(line@[i as int]) is Some);
                        assert(false);
                    }
                },
            }
        }
        i += 1;
    }
    proof {
        assert(a.take(half as int) =~= a);
    }
    acc
}

/// Sum the priorities of the items the three lines all share.
fn badge_line(g1: &Vec<char>, g2: &Vec<char>, g3: &Vec<char>) -> (r: i128)
    requires
        line_ok(g1@),
    ensures
        r as int == tri_dup_sum(g1@, g2@, g3@),
        0 <= r <= 52 * g1@.len(),
        r <= 52 * usize::MAX as int,
{
    let n = g1.len();
    let mut acc: i128 = 0;
    let mut i: usize = 0;
    proof {
        assert(g1@.take(0) =~= Seq::<char>::empty());
    }
    while i < n
        invariant
            i <= n,
            n == g1@.len(),
            line_ok(g1@),
            acc as int == tri_dup_sum(g1@.take(i as int), g2@, g3@),
            0 <= acc <= 52 * i as int,
        decreases n - i,
    {
        let c = g1[i];
        proof {
            assert(g1@.take(i as int + 1).drop_last() =~= g1@.take(i as int));
            assert(g1@.take(i as int + 1).last() == g1@[i as int]);
            assert(g1@.take(i as int) =~= g1@.subrange(0, i as int));
            assert(g2@.subrange(0, g2@.len() as int) =~= g2@);
            assert(g3@.subrange(0, g3@.len() as int) =~= g3@);
        }
        let in_2 = text::range_contains(g2, 0, g2.len(), c);
        let in_3 = text::range_contains(g3, 0, g3.len(), c);
        let seen = text::range_contains(g1, 0, i, c);
        if in_2 && in_3 && !seen {
            match priority(&c) {
                Ok(v) => {
                    acc = acc + v as i128;
                },
                Err(_) => {
                    proof {
                        assert(priority_spec(g1@[i as int]) is Some);
                        assert(false);
                    }
                },
            }
        }
        i += 1;
    }
    proof {
        assert(g1@.take(n as int) =~= g1@);
    }
    acc
}

/// Relies on itertools' tuples: consecutive items grouped into full
/// triples, in order.
#[verifier::external_body]
fn triples(xs: Vec<Vec<char>>) -> (r: Vec<(Vec<char>, Vec<char>, Vec<char>)>)
    requires
        xs@.len() % 3 == 0,
    ensures
        r@.len() == xs@.len() / 3,
        forall|i: int|
            0 <= i < r@.len() ==> (#[trigger] r@[i]).0 == xs@[3 * i] && r@[i].1 == xs@[3 * i + 1]
                && r@[i].2 == xs@[3 * i + 2],
{
    xs.into_iter().tuples().collect()
}

/// Sum of the priorities of the items each rucksack's halves share.
pub fn solve_part_one(input: &str) -> (r: Result<i32, PuzzleError>)
    ensures
        match r {
            Ok(v) => part_one_spec(input@) == Ok::<int, PuzzleError>(v as int),
            Err(e) => part_one_spec(input@) == Err::<int, PuzzleError>(e),
        },
{
    let chars = text::chars_of(input);
    let lines = text::split_lines(&chars);
    let ghost lseq = text::lines_view(lines@);
    if !check_items(&lines) {
        return Err(PuzzleError::UnknownItem);
    }
    let mut total: i128 = 0;
    let mut li: usize = 0;
    proof {
        assert(lseq.skip(0) =~= lseq);
    }
    while li < lines.len()
        invariant
            li <= lines.len(),
            lseq == text::lines_view(lines@),
            lseq == text::split_lines_spec(input@),
            all_lines_ok(lseq),
            sum_one(lseq) == total as int + sum_one(lseq.skip(li as int)),
            0 <= total <= i32::MAX as int,
        decreases lines.len() - li,
    {
        let ghost sfx = lseq.skip(li as int);
        proof {
            assert(sfx[0] == lseq[li as int]);
            assert(lseq[li as int] == lines@[li as int]@);
            assert(sfx.skip(1) =~= lseq.skip(li as int + 1));
            assert(sum_one(sfx) == rucksack_one(sfx[0]) + sum_one(sfx.skip(1)));
        }
        let v = rucksack_line(&lines[li]);
        total = total + v;
        proof {
            lemma_sum_one_nonneg(lseq.skip(li as int + 1));
        }
        if total > i32::MAX as i128 {
            return Err(PuzzleError::AnswerOverflow);
        }
        li += 1;
    }
    proof {
        assert(lseq.skip(li as int) =~= Seq::<Seq<char>>::empty());
    }
    Ok(total as i32)
}

/// Sum of the badge priorities over the triples of rucksacks.
pub fn solve_part_two(input: &str) -> (r: Result<i32, PuzzleError>)
    ensures
        match r {
            Ok(v) => part_two_spec(input@) == Ok::<int, PuzzleError>(v as int),
            Err(e) => part_two_spec(input@) == Err::<int, PuzzleError>(e),
        },
{
    let chars = text::chars_of(input);
    let lines = text::split_lines(&chars);
    let ghost lseq = text::lines_view(lines@);
    if !check_items(&lines) {
        return Err(PuzzleError::UnknownItem);
    }
    if lines.len() % 3 != 0 {
        return Err(PuzzleError::IncompleteGroup);
    }
    let groups = triples(lines);
    let mut total: i128 = 0;
    let mut g: usize = 0;
    proof {
        assert(lseq.skip(0) =~= lseq);
    }
    while g < groups.len()
        invariant
            g <= groups.len(),
            groups@.len() == lseq.len() / 3,
            lseq.len() % 3 == 0,
            lseq == text::split_lines_spec(input@),
            all_lines_ok(lseq),
            forall|i: int|
                0 <= i < groups@.len() ==> (#[trigger] groups@[i]).0@ == lseq[3 * i]
                    && groups@[i].1@ == lseq[3 * i + 1] && groups@[i].2@ == lseq[3 * i + 2],
            sum_badges(lseq) == total as int + sum_badges(lseq.skip(3 * g as int)),
            0 <= total <= i32::MAX as int,
        decreases groups.len() - g,
    {
        let ghost sfx = lseq.skip(3 * g as int);
        proof {
            assert(sfx.len() == lseq.len() - 3 * g >= 3);
            assert(sfx[0] == lseq[3 * g as int]);
            assert(sfx[1] == lseq[3 * g as int + 1]);
            assert(sfx[2] == lseq[3 * g as int + 2]);
            assert(sfx.skip(3) =~= lseq.skip(3 * (g as int + 1)));
            assert(groups@[g as int].0@ == lseq[3 * g as int]);
            assert(sum_badges(sfx) == tri_dup_sum(sfx[0], sfx[1], sfx[2]) + sum_badges(
                sfx.skip(3),
            ));
            assert(all_lines_ok(lseq) ==> line_ok(lseq[3 * g as int]));
        }
        let tup = &groups[g];
        let v = badge_line(&tup.0, &tup.1, &tup.2);
        total = total + v;
        proof {
            lemma_sum_badges_nonneg(lseq.skip(3 * (g as int + 1)));
        }
        if total > i32::MAX as i128 {
            return Err(PuzzleError::AnswerOverflow);
        }
        g += 1;
    }
    proof {
        assert(3 * groups@.len() == lseq.len());
        assert(lseq.skip(3 * g as int) =~= Seq::<Seq<char>>::empty());
    }
    Ok(total as i32)
}

} // verus!
