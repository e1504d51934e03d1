//! Range overlap counting. Each line holds two dash-separated integer
//! ranges joined by a comma; part one counts pairs where one range
//! fully contains the other, part two counts pairs that overlap at all.

use vstd::prelude::*;

use crate::errors::PuzzleError;
use crate::text;

verus! {

/// A closed integer interval, low then high.
#[derive(Debug, PartialEq, Eq, Clone, Copy)]
pub struct Section(pub i32, pub i32);

/// The pair of integers a dash-separated range denotes, if the text
/// before and after the first dash both parse as `i32` literals.
pub open spec fn section_of(part: Seq<char>) -> Option<(int, int)> {
    let i = text::find_char(part, '-');
    if i == part.len() {
        None
    } else {
        match (text::i32_value(part.take(i)), text::i32_value(part.skip(i + 1))) {
            (Some(lo), Some(hi)) => Some((lo, hi)),
            _ => None,
        }
    }
}

/// The two sections of a line, split at its first comma.
pub open spec fn line_sections(line: Seq<char>) -> Option<((int, int), (int, int))> {
    let i = text::find_char(line, ',');
    if i == line.len() {
        None
    } else {
        match (section_of(line.take(i)), section_of(line.skip(i + 1))) {
            (Some(a), Some(b)) => Some((a, b)),
            _ => None,
        }
    }
}

/// Whether `a` fully contains `b`.
pub open spec fn contains_spec(a: (int, int), b: (int, int)) -> bool {
    a.0 <= b.0 && b.1 <= a.1
}

/// Whether `a` and `b` intersect as closed intervals.
pub open spec fn overlaps_spec(a: (int, int), b: (int, int)) -> bool {
    a.1 >= b.0 && a.0 <= b.1
}

/// How many lines hold a pair that overlaps (part two) or where either
/// section contains the other (part one); the first malformed line is
/// an error.
pub open spec fn count_pairs(lines: Seq<Seq<char>>, any_overlap: bool) -> Result<int, PuzzleError>
    decreases lines.len(),
{
    if lines.len() == 0 {
        Ok(0)
    } else {
        match line_sections(lines[0]) {
            None => Err(PuzzleError::MalformedRange),
            Some((a, b)) => {
                let hit = if any_overlap {
                    overlaps_spec(a, b)
                } else {
                    contains_spec(a, b) || contains_spec(b, a)
                };
                match count_pairs(lines.skip(1), any_overlap) {
                    Err(e) => Err(e),
                    Ok(c) => Ok(c + if hit {
                        1int
                    } else {
                        0int
                    }),
                }
            },
        }
    }
}

/// What part one must return: the number of fully-contained pairs.
pub open spec fn part_one_spec(s: Seq<char>) -> Result<int, PuzzleError> {
    match count_pairs(text::split_lines_spec(s), false) {
        Err(e) => Err(e),
        Ok(c) => if c <= i32::MAX {
            Ok(c)
        } else {
            Err(PuzzleError::AnswerOverflow)
        },
    }
}

/// What part two must return: the number of overlapping pairs.
pub open spec fn part_two_spec(s: Seq<char>) -> Result<int, PuzzleError> {
    match count_pairs(text::split_lines_spec(s), true) {
        Err(e) => Err(e),
        Ok(c) => if c <= i32::MAX {
            Ok(c)
        } else {
            Err(PuzzleError::AnswerOverflow)
        },
    }
}

impl Section {
    /// The interval as a pair of mathematical integers.
    pub open spec fn bounds(self) -> (int, int) {
        (self.0 as int, self.1 as int)
    }

    /// Parse `s[a..b]` as a dash-separated range.
    fn parse_range(s: &Vec<char>, a: usize, b: usize) -> (r: Option<Section>)
        requires
            a <= b,
            b <= s.len(),
        ensures
            match r {
                Some(sec) => section_of(s@.subrange(a as int, b as int)) == Some(sec.bounds()),
                None => section_of(s@.subrange(a as int, b as int)) is None,
            },
    {
        let ghost part = s@.subrange(a as int, b as int);
        let i = text::find_from(s, a, b, '-');
        if i == b {
            return None;
        }
        proof {
            assert(part.take(i as int - a) =~= s@.subrange(a as int, i as int));
            assert(part.skip(i as int - a + 1) =~= s@.subrange(i as int + 1, b as int));
        }
        let lo = text::parse_i32_range(s, a, i);
        let hi = text::parse_i32_range(s, i + 1, b);
        match (lo, hi) {
            (Some(lo), Some(hi)) => Some(Section(lo, hi)),
            _ => None,
        }
    }

    /// Parse a whole string as a dash-separated range.
    pub fn parse(s: &str) -> (r: Result<Section, PuzzleError>)
        ensures
            match r {
                Ok(sec) => section_of(s@) == Some(sec.bounds()),
                Err(e) => section_of(s@) is None && e == PuzzleError::MalformedRange,
            },
    {
        let chars = text::chars_of(s);
        proof {
            assert(chars@.subrange(0, chars@.len() as int) =~= s@);
        }
        match Self::parse_range(&chars, 0, chars.len()) {
            Some(sec) => Ok(sec),
            None => Err(PuzzleError::MalformedRange),
        }
    }

    /// Whether `self` fully contains `other`.
    pub fn contains(&self, other: &Self) -> (r: bool)
        ensures
            r == contains_spec(self.bounds(), other.bounds()),
    {
        self.0 <= other.0 && other.1 <= self.1
    }

    /// Whether `self` and `other` intersect as closed intervals.
    pub fn overlaps(&self, other: &Self) -> (r: bool)
        ensures
            r == overlaps_spec(self.bounds(), other.bounds()),
    {
        self.1 >= other.0 && self.0 <= other.1
    }
}

/// Count the lines whose pair satisfies the part's test.
fn count_hits(lines: &Vec<Vec<char>>, any_overlap: bool) -> (r: Result<i32, PuzzleError>)
    ensures
        ({
            let sc = count_pairs(text::lines_view(lines@), any_overlap);
            match r {
                Ok(v) => sc == Ok::<int, PuzzleError>(v as int) && v >= 0,
                Err(e) => match sc {
                    Ok(t) => e == PuzzleError::AnswerOverflow && t > i32::MAX,
                    Err(e2) => e == e2,
                },
            }
        }),
{
    let ghost lseq = text::lines_view(lines@);
    let mut count: u64 = 0;
    let mut li: usize = 0;
    proof {
        assert(lseq.skip(0) =~= lseq);
    }
    while li < lines.len()
        invariant
            li <= lines.len(),
            lseq == text::lines_view(lines@),
            0 <= count <= li,
            match count_pairs(lseq.skip(li as int), any_overlap) {
                Ok(rest) => count_pairs(lseq, any_overlap) == Ok::<int, PuzzleError>(
                    count + rest,
                ),
                Err(e) => count_pairs(lseq, any_overlap) == Err::<int, PuzzleError>(e),
            },
        decreases lines.len() - li,
    {
        let ghost sfx = lseq.skip(li as int);
        proof {
            assert(sfx[0] == lseq[li as int]);
            assert(lseq[li as int] == lines@[li as int]@);
            assert(sfx.skip(1) =~= lseq.skip(li as int + 1));
        }
        let line = &lines[li];
        let n = line.len();
        let i = text::find_from(line, 0, n, ',');
        proof {
            assert(line@.subrange(0, n as int) =~= line@);
            assert(line@.take(i as int) =~= line@.subrange(0, i as int));
            if i < n {
                assert(line@.skip(i as int + 1) =~= line@.subrange(i as int + 1, n as int));
            }
        }
        if i == n {
            return Err(PuzzleError::MalformedRange);
        }
        let s1 = Section::parse_range(line, 0, i);
        let s2 = Section::parse_range(line, i + 1, n);
        match (s1, s2) {
            (Some(a), Some(b)) => {
                let hit = if any_overlap {
                    a.overlaps(&b)
                } else {
                    a.contains(&b) || b.contains(&a)
                };
                if hit {
                    count = count + 1;
                }
            },
            _ => {
                return Err(PuzzleError::MalformedRange);
            },
        }
        li += 1;
    }
    proof {
        assert(lseq.skip(li as int) =~= Seq::<Seq<char>>::empty());
    }
    if count <= i32::MAX as u64 {
        Ok(count as i32)
    } else {
        Err(PuzzleError::AnswerOverflow)
    }
}

/// Number of pairs where one range fully contains the other.
pub fn solve_part_one(input: &str) -> (r: Result<i32, PuzzleError>)
    ensures
        match r {
            Ok(v) => part_one_spec(input@) == Ok::<int, PuzzleError>(v as int),
            Err(e) => part_one_spec(input@) == Err::<int, PuzzleError>(e),
        },
{
    let chars = text::chars_of(input);
    let lines = text::split_lines(&chars);
    count_hits(&lines, false)
}

/// Number of pairs whose ranges overlap at all.
pub fn solve_part_two(input: &str) -> (r: Result<i32, PuzzleError>)
    ensures
        match r {
            Ok(v) => part_two_spec(input@) == Ok::<int, PuzzleError>(v as int),
            Err(e) => part_two_spec(input@) == Err::<int, PuzzleError>(e),
        },
{
    let chars = text::chars_of(input);
    let lines = text::split_lines(&chars);
    count_hits(&lines, true)
}

} // verus!
