//! Rock-paper-scissors scoring. Each line holds the opponent's hand and
//! either the own hand (part one) or the required outcome (part two);
//! the answer is the total score over all rounds.

use vstd::prelude::*;

use crate::errors::PuzzleError;
use crate::text;

verus! {

#[derive(Clone, Copy, Debug, PartialEq, Eq)]
pub enum Hand {
    Rock,
    Paper,
    Scissors,
}

#[derive(Clone, Copy, Debug, PartialEq, Eq)]
pub enum Outcome {
    Win,
    Draw,
    Lost,
}

pub open spec fn hand_value_spec(h: Hand) -> int {
    match h {
        Hand::Rock => 1,
        Hand::Paper => 2,
        Hand::Scissors => 3,
    }
}

pub open spec fn outcome_value_spec(o: Outcome) -> int {
    match o {
        Outcome::Win => 6,
        Outcome::Draw => 3,
        Outcome::Lost => 0,
    }
}

/// The outcome of a round, for the player holding `own`. Rock beats
/// Scissors, Scissors beat Paper, Paper beats Rock; a draw otherwise.
pub open spec fn round_spec(own: Hand, opp: Hand) -> Outcome {
    match (own, opp) {
        (Hand::Rock, Hand::Paper) => Outcome::Lost,
        (Hand::Rock, Hand::Scissors) => Outcome::Win,
        (Hand::Paper, Hand::Rock) => Outcome::Win,
        (Hand::Paper, Hand::Scissors) => Outcome::Lost,
        (Hand::Scissors, Hand::Rock) => Outcome::Lost,
        (Hand::Scissors, Hand::Paper) => Outcome::Win,
        _ => Outcome::Draw,
    }
}

/// The hand that yields outcome `o` against `opp`.
pub open spec fn deduce_hand_spec(o: Outcome, opp: Hand) -> Hand {
    match (o, opp) {
        (Outcome::Win, Hand::Rock) => Hand::Paper,
        (Outcome::Win, Hand::Paper) => Hand::Scissors,
        (Outcome::Win, Hand::Scissors) => Hand::Rock,
        (Outcome::Draw, _) => opp,
        (Outcome::Lost, Hand::Rock) => Hand::Scissors,
        (Outcome::Lost, Hand::Paper) => Hand::Rock,
        (Outcome::Lost, Hand::Scissors) => Hand::Paper,
    }
}

/// Score of a round played with `own` against `opp`: the value of the
/// own hand plus the value of the outcome.
pub open spec fn round_points_spec(own: Hand, opp: Hand) -> int {
    hand_value_spec(own) + outcome_value_spec(round_spec(own, opp))
}

/// Score of a round whose outcome is prescribed: the value of the
/// outcome plus the value of the hand that brings it about.
pub open spec fn round_points_outcome_spec(opp: Hand, o: Outcome) -> int {
    outcome_value_spec(o) + hand_value_spec(deduce_hand_spec(o, opp))
}

impl Outcome {
    pub fn value(&self) -> (r: i32)
        ensures
            r == outcome_value_spec(*self),
    {
        match self {
            Outcome::Win => 6,
            Outcome::Draw => 3,
            Outcome::Lost => 0,
        }
    }

    pub fn deduce_hand(&self, opponent: &Hand) -> (r: Hand)
        ensures
            r == deduce_hand_spec(*self, *opponent),
    {
        match (self, opponent) {
            (Outcome::Win, Hand::Rock) => Hand::Paper,
            (Outcome::Win, Hand::Paper) => Hand::Scissors,
            (Outcome::Win, Hand::Scissors) => Hand::Rock,
            (Outcome::Draw, _) => *opponent,
            (Outcome::Lost, Hand::Rock) => Hand::Scissors,
            (Outcome::Lost, Hand::Paper) => Hand::Rock,
            (Outcome::Lost, Hand::Scissors) => Hand::Paper,
        }
    }

    /// The outcome a token names: `X` loss, `Y` draw, `Z` win.
    pub fn from_char(c: char) -> (r: Option<Outcome>)
        ensures
            r == outcome_token(seq![c]),
    {
        match c {
            'X' => Some(Outcome::Lost),
            'Y' => Some(Outcome::Draw),
            'Z' => Some(Outcome::Win),
            _ => None,
        }
    }
}

impl Hand {
    pub fn value(&self) -> (r: i32)
        ensures
            r == hand_value_spec(*self),
    {
        match self {
            Hand::Rock => 1,
            Hand::Paper => 2,
            Hand::Scissors => 3,
        }
    }

    pub fn round(&self, opponent: &Hand) -> (r: Outcome)
        ensures
            r == round_spec(*self, *opponent),
    {
        match (self, opponent) {
            (Hand::Rock, Hand::Paper) => Outcome::Lost,
            (Hand::Rock, Hand::Scissors) => Outcome::Win,
            (Hand::Paper, Hand::Rock) => Outcome::Win,
            (Hand::Paper, Hand::Scissors) => Outcome::Lost,
            (Hand::Scissors, Hand::Rock) => Outcome::Lost,
            (Hand::Scissors, Hand::Paper) => Outcome::Win,
            (_, _) => Outcome::Draw,
        }
    }

    pub fn round_points(&self, opponent: &Hand) -> (r: i32)
        ensures
            r == round_points_spec(*self, *opponent),
            1 <= r <= 9,
    {
        self.value() + self.round(opponent).value()
    }

    pub fn round_points_with_outcome(opponent: &Hand, outcome: &Outcome) -> (r: i32)
        ensures
            r == round_points_outcome_spec(*opponent, *outcome),
            1 <= r <= 9,
    {
        outcome.value() + outcome.deduce_hand(opponent).value()
    }

    /// The hand a token names: `A`/`X` rock, `B`/`Y` paper, `C`/`Z`
    /// scissors.
    pub fn from_char(c: char) -> (r: Option<Hand>)
        ensures
            r == hand_token(seq![c]),
    {
        match c {
            'A' | 'X' => Some(Hand::Rock),
            'B' | 'Y' => Some(Hand::Paper),
            'C' | 'Z' => Some(Hand::Scissors),
            _ => None,
        }
    }
}

/// The hand a whole token names, if any: a single valid letter.
pub open spec fn hand_token(t: Seq<char>) -> Option<Hand> {
    if t.len() == 1 {
        if t[0] == 'A' || t[0] == 'X' {
            Some(Hand::Rock)
        } else if t[0] == 'B' || t[0] == 'Y' {
            Some(Hand::Paper)
        } else if t[0] == 'C' || t[0] == 'Z' {
            Some(Hand::Scissors)
        } else {
            None
        }
    } else {
        None
    }
}

/// The outcome a whole token names, if any: a single valid letter.
pub open spec fn outcome_token(t: Seq<char>) -> Option<Outcome> {
    if t.len() == 1 {
        if t[0] == 'X' {
            Some(Outcome::Lost)
        } else if t[0] == 'Y' {
            Some(Outcome::Draw)
        } else if t[0] == 'Z' {
            Some(Outcome::Win)
        } else {
            None
        }
    } else {
        None
    }
}

/// Score of one line read as "opponent hand, own hand". The line is
/// split at its first space; each side must be a single valid token.
pub open spec fn line_score_one(line: Seq<char>) -> Result<int, PuzzleError> {
    let i = text::find_char(line, ' ');
    if i == line.len() {
        Err(PuzzleError::MalformedLine)
    } else {
        match hand_token(line.take(i)) {
            None => Err(PuzzleError::UnknownHand),
            Some(opp) => match hand_token(line.skip(i + 1)) {
                None => Err(PuzzleError::UnknownHand),
                Some(own) => Ok(round_points_spec(own, opp)),
            },
        }
    }
}

/// Score of one line read as "opponent hand, required outcome".
pub open spec fn line_score_two(line: Seq<char>) -> Result<int, PuzzleError> {
    let i = text::find_char(line, ' ');
    if i == line.len() {
        Err(PuzzleError::MalformedLine)
    } else {
        match hand_token(line.take(i)) {
            None => Err(PuzzleError::UnknownHand),
            Some(opp) => match outcome_token(line.skip(i + 1)) {
                None => Err(PuzzleError::UnknownOutcome),
                Some(o) => Ok(round_points_outcome_spec(opp, o)),
            },
        }
    }
}

/// Total score over all lines, or the first line's error.
pub open spec fn score_lines(lines: Seq<Seq<char>>, two: bool) -> Result<int, PuzzleError>
    decreases lines.len(),
{
    if lines.len() == 0 {
        Ok(0)
    } else {
        let first = if two {
            line_score_two(lines[0])
        } else {
            line_score_one(lines[0])
        };
        match first {
            Err(e) => Err(e),
            Ok(v) => match score_lines(lines.skip(1), two) {
                Err(e) => Err(e),
                Ok(rest) => Ok(v + rest),
            },
        }
    }
}

/// What part one must return: the total score with the second token
/// read as the own hand, or a typed error.
pub open spec fn part_one_spec(s: Seq<char>) -> Result<int, PuzzleError> {
    match score_lines(text::split_lines_spec(s), false) {
        Err(e) => Err(e),
        Ok(t) => if t <= i32::MAX {
            Ok(t)
        } else {
            Err(PuzzleError::AnswerOverflow)
        },
    }
}

/// What part two must return: the total score with the second token
/// read as the required outcome, or a typed error.
pub open spec fn part_two_spec(s: Seq<char>) -> Result<int, PuzzleError> {
    match score_lines(text::split_lines_spec(s), true) {
        Err(e) => Err(e),
        Ok(t) => if t <= i32::MAX {
            Ok(t)
        } else {
            Err(PuzzleError::AnswerOverflow)
        },
    }
}

/// Score one line under either reading.
fn score_line(line: &Vec<char>, two: bool) -> (r: Result<i32, PuzzleError>)
    ensures
        match r {
            Ok(v) => (if two {
                line_score_two(line@)
            } else {
                line_score_one(line@)
            }) == Ok::<int, PuzzleError>(v as int) && 1 <= v <= 9,
            Err(e) => (if two {
                line_score_two(line@)
            } else {
                line_score_one(line@)
            }) == Err::<int, PuzzleError>(e),
        },
{
    let n = line.len();
    let i = text::find_from(line, 0, n, ' ');
    proof {
        assert(line@.subrange(0, n as int) =~= line@);
    }
    if i == n {
        return Err(PuzzleError::MalformedLine);
    }
    let opp = if i == 1 {
        Hand::from_char(line[0])
    } else {
        proof {
            assert(line@.take(i as int).len() != 1);
        }
        None
    };
    proof {
        if i == 1 {
            assert(line@.take(1) =~= seq![line@[0]]);
        }
    }
    let opp = match opp {
        None => {
            return Err(PuzzleError::UnknownHand);
        },
        Some(h) => h,
    };
    let m = n - (i + 1);
    let ghost tail = line@.skip(i as int + 1);
    proof {
        assert(tail.len() == m);
        if m == 1 {
            assert(tail =~= seq![line@[i as int + 1]]);
        }
    }
    if !two {
        let own = if m == 1 {
            Hand::from_char(line[i + 1])
        } else {
            None
        };
        match own {
            None => Err(PuzzleError::UnknownHand),
            Some(h) => Ok(h.round_points(&opp)),
        }
    } else {
        let o = if m == 1 {
            Outcome::from_char(line[i + 1])
        } else {
            None
        };
        match o {
            None => Err(PuzzleError::UnknownOutcome),
            Some(o) => Ok(Hand::round_points_with_outcome(&opp, &o)),
        }
    }
}

/// Sum the line scores, reporting the first malformed line.
fn sum_scores(lines: &Vec<Vec<char>>, two: bool) -> (r: Result<i32, PuzzleError>)
    ensures
        ({
            let sc = score_lines(text::lines_view(lines@), two);
            match r {
                Ok(v) => sc == Ok::<int, PuzzleError>(v as int) && v >= 0,
                Err(e) => match sc {
                    Ok(t) => e == PuzzleError::AnswerOverflow && t > i32::MAX,
                    Err(e2) => e == e2,
                },
            }
        }),
{
    let ghost lseq = text::lines_view(lines@);
    let mut total: i128 = 0;
    let mut li: usize = 0;
    proof {
        assert(lseq.skip(0) =~= lseq);
    }
    while li < lines.len()
        invariant
            li <= lines.len(),
            lseq == text::lines_view(lines@),
            0 <= total <= 9 * li as int,
            match score_lines(lseq.skip(li as int), two) {
                Ok(rest) => score_lines(lseq, two) == Ok::<int, PuzzleError>(total + rest),
                Err(e) => score_lines(lseq, two) == Err::<int, PuzzleError>(e),
            },
        decreases lines.len() - li,
    {
        let ghost sfx = lseq.skip(li as int);
        proof {
            assert(sfx[0] == lseq[li as int]);
            assert(lseq[li as int] == lines@[li as int]@);
            assert(sfx.skip(1) =~= lseq.skip(li as int + 1));
        }
        match score_line(&lines[li], two) {
            Err(e) => {
                return Err(e);
            },
            Ok(v) => {
                total = total + v as i128;
            },
        }
        li += 1;
    }
    proof {
        assert(lseq.skip(li as int) =~= Seq::<Seq<char>>::empty());
    }
    if total <= i32::MAX as i128 {
        Ok(total as i32)
    } else {
        Err(PuzzleError::AnswerOverflow)
    }
}

/// Total score when the second token is the own hand.
pub fn solve_part_one(input: &str) -> (r: Result<i32, PuzzleError>)
    ensures
        match r {
            Ok(v) => part_one_spec(input@) == Ok::<int, PuzzleError>(v as int),
            Err(e) => part_one_spec(input@) == Err::<int, PuzzleError>(e),
        },
{
    let chars = text::chars_of(input);
    let lines = text::split_lines(&chars);
    sum_scores(&lines, false)
}

/// Total score when the second token is the required outcome.
pub fn solve_part_two(input: &str) -> (r: Result<i32, PuzzleError>)
    ensures
        match r {
            Ok(v) => part_two_spec(input@) == Ok::<int, PuzzleError>(v as int),
            Err(e) => part_two_spec(input@) == Err::<int, PuzzleError>(e),
        },
{
    let chars = text::chars_of(input);
    let lines = text::split_lines(&chars);
    sum_scores(&lines, true)
}

} // verus!
