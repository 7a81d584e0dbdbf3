//! Rounds of rock, paper, scissors, one to a line: what the other player shows, then what
//! to show or how the round is to end.

use crate::text::{chars_of, is_char, split, split_char, trim, trimmed, views, words, words_of};
use vstd::pervasive::unreached;
use vstd::prelude::*;

verus! {

/// What a player shows.
#[derive(Debug, Eq, PartialEq, Clone, Copy, Structural)]
pub enum Hand {
    Rock,
    Paper,
    Scissors,
}

/// How a round ends for the second player.
#[derive(Debug, Eq, PartialEq, Clone, Copy, Structural)]
pub enum Outcome {
    Win,
    Loss,
    Draw,
}

/// The hand that a word stands for.
pub open spec fn hand_of(s: Seq<char>) -> Option<Hand> {
    if s == seq!['A'] || s == seq!['X'] {
        Some(Hand::Rock)
    } else if s == seq!['B'] || s == seq!['Y'] {
        Some(Hand::Paper)
    } else if s == seq!['C'] || s == seq!['Z'] {
        Some(Hand::Scissors)
    } else {
        None
    }
}

/// The outcome that a word stands for.
pub open spec fn outcome_of(s: Seq<char>) -> Option<Outcome> {
    if s == seq!['X'] {
        Some(Outcome::Loss)
    } else if s == seq!['Y'] {
        Some(Outcome::Draw)
    } else if s == seq!['Z'] {
        Some(Outcome::Win)
    } else {
        None
    }
}

impl Hand {
    /// Whether this hand wins against `other`.
    pub open spec fn beats(self, other: Hand) -> bool {
        ||| self == Hand::Rock && other == Hand::Scissors
        ||| self == Hand::Scissors && other == Hand::Paper
        ||| self == Hand::Paper && other == Hand::Rock
    }

    /// The points for showing this hand.
    pub open spec fn points(self) -> int {
        match self {
            Hand::Rock => 1,
            Hand::Paper => 2,
            Hand::Scissors => 3,
        }
    }

    /// The points of a round in which this hand meets `h`.
    pub open spec fn round_points(self, h: Hand) -> int {
        Outcome::of(h, self).points() + self.points()
    }

    /// Reads a hand: `A`, `B`, `C` or `X`, `Y`, `Z` for rock, paper, scissors.
    pub fn from_str(input: &str) -> (r: Result<Hand, ()>)
        ensures
            r is Ok <==> hand_of(input@) is Some,
            r is Ok ==> Some(r.unwrap()) == hand_of(input@),
    {
        let v = chars_of(input);
        match Hand::from_chars(&v) {
            Some(h) => Ok(h),
            None => Err(()),
        }
    }

    /// Reads a hand from the characters of a word.
    pub fn from_chars(v: &Vec<char>) -> (r: Option<Hand>)
        ensures
            r == hand_of(v@),
    {
        if is_char(v, 'A') || is_char(v, 'X') {
            Some(Hand::Rock)
        } else if is_char(v, 'B') || is_char(v, 'Y') {
            Some(Hand::Paper)
        } else if is_char(v, 'C') || is_char(v, 'Z') {
            Some(Hand::Scissors)
        } else {
            None
        }
    }

    /// The points for showing this hand.
    pub fn bonus(&self) -> (n: i64)
        ensures
            n == self.points(),
    {
        match &self {
            Hand::Rock => 1,
            Hand::Paper => 2,
            Hand::Scissors => 3,
        }
    }

    /// The points of a round in which this hand meets `h`.
    pub fn score_against(self, h: Hand) -> (n: i64)
        ensures
            n == self.round_points(h),
    {
        let outcome = Outcome::from(h, self);
        outcome.score() + self.bonus()
    }
}

impl Outcome {
    /// How a round ends for the player who shows `h2` against `h1`.
    pub open spec fn of(h1: Hand, h2: Hand) -> Outcome {
        if h2.beats(h1) {
            Outcome::Win
        } else if h1 == h2 {
            Outcome::Draw
        } else {
            Outcome::Loss
        }
    }

    /// The points for this outcome.
    pub open spec fn points(self) -> int {
        match self {
            Outcome::Win => 6,
            Outcome::Draw => 3,
            Outcome::Loss => 0,
        }
    }

    /// The points of a round that ends with this outcome against `h`.
    pub open spec fn round_points(self, h: Hand) -> int {
        self.points() + self.answer(h).points()
    }

    /// The hand that brings this outcome about against `h`.
    pub open spec fn answer(self, h: Hand) -> Hand {
        choose|r: Hand| Outcome::of(h, r) == self
    }

    /// Reads an outcome: `X`, `Y`, `Z` for loss, draw, win.
    pub fn from_str(input: &str) -> (r: Result<Outcome, ()>)
        ensures
            r is Ok <==> outcome_of(input@) is Some,
            r is Ok ==> Some(r.unwrap()) == outcome_of(input@),
    {
        let v = chars_of(input);
        match Outcome::from_chars(&v) {
            Some(o) => Ok(o),
            None => Err(()),
        }
    }

    /// Reads an outcome from the characters of a word.
    pub fn from_chars(v: &Vec<char>) -> (r: Option<Outcome>)
        ensures
            r == outcome_of(v@),
    {
        if is_char(v, 'X') {
            Some(Outcome::Loss)
        } else if is_char(v, 'Y') {
            Some(Outcome::Draw)
        } else if is_char(v, 'Z') {
            Some(Outcome::Win)
        } else {
            None
        }
    }

    /// How a round ends for the player who shows `h2` against `h1`.
    pub fn from(h1: Hand, h2: Hand) -> (o: Outcome)
        ensures
            o == Outcome::of(h1, h2),
    {
        match (h1, h2) {
            (Hand::Scissors, Hand::Rock) | (Hand::Paper, Hand::Scissors) | (
                Hand::Rock,
                Hand::Paper,
            ) => Outcome::Win,
            (Hand::Rock, Hand::Rock) | (Hand::Paper, Hand::Paper) | (
                Hand::Scissors,
                Hand::Scissors,
            ) => Outcome::Draw,
            _ => Outcome::Loss,
        }
    }

    /// The points for this outcome.
    pub fn score(&self) -> (n: i64)
        ensures
            n == self.points(),
    {
        match &self {
            Outcome::Win => 6,
            Outcome::Draw => 3,
            Outcome::Loss => 0,
        }
    }

    /// The hand that brings this outcome about against `h`: there is exactly one.
    pub fn response(&self, h: Hand) -> (r: Hand)
        ensures
            Outcome::of(h, r) == *self,
            forall|other: Hand| Outcome::of(h, other) == *self ==> other == r,
            r == self.answer(h),
    {
        match (h, &self) {
            (x, Outcome::Draw) => x,
            (Hand::Rock, Outcome::Win) => Hand::Paper,
            (Hand::Paper, Outcome::Win) => Hand::Scissors,
            (Hand::Scissors, Outcome::Win) => Hand::Rock,
            (Hand::Rock, Outcome::Loss) => Hand::Scissors,
            (Hand::Paper, Outcome::Loss) => Hand::Rock,
            (Hand::Scissors, Outcome::Loss) => Hand::Paper,
        }
    }

    /// The points of a round that ends with this outcome against `h`.
    pub fn score_against(&self, h: Hand) -> (n: i64)
        ensures
            n == self.round_points(h),
    {
        let other = &self.response(h);
        self.score() + other.bonus()
    }
}

/// The points of the round that a line tells, its second word read as a hand; `None`
/// where the line does not hold two hands.
pub open spec fn line_points_p1(line: Seq<char>) -> Option<int> {
    let w = words(line);
    if w.len() >= 2 && hand_of(w[0]) is Some && hand_of(w[1]) is Some {
        Some(hand_of(w[1]).unwrap().round_points(hand_of(w[0]).unwrap()))
    } else {
        None
    }
}

/// The points of the round that a line tells, its second word read as the outcome; `None`
/// where the line does not hold a hand and an outcome.
pub open spec fn line_points_p2(line: Seq<char>) -> Option<int> {
    let w = words(line);
    if w.len() >= 2 && hand_of(w[0]) is Some && outcome_of(w[1]) is Some {
        Some(outcome_of(w[1]).unwrap().round_points(hand_of(w[0]).unwrap()))
    } else {
        None
    }
}

/// The points of a line under the first reading, if `second_is_hand`, or the second.
pub open spec fn line_points(line: Seq<char>, second_is_hand: bool) -> Option<int> {
    if second_is_hand {
        line_points_p1(line)
    } else {
        line_points_p2(line)
    }
}

/// The rounds of `s`: the lines of what it holds between the white space around it.
pub open spec fn rounds(s: Seq<char>) -> Seq<Seq<char>> {
    split(trim(s), seq!['\n'])
}

/// Whether every line tells a round.
pub open spec fn valid_rounds(lines: Seq<Seq<char>>, second_is_hand: bool) -> bool {
    forall|i: int| 0 <= i < lines.len() ==> line_points(#[trigger] lines[i], second_is_hand) is Some
}

/// The sum of the points of the rounds.
pub open spec fn total_points(lines: Seq<Seq<char>>, second_is_hand: bool) -> int
    decreases lines.len(),
{
    if lines.len() == 0 {
        0
    } else {
        total_points(lines.drop_last(), second_is_hand) + line_points(
            lines.last(),
            second_is_hand,
        ).unwrap()
    }
}

/// The two hands of a line.
pub fn parse_line_p1(s: &Vec<char>) -> (r: Option<(Hand, Hand)>)
    ensures
        r is Some <==> line_points_p1(s@) is Some,
        r is Some ==> Some(r.unwrap().0) == hand_of(words(s@)[0]) && Some(r.unwrap().1) == hand_of(
            words(s@)[1],
        ),
{
    let w = words_of(s);
    if w.len() < 2 {
        return None;
    }
    assert(views(w@)[0] == w@[0]@);
    assert(views(w@)[1] == w@[1]@);
    match (Hand::from_chars(&w[0]), Hand::from_chars(&w[1])) {
        (Some(a), Some(b)) => Some((a, b)),
        _ => None,
    }
}

/// The hand and the outcome of a line.
pub fn parse_line_p2(s: &Vec<char>) -> (r: Option<(Hand, Outcome)>)
    ensures
        r is Some <==> line_points_p2(s@) is Some,
        r is Some ==> Some(r.unwrap().0) == hand_of(words(s@)[0]) && Some(r.unwrap().1)
            == outcome_of(words(s@)[1]),
{
    let w = words_of(s);
    if w.len() < 2 {
        return None;
    }
    assert(views(w@)[0] == w@[0]@);
    assert(views(w@)[1] == w@[1]@);
    match (Hand::from_chars(&w[0]), Outcome::from_chars(&w[1])) {
        (Some(a), Some(b)) => Some((a, b)),
        _ => None,
    }
}

/// The sum of the points of the rounds of `s`, or `None` where a line tells no round or
/// the sum is more than an `i64` holds.
pub fn total_score(s: &str, second_is_hand: bool) -> (r: Option<i64>)
    ensures
        r is Some <==> valid_rounds(rounds(s@), second_is_hand) && total_points(
            rounds(s@),
            second_is_hand,
        ) <= i64::MAX,
        r is Some ==> r.unwrap() == total_points(rounds(s@), second_is_hand),
{
    let all = chars_of(s);
    let text = trimmed(&all);
    let lines = split_char(&text, '\n');
    let mut total: i128 = 0;
    let mut i: usize = 0;
    assert(views(lines@).take(0) =~= Seq::<Seq<char>>::empty());
    while i < lines.len()
        invariant
            i <= lines.len(),
            views(lines@) == rounds(s@),
            valid_rounds(views(lines@).take(i as int), second_is_hand),
            total == total_points(views(lines@).take(i as int), second_is_hand),
            0 <= total <= 9 * i,
        decreases lines.len() - i,
    {
        assert(views(lines@)[i as int] == lines@[i as int]@);
        assert(views(lines@).take(i + 1).drop_last() =~= views(lines@).take(i as int));
        assert(views(lines@).take(i + 1).last() == lines@[i as int]@);
        let points = if second_is_hand {
            match parse_line_p1(&lines[i]) {
                Some((h1, h2)) => h2.score_against(h1),
                None => {
                    return None;
                },
            }
        } else {
            match parse_line_p2(&lines[i]) {
                Some((h, o)) => o.score_against(h),
                None => {
                    return None;
                },
            }
        };
        total = total + points as i128;
        assert forall|j: int| 0 <= j < i + 1 implies line_points(
            #[trigger] views(lines@).take(i + 1)[j],
            second_is_hand,
        ) is Some by {
            if j < i {
                assert(views(lines@).take(i as int)[j] == views(lines@).take(i + 1)[j]);
            }
        }
        i += 1;
    }
    assert(views(lines@).take(i as int) =~= views(lines@));
    if total > 0x7fff_ffff_ffff_ffff {
        None
    } else {
        Some(total as i64)
    }
}

/// The sum of the points of the rounds, the second word of a line read as a hand.
pub fn total_score_p1(s: &str) -> (total: i64)
    requires
        valid_rounds(rounds(s@), true),
        total_points(rounds(s@), true) <= i64::MAX,
    ensures
        total == total_points(rounds(s@), true),
{
    match total_score(s, true) {
        Some(total) => total,
        None => unreached(),
    }
}

/// The sum of the points of the rounds, the second word of a line read as the outcome.
pub fn total_score_p2(s: &str) -> (total: i64)
    requires
        valid_rounds(rounds(s@), false),
        total_points(rounds(s@), false) <= i64::MAX,
    ensures
        total == total_points(rounds(s@), false),
{
    match total_score(s, false) {
        Some(total) => total,
        None => unreached(),
    }
}

} // verus!
