//! Pairs of ranges of section numbers, one pair to a line, as in `2-4,6-8`.

use crate::text::{
    chars_of, lemma_take_step, parse_i64, split, split_char, split_terminator,
    split_terminator_on, one_char, to_i64, trim, trimmed, views,
};
use vstd::pervasive::unreached;
use vstd::prelude::*;

verus! {

/// The sections from `start` to `end`, both of them in it.
#[derive(Debug, Clone, Copy, PartialEq, Eq, Structural)]
pub struct Range {
    pub start: i64,
    pub end: i64,
}

/// The range that a text of the form `start-end` writes.
pub open spec fn range_of(s: Seq<char>) -> Option<Range> {
    let parts = split(trim(s), seq!['-']);
    if parts.len() == 2 && parse_i64(parts[0]) is Some && parse_i64(parts[1]) is Some {
        Some(Range { start: parse_i64(parts[0]).unwrap(), end: parse_i64(parts[1]).unwrap() })
    } else {
        None
    }
}

/// The two ranges that a line of the form `range,range` writes; what follows a second
/// comma is not read.
pub open spec fn pair_of(line: Seq<char>) -> Option<(Range, Range)> {
    let parts = split(trim(line), seq![',']);
    if parts.len() >= 2 && range_of(parts[0]) is Some && range_of(parts[1]) is Some {
        Some((range_of(parts[0]).unwrap(), range_of(parts[1]).unwrap()))
    } else {
        None
    }
}

impl Range {
    /// Whether section `k` is in the range.
    pub open spec fn holds(self, k: int) -> bool {
        self.start <= k <= self.end
    }

    /// Whether every section of `r` is in this range, taking both as intervals by their
    /// ends.
    pub open spec fn covers(self, r: Range) -> bool {
        self.start <= r.start && r.end <= self.end
    }

    /// Whether one of the two ranges covers the other.
    pub open spec fn nested(self, r: Range) -> bool {
        self.covers(r) || r.covers(self)
    }

    /// Whether the range that starts first ends at or after the start of the other; of two
    /// that start together, whether `r` ends at or after its own start.
    pub open spec fn meets(self, r: Range) -> bool {
        if self.start < r.start {
            self.end >= r.start
        } else if self.start > r.start {
            r.end >= self.start
        } else {
            r.end >= r.start
        }
    }

    /// Reads a range of the form `start-end`.
    pub fn from_str(s: &str) -> (r: Result<Range, ()>)
        ensures
            r is Ok <==> range_of(s@) is Some,
            r is Ok ==> Some(r.unwrap()) == range_of(s@),
    {
        let v = chars_of(s);
        match Range::from_chars(&v) {
            Some(r) => Ok(r),
            None => Err(()),
        }
    }

    /// Reads a range from the characters of its text.
    pub fn from_chars(s: &Vec<char>) -> (r: Option<Range>)
        ensures
            r == range_of(s@),
    {
        let text = trimmed(s);
        let v = split_char(&text, '-');
        if v.len() != 2 {
            return None;
        }
        assert(views(v@)[0] == v@[0]@);
        assert(views(v@)[1] == v@[1]@);
        match (to_i64(&v[0]), to_i64(&v[1])) {
            (Some(x), Some(y)) => Some(Range { start: x, end: y }),
            _ => None,
        }
    }

    /// Whether one of the two ranges lies within the other.
    pub fn does_fully_contain(&self, r: &Range) -> (b: bool)
        ensures
            b == self.nested(*r),
    {
        (r.start >= self.start && r.end <= self.end) || (self.start >= r.start && self.end
            <= r.end)
    }

    /// Whether the two ranges have a section in common, for ranges that do not end before
    /// they start.
    pub fn does_overlap(&self, r: &Range) -> (b: bool)
        ensures
            b == self.meets(*r),
            self.start <= self.end && r.start <= r.end ==> (b <==> exists|k: int|
                self.holds(k) && r.holds(k)),
    {
        let x = if self.start < r.start {
            self
        } else {
            r
        };
        let y = if self.start > r.start {
            self
        } else {
            r
        };
        proof {
            if self.start <= self.end && r.start <= r.end {
                if self.meets(*r) {
                    let k = if self.start < r.start {
                        r.start as int
                    } else {
                        self.start as int
                    };
                    assert(self.holds(k) && r.holds(k));
                }
            }
        }
        x.end >= y.start
    }
}

/// Whether the pair of ranges counts: whether they are nested, if `nested`, or meet.
pub open spec fn counts(pair: (Range, Range), nested: bool) -> bool {
    if nested {
        pair.0.nested(pair.1)
    } else {
        pair.0.meets(pair.1)
    }
}

/// The lines of `s` that hold the pairs.
pub open spec fn pair_lines(s: Seq<char>) -> Seq<Seq<char>> {
    split_terminator(trim(s), seq!['\n'])
}

/// Whether every line writes a pair of ranges.
pub open spec fn valid_pairs(lines: Seq<Seq<char>>) -> bool {
    forall|i: int| 0 <= i < lines.len() ==> pair_of(#[trigger] lines[i]) is Some
}

/// The number of lines whose pair counts.
pub open spec fn count_pairs(lines: Seq<Seq<char>>, nested: bool) -> int
    decreases lines.len(),
{
    if lines.len() == 0 {
        0
    } else {
        count_pairs(lines.drop_last(), nested) + if counts(pair_of(lines.last()).unwrap(), nested) {
            1int
        } else {
            0int
        }
    }
}

/// The two ranges of a line.
pub fn parse_line(s: &Vec<char>) -> (r: Option<(Range, Range)>)
    ensures
        r == pair_of(s@),
{
    let text = trimmed(s);
    let v = split_char(&text, ',');
    if v.len() < 2 {
        return None;
    }
    assert(views(v@)[0] == v@[0]@);
    assert(views(v@)[1] == v@[1]@);
    match (Range::from_chars(&v[0]), Range::from_chars(&v[1])) {
        (Some(a), Some(b)) => Some((a, b)),
        _ => None,
    }
}

/// The number of lines of `s` whose pair counts, or `None` where a line writes no pair or
/// the number is more than an `i64` holds.
pub fn count_lines(s: &str, nested: bool) -> (r: Option<i64>)
    ensures
        r is Some <==> valid_pairs(pair_lines(s@)) && count_pairs(pair_lines(s@), nested)
            <= i64::MAX,
        r is Some ==> r.unwrap() == count_pairs(pair_lines(s@), nested),
{
    let all = chars_of(s);
    let text = trimmed(&all);
    let feed = one_char('\n');
    let lines = split_terminator_on(&text, &feed);
    let mut count: usize = 0;
    let mut i: usize = 0;
    assert(views(lines@).take(0) =~= Seq::<Seq<char>>::empty());
    while i < lines.len()
        invariant
            i <= lines.len(),
            views(lines@) == pair_lines(s@),
            valid_pairs(views(lines@).take(i as int)),
            count == count_pairs(views(lines@).take(i as int), nested),
            0 <= count <= i,
        decreases lines.len() - i,
    {
        assert(views(lines@)[i as int] == lines@[i as int]@);
        proof {
            lemma_take_step(views(lines@), i as int);
        }
        let hit = match parse_line(&lines[i]) {
            Some((r1, r2)) => if nested {
                r1.does_fully_contain(&r2)
            } else {
                r1.does_overlap(&r2)
            },
            None => {
                return None;
            },
        };
        if hit {
            count += 1;
        }
        assert forall|j: int| 0 <= j < i + 1 implies pair_of(
            #[trigger] views(lines@).take(i + 1)[j],
        ) is Some by {
            if j < i {
                assert(views(lines@).take(i as int)[j] == views(lines@).take(i + 1)[j]);
            }
        }
        i += 1;
    }
    proof {
        assert(views(lines@).take(i as int) =~= views(lines@));
    }
    if count as u64 > 0x7fff_ffff_ffff_ffff {
        None
    } else {
        Some(count as i64)
    }
}

/// The number of pairs in which one range lies within the other.
pub fn num_fully_contained(s: &str) -> (n: i64)
    requires
        valid_pairs(pair_lines(s@)),
        count_pairs(pair_lines(s@), true) <= i64::MAX,
    ensures
        n == count_pairs(pair_lines(s@), true),
{
    match count_lines(s, true) {
        Some(n) => n,
        None => unreached(),
    }
}

/// The number of pairs whose ranges overlap.
pub fn num_overlapping(s: &str) -> (n: i64)
    requires
        valid_pairs(pair_lines(s@)),
        count_pairs(pair_lines(s@), false) <= i64::MAX,
    ensures
        n == count_pairs(pair_lines(s@), false),
{
    match count_lines(s, false) {
        Some(n) => n,
        None => unreached(),
    }
}

} // verus!
