//! Cubes of lava on a grid in space: the area of their sides that touch no other cube.

use crate::text::{
    parse_i64, rows_of, split, split_char, to_i64, trimmed_lines, trimmed_lines_of,
    trimmed_rows, views,
};
use vstd::arithmetic::div_mod::lemma_fundamental_div_mod_converse;
use vstd::set_lib::{lemma_int_range, lemma_len_subset, set_int_range};
use vstd::pervasive::unreached;
use vstd::prelude::*;

verus! {

/// A cube, by the place of one of its corners.
#[derive(Debug, Clone, Copy, Eq, PartialEq, Structural)]
pub struct Point {
    pub x: i64,
    pub y: i64,
    pub z: i64,
}

/// The distance between two numbers.
pub open spec fn gap(a: int, b: int) -> int {
    if a >= b {
        a - b
    } else {
        b - a
    }
}

/// The point that a text of the form `x,y,z` writes.
pub open spec fn point_of(s: Seq<char>) -> Option<Point> {
    let tokens = split(s, seq![',']);
    if tokens.len() == 3 && parse_i64(tokens[0]) is Some && parse_i64(tokens[1]) is Some
        && parse_i64(tokens[2]) is Some {
        Some(
            Point {
                x: parse_i64(tokens[0]).unwrap(),
                y: parse_i64(tokens[1]).unwrap(),
                z: parse_i64(tokens[2]).unwrap(),
            },
        )
    } else {
        None
    }
}

/// The points that the lines write, or `None` where a line writes none.
pub open spec fn points_of(lines: Seq<Seq<char>>) -> Option<Seq<Point>> {
    if forall|i: int| 0 <= i < lines.len() ==> point_of(#[trigger] lines[i]) is Some {
        Some(Seq::new(lines.len(), |i: int| point_of(lines[i]).unwrap()))
    } else {
        None
    }
}

impl Point {
    /// Whether the two cubes share a side: they differ by one in one direction and not
    /// at all in the others.
    pub open spec fn touches(self, other: Point) -> bool {
        gap(self.x as int, other.x as int) + gap(self.y as int, other.y as int) + gap(
            self.z as int,
            other.z as int,
        ) == 1
    }

    /// Whether this point comes before `other`, comparing `x`, then `y`, then `z`.
    pub open spec fn before(self, other: Point) -> bool {
        self.x < other.x || (self.x == other.x && (self.y < other.y || (self.y == other.y
            && self.z < other.z)))
    }

    /// Whether every coordinate lies from -1 to `bound`.
    pub open spec fn inside(self, bound: int) -> bool {
        -1 <= self.x <= bound && -1 <= self.y <= bound && -1 <= self.z <= bound
    }

    /// The six cubes that share a side with this one: one down and one up in `x`, then in
    /// `y`, then in `z`.
    pub open spec fn around(self) -> Seq<(int, int, int)> {
        seq![
            (self.x - 1, self.y as int, self.z as int),
            (self.x + 1, self.y as int, self.z as int),
            (self.x as int, self.y - 1, self.z as int),
            (self.x as int, self.y + 1, self.z as int),
            (self.x as int, self.y as int, self.z - 1),
            (self.x as int, self.y as int, self.z + 1),
        ]
    }

    /// The coordinates as integers.
    pub open spec fn coords(self) -> (int, int, int) {
        (self.x as int, self.y as int, self.z as int)
    }

    /// Reads a point of the form `x,y,z`.
    pub fn from_chars(s: &Vec<char>) -> (r: Option<Point>)
        ensures
            r == point_of(s@),
    {
        let tokens = split_char(s, ',');
        if tokens.len() != 3 {
            return None;
        }
        assert(views(tokens@)[0] == tokens@[0]@);
        assert(views(tokens@)[1] == tokens@[1]@);
        assert(views(tokens@)[2] == tokens@[2]@);
        match (to_i64(&tokens[0]), to_i64(&tokens[1]), to_i64(&tokens[2])) {
            (Some(x), Some(y), Some(z)) => Some(Point { x, y, z }),
            _ => None,
        }
    }

    /// The difference of the two points, coordinate by coordinate.
    pub fn sub(self, other: Point) -> (r: Point)
        requires
            i64::MIN <= self.x - other.x <= i64::MAX,
            i64::MIN <= self.y - other.y <= i64::MAX,
            i64::MIN <= self.z - other.z <= i64::MAX,
        ensures
            r.x == self.x - other.x,
            r.y == self.y - other.y,
            r.z == self.z - other.z,
    {
        Point { x: self.x - other.x, y: self.y - other.y, z: self.z - other.z }
    }

    /// The point with each coordinate made positive.
    pub fn abs(&self) -> (r: Point)
        requires
            self.x > i64::MIN,
            self.y > i64::MIN,
            self.z > i64::MIN,
        ensures
            r.x == gap(self.x as int, 0),
            r.y == gap(self.y as int, 0),
            r.z == gap(self.z as int, 0),
    {
        Point {
            x: if self.x < 0 {
                -self.x
            } else {
                self.x
            },
            y: if self.y < 0 {
                -self.y
            } else {
                self.y
            },
            z: if self.z < 0 {
                -self.z
            } else {
                self.z
            },
        }
    }

    /// Whether the two cubes share a side.
    pub fn is_adjacent(&self, other: &Point) -> (b: bool)
        ensures
            b == self.touches(*other),
    {
        let dx: i128 = self.x as i128 - other.x as i128;
        let dy: i128 = self.y as i128 - other.y as i128;
        let dz: i128 = self.z as i128 - other.z as i128;
        let ax = if dx < 0 {
            -dx
        } else {
            dx
        };
        let ay = if dy < 0 {
            -dy
        } else {
            dy
        };
        let az = if dz < 0 {
            -dz
        } else {
            dz
        };
        ax + ay + az == 1
    }

    /// Whether this point comes before `other`, comparing `x`, then `y`, then `z`.
    pub fn lt(&self, other: &Point) -> (b: bool)
        ensures
            b == self.before(*other),
    {
        self.x < other.x || (self.x == other.x && (self.y < other.y || (self.y == other.y
            && self.z < other.z)))
    }

    /// The six cubes that share a side with this one.
    pub fn neighbors(&self) -> (r: [Point; 6])
        requires
            i64::MIN < self.x < i64::MAX,
            i64::MIN < self.y < i64::MAX,
            i64::MIN < self.z < i64::MAX,
        ensures
            forall|k: int| 0 <= k < 6 ==> (#[trigger] r[k]).coords() == self.around()[k],
    {
        [
            Point { x: self.x - 1, y: self.y, z: self.z },
            Point { x: self.x + 1, y: self.y, z: self.z },
            Point { x: self.x, y: self.y - 1, z: self.z },
            Point { x: self.x, y: self.y + 1, z: self.z },
            Point { x: self.x, y: self.y, z: self.z - 1 },
            Point { x: self.x, y: self.y, z: self.z + 1 },
        ]
    }

    /// Whether every coordinate lies from -1 to `bound`.
    pub fn is_within(&self, bound: i64) -> (b: bool)
        ensures
            b == self.inside(bound as int),
    {
        -1 <= self.x && self.x <= bound && -1 <= self.y && self.y <= bound && -1 <= self.z
            && self.z <= bound
    }
}

/// Reads the points of `s`, one to a line.
pub fn read_points(s: &str) -> (r: Option<Vec<Point>>)
    ensures
        r is Some <==> points_of(trimmed_rows(s@)) is Some,
        r is Some ==> r.unwrap()@ == points_of(trimmed_rows(s@)).unwrap(),
{
    let lines = rows_of(s);
    let ghost rows = views(lines@);
    let mut points: Vec<Point> = Vec::new();
    let mut i: usize = 0;
    while i < lines.len()
        invariant
            i <= lines.len(),
            rows == views(lines@),
            rows == trimmed_rows(s@),
            points.len() == i,
            forall|k: int| 0 <= k < i ==> point_of(#[trigger] rows[k]) == Some(points@[k]),
        decreases lines.len() - i,
    {
        assert(rows[i as int] == lines@[i as int]@);
        match Point::from_chars(&lines[i]) {
            Some(point) => {
                points.push(point);
            },
            None => {
                return None;
            },
        }
        i += 1;
    }
    proof {
        assert(points_of(rows) is Some);
        assert(points@ =~= points_of(rows).unwrap());
    }
    Some(points)
}

/// Whether `pair` holds two cubes of `points` that share a side, the one that comes
/// before the other first.
pub open spec fn is_touching_pair(points: Seq<Point>, pair: (Point, Point)) -> bool {
    points.contains(pair.0) && points.contains(pair.1) && pair.0.touches(pair.1) && pair.0.before(
        pair.1,
    )
}

/// The pairs of cubes of `points` that share a side, each pair once.
pub open spec fn touching_pairs(points: Seq<Point>) -> Set<(Point, Point)> {
    Set::new(|pair: (Point, Point)| is_touching_pair(points, pair))
}

/// Six sides for each cube of the list, less two for each pair of cubes that share a
/// side. The area is never negative.
pub open spec fn open_sides(points: Seq<Point>) -> int {
    points.len() * 6 - touching_pairs(points).len() * 2
}

/// Adds `pair` to a list without repeats unless it is in it.
fn insert_pair(seen: &mut Vec<(Point, Point)>, pair: (Point, Point))
    requires
        old(seen)@.no_duplicates(),
    ensures
        final(seen)@.no_duplicates(),
        final(seen)@.to_set() == old(seen)@.to_set().insert(pair),
{
    let ghost before = seen@;
    let mut i: usize = 0;
    while i < seen.len()
        invariant
            i <= seen.len(),
            seen@ == old(seen)@,
            before == seen@,
            before.no_duplicates(),
            forall|k: int| 0 <= k < i ==> before[k] != pair,
        decreases seen.len() - i,
    {
        let other = seen[i];
        if other.0.x == pair.0.x && other.0.y == pair.0.y && other.0.z == pair.0.z && other.1.x
            == pair.1.x && other.1.y == pair.1.y && other.1.z == pair.1.z {
            assert(before.to_set() =~= before.to_set().insert(pair)) by {
                assert(before[i as int] == pair);
            }
            return ;
        }
        i += 1;
    }
    seen.push(pair);
    proof {
        let after = seen@;
        assert(after =~= before.push(pair));
        assert forall|a: int, b: int| 0 <= a < after.len() && 0 <= b < after.len() && a
            != b implies after[a] != after[b] by {
            if a < before.len() && b < before.len() {
                assert(before[a] != before[b]);
            }
        }
        assert(after.to_set() =~= before.to_set().insert(pair)) by {
            assert forall|x: (Point, Point)| after.to_set().contains(x) <==> before.to_set().insert(
                pair,
            ).contains(x) by {
                if after.to_set().contains(x) {
                    let k = choose|k: int| 0 <= k < after.len() && after[k] == x;
                    if k < before.len() {
                        assert(before[k] == x);
                    }
                }
                if before.to_set().contains(x) {
                    let k = choose|k: int| 0 <= k < before.len() && before[k] == x;
                    assert(after[k] == x);
                }
                if x == pair {
                    assert(after[before.len() as int] == x);
                }
            }
        }
    }
}

/// Whether `pair` holds the cubes at two places of `points`, the first of them before
/// row `i`, or in row `i` and the second before `j`, that share a side.
pub open spec fn found_by(points: Seq<Point>, i: int, j: int, pair: (Point, Point)) -> bool {
    exists|a: int, b: int|
        0 <= a < points.len() && 0 <= b < points.len() && (a < i || (a == i && b < j))
            && #[trigger] points[a].touches(#[trigger] points[b]) && ((points[a].before(points[b])
            && pair == (points[a], points[b])) || (!points[a].before(points[b]) && pair == (
            points[b],
            points[a],
        )))
}

/// The pairs of cubes of `points` that share a side.
pub fn adjacent_pairs(points: &Vec<Point>) -> (pairs: Vec<(Point, Point)>)
    ensures
        pairs@.no_duplicates(),
        pairs@.to_set() == touching_pairs(points@),
{
    let mut pairs: Vec<(Point, Point)> = Vec::new();
    let n = points.len();
    let mut i: usize = 0;
    while i < n
        invariant
            i <= n,
            n == points.len(),
            pairs@.no_duplicates(),
            forall|pair: (Point, Point)|
                pairs@.to_set().contains(pair) <==> found_by(points@, i as int, 0, pair),
        decreases n - i,
    {
        let mut j: usize = 0;
        while j < n
            invariant
                j <= n,
                i < n,
                n == points.len(),
                pairs@.no_duplicates(),
                forall|pair: (Point, Point)|
                    pairs@.to_set().contains(pair) <==> found_by(points@, i as int, j as int, pair),
            decreases n - j,
        {
            let ghost before = pairs@.to_set();
            let a = points[i];
            let b = points[j];
            if i != j && a.is_adjacent(&b) {
                let pair = if a.lt(&b) {
                    (a, b)
                } else {
                    (b, a)
                };
                insert_pair(&mut pairs, pair);
                assert forall|q: (Point, Point)| pairs@.to_set().contains(q) <==> found_by(
                    points@,
                    i as int,
                    j + 1,
                    q,
                ) by {
                    if found_by(points@, i as int, j as int, q) {
                        let (wa, wb) = choose|wa: int, wb: int|
                            0 <= wa < points@.len() && 0 <= wb < points@.len() && (wa < i || (wa
                                == i && wb < j)) && #[trigger] points@[wa].touches(
                                #[trigger] points@[wb],
                            ) && ((points@[wa].before(points@[wb]) && q == (points@[wa], points@[wb]))
                                || (!points@[wa].before(points@[wb]) && q == (
                                points@[wb],
                                points@[wa],
                            )));
                        assert(points@[wa].touches(points@[wb]));
                    }
                    if q == pair {
                        assert(points@[i as int].touches(points@[j as int]));
                    }
                    if found_by(points@, i as int, j + 1, q) {
                        let (wa, wb) = choose|wa: int, wb: int|
                            0 <= wa < points@.len() && 0 <= wb < points@.len() && (wa < i || (wa
                                == i && wb < j + 1)) && #[trigger] points@[wa].touches(
                                #[trigger] points@[wb],
                            ) && ((points@[wa].before(points@[wb]) && q == (points@[wa], points@[wb]))
                                || (!points@[wa].before(points@[wb]) && q == (
                                points@[wb],
                                points@[wa],
                            )));
                        if wa == i && wb == j {
                            assert(q == pair);
                        } else {
                            assert(points@[wa].touches(points@[wb]));
                            assert(found_by(points@, i as int, j as int, q));
                        }
                    }
                }
            } else {
                assert forall|q: (Point, Point)| found_by(points@, i as int, j + 1, q) implies found_by(
                    points@,
                    i as int,
                    j as int,
                    q,
                ) by {
                    let (wa, wb) = choose|wa: int, wb: int|
                        0 <= wa < points@.len() && 0 <= wb < points@.len() && (wa < i || (wa == i
                            && wb < j + 1)) && #[trigger] points@[wa].touches(#[trigger] points@[wb])
                            && ((points@[wa].before(points@[wb]) && q == (points@[wa], points@[wb]))
                            || (!points@[wa].before(points@[wb]) && q == (points@[wb], points@[wa])));
                    assert(points@[wa].touches(points@[wb]));
                    assert(!(wa == i && wb == j));
                }
                assert forall|q: (Point, Point)| found_by(points@, i as int, j as int, q) implies found_by(
                    points@,
                    i as int,
                    j + 1,
                    q,
                ) by {
                    let (wa, wb) = choose|wa: int, wb: int|
                        0 <= wa < points@.len() && 0 <= wb < points@.len() && (wa < i || (wa == i
                            && wb < j)) && #[trigger] points@[wa].touches(#[trigger] points@[wb])
                            && ((points@[wa].before(points@[wb]) && q == (points@[wa], points@[wb]))
                            || (!points@[wa].before(points@[wb]) && q == (points@[wb], points@[wa])));
                    assert(points@[wa].touches(points@[wb]));
                }
            }
            j += 1;
        }
        assert forall|q: (Point, Point)| found_by(points@, i as int, n as int, q) <==> found_by(
            points@,
            i + 1,
            0,
            q,
        ) by {
            if found_by(points@, i as int, n as int, q) {
                let (wa, wb) = choose|wa: int, wb: int|
                    0 <= wa < points@.len() && 0 <= wb < points@.len() && (wa < i || (wa == i && wb
                        < n)) && #[trigger] points@[wa].touches(#[trigger] points@[wb]) && ((
                    points@[wa].before(points@[wb]) && q == (points@[wa], points@[wb])) || (
                    !points@[wa].before(points@[wb]) && q == (points@[wb], points@[wa])));
                assert(points@[wa].touches(points@[wb]));
            }
            if found_by(points@, i + 1, 0, q) {
                let (wa, wb) = choose|wa: int, wb: int|
                    0 <= wa < points@.len() && 0 <= wb < points@.len() && (wa < i + 1 || (wa == i
                        + 1 && wb < 0)) && #[trigger] points@[wa].touches(#[trigger] points@[wb])
                        && ((points@[wa].before(points@[wb]) && q == (points@[wa], points@[wb]))
                        || (!points@[wa].before(points@[wb]) && q == (points@[wb], points@[wa])));
                assert(points@[wa].touches(points@[wb]));
            }
        }
        i += 1;
    }
    proof {
        assert forall|q: (Point, Point)| pairs@.to_set().contains(q) <==> touching_pairs(
            points@,
        ).contains(q) by {
            if found_by(points@, n as int, 0, q) {
                let (wa, wb) = choose|wa: int, wb: int|
                    0 <= wa < points@.len() && 0 <= wb < points@.len() && (wa < n || (wa == n && wb
                        < 0)) && #[trigger] points@[wa].touches(#[trigger] points@[wb]) && ((
                    points@[wa].before(points@[wb]) && q == (points@[wa], points@[wb])) || (
                    !points@[wa].before(points@[wb]) && q == (points@[wb], points@[wa])));
                assert(points@.contains(points@[wa]) && points@.contains(points@[wb]));
                lemma_touch_is_symmetric(points@[wa], points@[wb]);
            }
            if is_touching_pair(points@, q) {
                let wa = choose|k: int| 0 <= k < points@.len() && points@[k] == q.0;
                let wb = choose|k: int| 0 <= k < points@.len() && points@[k] == q.1;
                assert(points@[wa].touches(points@[wb]));
            }
        }
        assert(pairs@.to_set() =~= touching_pairs(points@));
    }
    pairs
}

/// Two cubes share a side whichever is named first, and of two that do, one comes before
/// the other.
pub proof fn lemma_touch_is_symmetric(a: Point, b: Point)
    requires
        a.touches(b),
    ensures
        b.touches(a),
        a.before(b) || b.before(a),
{
}

/// A place of the cube `a` in the list.
pub open spec fn place_in(points: Seq<Point>, a: Point) -> int {
    choose|i: int| 0 <= i < points.len() && points[i] == a
}

/// The side of the cube `a` on which the cube `b` lies, as a number below 6.
pub open spec fn side_of(a: Point, b: Point) -> int {
    if b.x == a.x - 1 {
        0
    } else if b.x == a.x + 1 {
        1
    } else if b.y == a.y - 1 {
        2
    } else if b.y == a.y + 1 {
        3
    } else if b.z == a.z - 1 {
        4
    } else {
        5
    }
}

/// A number for the side of the cube `a` that the cube `b` covers: no two covered sides
/// of cubes of the list have the same.
pub open spec fn side_code(points: Seq<Point>, a: Point, b: Point) -> int {
    6 * place_in(points, a) + side_of(a, b)
}

/// The numbers of the two sides that each pair covers: first the sides of the first
/// cubes of the pairs, then those of the second.
pub open spec fn side_codes(points: Seq<Point>, pairs: Seq<(Point, Point)>) -> Seq<int> {
    Seq::new(
        2 * pairs.len(),
        |k: int|
            if k < pairs.len() {
                side_code(points, pairs[k].0, pairs[k].1)
            } else {
                side_code(points, pairs[k - pairs.len()].1, pairs[k - pairs.len()].0)
            },
    )
}

/// Two covered sides with one number are one side: of one cube, and covered by one cube.
pub proof fn lemma_side_code(points: Seq<Point>, a: Point, b: Point, c: Point, d: Point)
    requires
        points.contains(a),
        points.contains(c),
        a.touches(b),
        c.touches(d),
        side_code(points, a, b) == side_code(points, c, d),
    ensures
        a == c,
        b == d,
        0 <= side_code(points, a, b) < 6 * points.len(),
{
    let i = place_in(points, a);
    let j = place_in(points, c);
    assert(0 <= i < points.len() && points[i] == a);
    assert(0 <= j < points.len() && points[j] == c);
    let x = side_code(points, a, b);
    lemma_fundamental_div_mod_converse(x, 6, i, side_of(a, b));
    lemma_fundamental_div_mod_converse(x, 6, j, side_of(c, d));
}

/// Each pair of cubes that share a side covers two sides, and a cube has six: twice the
/// number of pairs is at most six times the number of cubes.
pub proof fn lemma_pairs_bound(points: Seq<Point>, pairs: Seq<(Point, Point)>)
    requires
        pairs.no_duplicates(),
        forall|k: int| 0 <= k < pairs.len() ==> is_touching_pair(points, #[trigger] pairs[k]),
    ensures
        2 * pairs.len() <= 6 * points.len(),
{
    let n = pairs.len() as int;
    let cs = side_codes(points, pairs);
    assert forall|k: int| 0 <= k < cs.len() implies 0 <= #[trigger] cs[k] < 6 * points.len() by {
        if k < n {
            assert(is_touching_pair(points, pairs[k]));
            lemma_side_code(points, pairs[k].0, pairs[k].1, pairs[k].0, pairs[k].1);
        } else {
            assert(is_touching_pair(points, pairs[k - n]));
            lemma_touch_is_symmetric(pairs[k - n].0, pairs[k - n].1);
            lemma_side_code(points, pairs[k - n].1, pairs[k - n].0, pairs[k - n].1, pairs[k - n].0);
        }
    }
    assert forall|i: int, j: int| 0 <= i < cs.len() && 0 <= j < cs.len() && i != j implies cs[i]
        != cs[j] by {
        let p = if i < n {
            pairs[i]
        } else {
            pairs[i - n]
        };
        let q = if j < n {
            pairs[j]
        } else {
            pairs[j - n]
        };
        assert(is_touching_pair(points, p) && is_touching_pair(points, q));
        lemma_touch_is_symmetric(p.0, p.1);
        lemma_touch_is_symmetric(q.0, q.1);
        if cs[i] == cs[j] {
            if i < n && j < n {
                lemma_side_code(points, p.0, p.1, q.0, q.1);
                assert(pairs[i] == pairs[j]);
            } else if i >= n && j >= n {
                lemma_side_code(points, p.1, p.0, q.1, q.0);
                assert(pairs[i - n] == pairs[j - n]);
            } else if i < n {
                lemma_side_code(points, p.0, p.1, q.1, q.0);
                assert(p.0.before(p.1) && p.1.before(p.0));
            } else {
                lemma_side_code(points, p.1, p.0, q.0, q.1);
                assert(q.0.before(q.1) && q.1.before(q.0));
            }
        }
    }
    cs.unique_seq_to_set();
    if points.len() > 0 || cs.len() > 0 {
        lemma_int_range(0, 6 * (points.len() as int));
        assert(cs.to_set().subset_of(set_int_range(0, 6 * (points.len() as int)))) by {
            assert forall|x: int| cs.to_set().contains(x) implies set_int_range(
                0,
                6 * (points.len() as int),
            ).contains(x) by {
                let k = choose|k: int| 0 <= k < cs.len() && cs[k] == x;
                assert(0 <= cs[k] < 6 * points.len());
            }
        }
        lemma_len_subset(cs.to_set(), set_int_range(0, 6 * (points.len() as int)));
    }
}

/// The area of the sides of the cubes of `s` that no other cube covers: six for each
/// line, less two for each pair of cubes that share a side.
pub fn surface_area(s: &str) -> (area: usize)
    requires
        points_of(trimmed_rows(s@)) is Some,
        open_sides(points_of(trimmed_rows(s@)).unwrap()) <= usize::MAX,
    ensures
        area == open_sides(points_of(trimmed_rows(s@)).unwrap()),
{
    let points = match read_points(s) {
        Some(points) => points,
        None => unreached(),
    };
    let pairs = adjacent_pairs(&points);
    proof {
        pairs@.unique_seq_to_set();
        assert forall|k: int| 0 <= k < pairs@.len() implies is_touching_pair(
            points@,
            #[trigger] pairs@[k],
        ) by {
            assert(pairs@.to_set().contains(pairs@[k]));
        }
        lemma_pairs_bound(points@, pairs@);
    }
    (points.len() as u128 * 6 - pairs.len() as u128 * 2) as usize
}

/// The places of the cubes of a list.
pub open spec fn cells_of(points: Seq<Point>) -> Set<(int, int, int)> {
    Set::new(
        |c: (int, int, int)| exists|i: int| 0 <= i < points.len() && #[trigger] points[i].coords() == c,
    )
}

/// Whether the two places differ by one in one direction and not at all in the others.
pub open spec fn beside(a: (int, int, int), b: (int, int, int)) -> bool {
    gap(a.0, b.0) + gap(a.1, b.1) + gap(a.2, b.2) == 1
}

/// Whether steam can be at `c`: no cube is there, and every coordinate lies from -1 to
/// `bound`.
pub open spec fn open_air(lava: Set<(int, int, int)>, bound: int, c: (int, int, int)) -> bool {
    !lava.contains(c) && -1 <= c.0 <= bound && -1 <= c.1 <= bound && -1 <= c.2 <= bound
}

/// Whether `path` is a way of the steam: it starts at the origin, has a step, and every
/// step goes to a place beside the one before where steam can be.
pub open spec fn steam_way(lava: Set<(int, int, int)>, bound: int, path: Seq<(int, int, int)>) -> bool {
    &&& path.len() >= 2
    &&& path[0] == (0int, 0int, 0int)
    &&& forall|i: int|
        1 <= i < path.len() ==> open_air(lava, bound, #[trigger] path[i]) && beside(
            path[i - 1],
            path[i],
        )
}

/// Whether the steam that starts at the origin reaches `c`.
pub open spec fn steamed(lava: Set<(int, int, int)>, bound: int, c: (int, int, int)) -> bool {
    exists|path: Seq<(int, int, int)>| #[trigger] steam_way(lava, bound, path) && path.last() == c
}

/// The number of the first `k` sides of the cube `p` that the steam reaches.
pub open spec fn steamed_sides(lava: Set<(int, int, int)>, bound: int, p: Point, k: int) -> nat
    decreases k,
{
    if k <= 0 {
        0
    } else {
        steamed_sides(lava, bound, p, k - 1) + if steamed(lava, bound, p.around()[k - 1]) {
            1nat
        } else {
            0nat
        }
    }
}

/// Whether the cube at place `i` of the list stands at no earlier place of it.
pub open spec fn is_first(points: Seq<Point>, i: int) -> bool {
    forall|j: int| 0 <= j < i ==> (#[trigger] points[j]).coords() != points[i].coords()
}

/// The number of sides that the steam reaches, of the first `n` cubes of the list, each
/// cube counted once.
pub open spec fn outer_sides(points: Seq<Point>, bound: int, n: int) -> nat
    decreases n,
{
    if n <= 0 {
        0
    } else {
        outer_sides(points, bound, n - 1) + if is_first(points, n - 1) {
            steamed_sides(cells_of(points), bound, points[n - 1], 6)
        } else {
            0nat
        }
    }
}

/// The greatest coordinate of the first `n` cubes; the least `i64` where there is none.
pub open spec fn greatest_coord(points: Seq<Point>, n: int) -> int
    decreases n,
{
    if n <= 0 {
        i64::MIN as int
    } else {
        let m = greatest_coord(points, n - 1);
        let p = points[n - 1];
        let a = if p.z > m {
            p.z as int
        } else {
            m
        };
        let b = if p.y > a {
            p.y as int
        } else {
            a
        };
        if p.x > b {
            p.x as int
        } else {
            b
        }
    }
}

/// One more than the greatest coordinate of the cubes.
pub open spec fn bound_of(points: Seq<Point>) -> int {
    greatest_coord(points, points.len() as int) + 1
}

/// Whether no coordinate of a cube is the least or the greatest number of an `i64`.
pub open spec fn inner_coords(points: Seq<Point>) -> bool {
    forall|i: int|
        0 <= i < points.len() ==> i64::MIN < (#[trigger] points[i]).x < i64::MAX && i64::MIN
            < points[i].y < i64::MAX && i64::MIN < points[i].z < i64::MAX
}

/// The number of `false` in `s`.
pub open spec fn count_false(s: Seq<bool>) -> nat
    decreases s.len(),
{
    if s.len() == 0 {
        0
    } else {
        count_false(s.drop_last()) + if s.last() {
            0nat
        } else {
            1nat
        }
    }
}

/// Where a `false` becomes `true` there is one `false` less.
pub proof fn lemma_count_false_update(s: Seq<bool>, i: int)
    requires
        0 <= i < s.len(),
        !s[i],
    ensures
        count_false(s.update(i, true)) == count_false(s) - 1,
        count_false(s) >= 1,
    decreases s.len(),
{
    let t = s.update(i, true);
    if i == s.len() - 1 {
        assert(t.drop_last() =~= s.drop_last());
    } else {
        lemma_count_false_update(s.drop_last(), i);
        assert(t.drop_last() =~= s.drop_last().update(i, true));
    }
}

/// The place in the list of marks of the cell `c` in a box of `n` cells each way whose
/// coordinates start at -1.
pub open spec fn mark_index(n: int, c: (int, int, int)) -> int {
    ((c.0 + 1) * n + (c.1 + 1)) * n + (c.2 + 1)
}

/// Whether every coordinate of `c` lies from -1 to `n - 2`.
pub open spec fn in_box(n: int, c: (int, int, int)) -> bool {
    -1 <= c.0 <= n - 2 && -1 <= c.1 <= n - 2 && -1 <= c.2 <= n - 2
}

/// Whether the cell `c` of the box is marked.
pub open spec fn marked(seen: Seq<bool>, n: int, c: (int, int, int)) -> bool {
    in_box(n, c) && seen[mark_index(n, c)]
}

/// Two cells of the box have two places in the list of marks, and each place lies in
/// the list.
pub proof fn lemma_mark_index(n: int, a: (int, int, int), b: (int, int, int))
    requires
        in_box(n, a),
        in_box(n, b),
        n >= 1,
    ensures
        0 <= mark_index(n, a) < n * n * n,
        mark_index(n, a) == mark_index(n, b) ==> a == b,
{
    assert(0 <= ((a.0 + 1) * n + (a.1 + 1)) * n + (a.2 + 1) < n * n * n) by (nonlinear_arith)
        requires
            0 <= a.0 + 1 <= n - 1,
            0 <= a.1 + 1 <= n - 1,
            0 <= a.2 + 1 <= n - 1,
    ;
    if mark_index(n, a) == mark_index(n, b) {
        let x = mark_index(n, a);
        lemma_fundamental_div_mod_converse(x, n, (a.0 + 1) * n + (a.1 + 1), a.2 + 1);
        lemma_fundamental_div_mod_converse(x, n, (b.0 + 1) * n + (b.1 + 1), b.2 + 1);
        let y = (a.0 + 1) * n + (a.1 + 1);
        lemma_fundamental_div_mod_converse(y, n, a.0 + 1, a.1 + 1);
        lemma_fundamental_div_mod_converse(y, n, b.0 + 1, b.1 + 1);
    }
}

/// A place beside the cube `p` is one of the six around it, and each of those is beside
/// it.
pub proof fn lemma_around(p: Point, c: (int, int, int))
    ensures
        beside(p.coords(), c) <==> exists|k: int| 0 <= k < 6 && #[trigger] p.around()[k] == c,
{
    if beside(p.coords(), c) {
        let k = if c.0 == p.x - 1 {
            0int
        } else if c.0 == p.x + 1 {
            1int
        } else if c.1 == p.y - 1 {
            2int
        } else if c.1 == p.y + 1 {
            3int
        } else if c.2 == p.z - 1 {
            4int
        } else {
            5int
        };
        assert(p.around()[k] == c);
    }
}

/// Whether every place beside `q` where steam can be is marked.
pub open spec fn closed_at(
    lava: Set<(int, int, int)>,
    bound: int,
    seen: Seq<bool>,
    n: int,
    q: (int, int, int),
) -> bool {
    forall|c: (int, int, int)| #[trigger] beside(q, c) && open_air(lava, bound, c) ==> marked(seen, n, c)
}

/// Whether `q` is the place of a cube of the list.
pub open spec fn listed(stack: Seq<Point>, q: (int, int, int)) -> bool {
    exists|k: int| 0 <= k < stack.len() && #[trigger] stack[k].coords() == q
}

/// Where every marked cell and the origin have all places beside them marked where steam
/// can be, every place that the steam reaches is marked.
pub proof fn lemma_flood_complete(
    lava: Set<(int, int, int)>,
    bound: int,
    seen: Seq<bool>,
    n: int,
    path: Seq<(int, int, int)>,
)
    requires
        steam_way(lava, bound, path),
        closed_at(lava, bound, seen, n, (0int, 0int, 0int)),
        forall|q: (int, int, int)| #[trigger] marked(seen, n, q) ==> closed_at(lava, bound, seen, n, q),
    ensures
        marked(seen, n, path.last()),
    decreases path.len(),
{
    let last = path.last();
    let prev = path[path.len() - 2];
    assert(open_air(lava, bound, path[path.len() - 1]) && beside(prev, last));
    if path.len() == 2 {
        assert(beside((0int, 0int, 0int), last));
    } else {
        let front = path.drop_last();
        assert forall|i: int| 1 <= i < front.len() implies open_air(
            lava,
            bound,
            #[trigger] front[i],
        ) && beside(front[i - 1], front[i]) by {
            assert(front[i] == path[i]);
        }
        lemma_flood_complete(lava, bound, seen, n, front);
        assert(marked(seen, n, prev));
        assert(closed_at(lava, bound, seen, n, prev));
        assert(beside(prev, last));
    }
}

/// Whether a cube of the list stands at the place of `p`.
pub fn is_lava(points: &Vec<Point>, p: &Point) -> (b: bool)
    ensures
        b == cells_of(points@).contains(p.coords()),
{
    let mut i: usize = 0;
    while i < points.len()
        invariant
            i <= points.len(),
            forall|j: int| 0 <= j < i ==> (#[trigger] points@[j]).coords() != p.coords(),
        decreases points.len() - i,
    {
        let q = points[i];
        if q.x == p.x && q.y == p.y && q.z == p.z {
            assert(points@[i as int].coords() == p.coords());
            return true;
        }
        i += 1;
    }
    false
}

/// One more than the greatest coordinate of the cubes.
pub fn bound(points: &Vec<Point>) -> (b: i64)
    requires
        inner_coords(points@),
    ensures
        b == bound_of(points@),
{
    let mut max: i64 = i64::MIN;
    let mut i: usize = 0;
    while i < points.len()
        invariant
            i <= points.len(),
            inner_coords(points@),
            max == greatest_coord(points@, i as int),
            max < i64::MAX,
        decreases points.len() - i,
    {
        let p = points[i];
        if p.z > max {
            max = p.z;
        }
        if p.y > max {
            max = p.y;
        }
        if p.x > max {
            max = p.x;
        }
        i += 1;
    }
    max + 1
}

/// The place in the list of marks of the cell at `p`.
fn index_of(n: usize, p: &Point) -> (i: usize)
    requires
        1 <= n <= 0x8000_0000_0000_0000,
        in_box(n as int, p.coords()),
        n * n * n <= usize::MAX,
    ensures
        i == mark_index(n as int, p.coords()),
        i < n * n * n,
{
    proof {
        lemma_mark_index(n as int, p.coords(), p.coords());
    }
    let a = (p.x + 1) as usize;
    let b = (p.y + 1) as usize;
    let c = (p.z + 1) as usize;
    assert(a * n + b < n * n && (a * n + b) * n + c < n * n * n) by (nonlinear_arith)
        requires
            0 <= a <= n - 1,
            0 <= b <= n - 1,
            0 <= c <= n - 1,
    ;
    assert(n * n <= n * n * n) by (nonlinear_arith)
        requires
            n >= 1,
    ;
    (a * n + b) * n + c
}

/// Floods the box around the cubes with steam from the origin and gives the marks of the
/// cells that it reaches. The box has `n` cells each way.
pub fn flood(points: &Vec<Point>, bound: i64, n: usize) -> (seen: Vec<bool>)
    requires
        -1 <= bound < i64::MAX,
        n == bound + 2,
        n * n * n <= usize::MAX,
    ensures
        seen@.len() == n * n * n,
        forall|c: (int, int, int)|
            #[trigger] marked(seen@, n as int, c) <==> steamed(cells_of(points@), bound as int, c),
{
    let ghost lava = cells_of(points@);
    let ghost origin = (0int, 0int, 0int);
    assert(n * n <= n * n * n) by (nonlinear_arith)
        requires
            n >= 1,
    ;
    let total = n * n * n;
    let mut seen: Vec<bool> = Vec::new();
    let mut i: usize = 0;
    while i < total
        invariant
            i <= total,
            seen@.len() == i,
            forall|k: int| 0 <= k < i ==> !seen@[k],
        decreases total - i,
    {
        seen.push(false);
        i += 1;
    }
    let mut stack: Vec<Point> = Vec::new();
    stack.push(Point { x: 0, y: 0, z: 0 });
    proof {
        assert(stack@[0].coords() == origin);
        assert forall|c: (int, int, int)| !#[trigger] marked(seen@, n as int, c) by {
            if in_box(n as int, c) {
                lemma_mark_index(n as int, c, c);
            }
        }
    }
    while stack.len() > 0
        invariant
            -1 <= bound < i64::MAX,
            n == bound + 2,
            n >= 1,
            total == n * n * n,
            total <= usize::MAX,
            seen@.len() == total,
            lava == cells_of(points@),
            origin == (0int, 0int, 0int),
            forall|c: (int, int, int)|
                #[trigger] marked(seen@, n as int, c) ==> steamed(lava, bound as int, c),
            forall|k: int|
                0 <= k < stack@.len() ==> (#[trigger] stack@[k]).coords() == origin || marked(
                    seen@,
                    n as int,
                    stack@[k].coords(),
                ),
            listed(stack@, origin) || closed_at(lava, bound as int, seen@, n as int, origin),
            forall|q: (int, int, int)|
                #[trigger] marked(seen@, n as int, q) ==> listed(stack@, q) || closed_at(
                    lava,
                    bound as int,
                    seen@,
                    n as int,
                    q,
                ),
        decreases 7 * count_false(seen@) + stack@.len(),
    {
        let ghost old_stack = stack@;
        let ghost unseen = count_false(seen@);
        let p = match stack.pop() {
            Some(p) => p,
            None => unreached(),
        };
        let ghost pc = p.coords();
        assert(old_stack[old_stack.len() - 1].coords() == pc);
        assert(pc == origin || marked(seen@, n as int, pc));
        proof {
            assert forall|q: (int, int, int)| q != pc && listed(old_stack, q) implies listed(
                stack@,
                q,
            ) by {
                let k = choose|k: int| 0 <= k < old_stack.len() && #[trigger] old_stack[k].coords() == q;
                assert(stack@[k].coords() == q);
            }
        }
        let around = p.neighbors();
        let ghost mut pushed: int = 0;
        let mut k: usize = 0;
        while k < 6
            invariant
                k <= 6,
                -1 <= bound < i64::MAX,
                n == bound + 2,
                n >= 1,
                total == n * n * n,
                total <= usize::MAX,
                seen@.len() == total,
                lava == cells_of(points@),
                origin == (0int, 0int, 0int),
                pc == p.coords(),
                pc == origin || in_box(n as int, pc),
                pc == origin || steamed(lava, bound as int, pc),
                forall|m: int| 0 <= m < 6 ==> (#[trigger] around@[m]).coords() == p.around()[m],
                0 <= pushed <= k,
                count_false(seen@) + pushed == unseen,
                stack@.len() == old_stack.len() - 1 + pushed,
                forall|c: (int, int, int)|
                    #[trigger] marked(seen@, n as int, c) ==> steamed(lava, bound as int, c),
                forall|j: int|
                    0 <= j < stack@.len() ==> (#[trigger] stack@[j]).coords() == origin || marked(
                        seen@,
                        n as int,
                        stack@[j].coords(),
                    ),
                origin == pc || listed(stack@, origin) || closed_at(
                    lava,
                    bound as int,
                    seen@,
                    n as int,
                    origin,
                ),
                forall|q: (int, int, int)|
                    #[trigger] marked(seen@, n as int, q) ==> q == pc || listed(stack@, q)
                        || closed_at(lava, bound as int, seen@, n as int, q),
                forall|m: int|
                    0 <= m < k && open_air(lava, bound as int, #[trigger] p.around()[m]) ==> marked(
                        seen@,
                        n as int,
                        p.around()[m],
                    ),
            decreases 6 - k,
        {
            let point = around[k];
            let ghost c = point.coords();
            assert(c == p.around()[k as int]);
            let ghost old_seen = seen@;
            let ghost before = stack@;
            if point.is_within(bound) && !is_lava(points, &point) {
                let at = index_of(n, &point);
                if !seen[at] {
                    seen.set(at, true);
                    stack.push(point);
                    proof {
                        pushed = pushed + 1;
                        lemma_count_false_update(old_seen, at as int);
                        assert(stack@[before.len() as int].coords() == c);
                        assert forall|x: (int, int, int)| #[trigger] marked(seen@, n as int, x)
                            <==> (marked(old_seen, n as int, x) || x == c) by {
                            if in_box(n as int, x) {
                                lemma_mark_index(n as int, x, c);
                            }
                        }
                        // The steam reaches the new cell by way of `p`.
                        lemma_around(p, c);
                        if pc == origin {
                            let path = seq![origin, c];
                            assert(steam_way(lava, bound as int, path));
                            assert(path.last() == c);
                        } else {
                            let way = choose|path: Seq<(int, int, int)>|
                                #[trigger] steam_way(lava, bound as int, path) && path.last() == pc;
                            let path = way.push(c);
                            assert forall|i: int| 1 <= i < path.len() implies open_air(
                                lava,
                                bound as int,
                                #[trigger] path[i],
                            ) && beside(path[i - 1], path[i]) by {
                                if i < way.len() {
                                    assert(path[i] == way[i]);
                                    assert(path[i - 1] == way[i - 1]);
                                }
                            }
                            assert(steam_way(lava, bound as int, path));
                            assert(path.last() == c);
                        }
                        assert(steamed(lava, bound as int, c));
                        assert forall|q: (int, int, int)| listed(before, q) implies listed(
                            stack@,
                            q,
                        ) by {
                            let j = choose|j: int| 0 <= j < before.len() && #[trigger] before[j].coords() == q;
                            assert(stack@[j].coords() == q);
                        }
                        assert(listed(stack@, c));
                        assert forall|q: (int, int, int)| closed_at(
                            lava,
                            bound as int,
                            old_seen,
                            n as int,
                            q,
                        ) implies closed_at(lava, bound as int, seen@, n as int, q) by {
                            assert forall|x: (int, int, int)| #[trigger] beside(q, x) && open_air(
                                lava,
                                bound as int,
                                x,
                            ) implies marked(seen@, n as int, x) by {
                                assert(marked(old_seen, n as int, x));
                            }
                        }
                        assert forall|j: int| 0 <= j < stack@.len() implies (
                        #[trigger] stack@[j]).coords() == origin || marked(
                            seen@,
                            n as int,
                            stack@[j].coords(),
                        ) by {
                            if j < before.len() {
                                assert(stack@[j] == before[j]);
                            }
                        }
                    }
                } else {
                    assert(marked(seen@, n as int, c));
                }
            }
            k += 1;
        }
        proof {
            assert(closed_at(lava, bound as int, seen@, n as int, pc)) by {
                assert forall|c: (int, int, int)| #[trigger] beside(pc, c) && open_air(
                    lava,
                    bound as int,
                    c,
                ) implies marked(seen@, n as int, c) by {
                    lemma_around(p, c);
                    let m = choose|m: int| 0 <= m < 6 && #[trigger] p.around()[m] == c;
                    assert(open_air(lava, bound as int, p.around()[m]));
                }
            }
        }
    }
    proof {
        assert(!listed(stack@, origin));
        assert forall|c: (int, int, int)| steamed(lava, bound as int, c) implies #[trigger] marked(
            seen@,
            n as int,
            c,
        ) by {
            let path = choose|path: Seq<(int, int, int)>|
                #[trigger] steam_way(lava, bound as int, path) && path.last() == c;
            assert forall|q: (int, int, int)| #[trigger] marked(seen@, n as int, q) implies closed_at(
                lava,
                bound as int,
                seen@,
                n as int,
                q,
            ) by {
                assert(!listed(stack@, q));
            }
            lemma_flood_complete(lava, bound as int, seen@, n as int, path);
        }
    }
    seen
}

/// Whether the steam reaches the lava-free place `p`, by the marks of a flood.
fn is_steamed(seen: &Vec<bool>, n: usize, p: &Point, Ghost(lava): Ghost<Set<(int, int, int)>>, bound: i64) -> (b: bool)
    requires
        -1 <= bound < i64::MAX,
        n == bound + 2,
        n * n * n <= usize::MAX,
        seen@.len() == n * n * n,
        forall|c: (int, int, int)|
            #[trigger] marked(seen@, n as int, c) <==> steamed(lava, bound as int, c),
    ensures
        b == steamed(lava, bound as int, p.coords()),
{
    if p.is_within(bound) {
        let at = index_of(n, p);
        assert(marked(seen@, n as int, p.coords()) == seen@[at as int]);
        seen[at]
    } else {
        assert(!marked(seen@, n as int, p.coords()));
        false
    }
}

/// Whether every coordinate of every cube lies strictly between the least and the
/// greatest number of an `i64`.
pub fn has_inner_coords(points: &Vec<Point>) -> (b: bool)
    ensures
        b == inner_coords(points@),
{
    let mut i: usize = 0;
    while i < points.len()
        invariant
            i <= points.len(),
            forall|k: int|
                0 <= k < i ==> i64::MIN < (#[trigger] points@[k]).x < i64::MAX && i64::MIN
                    < points@[k].y < i64::MAX && i64::MIN < points@[k].z < i64::MAX,
        decreases points.len() - i,
    {
        let p = points[i];
        if p.x == i64::MIN || p.x == i64::MAX || p.y == i64::MIN || p.y == i64::MAX || p.z
            == i64::MIN || p.z == i64::MAX {
            return false;
        }
        i += 1;
    }
    true
}

/// The number of cells of the box that the steam floods: the cube of two more than the
/// bound, or none for a bound below -1.
pub open spec fn flood_size(bound: int) -> int {
    if bound < -1 {
        0
    } else {
        (bound + 2) * (bound + 2) * (bound + 2)
    }
}

/// The area of the sides of the cubes of `points` that steam from the origin reaches,
/// or `None` where a coordinate is the least or the greatest number of an `i64`, or the
/// box to flood has more cells, or the cubes more such sides, than a `usize` counts.
pub fn outer_area(points: &Vec<Point>) -> (r: Option<usize>)
    ensures
        r is Some <==> inner_coords(points@) && flood_size(bound_of(points@)) <= usize::MAX
            && outer_sides(points@, bound_of(points@), points@.len() as int) <= usize::MAX,
        r is Some ==> r.unwrap() == outer_sides(
            points@,
            bound_of(points@),
            points@.len() as int,
        ),
{
    if !has_inner_coords(points) {
        return None;
    }
    let limit = bound(points);
    let ghost lava = cells_of(points@);
    if limit < -1 {
        proof {
            assert forall|c: (int, int, int)| !steamed(lava, limit as int, c) by {
                if steamed(lava, limit as int, c) {
                    let path = choose|path: Seq<(int, int, int)>|
                        #[trigger] steam_way(lava, limit as int, path) && path.last() == c;
                    assert(open_air(lava, limit as int, path[1]));
                }
            }
            lemma_no_steam(points@, limit as int, points@.len() as int);
        }
        return Some(0);
    }
    let wide: u128 = (limit as i128 + 2) as u128;
    if wide > 2642245 {
        assert(wide * wide * wide > 0xffff_ffff_ffff_ffff) by (nonlinear_arith)
            requires
                wide >= 2642246,
        ;
        return None;
    }
    assert(wide * wide <= 2642245 * 2642245 && wide * wide * wide <= 2642245 * 2642245 * 2642245)
        by (nonlinear_arith)
        requires
            0 <= wide <= 2642245,
    ;
    if wide * wide * wide > usize::MAX as u128 {
        return None;
    }
    let n = wide as usize;
    let seen = flood(points, limit, n);
    let mut count: usize = 0;
    let mut i: usize = 0;
    while i < points.len()
        invariant
            i <= points.len(),
            inner_coords(points@),
            lava == cells_of(points@),
            -1 <= limit < i64::MAX,
            limit == bound_of(points@),
            n == limit + 2,
            n * n * n <= usize::MAX,
            seen@.len() == n * n * n,
            forall|c: (int, int, int)|
                #[trigger] marked(seen@, n as int, c) <==> steamed(lava, limit as int, c),
            count == outer_sides(points@, limit as int, i as int),
        decreases points.len() - i,
    {
        let p = points[i];
        let mut first = true;
        let mut j: usize = 0;
        while j < i
            invariant
                j <= i,
                i < points.len(),
                p == points@[i as int],
                first == (forall|m: int|
                    0 <= m < j ==> (#[trigger] points@[m]).coords() != points@[i as int].coords()),
            decreases i - j,
        {
            let q = points[j];
            if q.x == p.x && q.y == p.y && q.z == p.z {
                assert(points@[j as int].coords() == p.coords());
                first = false;
            }
            j += 1;
        }
        if first {
            let around = p.neighbors();
            let mut sides: usize = 0;
            let mut k: usize = 0;
            while k < 6
                invariant
                    k <= 6,
                    lava == cells_of(points@),
                    -1 <= limit < i64::MAX,
                    n == limit + 2,
                    n * n * n <= usize::MAX,
                    seen@.len() == n * n * n,
                    forall|c: (int, int, int)|
                        #[trigger] marked(seen@, n as int, c) <==> steamed(lava, limit as int, c),
                    forall|m: int| 0 <= m < 6 ==> (#[trigger] around@[m]).coords() == p.around()[m],
                    sides == steamed_sides(lava, limit as int, p, k as int),
                    sides <= k,
                decreases 6 - k,
            {
                let side = around[k];
                assert(side.coords() == p.around()[k as int]);
                if is_steamed(&seen, n, &side, Ghost(lava), limit) {
                    sides += 1;
                }
                k += 1;
            }
            if sides > usize::MAX - count {
                proof {
                    lemma_outer_sides_grow(points@, limit as int, i + 1, points@.len() as int);
                }
                return None;
            }
            count += sides;
        }
        i += 1;
    }
    Some(count)
}

/// Where the steam reaches no place, it reaches no side of a cube.
pub proof fn lemma_no_steam(points: Seq<Point>, bound: int, n: int)
    requires
        forall|c: (int, int, int)| !steamed(cells_of(points), bound, c),
    ensures
        outer_sides(points, bound, n) == 0,
    decreases n,
{
    if n > 0 {
        lemma_no_steam(points, bound, n - 1);
        let p = points[n - 1];
        let lava = cells_of(points);
        assert(steamed_sides(lava, bound, p, 0) == 0);
        assert(steamed_sides(lava, bound, p, 1) == 0);
        assert(steamed_sides(lava, bound, p, 2) == 0);
        assert(steamed_sides(lava, bound, p, 3) == 0);
        assert(steamed_sides(lava, bound, p, 4) == 0);
        assert(steamed_sides(lava, bound, p, 5) == 0);
        assert(steamed_sides(lava, bound, p, 6) == 0);
    }
}

/// More cubes have at least as many sides that the steam reaches.
pub proof fn lemma_outer_sides_grow(points: Seq<Point>, bound: int, m: int, n: int)
    requires
        m <= n,
    ensures
        outer_sides(points, bound, m) <= outer_sides(points, bound, n),
    decreases n - m,
{
    if m < n {
        lemma_outer_sides_grow(points, bound, m, n - 1);
    }
}

/// The area of the sides of the cubes of `s` that steam reaches from outside.
pub fn try_external_surface_area(s: &str) -> (r: Option<usize>)
    ensures
        r is Some <==> points_of(trimmed_lines(s@)) is Some && ({
            let points = points_of(trimmed_lines(s@)).unwrap();
            inner_coords(points) && flood_size(bound_of(points)) <= usize::MAX && outer_sides(
                points,
                bound_of(points),
                points.len() as int,
            ) <= usize::MAX
        }),
        r is Some ==> r.unwrap() == outer_sides(
            points_of(trimmed_lines(s@)).unwrap(),
            bound_of(points_of(trimmed_lines(s@)).unwrap()),
            points_of(trimmed_lines(s@)).unwrap().len() as int,
        ),
{
    let lines = trimmed_lines_of(s);
    let ghost rows = views(lines@);
    let mut points: Vec<Point> = Vec::new();
    let mut i: usize = 0;
    while i < lines.len()
        invariant
            i <= lines.len(),
            rows == views(lines@),
            rows == trimmed_lines(s@),
            points.len() == i,
            forall|k: int| 0 <= k < i ==> point_of(#[trigger] rows[k]) == Some(points@[k]),
        decreases lines.len() - i,
    {
        assert(rows[i as int] == lines@[i as int]@);
        match Point::from_chars(&lines[i]) {
            Some(point) => {
                points.push(point);
            },
            None => {
                return None;
            },
        }
        i += 1;
    }
    proof {
        assert(points_of(rows) is Some);
        assert(points@ =~= points_of(rows).unwrap());
    }
    outer_area(&points)
}

/// The area of the sides of the cubes of `s` that steam reaches from outside: the
/// steam starts at the origin and fills what is free around the cubes up to one place
/// beyond their greatest coordinate.
pub fn external_surface_area(s: &str) -> (area: usize)
    requires
        points_of(trimmed_lines(s@)) is Some,
        inner_coords(points_of(trimmed_lines(s@)).unwrap()),
        flood_size(bound_of(points_of(trimmed_lines(s@)).unwrap())) <= usize::MAX,
        outer_sides(
            points_of(trimmed_lines(s@)).unwrap(),
            bound_of(points_of(trimmed_lines(s@)).unwrap()),
            points_of(trimmed_lines(s@)).unwrap().len() as int,
        ) <= usize::MAX,
    ensures
        area == outer_sides(
            points_of(trimmed_lines(s@)).unwrap(),
            bound_of(points_of(trimmed_lines(s@)).unwrap()),
            points_of(trimmed_lines(s@)).unwrap().len() as int,
        ),
{
    match try_external_surface_area(s) {
        Some(area) => area,
        None => unreached(),
    }
}

/// The area of the sides of the cubes of `s` that no other cube covers, or `None` where a
/// line writes no cube or the area is no number of a `usize`.
pub fn try_surface_area(s: &str) -> (r: Option<usize>)
    ensures
        r is Some <==> points_of(trimmed_rows(s@)) is Some && open_sides(
            points_of(trimmed_rows(s@)).unwrap(),
        ) <= usize::MAX,
        r is Some ==> r.unwrap() == open_sides(points_of(trimmed_rows(s@)).unwrap()),
{
    let points = match read_points(s) {
        Some(points) => points,
        None => {
            return None;
        },
    };
    let pairs = adjacent_pairs(&points);
    proof {
        pairs@.unique_seq_to_set();
        assert forall|k: int| 0 <= k < pairs@.len() implies is_touching_pair(
            points@,
            #[trigger] pairs@[k],
        ) by {
            assert(pairs@.to_set().contains(pairs@[k]));
        }
        lemma_pairs_bound(points@, pairs@);
    }
    let area: u128 = points.len() as u128 * 6 - pairs.len() as u128 * 2;
    if area > usize::MAX as u128 {
        None
    } else {
        Some(area as usize)
    }
}

} // verus!
