//! Sand that trickles down between walls of rock, unit by unit, from a source above them.

use crate::text::{chars_of, parse_i64, rows_of, split, split_on, split_once, split_once_char, to_i64, trim, trimmed, trimmed_rows, views};
use vstd::arithmetic::div_mod::lemma_fundamental_div_mod_converse;
use vstd::pervasive::unreached;
use vstd::prelude::*;
use vstd::relations::injective_on;
use vstd::set_lib::{lemma_int_range, lemma_len_subset, lemma_map_size, lemma_set_subset_finite, set_int_range};

verus! {

/// A place: `x` counts to the right and `y` downwards.
#[derive(Clone, Copy, Debug, PartialEq, Eq, Structural)]
pub struct Position {
    pub x: i64,
    pub y: i64,
}

impl Position {
    /// The place as a pair of integers.
    pub open spec fn place(self) -> (int, int) {
        (self.x as int, self.y as int)
    }

    pub fn new(x: i64, y: i64) -> (p: Self)
        ensures
            p.x == x,
            p.y == y,
    {
        Self { x, y }
    }

    /// Reads a place of the form `x,y`.
    pub fn from_chars(s: &Vec<char>) -> (r: Option<Position>)
        ensures
            r == position_of(s@),
    {
        let (x, y) = match split_once_char(s, ',') {
            Some(parts) => parts,
            None => {
                return None;
            },
        };
        match (to_i64(&x), to_i64(&y)) {
            (Some(x), Some(y)) => Some(Position { x, y }),
            _ => None,
        }
    }
}

/// The place that a text of the form `x,y` writes.
pub open spec fn position_of(s: Seq<char>) -> Option<Position> {
    match split_once(s, seq![',']) {
        Some((x, y)) => match (parse_i64(x), parse_i64(y)) {
            (Some(x), Some(y)) => Some(Position { x, y }),
            _ => None,
        },
        None => None,
    }
}

/// The walls that a line writes: places with ` -> ` between them, and a wall from each
/// place to the next. A line of one place writes no wall, and its place is not read.
pub open spec fn walls_of(line: Seq<char>) -> Option<Seq<(Position, Position)>> {
    let parts = split(trim(line), " -> "@);
    if parts.len() < 2 {
        Some(Seq::empty())
    } else if forall|k: int| 0 <= k < parts.len() ==> position_of(#[trigger] parts[k]) is Some {
        Some(
            Seq::new(
                (parts.len() - 1) as nat,
                |k: int| (position_of(parts[k]).unwrap(), position_of(parts[k + 1]).unwrap()),
            ),
        )
    } else {
        None
    }
}

/// The walls that the first `n` lines write, one line after the other.
pub open spec fn all_walls(lines: Seq<Seq<char>>, n: int) -> Option<Seq<(Position, Position)>>
    decreases n,
{
    if n <= 0 {
        Some(Seq::empty())
    } else {
        match (all_walls(lines, n - 1), walls_of(lines[n - 1])) {
            (Some(before), Some(more)) => Some(before + more),
            _ => None,
        }
    }
}

/// Whether the place `c` lies on the wall from `a` to `b`. A wall runs along a column or
/// along a row; between two places that share neither there is no wall.
pub open spec fn on_wall(a: Position, b: Position, c: (int, int)) -> bool {
    if a.x == b.x {
        c.0 == a.x && ((a.y <= c.1 <= b.y) || (b.y <= c.1 <= a.y))
    } else if a.y == b.y {
        c.1 == a.y && ((a.x <= c.0 <= b.x) || (b.x <= c.0 <= a.x))
    } else {
        false
    }
}

/// The places of the first `n` walls.
pub open spec fn rock(walls: Seq<(Position, Position)>, n: int) -> Set<(int, int)> {
    Set::new(
        |c: (int, int)|
            exists|k: int| 0 <= k < n && k < walls.len() && on_wall((#[trigger] walls[k]).0, walls[k].1, c),
    )
}

/// The greatest `y` of an end of the first `n` walls; the least `i64` where there is
/// none.
pub open spec fn deepest_of(walls: Seq<(Position, Position)>, n: int) -> int
    decreases n,
{
    if n <= 0 {
        i64::MIN as int
    } else {
        let m = deepest_of(walls, n - 1);
        let a = if walls[n - 1].0.y > m {
            walls[n - 1].0.y as int
        } else {
            m
        };
        if walls[n - 1].1.y > a {
            walls[n - 1].1.y as int
        } else {
            a
        }
    }
}

/// The place where the sand comes from.
pub open spec fn source() -> (int, int) {
    (500, 0)
}

/// The place to which a unit of sand at `p` goes next: straight down, or down and left,
/// or down and right, the first of them that is free; `None` where none is, and, with a
/// floor, where the unit lies on it, one row below the deepest rock.
pub open spec fn next_place(blocked: Set<(int, int)>, p: (int, int), deepest: int, till_floor: bool) -> Option<
    (int, int),
> {
    if till_floor && p.1 == deepest + 1 {
        None
    } else if !blocked.contains((p.0, p.1 + 1)) {
        Some((p.0, p.1 + 1))
    } else if !blocked.contains((p.0 - 1, p.1 + 1)) {
        Some((p.0 - 1, p.1 + 1))
    } else if !blocked.contains((p.0 + 1, p.1 + 1)) {
        Some((p.0 + 1, p.1 + 1))
    } else {
        None
    }
}

/// The place where a unit of sand that is at `p` comes to rest; `None` where it falls
/// below the deepest rock and there is no floor, or lies below the floor.
pub open spec fn rest_of(blocked: Set<(int, int)>, p: (int, int), deepest: int, till_floor: bool) -> Option<
    (int, int),
>
    decreases deepest + 2 - p.1,
{
    if p.1 > deepest + 1 {
        None
    } else {
        match next_place(blocked, p, deepest, till_floor) {
            None => Some(p),
            Some(n) => if !till_floor && n.1 > deepest {
                None
            } else {
                rest_of(blocked, n, deepest, till_floor)
            },
        }
    }
}

/// The number of units of sand that come to rest, of at most `fuel` units: the sand
/// stops when a unit does not come to rest, and after the unit that rests at the source.
pub open spec fn poured(blocked: Set<(int, int)>, deepest: int, till_floor: bool, fuel: nat) -> nat
    decreases fuel,
{
    if fuel == 0 {
        0
    } else {
        match rest_of(blocked, source(), deepest, till_floor) {
            None => 0,
            Some(p) => if p == source() {
                1
            } else {
                1 + poured(blocked.insert(p), deepest, till_floor, (fuel - 1) as nat)
            },
        }
    }
}

/// The depth of the part of the ground that the sand can reach: the deepest rock, or 0
/// where it is higher.
pub open spec fn depth_of(deepest: int) -> int {
    if deepest < 0 {
        0
    } else {
        deepest
    }
}

/// The number of places that the sand can come to, and one more: no more units can come
/// to rest.
pub open spec fn capacity(deepest: int) -> int {
    (depth_of(deepest) + 2) * (depth_of(deepest) + 2) + 1
}

/// The number of units of sand that come to rest between the walls.
pub open spec fn resting(walls: Seq<(Position, Position)>, till_floor: bool) -> nat {
    let deepest = deepest_of(walls, walls.len() as int);
    poured(rock(walls, walls.len() as int), deepest, till_floor, capacity(deepest) as nat)
}

/// The places that sand from the source can come to: the source, and in each row down to
/// the row below `depth` one place more on either side than in the row above.
pub open spec fn cone(depth: int) -> Set<(int, int)> {
    Set::new(|c: (int, int)| 0 <= c.1 <= depth + 1 && 500 - c.1 <= c.0 <= 500 + c.1)
}

/// The places that sand can come to and that are not blocked.
pub open spec fn room(blocked: Set<(int, int)>, depth: int) -> Set<(int, int)> {
    cone(depth).difference(blocked)
}

/// A number for a place of the cone: the places of a row are numbered from the square of
/// the row, from left to right.
pub open spec fn cone_code(c: (int, int)) -> int {
    c.1 * c.1 + (c.0 - 500 + c.1)
}

/// Two places of the cone with one number are one place.
pub proof fn lemma_cone_code(a: (int, int), b: (int, int))
    requires
        0 <= a.1,
        500 - a.1 <= a.0 <= 500 + a.1,
        0 <= b.1,
        500 - b.1 <= b.0 <= 500 + b.1,
        cone_code(a) == cone_code(b),
    ensures
        a == b,
        0 <= cone_code(a) < (a.1 + 1) * (a.1 + 1),
{
    assert((a.1 + 1) * (a.1 + 1) == a.1 * a.1 + 2 * a.1 + 1) by (nonlinear_arith);
    assert((b.1 + 1) * (b.1 + 1) == b.1 * b.1 + 2 * b.1 + 1) by (nonlinear_arith);
    assert(a.1 * a.1 >= 0) by (nonlinear_arith);
    if a.1 < b.1 {
        assert((a.1 + 1) * (a.1 + 1) <= b.1 * b.1) by (nonlinear_arith)
            requires
                0 <= a.1 + 1 <= b.1,
        ;
    }
    if b.1 < a.1 {
        assert((b.1 + 1) * (b.1 + 1) <= a.1 * a.1) by (nonlinear_arith)
            requires
                0 <= b.1 + 1 <= a.1,
        ;
    }
}

/// The cone down to the row below `depth` has `(depth + 2) * (depth + 2)` places at most.
pub proof fn lemma_cone_size(depth: int)
    requires
        0 <= depth,
    ensures
        cone(depth).finite(),
        cone(depth).len() <= (depth + 2) * (depth + 2),
{
    let w = 2 * depth + 3;
    let h = depth + 2;
    let place = |i: int| (500 - (depth + 1) + i % w, i / w);
    assert(w * h >= 0 && h * h >= 0) by (nonlinear_arith)
        requires
            w >= 0,
            h >= 0,
    ;
    let all = set_int_range(0, w * h);
    lemma_int_range(0, w * h);
    all.lemma_map_finite(place);
    assert forall|c: (int, int)| cone(depth).contains(c) implies all.map(place).contains(c) by {
        let col = c.0 - 500 + depth + 1;
        let i = c.1 * w + col;
        lemma_fundamental_div_mod_converse(i, w, c.1, col);
        assert(0 <= i < w * h) by (nonlinear_arith)
            requires
                0 <= c.1 < h,
                0 <= col < w,
                i == c.1 * w + col,
        ;
        assert(all.contains(i));
        assert(place(i) == c);
    }
    lemma_set_subset_finite(all.map(place), cone(depth));
    let code = |c: (int, int)| cone_code(c);
    let codes = cone(depth).map(code);
    assert forall|a: (int, int), b: (int, int)|
        cone(depth).contains(a) && cone(depth).contains(b) && #[trigger] code(a) == #[trigger] code(
            b,
        ) implies a == b by {
        lemma_cone_code(a, b);
    }
    assert(injective_on(code, cone(depth)));
    lemma_map_size(cone(depth), codes, code);
    lemma_int_range(0, h * h);
    assert forall|k: int| codes.contains(k) implies set_int_range(0, h * h).contains(k) by {
        let c = choose|c: (int, int)| cone(depth).contains(c) && code(c) == k;
        lemma_cone_code(c, c);
        assert((c.1 + 1) * (c.1 + 1) <= h * h) by (nonlinear_arith)
            requires
                0 <= c.1 + 1 <= h,
        ;
    }
    lemma_len_subset(codes, set_int_range(0, h * h));
}

/// A unit of sand that falls from a place of the cone comes to rest in the cone, and on
/// no blocked place unless it rests where it started.
pub proof fn lemma_rest_in_cone(blocked: Set<(int, int)>, p: (int, int), deepest: int, till_floor: bool)
    requires
        0 <= p.1,
        500 - p.1 <= p.0 <= 500 + p.1,
    ensures
        rest_of(blocked, p, deepest, till_floor) matches Some(q) ==> cone(depth_of(deepest)).contains(q)
            && (q == p || !blocked.contains(q)),
    decreases deepest + 2 - p.1,
{
    if p.1 <= deepest + 1 {
        match next_place(blocked, p, deepest, till_floor) {
            None => {},
            Some(n) => {
                if !(!till_floor && n.1 > deepest) {
                    lemma_rest_in_cone(blocked, n, deepest, till_floor);
                }
            },
        }
    }
}

/// The count of the sand does not depend on how many units are let fall, once they are
/// more than the free places of the cone.
pub proof fn lemma_enough_sand(blocked: Set<(int, int)>, deepest: int, till_floor: bool, a: nat, b: nat)
    requires
        room(blocked, depth_of(deepest)).len() < a,
        room(blocked, depth_of(deepest)).len() < b,
    ensures
        poured(blocked, deepest, till_floor, a) == poured(blocked, deepest, till_floor, b),
    decreases a,
{
    broadcast use vstd::set::group_set_axioms;

    let depth = depth_of(deepest);
    lemma_cone_size(depth);
    lemma_set_subset_finite(cone(depth), room(blocked, depth));
    lemma_rest_in_cone(blocked, source(), deepest, till_floor);
    match rest_of(blocked, source(), deepest, till_floor) {
        None => {},
        Some(p) => {
            if p != source() {
                assert(room(blocked, depth).contains(p));
                assert(room(blocked.insert(p), depth) =~= room(blocked, depth).remove(p));
                lemma_enough_sand(blocked.insert(p), deepest, till_floor, (a - 1) as nat, (b - 1) as nat);
            }
        },
    }
}

/// As many units of sand are let fall as the cone has places, and one more. More would
/// not change the count: the sand stops before they run out.
pub proof fn lemma_capacity_is_enough(walls: Seq<(Position, Position)>, till_floor: bool, more: nat)
    ensures
        poured(
            rock(walls, walls.len() as int),
            deepest_of(walls, walls.len() as int),
            till_floor,
            capacity(deepest_of(walls, walls.len() as int)) as nat + more,
        ) == resting(walls, till_floor),
{
    let deepest = deepest_of(walls, walls.len() as int);
    let depth = depth_of(deepest);
    let blocked = rock(walls, walls.len() as int);
    lemma_cone_size(depth);
    lemma_len_subset(room(blocked, depth), cone(depth));
    lemma_enough_sand(
        blocked,
        deepest,
        till_floor,
        capacity(deepest) as nat + more,
        capacity(deepest) as nat,
    );
}

/// The ground under the source: what is blocked by rock or sand in the part that the
/// sand can reach, the deepest rock, and the units of sand at rest.
pub struct Ground {
    grid: Vec<Vec<bool>>,
    depth: i64,
    deepest: i64,
    num_sand_units: usize,
    till_floor: bool,
    blocked: Ghost<Set<(int, int)>>,
}

/// Whether `c` lies in the part of the ground of depth `depth` that is kept: at most two
/// rows below the depth, and at most so far to the side of the source.
pub open spec fn in_reach(depth: int, c: (int, int)) -> bool {
    0 <= c.1 <= depth + 2 && 500 - (depth + 3) <= c.0 <= 500 + (depth + 3)
}

impl Ground {
    /// What is blocked by rock or sand.
    pub closed spec fn blocked(&self) -> Set<(int, int)> {
        self.blocked@
    }

    /// The greatest `y` of the rock.
    pub closed spec fn deepest(&self) -> int {
        self.deepest as int
    }

    /// Whether there is a floor under the rock.
    pub closed spec fn has_floor(&self) -> bool {
        self.till_floor
    }

    /// The number of units of sand at rest.
    pub closed spec fn units(&self) -> nat {
        self.num_sand_units as nat
    }

    /// The kept part of the ground shows what is blocked.
    pub closed spec fn wf(&self) -> bool {
        &&& self.depth == depth_of(self.deepest as int)
        &&& self.depth <= 0x3fff_ffff_ffff_fff0
        &&& self.grid@.len() == self.depth + 3
        &&& forall|r: int| 0 <= r < self.grid@.len() ==> (#[trigger] self.grid@[r])@.len() == 2 * self.depth + 7
        &&& forall|c: (int, int)|
            in_reach(self.depth as int, c) ==> (#[trigger] self.blocked@.contains(c)
                <==> self.grid@[c.1]@[c.0 - 500 + self.depth + 3])
    }

    /// Whether the place at `x` and `y` is blocked.
    fn is_blocked(&self, x: i64, y: i64) -> (b: bool)
        requires
            self.wf(),
            in_reach(depth_of(self.deepest()), (x as int, y as int)),
        ensures
            b == self.blocked().contains((x as int, y as int)),
    {
        assert(self.blocked@.contains((x as int, y as int)) == self.grid@[y as int]@[x - 500
            + self.depth + 3]);
        let rows = self.grid.len();
        assert(0 <= y < rows);
        let row = &self.grid[y as usize];
        let cols = row.len();
        assert(0 <= x - 500 + self.depth + 3 < cols);
        let col = (x as i128 - 500 + self.depth as i128 + 3) as usize;
        row[col]
    }

    /// The place to which a unit of sand at `p` goes next.
    pub fn next_position(&self, p: &Position) -> (r: Option<Position>)
        requires
            self.wf(),
            0 <= p.y <= depth_of(self.deepest()) + 1,
            500 - p.y <= p.x <= 500 + p.y,
        ensures
            match r {
                Some(n) => next_place(self.blocked(), p.place(), self.deepest(), self.has_floor())
                    == Some(n.place()),
                None => next_place(self.blocked(), p.place(), self.deepest(), self.has_floor())
                    is None,
            },
    {
        if self.till_floor && p.y as i128 == self.deepest as i128 + 1 {
            return None;
        }
        if !self.is_blocked(p.x, p.y + 1) {
            return Some(Position::new(p.x, p.y + 1));
        }
        if !self.is_blocked(p.x - 1, p.y + 1) {
            return Some(Position::new(p.x - 1, p.y + 1));
        }
        if !self.is_blocked(p.x + 1, p.y + 1) {
            return Some(Position::new(p.x + 1, p.y + 1));
        }
        None
    }

    /// The place where a unit of sand from the source comes to rest, or `None` where it
    /// comes to rest nowhere.
    pub fn drop_unit(&self) -> (r: Option<Position>)
        requires
            self.wf(),
        ensures
            match r {
                Some(p) => rest_of(self.blocked(), source(), self.deepest(), self.has_floor())
                    == Some(p.place()) && 0 <= p.y <= depth_of(self.deepest()) + 1 && 500 - p.y
                    <= p.x <= 500 + p.y,
                None => rest_of(self.blocked(), source(), self.deepest(), self.has_floor()) is None,
            },
    {
        let mut position = Position::new(500, 0);
        if 0 > self.deepest as i128 + 1 {
            return None;
        }
        loop
            invariant
                self.wf(),
                0 <= position.y <= self.deepest + 1,
                500 - position.y <= position.x <= 500 + position.y,
                rest_of(self.blocked(), source(), self.deepest(), self.has_floor()) == rest_of(
                    self.blocked(),
                    position.place(),
                    self.deepest(),
                    self.has_floor(),
                ),
            decreases self.deepest + 2 - position.y,
        {
            match self.next_position(&position) {
                None => {
                    return Some(position);
                },
                Some(next) => {
                    if !self.till_floor && next.y > self.deepest {
                        return None;
                    }
                    position = next;
                },
            }
        }
    }

    /// Lets the sand trickle until a unit does not come to rest, or rests at the source.
    pub fn start_filling(&mut self)
        requires
            old(self).wf(),
            old(self).units() == 0,
            capacity(old(self).deepest()) <= usize::MAX,
        ensures
            final(self).wf(),
            final(self).units() == poured(
                old(self).blocked(),
                old(self).deepest(),
                old(self).has_floor(),
                capacity(old(self).deepest()) as nat,
            ),
            final(self).deepest() == old(self).deepest(),
            final(self).has_floor() == old(self).has_floor(),
    {
        let ghost start = self.blocked@;
        let ghost deepest = self.deepest as int;
        let ghost floor = self.till_floor;
        let d = self.depth as u128;
        assert((d + 2) * (d + 2) < 0x4000_0000_0000_0000_0000_0000_0000_0000) by (nonlinear_arith)
            requires
                0 <= d <= 0x3fff_ffff_ffff_fff0,
        ;
        let all: usize = ((d + 2) * (d + 2) + 1) as usize;
        let mut fuel: usize = all;
        while fuel > 0
            invariant
                self.wf(),
                self.deepest == deepest,
                self.till_floor == floor,
                start == old(self).blocked@,
                deepest == old(self).deepest,
                floor == old(self).till_floor,
                fuel <= all,
                all == capacity(deepest),
                self.num_sand_units == all - fuel,
                self.num_sand_units + poured(self.blocked@, deepest, floor, fuel as nat) == poured(
                    start,
                    deepest,
                    floor,
                    all as nat,
                ),
            decreases fuel,
        {
            match self.drop_unit() {
                None => {
                    return ;
                },
                Some(position) => {
                    let rows = self.grid.len();
                    assert(0 <= position.y < rows);
                    let row = position.y as usize;
                    let cols = self.grid[row].len();
                    assert(0 <= position.x - 500 + self.depth + 3 < cols);
                    let col = (position.x as i128 - 500 + self.depth as i128 + 3) as usize;
                    let ghost before = self.blocked@;
                    let ghost old_grid = self.grid@;
                    self.grid[row][col] = true;
                    assert(forall|r: int|
                        0 <= r < rows && r != row ==> #[trigger] self.grid@[r] == old_grid[r]);
                    assert(self.grid@[row as int]@ == old_grid[row as int]@.update(col as int, true));
                    self.blocked = Ghost(before.insert(position.place()));
                    self.num_sand_units += 1;
                    proof {
                        assert forall|c: (int, int)| in_reach(self.depth as int, c) implies (
                        #[trigger] self.blocked@.contains(c) <==> self.grid@[c.1]@[c.0 - 500
                            + self.depth + 3]) by {
                            assert(before.contains(c) <==> old_grid[c.1]@[c.0 - 500 + self.depth + 3]);
                        }
                    }
                    if position.x == 500 && position.y == 0 {
                        return ;
                    }
                    fuel -= 1;
                },
            }
        }
    }

    /// The number of units of sand at rest.
    pub fn num_units(&self) -> (n: usize)
        ensures
            n == self.units(),
    {
        self.num_sand_units
    }
}

/// Whether the place `c` lies on one of the first `k` walls, or on the wall from `a` to
/// `b` at a place before `t`, counted along the wall.
pub open spec fn drawn_upto(
    walls: Seq<(Position, Position)>,
    k: int,
    a: Position,
    b: Position,
    t: int,
    c: (int, int),
) -> bool {
    rock(walls, k).contains(c) || (on_wall(a, b, c) && (if a.x == b.x {
        c.1 < t
    } else {
        c.0 < t
    }))
}

/// The smaller of two numbers.
fn least(a: i64, b: i64) -> (m: i64)
    ensures
        m <= a && m <= b && (m == a || m == b),
{
    if a < b {
        a
    } else {
        b
    }
}

/// The greater of two numbers.
fn greatest(a: i64, b: i64) -> (m: i64)
    ensures
        m >= a && m >= b && (m == a || m == b),
{
    if a > b {
        a
    } else {
        b
    }
}

/// The greatest `y` of an end of a wall.
pub fn deepest_rock(walls: &Vec<(Position, Position)>) -> (deepest: i64)
    ensures
        deepest == deepest_of(walls@, walls@.len() as int),
{
    let mut deepest: i64 = i64::MIN;
    let mut i: usize = 0;
    while i < walls.len()
        invariant
            i <= walls.len(),
            deepest == deepest_of(walls@, i as int),
        decreases walls.len() - i,
    {
        let (a, b) = walls[i];
        deepest = greatest(greatest(deepest, a.y), b.y);
        i += 1;
    }
    deepest
}

impl Ground {
    /// The ground with the rock of the walls and no sand, or `None` where the sand could
    /// reach more places than a `usize` counts.
    pub fn new(walls: &Vec<(Position, Position)>, till_floor: bool) -> (r: Option<Ground>)
        ensures
            r is Some <==> capacity(deepest_of(walls@, walls@.len() as int)) <= usize::MAX,
            r is Some ==> r.unwrap().wf() && r.unwrap().blocked() == rock(
                walls@,
                walls@.len() as int,
            ) && r.unwrap().deepest() == deepest_of(walls@, walls@.len() as int) && r.unwrap().has_floor()
                == till_floor && r.unwrap().units() == 0,
    {
        let deepest = deepest_rock(walls);
        let depth: i64 = if deepest < 0 {
            0
        } else {
            deepest
        };
        if depth > 0xffff_fffd {
            assert((depth + 2) * (depth + 2) + 1 > 0xffff_ffff_ffff_ffff) by (nonlinear_arith)
                requires
                    depth >= 0xffff_fffe,
            ;
            return None;
        }
        assert((depth + 2) * (depth + 2) + 1 <= 0xffff_ffff * 0xffff_ffff + 1) by (nonlinear_arith)
            requires
                0 <= depth <= 0xffff_fffd,
        ;
        let all: u128 = (depth as u128 + 2) * (depth as u128 + 2) + 1;
        if all > usize::MAX as u128 {
            return None;
        }
        assert(depth == 0 || 2 * depth + 7 <= (depth + 2) * (depth + 2) + 1) by (nonlinear_arith)
            requires
                depth >= 0,
        ;
        let num_rows = (depth + 3) as usize;
        let num_cols = (2 * depth + 7) as usize;
        let low: i64 = 500 - (depth + 3);
        let high: i64 = 500 + (depth + 3);
        let mut grid: Vec<Vec<bool>> = Vec::new();
        let mut r: usize = 0;
        while r < num_rows
            invariant
                r <= num_rows,
                grid.len() == r,
                forall|i: int| 0 <= i < r ==> (#[trigger] grid@[i])@.len() == num_cols,
                forall|i: int, j: int| 0 <= i < r && 0 <= j < num_cols ==> !(#[trigger] grid@[i]@[j]),
            decreases num_rows - r,
        {
            let mut row: Vec<bool> = Vec::new();
            let mut c: usize = 0;
            while c < num_cols
                invariant
                    c <= num_cols,
                    row.len() == c,
                    forall|j: int| 0 <= j < c ==> !row@[j],
                decreases num_cols - c,
            {
                row.push(false);
                c += 1;
            }
            grid.push(row);
            r += 1;
        }
        let mut k: usize = 0;
        assert forall|c: (int, int)| in_reach(depth as int, c) implies (#[trigger] rock(
            walls@,
            0,
        ).contains(c) <==> grid@[c.1]@[c.0 - low]) by {
            assert(!grid@[c.1]@[c.0 - low]);
        }
        while k < walls.len()
            invariant
                k <= walls.len(),
                0 <= depth <= 0xffff_fffd,
                num_rows == depth + 3,
                num_cols == 2 * depth + 7,
                low == 500 - (depth + 3),
                high == 500 + (depth + 3),
                grid.len() == num_rows,
                forall|i: int| 0 <= i < num_rows ==> (#[trigger] grid@[i])@.len() == num_cols,
                forall|c: (int, int)|
                    in_reach(depth as int, c) ==> (#[trigger] rock(walls@, k as int).contains(c)
                        <==> grid@[c.1]@[c.0 - low]),
            decreases walls.len() - k,
        {
            let (a, b) = walls[k];
            assert(walls@[k as int] == (a, b));
            let ghost done = rock(walls@, k as int);
            if a.x == b.x {
                if low <= a.x && a.x <= high {
                    let first = greatest(least(a.y, b.y), 0);
                    let last = least(greatest(a.y, b.y), depth + 2);
                    let col = (a.x - low) as usize;
                    let mut y: i64 = first;
                    while y <= last
                        invariant
                            first <= y,
                            y <= last + 1 || last < first,
                            a.x == b.x,
                            low <= a.x <= high,
                            col == a.x - low,
                            first == (if a.y < b.y {
                                a.y
                            } else {
                                b.y
                            }) || first == 0,
                            first >= 0 && first >= a.y || first >= 0 && first >= b.y,
                            first >= 0,
                            last <= depth + 2,
                            last <= a.y || last <= b.y,
                            last >= a.y && last >= b.y || last == depth + 2,
                            first <= a.y && first <= b.y || first == 0,
                            0 <= depth <= 0xffff_fffd,
                            num_rows == depth + 3,
                            num_cols == 2 * depth + 7,
                            low == 500 - (depth + 3),
                            high == 500 + (depth + 3),
                            grid.len() == num_rows,
                            done == rock(walls@, k as int),
                            forall|i: int|
                                0 <= i < num_rows ==> (#[trigger] grid@[i])@.len() == num_cols,
                            forall|c: (int, int)|
                                in_reach(depth as int, c) ==> (#[trigger] drawn_upto(
                                    walls@,
                                    k as int,
                                    a,
                                    b,
                                    y as int,
                                    c,
                                ) <==> grid@[c.1]@[c.0 - low]),
                        decreases last + 1 - y,
                    {
                        let ghost old_grid = grid@;
                        grid[y as usize][col] = true;
                        proof {
                            assert forall|c: (int, int)| in_reach(depth as int, c) implies (
                            #[trigger] drawn_upto(walls@, k as int, a, b, y + 1, c)
                                <==> grid@[c.1]@[c.0 - low]) by {
                                assert(drawn_upto(walls@, k as int, a, b, y as int, c)
                                    <==> old_grid[c.1]@[c.0 - low]);
                            }
                        }
                        y += 1;
                    }
                    proof {
                        assert forall|c: (int, int)| in_reach(depth as int, c) implies (
                        #[trigger] rock(walls@, k + 1).contains(c) <==> grid@[c.1]@[c.0 - low]) by {
                            assert(drawn_upto(walls@, k as int, a, b, y as int, c) <==> grid@[c.1]@[c.0
                                - low]);
                            lemma_rock_step(walls@, k as int, c);
                        }
                    }
                } else {
                    proof {
                        assert forall|c: (int, int)| in_reach(depth as int, c) implies (
                        #[trigger] rock(walls@, k + 1).contains(c) <==> grid@[c.1]@[c.0 - low]) by {
                            assert(rock(walls@, k as int).contains(c) <==> grid@[c.1]@[c.0 - low]);
                            lemma_rock_step(walls@, k as int, c);
                        }
                    }
                }
            } else if a.y == b.y {
                if 0 <= a.y && a.y <= depth + 2 {
                    let first = greatest(least(a.x, b.x), low);
                    let last = least(greatest(a.x, b.x), high);
                    let row = a.y as usize;
                    let mut x: i64 = first;
                    while x <= last
                        invariant
                            first <= x,
                            x <= last + 1 || last < first,
                            a.x != b.x,
                            a.y == b.y,
                            0 <= a.y <= depth + 2,
                            row == a.y,
                            first >= low,
                            last <= high,
                            first <= a.x && first <= b.x || first == low,
                            last >= a.x && last >= b.x || last == high,
                            first >= a.x || first >= b.x,
                            last <= a.x || last <= b.x,
                            0 <= depth <= 0xffff_fffd,
                            num_rows == depth + 3,
                            num_cols == 2 * depth + 7,
                            low == 500 - (depth + 3),
                            high == 500 + (depth + 3),
                            grid.len() == num_rows,
                            done == rock(walls@, k as int),
                            forall|i: int|
                                0 <= i < num_rows ==> (#[trigger] grid@[i])@.len() == num_cols,
                            forall|c: (int, int)|
                                in_reach(depth as int, c) ==> (#[trigger] drawn_upto(
                                    walls@,
                                    k as int,
                                    a,
                                    b,
                                    x as int,
                                    c,
                                ) <==> grid@[c.1]@[c.0 - low]),
                        decreases last + 1 - x,
                    {
                        let ghost old_grid = grid@;
                        let col = (x - low) as usize;
                        grid[row][col] = true;
                        proof {
                            assert forall|c: (int, int)| in_reach(depth as int, c) implies (
                            #[trigger] drawn_upto(walls@, k as int, a, b, x + 1, c)
                                <==> grid@[c.1]@[c.0 - low]) by {
                                assert(drawn_upto(walls@, k as int, a, b, x as int, c)
                                    <==> old_grid[c.1]@[c.0 - low]);
                            }
                        }
                        x += 1;
                    }
                    proof {
                        assert forall|c: (int, int)| in_reach(depth as int, c) implies (
                        #[trigger] rock(walls@, k + 1).contains(c) <==> grid@[c.1]@[c.0 - low]) by {
                            assert(drawn_upto(walls@, k as int, a, b, x as int, c) <==> grid@[c.1]@[c.0
                                - low]);
                            lemma_rock_step(walls@, k as int, c);
                        }
                    }
                } else {
                    proof {
                        assert forall|c: (int, int)| in_reach(depth as int, c) implies (
                        #[trigger] rock(walls@, k + 1).contains(c) <==> grid@[c.1]@[c.0 - low]) by {
                            assert(rock(walls@, k as int).contains(c) <==> grid@[c.1]@[c.0 - low]);
                            lemma_rock_step(walls@, k as int, c);
                        }
                    }
                }
            } else {
                proof {
                    assert forall|c: (int, int)| in_reach(depth as int, c) implies (#[trigger] rock(
                        walls@,
                        k + 1,
                    ).contains(c) <==> grid@[c.1]@[c.0 - low]) by {
                        assert(rock(walls@, k as int).contains(c) <==> grid@[c.1]@[c.0 - low]);
                        lemma_rock_step(walls@, k as int, c);
                    }
                }
            }
            k += 1;
        }
        let ground = Ground {
            grid,
            depth,
            deepest,
            num_sand_units: 0,
            till_floor,
            blocked: Ghost(rock(walls@, walls@.len() as int)),
        };
        proof {
            assert forall|c: (int, int)| in_reach(ground.depth as int, c) implies (
            #[trigger] ground.blocked@.contains(c) <==> ground.grid@[c.1]@[c.0 - 500 + ground.depth
                + 3]) by {
                assert(rock(walls@, walls@.len() as int).contains(c) <==> ground.grid@[c.1]@[c.0
                    - low]);
            }
        }
        Some(ground)
    }

    /// The walls that a line writes.
    pub fn parse_path(s: &Vec<char>) -> (r: Option<Vec<(Position, Position)>>)
        ensures
            r is Some <==> walls_of(s@) is Some,
            r is Some ==> Some(r.unwrap()@) == walls_of(s@),
    {
        let text = trimmed(s);
        let arrow = chars_of(" -> ");
        proof {
            reveal_strlit(" -> ");
        }
        let parts = split_on(&text, &arrow);
        let ghost texts = views(parts@);
        let mut walls: Vec<(Position, Position)> = Vec::new();
        if parts.len() < 2 {
            assert(walls@ =~= Seq::<(Position, Position)>::empty());
            return Some(walls);
        }
        let mut points: Vec<Position> = Vec::new();
        let mut i: usize = 0;
        while i < parts.len()
            invariant
                i <= parts.len(),
                texts == views(parts@),
                texts == split(trim(s@), " -> "@),
                parts.len() >= 2,
                points.len() == i,
                forall|k: int| 0 <= k < i ==> position_of(#[trigger] texts[k]) == Some(points@[k]),
            decreases parts.len() - i,
        {
            assert(texts[i as int] == parts@[i as int]@);
            match Position::from_chars(&parts[i]) {
                Some(p) => {
                    points.push(p);
                },
                None => {
                    return None;
                },
            }
            i += 1;
        }
        let mut k: usize = 0;
        while k + 1 < points.len()
            invariant
                k + 1 <= points.len(),
                points.len() == parts.len(),
                parts.len() >= 2,
                texts == views(parts@),
                texts == split(trim(s@), " -> "@),
                forall|j: int| 0 <= j < points.len() ==> position_of(#[trigger] texts[j]) == Some(points@[j]),
                walls.len() == k,
                forall|j: int| 0 <= j < k ==> walls@[j] == (points@[j], points@[j + 1]),
            decreases points.len() - k,
        {
            walls.push((points[k], points[k + 1]));
            k += 1;
        }
        proof {
            assert(walls_of(s@) is Some);
            assert(walls@ =~= walls_of(s@).unwrap());
        }
        Some(walls)
    }
}

/// A place lies on one of the first walls just when it lies on one of one fewer or on
/// the last of them.
pub proof fn lemma_rock_step(walls: Seq<(Position, Position)>, k: int, c: (int, int))
    requires
        0 <= k < walls.len(),
    ensures
        rock(walls, k + 1).contains(c) <==> (rock(walls, k).contains(c) || on_wall(
            walls[k].0,
            walls[k].1,
            c,
        )),
{
    if rock(walls, k + 1).contains(c) {
        let j = choose|j: int|
            0 <= j < k + 1 && j < walls.len() && on_wall((#[trigger] walls[j]).0, walls[j].1, c);
        if j < k {
            assert(rock(walls, k).contains(c));
        }
    }
    if rock(walls, k).contains(c) {
        let j = choose|j: int|
            0 <= j < k && j < walls.len() && on_wall((#[trigger] walls[j]).0, walls[j].1, c);
        assert(on_wall(walls[j].0, walls[j].1, c));
    }
    if on_wall(walls[k].0, walls[k].1, c) {
        assert(rock(walls, k + 1).contains(c));
    }
}

/// Where the first lines write no walls, all of them write none.
pub proof fn lemma_walls_fail(lines: Seq<Seq<char>>, m: int, n: int)
    requires
        m <= n,
        all_walls(lines, m) is None,
    ensures
        all_walls(lines, n) is None,
    decreases n - m,
{
    if m < n {
        lemma_walls_fail(lines, m, n - 1);
    }
}

/// The number of units of sand that come to rest between the walls that `s` writes, a
/// line for each run of walls; `None` where a line writes no walls or the sand could
/// reach more places than a `usize` counts.
pub fn try_num_resting_sand_units(s: &str, till_floor: bool) -> (r: Option<usize>)
    ensures
        r is Some <==> all_walls(trimmed_rows(s@), trimmed_rows(s@).len() as int) is Some && capacity(
            deepest_of(
                all_walls(trimmed_rows(s@), trimmed_rows(s@).len() as int).unwrap(),
                all_walls(trimmed_rows(s@), trimmed_rows(s@).len() as int).unwrap().len() as int,
            ),
        ) <= usize::MAX,
        r is Some ==> r.unwrap() == resting(
            all_walls(trimmed_rows(s@), trimmed_rows(s@).len() as int).unwrap(),
            till_floor,
        ),
{
    let paths = rows_of(s);
    let ghost rows = views(paths@);
    let mut walls: Vec<(Position, Position)> = Vec::new();
    let mut i: usize = 0;
    assert(walls@ =~= Seq::<(Position, Position)>::empty());
    while i < paths.len()
        invariant
            i <= paths.len(),
            rows == views(paths@),
            rows == trimmed_rows(s@),
            all_walls(rows, i as int) == Some(walls@),
        decreases paths.len() - i,
    {
        assert(rows[i as int] == paths@[i as int]@);
        let more = match Ground::parse_path(&paths[i]) {
            Some(more) => more,
            None => {
                proof {
                    assert(all_walls(rows, i + 1) is None);
                    lemma_walls_fail(rows, i + 1, rows.len() as int);
                }
                return None;
            },
        };
        let ghost before = walls@;
        let mut k: usize = 0;
        while k < more.len()
            invariant
                k <= more.len(),
                walls@ == before + more@.take(k as int),
            decreases more.len() - k,
        {
            walls.push(more[k]);
            assert(more@.take(k + 1) =~= more@.take(k as int).push(more@[k as int]));
            k += 1;
        }
        assert(more@.take(k as int) =~= more@);
        i += 1;
    }
    let mut ground = match Ground::new(&walls, till_floor) {
        Some(ground) => ground,
        None => {
            return None;
        },
    };
    ground.start_filling();
    Some(ground.num_units())
}

/// The number of units of sand that come to rest between the walls that `s` writes.
pub fn num_resting_sand_units(s: &str, till_floor: bool) -> (count: usize)
    requires
        all_walls(trimmed_rows(s@), trimmed_rows(s@).len() as int) is Some,
        capacity(
            deepest_of(
                all_walls(trimmed_rows(s@), trimmed_rows(s@).len() as int).unwrap(),
                all_walls(trimmed_rows(s@), trimmed_rows(s@).len() as int).unwrap().len() as int,
            ),
        ) <= usize::MAX,
    ensures
        count == resting(
            all_walls(trimmed_rows(s@), trimmed_rows(s@).len() as int).unwrap(),
            till_floor,
        ),
{
    match try_num_resting_sand_units(s, till_floor) {
        Some(count) => count,
        None => unreached(),
    }
}

/// The number of units of sand that come to rest before one falls below the rock.
pub fn num_resting_sand_units_p1(s: &str) -> (count: usize)
    requires
        all_walls(trimmed_rows(s@), trimmed_rows(s@).len() as int) is Some,
        capacity(
            deepest_of(
                all_walls(trimmed_rows(s@), trimmed_rows(s@).len() as int).unwrap(),
                all_walls(trimmed_rows(s@), trimmed_rows(s@).len() as int).unwrap().len() as int,
            ),
        ) <= usize::MAX,
    ensures
        count == resting(
            all_walls(trimmed_rows(s@), trimmed_rows(s@).len() as int).unwrap(),
            false,
        ),
{
    num_resting_sand_units(s, false)
}

/// The number of units of sand that come to rest on the rock and on a floor under it
/// until one rests at the source.
pub fn num_resting_sand_units_p2(s: &str) -> (count: usize)
    requires
        all_walls(trimmed_rows(s@), trimmed_rows(s@).len() as int) is Some,
        capacity(
            deepest_of(
                all_walls(trimmed_rows(s@), trimmed_rows(s@).len() as int).unwrap(),
                all_walls(trimmed_rows(s@), trimmed_rows(s@).len() as int).unwrap().len() as int,
            ),
        ) <= usize::MAX,
    ensures
        count == resting(
            all_walls(trimmed_rows(s@), trimmed_rows(s@).len() as int).unwrap(),
            true,
        ),
{
    num_resting_sand_units(s, true)
}

} // verus!
