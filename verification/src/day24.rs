//! A basin with blizzards that blow along its rows and columns, and the fewest minutes in
//! which one crosses it without being caught.

use crate::ints::wrap;
use crate::text::{chars_of, lines, lines_of, views};
use vstd::pervasive::unreached;
use vstd::prelude::*;

verus! {

/// A row and a column, or a change of them.
#[derive(Debug, Clone, Copy, Eq, PartialEq, Structural)]
pub struct Position {
    pub row: i64,
    pub col: i64,
}

impl Position {
    /// The row and the column as integers.
    pub open spec fn place(self) -> (int, int) {
        (self.row as int, self.col as int)
    }

    pub fn new(row: i64, col: i64) -> (p: Position)
        ensures
            p.row == row,
            p.col == col,
    {
        Position { row, col }
    }

    /// The places above, below, left and right of this one, and this one.
    pub fn neighbors(&self) -> (r: [Position; 5])
        requires
            i64::MIN < self.row < i64::MAX,
            i64::MIN < self.col < i64::MAX,
        ensures
            r[0].place() == (self.row - 1, self.col as int),
            r[1].place() == (self.row + 1, self.col as int),
            r[2].place() == (self.row as int, self.col - 1),
            r[3].place() == (self.row as int, self.col + 1),
            r[4].place() == (self.row as int, self.col as int),
    {
        [
            Position::new(self.row - 1, self.col),
            Position::new(self.row + 1, self.col),
            Position::new(self.row, self.col - 1),
            Position::new(self.row, self.col + 1),
            Position::new(self.row, self.col),
        ]
    }

    /// The place that lies `other` away from this one.
    pub fn add(self, other: Position) -> (p: Position)
        requires
            i64::MIN <= self.row + other.row <= i64::MAX,
            i64::MIN <= self.col + other.col <= i64::MAX,
        ensures
            p.row == self.row + other.row,
            p.col == self.col + other.col,
    {
        Position { row: self.row + other.row, col: self.col + other.col }
    }
}

/// A basin as a value: the places of its walls, its blizzards, each with the place where
/// it starts and the step that it makes in a minute, and the numbers of rows and columns
/// between the walls.
pub struct BasinView {
    pub walls: Set<(int, int)>,
    pub blizzards: Set<((int, int), (int, int))>,
    pub num_rows: int,
    pub num_cols: int,
}

impl BasinView {
    /// The place where one starts.
    pub open spec fn start(self) -> (int, int) {
        (-1, 0)
    }

    /// The place to reach.
    pub open spec fn goal(self) -> (int, int) {
        (self.num_rows, self.num_cols - 1)
    }

    /// Where the blizzard `b` is after `t` minutes: it goes round its row or column.
    pub open spec fn place_of(self, b: ((int, int), (int, int)), t: int) -> (int, int) {
        ((b.0.0 + b.1.0 * t) % self.num_rows, (b.0.1 + b.1.1 * t) % self.num_cols)
    }

    /// Whether a blizzard is at `p` after `t` minutes.
    pub open spec fn blizzard_at(self, p: (int, int), t: int) -> bool {
        exists|b: ((int, int), (int, int))|
            self.blizzards.contains(b) && #[trigger] self.place_of(b, t) == p
    }

    /// Whether one can be at `p` after `t` minutes: there is neither a wall nor a
    /// blizzard.
    pub open spec fn free(self, p: (int, int), t: int) -> bool {
        !self.walls.contains(p) && !self.blizzard_at(p, t)
    }
}

/// Whether `p` is `q` or lies beside it in its row or column.
pub open spec fn near(q: (int, int), p: (int, int)) -> bool {
    ||| p == (q.0 - 1, q.1)
    ||| p == (q.0 + 1, q.1)
    ||| p == (q.0, q.1 - 1)
    ||| p == (q.0, q.1 + 1)
    ||| p == q
}

/// The places where one can be after `t` minutes.
pub open spec fn reach(b: BasinView, t: nat) -> Set<(int, int)>
    decreases t,
{
    if t == 0 {
        set![b.start()]
    } else {
        Set::new(
            |p: (int, int)|
                b.free(p, t as int) && exists|q: (int, int)|
                    reach(b, (t - 1) as nat).contains(q) && #[trigger] near(q, p),
        )
    }
}

/// Whether one can be at the goal after `t` minutes, `t` being at least 1.
pub open spec fn arrives(b: BasinView, t: int) -> bool {
    t >= 1 && reach(b, t as nat).contains(b.goal())
}

/// Whether `t` is the least number of minutes after which one can be at the goal.
pub open spec fn is_fewest(b: BasinView, t: int) -> bool {
    arrives(b, t) && forall|u: int| 1 <= u < t ==> !arrives(b, u)
}

/// Whether one can be at the goal after some number of minutes that an `i64` holds with
/// room to spare.
pub open spec fn can_arrive(b: BasinView) -> bool {
    exists|t: int| #[trigger] arrives(b, t) && t <= i64::MAX - 2
}

/// The step of the blizzard that a character draws.
pub open spec fn step_of(c: char) -> Option<(int, int)> {
    if c == '^' {
        Some((-1int, 0int))
    } else if c == 'v' {
        Some((1int, 0int))
    } else if c == '<' {
        Some((0int, -1int))
    } else if c == '>' {
        Some((0int, 1int))
    } else {
        None
    }
}

/// Whether every character of the drawing is one of `#`, `.`, `^`, `v`, `<` and `>`,
/// there are at least three lines and at most so many lines and columns as an `i64`
/// counts with room to spare, and the last line is the longest and at least three
/// characters long.
pub open spec fn valid_drawing(rows: Seq<Seq<char>>) -> bool {
    &&& 3 <= rows.len() <= 0x3fff_ffff_ffff_ffff
    &&& 3 <= rows.last().len() <= 0x3fff_ffff_ffff_ffff
    &&& forall|i: int| 0 <= i < rows.len() ==> (#[trigger] rows[i]).len() <= rows.last().len()
    &&& forall|i: int, j: int|
        0 <= i < rows.len() && 0 <= j < rows[i].len() ==> #[trigger] rows[i][j] == '#' || rows[i][j]
            == '.' || step_of(rows[i][j]) is Some
}

/// Whether the drawing shows a wall at `p`. One more wall lies above the start.
pub open spec fn wall_drawn(rows: Seq<Seq<char>>, p: (int, int)) -> bool {
    p == (-2int, 0int) || (0 <= p.0 + 1 < rows.len() && 0 <= p.1 + 1 < rows[p.0 + 1].len()
        && rows[p.0 + 1][p.1 + 1] == '#')
}

/// Whether the drawing shows the blizzard `b` where it starts.
pub open spec fn blizzard_drawn(rows: Seq<Seq<char>>, b: ((int, int), (int, int))) -> bool {
    0 <= b.0.0 + 1 < rows.len() && 0 <= b.0.1 + 1 < rows[b.0.0 + 1].len() && step_of(
        rows[b.0.0 + 1][b.0.1 + 1],
    ) == Some(b.1)
}

/// The basin that the lines draw. The rows and columns are counted from the first place
/// within the walls.
pub open spec fn basin_of(rows: Seq<Seq<char>>) -> BasinView {
    BasinView {
        walls: Set::new(|p: (int, int)| wall_drawn(rows, p)),
        blizzards: Set::new(|b: ((int, int), (int, int))| blizzard_drawn(rows, b)),
        num_rows: rows.len() - 2,
        num_cols: rows.last().len() - 2,
    }
}

/// Whether the drawing shows a wall at `p` that is read before the place in line `i`
/// and column `j`.
pub open spec fn wall_before(rows: Seq<Seq<char>>, p: (int, int), i: int, j: int) -> bool {
    wall_drawn(rows, p) && (p.0 + 1 < i || (p.0 + 1 == i && p.1 + 1 < j))
}

/// Whether the drawing shows the blizzard `b` at a place that is read before the place
/// in line `i` and column `j`.
pub open spec fn blizzard_before(
    rows: Seq<Seq<char>>,
    b: ((int, int), (int, int)),
    i: int,
    j: int,
) -> bool {
    blizzard_drawn(rows, b) && (b.0.0 + 1 < i || (b.0.0 + 1 == i && b.0.1 + 1 < j))
}

/// A basin.
#[derive(Debug)]
pub struct Basin {
    walls: Vec<Position>,
    blizzards: Vec<(Position, Position)>,
    num_rows: i64,
    num_cols: i64,
    start: Position,
    goal: Position,
}

/// The places of a list of positions.
pub open spec fn places(v: Seq<Position>) -> Set<(int, int)> {
    Set::new(|p: (int, int)| exists|k: int| 0 <= k < v.len() && #[trigger] v[k].place() == p)
}

/// The blizzards of a list.
pub open spec fn winds(v: Seq<(Position, Position)>) -> Set<((int, int), (int, int))> {
    Set::new(
        |b: ((int, int), (int, int))|
            exists|k: int|
                0 <= k < v.len() && (#[trigger] v[k]).0.place() == b.0 && v[k].1.place() == b.1,
    )
}

impl View for Basin {
    type V = BasinView;

    closed spec fn view(&self) -> BasinView {
        BasinView {
            walls: places(self.walls@),
            blizzards: winds(self.blizzards@),
            num_rows: self.num_rows as int,
            num_cols: self.num_cols as int,
        }
    }
}

impl Basin {
    /// There are rows and columns, the start and the goal are where the view says, and
    /// no blizzard starts further out than an `i64` says with room to spare.
    pub closed spec fn wf(&self) -> bool {
        &&& self.num_rows > 0
        &&& self.num_cols > 0
        &&& self.start.place() == self@.start()
        &&& self.goal.place() == self@.goal()
        &&& forall|k: int|
            0 <= k < self.blizzards@.len() ==> -0x4000_0000_0000_0000 <= (
            #[trigger] self.blizzards@[k]).0.row <= 0x4000_0000_0000_0000 && -0x4000_0000_0000_0000
                <= self.blizzards@[k].0.col <= 0x4000_0000_0000_0000 && -1 <= self.blizzards@[k].1.row
                <= 1 && -1 <= self.blizzards@[k].1.col <= 1
    }

    /// Reads a basin, a row to a line: `#` is a wall, `.` is free, and `^`, `v`, `<`
    /// and `>` are blizzards that go up, down, left and right.
    pub fn from_str(s: &str) -> (r: Option<Basin>)
        ensures
            r is Some <==> valid_drawing(lines(s@)),
            r is Some ==> r.unwrap().wf() && r.unwrap()@ == basin_of(lines(s@)),
    {
        let all = chars_of(s);
        let rows = lines_of(&all);
        let ghost texts = views(rows@);
        let limit: usize = 0x3fff_ffff;
        if rows.len() < 3 || rows.len() as u64 > 0x3fff_ffff_ffff_ffff {
            return None;
        }
        let last = rows.len() - 1;
        assert(texts.last() == rows@[last as int]@);
        let width = rows[last].len();
        if width < 3 || width as u64 > 0x3fff_ffff_ffff_ffff {
            return None;
        }
        let mut walls: Vec<Position> = Vec::new();
        let mut blizzards: Vec<(Position, Position)> = Vec::new();
        walls.push(Position::new(-2, 0));
        proof {
            assert forall|p: (int, int)| #[trigger] places(walls@).contains(p) <==> wall_before(
                texts,
                p,
                0,
                0,
            ) by {
                if p == (-2int, 0int) {
                    assert(walls@[0].place() == p);
                }
            }
            assert forall|b: ((int, int), (int, int))| #[trigger] winds(blizzards@).contains(b)
                <==> blizzard_before(texts, b, 0, 0) by {}
        }
        let mut i: usize = 0;
        while i < rows.len()
            invariant
                i <= rows.len(),
                texts == views(rows@),
                texts == lines(s@),
                3 <= rows.len() <= 0x3fff_ffff_ffff_ffff,
                3 <= width <= 0x3fff_ffff_ffff_ffff,
                width == texts.last().len(),
                forall|r: int| 0 <= r < i ==> (#[trigger] texts[r]).len() <= width,
                forall|r: int, c: int|
                    0 <= r < i && 0 <= c < texts[r].len() ==> #[trigger] texts[r][c] == '#'
                        || texts[r][c] == '.' || step_of(texts[r][c]) is Some,
                forall|p: (int, int)|
                    #[trigger] places(walls@).contains(p) <==> wall_before(texts, p, i as int, 0),
                forall|b: ((int, int), (int, int))|
                    #[trigger] winds(blizzards@).contains(b) <==> blizzard_before(
                        texts,
                        b,
                        i as int,
                        0,
                    ),
                forall|k: int|
                    0 <= k < blizzards@.len() ==> -1 <= (#[trigger] blizzards@[k]).0.row
                        <= 0x4000_0000_0000_0000 && -1 <= blizzards@[k].0.col
                        <= 0x4000_0000_0000_0000 && -1 <= blizzards@[k].1.row <= 1 && -1
                        <= blizzards@[k].1.col <= 1,
            decreases rows.len() - i,
        {
            assert(texts[i as int] == rows@[i as int]@);
            let line = &rows[i];
            if line.len() > width {
                return None;
            }
            let mut j: usize = 0;
            while j < line.len()
                invariant
                    j <= line.len(),
                    i < rows.len(),
                    line@ == texts[i as int],
                    line.len() <= width,
                    texts == views(rows@),
                    texts == lines(s@),
                    3 <= rows.len() <= 0x3fff_ffff_ffff_ffff,
                    3 <= width <= 0x3fff_ffff_ffff_ffff,
                    forall|c: int|
                        0 <= c < j ==> #[trigger] texts[i as int][c] == '#' || texts[i as int][c]
                            == '.' || step_of(texts[i as int][c]) is Some,
                    forall|p: (int, int)|
                        #[trigger] places(walls@).contains(p) <==> wall_before(
                            texts,
                            p,
                            i as int,
                            j as int,
                        ),
                    forall|b: ((int, int), (int, int))|
                        #[trigger] winds(blizzards@).contains(b) <==> blizzard_before(
                            texts,
                            b,
                            i as int,
                            j as int,
                        ),
                    forall|k: int|
                        0 <= k < blizzards@.len() ==> -1 <= (#[trigger] blizzards@[k]).0.row
                            <= 0x4000_0000_0000_0000 && -1 <= blizzards@[k].0.col
                            <= 0x4000_0000_0000_0000 && -1 <= blizzards@[k].1.row <= 1 && -1
                            <= blizzards@[k].1.col <= 1,
                decreases line.len() - j,
            {
                let ch = line[j];
                let pos = Position::new(i as i64 - 1, j as i64 - 1);
                let ghost old_walls = walls@;
                let ghost old_winds = blizzards@;
                if ch == '#' {
                    walls.push(pos);
                    assert(walls@[old_walls.len() as int].place() == pos.place());
                    assert forall|p: (int, int)| #[trigger] places(walls@).contains(p) <==> (places(
                        old_walls,
                    ).contains(p) || p == pos.place()) by {
                        if places(old_walls).contains(p) {
                            let k = choose|k: int|
                                0 <= k < old_walls.len() && #[trigger] old_walls[k].place() == p;
                            assert(walls@[k].place() == p);
                        }
                        if places(walls@).contains(p) {
                            let k = choose|k: int|
                                0 <= k < walls@.len() && #[trigger] walls@[k].place() == p;
                            if k < old_walls.len() {
                                assert(old_walls[k].place() == p);
                            }
                        }
                    }
                } else if ch == '.' {
                } else {
                    let dir = if ch == '^' {
                        Position::new(-1, 0)
                    } else if ch == 'v' {
                        Position::new(1, 0)
                    } else if ch == '<' {
                        Position::new(0, -1)
                    } else if ch == '>' {
                        Position::new(0, 1)
                    } else {
                        assert(step_of(texts[i as int][j as int]) is None);
                        return None;
                    };
                    blizzards.push((pos, dir));
                    assert(blizzards@[old_winds.len() as int] == (pos, dir));
                    assert forall|b: ((int, int), (int, int))| #[trigger] winds(blizzards@).contains(
                        b,
                    ) <==> (winds(old_winds).contains(b) || b == (pos.place(), dir.place())) by {
                        if winds(old_winds).contains(b) {
                            let k = choose|k: int|
                                0 <= k < old_winds.len() && (#[trigger] old_winds[k]).0.place() == b.0
                                    && old_winds[k].1.place() == b.1;
                            assert(blizzards@[k].0.place() == b.0);
                        }
                        if winds(blizzards@).contains(b) {
                            let k = choose|k: int|
                                0 <= k < blizzards@.len() && (#[trigger] blizzards@[k]).0.place()
                                    == b.0 && blizzards@[k].1.place() == b.1;
                            if k < old_winds.len() {
                                assert(old_winds[k].0.place() == b.0);
                            }
                        }
                    }
                }
                proof {
                    assert forall|p: (int, int)| #[trigger] places(walls@).contains(p)
                        <==> wall_before(texts, p, i as int, j + 1) by {
                        assert(places(old_walls).contains(p) <==> wall_before(
                            texts,
                            p,
                            i as int,
                            j as int,
                        ));
                    }
                    assert forall|b: ((int, int), (int, int))| #[trigger] winds(blizzards@).contains(
                        b,
                    ) <==> blizzard_before(texts, b, i as int, j + 1) by {
                        assert(winds(old_winds).contains(b) <==> blizzard_before(
                            texts,
                            b,
                            i as int,
                            j as int,
                        ));
                    }
                }
                j += 1;
            }
            proof {
                assert forall|p: (int, int)| #[trigger] places(walls@).contains(p) <==> wall_before(
                    texts,
                    p,
                    i + 1,
                    0,
                ) by {
                    assert(places(walls@).contains(p) <==> wall_before(
                        texts,
                        p,
                        i as int,
                        line.len() as int,
                    ));
                }
                assert forall|b: ((int, int), (int, int))| #[trigger] winds(blizzards@).contains(b)
                    <==> blizzard_before(texts, b, i + 1, 0) by {
                    assert(winds(blizzards@).contains(b) <==> blizzard_before(
                        texts,
                        b,
                        i as int,
                        line.len() as int,
                    ));
                }
            }
            i += 1;
        }
        let num_rows = rows.len() as i64 - 2;
        let num_cols = width as i64 - 2;
        let basin = Basin {
            walls,
            blizzards,
            num_rows,
            num_cols,
            start: Position::new(-1, 0),
            goal: Position::new(num_rows, num_cols - 1),
        };
        proof {
            assert forall|p: (int, int)| basin@.walls.contains(p) <==> basin_of(
                texts,
            ).walls.contains(p) by {
                assert(places(basin.walls@).contains(p) <==> wall_before(
                    texts,
                    p,
                    rows.len() as int,
                    0,
                ));
            }
            assert forall|b: ((int, int), (int, int))| basin@.blizzards.contains(b) <==> basin_of(
                texts,
            ).blizzards.contains(b) by {
                assert(winds(basin.blizzards@).contains(b) <==> blizzard_before(
                    texts,
                    b,
                    rows.len() as int,
                    0,
                ));
            }
            assert(basin@.walls =~= basin_of(texts).walls);
            assert(basin@.blizzards =~= basin_of(texts).blizzards);
        }
        Some(basin)
    }

    /// Whether a wall stands at `p`.
    pub fn is_wall(&self, p: &Position) -> (b: bool)
        ensures
            b == self@.walls.contains(p.place()),
    {
        let mut k: usize = 0;
        while k < self.walls.len()
            invariant
                k <= self.walls.len(),
                forall|j: int| 0 <= j < k ==> (#[trigger] self.walls@[j]).place() != p.place(),
            decreases self.walls.len() - k,
        {
            let w = self.walls[k];
            if w.row == p.row && w.col == p.col {
                assert(self.walls@[k as int].place() == p.place());
                return true;
            }
            k += 1;
        }
        false
    }

    /// Whether a blizzard is at `p` after `minutes` minutes.
    pub fn is_blizzard(&self, p: &Position, minutes: i64) -> (b: bool)
        requires
            self.wf(),
            0 <= minutes,
        ensures
            b == self@.blizzard_at(p.place(), minutes as int),
    {
        let mut k: usize = 0;
        while k < self.blizzards.len()
            invariant
                k <= self.blizzards.len(),
                self.wf(),
                0 <= minutes,
                forall|j: int|
                    0 <= j < k ==> self@.place_of(
                        ((#[trigger] self.blizzards@[j]).0.place(), self.blizzards@[j].1.place()),
                        minutes as int,
                    ) != p.place(),
            decreases self.blizzards.len() - k,
        {
            let (at, step) = self.blizzards[k];
            assert(self.blizzards@[k as int] == (at, step));
            assert(-0x8000_0000_0000_0000 <= (step.row as int) * (minutes as int)
                <= 0x8000_0000_0000_0000 && -0x8000_0000_0000_0000 <= (step.col as int) * (
            minutes as int) <= 0x8000_0000_0000_0000) by (nonlinear_arith)
                requires
                    -1 <= step.row <= 1,
                    -1 <= step.col <= 1,
                    0 <= minutes <= 0x7fff_ffff_ffff_ffff,
            ;
            let row = wrap(at.row as i128 + (step.row as i128) * (minutes as i128), self.num_rows as i128);
            let col = wrap(at.col as i128 + (step.col as i128) * (minutes as i128), self.num_cols as i128);
            if row == p.row as i128 && col == p.col as i128 {
                assert(self@.blizzards.contains((at.place(), step.place())));
                assert(self@.place_of((at.place(), step.place()), minutes as int) == p.place());
                return true;
            }
            k += 1;
        }
        proof {
            if self@.blizzard_at(p.place(), minutes as int) {
                let b = choose|b: ((int, int), (int, int))|
                    self@.blizzards.contains(b) && #[trigger] self@.place_of(b, minutes as int)
                        == p.place();
                let j = choose|j: int|
                    0 <= j < self.blizzards@.len() && (#[trigger] self.blizzards@[j]).0.place() == b.0
                        && self.blizzards@[j].1.place() == b.1;
                assert(self@.place_of(
                    (self.blizzards@[j].0.place(), self.blizzards@[j].1.place()),
                    minutes as int,
                ) != p.place());
                assert(false);
            }
        }
        false
    }
}

/// Whether `p` is in the list.
pub fn holds(v: &Vec<Position>, p: &Position) -> (b: bool)
    ensures
        b == places(v@).contains(p.place()),
{
    let mut k: usize = 0;
    while k < v.len()
        invariant
            k <= v.len(),
            forall|j: int| 0 <= j < k ==> (#[trigger] v@[j]).place() != p.place(),
        decreases v.len() - k,
    {
        let w = v[k];
        if w.row == p.row && w.col == p.col {
            assert(v@[k as int].place() == p.place());
            return true;
        }
        k += 1;
    }
    false
}

/// The places that one can reach in minute `t` from the first `n` places of `from`.
pub open spec fn reach_from(b: BasinView, from: Seq<Position>, n: int, t: int) -> Set<(int, int)> {
    Set::new(
        |p: (int, int)|
            b.free(p, t) && exists|k: int| 0 <= k < n && k < from.len() && #[trigger] near(from[k].place(), p),
    )
}

impl Basin {
    /// The places where one can be after minute `minutes`, given those where one can be
    /// after the minute before.
    pub fn step(&self, current: &Vec<Position>, minutes: i64) -> (next: Vec<Position>)
        requires
            self.wf(),
            1 <= minutes <= i64::MAX - 2,
            forall|k: int|
                0 <= k < current@.len() ==> -minutes <= (#[trigger] current@[k]).row <= minutes - 2
                    && -minutes <= current@[k].col <= minutes,
        ensures
            places(next@) == reach_from(self@, current@, current@.len() as int, minutes as int),
            forall|k: int|
                0 <= k < next@.len() ==> -minutes - 1 <= (#[trigger] next@[k]).row <= minutes - 1
                    && -minutes - 1 <= next@[k].col <= minutes + 1,
    {
        let ghost b = self@;
        let mut next: Vec<Position> = Vec::new();
        let mut i: usize = 0;
        assert(places(next@) =~= reach_from(b, current@, 0, minutes as int));
        while i < current.len()
            invariant
                i <= current.len(),
                self.wf(),
                b == self@,
                1 <= minutes <= i64::MAX - 2,
                forall|k: int|
                    0 <= k < current@.len() ==> -minutes <= (#[trigger] current@[k]).row <= minutes
                        - 2 && -minutes <= current@[k].col <= minutes,
                places(next@) == reach_from(b, current@, i as int, minutes as int),
                forall|k: int|
                    0 <= k < next@.len() ==> -minutes - 1 <= (#[trigger] next@[k]).row <= minutes
                        - 1 && -minutes - 1 <= next@[k].col <= minutes + 1,
            decreases current.len() - i,
        {
            let q = current[i];
            let around = q.neighbors();
            let ghost before = places(next@);
            let mut n: usize = 0;
            while n < 5
                invariant
                    n <= 5,
                    i < current.len(),
                    self.wf(),
                    b == self@,
                    q == current@[i as int],
                    1 <= minutes <= i64::MAX - 2,
                    -minutes <= q.row <= minutes - 2 && -minutes <= q.col <= minutes,
                    around@[0].place() == (q.row - 1, q.col as int),
                    around@[1].place() == (q.row + 1, q.col as int),
                    around@[2].place() == (q.row as int, q.col - 1),
                    around@[3].place() == (q.row as int, q.col + 1),
                    around@[4].place() == (q.row as int, q.col as int),
                    forall|p: (int, int)|
                        #[trigger] places(next@).contains(p) <==> (before.contains(p) || (b.free(
                            p,
                            minutes as int,
                        ) && exists|m: int| 0 <= m < n && p == around@[m].place())),
                    forall|k: int|
                        0 <= k < next@.len() ==> -minutes - 1 <= (#[trigger] next@[k]).row
                            <= minutes - 1 && -minutes - 1 <= next@[k].col <= minutes + 1,
                decreases 5 - n,
            {
                let p = around[n];
                let ghost old_next = next@;
                let free = !self.is_blizzard(&p, minutes) && !self.is_wall(&p);
                if free && !holds(&next, &p) {
                    next.push(p);
                    assert(next@[old_next.len() as int].place() == p.place());
                }
                proof {
                    assert forall|x: (int, int)| #[trigger] places(next@).contains(x) <==> (
                    before.contains(x) || (b.free(x, minutes as int) && exists|m: int|
                        0 <= m < n + 1 && x == around@[m].place())) by {
                        assert(places(old_next).contains(x) <==> (before.contains(x) || (b.free(
                            x,
                            minutes as int,
                        ) && exists|m: int| 0 <= m < n && x == around@[m].place())));
                        if places(old_next).contains(x) {
                            let k = choose|k: int|
                                0 <= k < old_next.len() && #[trigger] old_next[k].place() == x;
                            assert(next@[k].place() == x);
                        }
                        if places(next@).contains(x) {
                            let k = choose|k: int|
                                0 <= k < next@.len() && #[trigger] next@[k].place() == x;
                            if k < old_next.len() {
                                assert(old_next[k].place() == x);
                            } else {
                                assert(x == around@[n as int].place());
                            }
                        }
                        if x == around@[n as int].place() && b.free(x, minutes as int) {
                            if !places(old_next).contains(x) {
                                assert(next@[old_next.len() as int].place() == x);
                            }
                        }
                    }
                }
                n += 1;
            }
            proof {
                assert forall|p: (int, int)| places(next@).contains(p) <==> reach_from(
                    b,
                    current@,
                    i + 1,
                    minutes as int,
                ).contains(p) by {
                    assert(before.contains(p) <==> reach_from(
                        b,
                        current@,
                        i as int,
                        minutes as int,
                    ).contains(p));
                    if exists|m: int| 0 <= m < 5 && p == around@[m].place() {
                        assert(near(current@[i as int].place(), p));
                    }
                    if near(q.place(), p) {
                        assert(p == around@[0].place() || p == around@[1].place() || p
                            == around@[2].place() || p == around@[3].place() || p
                            == around@[4].place());
                    }
                    if reach_from(b, current@, i + 1, minutes as int).contains(p) {
                        let k = choose|k: int|
                            0 <= k < i + 1 && k < current@.len() && #[trigger] near(
                                current@[k].place(),
                                p,
                            );
                        if k < i {
                            assert(reach_from(b, current@, i as int, minutes as int).contains(p));
                        }
                    }
                }
                assert(places(next@) =~= reach_from(b, current@, i + 1, minutes as int));
            }
            i += 1;
        }
        next
    }

    /// Whether the goal is in the list.
    pub fn has_goal(&self, current: &Vec<Position>) -> (b: bool)
        requires
            self.wf(),
        ensures
            b == places(current@).contains(self@.goal()),
    {
        holds(current, &self.goal)
    }

    /// The fewest minutes in which one reaches the goal.
    pub fn fewest_minutes_to_goal(&self) -> (minutes: i64)
        requires
            self.wf(),
            can_arrive(self@),
        ensures
            is_fewest(self@, minutes as int),
    {
        let ghost b = self@;
        let ghost last = choose|t: int| #[trigger] arrives(b, t) && t <= i64::MAX - 2;
        let mut minutes: i64 = 1;
        let mut current: Vec<Position> = Vec::new();
        current.push(self.start);
        proof {
            assert(current@[0].place() == b.start());
            assert(places(current@) =~= reach(b, 0));
        }
        loop
            invariant
                self.wf(),
                b == self@,
                1 <= minutes <= last,
                arrives(b, last),
                last <= i64::MAX - 2,
                places(current@) == reach(b, (minutes - 1) as nat),
                forall|u: int| 1 <= u < minutes ==> !arrives(b, u),
                forall|k: int|
                    0 <= k < current@.len() ==> -minutes <= (#[trigger] current@[k]).row <= minutes
                        - 2 && -minutes <= current@[k].col <= minutes,
            decreases last - minutes,
        {
            let next = self.step(&current, minutes);
            proof {
                assert forall|p: (int, int)| places(next@).contains(p) <==> reach(
                    b,
                    minutes as nat,
                ).contains(p) by {
                    if reach_from(b, current@, current@.len() as int, minutes as int).contains(p) {
                        let k = choose|k: int|
                            0 <= k < current@.len() && #[trigger] near(current@[k].place(), p);
                        assert(places(current@).contains(current@[k].place()));
                    }
                    if reach(b, minutes as nat).contains(p) {
                        let q = choose|q: (int, int)|
                            reach(b, (minutes - 1) as nat).contains(q) && #[trigger] near(q, p);
                        assert(places(current@).contains(q));
                        let k = choose|k: int|
                            0 <= k < current@.len() && #[trigger] current@[k].place() == q;
                        assert(near(current@[k].place(), p));
                    }
                }
                assert(places(next@) =~= reach(b, minutes as nat));
            }
            current = next;
            if self.has_goal(&current) {
                return minutes;
            }
            minutes += 1;
        }
    }
}

/// The fewest minutes in which one crosses the basin that `s` draws, from the gap in its
/// upper wall to the gap in its lower wall.
pub fn fewest_minutes_to_goal(s: &str) -> (minutes: i64)
    requires
        valid_drawing(lines(s@)),
        can_arrive(basin_of(lines(s@))),
    ensures
        is_fewest(basin_of(lines(s@)), minutes as int),
{
    let basin = match Basin::from_str(s) {
        Some(basin) => basin,
        None => unreached(),
    };
    basin.fewest_minutes_to_goal()
}

impl Basin {
    /// The fewest minutes in which one reaches the goal, if they are at most `limit`;
    /// `None` where one does not reach it in so many.
    pub fn fewest_minutes_within(&self, limit: i64) -> (r: Option<i64>)
        requires
            self.wf(),
            limit <= i64::MAX - 2,
        ensures
            match r {
                Some(minutes) => is_fewest(self@, minutes as int) && minutes <= limit,
                None => forall|t: int| 1 <= t <= limit ==> !arrives(self@, t),
            },
    {
        let ghost b = self@;
        if limit < 1 {
            return None;
        }
        let mut minutes: i64 = 1;
        let mut current: Vec<Position> = Vec::new();
        current.push(self.start);
        proof {
            assert(current@[0].place() == b.start());
            assert(places(current@) =~= reach(b, 0));
        }
        loop
            invariant
                self.wf(),
                b == self@,
                1 <= minutes <= limit,
                limit <= i64::MAX - 2,
                places(current@) == reach(b, (minutes - 1) as nat),
                forall|u: int| 1 <= u < minutes ==> !arrives(b, u),
                forall|k: int|
                    0 <= k < current@.len() ==> -minutes <= (#[trigger] current@[k]).row <= minutes
                        - 2 && -minutes <= current@[k].col <= minutes,
            decreases limit - minutes,
        {
            let next = self.step(&current, minutes);
            proof {
                assert forall|p: (int, int)| places(next@).contains(p) <==> reach(
                    b,
                    minutes as nat,
                ).contains(p) by {
                    if reach_from(b, current@, current@.len() as int, minutes as int).contains(p) {
                        let k = choose|k: int|
                            0 <= k < current@.len() && #[trigger] near(current@[k].place(), p);
                        assert(places(current@).contains(current@[k].place()));
                    }
                    if reach(b, minutes as nat).contains(p) {
                        let q = choose|q: (int, int)|
                            reach(b, (minutes - 1) as nat).contains(q) && #[trigger] near(q, p);
                        assert(places(current@).contains(q));
                        let k = choose|k: int|
                            0 <= k < current@.len() && #[trigger] current@[k].place() == q;
                        assert(near(current@[k].place(), p));
                    }
                }
                assert(places(next@) =~= reach(b, minutes as nat));
            }
            current = next;
            if self.has_goal(&current) {
                return Some(minutes);
            }
            if minutes == limit {
                return None;
            }
            minutes += 1;
        }
    }
}

/// The fewest minutes in which one crosses the basin that `s` draws, if they are at most
/// `limit`; `None` where the drawing is not valid or one does not cross it in so many.
pub fn fewest_minutes_within(s: &str, limit: i64) -> (r: Option<i64>)
    requires
        limit <= i64::MAX - 2,
    ensures
        match r {
            Some(minutes) => valid_drawing(lines(s@)) && is_fewest(
                basin_of(lines(s@)),
                minutes as int,
            ) && minutes <= limit,
            None => !valid_drawing(lines(s@)) || forall|t: int|
                1 <= t <= limit ==> !arrives(basin_of(lines(s@)), t),
        },
{
    match Basin::from_str(s) {
        Some(basin) => basin.fewest_minutes_within(limit),
        None => None,
    }
}

} // verus!
