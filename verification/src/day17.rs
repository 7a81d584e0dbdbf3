//! Rocks falling into a shaft seven cells wide, pushed sideways by jets of gas.
//!
//! Columns are counted from the left wall and rows upward from the floor, both from zero.

use crate::text::{chars_of, trim, trimmed};
use vstd::arithmetic::div_mod::{
    lemma_add_mod_noop, lemma_mod_bound, lemma_mod_self_0, lemma_mod_twice, lemma_small_mod,
};
use vstd::math::max;
use vstd::pervasive::unreached;
use vstd::prelude::*;

verus! {

/// Width of the shaft.
pub const WIDTH: usize = 7;

/// Number of kinds of rock.
pub const NUM_ROCK_KINDS: usize = 5;

/// Number of rocks dropped by [`tower_height`].
pub const NUM_ROCKS: usize = 2022;

/// A column and a row.
#[derive(Debug, Clone, Copy, PartialEq, Eq, Structural)]
pub struct Position {
    pub x: usize,
    pub y: usize,
}

impl Position {
    /// The pair of column and row.
    pub open spec fn cell(self) -> (int, int) {
        (self.x as int, self.y as int)
    }

    pub fn new(x: usize, y: usize) -> (p: Self)
        ensures
            p.x == x,
            p.y == y,
    {
        Self { x, y }
    }
}

/// The cells that a list of positions names, in order.
pub open spec fn cells_of(v: Seq<Position>) -> Seq<(int, int)> {
    Seq::new(v.len(), |k: int| v[k].cell())
}

/// The five kinds of rock.
#[derive(Debug, Clone, Copy, PartialEq, Eq, Structural)]
pub enum Rock {
    HorizontalBar,
    Plus,
    InvertedL,
    VerticalBar,
    Square,
}

/// The kinds of rock in the order in which they are dropped.
pub open spec fn catalog() -> Seq<Rock> {
    seq![Rock::HorizontalBar, Rock::Plus, Rock::InvertedL, Rock::VerticalBar, Rock::Square]
}

/// The kind of the rock that is dropped after `i` others.
pub open spec fn rock_at(i: nat) -> Rock {
    catalog()[(i % 5) as int]
}

impl Rock {
    /// Number of rows that the rock spans.
    pub open spec fn rows(self) -> int {
        match self {
            Rock::HorizontalBar => 1,
            Rock::Plus => 3,
            Rock::InvertedL => 3,
            Rock::VerticalBar => 4,
            Rock::Square => 2,
        }
    }

    /// Number of columns that the rock spans.
    pub open spec fn cols(self) -> int {
        match self {
            Rock::HorizontalBar => 4,
            Rock::Plus => 3,
            Rock::InvertedL => 3,
            Rock::VerticalBar => 1,
            Rock::Square => 2,
        }
    }

    /// The cells of the rock, as column and row counted from the lower left corner of the
    /// rectangle around it.
    pub open spec fn cells(self) -> Seq<(int, int)> {
        match self {
            Rock::HorizontalBar => seq![(0, 0), (1, 0), (2, 0), (3, 0)],
            Rock::Plus => seq![(1, 0), (0, 1), (1, 1), (2, 1), (1, 2)],
            Rock::InvertedL => seq![(0, 0), (1, 0), (2, 0), (2, 1), (2, 2)],
            Rock::VerticalBar => seq![(0, 0), (0, 1), (0, 2), (0, 3)],
            Rock::Square => seq![(0, 0), (1, 0), (0, 1), (1, 1)],
        }
    }

    /// The cells of the rock that are taken to touch what it comes to rest on.
    pub open spec fn edge_cells(self) -> Seq<(int, int)> {
        match self {
            Rock::HorizontalBar => seq![(0, 0), (1, 0), (2, 0), (3, 0)],
            Rock::Plus => seq![(0, 1), (2, 1), (1, 0)],
            Rock::InvertedL => seq![(2, 2), (2, 1), (0, 0), (1, 0), (2, 0)],
            Rock::VerticalBar => seq![(0, 0)],
            Rock::Square => seq![(0, 0), (1, 0)],
        }
    }

    /// The kind of the rock that is dropped after `i` others: the kinds come round in the
    /// order of [`catalog`].
    pub fn nth(i: usize) -> (rock: Rock)
        ensures
            rock == rock_at(i as nat),
            rock == catalog()[(i % 5) as int],
    {
        let k: usize = i % NUM_ROCK_KINDS;
        if k == 0 {
            Rock::HorizontalBar
        } else if k == 1 {
            Rock::Plus
        } else if k == 2 {
            Rock::InvertedL
        } else if k == 3 {
            Rock::VerticalBar
        } else {
            Rock::Square
        }
    }

    pub fn height(&self) -> (h: usize)
        ensures
            h == self.rows(),
    {
        match self {
            Rock::HorizontalBar => 1,
            Rock::Plus => 3,
            Rock::InvertedL => 3,
            Rock::VerticalBar => 4,
            Rock::Square => 2,
        }
    }

    pub fn width(&self) -> (w: usize)
        ensures
            w == self.cols(),
    {
        match self {
            Rock::HorizontalBar => 4,
            Rock::Plus => 3,
            Rock::InvertedL => 3,
            Rock::VerticalBar => 1,
            Rock::Square => 2,
        }
    }

    pub fn shape(&self) -> (v: Vec<Position>)
        ensures
            cells_of(v@) == self.cells(),
    {
        let v = match self {
            Rock::HorizontalBar => vec![
                Position::new(0, 0),
                Position::new(1, 0),
                Position::new(2, 0),
                Position::new(3, 0),
            ],
            Rock::Plus => vec![
                Position::new(1, 0),
                Position::new(0, 1),
                Position::new(1, 1),
                Position::new(2, 1),
                Position::new(1, 2),
            ],
            Rock::InvertedL => vec![
                Position::new(0, 0),
                Position::new(1, 0),
                Position::new(2, 0),
                Position::new(2, 1),
                Position::new(2, 2),
            ],
            Rock::VerticalBar => vec![
                Position::new(0, 0),
                Position::new(0, 1),
                Position::new(0, 2),
                Position::new(0, 3),
            ],
            Rock::Square => vec![
                Position::new(0, 0),
                Position::new(1, 0),
                Position::new(0, 1),
                Position::new(1, 1),
            ],
        };
        assert(cells_of(v@) =~= self.cells());
        v
    }

    pub fn resting_edges(&self) -> (v: Vec<Position>)
        ensures
            cells_of(v@) == self.edge_cells(),
    {
        let v = match self {
            Rock::HorizontalBar => vec![
                Position::new(0, 0),
                Position::new(1, 0),
                Position::new(2, 0),
                Position::new(3, 0),
            ],
            Rock::Plus => vec![Position::new(0, 1), Position::new(2, 1), Position::new(1, 0)],
            Rock::InvertedL => vec![
                Position::new(2, 2),
                Position::new(2, 1),
                Position::new(0, 0),
                Position::new(1, 0),
                Position::new(2, 0),
            ],
            Rock::VerticalBar => vec![Position::new(0, 0)],
            Rock::Square => vec![Position::new(0, 0), Position::new(1, 0)],
        };
        assert(cells_of(v@) =~= self.edge_cells());
        v
    }

    /// Every cell of a rock lies in the rectangle of its columns and rows; the lower left
    /// cell of the left column, the lowest row and the top row each hold a cell.
    pub proof fn lemma_cells_in_box(self)
        ensures
            0 < self.cells().len() <= 5,
            0 < self.rows() <= 4,
            0 < self.cols() <= 4,
            forall|k: int|
                0 <= k < self.cells().len() ==> 0 <= (#[trigger] self.cells()[k]).0 < self.cols()
                    && 0 <= self.cells()[k].1 < self.rows(),
            exists|k: int| 0 <= k < self.cells().len() && (#[trigger] self.cells()[k]).0 == 0,
            exists|k: int| 0 <= k < self.cells().len() && (#[trigger] self.cells()[k]).1 == 0,
            exists|k: int|
                0 <= k < self.cells().len() && (#[trigger] self.cells()[k]).1 == self.rows() - 1,
            exists|k: int|
                0 <= k < self.cells().len() && (#[trigger] self.cells()[k]).0 == self.cols() - 1,
    {
        match self {
            Rock::HorizontalBar => {
                assert(self.cells()[0] == (0int, 0int));
                assert(self.cells()[3] == (3int, 0int));
            },
            Rock::Plus => {
                assert(self.cells()[0] == (1int, 0int));
                assert(self.cells()[1] == (0int, 1int));
                assert(self.cells()[3] == (2int, 1int));
                assert(self.cells()[4] == (1int, 2int));
            },
            Rock::InvertedL => {
                assert(self.cells()[0] == (0int, 0int));
                assert(self.cells()[4] == (2int, 2int));
            },
            Rock::VerticalBar => {
                assert(self.cells()[0] == (0int, 0int));
                assert(self.cells()[3] == (0int, 3int));
            },
            Rock::Square => {
                assert(self.cells()[0] == (0int, 0int));
                assert(self.cells()[3] == (1int, 1int));
            },
        }
    }
}

/// A push by a jet of gas.
#[derive(Debug, Clone, Copy, PartialEq, Eq, Structural)]
pub enum Direction {
    Right,
    Left,
}

impl Direction {
    /// The change of column that the push asks for.
    pub open spec fn shift(self) -> int {
        match self {
            Direction::Right => 1,
            Direction::Left => -1,
        }
    }
}

/// What a cell of the shaft holds.
#[derive(Debug, Clone, Copy, PartialEq, Eq, Structural)]
pub enum CellState {
    Empty,
    StoppedRock,
}

/// The rocks at rest in a shaft: the cells they fill, the number of rows up to the highest
/// of them, and how many rocks have come to rest.
pub struct Tower {
    pub cells: Set<(int, int)>,
    pub height: nat,
    pub rested: nat,
}

impl Tower {
    /// The shaft before the first rock.
    pub open spec fn empty() -> Tower {
        Tower { cells: Set::empty(), height: 0, rested: 0 }
    }

    /// Every filled cell lies between the walls, on or above the floor and below `height`,
    /// and the row under `height` holds a filled cell.
    pub open spec fn wf(self) -> bool {
        &&& forall|p: (int, int)| #[trigger]
            self.cells.contains(p) ==> 0 <= p.0 < 7 && 0 <= p.1 < self.height
        &&& self.height > 0 ==> exists|x: int| #[trigger] self.cells.contains((x, self.height - 1))
    }
}

/// Whether the cell at column `x` and row `y` lies in the shaft and is not filled.
pub open spec fn cell_free(cells: Set<(int, int)>, x: int, y: int) -> bool {
    0 <= x < 7 && 0 <= y && !cells.contains((x, y))
}

/// Whether `rock`, with the lower left corner of its rectangle at column `x` and row `y`,
/// lies between the walls and above the floor and touches no filled cell.
pub open spec fn fits(cells: Set<(int, int)>, rock: Rock, x: int, y: int) -> bool {
    forall|k: int|
        0 <= k < rock.cells().len() ==> cell_free(
            cells,
            x + (#[trigger] rock.cells()[k]).0,
            y + rock.cells()[k].1,
        )
}

/// The cells that the first `n` cells of `rock` fill when it lies at column `x` and row `y`.
pub open spec fn body_upto(rock: Rock, x: int, y: int, n: int) -> Set<(int, int)> {
    Set::new(
        |p: (int, int)|
            exists|k: int|
                0 <= k < n && k < rock.cells().len() && p == (
                    x + (#[trigger] rock.cells()[k]).0,
                    y + rock.cells()[k].1,
                ),
    )
}

/// The cells that `rock` fills when it lies at column `x` and row `y`.
pub open spec fn body(rock: Rock, x: int, y: int) -> Set<(int, int)> {
    body_upto(rock, x, y, rock.cells().len() as int)
}

/// The column of a rock after one push: the push moves it by one column if it fits
/// there, and leaves it where it is if not.
pub open spec fn push(cells: Set<(int, int)>, rock: Rock, x: int, y: int, d: Direction) -> int {
    if fits(cells, rock, x + d.shift(), y) {
        x + d.shift()
    } else {
        x
    }
}

/// Where a falling rock comes to rest, the jet cursor after that, and the ticks it took.
pub struct Landing {
    pub x: int,
    pub y: int,
    pub cursor: nat,
    pub ticks: nat,
}

/// The cursor after `ticks` more ticks: so many places further, going round the pattern.
pub open spec fn cursor_after(jets: Seq<Direction>, cursor: nat, ticks: nat) -> nat {
    ((cursor + ticks) as int % (jets.len() as int)) as nat
}

/// The cursor after one more tick: one further, and back to 0 after the last jet.
pub open spec fn advance(jets: Seq<Direction>, cursor: nat) -> nat {
    cursor_after(jets, cursor, 1)
}

/// The fall of `rock` from column `x` and row `y`. Each tick takes the jet under the
/// cursor, pushes the rock, and then lets it fall by one row; where it cannot fall it
/// rests.
pub open spec fn settle(
    cells: Set<(int, int)>,
    rock: Rock,
    jets: Seq<Direction>,
    cursor: nat,
    x: int,
    y: int,
) -> Landing
    decreases y,
{
    let nx = push(cells, rock, x, y, jets[cursor as int]);
    let next = advance(jets, cursor);
    if y > 0 && fits(cells, rock, nx, y - 1) {
        let l = settle(cells, rock, jets, next, nx, y - 1);
        Landing { x: l.x, y: l.y, cursor: l.cursor, ticks: l.ticks + 1 }
    } else {
        Landing { x: nx, y: y, cursor: next, ticks: 1 }
    }
}

/// The tower with `rock` at rest at column `x` and row `y`.
pub open spec fn rest(t: Tower, rock: Rock, x: int, y: int) -> Tower {
    Tower {
        cells: t.cells.union(body(rock, x, y)),
        height: if y + rock.rows() > t.height {
            (y + rock.rows()) as nat
        } else {
            t.height
        },
        rested: t.rested + 1,
    }
}

/// The fall of the next rock: its kind is `rock_at(t.rested)`, and it starts two columns
/// from the left wall, with three free rows between it and the tower.
pub open spec fn landing(t: Tower, jets: Seq<Direction>, cursor: nat) -> Landing {
    settle(t.cells, rock_at(t.rested), jets, cursor, 2, t.height as int + 3)
}

/// The tower and the jet cursor after the next rock has come to rest.
pub open spec fn drop_one(t: Tower, jets: Seq<Direction>, cursor: nat) -> (Tower, nat) {
    let l = landing(t, jets, cursor);
    (rest(t, rock_at(t.rested), l.x, l.y), l.cursor)
}

/// The tower and the jet cursor after `n` more rocks have come to rest.
pub open spec fn drop_many(t: Tower, jets: Seq<Direction>, cursor: nat, n: nat) -> (Tower, nat)
    decreases n,
{
    if n == 0 {
        (t, cursor)
    } else {
        let before = drop_many(t, jets, cursor, (n - 1) as nat);
        drop_one(before.0, jets, before.1)
    }
}

/// The ticks that `n` more rocks take to come to rest.
pub open spec fn ticks_many(t: Tower, jets: Seq<Direction>, cursor: nat, n: nat) -> nat
    decreases n,
{
    if n == 0 {
        0
    } else {
        let before = drop_many(t, jets, cursor, (n - 1) as nat);
        ticks_many(t, jets, cursor, (n - 1) as nat) + landing(before.0, jets, before.1).ticks
    }
}

/// The jet that a character of a pattern stands for.
pub open spec fn jet_of(c: char) -> Option<Direction> {
    if c == '<' {
        Some(Direction::Left)
    } else if c == '>' {
        Some(Direction::Right)
    } else {
        None
    }
}

/// A pattern is valid if it is not empty and holds no character but `<` and `>`.
pub open spec fn valid_pattern(s: Seq<char>) -> bool {
    s.len() > 0 && forall|i: int| 0 <= i < s.len() ==> jet_of(#[trigger] s[i]) is Some
}

/// The jets of a pattern, in order.
pub open spec fn pattern_of(s: Seq<char>) -> Seq<Direction> {
    Seq::new(s.len(), |i: int| jet_of(s[i]).unwrap())
}

/// Why a run could not be made.
#[derive(Debug, Clone, Copy, PartialEq, Eq, Structural)]
pub enum TowerError {
    /// The pattern is empty or holds a character other than `<` and `>`.
    Parse,
    /// The tower could outgrow the rows that can be counted.
    CapacityExceeded,
}

/// The jets of a pattern, read over and over.
#[derive(Debug)]
pub struct JetStream {
    pattern: Vec<Direction>,
    cursor: usize,
}

impl JetStream {
    /// The pattern.
    pub closed spec fn jets(&self) -> Seq<Direction> {
        self.pattern@
    }

    /// The place in the pattern of the jet that comes next.
    pub closed spec fn cursor(&self) -> nat {
        self.cursor as nat
    }

    /// The pattern is not empty and the cursor lies in it.
    pub open spec fn wf(&self) -> bool {
        self.cursor() < self.jets().len()
    }

    /// A stream over `pattern` that starts with its first jet; `None` for an empty pattern.
    pub fn new(pattern: Vec<Direction>) -> (r: Option<JetStream>)
        ensures
            r is Some <==> pattern@.len() > 0,
            r is Some ==> r.unwrap().wf() && r.unwrap().jets() == pattern@ && r.unwrap().cursor()
                == 0,
    {
        if pattern.len() == 0 {
            None
        } else {
            Some(JetStream { pattern, cursor: 0 })
        }
    }

    /// Reads a pattern, leaving out the white space around it.
    pub fn parse(s: &str) -> (r: Result<JetStream, TowerError>)
        ensures
            r is Ok <==> valid_pattern(trim(s@)),
            r is Ok ==> r.unwrap().wf() && r.unwrap().jets() == pattern_of(trim(s@))
                && r.unwrap().cursor() == 0,
            r matches Err(e) ==> e == TowerError::Parse,
    {
        let all = chars_of(s);
        let text = trimmed(&all);
        let mut pattern: Vec<Direction> = Vec::new();
        let mut i: usize = 0;
        while i < text.len()
            invariant
                i <= text.len(),
                text@ == trim(s@),
                pattern@.len() == i,
                forall|j: int| 0 <= j < i ==> jet_of(#[trigger] text@[j]) == Some(pattern@[j]),
            decreases text.len() - i,
        {
            let c = text[i];
            if c == '<' {
                pattern.push(Direction::Left);
            } else if c == '>' {
                pattern.push(Direction::Right);
            } else {
                assert(jet_of(text@[i as int]) is None);
                return Err(TowerError::Parse);
            }
            i += 1;
        }
        assert(text@.len() > 0 ==> pattern@ =~= pattern_of(text@));
        match JetStream::new(pattern) {
            Some(jets) => Ok(jets),
            None => Err(TowerError::Parse),
        }
    }

    /// The next jet. The cursor moves on by one, and from the last jet back to the first.
    pub fn next(&mut self) -> (d: Direction)
        requires
            old(self).wf(),
        ensures
            final(self).wf(),
            final(self).jets() == old(self).jets(),
            d == old(self).jets()[old(self).cursor() as int],
            final(self).cursor() == advance(old(self).jets(), old(self).cursor()),
    {
        let n = self.pattern.len();
        let c = self.cursor;
        let d = self.pattern[c];
        if c + 1 == n {
            proof {
                lemma_mod_self_0(n as int);
            }
            self.cursor = 0;
        } else {
            proof {
                lemma_small_mod((c + 1) as nat, n as nat);
            }
            self.cursor = c + 1;
        }
        d
    }

    /// The place in the pattern of the jet that comes next.
    pub fn position(&self) -> (c: usize)
        ensures
            c == self.cursor(),
    {
        self.cursor
    }

    /// Number of jets in the pattern.
    pub fn len(&self) -> (n: usize)
        ensures
            n == self.jets().len(),
    {
        self.pattern.len()
    }
}

/// A shaft and the rocks at rest in it.
#[derive(Debug)]
pub struct Chamber {
    states: Vec<Vec<CellState>>,
    rested: usize,
}

impl View for Chamber {
    type V = Tower;

    closed spec fn view(&self) -> Tower {
        Tower {
            cells: Set::new(
                |p: (int, int)|
                    0 <= p.1 < self.states@.len() && 0 <= p.0 < self.states@[p.1]@.len()
                        && self.states@[p.1]@[p.0] == CellState::StoppedRock,
            ),
            height: self.states@.len(),
            rested: self.rested as nat,
        }
    }
}

impl Chamber {
    /// Every row is as wide as the shaft, and the tower is well formed.
    pub closed spec fn wf(&self) -> bool {
        &&& forall|r: int| 0 <= r < self.states@.len() ==> (#[trigger] self.states@[r])@.len() == 7
        &&& self@.wf()
    }

    /// An empty shaft.
    pub fn new() -> (c: Chamber)
        ensures
            c.wf(),
            c@ == Tower::empty(),
    {
        let c = Chamber { states: Vec::new(), rested: 0 };
        assert(c@.cells =~= Set::empty());
        c
    }

    /// Number of rows from the floor up to the highest filled cell.
    pub fn height(&self) -> (h: usize)
        ensures
            h == self@.height,
    {
        self.states.len()
    }

    /// Number of rocks at rest.
    pub fn num_rested(&self) -> (n: usize)
        ensures
            n == self@.rested,
    {
        self.rested
    }

    /// Whether the cell at column `x` and row `y` is filled.
    pub fn is_occupied(&self, x: usize, y: usize) -> (b: bool)
        requires
            self.wf(),
        ensures
            b == self@.cells.contains((x as int, y as int)),
    {
        if x < WIDTH && y < self.states.len() {
            self.states[y][x] == CellState::StoppedRock
        } else {
            false
        }
    }

    /// Whether `rock` fits with the lower left corner of its rectangle at column `x` and
    /// row `y`.
    pub fn fits_at(&self, rock: &Rock, x: usize, y: usize) -> (b: bool)
        requires
            self.wf(),
        ensures
            b == fits(self@.cells, *rock, x as int, y as int),
    {
        let shape = rock.shape();
        proof {
            rock.lemma_cells_in_box();
        }
        if x >= WIDTH {
            return false;
        }
        let mut k: usize = 0;
        while k < shape.len()
            invariant
                self.wf(),
                x < WIDTH,
                k <= shape.len(),
                cells_of(shape@) == rock.cells(),
                forall|j: int|
                    0 <= j < rock.cells().len() ==> 0 <= (#[trigger] rock.cells()[j]).0 < 4 && 0
                        <= rock.cells()[j].1 < 4,
                forall|j: int|
                    0 <= j < k ==> cell_free(
                        self@.cells,
                        x + (#[trigger] rock.cells()[j]).0,
                        y + rock.cells()[j].1,
                    ),
            decreases shape.len() - k,
        {
            let p = shape[k];
            assert(p.cell() == cells_of(shape@)[k as int]);
            let cx = x + p.x;
            if cx >= WIDTH {
                return false;
            }
            if p.y < self.states.len() && y < self.states.len() - p.y {
                if self.states[y + p.y][cx] == CellState::StoppedRock {
                    assert(self@.cells.contains((cx as int, y + p.y)));
                    return false;
                }
            }
            k += 1;
        }
        true
    }

    /// Whether `rock` at `position` can fall by one row.
    pub fn can_move_down(&self, rock: &Rock, position: &Position) -> (b: bool)
        requires
            self.wf(),
        ensures
            b == fits(self@.cells, *rock, position.x as int, position.y - 1),
    {
        proof {
            rock.lemma_cells_in_box();
        }
        if position.y == 0 {
            false
        } else {
            self.fits_at(rock, position.x, position.y - 1)
        }
    }

    /// Whether `rock` at `position` can move one column to the left.
    pub fn can_move_left(&self, rock: &Rock, position: &Position) -> (b: bool)
        requires
            self.wf(),
        ensures
            b == fits(self@.cells, *rock, position.x - 1, position.y as int),
    {
        proof {
            rock.lemma_cells_in_box();
        }
        if position.x == 0 {
            false
        } else {
            self.fits_at(rock, position.x - 1, position.y)
        }
    }

    /// Whether `rock` at `position` can move one column to the right.
    pub fn can_move_right(&self, rock: &Rock, position: &Position) -> (b: bool)
        requires
            self.wf(),
        ensures
            b == fits(self@.cells, *rock, position.x + 1, position.y as int),
    {
        proof {
            rock.lemma_cells_in_box();
        }
        if position.x >= WIDTH {
            false
        } else {
            self.fits_at(rock, position.x + 1, position.y)
        }
    }

    /// The place of `rock` after the push `mv`: one column further where it fits there,
    /// and `position` where it does not.
    pub fn execute_move(&self, mv: &Direction, rock: &Rock, position: &Position) -> (p: Position)
        requires
            self.wf(),
        ensures
            p.y == position.y,
            p.x == push(self@.cells, *rock, position.x as int, position.y as int, *mv),
    {
        match mv {
            Direction::Left => {
                if position.x == 0 || !self.can_move_left(rock, position) {
                    proof {
                        rock.lemma_cells_in_box();
                    }
                    *position
                } else {
                    Position::new(position.x - 1, position.y)
                }
            },
            Direction::Right => {
                if position.x >= WIDTH || !self.can_move_right(rock, position) {
                    proof {
                        rock.lemma_cells_in_box();
                    }
                    *position
                } else {
                    Position::new(position.x + 1, position.y)
                }
            },
        }
    }
}

/// A row of the shaft with no filled cell.
fn empty_row() -> (row: Vec<CellState>)
    ensures
        row@.len() == 7,
        forall|c: int| 0 <= c < 7 ==> row@[c] == CellState::Empty,
{
    let mut row: Vec<CellState> = Vec::new();
    let mut c: usize = 0;
    while c < WIDTH
        invariant
            c <= WIDTH,
            row@.len() == c,
            forall|j: int| 0 <= j < c ==> row@[j] == CellState::Empty,
        decreases WIDTH - c,
    {
        row.push(CellState::Empty);
        c += 1;
    }
    row
}

impl Chamber {
    /// Brings `rock` to rest at `position`: its cells are filled, and the height becomes
    /// the greater of what it was and the row above the rock.
    pub fn rest_rock(&mut self, rock: &Rock, position: &Position)
        requires
            old(self).wf(),
            position.x + rock.cols() <= 7,
            position.y + rock.rows() <= usize::MAX,
            old(self)@.rested < usize::MAX,
        ensures
            final(self).wf(),
            final(self)@ == rest(old(self)@, *rock, position.x as int, position.y as int),
    {
        proof {
            rock.lemma_cells_in_box();
        }
        let ghost before = self@;
        let x = position.x;
        let y = position.y;
        let top = y + rock.height();
        while self.states.len() < top
            invariant
                self.rested == old(self).rested,
                self@.cells == before.cells,
                self.states@.len() >= before.height,
                self.states@.len() <= top || self.states@.len() == before.height,
                forall|r: int|
                    0 <= r < self.states@.len() ==> (#[trigger] self.states@[r])@.len() == 7,
            decreases top - self.states@.len(),
        {
            let ghost prev = *self;
            let row = empty_row();
            self.states.push(row);
            assert(self@.cells =~= prev@.cells);
        }
        let shape = rock.shape();
        let mut k: usize = 0;
        while k < shape.len()
            invariant
                self.rested == old(self).rested,
                k <= shape.len(),
                x + rock.cols() <= 7,
                y + rock.rows() <= self.states@.len(),
                y + rock.rows() <= usize::MAX,
                cells_of(shape@) == rock.cells(),
                forall|j: int|
                    0 <= j < rock.cells().len() ==> 0 <= (#[trigger] rock.cells()[j]).0
                        < rock.cols() && 0 <= rock.cells()[j].1 < rock.rows(),
                forall|r: int|
                    0 <= r < self.states@.len() ==> (#[trigger] self.states@[r])@.len() == 7,
                self.states@.len() == if top > before.height {
                    top as nat
                } else {
                    before.height
                },
                self@.cells == before.cells.union(body_upto(*rock, x as int, y as int, k as int)),
            decreases shape.len() - k,
        {
            let p = shape[k];
            assert(p.cell() == cells_of(shape@)[k as int]);
            let ghost prev = *self;
            self.states[y + p.y][x + p.x] = CellState::StoppedRock;
            assert(self@.cells =~= prev@.cells.insert((x + p.x, y + p.y)));
            assert(body_upto(*rock, x as int, y as int, k + 1) =~= body_upto(
                *rock,
                x as int,
                y as int,
                k as int,
            ).insert((x + p.x, y + p.y)));
            k += 1;
        }
        self.rested = self.rested + 1;
        proof {
            let after = rest(before, *rock, x as int, y as int);
            assert(self@.cells == after.cells);
            assert(self@.height == after.height);
            assert(self@ == after);
            lemma_rest_wf(before, *rock, x as int, y as int);
        }
    }
}

/// A well-formed tower stays well formed when a rock comes to rest between the walls and
/// on or above the floor.
pub proof fn lemma_rest_wf(t: Tower, rock: Rock, x: int, y: int)
    requires
        t.wf(),
        0 <= x,
        x + rock.cols() <= 7,
        0 <= y,
    ensures
        rest(t, rock, x, y).wf(),
        t.cells.subset_of(rest(t, rock, x, y).cells),
        t.height <= rest(t, rock, x, y).height <= max(t.height as int, y + 4),
{
    rock.lemma_cells_in_box();
    let after = rest(t, rock, x, y);
    assert forall|p: (int, int)| #[trigger] after.cells.contains(p) implies 0 <= p.0 < 7 && 0
        <= p.1 < after.height by {
        if !t.cells.contains(p) {
            assert(body(rock, x, y).contains(p));
        }
    }
    if after.height > 0 {
        if y + rock.rows() > t.height {
            let k = choose|k: int|
                0 <= k < rock.cells().len() && (#[trigger] rock.cells()[k]).1 == rock.rows() - 1;
            let p = (x + rock.cells()[k].0, y + rock.cells()[k].1);
            assert(body(rock, x, y).contains(p));
            assert(after.cells.contains((p.0, after.height - 1)));
        } else {
            let c = choose|c: int| #[trigger] t.cells.contains((c, t.height - 1));
            assert(after.cells.contains((c, after.height - 1)));
        }
    }
}

/// A rock that fits where its fall starts comes to rest where it fits: on no filled cell,
/// between the walls and on or above the floor. It rests no higher than it started, and
/// no higher than `top` if no filled cell lies at or above `top` and it started there or
/// higher. The cursor has then moved on by the ticks that the fall took.
pub proof fn lemma_settle(
    cells: Set<(int, int)>,
    rock: Rock,
    jets: Seq<Direction>,
    cursor: nat,
    x: int,
    y: int,
    top: int,
)
    requires
        fits(cells, rock, x, y),
        cursor < jets.len(),
        forall|p: (int, int)| #[trigger] cells.contains(p) ==> p.1 < top,
        0 <= top,
    ensures
        fits(
            cells,
            rock,
            settle(cells, rock, jets, cursor, x, y).x,
            settle(cells, rock, jets, cursor, x, y).y,
        ),
        0 <= settle(cells, rock, jets, cursor, x, y).x,
        settle(cells, rock, jets, cursor, x, y).x + rock.cols() <= 7,
        0 <= settle(cells, rock, jets, cursor, x, y).y <= y,
        y >= top ==> settle(cells, rock, jets, cursor, x, y).y <= top,
        settle(cells, rock, jets, cursor, x, y).ticks >= 1,
        settle(cells, rock, jets, cursor, x, y).cursor < jets.len(),
        settle(cells, rock, jets, cursor, x, y).cursor == cursor_after(
            jets,
            cursor,
            settle(cells, rock, jets, cursor, x, y).ticks,
        ),
    decreases y,
{
    rock.lemma_cells_in_box();
    let n = jets.len() as int;
    let nx = push(cells, rock, x, y, jets[cursor as int]);
    let next = advance(jets, cursor);
    lemma_mod_bound(cursor as int + 1, n);
    assert(fits(cells, rock, nx, y));
    let left = choose|k: int| 0 <= k < rock.cells().len() && (#[trigger] rock.cells()[k]).0 == 0;
    let right = choose|k: int|
        0 <= k < rock.cells().len() && (#[trigger] rock.cells()[k]).0 == rock.cols() - 1;
    let low = choose|k: int| 0 <= k < rock.cells().len() && (#[trigger] rock.cells()[k]).1 == 0;
    assert(cell_free(cells, nx + rock.cells()[left].0, y + rock.cells()[left].1));
    assert(cell_free(cells, nx + rock.cells()[right].0, y + rock.cells()[right].1));
    assert(cell_free(cells, nx + rock.cells()[low].0, y + rock.cells()[low].1));
    if y > 0 && fits(cells, rock, nx, y - 1) {
        lemma_settle(cells, rock, jets, next, nx, y - 1, top);
        let l = settle(cells, rock, jets, next, nx, y - 1);
        lemma_add_mod_noop(cursor as int + 1, l.ticks as int, n);
        lemma_mod_twice(cursor as int + 1, n);
        lemma_add_mod_noop((cursor as int + 1) % n, l.ticks as int, n);
    } else {
        if y > top {
            assert forall|k: int| 0 <= k < rock.cells().len() implies cell_free(
                cells,
                nx + (#[trigger] rock.cells()[k]).0,
                y - 1 + rock.cells()[k].1,
            ) by {
                assert(cell_free(cells, nx + rock.cells()[k].0, y + rock.cells()[k].1));
            }
            assert(false);
        }
    }
}

/// The place where the next rock comes to rest touches no cell filled before and lies
/// between the walls and on or above the floor; the tower is well formed afterwards,
/// keeps every cell that was filled, and is no lower and at most four rows higher.
pub proof fn lemma_drop_one(t: Tower, jets: Seq<Direction>, cursor: nat)
    requires
        t.wf(),
        cursor < jets.len(),
    ensures
        fits(
            t.cells,
            rock_at(t.rested),
            landing(t, jets, cursor).x,
            landing(t, jets, cursor).y,
        ),
        body(rock_at(t.rested), landing(t, jets, cursor).x, landing(t, jets, cursor).y).disjoint(
            t.cells,
        ),
        forall|p: (int, int)| #[trigger]
            body(
                rock_at(t.rested),
                landing(t, jets, cursor).x,
                landing(t, jets, cursor).y,
            ).contains(p) ==> 0 <= p.0 < 7 && 0 <= p.1,
        0 <= landing(t, jets, cursor).x,
        landing(t, jets, cursor).x + rock_at(t.rested).cols() <= 7,
        0 <= landing(t, jets, cursor).y <= t.height,
        drop_one(t, jets, cursor).0.wf(),
        drop_one(t, jets, cursor).1 < jets.len(),
        drop_one(t, jets, cursor).1 == cursor_after(jets, cursor, landing(t, jets, cursor).ticks),
        drop_one(t, jets, cursor).0.rested == t.rested + 1,
        t.cells.subset_of(drop_one(t, jets, cursor).0.cells),
        t.height <= drop_one(t, jets, cursor).0.height <= t.height + 4,
{
    let rock = rock_at(t.rested);
    rock.lemma_cells_in_box();
    let y = t.height as int + 3;
    assert forall|k: int| 0 <= k < rock.cells().len() implies cell_free(
        t.cells,
        2 + (#[trigger] rock.cells()[k]).0,
        y + rock.cells()[k].1,
    ) by {
        if t.cells.contains((2 + rock.cells()[k].0, y + rock.cells()[k].1)) {
            assert(false);
        }
    }
    lemma_settle(t.cells, rock, jets, cursor, 2, y, t.height as int);
    let l = landing(t, jets, cursor);
    lemma_rest_wf(t, rock, l.x, l.y);
    assert forall|p: (int, int)| #[trigger] body(rock, l.x, l.y).contains(p) implies 0 <= p.0 < 7
        && 0 <= p.1 && !t.cells.contains(p) by {
        let k = choose|k: int|
            0 <= k < rock.cells().len() && p == (
                l.x + (#[trigger] rock.cells()[k]).0,
                l.y + rock.cells()[k].1,
            );
        assert(cell_free(t.cells, l.x + rock.cells()[k].0, l.y + rock.cells()[k].1));
    }
}

impl Chamber {
    /// Drops the next rock and gives the place where it came to rest.
    pub fn drop_rock(&mut self, jets: &mut JetStream) -> (position: Position)
        requires
            old(self).wf(),
            old(jets).wf(),
            old(self)@.height + 7 <= usize::MAX,
            old(self)@.rested < usize::MAX,
        ensures
            final(self).wf(),
            final(jets).wf(),
            final(jets).jets() == old(jets).jets(),
            (final(self)@, final(jets).cursor()) == drop_one(
                old(self)@,
                old(jets).jets(),
                old(jets).cursor(),
            ),
            position.x == landing(old(self)@, old(jets).jets(), old(jets).cursor()).x,
            position.y == landing(old(self)@, old(jets).jets(), old(jets).cursor()).y,
            fits(
                old(self)@.cells,
                rock_at(old(self)@.rested),
                position.x as int,
                position.y as int,
            ),
            old(self)@.cells.subset_of(final(self)@.cells),
            old(self)@.height <= final(self)@.height <= old(self)@.height + 4,
    {
        let rock = Rock::nth(self.rested);
        let ghost t = self@;
        let ghost pattern = jets.jets();
        let ghost goal = landing(t, pattern, jets.cursor());
        proof {
            rock.lemma_cells_in_box();
            lemma_drop_one(t, pattern, jets.cursor());
            assert forall|k: int| 0 <= k < rock.cells().len() implies cell_free(
                t.cells,
                2 + (#[trigger] rock.cells()[k]).0,
                t.height + 3 + rock.cells()[k].1,
            ) by {
                if t.cells.contains((2 + rock.cells()[k].0, t.height + 3 + rock.cells()[k].1)) {
                    assert(false);
                }
            }
        }
        let mut position = Position::new(2, self.states.len() + 3);
        loop
            invariant_except_break
                settle(t.cells, rock, pattern, jets.cursor(), position.x as int, position.y as int).x
                    == goal.x,
                settle(t.cells, rock, pattern, jets.cursor(), position.x as int, position.y as int).y
                    == goal.y,
                settle(
                    t.cells,
                    rock,
                    pattern,
                    jets.cursor(),
                    position.x as int,
                    position.y as int,
                ).cursor == goal.cursor,
            invariant
                self.wf(),
                self@ == t,
                jets.wf(),
                jets.jets() == pattern,
                fits(t.cells, rock, position.x as int, position.y as int),
                position.y <= t.height + 3,
                t.height + 7 <= usize::MAX,
            ensures
                position.x == goal.x,
                position.y == goal.y,
                jets.cursor() == goal.cursor,
            decreases position.y,
        {
            let mv = jets.next();
            position = self.execute_move(&mv, &rock, &position);
            if !self.can_move_down(&rock, &position) {
                break ;
            }
            proof {
                let low = choose|k: int|
                    0 <= k < rock.cells().len() && (#[trigger] rock.cells()[k]).1 == 0;
                assert(cell_free(
                    t.cells,
                    position.x + rock.cells()[low].0,
                    position.y - 1 + rock.cells()[low].1,
                ));
            }
            position = Position::new(position.x, position.y - 1);
        }
        self.rest_rock(&rock, &position);
        position
    }

    /// Drops `count` rocks and gives the height of the tower after them.
    pub fn simulate(&mut self, jets: &mut JetStream, count: usize) -> (h: usize)
        requires
            old(self).wf(),
            old(jets).wf(),
            old(self)@.height + 4 * count + 3 <= usize::MAX,
            old(self)@.rested + count <= usize::MAX,
        ensures
            final(self).wf(),
            final(jets).wf(),
            final(jets).jets() == old(jets).jets(),
            (final(self)@, final(jets).cursor()) == drop_many(
                old(self)@,
                old(jets).jets(),
                old(jets).cursor(),
                count as nat,
            ),
            h == final(self)@.height,
            old(self)@.cells.subset_of(final(self)@.cells),
            old(self)@.height <= h,
    {
        let ghost t = self@;
        let ghost pattern = jets.jets();
        let ghost start = jets.cursor();
        let mut i: usize = 0;
        while i < count
            invariant
                i <= count,
                self.wf(),
                jets.wf(),
                jets.jets() == pattern,
                (self@, jets.cursor()) == drop_many(t, pattern, start, i as nat),
                self@.rested == t.rested + i,
                t.height <= self@.height <= t.height + 4 * i,
                t.cells.subset_of(self@.cells),
                t.height + 4 * count + 3 <= usize::MAX,
                t.rested + count <= usize::MAX,
            decreases count - i,
        {
            self.drop_rock(jets);
            i += 1;
        }
        self.states.len()
    }
}

/// The height of the tower that `rocks` rocks build in an empty shaft under the jets of
/// `pattern`.
pub open spec fn height_after(pattern: Seq<char>, rocks: nat) -> nat {
    drop_many(Tower::empty(), pattern_of(pattern), 0, rocks).0.height
}

/// The height of the tower after `rocks` rocks have come to rest in an empty shaft, under
/// the jets that `s` holds between the white space around them.
///
/// The run is refused before it starts where the pattern is not valid, and where four
/// rows for each rock and three above them could not be counted.
pub fn tower_height_after(s: &str, rocks: usize) -> (r: Result<usize, TowerError>)
    ensures
        r is Ok <==> valid_pattern(trim(s@)) && 4 * rocks + 3 <= usize::MAX,
        r matches Err(TowerError::Parse) <==> !valid_pattern(trim(s@)),
        r matches Err(TowerError::CapacityExceeded) <==> valid_pattern(trim(s@)) && 4 * rocks + 3
            > usize::MAX,
        r matches Ok(h) ==> h == height_after(trim(s@), rocks as nat),
{
    let mut jets = match JetStream::parse(s) {
        Ok(jets) => jets,
        Err(e) => {
            return Err(e);
        },
    };
    if rocks > (usize::MAX - 3) / 4 {
        return Err(TowerError::CapacityExceeded);
    }
    let mut chamber = Chamber::new();
    let h = chamber.simulate(&mut jets, rocks);
    Ok(h)
}

/// The height of the tower after 2022 rocks have come to rest in an empty shaft, under
/// the jets that `s` holds between the white space around them.
pub fn tower_height(s: &str) -> (h: usize)
    requires
        valid_pattern(trim(s@)),
    ensures
        h == height_after(trim(s@), NUM_ROCKS as nat),
{
    match tower_height_after(s, NUM_ROCKS) {
        Ok(h) => h,
        Err(_) => unreached(),
    }
}

/// After any number of rocks the tower is well formed, the cursor lies in the pattern, as
/// many more rocks are at rest as were dropped, every cell filled before is still filled,
/// and the tower has grown by at most four rows for each rock.
pub proof fn lemma_drop_many(t: Tower, jets: Seq<Direction>, cursor: nat, n: nat)
    requires
        t.wf(),
        cursor < jets.len(),
    ensures
        drop_many(t, jets, cursor, n).0.wf(),
        drop_many(t, jets, cursor, n).1 < jets.len(),
        drop_many(t, jets, cursor, n).0.rested == t.rested + n,
        t.cells.subset_of(drop_many(t, jets, cursor, n).0.cells),
        t.height <= drop_many(t, jets, cursor, n).0.height <= t.height + 4 * n,
    decreases n,
{
    if n > 0 {
        lemma_drop_many(t, jets, cursor, (n - 1) as nat);
        let before = drop_many(t, jets, cursor, (n - 1) as nat);
        lemma_drop_one(before.0, jets, before.1);
    }
}

/// The height never falls: after more rocks the tower is at least as high as after fewer.
pub proof fn lemma_height_monotone(t: Tower, jets: Seq<Direction>, cursor: nat, m: nat, n: nat)
    requires
        t.wf(),
        cursor < jets.len(),
        m <= n,
    ensures
        drop_many(t, jets, cursor, m).0.height <= drop_many(t, jets, cursor, n).0.height,
    decreases n,
{
    if m < n {
        lemma_height_monotone(t, jets, cursor, m, (n - 1) as nat);
        lemma_drop_many(t, jets, cursor, (n - 1) as nat);
        let before = drop_many(t, jets, cursor, (n - 1) as nat);
        lemma_drop_one(before.0, jets, before.1);
    }
}

/// A cell that is filled stays filled: after more rocks the tower holds every cell that it
/// held after fewer.
pub proof fn lemma_cells_only_grow(t: Tower, jets: Seq<Direction>, cursor: nat, m: nat, n: nat)
    requires
        t.wf(),
        cursor < jets.len(),
        m <= n,
    ensures
        drop_many(t, jets, cursor, m).0.cells.subset_of(drop_many(t, jets, cursor, n).0.cells),
    decreases n,
{
    if m < n {
        lemma_cells_only_grow(t, jets, cursor, m, (n - 1) as nat);
        lemma_drop_many(t, jets, cursor, (n - 1) as nat);
        let before = drop_many(t, jets, cursor, (n - 1) as nat);
        lemma_drop_one(before.0, jets, before.1);
    }
}

/// Every rock of a run comes to rest clear of what was there: the rock dropped after `i`
/// others rests on no cell that was filled before it, between the walls and on or above
/// the floor.
pub proof fn lemma_every_rest_is_clear(t: Tower, jets: Seq<Direction>, cursor: nat, i: nat)
    requires
        t.wf(),
        cursor < jets.len(),
    ensures
        ({
            let before = drop_many(t, jets, cursor, i);
            let l = landing(before.0, jets, before.1);
            let rock = rock_at(before.0.rested);
            &&& fits(before.0.cells, rock, l.x, l.y)
            &&& body(rock, l.x, l.y).disjoint(before.0.cells)
            &&& forall|p: (int, int)| #[trigger]
                body(rock, l.x, l.y).contains(p) ==> 0 <= p.0 < 7 && 0 <= p.1
        }),
{
    lemma_drop_many(t, jets, cursor, i);
    let before = drop_many(t, jets, cursor, i);
    lemma_drop_one(before.0, jets, before.1);
}

/// A run can be cut anywhere: `a` rocks and then `b` more leave the tower and the cursor
/// that `a + b` rocks in one run leave.
pub proof fn lemma_drop_many_split(t: Tower, jets: Seq<Direction>, cursor: nat, a: nat, b: nat)
    ensures
        drop_many(t, jets, cursor, a + b) == drop_many(
            drop_many(t, jets, cursor, a).0,
            jets,
            drop_many(t, jets, cursor, a).1,
            b,
        ),
    decreases b,
{
    if b > 0 {
        lemma_drop_many_split(t, jets, cursor, a, (b - 1) as nat);
        assert((a + b - 1) as nat == a + (b - 1) as nat);
    }
}

/// The cursor after a run is where the ticks of the run lead: the cursor at the start
/// plus the ticks that the rocks took, going round the pattern.
pub proof fn lemma_cursor_counts_ticks(t: Tower, jets: Seq<Direction>, cursor: nat, n: nat)
    requires
        t.wf(),
        cursor < jets.len(),
    ensures
        drop_many(t, jets, cursor, n).1 == cursor_after(
            jets,
            cursor,
            ticks_many(t, jets, cursor, n),
        ),
    decreases n,
{
    let len = jets.len() as int;
    if n == 0 {
        lemma_small_mod(cursor, jets.len());
    } else {
        lemma_cursor_counts_ticks(t, jets, cursor, (n - 1) as nat);
        lemma_drop_many(t, jets, cursor, (n - 1) as nat);
        let before = drop_many(t, jets, cursor, (n - 1) as nat);
        lemma_drop_one(before.0, jets, before.1);
        let done = ticks_many(t, jets, cursor, (n - 1) as nat) as int;
        let more = landing(before.0, jets, before.1).ticks as int;
        lemma_add_mod_noop(cursor + done, more, len);
        lemma_mod_twice(cursor + done, len);
        lemma_add_mod_noop((cursor + done) % len, more, len);
    }
}

/// The kinds of rock come round in the order of the catalog, whatever the jets and
/// whatever the rocks met: in a run from an empty shaft the rock dropped after `i` others
/// is of the kind `catalog()[i % 5]`.
pub proof fn lemma_shape_cycling(jets: Seq<Direction>, cursor: nat, i: nat)
    requires
        cursor < jets.len(),
    ensures
        drop_many(Tower::empty(), jets, cursor, i).0.rested == i,
        rock_at(drop_many(Tower::empty(), jets, cursor, i).0.rested) == catalog()[(i % 5) as int],
{
    lemma_drop_many(Tower::empty(), jets, cursor, i);
}

/// A run is fixed by where it starts: two runs of as many rocks from one tower, under one
/// pattern and from one cursor, end with the same cells filled, the same height and the
/// same cursor.
pub proof fn lemma_runs_agree(
    t: Tower,
    jets: Seq<Direction>,
    cursor: nat,
    n: nat,
    first: (Tower, nat),
    second: (Tower, nat),
)
    requires
        first == drop_many(t, jets, cursor, n),
        second == drop_many(t, jets, cursor, n),
    ensures
        first.0.cells == second.0.cells,
        first.0.height == second.0.height,
        first.1 == second.1,
{
}

impl CellState {
    /// The character that stands for the cell in a drawing of the shaft.
    pub open spec fn sign(self) -> char {
        match self {
            CellState::Empty => '.',
            CellState::StoppedRock => '#',
        }
    }

    /// The character that stands for the cell in a drawing of the shaft.
    pub fn symbol(&self) -> (c: char)
        ensures
            c == self.sign(),
    {
        match self {
            CellState::Empty => '.',
            CellState::StoppedRock => '#',
        }
    }
}

impl Chamber {
    /// What the cell at column `x` and row `y` holds.
    pub open spec fn cell(&self, x: int, y: int) -> CellState {
        if self@.cells.contains((x, y)) {
            CellState::StoppedRock
        } else {
            CellState::Empty
        }
    }

    /// A drawing of the tower, the highest row first: each line holds a wall, the seven
    /// cells of a row, `#` for a filled cell and `.` for a free one, and a wall.
    pub fn render(&self) -> (lines: Vec<Vec<char>>)
        requires
            self.wf(),
        ensures
            lines@.len() == self@.height,
            forall|r: int|
                0 <= r < lines@.len() ==> (#[trigger] lines@[r])@.len() == 9 && lines@[r]@[0] == '|'
                    && lines@[r]@[8] == '|',
            forall|r: int, x: int|
                0 <= r < lines@.len() && 0 <= x < 7 ==> (#[trigger] lines@[r]@[x + 1]) == self.cell(
                    x,
                    self@.height - 1 - r,
                ).sign(),
    {
        let n = self.states.len();
        let mut lines: Vec<Vec<char>> = Vec::new();
        let mut r: usize = 0;
        while r < n
            invariant
                r <= n,
                n == self.states@.len(),
                self.wf(),
                lines.len() == r,
                forall|k: int|
                    0 <= k < r ==> (#[trigger] lines@[k])@.len() == 9 && lines@[k]@[0] == '|'
                        && lines@[k]@[8] == '|',
                forall|k: int, x: int|
                    0 <= k < r && 0 <= x < 7 ==> (#[trigger] lines@[k]@[x + 1]) == self.cell(
                        x,
                        n - 1 - k,
                    ).sign(),
            decreases n - r,
        {
            let y = n - 1 - r;
            let row = &self.states[y];
            let mut line: Vec<char> = Vec::new();
            line.push('|');
            let mut x: usize = 0;
            while x < WIDTH
                invariant
                    x <= WIDTH,
                    y < self.states@.len(),
                    self.wf(),
                    row@ == self.states@[y as int]@,
                    line.len() == x + 1,
                    line@[0] == '|',
                    forall|c: int| 0 <= c < x ==> (#[trigger] line@[c + 1]) == self.cell(c, y as int).sign(),
                decreases WIDTH - x,
            {
                assert(self@.cells.contains((x as int, y as int)) == (row@[x as int]
                    == CellState::StoppedRock));
                line.push(row[x].symbol());
                x += 1;
            }
            line.push('|');
            lines.push(line);
            r += 1;
        }
        lines
    }
}

} // verus!
