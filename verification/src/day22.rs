//! A walk on a board of open tiles and walls, by a path of moves and turns; leaving the
//! board on one side one comes back in on the other.

use crate::rx::{all_captures, captures_iter, group_views, match_views};
use crate::text::{
    byte_len, chars_of, is_word, lines, lines_of, parse_usize, split_once, split_once_on,
    string_of, to_usize, utf8_len, views,
};
use vstd::arithmetic::div_mod::{
    lemma_fundamental_div_mod, lemma_fundamental_div_mod_converse, lemma_mod_bound,
};
use vstd::pervasive::unreached;
use vstd::prelude::*;

verus! {

/// What a place of the board holds.
#[derive(Clone, Copy, Debug, Eq, PartialEq, Structural)]
pub enum Tile {
    Empty,
    Open,
    Wall,
}

/// The way one faces.
#[derive(Clone, Copy, Debug, Eq, PartialEq, Structural)]
pub enum Facing {
    Right,
    Down,
    Left,
    Up,
}

/// A step of the path: so many tiles forward, or a quarter turn.
#[derive(Clone, Copy, Debug, Eq, PartialEq, Structural)]
pub enum Instruction {
    Move(usize),
    Right,
    Left,
}

impl Facing {
    /// The way one faces after `i`: a turn to the right goes from right to down to left
    /// to up, a turn to the left the other way round, and a move changes nothing.
    pub open spec fn turned(self, i: Instruction) -> Facing {
        match i {
            Instruction::Move(_) => self,
            Instruction::Right => match self {
                Facing::Right => Facing::Down,
                Facing::Down => Facing::Left,
                Facing::Left => Facing::Up,
                Facing::Up => Facing::Right,
            },
            Instruction::Left => match self {
                Facing::Right => Facing::Up,
                Facing::Down => Facing::Right,
                Facing::Left => Facing::Down,
                Facing::Up => Facing::Left,
            },
        }
    }

    /// The number of the facing in the password.
    pub open spec fn number(self) -> int {
        match self {
            Facing::Right => 0,
            Facing::Down => 1,
            Facing::Left => 2,
            Facing::Up => 3,
        }
    }

    /// The way one faces after `i`.
    pub fn after(&self, i: &Instruction) -> (f: Facing)
        ensures
            f == self.turned(*i),
    {
        match (self, i) {
            (Facing::Right, Instruction::Right) => Facing::Down,
            (Facing::Right, Instruction::Left) => Facing::Up,
            (Facing::Down, Instruction::Right) => Facing::Left,
            (Facing::Down, Instruction::Left) => Facing::Right,
            (Facing::Left, Instruction::Right) => Facing::Up,
            (Facing::Left, Instruction::Left) => Facing::Down,
            (Facing::Up, Instruction::Right) => Facing::Right,
            (Facing::Up, Instruction::Left) => Facing::Left,
            _ => *self,
        }
    }
}

/// The tile that a character draws.
pub open spec fn tile_of(c: char) -> Tile {
    if c == '.' {
        Tile::Open
    } else if c == '#' {
        Tile::Wall
    } else {
        Tile::Empty
    }
}

/// The greatest number of bytes that one of the first `n` rows takes.
pub open spec fn widest(rows: Seq<Seq<char>>, n: int) -> nat
    decreases n,
{
    if n <= 0 {
        0
    } else {
        let w = widest(rows, n - 1);
        if byte_len(rows[n - 1]) > w {
            byte_len(rows[n - 1])
        } else {
            w
        }
    }
}

/// The tiles that the rows draw: as many columns as the widest row takes bytes, and
/// empty tiles where a row ends before.
pub open spec fn tiles_of(rows: Seq<Seq<char>>) -> Seq<Seq<Tile>> {
    Seq::new(
        rows.len(),
        |r: int|
            Seq::new(
                widest(rows, rows.len() as int),
                |c: int|
                    if c < rows[r].len() {
                        tile_of(rows[r][c])
                    } else {
                        Tile::Empty
                    },
            ),
    )
}

/// A place of the board and the way one faces there.
pub struct Stand {
    pub row: int,
    pub col: int,
    pub facing: Facing,
}

/// The place next to row `row` and column `col` in the way `facing`, on a board of
/// `num_rows` rows and `num_cols` columns that is joined at its sides.
pub open spec fn beside(num_rows: int, num_cols: int, row: int, col: int, facing: Facing) -> (
    int,
    int,
) {
    match facing {
        Facing::Right => (
            row,
            if col < num_cols - 1 {
                col + 1
            } else {
                0
            },
        ),
        Facing::Down => (
            if row < num_rows - 1 {
                row + 1
            } else {
                0
            },
            col,
        ),
        Facing::Left => (
            row,
            if col > 0 {
                col - 1
            } else {
                num_cols - 1
            },
        ),
        Facing::Up => (
            if row > 0 {
                row - 1
            } else {
                num_rows - 1
            },
            col,
        ),
    }
}

/// The open tile that one reaches with one step from row `row` and column `col`: the
/// first tile that is not empty in the way `facing`, if it is open and comes within
/// `fuel` places; `None` where it is a wall or does not come.
pub open spec fn next_open(
    tiles: Seq<Seq<Tile>>,
    row: int,
    col: int,
    facing: Facing,
    fuel: nat,
) -> Option<(int, int)>
    decreases fuel,
{
    if fuel == 0 {
        None
    } else {
        let p = beside(tiles.len() as int, tiles[0].len() as int, row, col, facing);
        match tiles[p.0][p.1] {
            Tile::Empty => next_open(tiles, p.0, p.1, facing, (fuel - 1) as nat),
            Tile::Wall => None,
            Tile::Open => Some(p),
        }
    }
}

/// The number of places that a step looks at before it gives up: the rows and the
/// columns together.
pub open spec fn reach(tiles: Seq<Seq<Tile>>) -> nat {
    tiles.len() + tiles[0].len()
}

/// The place `k` places further in the way `facing` from row `row` and column `col`, on a
/// board that is joined at its sides.
pub open spec fn ahead(num_rows: int, num_cols: int, row: int, col: int, facing: Facing, k: int) -> (
    int,
    int,
) {
    match facing {
        Facing::Right => (row, (col + k) % num_cols),
        Facing::Down => ((row + k) % num_rows, col),
        Facing::Left => (row, (col - k) % num_cols),
        Facing::Up => ((row - k) % num_rows, col),
    }
}

/// Counting round `n` places: one further and one back.
pub proof fn lemma_count_round(x: int, n: int)
    requires
        n > 0,
    ensures
        0 <= x % n < n,
        (x + 1) % n == if x % n < n - 1 {
            x % n + 1
        } else {
            0
        },
        (x - 1) % n == if x % n > 0 {
            x % n - 1
        } else {
            n - 1
        },
{
    lemma_fundamental_div_mod(x, n);
    lemma_mod_bound(x, n);
    let q = x / n;
    let m = x % n;
    assert(x == q * n + m) by (nonlinear_arith)
        requires
            x == n * q + m,
    ;
    assert((q + 1) * n == q * n + n && (q - 1) * n == q * n - n) by (nonlinear_arith);
    if m < n - 1 {
        lemma_fundamental_div_mod_converse(x + 1, n, q, m + 1);
    } else {
        lemma_fundamental_div_mod_converse(x + 1, n, q + 1, 0);
    }
    if m > 0 {
        lemma_fundamental_div_mod_converse(x - 1, n, q, m - 1);
    } else {
        lemma_fundamental_div_mod_converse(x - 1, n, q - 1, n - 1);
    }
}

/// The place beside the place `k` places further is the place `k + 1` places further.
pub proof fn lemma_ahead_step(num_rows: int, num_cols: int, row: int, col: int, facing: Facing, k: int)
    requires
        0 <= row < num_rows,
        0 <= col < num_cols,
    ensures
        0 <= ahead(num_rows, num_cols, row, col, facing, k).0 < num_rows,
        0 <= ahead(num_rows, num_cols, row, col, facing, k).1 < num_cols,
        beside(
            num_rows,
            num_cols,
            ahead(num_rows, num_cols, row, col, facing, k).0,
            ahead(num_rows, num_cols, row, col, facing, k).1,
            facing,
        ) == ahead(num_rows, num_cols, row, col, facing, k + 1),
{
    lemma_count_round(col + k, num_cols);
    lemma_count_round(col - k, num_cols);
    lemma_count_round(row + k, num_rows);
    lemma_count_round(row - k, num_rows);
}

/// A step from the place `j` places further comes to the same tile with any two numbers
/// of places to look at, where both reach the place `g` places further and the tile
/// there is not empty.
pub proof fn lemma_step_finds(
    tiles: Seq<Seq<Tile>>,
    row: int,
    col: int,
    facing: Facing,
    j: int,
    g: int,
    a: nat,
    b: nat,
)
    requires
        tiles.len() > 0,
        forall|r: int| 0 <= r < tiles.len() ==> (#[trigger] tiles[r]).len() == tiles[0].len(),
        0 <= row < tiles.len(),
        0 <= col < tiles[0].len(),
        0 <= j < g,
        a >= g - j,
        b >= g - j,
        ({
            let p = ahead(tiles.len() as int, tiles[0].len() as int, row, col, facing, g);
            tiles[p.0][p.1] != Tile::Empty
        }),
    ensures
        ({
            let p = ahead(tiles.len() as int, tiles[0].len() as int, row, col, facing, j);
            next_open(tiles, p.0, p.1, facing, a) == next_open(tiles, p.0, p.1, facing, b)
        }),
    decreases g - j,
{
    let num_rows = tiles.len() as int;
    let num_cols = tiles[0].len() as int;
    lemma_ahead_step(num_rows, num_cols, row, col, facing, j);
    lemma_ahead_step(num_rows, num_cols, row, col, facing, j + 1);
    let p = ahead(num_rows, num_cols, row, col, facing, j + 1);
    if tiles[p.0][p.1] == Tile::Empty {
        lemma_step_finds(tiles, row, col, facing, j + 1, g, (a - 1) as nat, (b - 1) as nat);
    }
}

/// A step from a tile that is not empty never gives up: going round the board it comes
/// back to that tile at the latest, so to look at more places than the rows and the
/// columns together changes nothing.
pub proof fn lemma_reach_is_enough(tiles: Seq<Seq<Tile>>, row: int, col: int, facing: Facing, more: nat)
    requires
        tiles.len() > 0,
        forall|r: int| 0 <= r < tiles.len() ==> (#[trigger] tiles[r]).len() == tiles[0].len(),
        0 <= row < tiles.len(),
        0 <= col < tiles[0].len(),
        tiles[row][col] != Tile::Empty,
    ensures
        next_open(tiles, row, col, facing, reach(tiles) + more) == next_open(
            tiles,
            row,
            col,
            facing,
            reach(tiles),
        ),
{
    let num_rows = tiles.len() as int;
    let num_cols = tiles[0].len() as int;
    let g = match facing {
        Facing::Right => num_cols,
        Facing::Left => num_cols,
        _ => num_rows,
    };
    lemma_fundamental_div_mod_converse(col, num_cols, 0, col);
    lemma_fundamental_div_mod_converse(row, num_rows, 0, row);
    lemma_fundamental_div_mod_converse(col + num_cols, num_cols, 1, col);
    lemma_fundamental_div_mod_converse(row + num_rows, num_rows, 1, row);
    lemma_fundamental_div_mod_converse(col - num_cols, num_cols, -1, col);
    lemma_fundamental_div_mod_converse(row - num_rows, num_rows, -1, row);
    assert(ahead(num_rows, num_cols, row, col, facing, 0) == (row, col));
    assert(ahead(num_rows, num_cols, row, col, facing, g) == (row, col));
    lemma_step_finds(tiles, row, col, facing, 0, g, reach(tiles) + more, reach(tiles));
}

/// The place after up to `n` steps forward: one stops before a wall.
pub open spec fn forward(tiles: Seq<Seq<Tile>>, at: Stand, n: nat) -> Stand
    decreases n,
{
    if n == 0 {
        at
    } else {
        match next_open(tiles, at.row, at.col, at.facing, reach(tiles)) {
            Some(p) => forward(
                tiles,
                Stand { row: p.0, col: p.1, facing: at.facing },
                (n - 1) as nat,
            ),
            None => at,
        }
    }
}

/// The place and the facing after one instruction.
pub open spec fn obey(tiles: Seq<Seq<Tile>>, at: Stand, i: Instruction) -> Stand {
    match i {
        Instruction::Move(n) => forward(tiles, at, n as nat),
        _ => Stand { row: at.row, col: at.col, facing: at.facing.turned(i) },
    }
}

/// The place and the facing after the instructions.
pub open spec fn walk(tiles: Seq<Seq<Tile>>, at: Stand, path: Seq<Instruction>) -> Stand
    decreases path.len(),
{
    if path.len() == 0 {
        at
    } else {
        obey(tiles, walk(tiles, at, path.drop_last()), path.last())
    }
}

/// The first column from `from` on where row 0 holds an open tile, or the number of
/// columns.
pub open spec fn first_open(tiles: Seq<Seq<Tile>>, from: int) -> int
    decreases tiles[0].len() - from,
{
    if from < 0 || from >= tiles[0].len() {
        tiles[0].len() as int
    } else if tiles[0][from] == Tile::Open {
        from
    } else {
        first_open(tiles, from + 1)
    }
}

/// The password of a place and a facing: 1000 times the row, 4 times the column, both
/// counted from 1, and the number of the facing.
pub open spec fn password(at: Stand) -> int {
    1000 * (at.row + 1) + 4 * (at.col + 1) + at.facing.number()
}

/// Whether the tiles make a board on which one can start: there is a row, all rows are
/// equally long, and row 0 holds an open tile.
pub open spec fn can_start(tiles: Seq<Seq<Tile>>) -> bool {
    &&& tiles.len() > 0
    &&& forall|r: int| 0 <= r < tiles.len() ==> (#[trigger] tiles[r]).len() == tiles[0].len()
    &&& first_open(tiles, 0) < tiles[0].len()
}

/// The password after the walk of `path` from the first open tile of row 0, facing
/// right.
pub open spec fn password_after(tiles: Seq<Seq<Tile>>, path: Seq<Instruction>) -> int {
    password(walk(tiles, Stand { row: 0, col: first_open(tiles, 0), facing: Facing::Right }, path))
}

/// A board of tiles.
#[derive(Debug)]
pub struct Board {
    tiles: Vec<Vec<Tile>>,
    num_rows: usize,
    num_cols: usize,
}

/// The tiles of a list of rows.
pub open spec fn tile_rows(v: Seq<Vec<Tile>>) -> Seq<Seq<Tile>> {
    Seq::new(v.len(), |i: int| v[i]@)
}

impl View for Board {
    type V = Seq<Seq<Tile>>;

    closed spec fn view(&self) -> Seq<Seq<Tile>> {
        tile_rows(self.tiles@)
    }
}

impl Board {
    /// The rows are as many as the board says and each as long as it says.
    pub closed spec fn wf(&self) -> bool {
        &&& self.num_rows == self.tiles@.len()
        &&& forall|r: int| 0 <= r < self.tiles@.len() ==> (#[trigger] self.tiles@[r])@.len() == self.num_cols
    }

    /// Reads a board, a row to a line: `.` is an open tile, `#` a wall, and everything
    /// else, as well as what lies beyond the end of a line, is empty.
    pub fn from_str(s: &str) -> (board: Board)
        requires
            widest(lines(s@), lines(s@).len() as int) <= usize::MAX,
        ensures
            board.wf(),
            board@ == tiles_of(lines(s@)),
    {
        let all = chars_of(s);
        let rows = lines_of(&all);
        let ghost texts = views(rows@);
        let mut num_cols: usize = 0;
        let mut r: usize = 0;
        while r < rows.len()
            invariant
                r <= rows.len(),
                texts == views(rows@),
                texts == lines(s@),
                num_cols == widest(texts, r as int),
                widest(texts, texts.len() as int) <= usize::MAX,
            decreases rows.len() - r,
        {
            assert(texts[r as int] == rows@[r as int]@);
            proof {
                lemma_widest_grows(texts, r + 1, texts.len() as int);
            }
            let w = utf8_len(&rows[r]);
            if w > num_cols as u128 {
                num_cols = w as usize;
            }
            r += 1;
        }
        let mut tiles: Vec<Vec<Tile>> = Vec::new();
        let mut r: usize = 0;
        while r < rows.len()
            invariant
                r <= rows.len(),
                texts == views(rows@),
                num_cols == widest(texts, texts.len() as int),
                tiles.len() == r,
                forall|k: int| 0 <= k < r ==> (#[trigger] tiles@[k])@ == tiles_of(texts)[k],
            decreases rows.len() - r,
        {
            assert(texts[r as int] == rows@[r as int]@);
            let line = &rows[r];
            let mut row: Vec<Tile> = Vec::new();
            let mut c: usize = 0;
            while c < num_cols
                invariant
                    c <= num_cols,
                    row.len() == c,
                    forall|k: int|
                        0 <= k < c ==> row@[k] == (if k < line@.len() {
                            tile_of(line@[k])
                        } else {
                            Tile::Empty
                        }),
                decreases num_cols - c,
            {
                let tile = if c < line.len() {
                    let ch = line[c];
                    if ch == '.' {
                        Tile::Open
                    } else if ch == '#' {
                        Tile::Wall
                    } else {
                        Tile::Empty
                    }
                } else {
                    Tile::Empty
                };
                row.push(tile);
                c += 1;
            }
            assert(row@ =~= tiles_of(texts)[r as int]);
            tiles.push(row);
            r += 1;
        }
        let num_rows = tiles.len();
        let board = Board { tiles, num_rows, num_cols };
        proof {
            assert(board@ =~= tiles_of(texts));
        }
        board
    }

    /// One step from row `row` and column `col` in the way `facing`: the open tile that
    /// one reaches, or `None` where a wall stands in the way.
    pub fn execute_move(&self, row: usize, col: usize, facing: Facing) -> (r: Option<(usize, usize)>)
        requires
            self.wf(),
            row < self@.len(),
            col < self@[0].len(),
        ensures
            match r {
                Some(p) => next_open(self@, row as int, col as int, facing, reach(self@)) == Some(
                    (p.0 as int, p.1 as int),
                ) && p.0 < self@.len() && p.1 < self@[0].len(),
                None => next_open(self@, row as int, col as int, facing, reach(self@)) is None,
            },
    {
        let ghost tiles = self@;
        assert(tiles[0] == self.tiles@[0]@);
        let mut r = row;
        let mut c = col;
        let mut fuel: u128 = self.num_rows as u128 + self.num_cols as u128;
        let ghost goal = next_open(tiles, row as int, col as int, facing, reach(tiles));
        while fuel > 0
            invariant
                self.wf(),
                tiles == self@,
                r < tiles.len(),
                c < tiles[0].len(),
                fuel <= self.num_rows + self.num_cols,
                goal == next_open(tiles, row as int, col as int, facing, reach(tiles)),
                goal == next_open(tiles, r as int, c as int, facing, fuel as nat),
            decreases fuel,
        {
            match facing {
                Facing::Right => {
                    if c < self.num_cols - 1 {
                        c += 1;
                    } else {
                        c = 0;
                    }
                },
                Facing::Down => {
                    if r < self.num_rows - 1 {
                        r += 1;
                    } else {
                        r = 0;
                    }
                },
                Facing::Left => {
                    if c > 0 {
                        c -= 1;
                    } else {
                        c = self.num_cols - 1;
                    }
                },
                Facing::Up => {
                    if r > 0 {
                        r -= 1;
                    } else {
                        r = self.num_rows - 1;
                    }
                },
            }
            assert(tiles[r as int] == self.tiles@[r as int]@);
            match self.tiles[r][c] {
                Tile::Empty => {},
                Tile::Wall => {
                    return None;
                },
                Tile::Open => {
                    return Some((r, c));
                },
            }
            fuel = fuel - 1;
        }
        None
    }

    /// The first column where row 0 holds an open tile, or `None`.
    pub fn start_column(&self) -> (r: Option<usize>)
        requires
            self.wf(),
            self@.len() > 0,
        ensures
            r is Some <==> first_open(self@, 0) < self@[0].len(),
            r is Some ==> r.unwrap() == first_open(self@, 0),
    {
        let ghost tiles = self@;
        assert(tiles[0] == self.tiles@[0]@);
        let mut c: usize = 0;
        while c < self.num_cols
            invariant
                self.wf(),
                tiles == self@,
                tiles.len() > 0,
                c <= self.num_cols,
                self.num_cols == tiles[0].len(),
                first_open(tiles, 0) == first_open(tiles, c as int),
            decreases self.num_cols - c,
        {
            match self.tiles[0][c] {
                Tile::Open => {
                    return Some(c);
                },
                _ => {},
            }
            c += 1;
        }
        None
    }

    /// The number of rows and of columns.
    pub fn size(&self) -> (r: (usize, usize))
        requires
            self.wf(),
        ensures
            r.0 == self@.len(),
            self@.len() > 0 ==> r.1 == self@[0].len(),
    {
        proof {
            if self.tiles@.len() > 0 {
                assert(self@[0] == self.tiles@[0]@);
            }
        }
        (self.num_rows, self.num_cols)
    }

    /// Walks the path from the first open tile of row 0, facing right, and gives the
    /// password of where it ends.
    pub fn execute(&self, instructions: &Vec<Instruction>) -> (r: i64)
        requires
            self.wf(),
            can_start(self@),
            1000 * self@.len() + 4 * self@[0].len() + 3 <= i64::MAX,
        ensures
            r == password_after(self@, instructions@),
    {
        let ghost tiles = self@;
        assert(tiles[0] == self.tiles@[0]@);
        let mut facing = Facing::Right;
        let mut row: usize = 0;
        let mut col: usize = match self.start_column() {
            Some(col) => col,
            None => unreached(),
        };
        let ghost start = Stand { row: 0, col: col as int, facing: Facing::Right };
        let mut i: usize = 0;
        assert(instructions@.take(0) =~= Seq::<Instruction>::empty());
        while i < instructions.len()
            invariant
                i <= instructions.len(),
                self.wf(),
                tiles == self@,
                tiles.len() > 0,
                row < tiles.len(),
                col < tiles[0].len(),
                walk(tiles, start, instructions@.take(i as int)) == (Stand {
                    row: row as int,
                    col: col as int,
                    facing,
                }),
            decreases instructions.len() - i,
        {
            proof {
                crate::text::lemma_take_step(instructions@, i as int);
            }
            match instructions[i] {
                Instruction::Move(n) => {
                    let ghost from = Stand { row: row as int, col: col as int, facing };
                    let mut k: usize = 0;
                    while k < n
                        invariant_except_break
                            forward(tiles, from, n as nat) == forward(
                                tiles,
                                Stand { row: row as int, col: col as int, facing },
                                (n - k) as nat,
                            ),
                        invariant
                            k <= n,
                            self.wf(),
                            tiles == self@,
                            row < tiles.len(),
                            col < tiles[0].len(),
                        ensures
                            forward(tiles, from, n as nat) == (Stand {
                                row: row as int,
                                col: col as int,
                                facing,
                            }),
                        decreases n - k,
                    {
                        match self.execute_move(row, col, facing) {
                            Some(p) => {
                                row = p.0;
                                col = p.1;
                            },
                            None => {
                                break ;
                            },
                        }
                        k += 1;
                    }
                },
                turn => {
                    facing = facing.after(&turn);
                },
            }
            i += 1;
        }
        assert(instructions@.take(i as int) =~= instructions@);
        1000 * (row + 1) as i64 + 4 * (col + 1) as i64 + match facing {
            Facing::Right => 0,
            Facing::Down => 1,
            Facing::Left => 2,
            Facing::Up => 3,
        }
    }
}

/// The widest of more rows is at least the widest of fewer.
pub proof fn lemma_widest_grows(rows: Seq<Seq<char>>, m: int, n: int)
    requires
        m <= n,
    ensures
        widest(rows, m) <= widest(rows, n),
        0 < m <= n ==> byte_len(rows[m - 1]) <= widest(rows, n),
    decreases n - m,
{
    if m < n {
        lemma_widest_grows(rows, m, n - 1);
    }
}

/// The instructions that one match writes: a move by the number of its second group, and
/// a turn if its third group is `R` or `L`. `None` where the second group is missing or
/// is no number of a `usize`.
pub open spec fn instructions_of(groups: Seq<Option<Seq<char>>>) -> Option<Seq<Instruction>> {
    if groups.len() >= 4 && groups[2] is Some && groups[3] is Some && parse_usize(
        groups[2].unwrap(),
    ) is Some {
        let steps = Instruction::Move(parse_usize(groups[2].unwrap()).unwrap());
        if groups[3].unwrap() == "R"@ {
            Some(seq![steps, Instruction::Right])
        } else if groups[3].unwrap() == "L"@ {
            Some(seq![steps, Instruction::Left])
        } else {
            Some(seq![steps])
        }
    } else {
        None
    }
}

/// The instructions that the first `n` matches write, one after the other.
pub open spec fn path_of(found: Seq<Seq<Option<Seq<char>>>>, n: int) -> Option<Seq<Instruction>>
    decreases n,
{
    if n <= 0 {
        Some(Seq::empty())
    } else {
        match (path_of(found, n - 1), instructions_of(found[n - 1])) {
            (Some(before), Some(more)) => Some(before + more),
            _ => None,
        }
    }
}

/// The regular expression for a move and the turn that may follow it.
pub open spec fn step_pattern() -> Seq<char> {
    "((\\d+)([LR]?))"@
}

/// The path that a text writes: numbers of tiles to move, each followed by `R` or `L`
/// or nothing. `None` where a number is more than a `usize` holds.
pub open spec fn path_in(text: Seq<char>) -> Option<Seq<Instruction>> {
    match all_captures(step_pattern(), text) {
        Some(found) => path_of(found, found.len() as int),
        None => None,
    }
}

impl Instruction {
    /// The instructions that the matches write.
    pub fn from_matches(found: &Vec<Vec<Option<String>>>) -> (r: Option<Vec<Instruction>>)
        ensures
            r is Some <==> path_of(match_views(found@), found.len() as int) is Some,
            r is Some ==> r.unwrap()@ == path_of(match_views(found@), found.len() as int).unwrap(),
    {
        let ghost all = match_views(found@);
        let mut out: Vec<Instruction> = Vec::new();
        let mut i: usize = 0;
        while i < found.len()
            invariant
                i <= found.len(),
                all == match_views(found@),
                path_of(all, i as int) == Some(out@),
            decreases found.len() - i,
        {
            let groups = &found[i];
            assert(all[i as int] == group_views(groups@));
            if groups.len() < 4 {
                proof {
                    lemma_path_fails(all, i + 1, all.len() as int);
                }
                return None;
            }
            assert(group_views(groups@)[2] == (match groups@[2] {
                Some(s) => Some(s@),
                None => None,
            }));
            assert(group_views(groups@)[3] == (match groups@[3] {
                Some(s) => Some(s@),
                None => None,
            }));
            let steps = match (&groups[2], &groups[3]) {
                (Some(digits), Some(_)) => {
                    let v = chars_of(digits.as_str());
                    to_usize(&v)
                },
                _ => None,
            };
            let steps = match steps {
                Some(steps) => steps,
                None => {
                    proof {
                        lemma_path_fails(all, i + 1, all.len() as int);
                    }
                    return None;
                },
            };
            let ghost before = out@;
            out.push(Instruction::Move(steps));
            match &groups[3] {
                Some(turn) => {
                    let t = chars_of(turn.as_str());
                    if is_word(&t, "R") {
                        out.push(Instruction::Right);
                        assert(out@ =~= before + seq![Instruction::Move(steps), Instruction::Right]);
                    } else if is_word(&t, "L") {
                        out.push(Instruction::Left);
                        assert(out@ =~= before + seq![Instruction::Move(steps), Instruction::Left]);
                    } else {
                        assert(out@ =~= before + seq![Instruction::Move(steps)]);
                    }
                },
                None => {},
            }
            i += 1;
        }
        Some(out)
    }

    /// Reads a path with the regular expression `((\d+)([LR]?))`.
    pub fn parse_instructions(s: &str) -> (r: Option<Vec<Instruction>>)
        ensures
            r is Some <==> path_in(s@) is Some,
            r is Some ==> r.unwrap()@ == path_in(s@).unwrap(),
    {
        match captures_iter("((\\d+)([LR]?))", s) {
            Some(found) => Instruction::from_matches(&found),
            None => None,
        }
    }
}

/// Where the first matches write no path, all of them write none.
pub proof fn lemma_path_fails(found: Seq<Seq<Option<Seq<char>>>>, m: int, n: int)
    requires
        m <= n,
        path_of(found, m) is None,
    ensures
        path_of(found, n) is None,
    decreases n - m,
{
    if m < n {
        lemma_path_fails(found, m, n - 1);
    }
}

/// The board and the path that a text holds, the board before its first empty line and
/// the path after it.
pub open spec fn parts_of(s: Seq<char>) -> Option<(Seq<Seq<Tile>>, Seq<Instruction>)> {
    match split_once(s, seq!['\n', '\n']) {
        Some((board, path)) => match path_in(path) {
            Some(p) => if widest(lines(board), lines(board).len() as int) <= usize::MAX {
                Some((tiles_of(lines(board)), p))
            } else {
                None
            },
            None => None,
        },
        None => None,
    }
}

/// Whether the walk that `s` writes can be made and has a password that an `i64` holds.
pub open spec fn valid_walk(s: Seq<char>) -> bool {
    &&& parts_of(s) is Some
    &&& can_start(parts_of(s).unwrap().0)
    &&& 1000 * parts_of(s).unwrap().0.len() + 4 * parts_of(s).unwrap().0[0].len() + 3 <= i64::MAX
}

/// The password after the walk that `s` writes, or `None` where it cannot be made.
pub fn walk_password(s: &str) -> (r: Option<i64>)
    ensures
        r is Some <==> valid_walk(s@),
        r is Some ==> r.unwrap() == password_after(
            parts_of(s@).unwrap().0,
            parts_of(s@).unwrap().1,
        ),
{
    let all = chars_of(s);
    let mut gap: Vec<char> = Vec::new();
    gap.push('\n');
    gap.push('\n');
    assert(gap@ =~= seq!['\n', '\n']);
    let (map, path) = match split_once_on(&all, &gap) {
        Some(parts) => parts,
        None => {
            return None;
        },
    };
    let path_text = string_of(&path);
    let instructions = match Instruction::parse_instructions(path_text.as_str()) {
        Some(instructions) => instructions,
        None => {
            return None;
        },
    };
    let rows = lines_of(&map);
    let ghost texts = views(rows@);
    let mut r: usize = 0;
    while r < rows.len()
        invariant
            r <= rows.len(),
            texts == views(rows@),
            texts == lines(map@),
            split_once(s@, seq!['\n', '\n']) == Some((map@, path@)),
            path_in(path@) is Some,
            widest(texts, r as int) <= usize::MAX,
        decreases rows.len() - r,
    {
        assert(texts[r as int] == rows@[r as int]@);
        if utf8_len(&rows[r]) > usize::MAX as u128 {
            proof {
                lemma_widest_grows(texts, r + 1, texts.len() as int);
            }
            return None;
        }
        r += 1;
    }
    let map_text = string_of(&map);
    let board = Board::from_str(map_text.as_str());
    let (num_rows, num_cols) = board.size();
    if num_rows == 0 {
        return None;
    }
    if board.start_column().is_none() {
        return None;
    }
    if 1000 * (num_rows as u128) + 4 * (num_cols as u128) + 3 > 0x7fff_ffff_ffff_ffff {
        return None;
    }
    Some(board.execute(&instructions))
}

/// The password after the walk that `s` writes.
pub fn final_password(s: &str) -> (r: i64)
    requires
        valid_walk(s@),
    ensures
        r == password_after(parts_of(s@).unwrap().0, parts_of(s@).unwrap().1),
{
    match walk_password(s) {
        Some(r) => r,
        None => unreached(),
    }
}

/// The password after the walk that `s` writes, or `None` where it cannot be made.
pub fn try_final_password(s: &str) -> (r: Option<i64>)
    ensures
        r is Some <==> valid_walk(s@),
        r is Some ==> r.unwrap() == password_after(
            parts_of(s@).unwrap().0,
            parts_of(s@).unwrap().1,
        ),
{
    match walk_password(s) {
        Some(_) => Some(final_password(s)),
        None => None,
    }
}

impl Tile {
    /// The character that stands for the tile in a drawing of the board.
    pub open spec fn sign(self) -> char {
        match self {
            Tile::Empty => ' ',
            Tile::Open => '.',
            Tile::Wall => '#',
        }
    }

    /// The character that stands for the tile in a drawing of the board.
    pub fn symbol(&self) -> (c: char)
        ensures
            c == self.sign(),
    {
        match self {
            Tile::Empty => ' ',
            Tile::Open => '.',
            Tile::Wall => '#',
        }
    }
}

impl Board {
    /// A drawing of the board, a line for each row.
    pub fn render(&self) -> (lines: Vec<Vec<char>>)
        requires
            self.wf(),
        ensures
            lines@.len() == self@.len(),
            forall|r: int| 0 <= r < lines@.len() ==> (#[trigger] lines@[r])@.len() == self@[r].len(),
            forall|r: int, c: int|
                0 <= r < lines@.len() && 0 <= c < self@[r].len() ==> (#[trigger] lines@[r]@[c])
                    == self@[r][c].sign(),
    {
        let mut lines: Vec<Vec<char>> = Vec::new();
        let mut r: usize = 0;
        while r < self.tiles.len()
            invariant
                r <= self.tiles.len(),
                lines.len() == r,
                forall|k: int| 0 <= k < r ==> (#[trigger] lines@[k])@.len() == self@[k].len(),
                forall|k: int, c: int|
                    0 <= k < r && 0 <= c < self@[k].len() ==> (#[trigger] lines@[k]@[c])
                        == self@[k][c].sign(),
            decreases self.tiles.len() - r,
        {
            let row = &self.tiles[r];
            assert(self@[r as int] == row@);
            let mut line: Vec<char> = Vec::new();
            let mut c: usize = 0;
            while c < row.len()
                invariant
                    c <= row.len(),
                    line.len() == c,
                    forall|k: int| 0 <= k < c ==> line@[k] == row@[k].sign(),
                decreases row.len() - c,
            {
                line.push(row[c].symbol());
                c += 1;
            }
            lines.push(line);
            r += 1;
        }
        lines
    }
}

} // verus!
