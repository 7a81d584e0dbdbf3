//! Elves on a grid who spread out round by round: each proposes a step into a free
//! direction, and steps if no other elf proposes the same place.

use crate::text::{byte_len, chars_of, lines, lines_of, utf8_len, views};
use vstd::pervasive::unreached;
use vstd::prelude::*;

verus! {

/// A row and a column, or a change of them.
#[derive(Debug, Clone, Copy, Eq, PartialEq, Structural)]
pub struct Position {
    pub row: i64,
    pub col: i64,
}

/// What a place of the grid holds.
#[derive(Clone, Copy, Debug, Eq, PartialEq, Structural)]
pub enum Tile {
    Empty,
    Elf,
}

impl Position {
    pub fn new(row: i64, col: i64) -> (p: Position)
        ensures
            p.row == row,
            p.col == col,
    {
        Position { row, col }
    }

    /// The place that lies `other` away from this one.
    pub fn add(self, other: Position) -> (p: Position)
        requires
            i64::MIN <= self.row + other.row <= i64::MAX,
            i64::MIN <= self.col + other.col <= i64::MAX,
        ensures
            p.row == self.row + other.row,
            p.col == self.col + other.col,
    {
        Position { row: self.row + other.row, col: self.col + other.col }
    }
}

/// Whether an elf stands in row `r` and column `c`; outside the grid there is none.
pub open spec fn elf_at(g: Seq<Seq<Tile>>, r: int, c: int) -> bool {
    0 <= r < g.len() && 0 <= c < g[r].len() && g[r][c] == Tile::Elf
}

/// The step of direction `d`: north, south, west, east for 0, 1, 2, 3.
pub open spec fn step_of(d: int) -> (int, int) {
    if d == 0 {
        (-1, 0)
    } else if d == 1 {
        (1, 0)
    } else if d == 2 {
        (0, -1)
    } else {
        (0, 1)
    }
}

/// Whether the three places on the side of direction `d` of row `r` and column `c` are
/// free of elves: the place of the step and the two beside it.
pub open spec fn side_free(g: Seq<Seq<Tile>>, r: int, c: int, d: int) -> bool {
    let s = step_of(d);
    if s.0 != 0 {
        !elf_at(g, r + s.0, c - 1) && !elf_at(g, r + s.0, c) && !elf_at(g, r + s.0, c + 1)
    } else {
        !elf_at(g, r - 1, c + s.1) && !elf_at(g, r, c + s.1) && !elf_at(g, r + 1, c + s.1)
    }
}

/// Whether no elf stands on any of the eight places around row `r` and column `c`.
pub open spec fn alone(g: Seq<Seq<Tile>>, r: int, c: int) -> bool {
    side_free(g, r, c, 0) && side_free(g, r, c, 1) && !elf_at(g, r, c - 1) && !elf_at(g, r, c + 1)
}

/// The direction that the elf in row `r` and column `c` tries as its `k`-th in round
/// `num`: the directions come in the order north, south, west, east, and each round
/// starts with the next of them.
pub open spec fn try_of(num: int, k: int) -> int {
    (num - 1 + k) % 4
}

/// The place to which the elf in row `r` and column `c` proposes to step in round `num`,
/// trying its directions from the `k`-th on: the first whose side is free. An elf that
/// is alone proposes nothing.
pub open spec fn proposal_from(g: Seq<Seq<Tile>>, r: int, c: int, num: int, k: int) -> Option<
    (int, int),
>
    decreases 4 - k,
{
    if k < 0 || k >= 4 {
        None
    } else if side_free(g, r, c, try_of(num, k)) {
        Some((r + step_of(try_of(num, k)).0, c + step_of(try_of(num, k)).1))
    } else {
        proposal_from(g, r, c, num, k + 1)
    }
}

/// The place to which the elf in row `r` and column `c` proposes to step in round `num`.
pub open spec fn proposal(g: Seq<Seq<Tile>>, r: int, c: int, num: int) -> Option<(int, int)> {
    if !elf_at(g, r, c) || alone(g, r, c) {
        None
    } else {
        proposal_from(g, r, c, num, 0)
    }
}

/// Whether the elf on the place that lies direction `d` from row `r` and column `c`
/// proposes to step there.
pub open spec fn claims_from(g: Seq<Seq<Tile>>, r: int, c: int, num: int, d: int) -> bool {
    proposal(g, r + step_of(d).0, c + step_of(d).1, num) == Some((r, c))
}

/// The number of elves that propose to step to row `r` and column `c`.
pub open spec fn claims(g: Seq<Seq<Tile>>, r: int, c: int, num: int) -> nat {
    let a: nat = if claims_from(g, r, c, num, 0) {
        1
    } else {
        0
    };
    let b: nat = if claims_from(g, r, c, num, 1) {
        1
    } else {
        0
    };
    let x: nat = if claims_from(g, r, c, num, 2) {
        1
    } else {
        0
    };
    let y: nat = if claims_from(g, r, c, num, 3) {
        1
    } else {
        0
    };
    a + b + x + y
}

/// Whether the elf in row `r` and column `c` steps in round `num`: it proposes a place
/// that no other elf proposes.
pub open spec fn steps(g: Seq<Seq<Tile>>, r: int, c: int, num: int) -> bool {
    proposal(g, r, c, num) is Some && claims(
        g,
        proposal(g, r, c, num).unwrap().0,
        proposal(g, r, c, num).unwrap().1,
        num,
    ) == 1
}

/// The grid after round `num`: an elf stands where one stood and did not step, and
/// where exactly one elf proposed to step.
pub open spec fn after_round(g: Seq<Seq<Tile>>, num: int) -> Seq<Seq<Tile>> {
    Seq::new(
        g.len(),
        |r: int|
            Seq::new(
                g[r].len(),
                |c: int|
                    if (elf_at(g, r, c) && !steps(g, r, c, num)) || (!elf_at(g, r, c) && claims(
                        g,
                        r,
                        c,
                        num,
                    ) == 1) {
                        Tile::Elf
                    } else {
                        Tile::Empty
                    },
            ),
    )
}

/// The number of elves among the first `c` places of row `r` that step in round `num`.
pub open spec fn steps_in_row(g: Seq<Seq<Tile>>, r: int, c: int, num: int) -> nat
    decreases c,
{
    if c <= 0 {
        0
    } else {
        steps_in_row(g, r, c - 1, num) + if steps(g, r, c - 1, num) {
            1nat
        } else {
            0nat
        }
    }
}

/// The number of elves in the first `r` rows that step in round `num`.
pub open spec fn steps_in_rows(g: Seq<Seq<Tile>>, r: int, num: int) -> nat
    decreases r,
{
    if r <= 0 {
        0
    } else {
        steps_in_rows(g, r - 1, num) + steps_in_row(g, r - 1, g[r - 1].len() as int, num)
    }
}

/// Whether the rows are equally long and no elf stands on the edge of the grid.
pub open spec fn roomy(g: Seq<Seq<Tile>>) -> bool {
    &&& forall|r: int| 0 <= r < g.len() ==> (#[trigger] g[r]).len() == g[0].len()
    &&& forall|r: int, c: int|
        0 <= r < g.len() && 0 <= c < g[r].len() && #[trigger] g[r][c] == Tile::Elf ==> 0 < r
            < g.len() - 1 && 0 < c < g[r].len() - 1
}

/// The tiles of a list of rows.
pub open spec fn tile_rows(v: Seq<Vec<Tile>>) -> Seq<Seq<Tile>> {
    Seq::new(v.len(), |i: int| v[i]@)
}

/// A grid of elves, with free rows and columns around them.
#[derive(Debug)]
pub struct Grove {
    tiles: Vec<Vec<Tile>>,
}

impl View for Grove {
    type V = Seq<Seq<Tile>>;

    closed spec fn view(&self) -> Seq<Seq<Tile>> {
        tile_rows(self.tiles@)
    }
}

/// The least number of the row, if `rows`, or of the column of an elf among the first
/// `n` places of the grid, read row after row; `usize::MAX` where there is none.
pub open spec fn least(g: Seq<Seq<Tile>>, rows: bool, n: int) -> int
    decreases n,
{
    if n <= 0 || g[0].len() == 0 {
        usize::MAX as int
    } else {
        let r = (n - 1) / (g[0].len() as int);
        let c = (n - 1) % (g[0].len() as int);
        let m = least(g, rows, n - 1);
        let x = if rows {
            r
        } else {
            c
        };
        if g[r][c] == Tile::Elf && x < m {
            x
        } else {
            m
        }
    }
}

/// The greatest number of the row, if `rows`, or of the column of an elf among the first
/// `n` places of the grid; 0 where there is none.
pub open spec fn greatest(g: Seq<Seq<Tile>>, rows: bool, n: int) -> int
    decreases n,
{
    if n <= 0 || g[0].len() == 0 {
        0
    } else {
        let r = (n - 1) / (g[0].len() as int);
        let c = (n - 1) % (g[0].len() as int);
        let m = greatest(g, rows, n - 1);
        let x = if rows {
            r
        } else {
            c
        };
        if g[r][c] == Tile::Elf && x > m {
            x
        } else {
            m
        }
    }
}

/// The number of free places among those of row `r` from column `from` up to `c`.
pub open spec fn free_in_row(g: Seq<Seq<Tile>>, r: int, from: int, c: int) -> nat
    decreases c - from,
{
    if c <= from {
        0
    } else {
        free_in_row(g, r, from, c - 1) + if g[r][c - 1] == Tile::Empty {
            1nat
        } else {
            0nat
        }
    }
}

/// The number of free places in the rows from `top` up to `r`, in the columns from
/// `left` to `right`.
pub open spec fn free_in_rows(g: Seq<Seq<Tile>>, top: int, r: int, left: int, right: int) -> nat
    decreases r - top,
{
    if r <= top {
        0
    } else {
        free_in_rows(g, top, r - 1, left, right) + free_in_row(g, r - 1, left, right + 1)
    }
}

/// The number of free places in the smallest rectangle that holds every elf.
pub open spec fn free_ground(g: Seq<Seq<Tile>>) -> nat {
    let n = g.len() * g[0].len();
    free_in_rows(
        g,
        least(g, true, n as int),
        greatest(g, true, n as int) + 1,
        least(g, false, n as int),
        greatest(g, false, n as int),
    )
}

/// What `count` rounds from round `n` on give: the number of the first round in which no
/// elf steps, if it comes before round `count`; else the free ground after round
/// `count`. `None` where an elf comes to stand on the edge of the grid.
pub open spec fn outcome(g: Seq<Seq<Tile>>, count: int, n: int) -> Option<int>
    decreases count - n,
{
    if !roomy(g) || g.len() == 0 || g.len() * g[0].len() > usize::MAX || n > count {
        None
    } else if count == n {
        Some(free_ground(after_round(g, n)) as int)
    } else if steps_in_rows(g, g.len() as int, n) == 0 {
        Some(n)
    } else {
        outcome(after_round(g, n), count, n + 1)
    }
}

/// Whether the character in row `r` and column `c` of the drawing is `.` or `#` and
/// stands in a column of the grid.
pub open spec fn drawn(rows: Seq<Seq<char>>, r: int, c: int, padding: nat) -> bool {
    (rows[r][c] == '.' || rows[r][c] == '#') && c < byte_len(rows[0]) + padding
}

/// The grid that the lines draw with `padding` free rows and columns around them: `#`
/// is an elf and `.` a free place. The grid is as wide as the first line takes bytes.
/// `None` where there is no line, another character, a line that is too long, or more
/// rows or columns than a `usize` counts.
pub open spec fn grove_of(rows: Seq<Seq<char>>, padding: nat) -> Option<Seq<Seq<Tile>>> {
    if rows.len() > 0 && rows.len() + 2 * padding <= usize::MAX && byte_len(rows[0]) + 2 * padding
        <= usize::MAX && (forall|r: int, c: int|
        0 <= r < rows.len() && 0 <= c < rows[r].len() ==> #[trigger] drawn(rows, r, c, padding)) {
        Some(
            Seq::new(
                rows.len() + 2 * padding,
                |r: int|
                    Seq::new(
                        byte_len(rows[0]) + 2 * padding,
                        |c: int|
                            if padding <= r < padding + rows.len() && padding <= c < padding
                                + rows[r - padding].len() && rows[r - padding][c - padding]
                                == '#' {
                                Tile::Elf
                            } else {
                                Tile::Empty
                            },
                    ),
            ),
        )
    } else {
        None
    }
}

impl Grove {
    /// The rows are equally long.
    pub closed spec fn wf(&self) -> bool {
        forall|r: int| 0 <= r < self.tiles@.len() ==> (#[trigger] self.tiles@[r])@.len() == self.tiles@[0]@.len()
    }

    /// Reads a grid and puts `padding` free rows and columns around it.
    pub fn from_str(s: &str, padding: usize) -> (r: Option<Grove>)
        ensures
            r is Some <==> grove_of(lines(s@), padding as nat) is Some,
            r is Some ==> r.unwrap().wf() && Some(r.unwrap()@) == grove_of(
                lines(s@),
                padding as nat,
            ),
    {
        let all = chars_of(s);
        let rows = lines_of(&all);
        let ghost texts = views(rows@);
        if rows.len() == 0 {
            return None;
        }
        assert(texts[0] == rows@[0]@);
        let wide_rows: u128 = rows.len() as u128 + 2 * (padding as u128);
        let first_len = rows[0].len();
        let wide_cols: u128 = utf8_len(&rows[0]) + 2 * (padding as u128);
        if wide_rows > usize::MAX as u128 || wide_cols > usize::MAX as u128 {
            return None;
        }
        let num_rows = wide_rows as usize;
        let num_cols = wide_cols as usize;
        let mut r: usize = 0;
        while r < rows.len()
            invariant
                r <= rows.len(),
                texts == views(rows@),
                texts == lines(s@),
                rows.len() > 0,
                num_cols == byte_len(texts[0]) + 2 * padding,
                forall|i: int, c: int|
                    0 <= i < r && 0 <= c < texts[i].len() ==> #[trigger] drawn(
                        texts,
                        i,
                        c,
                        padding as nat,
                    ),
            decreases rows.len() - r,
        {
            assert(texts[r as int] == rows@[r as int]@);
            let line = &rows[r];
            let mut c: usize = 0;
            while c < line.len()
                invariant
                    c <= line.len(),
                    r < rows.len(),
                    texts == views(rows@),
                    texts == lines(s@),
                    line@ == texts[r as int],
                    num_cols == byte_len(texts[0]) + 2 * padding,
                    forall|k: int|
                        0 <= k < c ==> #[trigger] drawn(texts, r as int, k, padding as nat),
                decreases line.len() - c,
            {
                let ch = line[c];
                if (ch != '.' && ch != '#') || c >= num_cols - padding {
                    assert(!drawn(texts, r as int, c as int, padding as nat));
                    return None;
                }
                c += 1;
            }
            r += 1;
        }
        let mut tiles: Vec<Vec<Tile>> = Vec::new();
        let mut r: usize = 0;
        while r < num_rows
            invariant
                r <= num_rows,
                texts == views(rows@),
                num_rows == rows.len() + 2 * padding,
                num_cols == byte_len(texts[0]) + 2 * padding,
                grove_of(texts, padding as nat) is Some,
                tiles.len() == r,
                forall|k: int|
                    0 <= k < r ==> (#[trigger] tiles@[k])@ == grove_of(
                        texts,
                        padding as nat,
                    ).unwrap()[k],
            decreases num_rows - r,
        {
            let mut row: Vec<Tile> = Vec::new();
            let mut c: usize = 0;
            while c < num_cols
                invariant
                    c <= num_cols,
                    r < num_rows,
                    texts == views(rows@),
                    num_rows == rows.len() + 2 * padding,
                    num_cols == byte_len(texts[0]) + 2 * padding,
                    grove_of(texts, padding as nat) is Some,
                    row.len() == c,
                    forall|k: int|
                        0 <= k < c ==> row@[k] == grove_of(texts, padding as nat).unwrap()[r as int][k],
                decreases num_cols - c,
            {
                let tile = if padding <= r && r - padding < rows.len() && padding <= c {
                    let line = &rows[r - padding];
                    assert(texts[r - padding] == line@);
                    if c - padding < line.len() && line[c - padding] == '#' {
                        Tile::Elf
                    } else {
                        Tile::Empty
                    }
                } else {
                    Tile::Empty
                };
                row.push(tile);
                c += 1;
            }
            assert(row@ =~= grove_of(texts, padding as nat).unwrap()[r as int]);
            tiles.push(row);
            r += 1;
        }
        let grove = Grove { tiles };
        proof {
            assert(grove@ =~= grove_of(texts, padding as nat).unwrap());
        }
        Some(grove)
    }

    /// What the place in row `pos.row` and column `pos.col` holds; outside the grid
    /// there is nothing.
    pub fn tile(&self, pos: &Position) -> (t: Tile)
        ensures
            (t == Tile::Elf) == elf_at(self@, pos.row as int, pos.col as int),
            t == Tile::Elf || t == Tile::Empty,
    {
        if pos.row < 0 || pos.col < 0 {
            return Tile::Empty;
        }
        let r = pos.row as u64;
        let c = pos.col as u64;
        if r >= self.tiles.len() as u64 {
            return Tile::Empty;
        }
        assert(self@[r as int] == self.tiles@[r as int]@);
        if c >= self.tiles[r as usize].len() as u64 {
            return Tile::Empty;
        }
        self.tiles[r as usize][c as usize]
    }

    /// Whether an elf stands in row `r` and column `c`.
    fn has_elf(&self, r: i128, c: i128) -> (b: bool)
        ensures
            b == elf_at(self@, r as int, c as int),
    {
        if r < 0 || c < 0 || r >= self.tiles.len() as i128 {
            return false;
        }
        assert(self@[r as int] == self.tiles@[r as int]@);
        let row = &self.tiles[r as usize];
        if c >= row.len() as i128 {
            return false;
        }
        match row[c as usize] {
            Tile::Elf => true,
            Tile::Empty => false,
        }
    }

    /// Whether the side of direction `d` of row `r` and column `c` is free.
    fn is_side_free(&self, r: i128, c: i128, d: u8) -> (b: bool)
        requires
            d < 4,
            -8 <= r <= 0x1_0000_0000_0000_0008,
            -8 <= c <= 0x1_0000_0000_0000_0008,
        ensures
            b == side_free(self@, r as int, c as int, d as int),
    {
        if d == 0 {
            !self.has_elf(r - 1, c - 1) && !self.has_elf(r - 1, c) && !self.has_elf(r - 1, c + 1)
        } else if d == 1 {
            !self.has_elf(r + 1, c - 1) && !self.has_elf(r + 1, c) && !self.has_elf(r + 1, c + 1)
        } else if d == 2 {
            !self.has_elf(r - 1, c - 1) && !self.has_elf(r, c - 1) && !self.has_elf(r + 1, c - 1)
        } else {
            !self.has_elf(r - 1, c + 1) && !self.has_elf(r, c + 1) && !self.has_elf(r + 1, c + 1)
        }
    }

    /// The place to which the elf in row `r` and column `c` proposes to step in round
    /// `num`.
    fn proposed(&self, r: i128, c: i128, num: usize) -> (p: Option<(i128, i128)>)
        requires
            -4 <= r <= 0x1_0000_0000_0000_0004,
            -4 <= c <= 0x1_0000_0000_0000_0004,
            num >= 1,
        ensures
            match p {
                Some(q) => proposal(self@, r as int, c as int, num as int) == Some(
                    (q.0 as int, q.1 as int),
                ) && r - 1 <= q.0 <= r + 1 && c - 1 <= q.1 <= c + 1,
                None => proposal(self@, r as int, c as int, num as int) is None,
            },
    {
        if !self.has_elf(r, c) {
            return None;
        }
        if self.is_side_free(r, c, 0) && self.is_side_free(r, c, 1) && !self.has_elf(r, c - 1)
            && !self.has_elf(r, c + 1) {
            return None;
        }
        let first = ((num - 1) % 4) as u8;
        let mut k: u8 = 0;
        while k < 4
            invariant
                k <= 4,
                first == (num - 1) % 4,
                num >= 1,
                -4 <= r <= 0x1_0000_0000_0000_0004,
                -4 <= c <= 0x1_0000_0000_0000_0004,
                proposal(self@, r as int, c as int, num as int) == proposal_from(
                    self@,
                    r as int,
                    c as int,
                    num as int,
                    k as int,
                ),
            decreases 4 - k,
        {
            let d = (first + k) % 4;
            assert(d == try_of(num as int, k as int)) by {
                assert((num - 1 + k) % 4 == (((num - 1) % 4) + k) % 4) by (nonlinear_arith)
                    requires
                        num >= 1,
                        0 <= k < 4,
                ;
            }
            if self.is_side_free(r, c, d) {
                let q = if d == 0 {
                    (r - 1, c)
                } else if d == 1 {
                    (r + 1, c)
                } else if d == 2 {
                    (r, c - 1)
                } else {
                    (r, c + 1)
                };
                return Some(q);
            }
            k += 1;
        }
        None
    }

    /// Whether the elf on the place that lies direction `d` from row `r` and column `c`
    /// proposes to step there.
    fn is_claimed_from(&self, r: i128, c: i128, num: usize, d: u8) -> (b: bool)
        requires
            -2 <= r <= 0x1_0000_0000_0000_0002,
            -2 <= c <= 0x1_0000_0000_0000_0002,
            num >= 1,
            d < 4,
        ensures
            b == claims_from(self@, r as int, c as int, num as int, d as int),
    {
        let from = if d == 0 {
            (r - 1, c)
        } else if d == 1 {
            (r + 1, c)
        } else if d == 2 {
            (r, c - 1)
        } else {
            (r, c + 1)
        };
        match self.proposed(from.0, from.1, num) {
            Some(q) => q.0 == r && q.1 == c,
            None => false,
        }
    }

    /// The number of elves that propose to step to row `r` and column `c`.
    fn num_claims(&self, r: i128, c: i128, num: usize) -> (n: u8)
        requires
            -2 <= r <= 0x1_0000_0000_0000_0002,
            -2 <= c <= 0x1_0000_0000_0000_0002,
            num >= 1,
        ensures
            n == claims(self@, r as int, c as int, num as int),
    {
        let mut n: u8 = 0;
        if self.is_claimed_from(r, c, num, 0) {
            n += 1;
        }
        if self.is_claimed_from(r, c, num, 1) {
            n += 1;
        }
        if self.is_claimed_from(r, c, num, 2) {
            n += 1;
        }
        if self.is_claimed_from(r, c, num, 3) {
            n += 1;
        }
        n
    }

    /// Whether the elf in row `r` and column `c` steps in round `num`.
    fn does_step(&self, r: usize, c: usize, num: usize) -> (b: bool)
        requires
            num >= 1,
        ensures
            b == steps(self@, r as int, c as int, num as int),
    {
        match self.proposed(r as i128, c as i128, num) {
            Some(q) => {
                self.num_claims(q.0, q.1, num) == 1
            },
            None => false,
        }
    }

    /// Whether no elf stands on the edge of the grid.
    pub fn is_roomy(&self) -> (b: bool)
        requires
            self.wf(),
        ensures
            b == roomy(self@),
    {
        let ghost g = self@;
        let num_rows = self.tiles.len();
        if num_rows == 0 {
            return true;
        }
        assert(g[0] == self.tiles@[0]@);
        let num_cols = self.tiles[0].len();
        let mut r: usize = 0;
        while r < num_rows
            invariant
                r <= num_rows,
                self.wf(),
                g == self@,
                num_rows == g.len(),
                num_cols == g[0].len(),
                forall|i: int, c: int|
                    0 <= i < r && 0 <= c < g[i].len() && #[trigger] g[i][c] == Tile::Elf ==> 0 < i
                        < g.len() - 1 && 0 < c < g[i].len() - 1,
            decreases num_rows - r,
        {
            assert(g[r as int] == self.tiles@[r as int]@);
            let mut c: usize = 0;
            while c < num_cols
                invariant
                    c <= num_cols,
                    r < num_rows,
                    self.wf(),
                    g == self@,
                    num_rows == g.len(),
                    num_cols == g[0].len(),
                    g[r as int] == self.tiles@[r as int]@,
                    forall|k: int|
                        0 <= k < c && #[trigger] g[r as int][k] == Tile::Elf ==> 0 < r < g.len() - 1
                            && 0 < k < g[r as int].len() - 1,
                decreases num_cols - c,
            {
                match self.tiles[r][c] {
                    Tile::Elf => {
                        if r == 0 || r == num_rows - 1 || c == 0 || c == num_cols - 1 {
                            assert(g[r as int][c as int] == Tile::Elf);
                            return false;
                        }
                    },
                    Tile::Empty => {},
                }
                c += 1;
            }
            r += 1;
        }
        assert forall|i: int| 0 <= i < g.len() implies (#[trigger] g[i]).len() == g[0].len() by {
            assert(g[i] == self.tiles@[i]@);
        }
        true
    }

    /// Plays round `num` and gives the number of elves that stepped.
    pub fn round(&mut self, num: usize) -> (moves: usize)
        requires
            old(self).wf(),
            num >= 1,
            steps_in_rows(old(self)@, old(self)@.len() as int, num as int) <= usize::MAX,
        ensures
            final(self).wf(),
            final(self)@ == after_round(old(self)@, num as int),
            moves == steps_in_rows(old(self)@, old(self)@.len() as int, num as int),
    {
        let ghost g = self@;
        let num_rows = self.tiles.len();
        let mut tiles: Vec<Vec<Tile>> = Vec::new();
        let mut moves: usize = 0;
        let mut r: usize = 0;
        while r < num_rows
            invariant
                r <= num_rows,
                self.wf(),
                g == self@,
                num >= 1,
                num_rows == g.len(),
                tiles.len() == r,
                moves == steps_in_rows(g, r as int, num as int),
                steps_in_rows(g, g.len() as int, num as int) <= usize::MAX,
                forall|k: int| 0 <= k < r ==> (#[trigger] tiles@[k])@ == after_round(g, num as int)[k],
            decreases num_rows - r,
        {
            assert(g[r as int] == self.tiles@[r as int]@);
            let num_cols = self.tiles[r].len();
            let ghost before = moves;
            let mut row: Vec<Tile> = Vec::new();
            let mut c: usize = 0;
            proof {
                lemma_steps_grow(g, r + 1, g.len() as int, num as int);
            }
            while c < num_cols
                invariant
                    c <= num_cols,
                    r < num_rows,
                    self.wf(),
                    g == self@,
                    num >= 1,
                    num_rows == g.len(),
                    num_cols == g[r as int].len(),
                    g[r as int] == self.tiles@[r as int]@,
                    row.len() == c,
                    moves == before + steps_in_row(g, r as int, c as int, num as int),
                    before + steps_in_row(g, r as int, num_cols as int, num as int) <= usize::MAX,
                    forall|k: int|
                        0 <= k < c ==> row@[k] == after_round(g, num as int)[r as int][k],
                decreases num_cols - c,
            {
                proof {
                    lemma_steps_in_row_grow(g, r as int, c + 1, num_cols as int, num as int);
                }
                let here = match self.tiles[r][c] {
                    Tile::Elf => true,
                    Tile::Empty => false,
                };
                let tile = if here {
                    if self.does_step(r, c, num) {
                        moves += 1;
                        Tile::Empty
                    } else {
                        Tile::Elf
                    }
                } else {
                    assert(!elf_at(g, r as int, c as int));
                    assert(!steps(g, r as int, c as int, num as int));
                    if self.num_claims(r as i128, c as i128, num) == 1 {
                        Tile::Elf
                    } else {
                        Tile::Empty
                    }
                };
                row.push(tile);
                c += 1;
            }
            assert(row@ =~= after_round(g, num as int)[r as int]);
            tiles.push(row);
            r += 1;
        }
        self.tiles = tiles;
        proof {
            assert(self@ =~= after_round(g, num as int));
            assert forall|k: int| 0 <= k < self.tiles@.len() implies (#[trigger] self.tiles@[k])@.len()
                == self.tiles@[0]@.len() by {
                assert(g[k] == old(self).tiles@[k]@);
                assert(g[0] == old(self).tiles@[0]@);
            }
        }
        moves
    }
}

/// More rows hold at least as many elves that step.
pub proof fn lemma_steps_grow(g: Seq<Seq<Tile>>, m: int, n: int, num: int)
    requires
        m <= n,
    ensures
        steps_in_rows(g, m, num) <= steps_in_rows(g, n, num),
    decreases n - m,
{
    if m < n {
        lemma_steps_grow(g, m, n - 1, num);
    }
}

/// More places of a row hold at least as many elves that step.
pub proof fn lemma_steps_in_row_grow(g: Seq<Seq<Tile>>, r: int, m: int, n: int, num: int)
    requires
        m <= n,
    ensures
        steps_in_row(g, r, m, num) <= steps_in_row(g, r, n, num),
    decreases n - m,
{
    if m < n {
        lemma_steps_in_row_grow(g, r, m, n - 1, num);
    }
}

/// A row holds at most as many elves that step as it has places.
pub proof fn lemma_steps_in_row_bound(g: Seq<Seq<Tile>>, r: int, c: int, num: int)
    requires
        0 <= c,
    ensures
        steps_in_row(g, r, c, num) <= c,
    decreases c,
{
    if c > 0 {
        lemma_steps_in_row_bound(g, r, c - 1, num);
    }
}

/// The rows hold at most as many elves that step as they have places.
pub proof fn lemma_steps_bound(g: Seq<Seq<Tile>>, r: int, num: int)
    requires
        0 <= r <= g.len(),
        forall|i: int| 0 <= i < g.len() ==> (#[trigger] g[i]).len() == g[0].len(),
    ensures
        steps_in_rows(g, r, num) <= r * g[0].len(),
    decreases r,
{
    if r > 0 {
        lemma_steps_bound(g, r - 1, num);
        lemma_steps_in_row_bound(g, r - 1, g[r - 1].len() as int, num);
        assert((r - 1) * g[0].len() + g[0].len() == r * g[0].len()) by (nonlinear_arith);
    }
}

/// A stretch of a row holds at most as many free places as it has places.
pub proof fn lemma_free_in_row_bound(g: Seq<Seq<Tile>>, r: int, from: int, c: int)
    requires
        from <= c,
    ensures
        free_in_row(g, r, from, c) <= c - from,
    decreases c - from,
{
    if c > from {
        lemma_free_in_row_bound(g, r, from, c - 1);
    }
}

impl Grove {
    /// The least and the greatest row and column of an elf: the least row, the least
    /// column, the greatest row, and the greatest column. Without an elf the least are
    /// `usize::MAX` and the greatest 0.
    pub fn bounds(&self) -> (b: (usize, usize, usize, usize))
        requires
            self.wf(),
            self@.len() > 0,
        ensures
            b.0 == least(self@, true, (self@.len() * self@[0].len()) as int),
            b.1 == least(self@, false, (self@.len() * self@[0].len()) as int),
            b.2 == greatest(self@, true, (self@.len() * self@[0].len()) as int),
            b.3 == greatest(self@, false, (self@.len() * self@[0].len()) as int),
            b.2 < self@.len(),
            b.3 < self@[0].len() || b.3 == 0,
            b.0 < self@.len() || b.0 == usize::MAX,
            b.1 < self@[0].len() || b.1 == usize::MAX,
    {
        let ghost g = self@;
        assert(g[0] == self.tiles@[0]@);
        let num_rows = self.tiles.len();
        let num_cols = self.tiles[0].len();
        let mut min_row: usize = usize::MAX;
        let mut min_col: usize = usize::MAX;
        let mut max_row: usize = 0;
        let mut max_col: usize = 0;
        let mut i: usize = 0;
        assert(0 * num_cols == 0) by (nonlinear_arith);
        while i < num_rows
            invariant
                i <= num_rows,
                self.wf(),
                g == self@,
                num_rows == g.len(),
                num_rows > 0,
                num_cols == g[0].len(),
                min_row == least(g, true, (i * num_cols) as int),
                min_col == least(g, false, (i * num_cols) as int),
                max_row == greatest(g, true, (i * num_cols) as int),
                max_col == greatest(g, false, (i * num_cols) as int),
                max_row < num_rows,
                max_col < num_cols || max_col == 0,
                min_row < num_rows || min_row == usize::MAX,
                min_col < num_cols || min_col == usize::MAX,
            decreases num_rows - i,
        {
            assert(g[i as int] == self.tiles@[i as int]@);
            let mut j: usize = 0;
            while j < num_cols
                invariant
                    j <= num_cols,
                    i < num_rows,
                    self.wf(),
                    g == self@,
                    num_rows == g.len(),
                    num_cols == g[0].len(),
                    g[i as int] == self.tiles@[i as int]@,
                    min_row == least(g, true, (i * num_cols + j) as int),
                    min_col == least(g, false, (i * num_cols + j) as int),
                    max_row == greatest(g, true, (i * num_cols + j) as int),
                    max_col == greatest(g, false, (i * num_cols + j) as int),
                    max_row < num_rows,
                    max_col < num_cols || max_col == 0,
                    min_row < num_rows || min_row == usize::MAX,
                    min_col < num_cols || min_col == usize::MAX,
                decreases num_cols - j,
            {
                proof {
                    let n = i * num_cols + j + 1;
                    assert((n - 1) / (num_cols as int) == i && (n - 1) % (num_cols as int) == j)
                        by (nonlinear_arith)
                        requires
                            n - 1 == i * num_cols + j,
                            0 <= j < num_cols,
                            0 <= i,
                    ;
                }
                match self.tiles[i][j] {
                    Tile::Elf => {
                        if i < min_row {
                            min_row = i;
                        }
                        if j < min_col {
                            min_col = j;
                        }
                        if i > max_row {
                            max_row = i;
                        }
                        if j > max_col {
                            max_col = j;
                        }
                    },
                    Tile::Empty => {},
                }
                j += 1;
            }
            assert(i * num_cols + num_cols == (i + 1) * num_cols) by (nonlinear_arith);
            i += 1;
        }
        (min_row, min_col, max_row, max_col)
    }

    /// The number of free places in the smallest rectangle that holds every elf.
    pub fn free_tiles(&self) -> (count: usize)
        requires
            self.wf(),
            self@.len() > 0,
            self@.len() * self@[0].len() <= usize::MAX,
        ensures
            count == free_ground(self@),
    {
        let ghost g = self@;
        assert(g[0] == self.tiles@[0]@);
        let num_rows = self.tiles.len();
        let num_cols = self.tiles[0].len();
        let (min_row, min_col, max_row, max_col) = self.bounds();
        if min_row > max_row {
            return 0;
        }
        assert(min_col <= max_col ==> max_col < num_cols);
        let mut result: usize = 0;
        let mut i: usize = min_row;
        assert(0 * num_cols == 0) by (nonlinear_arith);
        while i <= max_row
            invariant
                min_row <= i <= max_row + 1,
                max_row < g.len(),
                num_rows == g.len(),
                min_col <= max_col ==> max_col < num_cols,
                self.wf(),
                g == self@,
                num_cols == g[0].len(),
                g.len() * num_cols <= usize::MAX,
                max_col < num_cols || max_col == 0,
                result == free_in_rows(g, min_row as int, i as int, min_col as int, max_col as int),
                result <= (i - min_row) * num_cols,
            decreases max_row + 1 - i,
        {
            assert(g[i as int] == self.tiles@[i as int]@);
            let ghost before = result;
            assert((i - min_row) * num_cols + num_cols == (i + 1 - min_row) * num_cols)
                by (nonlinear_arith);
            assert((i + 1 - min_row) * num_cols <= g.len() * num_cols) by (nonlinear_arith)
                requires
                    i + 1 - min_row <= g.len(),
                    num_cols >= 0,
            ;
            if min_col <= max_col {
                let mut j: usize = min_col;
                while j <= max_col
                    invariant
                        min_col <= j <= max_col + 1,
                        max_col < num_cols,
                        i < g.len(),
                        g == self@,
                        num_cols == g[0].len(),
                        g[i as int] == self.tiles@[i as int]@,
                        g[i as int].len() == num_cols,
                        result == before + free_in_row(g, i as int, min_col as int, j as int),
                        before + num_cols <= usize::MAX,
                    decreases max_col + 1 - j,
                {
                    proof {
                        lemma_free_in_row_bound(g, i as int, min_col as int, j + 1);
                    }
                    match self.tiles[i][j] {
                        Tile::Empty => {
                            result += 1;
                        },
                        Tile::Elf => {},
                    }
                    j += 1;
                }
                proof {
                    lemma_free_in_row_bound(g, i as int, min_col as int, max_col + 1);
                }
            }
            i += 1;
        }
        result
    }

    /// Plays rounds up to round `count`. Gives the number of the first round in which no
    /// elf steps, if it comes before round `count`, and else the number of free places
    /// in the smallest rectangle that holds every elf after round `count`; `None` where
    /// an elf comes to stand on the edge of the grid, the grid is empty or has more
    /// places than a `usize` counts, or `count` is 0.
    pub fn simulate(&mut self, count: usize) -> (r: Option<usize>)
        requires
            old(self).wf(),
        ensures
            final(self).wf(),
            r is Some <==> outcome(old(self)@, count as int, 1) is Some,
            r is Some ==> r.unwrap() == outcome(old(self)@, count as int, 1).unwrap(),
    {
        let ghost start = self@;
        if self.tiles.len() == 0 {
            return None;
        }
        assert(start[0] == self.tiles@[0]@);
        let num_rows = self.tiles.len();
        let num_cols = self.tiles[0].len();
        assert(num_rows * num_cols <= 0xffff_ffff_ffff_ffff_ffff_ffff_ffff_ffff) by (nonlinear_arith)
            requires
                0 <= num_rows <= 0xffff_ffff_ffff_ffff,
                0 <= num_cols <= 0xffff_ffff_ffff_ffff,
        ;
        if (num_rows as u128) * (num_cols as u128) > usize::MAX as u128 {
            assert(start.len() * start[0].len() > usize::MAX) by (nonlinear_arith)
                requires
                    num_rows * num_cols > usize::MAX,
                    start.len() == num_rows,
                    start[0].len() == num_cols,
            ;
            return None;
        }
        if count == 0 {
            return None;
        }
        let mut n: usize = 1;
        loop
            invariant
                1 <= n <= count,
                self.wf(),
                start == old(self)@,
                self@.len() == num_rows,
                num_rows > 0,
                self@[0].len() == num_cols,
                num_rows * num_cols <= usize::MAX,
                outcome(start, count as int, 1) == outcome(self@, count as int, n as int),
            decreases count - n,
        {
            let ghost g = self@;
            if !self.is_roomy() {
                return None;
            }
            proof {
                lemma_steps_bound(g, g.len() as int, n as int);
            }
            let num_moves = self.round(n);
            proof {
                assert(self@[0].len() == g[0].len());
            }
            if count == n {
                return Some(self.free_tiles());
            }
            if num_moves == 0 {
                return Some(n);
            }
            n += 1;
        }
    }
}

/// The number of free places in the smallest rectangle that holds every elf after ten
/// rounds on a grid with six free rows and columns around the drawing, or the number of
/// the first round in which no elf steps, if it comes before.
pub fn empty_ground_tiles(s: &str) -> (r: usize)
    requires
        grove_of(lines(s@), 6) is Some,
        outcome(grove_of(lines(s@), 6).unwrap(), 10, 1) is Some,
    ensures
        r == outcome(grove_of(lines(s@), 6).unwrap(), 10, 1).unwrap(),
{
    // The padding is what the elves of the puzzle need.
    let mut map = match Grove::from_str(s, 6) {
        Some(map) => map,
        None => unreached(),
    };
    match map.simulate(10) {
        Some(r) => r,
        None => unreached(),
    }
}

/// The number of the first round in which no elf steps, on a grid with sixty free rows
/// and columns around the drawing.
pub fn first_idle_round(s: &str) -> (r: usize)
    requires
        grove_of(lines(s@), 60) is Some,
        outcome(grove_of(lines(s@), 60).unwrap(), usize::MAX as int, 1) is Some,
    ensures
        r == outcome(grove_of(lines(s@), 60).unwrap(), usize::MAX as int, 1).unwrap(),
{
    let mut map = match Grove::from_str(s, 60) {
        Some(map) => map,
        None => unreached(),
    };
    match map.simulate(usize::MAX) {
        Some(r) => r,
        None => unreached(),
    }
}

/// What `count` rounds give on the grid that `s` draws with `padding` free rows and
/// columns around it; `None` where the drawing is not valid or an elf comes to stand on
/// the edge of the grid.
pub fn try_simulate(s: &str, padding: usize, count: usize) -> (r: Option<usize>)
    ensures
        r is Some <==> grove_of(lines(s@), padding as nat) is Some && outcome(
            grove_of(lines(s@), padding as nat).unwrap(),
            count as int,
            1,
        ) is Some,
        r is Some ==> r.unwrap() == outcome(
            grove_of(lines(s@), padding as nat).unwrap(),
            count as int,
            1,
        ).unwrap(),
{
    match Grove::from_str(s, padding) {
        Some(mut map) => map.simulate(count),
        None => None,
    }
}

impl Tile {
    /// The character that stands for the tile in a drawing of the grid.
    pub open spec fn sign(self) -> char {
        match self {
            Tile::Empty => '.',
            Tile::Elf => '#',
        }
    }

    /// The character that stands for the tile in a drawing of the grid.
    pub fn symbol(&self) -> (c: char)
        ensures
            c == self.sign(),
    {
        match self {
            Tile::Empty => '.',
            Tile::Elf => '#',
        }
    }
}

impl Grove {
    /// A drawing of the grid, a line for each row.
    pub fn render(&self) -> (lines: Vec<Vec<char>>)
        ensures
            lines@.len() == self@.len(),
            forall|r: int| 0 <= r < lines@.len() ==> (#[trigger] lines@[r])@.len() == self@[r].len(),
            forall|r: int, c: int|
                0 <= r < lines@.len() && 0 <= c < self@[r].len() ==> (#[trigger] lines@[r]@[c])
                    == self@[r][c].sign(),
    {
        let mut lines: Vec<Vec<char>> = Vec::new();
        let mut r: usize = 0;
        while r < self.tiles.len()
            invariant
                r <= self.tiles.len(),
                lines.len() == r,
                forall|k: int| 0 <= k < r ==> (#[trigger] lines@[k])@.len() == self@[k].len(),
                forall|k: int, c: int|
                    0 <= k < r && 0 <= c < self@[k].len() ==> (#[trigger] lines@[k]@[c])
                        == self@[k][c].sign(),
            decreases self.tiles.len() - r,
        {
            let row = &self.tiles[r];
            assert(self@[r as int] == row@);
            let mut line: Vec<char> = Vec::new();
            let mut c: usize = 0;
            while c < row.len()
                invariant
                    c <= row.len(),
                    line.len() == c,
                    forall|k: int| 0 <= k < c ==> line@[k] == row@[k].sign(),
                decreases row.len() - c,
            {
                line.push(row[c].symbol());
                c += 1;
            }
            lines.push(line);
            r += 1;
        }
        lines
    }
}

} // verus!
