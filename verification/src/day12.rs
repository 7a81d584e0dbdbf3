//! A map of heights written as letters, and the fewest steps from a start to the end
//! where no step climbs by more than one.

use crate::text::{rows_of, trimmed_rows, views};
use pathfinding::prelude::bfs;
use vstd::pervasive::unreached;
use vstd::prelude::*;

verus! {

/// A row and a column of the map.
#[derive(Clone, Copy, Debug, Eq, Hash, PartialEq, Structural)]
pub struct Position(pub usize, pub usize);

/// A map of heights, with the place to start from and the place to reach.
#[derive(Debug)]
pub struct HeightMap {
    grid: Vec<Vec<char>>,
    start: Position,
    end: Position,
}

/// Whether the rows are equally long and there is a row and a column.
pub open spec fn rectangular(g: Seq<Seq<char>>) -> bool {
    &&& g.len() > 0
    &&& g[0].len() > 0
    &&& forall|i: int| 0 <= i < g.len() ==> (#[trigger] g[i]).len() == g[0].len()
}

/// Whether `p` is a place of the grid.
pub open spec fn in_grid(g: Seq<Seq<char>>, p: Position) -> bool {
    p.0 < g.len() && p.1 < g[0].len()
}

/// `q` alone if one may step from `p` to `q`, which is beside `p` if `beside` holds:
/// `q` is at most one higher than `p`.
pub open spec fn step_to(g: Seq<Seq<char>>, p: Position, beside: bool, q: Position) -> Seq<
    Position,
> {
    if beside && g[q.0 as int][q.1 as int] as u32 - g[p.0 as int][p.1 as int] as u32 <= 1 {
        seq![q]
    } else {
        Seq::empty()
    }
}

/// The places to which one may step from `p`: of the places above, below, left and right
/// of it, in this order, those of the grid that are at most one higher.
pub open spec fn steps_from(g: Seq<Seq<char>>, p: Position) -> Seq<Position> {
    step_to(g, p, p.0 > 0, Position((p.0 - 1) as usize, p.1)) + step_to(
        g,
        p,
        p.0 < g.len() - 1,
        Position((p.0 + 1) as usize, p.1),
    ) + step_to(g, p, p.1 > 0, Position(p.0, (p.1 - 1) as usize)) + step_to(
        g,
        p,
        p.1 < g[0].len() - 1,
        Position(p.0, (p.1 + 1) as usize),
    )
}

/// Whether `path` leads from `from` to `to`, each place of it a step from the one before.
pub open spec fn leads(g: Seq<Seq<char>>, path: Seq<Position>, from: Position, to: Position) -> bool {
    &&& path.len() > 0
    &&& path[0] == from
    &&& path.last() == to
    &&& forall|i: int| 0 <= i < path.len() - 1 ==> steps_from(g, #[trigger] path[i]).contains(path[i + 1])
}

/// Whether some path of `steps` steps leads from `from` to `to` and none of fewer.
pub open spec fn is_distance(g: Seq<Seq<char>>, from: Position, to: Position, steps: int) -> bool {
    &&& exists|path: Seq<Position>| #[trigger] leads(g, path, from, to) && path.len() == steps + 1
    &&& forall|path: Seq<Position>| #[trigger] leads(g, path, from, to) ==> path.len() >= steps + 1
}

/// Whether no path leads from `from` to `to`.
pub open spec fn unreachable(g: Seq<Seq<char>>, from: Position, to: Position) -> bool {
    forall|path: Seq<Position>| !#[trigger] leads(g, path, from, to)
}

/// The last place of `c` in the rows, reading row after row, or the first place of the
/// grid if there is none.
pub open spec fn last_place_of(g: Seq<Seq<char>>, c: char, n: int) -> Position
    decreases n,
{
    if n <= 0 || g[0].len() == 0 {
        Position(0, 0)
    } else {
        let i = (n - 1) / (g[0].len() as int);
        let j = (n - 1) % (g[0].len() as int);
        if g[i][j] == c {
            Position(i as usize, j as usize)
        } else {
            last_place_of(g, c, n - 1)
        }
    }
}

/// The place to start from on the map that the rows write.
pub open spec fn start_of(g: Seq<Seq<char>>) -> Position {
    last_place_of(g, 'S', (g.len() * g[0].len()) as int)
}

/// The place to reach on the map that the rows write.
pub open spec fn end_of(g: Seq<Seq<char>>) -> Position {
    last_place_of(g, 'E', (g.len() * g[0].len()) as int)
}

/// The heights of the map that the rows write: the end has the height `z`, the start, if
/// it is another place, has the height `a`, and every other place has its letter.
pub open spec fn heights_of(g: Seq<Seq<char>>) -> Seq<Seq<char>> {
    Seq::new(
        g.len(),
        |i: int|
            Seq::new(
                g[0].len(),
                |j: int|
                    if Position(i as usize, j as usize) == end_of(g) {
                        'z'
                    } else if Position(i as usize, j as usize) == start_of(g) {
                        'a'
                    } else {
                        g[i][j]
                    },
            ),
    )
}

/// Whether `p` is a place of height `a`.
pub open spec fn is_low_place(g: Seq<Seq<char>>, p: Position) -> bool {
    in_grid(g, p) && g[p.0 as int][p.1 as int] == 'a'
}

/// Whether `steps` is the least number of steps in which a path leads to `to` from a
/// place of height `a`.
pub open spec fn is_least_from_low(g: Seq<Seq<char>>, to: Position, steps: int) -> bool {
    &&& exists|p: Position| is_low_place(g, p) && #[trigger] is_distance(g, p, to, steps)
    &&& forall|p: Position, path: Seq<Position>|
        is_low_place(g, p) && #[trigger] leads(g, path, p, to) ==> path.len() >= steps + 1
}

/// Whether no path leads to `to` from a place of height `a`.
pub open spec fn unreachable_from_low(g: Seq<Seq<char>>, to: Position) -> bool {
    forall|p: Position| is_low_place(g, p) ==> #[trigger] unreachable(g, p, to)
}

impl HeightMap {
    /// The heights, row by row.
    pub closed spec fn rows(&self) -> Seq<Seq<char>> {
        views(self.grid@)
    }

    /// The place to start from.
    pub closed spec fn start(&self) -> Position {
        self.start
    }

    /// The place to reach.
    pub closed spec fn end(&self) -> Position {
        self.end
    }

    /// The map is a rectangle that holds the start and the end.
    pub open spec fn wf(&self) -> bool {
        rectangular(self.rows()) && in_grid(self.rows(), self.start()) && in_grid(
            self.rows(),
            self.end(),
        )
    }

    /// Reads a map, a row to a line. The start is where the last `S` stands, and has the
    /// height `a`; the end is where the last `E` stands, and has the height `z`; each is
    /// the first place of the map where its letter is missing. The rows must be equally
    /// long and not empty.
    pub fn from_str(s: &str) -> (r: Result<HeightMap, ()>)
        ensures
            r is Ok <==> rectangular(trimmed_rows(s@)),
            r is Ok ==> r.unwrap().wf() && r.unwrap().rows() == heights_of(trimmed_rows(s@))
                && r.unwrap().start() == start_of(trimmed_rows(s@)) && r.unwrap().end() == end_of(
                trimmed_rows(s@),
            ),
    {
        let mut grid = rows_of(s);
        let ghost g = views(grid@);
        let width = grid[0].len();
        assert(g[0] == grid@[0]@);
        if width == 0 {
            return Err(());
        }
        let mut start = Position(0, 0);
        let mut end = Position(0, 0);
        let mut i: usize = 0;
        while i < grid.len()
            invariant
                i <= grid.len(),
                g == views(grid@),
                g == trimmed_rows(s@),
                width == g[0].len(),
                width > 0,
                forall|r: int| 0 <= r < i ==> (#[trigger] g[r]).len() == width,
                start == last_place_of(g, 'S', i * width),
                end == last_place_of(g, 'E', i * width),
                start.0 < grid.len() && start.1 < width,
                end.0 < grid.len() && end.1 < width,
            decreases grid.len() - i,
        {
            assert(g[i as int] == grid@[i as int]@);
            if grid[i].len() != width {
                return Err(());
            }
            let mut j: usize = 0;
            while j < width
                invariant
                    j <= width,
                    i < grid.len(),
                    g == views(grid@),
                    width == g[0].len(),
                    width > 0,
                    g[i as int].len() == width,
                    g[i as int] == grid@[i as int]@,
                    start == last_place_of(g, 'S', i * width + j),
                    end == last_place_of(g, 'E', i * width + j),
                    start.0 < grid.len() && start.1 < width,
                    end.0 < grid.len() && end.1 < width,
                decreases width - j,
            {
                let ch = grid[i][j];
                proof {
                    let n = i * width + j + 1;
                    assert((n - 1) / (width as int) == i && (n - 1) % (width as int) == j)
                        by (nonlinear_arith)
                        requires
                            n - 1 == i * width + j,
                            0 <= j < width,
                            0 <= i,
                    ;
                }
                if ch == 'S' {
                    start = Position(i, j);
                } else if ch == 'E' {
                    end = Position(i, j);
                }
                j += 1;
            }
            assert(i * width + width == (i + 1) * width) by (nonlinear_arith);
            i += 1;
        }
        let grid_len = grid.len();
        assert(forall|r: int| 0 <= r < grid_len ==> (#[trigger] grid@[r])@ == g[r]);
        grid[start.0][start.1] = 'a';
        grid[end.0][end.1] = 'z';
        let map = HeightMap { grid, start, end };
        proof {
            assert(g[0].len() == width);
            assert(grid_len * width == g.len() * g[0].len());
            assert forall|r: int| 0 <= r < g.len() implies (#[trigger] map.rows()[r]).len()
                == width by {
                assert(g[r].len() == width);
                assert(map.rows()[r] == map.grid@[r]@);
            }
            assert forall|r: int| 0 <= r < g.len() implies #[trigger] map.rows()[r] =~= heights_of(
                g,
            )[r] by {
                assert(g[r].len() == width);
                assert(map.rows()[r] == map.grid@[r]@);
            }
            assert(map.rows() =~= heights_of(g));
        }
        Ok(map)
    }

    /// Whether `p` is the place to reach.
    pub fn is_end(&self, p: &Position) -> (b: bool)
        ensures
            b == (*p == self.end()),
    {
        p.0 == self.end.0 && p.1 == self.end.1
    }

    /// The place to start from.
    pub fn start_position(&self) -> (p: Position)
        ensures
            p == self.start(),
    {
        self.start
    }

    /// The places to which one may step from `pos`.
    pub fn neighbors(&self, pos: &Position) -> (v: Vec<Position>)
        requires
            self.wf(),
            in_grid(self.rows(), *pos),
        ensures
            v@ == steps_from(self.rows(), *pos),
            forall|k: int| 0 <= k < v@.len() ==> in_grid(self.rows(), #[trigger] v@[k]),
    {
        let ghost g = self.rows();
        let mut v: Vec<Position> = Vec::new();
        assert(g[0] == self.grid@[0]@);
        assert(g[pos.0 as int] == self.grid@[pos.0 as int]@);
        let here = self.grid[pos.0][pos.1] as u32 as u64;
        if pos.0 > 0 {
            assert(g[pos.0 - 1] == self.grid@[pos.0 - 1]@);
            if self.grid[pos.0 - 1][pos.1] as u32 as u64 <= here + 1 {
                v.push(Position(pos.0 - 1, pos.1));
            }
        }
        let ghost a = v@;
        assert(a =~= step_to(g, *pos, pos.0 > 0, Position((pos.0 - 1) as usize, pos.1)));
        if pos.0 < self.grid.len() - 1 {
            assert(g[pos.0 + 1] == self.grid@[pos.0 + 1]@);
            if self.grid[pos.0 + 1][pos.1] as u32 as u64 <= here + 1 {
                v.push(Position(pos.0 + 1, pos.1));
            }
        }
        let ghost b = v@;
        assert(b =~= a + step_to(g, *pos, pos.0 < g.len() - 1, Position((pos.0 + 1) as usize, pos.1)));
        if pos.1 > 0 {
            if self.grid[pos.0][pos.1 - 1] as u32 as u64 <= here + 1 {
                v.push(Position(pos.0, pos.1 - 1));
            }
        }
        let ghost c = v@;
        assert(c =~= b + step_to(g, *pos, pos.1 > 0, Position(pos.0, (pos.1 - 1) as usize)));
        if pos.1 < self.grid[pos.0].len() - 1 {
            if self.grid[pos.0][pos.1 + 1] as u32 as u64 <= here + 1 {
                v.push(Position(pos.0, pos.1 + 1));
            }
        }
        assert(v@ =~= c + step_to(
            g,
            *pos,
            pos.1 < g[0].len() - 1,
            Position(pos.0, (pos.1 + 1) as usize),
        ));
        v
    }

    /// A shortest path from `start` to the end of the map, by `pathfinding::prelude::bfs`
    /// with `neighbors` for the places that follow a place and `is_end` for the goal.
    /// The path holds its first and its last place; it is at most as long as any path
    /// that leads from `start` to the end, and there is none where no path leads there.
    #[verifier::external_body]
    fn shortest_path(&self, start: &Position) -> (r: Option<Vec<Position>>)
        requires
            self.wf(),
            in_grid(self.rows(), *start),
        ensures
            r is Some ==> leads(self.rows(), r.unwrap()@, *start, self.end()) && forall|
                path: Seq<Position>,
            | #[trigger]
                leads(self.rows(), path, *start, self.end()) ==> r.unwrap()@.len() <= path.len(),
            r is None ==> unreachable(self.rows(), *start, self.end()),
    {
        bfs(start, |p| self.neighbors(p), |p| self.is_end(p))
    }

    /// The fewest steps from `start` to the end of the map, or `None` where no path
    /// leads there.
    pub fn fewest_steps(&self, start: &Position) -> (r: Option<usize>)
        requires
            self.wf(),
            in_grid(self.rows(), *start),
        ensures
            r is Some ==> is_distance(self.rows(), *start, self.end(), r.unwrap() as int),
            r is None ==> unreachable(self.rows(), *start, self.end()),
    {
        match self.shortest_path(start) {
            Some(path) => {
                assert(leads(self.rows(), path@, *start, self.end()));
                Some(path.len() - 1)
            },
            None => None,
        }
    }

    /// Whether the place in row `i` and column `j` has the height `a`.
    pub fn is_low(&self, i: usize, j: usize) -> (b: bool)
        requires
            self.wf(),
            in_grid(self.rows(), Position(i, j)),
        ensures
            b == (self.rows()[i as int][j as int] == 'a'),
    {
        assert(self.rows()[i as int] == self.grid@[i as int]@);
        assert(self.rows()[0] == self.grid@[0]@);
        self.grid[i][j] == 'a'
    }

    /// The fewest steps to the end from any place of height `a`, or `None` where no path
    /// leads there from any of them.
    pub fn fewest_steps_from_low(&self) -> (r: Option<usize>)
        requires
            self.wf(),
        ensures
            r is Some ==> is_least_from_low(self.rows(), self.end(), r.unwrap() as int),
            r is None ==> unreachable_from_low(self.rows(), self.end()),
    {
        let ghost g = self.rows();
        assert(g[0] == self.grid@[0]@);
        let num_rows = self.grid.len();
        let width = self.grid[0].len();
        let mut best: Option<usize> = None;
        let ghost mut at: Position = Position(0, 0);
        let mut i: usize = 0;
        while i < num_rows
            invariant
                i <= num_rows,
                self.wf(),
                g == self.rows(),
                num_rows == g.len(),
                width == g[0].len(),
                best is Some ==> in_grid(g, at) && g[at.0 as int][at.1 as int] == 'a' && is_distance(
                    g,
                    at,
                    self.end(),
                    best.unwrap() as int,
                ),
                forall|p: Position, path: Seq<Position>|
                    p.0 < i && p.1 < width && g[p.0 as int][p.1 as int] == 'a' && #[trigger] leads(
                        g,
                        path,
                        p,
                        self.end(),
                    ) ==> best is Some && path.len() >= best.unwrap() + 1,
            decreases num_rows - i,
        {
            let mut j: usize = 0;
            while j < width
                invariant
                    j <= width,
                    i < num_rows,
                    self.wf(),
                    g == self.rows(),
                    num_rows == g.len(),
                    width == g[0].len(),
                    best is Some ==> in_grid(g, at) && g[at.0 as int][at.1 as int] == 'a'
                        && is_distance(g, at, self.end(), best.unwrap() as int),
                    forall|p: Position, path: Seq<Position>|
                        (p.0 < i || (p.0 == i && p.1 < j)) && p.1 < width && g[p.0 as int][p.1 as int]
                            == 'a' && #[trigger] leads(g, path, p, self.end()) ==> best is Some
                            && path.len() >= best.unwrap() + 1,
                decreases width - j,
            {
                if self.is_low(i, j) {
                    let here = Position(i, j);
                    match self.fewest_steps(&here) {
                        Some(steps) => {
                            let better = match best {
                                Some(b) => steps < b,
                                None => true,
                            };
                            if better {
                                best = Some(steps);
                                proof {
                                    at = here;
                                }
                            }
                        },
                        None => {},
                    }
                }
                j += 1;
            }
            i += 1;
        }
        best
    }
}

/// The fewest steps from the start of the map `s` to its end.
pub fn num_steps_to_target_p1(s: &str) -> (steps: usize)
    requires
        rectangular(trimmed_rows(s@)),
        !unreachable(
            heights_of(trimmed_rows(s@)),
            start_of(trimmed_rows(s@)),
            end_of(trimmed_rows(s@)),
        ),
    ensures
        is_distance(
            heights_of(trimmed_rows(s@)),
            start_of(trimmed_rows(s@)),
            end_of(trimmed_rows(s@)),
            steps as int,
        ),
{
    let map = match HeightMap::from_str(s) {
        Ok(map) => map,
        Err(_) => unreached(),
    };
    let start = map.start_position();
    match map.fewest_steps(&start) {
        Some(steps) => steps,
        None => unreached(),
    }
}

/// The fewest steps to the end of the map `s` from any of its places of height `a`.
pub fn num_steps_to_target_p2(s: &str) -> (steps: usize)
    requires
        rectangular(trimmed_rows(s@)),
        !unreachable_from_low(heights_of(trimmed_rows(s@)), end_of(trimmed_rows(s@))),
    ensures
        is_least_from_low(heights_of(trimmed_rows(s@)), end_of(trimmed_rows(s@)), steps as int),
{
    let map = match HeightMap::from_str(s) {
        Ok(map) => map,
        Err(_) => unreached(),
    };
    match map.fewest_steps_from_low() {
        Some(steps) => steps,
        None => unreached(),
    }
}

} // verus!
