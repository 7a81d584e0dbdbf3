//! A grid of trees, each with a height: which of them can be seen from outside, and how
//! far one sees from a tree.

use crate::text::{rows_of, trimmed_rows, views};
use vstd::pervasive::unreached;
use vstd::prelude::*;

verus! {

/// A way to look from a tree.
#[derive(Debug, Clone, Copy, PartialEq, Eq, Structural)]
pub enum Side {
    Top,
    Left,
    Bottom,
    Right,
}

/// Whether the rows make a grid of trees: there is a column, the rows are equally long,
/// and every character is one of the 7-bit set from `0` on.
pub open spec fn valid_grid(rows: Seq<Seq<char>>) -> bool {
    &&& rows.len() > 0
    &&& rows[0].len() > 0
    &&& forall|i: int| 0 <= i < rows.len() ==> (#[trigger] rows[i]).len() == rows[0].len()
    &&& forall|i: int, j: int|
        0 <= i < rows.len() && 0 <= j < rows[i].len() ==> 0x30 <= (#[trigger] rows[i][j]) as u32
            <= 0x7f
}

/// The heights that the characters of the rows write: `0` writes 0, and each character
/// after it one more.
pub open spec fn heights_of(rows: Seq<Seq<char>>) -> Seq<Seq<int>> {
    Seq::new(rows.len(), |i: int| Seq::new(rows[i].len(), |j: int| rows[i][j] as u32 - 0x30))
}

/// The heights in a grid of bytes.
pub open spec fn grid_view(v: Seq<Vec<u8>>) -> Seq<Seq<int>> {
    Seq::new(v.len(), |i: int| Seq::new(v[i]@.len(), |j: int| v[i]@[j] as int))
}

/// Whether `g` has a column and rows that are equally long.
pub open spec fn rectangular(g: Seq<Seq<int>>) -> bool {
    &&& g.len() > 0
    &&& g[0].len() > 0
    &&& forall|i: int| 0 <= i < g.len() ==> (#[trigger] g[i]).len() == g[0].len()
}

/// The heights of the trees that one passes going from the tree in row `i` and column
/// `j` to the edge on `side`, the nearest first.
pub open spec fn sight(g: Seq<Seq<int>>, i: int, j: int, side: Side) -> Seq<int> {
    match side {
        Side::Top => Seq::new(i as nat, |k: int| g[i - 1 - k][j]),
        Side::Left => Seq::new(j as nat, |k: int| g[i][j - 1 - k]),
        Side::Bottom => Seq::new((g.len() - 1 - i) as nat, |k: int| g[i + 1 + k][j]),
        Side::Right => Seq::new((g[0].len() - 1 - j) as nat, |k: int| g[i][j + 1 + k]),
    }
}

/// Whether every tree of `line` is lower than `h`.
pub open spec fn clear(line: Seq<int>, h: int) -> bool {
    forall|k: int| 0 <= k < line.len() ==> (#[trigger] line[k]) < h
}

/// The number of trees of `line` that one sees from a tree of height `h`: up to the
/// first that is as high or higher, that one counted.
pub open spec fn view_distance(line: Seq<int>, h: int) -> nat
    decreases line.len(),
{
    if line.len() == 0 {
        0
    } else if line[0] >= h {
        1
    } else {
        1 + view_distance(line.skip(1), h)
    }
}

/// Whether the tree in row `i` and column `j` can be seen from an edge.
pub open spec fn visible(g: Seq<Seq<int>>, i: int, j: int) -> bool {
    ||| clear(sight(g, i, j, Side::Top), g[i][j])
    ||| clear(sight(g, i, j, Side::Left), g[i][j])
    ||| clear(sight(g, i, j, Side::Bottom), g[i][j])
    ||| clear(sight(g, i, j, Side::Right), g[i][j])
}

/// The product of the viewing distances of the tree in row `i` and column `j`.
pub open spec fn scenic_score(g: Seq<Seq<int>>, i: int, j: int) -> nat {
    view_distance(sight(g, i, j, Side::Top), g[i][j]) * view_distance(
        sight(g, i, j, Side::Left),
        g[i][j],
    ) * view_distance(sight(g, i, j, Side::Bottom), g[i][j]) * view_distance(
        sight(g, i, j, Side::Right),
        g[i][j],
    )
}

/// The number of visible trees among the first `j` of row `i`.
pub open spec fn visible_in_row(g: Seq<Seq<int>>, i: int, j: int) -> nat
    decreases j,
{
    if j <= 0 {
        0
    } else {
        visible_in_row(g, i, j - 1) + if visible(g, i, j - 1) {
            1nat
        } else {
            0nat
        }
    }
}

/// The number of visible trees in the first `i` rows.
pub open spec fn visible_in_rows(g: Seq<Seq<int>>, i: int) -> nat
    decreases i,
{
    if i <= 0 {
        0
    } else {
        visible_in_rows(g, i - 1) + visible_in_row(g, i - 1, g[0].len() as int)
    }
}

/// Whether `m` is the greatest scenic score of the grid.
pub open spec fn is_highest_score(g: Seq<Seq<int>>, m: nat) -> bool {
    &&& exists|i: int, j: int| 0 <= i < g.len() && 0 <= j < g[0].len() && scenic_score(g, i, j) == m
    &&& forall|i: int, j: int|
        0 <= i < g.len() && 0 <= j < g[0].len() ==> scenic_score(g, i, j) <= m
}

/// Whether every scenic score of the grid is a number of a `usize`.
pub open spec fn scores_fit(g: Seq<Seq<int>>) -> bool {
    forall|i: int, j: int|
        0 <= i < g.len() && 0 <= j < g[0].len() ==> scenic_score(g, i, j) <= usize::MAX
}

/// The grid of heights that `s` writes, a row to a line, or `None` where the lines make
/// no grid.
pub fn tree_grid(s: &str) -> (r: Option<Vec<Vec<u8>>>)
    ensures
        r is Some <==> valid_grid(trimmed_rows(s@)),
        r is Some ==> grid_view(r.unwrap()@) == heights_of(trimmed_rows(s@)) && rectangular(
            grid_view(r.unwrap()@),
        ),
{
    let lines = rows_of(s);
    let ghost rows = views(lines@);
    let width = lines[0].len();
    assert(rows[0] == lines@[0]@);
    if width == 0 {
        return None;
    }
    let mut trees: Vec<Vec<u8>> = Vec::new();
    let mut i: usize = 0;
    while i < lines.len()
        invariant
            i <= lines.len(),
            rows == views(lines@),
            rows == trimmed_rows(s@),
            width == rows[0].len(),
            width > 0,
            trees.len() == i,
            forall|r: int| 0 <= r < i ==> (#[trigger] rows[r]).len() == width,
            forall|r: int, c: int|
                0 <= r < i && 0 <= c < rows[r].len() ==> 0x30 <= (#[trigger] rows[r][c]) as u32
                    <= 0x7f,
            forall|r: int| 0 <= r < i ==> (#[trigger] trees@[r])@.len() == width,
            forall|r: int, c: int|
                0 <= r < i && 0 <= c < width ==> (#[trigger] trees@[r]@[c]) as int == rows[r][c] as u32
                    - 0x30,
        decreases lines.len() - i,
    {
        let line = &lines[i];
        assert(rows[i as int] == line@);
        if line.len() != width {
            return None;
        }
        let mut row: Vec<u8> = Vec::new();
        let mut j: usize = 0;
        while j < width
            invariant
                j <= width,
                line@.len() == width,
                i < rows.len(),
                rows == trimmed_rows(s@),
                rows[i as int] == line@,
                row.len() == j,
                forall|c: int| 0 <= c < j ==> 0x30 <= (#[trigger] line@[c]) as u32 <= 0x7f,
                forall|c: int| 0 <= c < j ==> (#[trigger] row@[c]) as int == line@[c] as u32 - 0x30,
            decreases width - j,
        {
            let n: u32 = line[j] as u32;
            if n < 0x30 || n > 0x7f {
                assert(!(0x30 <= rows[i as int][j as int] as u32 <= 0x7f));
                return None;
            }
            row.push((n - 0x30) as u8);
            j += 1;
        }
        trees.push(row);
        i += 1;
    }
    proof {
        assert(grid_view(trees@) =~~= heights_of(rows));
    }
    Some(trees)
}

/// Looks from the tree in row `i` and column `j` to the edge on `side`: whether every
/// tree on the way is lower, and how many trees one sees.
pub fn look(trees: &Vec<Vec<u8>>, i: usize, j: usize, side: Side) -> (r: (bool, usize))
    requires
        rectangular(grid_view(trees@)),
        i < trees.len(),
        j < trees[0].len(),
    ensures
        r.0 == clear(sight(grid_view(trees@), i as int, j as int, side), trees[i as int][j as int] as int),
        r.1 == view_distance(
            sight(grid_view(trees@), i as int, j as int, side),
            trees[i as int][j as int] as int,
        ),
{
    let ghost g = grid_view(trees@);
    let ghost line = sight(g, i as int, j as int, side);
    assert(g[0].len() == trees@[0]@.len());
    assert(g[i as int].len() == trees@[i as int]@.len());
    let num_rows = trees.len();
    let num_columns = trees[0].len();
    let h = trees[i][j];
    let n = match side {
        Side::Top => i,
        Side::Left => j,
        Side::Bottom => num_rows - 1 - i,
        Side::Right => num_columns - 1 - j,
    };
    let mut k: usize = 0;
    assert(line.skip(0) =~= line);
    while k < n
        invariant
            k <= n,
            n == line.len(),
            g == grid_view(trees@),
            rectangular(g),
            line == sight(g, i as int, j as int, side),
            i < trees.len(),
            j < trees[0].len(),
            num_rows == trees.len(),
            num_columns == trees[0].len(),
            h == trees[i as int][j as int],
            forall|m: int| 0 <= m < k ==> (#[trigger] line[m]) < h,
            view_distance(line, h as int) == k + view_distance(line.skip(k as int), h as int),
        decreases n - k,
    {
        let (r, c) = match side {
            Side::Top => (i - 1 - k, j),
            Side::Left => (i, j - 1 - k),
            Side::Bottom => (i + 1 + k, j),
            Side::Right => (i, j + 1 + k),
        };
        assert(g[r as int].len() == g[0].len());
        assert(g[r as int].len() == trees@[r as int]@.len());
        let other = trees[r][c];
        assert(line[k as int] == other);
        assert(line.skip(k as int)[0] == line[k as int]);
        assert(line.skip(k as int).skip(1) =~= line.skip(k + 1));
        if h <= other {
            return (false, k + 1);
        }
        k += 1;
    }
    (true, k)
}

/// Whether the tree in row `i` and column `j` can be seen from an edge.
pub fn is_visible(trees: &Vec<Vec<u8>>, i: usize, j: usize) -> (b: bool)
    requires
        rectangular(grid_view(trees@)),
        i < trees.len(),
        j < trees[0].len(),
    ensures
        b == visible(grid_view(trees@), i as int, j as int),
{
    assert(grid_view(trees@)[i as int][j as int] == trees[i as int][j as int]) by {
        assert(grid_view(trees@)[i as int].len() == grid_view(trees@)[0].len());
        assert(grid_view(trees@)[0].len() == trees@[0]@.len());
    }
    look(trees, i, j, Side::Top).0 || look(trees, i, j, Side::Left).0 || look(
        trees,
        i,
        j,
        Side::Bottom,
    ).0 || look(trees, i, j, Side::Right).0
}

/// The number of trees of the grid that can be seen from an edge.
pub fn count_visible(trees: &Vec<Vec<u8>>) -> (count: usize)
    requires
        rectangular(grid_view(trees@)),
        trees.len() * trees[0].len() <= usize::MAX,
    ensures
        count == visible_in_rows(grid_view(trees@), trees.len() as int),
{
    let ghost g = grid_view(trees@);
    assert(g[0].len() == trees@[0]@.len());
    let num_rows = trees.len();
    let num_columns = trees[0].len();
    let mut count: usize = 0;
    let mut i: usize = 0;
    while i < num_rows
        invariant
            i <= num_rows,
            g == grid_view(trees@),
            rectangular(g),
            num_rows == trees.len(),
            num_columns == trees[0].len(),
            num_columns == g[0].len(),
            num_rows * num_columns <= usize::MAX,
            count == visible_in_rows(g, i as int),
            count <= i * num_columns,
        decreases num_rows - i,
    {
        let ghost before = count;
        let mut j: usize = 0;
        while j < num_columns
            invariant
                j <= num_columns,
                i < num_rows,
                g == grid_view(trees@),
                rectangular(g),
                num_rows == trees.len(),
                num_columns == trees[0].len(),
                num_rows * num_columns <= usize::MAX,
                count == before + visible_in_row(g, i as int, j as int),
                before <= i * num_columns,
                count <= i * num_columns + j,
            decreases num_columns - j,
        {
            assert(i * num_columns + j < num_rows * num_columns) by (nonlinear_arith)
                requires
                    i < num_rows,
                    j < num_columns,
            ;
            if is_visible(trees, i, j) {
                count += 1;
            }
            j += 1;
        }
        i += 1;
        assert(count <= i * num_columns) by (nonlinear_arith)
            requires
                count <= (i - 1) * num_columns + num_columns,
        ;
    }
    count
}

/// The number of trees that can be seen from outside the grid that `s` writes.
pub fn num_visible_trees(s: &str) -> (count: usize)
    requires
        valid_grid(trimmed_rows(s@)),
        trimmed_rows(s@).len() * trimmed_rows(s@)[0].len() <= usize::MAX,
    ensures
        count == visible_in_rows(heights_of(trimmed_rows(s@)), trimmed_rows(s@).len() as int),
{
    let trees = match tree_grid(s) {
        Some(trees) => trees,
        None => unreached(),
    };
    proof {
        let g = grid_view(trees@);
        assert(g.len() == trees.len());
        assert(g[0].len() == trees@[0]@.len());
        assert(heights_of(trimmed_rows(s@))[0].len() == trimmed_rows(s@)[0].len());
    }
    count_visible(&trees)
}

/// A product of four numbers is at least the product of the first two, and of the first
/// three, where none of them is 0.
proof fn lemma_product_bounds(a: nat, b: nat, c: nat, d: nat)
    requires
        a > 0,
        b > 0,
        c > 0,
        d > 0,
    ensures
        a * b <= a * b * c * d,
        a * b * c <= a * b * c * d,
{
    assert(a * b <= a * b * c) by (nonlinear_arith)
        requires
            c > 0,
    ;
    assert(a * b * c <= a * b * c * d) by (nonlinear_arith)
        requires
            d > 0,
    ;
}

/// The scenic score of the tree in row `i` and column `j`.
pub fn score_at(trees: &Vec<Vec<u8>>, i: usize, j: usize) -> (score: usize)
    requires
        rectangular(grid_view(trees@)),
        i < trees.len(),
        j < trees[0].len(),
        scenic_score(grid_view(trees@), i as int, j as int) <= usize::MAX,
    ensures
        score == scenic_score(grid_view(trees@), i as int, j as int),
{
    assert(grid_view(trees@)[i as int][j as int] == trees[i as int][j as int]) by {
        assert(grid_view(trees@)[i as int].len() == grid_view(trees@)[0].len());
        assert(grid_view(trees@)[0].len() == trees@[0]@.len());
    }
    let top = look(trees, i, j, Side::Top).1;
    let left = look(trees, i, j, Side::Left).1;
    let bottom = look(trees, i, j, Side::Bottom).1;
    let right = look(trees, i, j, Side::Right).1;
    if top == 0 || left == 0 || bottom == 0 || right == 0 {
        assert(top * left * bottom * right == 0) by (nonlinear_arith)
            requires
                top == 0 || left == 0 || bottom == 0 || right == 0,
        ;
        return 0;
    }
    proof {
        lemma_product_bounds(top as nat, left as nat, bottom as nat, right as nat);
    }
    top * left * bottom * right
}

/// The greatest scenic score of the grid.
pub fn highest_score(trees: &Vec<Vec<u8>>) -> (max: usize)
    requires
        rectangular(grid_view(trees@)),
        scores_fit(grid_view(trees@)),
    ensures
        is_highest_score(grid_view(trees@), max as nat),
{
    let ghost g = grid_view(trees@);
    assert(g[0].len() == trees@[0]@.len());
    let num_rows = trees.len();
    let num_columns = trees[0].len();
    let mut max: usize = score_at(trees, 0, 0);
    let ghost mut at: (int, int) = (0, 0);
    let mut i: usize = 0;
    while i < num_rows
        invariant
            i <= num_rows,
            g == grid_view(trees@),
            rectangular(g),
            scores_fit(g),
            num_rows == trees.len(),
            num_columns == trees[0].len(),
            num_columns == g[0].len(),
            0 <= at.0 < num_rows && 0 <= at.1 < num_columns && scenic_score(g, at.0, at.1) == max,
            forall|r: int, c: int|
                0 <= r < i && 0 <= c < num_columns ==> scenic_score(g, r, c) <= max,
        decreases num_rows - i,
    {
        let mut j: usize = 0;
        while j < num_columns
            invariant
                j <= num_columns,
                i < num_rows,
                g == grid_view(trees@),
                rectangular(g),
                scores_fit(g),
                num_rows == trees.len(),
                num_columns == trees[0].len(),
                num_columns == g[0].len(),
                0 <= at.0 < num_rows && 0 <= at.1 < num_columns && scenic_score(g, at.0, at.1)
                    == max,
                forall|r: int, c: int|
                    0 <= r < i && 0 <= c < num_columns ==> scenic_score(g, r, c) <= max,
                forall|c: int| 0 <= c < j ==> scenic_score(g, i as int, c) <= max,
            decreases num_columns - j,
        {
            let score = score_at(trees, i, j);
            if score > max {
                max = score;
                proof {
                    at = (i as int, j as int);
                }
            }
            j += 1;
        }
        i += 1;
    }
    max
}

/// The greatest scenic score of a tree of the grid that `s` writes.
pub fn highest_scenic_score(s: &str) -> (max: usize)
    requires
        valid_grid(trimmed_rows(s@)),
        scores_fit(heights_of(trimmed_rows(s@))),
    ensures
        is_highest_score(heights_of(trimmed_rows(s@)), max as nat),
{
    let trees = match tree_grid(s) {
        Some(trees) => trees,
        None => unreached(),
    };
    highest_score(&trees)
}

/// The number of trees that can be seen from outside the grid that `s` writes, or `None`
/// where the lines make no grid or it has more trees than a `usize` counts.
pub fn try_num_visible_trees(s: &str) -> (r: Option<usize>)
    ensures
        r is Some <==> valid_grid(trimmed_rows(s@)) && trimmed_rows(s@).len() * trimmed_rows(
            s@,
        )[0].len() <= usize::MAX,
        r is Some ==> r.unwrap() == visible_in_rows(
            heights_of(trimmed_rows(s@)),
            trimmed_rows(s@).len() as int,
        ),
{
    let trees = match tree_grid(s) {
        Some(trees) => trees,
        None => {
            return None;
        },
    };
    proof {
        let g = grid_view(trees@);
        assert(g.len() == trees.len());
        assert(g[0].len() == trees@[0]@.len());
        assert(heights_of(trimmed_rows(s@))[0].len() == trimmed_rows(s@)[0].len());
    }
    let rows = trees.len();
    let columns = trees[0].len();
    assert(rows * columns <= 0xffff_ffff_ffff_ffff_ffff_ffff_ffff_ffff) by (nonlinear_arith)
        requires
            0 <= rows <= 0xffff_ffff_ffff_ffff,
            0 <= columns <= 0xffff_ffff_ffff_ffff,
    ;
    if (rows as u128) * (columns as u128) > usize::MAX as u128 {
        return None;
    }
    Some(count_visible(&trees))
}

/// The greatest scenic score of the grid, or `None` where a score is more than a `usize`
/// holds.
pub fn try_highest_score(trees: &Vec<Vec<u8>>) -> (r: Option<usize>)
    requires
        rectangular(grid_view(trees@)),
    ensures
        r is Some <==> scores_fit(grid_view(trees@)),
        r is Some ==> is_highest_score(grid_view(trees@), r.unwrap() as nat),
{
    let ghost g = grid_view(trees@);
    assert(g[0].len() == trees@[0]@.len());
    let num_rows = trees.len();
    let num_columns = trees[0].len();
    let mut i: usize = 0;
    while i < num_rows
        invariant
            i <= num_rows,
            g == grid_view(trees@),
            rectangular(g),
            num_rows == trees.len(),
            num_columns == trees[0].len(),
            num_columns == g[0].len(),
            forall|r: int, c: int|
                0 <= r < i && 0 <= c < num_columns ==> (#[trigger] scenic_score(g, r, c))
                    <= usize::MAX,
        decreases num_rows - i,
    {
        let mut j: usize = 0;
        while j < num_columns
            invariant
                j <= num_columns,
                i < num_rows,
                g == grid_view(trees@),
                rectangular(g),
                num_rows == trees.len(),
                num_columns == trees[0].len(),
                num_columns == g[0].len(),
                forall|r: int, c: int|
                    0 <= r < i && 0 <= c < num_columns ==> (#[trigger] scenic_score(g, r, c))
                        <= usize::MAX,
                forall|c: int| 0 <= c < j ==> (#[trigger] scenic_score(g, i as int, c)) <= usize::MAX,
            decreases num_columns - j,
        {
            if !score_fits(trees, i, j) {
                return None;
            }
            j += 1;
        }
        i += 1;
    }
    Some(highest_score(trees))
}

/// Whether the scenic score of the tree in row `i` and column `j` is a number of a
/// `usize`.
pub fn score_fits(trees: &Vec<Vec<u8>>, i: usize, j: usize) -> (b: bool)
    requires
        rectangular(grid_view(trees@)),
        i < trees.len(),
        j < trees[0].len(),
    ensures
        b == (scenic_score(grid_view(trees@), i as int, j as int) <= usize::MAX),
{
    assert(grid_view(trees@)[i as int][j as int] == trees[i as int][j as int]) by {
        assert(grid_view(trees@)[i as int].len() == grid_view(trees@)[0].len());
        assert(grid_view(trees@)[0].len() == trees@[0]@.len());
    }
    let top = look(trees, i, j, Side::Top).1;
    let left = look(trees, i, j, Side::Left).1;
    let bottom = look(trees, i, j, Side::Bottom).1;
    let right = look(trees, i, j, Side::Right).1;
    if top == 0 || left == 0 || bottom == 0 || right == 0 {
        assert(top * left * bottom * right == 0) by (nonlinear_arith)
            requires
                top == 0 || left == 0 || bottom == 0 || right == 0,
        ;
        return true;
    }
    proof {
        lemma_product_bounds(top as nat, left as nat, bottom as nat, right as nat);
    }
    assert(top * left <= 0xffff_ffff_ffff_ffff_ffff_ffff_ffff_ffff) by (nonlinear_arith)
        requires
            0 <= top <= 0xffff_ffff_ffff_ffff,
            0 <= left <= 0xffff_ffff_ffff_ffff,
    ;
    let a: u128 = (top as u128) * (left as u128);
    if a > usize::MAX as u128 {
        return false;
    }
    assert(a * bottom <= 0xffff_ffff_ffff_ffff_ffff_ffff_ffff_ffff) by (nonlinear_arith)
        requires
            0 <= a <= 0xffff_ffff_ffff_ffff,
            0 <= bottom <= 0xffff_ffff_ffff_ffff,
    ;
    let b: u128 = a * (bottom as u128);
    if b > usize::MAX as u128 {
        return false;
    }
    assert(b * right <= 0xffff_ffff_ffff_ffff_ffff_ffff_ffff_ffff) by (nonlinear_arith)
        requires
            0 <= b <= 0xffff_ffff_ffff_ffff,
            0 <= right <= 0xffff_ffff_ffff_ffff,
    ;
    let c: u128 = b * (right as u128);
    c <= usize::MAX as u128
}

/// The greatest scenic score of a tree of the grid that `s` writes, or `None` where the
/// lines make no grid or a score is more than a `usize` holds.
pub fn try_highest_scenic_score(s: &str) -> (r: Option<usize>)
    ensures
        r is Some <==> valid_grid(trimmed_rows(s@)) && scores_fit(heights_of(trimmed_rows(s@))),
        r is Some ==> is_highest_score(heights_of(trimmed_rows(s@)), r.unwrap() as nat),
{
    let trees = match tree_grid(s) {
        Some(trees) => trees,
        None => {
            return None;
        },
    };
    try_highest_score(&trees)
}

} // verus!
