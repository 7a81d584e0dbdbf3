//! A rope of knots on a grid: the head moves as commands say, each other knot follows the
//! one before it, and the places of the last knot are counted.

use crate::text::{chars_of, find, find_from, is_char, lemma_take_step, one_char, parse_usize, rows_of, slice_of, to_usize, trimmed_rows, views};
use vstd::pervasive::unreached;
use vstd::prelude::*;

verus! {

/// A command: a direction and a number of steps.
#[derive(Debug, Clone, Copy, PartialEq, Eq, Structural)]
pub enum Command {
    Left(usize),
    Right(usize),
    Up(usize),
    Down(usize),
}

/// The command that a line writes: a letter, a blank and a number.
pub open spec fn command_of(line: Seq<char>) -> Option<Command> {
    let at = find_from(line, seq![' '], 0);
    if at < line.len() {
        match parse_usize(line.skip(at + 1)) {
            Some(n) => {
                let d = line.take(at);
                if d == seq!['L'] {
                    Some(Command::Left(n))
                } else if d == seq!['R'] {
                    Some(Command::Right(n))
                } else if d == seq!['U'] {
                    Some(Command::Up(n))
                } else if d == seq!['D'] {
                    Some(Command::Down(n))
                } else {
                    None
                }
            },
            None => None,
        }
    } else {
        None
    }
}

impl Command {
    /// The number of steps, and the change of row and of column that a step makes.
    pub open spec fn motion(self) -> (nat, int, int) {
        match self {
            Command::Left(n) => (n as nat, 0, -1),
            Command::Right(n) => (n as nat, 0, 1),
            Command::Up(n) => (n as nat, 1, 0),
            Command::Down(n) => (n as nat, -1, 0),
        }
    }

    /// Reads a command.
    pub fn from_str(s: &str) -> (r: Result<Command, ()>)
        ensures
            r is Ok <==> command_of(s@) is Some,
            r is Ok ==> Some(r.unwrap()) == command_of(s@),
    {
        let v = chars_of(s);
        match Command::from_chars(&v) {
            Some(c) => Ok(c),
            None => Err(()),
        }
    }

    /// Reads a command from the characters of a line.
    pub fn from_chars(s: &Vec<char>) -> (r: Option<Command>)
        ensures
            r == command_of(s@),
    {
        let blank = one_char(' ');
        let at = find(s, &blank, 0);
        if at >= s.len() {
            return None;
        }
        let d = slice_of(s, 0, at);
        let rest = slice_of(s, at + 1, s.len());
        assert(d@ =~= s@.take(at as int));
        assert(rest@ =~= s@.skip(at + 1));
        let n = match to_usize(&rest) {
            Some(n) => n,
            None => {
                return None;
            },
        };
        if is_char(&d, 'L') {
            Some(Command::Left(n))
        } else if is_char(&d, 'R') {
            Some(Command::Right(n))
        } else if is_char(&d, 'U') {
            Some(Command::Up(n))
        } else if is_char(&d, 'D') {
            Some(Command::Down(n))
        } else {
            None
        }
    }

    /// The number of steps, and the change of row and of column that a step makes.
    pub fn move_tuple(&self) -> (r: (usize, i64, i64))
        ensures
            (r.0 as nat, r.1 as int, r.2 as int) == self.motion(),
    {
        match &self {
            Command::Left(n) => (*n, 0, -1),
            Command::Right(n) => (*n, 0, 1),
            Command::Up(n) => (*n, 1, 0),
            Command::Down(n) => (*n, -1, 0),
        }
    }

    /// Moves the head of the rope as the command says, step by step.
    pub fn execute(&self, rope: &mut Rope)
        requires
            old(rope).wf(),
            old(rope).reach() + self.motion().0 <= i64::MAX,
        ensures
            final(rope).wf(),
            final(rope)@ == after_moves(
                old(rope)@,
                self.motion().0,
                self.motion().1,
                self.motion().2,
            ),
            final(rope).reach() == old(rope).reach() + self.motion().0,
    {
        let (n, row, col) = self.move_tuple();
        let ghost start = rope@;
        let ghost reach = rope.reach();
        let mut i: usize = 0;
        while i < n
            invariant
                i <= n,
                -1 <= row <= 1,
                -1 <= col <= 1,
                rope.wf(),
                rope@ == after_moves(start, i as nat, row as int, col as int),
                rope.reach() == reach + i,
                reach + n <= i64::MAX,
            decreases n - i,
        {
            rope.update_head(row, col);
            i += 1;
        }
    }
}

/// A rope: where its knots are, as row and column, and the places where its last knot has
/// been.
pub struct RopeState {
    pub knots: Seq<(int, int)>,
    pub visited: Set<(int, int)>,
}

/// The sign of `n`.
pub open spec fn sign(n: int) -> int {
    if n > 0 {
        1
    } else if n < 0 {
        -1
    } else {
        0
    }
}

/// Where a knot goes when the knot before it is at `lead`: it stays where it touches the
/// other, and else moves one step towards it along the row, the column or both.
pub open spec fn follow(lead: (int, int), knot: (int, int)) -> (int, int) {
    let dr = lead.0 - knot.0;
    let dc = lead.1 - knot.1;
    if dr > 1 || dr < -1 || dc > 1 || dc < -1 {
        (knot.0 + sign(dr), knot.1 + sign(dc))
    } else {
        knot
    }
}

/// The first `k` knots after the head has moved by `dr` rows and `dc` columns and each
/// of the others has followed.
pub open spec fn pulled(knots: Seq<(int, int)>, dr: int, dc: int, k: int) -> Seq<(int, int)>
    decreases k,
{
    if k <= 0 {
        Seq::empty()
    } else if k == 1 {
        seq![(knots[0].0 + dr, knots[0].1 + dc)]
    } else {
        let before = pulled(knots, dr, dc, k - 1);
        before.push(follow(before.last(), knots[k - 1]))
    }
}

/// The rope after one step of the head.
pub open spec fn after_move(r: RopeState, dr: int, dc: int) -> RopeState {
    let knots = pulled(r.knots, dr, dc, r.knots.len() as int);
    RopeState { knots, visited: r.visited.insert(knots.last()) }
}

/// The rope after `n` steps of the head.
pub open spec fn after_moves(r: RopeState, n: nat, dr: int, dc: int) -> RopeState
    decreases n,
{
    if n == 0 {
        r
    } else {
        after_move(after_moves(r, (n - 1) as nat, dr, dc), dr, dc)
    }
}

/// The rope of `n` knots before the first command: all knots at the origin.
pub open spec fn rope_at_rest(n: nat) -> RopeState {
    RopeState { knots: Seq::new(n, |i: int| (0int, 0int)), visited: set![(0int, 0int)] }
}

/// The rope after the commands that the lines write.
pub open spec fn after_commands(r: RopeState, lines: Seq<Seq<char>>) -> RopeState
    decreases lines.len(),
{
    if lines.len() == 0 {
        r
    } else {
        let m = command_of(lines.last()).unwrap().motion();
        after_moves(after_commands(r, lines.drop_last()), m.0, m.1, m.2)
    }
}

/// Whether every line writes a command.
pub open spec fn valid_commands(lines: Seq<Seq<char>>) -> bool {
    forall|i: int| 0 <= i < lines.len() ==> command_of(#[trigger] lines[i]) is Some
}

/// The number of steps that the commands of the lines make.
pub open spec fn total_steps(lines: Seq<Seq<char>>) -> nat
    decreases lines.len(),
{
    if lines.len() == 0 {
        0
    } else {
        total_steps(lines.drop_last()) + command_of(lines.last()).unwrap().motion().0
    }
}

/// The places of a list of pairs.
pub open spec fn points(v: Seq<(i64, i64)>) -> Seq<(int, int)> {
    Seq::new(v.len(), |i: int| (v[i].0 as int, v[i].1 as int))
}

/// A rope and the places where its last knot has been.
pub struct Rope {
    knots: Vec<(i64, i64)>,
    seen: Vec<(i64, i64)>,
    steps: Ghost<nat>,
}

impl View for Rope {
    type V = RopeState;

    closed spec fn view(&self) -> RopeState {
        RopeState { knots: points(self.knots@), visited: points(self.seen@).to_set() }
    }
}

impl Rope {
    /// The number of steps that the head has made.
    pub closed spec fn reach(&self) -> nat {
        self.steps@
    }

    /// The rope has a knot, the head has made no more steps than an `i64` counts, and no
    /// knot is further from the origin than the head has made steps.
    pub closed spec fn wf(&self) -> bool {
        &&& self.knots@.len() > 0
        &&& self.steps@ <= i64::MAX
        &&& points(self.seen@).no_duplicates()
        &&& forall|i: int|
            0 <= i < self.knots@.len() ==> -self.steps@ <= (#[trigger] self.knots@[i]).0
                <= self.steps@ && -self.steps@ <= self.knots@[i].1 <= self.steps@
    }

    /// A rope of `n` knots, all at the origin.
    pub fn new(n: usize) -> (rope: Rope)
        requires
            n > 0,
        ensures
            rope.wf(),
            rope@ == rope_at_rest(n as nat),
            rope.reach() == 0,
    {
        let mut knots: Vec<(i64, i64)> = Vec::new();
        let mut i: usize = 0;
        while i < n
            invariant
                i <= n,
                knots.len() == i,
                forall|k: int| 0 <= k < i ==> knots@[k] == (0i64, 0i64),
            decreases n - i,
        {
            knots.push((0, 0));
            i += 1;
        }
        let mut seen: Vec<(i64, i64)> = Vec::new();
        seen.push((0, 0));
        let rope = Rope { knots, seen, steps: Ghost(0) };
        proof {
            assert(rope@.knots =~= rope_at_rest(n as nat).knots);
            assert(points(rope.seen@) =~= seq![(0int, 0int)]);
            assert(rope@.visited =~= rope_at_rest(n as nat).visited) by {
                assert forall|p: (int, int)| rope@.visited.contains(p) <==> rope_at_rest(
                    n as nat,
                ).visited.contains(p) by {
                    if p == (0int, 0int) {
                        assert(points(rope.seen@)[0] == p);
                    }
                }
            }
        }
        rope
    }

    /// The number of places where the last knot has been.
    pub fn num_visited(&self) -> (n: usize)
        requires
            self.wf(),
        ensures
            n == self@.visited.len(),
            self@.visited.finite(),
    {
        proof {
            points(self.seen@).unique_seq_to_set();
        }
        self.seen.len()
    }

    /// Moves the head by `row` rows and `col` columns; the other knots follow, and the
    /// place of the last is kept.
    pub fn update_head(&mut self, row: i64, col: i64)
        requires
            old(self).wf(),
            -1 <= row <= 1,
            -1 <= col <= 1,
            old(self).reach() < i64::MAX,
        ensures
            final(self).wf(),
            final(self)@ == after_move(old(self)@, row as int, col as int),
            final(self).reach() == old(self).reach() + 1,
    {
        let ghost start = points(self.knots@);
        let ghost reach = self.steps@;
        let n = self.knots.len();
        let head = self.knots[0];
        self.knots[0] = (head.0 + row, head.1 + col);
        let mut i: usize = 1;
        proof {
            assert(points(self.knots@).take(1) =~= pulled(start, row as int, col as int, 1));
        }
        while i < n
            invariant
                1 <= i <= n,
                n == self.knots.len(),
                n == start.len(),
                self.seen@ == old(self).seen@,
                self.steps@ == reach,
                old(self).wf(),
                start == points(old(self).knots@),
                reach < i64::MAX,
                points(self.knots@).take(i as int) == pulled(start, row as int, col as int, i as int),
                forall|k: int| i <= k < n ==> points(self.knots@)[k] == start[k],
                forall|k: int|
                    0 <= k < n ==> -reach - 1 <= (#[trigger] self.knots@[k]).0 <= reach + 1
                        && -reach - 1 <= self.knots@[k].1 <= reach + 1,
            decreases n - i,
        {
            let ghost before = points(self.knots@);
            let lead = self.knots[i - 1];
            let knot = self.knots[i];
            assert(before.take(i as int).last() == before[i - 1]);
            assert(before[i as int] == start[i as int]);
            let moved = follow_knot(lead, knot);
            self.knots[i] = moved;
            proof {
                let after = points(self.knots@);
                assert(after.take(i + 1) =~= before.take(i as int).push(
                    (moved.0 as int, moved.1 as int),
                ));
            }
            i += 1;
        }
        let tail = self.knots[n - 1];
        let ghost old_seen = points(self.seen@);
        insert_unique(&mut self.seen, tail);
        self.steps = Ghost((reach + 1) as nat);
        proof {
            let after = points(self.knots@);
            assert(after.take(n as int) =~= after);
            assert(after.last() == (tail.0 as int, tail.1 as int));
            assert(self@.visited =~= old(self)@.visited.insert(after.last()));
        }
    }
}

/// Where a knot goes when the knot before it is at `lead`.
pub fn follow_knot(lead: (i64, i64), knot: (i64, i64)) -> (r: (i64, i64))
    ensures
        (r.0 as int, r.1 as int) == follow(
            (lead.0 as int, lead.1 as int),
            (knot.0 as int, knot.1 as int),
        ),
        lead.0 <= r.0 <= knot.0 || knot.0 <= r.0 <= lead.0,
        lead.1 <= r.1 <= knot.1 || knot.1 <= r.1 <= lead.1,
{
    let row_offset: i128 = lead.0 as i128 - knot.0 as i128;
    let col_offset: i128 = lead.1 as i128 - knot.1 as i128;
    if row_offset > 1 || row_offset < -1 || col_offset > 1 || col_offset < -1 {
        let row = if row_offset > 0 {
            knot.0 + 1
        } else if row_offset < 0 {
            knot.0 - 1
        } else {
            knot.0
        };
        let col = if col_offset > 0 {
            knot.1 + 1
        } else if col_offset < 0 {
            knot.1 - 1
        } else {
            knot.1
        };
        (row, col)
    } else {
        knot
    }
}

/// Adds `p` to a list without repeats unless it is in it.
pub fn insert_unique(seen: &mut Vec<(i64, i64)>, p: (i64, i64))
    requires
        points(old(seen)@).no_duplicates(),
    ensures
        points(final(seen)@).no_duplicates(),
        points(final(seen)@).to_set() == points(old(seen)@).to_set().insert(
            (p.0 as int, p.1 as int),
        ),
{
    let ghost before = points(seen@);
    let ghost q = (p.0 as int, p.1 as int);
    let mut i: usize = 0;
    while i < seen.len()
        invariant
            i <= seen.len(),
            seen@ == old(seen)@,
            before == points(seen@),
            before.no_duplicates(),
            q == (p.0 as int, p.1 as int),
            forall|k: int| 0 <= k < i ==> before[k] != q,
        decreases seen.len() - i,
    {
        let other = seen[i];
        assert(before[i as int] == (other.0 as int, other.1 as int));
        if other.0 == p.0 && other.1 == p.1 {
            assert(before.to_set() =~= before.to_set().insert(q)) by {
                assert(before[i as int] == q);
            }
            return ;
        }
        i += 1;
    }
    seen.push(p);
    proof {
        let after = points(seen@);
        assert(after =~= before.push(q));
        assert forall|a: int, b: int| 0 <= a < after.len() && 0 <= b < after.len() && a
            != b implies after[a] != after[b] by {
            if a < before.len() && b < before.len() {
                assert(before[a] != before[b]);
            }
        }
        assert(after.to_set() =~= before.to_set().insert(q)) by {
            assert forall|x: (int, int)| after.to_set().contains(x) <==> before.to_set().insert(
                q,
            ).contains(x) by {
                if after.to_set().contains(x) {
                    let k = choose|k: int| 0 <= k < after.len() && after[k] == x;
                    if k < before.len() {
                        assert(before[k] == x);
                    }
                }
                if before.to_set().contains(x) {
                    let k = choose|k: int| 0 <= k < before.len() && before[k] == x;
                    assert(after[k] == x);
                }
                if x == q {
                    assert(after[before.len() as int] == x);
                }
            }
        }
    }
}

/// The number of places where the last of `n` knots has been while the head did the
/// commands of `s`, or `None` where a line writes no command or the head makes more
/// steps than an `i64` counts.
pub fn count_tail_positions(s: &str, n: usize) -> (r: Option<usize>)
    requires
        n > 0,
    ensures
        r is Some <==> valid_commands(trimmed_rows(s@)) && total_steps(trimmed_rows(s@))
            <= i64::MAX,
        r is Some ==> r.unwrap() == after_commands(
            rope_at_rest(n as nat),
            trimmed_rows(s@),
        ).visited.len(),
{
    let lines = rows_of(s);
    let ghost rows = views(lines@);
    let mut rope = Rope::new(n);
    let mut steps: u64 = 0;
    let mut i: usize = 0;
    assert(rows.take(0) =~= Seq::<Seq<char>>::empty());
    while i < lines.len()
        invariant
            i <= lines.len(),
            rows == views(lines@),
            rows == trimmed_rows(s@),
            rope.wf(),
            valid_commands(rows.take(i as int)),
            rope@ == after_commands(rope_at_rest(n as nat), rows.take(i as int)),
            rope.reach() == total_steps(rows.take(i as int)),
            steps == rope.reach(),
            steps <= i64::MAX,
        decreases lines.len() - i,
    {
        assert(rows[i as int] == lines@[i as int]@);
        proof {
            lemma_take_step(rows, i as int);
        }
        let command = match Command::from_chars(&lines[i]) {
            Some(command) => command,
            None => {
                return None;
            },
        };
        assert forall|j: int| 0 <= j < i + 1 implies command_of(
            #[trigger] rows.take(i + 1)[j],
        ) is Some by {
            if j < i {
                assert(rows.take(i as int)[j] == rows.take(i + 1)[j]);
            }
        }
        let count = command.move_tuple().0;
        if count as u128 + steps as u128 > 0x7fff_ffff_ffff_ffff {
            proof {
                assert(total_steps(rows.take(i + 1)) > i64::MAX);
                if valid_commands(rows) {
                    lemma_total_steps_grows(rows, i + 1);
                }
            }
            return None;
        }
        command.execute(&mut rope);
        steps = steps + count as u64;
        i += 1;
    }
    proof {
        assert(rows.take(i as int) =~= rows);
    }
    Some(rope.num_visited())
}

/// The steps of the first lines are no more than the steps of all.
pub proof fn lemma_total_steps_grows(lines: Seq<Seq<char>>, k: int)
    requires
        0 <= k <= lines.len(),
    ensures
        total_steps(lines.take(k)) <= total_steps(lines),
    decreases lines.len(),
{
    if k < lines.len() {
        assert(lines.drop_last().take(k) =~= lines.take(k));
        lemma_total_steps_grows(lines.drop_last(), k);
    } else {
        assert(lines.take(k) =~= lines);
    }
}

/// The number of places where the last of `n` knots has been while the head did the
/// commands of `s`.
pub fn num_tail_positions(s: &str, n: usize) -> (count: usize)
    requires
        n > 0,
        valid_commands(trimmed_rows(s@)),
        total_steps(trimmed_rows(s@)) <= i64::MAX,
    ensures
        count == after_commands(rope_at_rest(n as nat), trimmed_rows(s@)).visited.len(),
{
    match count_tail_positions(s, n) {
        Some(count) => count,
        None => unreached(),
    }
}

/// The number of places where the tail of a rope of two knots has been.
pub fn num_tail_positions_p1(s: &str) -> (count: usize)
    requires
        valid_commands(trimmed_rows(s@)),
        total_steps(trimmed_rows(s@)) <= i64::MAX,
    ensures
        count == after_commands(rope_at_rest(2), trimmed_rows(s@)).visited.len(),
{
    num_tail_positions(s, 2)
}

/// The number of places where the tail of a rope of ten knots has been.
pub fn num_tail_positions_p2(s: &str) -> (count: usize)
    requires
        valid_commands(trimmed_rows(s@)),
        total_steps(trimmed_rows(s@)) <= i64::MAX,
    ensures
        count == after_commands(rope_at_rest(10), trimmed_rows(s@)).visited.len(),
{
    num_tail_positions(s, 10)
}

} // verus!
