//! Stacks of crates, drawn as text, and the steps of a crane that moves crates from one
//! stack to another.

use crate::text::{
    byte_len, chars_of, find, find_from, parse_usize, slice_of, split, split_char, string_of,
    to_usize, trim, trimmed, utf8_len, views,
};
use vstd::pervasive::unreached;
use vstd::prelude::*;

verus! {

/// How the crane moves several crates: one after the other, or all of them together.
#[derive(Debug, Clone, Copy, PartialEq, Eq, Structural)]
pub enum Crane {
    OneByOne,
    Together,
}

/// A step: how many crates to move, and the numbers of the stacks from which and to
/// which, counted from 1.
pub struct Step {
    pub count: nat,
    pub from: int,
    pub to: int,
}

/// The crate that a row of the drawing shows for stack `k`, counted from 0: the
/// character at place `4 * k + 1`, unless the row ends before it or it is a blank.
pub open spec fn crate_at(row: Seq<char>, k: int) -> Option<char> {
    let i = 4 * k + 1;
    if 0 <= i < row.len() && row[i] != ' ' {
        Some(row[i])
    } else {
        None
    }
}

/// The crates that a row shows for `n` stacks.
pub open spec fn row_crates(n: nat, row: Seq<char>) -> Seq<Option<char>> {
    Seq::new(n, |k: int| crate_at(row, k))
}

/// The stack `k` that the rows draw, from its bottom to its top; the first row is the
/// highest.
pub open spec fn column(rows: Seq<Seq<char>>, k: int) -> Seq<char>
    decreases rows.len(),
{
    if rows.len() == 0 {
        Seq::empty()
    } else {
        match crate_at(rows[0], k) {
            Some(c) => column(rows.skip(1), k).push(c),
            None => column(rows.skip(1), k),
        }
    }
}

/// The number of stacks that a drawing has: a quarter of the bytes of its last line and
/// two more, rounded down.
pub open spec fn num_stacks(drawing: Seq<char>) -> nat {
    ((byte_len(split(drawing, seq!['\n']).last()) + 2) / 4) as nat
}

/// The stacks that a drawing shows, or `None` where it has rows of crates but no stack.
pub open spec fn stacks_of(drawing: Seq<char>) -> Option<Seq<Seq<char>>> {
    let rows = split(drawing, seq!['\n']).drop_last();
    let n = num_stacks(drawing);
    if n == 0 && rows.len() > 0 {
        None
    } else {
        Some(Seq::new(n, |k: int| column(rows, k)))
    }
}

/// The step that a line writes: of its words, cut at single blanks, the second, fourth
/// and sixth are numbers.
pub open spec fn step_of(line: Seq<char>) -> Option<Step> {
    let v = split(line, seq![' ']);
    if v.len() >= 6 && parse_usize(v[1]) is Some && parse_usize(v[3]) is Some && parse_usize(
        v[5],
    ) is Some {
        Some(
            Step {
                count: parse_usize(v[1]).unwrap() as nat,
                from: parse_usize(v[3]).unwrap() as int,
                to: parse_usize(v[5]).unwrap() as int,
            },
        )
    } else {
        None
    }
}

/// The stacks after the top crate of stack `from` has been put on stack `to`, or `None`
/// where there is no such stack or no crate.
pub open spec fn lift_one(stacks: Seq<Seq<char>>, from: int, to: int) -> Option<Seq<Seq<char>>> {
    if 1 <= from <= stacks.len() && 1 <= to <= stacks.len() && stacks[from - 1].len() > 0 {
        let c = stacks[from - 1].last();
        let lifted = stacks.update(from - 1, stacks[from - 1].drop_last());
        Some(lifted.update(to - 1, lifted[to - 1].push(c)))
    } else {
        None
    }
}

/// The stacks after `n` crates have gone from stack `from` to stack `to` one by one.
pub open spec fn lift_each(stacks: Seq<Seq<char>>, n: nat, from: int, to: int) -> Option<
    Seq<Seq<char>>,
>
    decreases n,
{
    if n == 0 {
        Some(stacks)
    } else {
        match lift_each(stacks, (n - 1) as nat, from, to) {
            Some(before) => lift_one(before, from, to),
            None => None,
        }
    }
}

/// The stacks after the top `n` crates of stack `from` have gone to stack `to` together,
/// in the order they lay in.
pub open spec fn lift_all(stacks: Seq<Seq<char>>, n: nat, from: int, to: int) -> Option<
    Seq<Seq<char>>,
> {
    if 1 <= from <= stacks.len() && 1 <= to <= stacks.len() && n <= stacks[from - 1].len() {
        let keep = stacks[from - 1].len() - n;
        let lifted = stacks.update(from - 1, stacks[from - 1].take(keep));
        Some(lifted.update(to - 1, lifted[to - 1] + stacks[from - 1].skip(keep)))
    } else {
        None
    }
}

/// The stacks after one step of the crane.
pub open spec fn after_step(stacks: Seq<Seq<char>>, step: Step, crane: Crane) -> Option<
    Seq<Seq<char>>,
> {
    match crane {
        Crane::OneByOne => lift_each(stacks, step.count, step.from, step.to),
        Crane::Together => lift_all(stacks, step.count, step.from, step.to),
    }
}

/// The stacks after the steps that the lines write, or `None` where a line writes no
/// step or a step cannot be done.
pub open spec fn after_steps(stacks: Seq<Seq<char>>, lines: Seq<Seq<char>>, crane: Crane) -> Option<
    Seq<Seq<char>>,
>
    decreases lines.len(),
{
    if lines.len() == 0 {
        Some(stacks)
    } else {
        match (after_steps(stacks, lines.drop_last(), crane), step_of(lines.last())) {
            (Some(before), Some(step)) => after_step(before, step, crane),
            _ => None,
        }
    }
}

/// The top crates of the stacks, or `None` where a stack is empty.
pub open spec fn tops(stacks: Seq<Seq<char>>) -> Option<Seq<char>> {
    if forall|k: int| 0 <= k < stacks.len() ==> (#[trigger] stacks[k]).len() > 0 {
        Some(Seq::new(stacks.len(), |k: int| stacks[k].last()))
    } else {
        None
    }
}

/// The top crates after the crane has done its steps. The text holds the drawing, an
/// empty line, and the steps, one to a line.
pub open spec fn tops_after(s: Seq<char>, crane: Crane) -> Option<Seq<char>> {
    let gap = seq!['\n', '\n'];
    let at = find_from(s, gap, 0);
    if at < s.len() {
        match stacks_of(s.subrange(0, at)) {
            Some(stacks) => match after_steps(
                stacks,
                split(trim(s.subrange(at + 2, s.len() as int)), seq!['\n']),
                crane,
            ) {
                Some(moved) => tops(moved),
                None => None,
            },
            None => None,
        }
    } else {
        None
    }
}

/// The crates that a row of the drawing shows for `n` stacks.
pub fn parse_stack_row(n: usize, s: &Vec<char>) -> (v: Vec<Option<char>>)
    ensures
        v@ == row_crates(n as nat, s@),
{
    let mut v: Vec<Option<char>> = Vec::new();
    let mut k: usize = 0;
    while k < n
        invariant
            k <= n,
            v.len() == k,
            forall|j: int| 0 <= j < k ==> v@[j] == crate_at(s@, j),
        decreases n - k,
    {
        let at: u128 = 4 * (k as u128) + 1;
        if at < s.len() as u128 && s[at as usize] != ' ' {
            v.push(Some(s[at as usize]));
        } else {
            v.push(None);
        }
        k += 1;
    }
    assert(v@ =~= row_crates(n as nat, s@));
    v
}

/// The step that a line writes: the number of crates, and the stacks from which and to
/// which.
pub fn parse_step(s: &Vec<char>) -> (r: Option<(usize, usize, usize)>)
    ensures
        r is Some <==> step_of(s@) is Some,
        r is Some ==> step_of(s@).unwrap() == (Step {
            count: r.unwrap().0 as nat,
            from: r.unwrap().1 as int,
            to: r.unwrap().2 as int,
        }),
{
    let v = split_char(s, ' ');
    if v.len() < 6 {
        return None;
    }
    assert(views(v@)[1] == v@[1]@);
    assert(views(v@)[3] == v@[3]@);
    assert(views(v@)[5] == v@[5]@);
    match (to_usize(&v[1]), to_usize(&v[3]), to_usize(&v[5])) {
        (Some(n), Some(from), Some(to)) => Some((n, from, to)),
        _ => None,
    }
}

/// The stacks that a drawing shows.
pub fn parse_stacks(s: &Vec<char>) -> (r: Option<Vec<Vec<char>>>)
    ensures
        r is Some <==> stacks_of(s@) is Some,
        r is Some ==> views(r.unwrap()@) == stacks_of(s@).unwrap(),
{
    let stack_lines = split_char(s, '\n');
    let ghost all = views(stack_lines@);
    let ghost rows = all.drop_last();
    let count = stack_lines.len() - 1;
    assert(all.last() == stack_lines@[count as int]@);
    let num = ((utf8_len(&stack_lines[count]) + 2) / 4) as usize;
    if num == 0 && count > 0 {
        return None;
    }
    let mut stacks: Vec<Vec<char>> = Vec::new();
    let mut k: usize = 0;
    while k < num
        invariant
            k <= num,
            stacks.len() == k,
            forall|j: int| 0 <= j < k ==> (#[trigger] stacks@[j])@ == Seq::<char>::empty(),
        decreases num - k,
    {
        stacks.push(Vec::new());
        k += 1;
    }
    let mut r: usize = count;
    assert(rows.skip(count as int) =~= Seq::<Seq<char>>::empty());
    while r > 0
        invariant
            r <= count,
            count == stack_lines.len() - 1,
            all == views(stack_lines@),
            rows == all.drop_last(),
            rows.len() == count,
            stacks.len() == num,
            forall|j: int| 0 <= j < num ==> (#[trigger] stacks@[j])@ == column(rows.skip(r as int), j),
        decreases r,
    {
        r -= 1;
        let row = parse_stack_row(num, &stack_lines[r]);
        assert(rows[r as int] == stack_lines@[r as int]@);
        assert(rows.skip(r as int)[0] == rows[r as int]);
        assert(rows.skip(r as int).skip(1) =~= rows.skip(r + 1));
        let mut i: usize = 0;
        while i < num
            invariant
                i <= num,
                r < count,
                rows.len() == count,
                row@ == row_crates(num as nat, rows[r as int]),
                stacks.len() == num,
                rows.skip(r as int)[0] == rows[r as int],
                rows.skip(r as int).skip(1) == rows.skip(r + 1),
                forall|j: int|
                    0 <= j < i ==> (#[trigger] stacks@[j])@ == column(rows.skip(r as int), j),
                forall|j: int|
                    i <= j < num ==> (#[trigger] stacks@[j])@ == column(rows.skip(r + 1), j),
            decreases num - i,
        {
            assert(row@[i as int] == crate_at(rows[r as int], i as int));
            let ghost before = stacks@;
            if let Some(x) = row[i] {
                stacks[i].push(x);
                assert(forall|j: int| 0 <= j < num && j != i ==> stacks@[j] == before[j]);
            }
            i += 1;
        }
    }
    proof {
        assert(rows.skip(0) =~= rows);
        assert(views(stacks@) =~= stacks_of(s@).unwrap());
    }
    Some(stacks)
}

/// Moves `n` crates from stack `from` to stack `to` one by one. Gives `false`, and leaves
/// the stacks in no stated order, where that cannot be done.
pub fn execute_step_p1(stacks: &mut Vec<Vec<char>>, n: usize, from: usize, to: usize) -> (ok: bool)
    ensures
        ok <==> lift_each(views(old(stacks)@), n as nat, from as int, to as int) is Some,
        ok ==> views(final(stacks)@) == lift_each(
            views(old(stacks)@),
            n as nat,
            from as int,
            to as int,
        ).unwrap(),
{
    let ghost start = views(stacks@);
    let mut i: usize = 0;
    while i < n
        invariant
            i <= n,
            start == views(old(stacks)@),
            lift_each(start, i as nat, from as int, to as int) == Some(views(stacks@)),
        decreases n - i,
    {
        let ghost before = views(stacks@);
        if from == 0 || from > stacks.len() || to == 0 || to > stacks.len() {
            proof {
                assert(lift_one(before, from as int, to as int) is None);
                assert(lift_each(start, (i + 1) as nat, from as int, to as int) is None);
                lemma_lift_each_fails(start, (i + 1) as nat, n as nat, from as int, to as int);
            }
            return false;
        }
        assert(before[from - 1] == stacks@[from - 1]@);
        match stacks[from - 1].pop() {
            Some(ch) => {
                let ghost lifted = views(stacks@);
                assert(lifted =~= before.update(from - 1, before[from - 1].drop_last()));
                assert(lifted[to - 1] == stacks@[to - 1]@);
                stacks[to - 1].push(ch);
                assert(views(stacks@) =~= lifted.update(to - 1, lifted[to - 1].push(ch)));
                assert(lift_one(before, from as int, to as int) == Some(views(stacks@)));
            },
            None => {
                proof {
                    assert(lift_one(before, from as int, to as int) is None);
                    assert(lift_each(start, (i + 1) as nat, from as int, to as int) is None);
                    lemma_lift_each_fails(start, (i + 1) as nat, n as nat, from as int, to as int);
                }
                return false;
            },
        }
        i += 1;
    }
    true
}

/// Where fewer crates cannot be moved one by one, more cannot either.
pub proof fn lemma_lift_each_fails(stacks: Seq<Seq<char>>, m: nat, n: nat, from: int, to: int)
    requires
        m <= n,
        lift_each(stacks, m, from, to) is None,
    ensures
        lift_each(stacks, n, from, to) is None,
    decreases n,
{
    if m < n {
        lemma_lift_each_fails(stacks, m, (n - 1) as nat, from, to);
    }
}

/// Moves the top `n` crates of stack `from` to stack `to` together. Gives `false`, and
/// leaves the stacks as they are, where that cannot be done.
pub fn execute_step_p2(stacks: &mut Vec<Vec<char>>, n: usize, from: usize, to: usize) -> (ok: bool)
    ensures
        ok <==> lift_all(views(old(stacks)@), n as nat, from as int, to as int) is Some,
        ok ==> views(final(stacks)@) == lift_all(
            views(old(stacks)@),
            n as nat,
            from as int,
            to as int,
        ).unwrap(),
{
    let ghost start = views(stacks@);
    if from == 0 || from > stacks.len() || to == 0 || to > stacks.len() {
        return false;
    }
    assert(start[from - 1] == stacks@[from - 1]@);
    let from_len = stacks[from - 1].len();
    if n > from_len {
        return false;
    }
    let keep = from_len - n;
    let drained = slice_of(&stacks[from - 1], keep, from_len);
    assert(drained@ =~= start[from - 1].skip(keep as int));
    stacks[from - 1].truncate(keep);
    let ghost lifted = views(stacks@);
    assert(lifted =~= start.update(from - 1, start[from - 1].take(keep as int)));
    assert(drained@.take(0) =~= Seq::<char>::empty());
    assert(lifted[to - 1] + Seq::<char>::empty() =~= lifted[to - 1]);
    assert(lifted.update(to - 1, lifted[to - 1]) =~= lifted);
    let mut i: usize = 0;
    while i < drained.len()
        invariant
            i <= drained.len(),
            1 <= to <= stacks.len(),
            lifted.len() == stacks.len(),
            views(stacks@) == lifted.update(to - 1, lifted[to - 1] + drained@.take(i as int)),
        decreases drained.len() - i,
    {
        let ghost before = views(stacks@);
        assert(before[to - 1] == stacks@[to - 1]@);
        stacks[to - 1].push(drained[i]);
        assert(views(stacks@) =~= before.update(to - 1, before[to - 1].push(drained@[i as int])));
        assert(drained@.take(i + 1) =~= drained@.take(i as int).push(drained@[i as int]));
        assert((lifted[to - 1] + drained@.take(i as int)).push(drained@[i as int]) =~= lifted[to
            - 1] + drained@.take(i + 1));
        assert(views(stacks@) =~= lifted.update(
            to - 1,
            lifted[to - 1] + drained@.take(i + 1),
        ));
        i += 1;
    }
    assert(drained@.take(i as int) =~= drained@);
    true
}

/// Does the steps that the lines write. Gives `false` where a line writes no step or a
/// step cannot be done.
pub fn execute_steps(lines: &Vec<Vec<char>>, stacks: &mut Vec<Vec<char>>, crane: Crane) -> (ok:
    bool)
    ensures
        ok <==> after_steps(views(old(stacks)@), views(lines@), crane) is Some,
        ok ==> views(final(stacks)@) == after_steps(
            views(old(stacks)@),
            views(lines@),
            crane,
        ).unwrap(),
{
    let ghost start = views(stacks@);
    let ghost rows = views(lines@);
    let mut i: usize = 0;
    assert(rows.take(0) =~= Seq::<Seq<char>>::empty());
    while i < lines.len()
        invariant
            i <= lines.len(),
            rows == views(lines@),
            start == views(old(stacks)@),
            after_steps(start, rows.take(i as int), crane) == Some(views(stacks@)),
        decreases lines.len() - i,
    {
        assert(rows[i as int] == lines@[i as int]@);
        assert(rows.take(i + 1).drop_last() =~= rows.take(i as int));
        assert(rows.take(i + 1).last() == rows[i as int]);
        let done = match parse_step(&lines[i]) {
            Some((n, from, to)) => match crane {
                Crane::OneByOne => execute_step_p1(stacks, n, from, to),
                Crane::Together => execute_step_p2(stacks, n, from, to),
            },
            None => false,
        };
        if !done {
            proof {
                assert(after_steps(start, rows.take(i + 1), crane) is None);
                lemma_after_steps_fails(start, rows, (i + 1) as int, crane);
            }
            return false;
        }
        i += 1;
    }
    assert(rows.take(i as int) =~= rows);
    true
}

/// Where the first lines cannot be done, all of them cannot either.
pub proof fn lemma_after_steps_fails(
    stacks: Seq<Seq<char>>,
    lines: Seq<Seq<char>>,
    k: int,
    crane: Crane,
)
    requires
        0 <= k <= lines.len(),
        after_steps(stacks, lines.take(k), crane) is None,
    ensures
        after_steps(stacks, lines, crane) is None,
    decreases lines.len(),
{
    if k < lines.len() {
        assert(lines.drop_last().take(k) =~= lines.take(k));
        lemma_after_steps_fails(stacks, lines.drop_last(), k, crane);
    } else {
        assert(lines.take(k) =~= lines);
    }
}

/// The top crates after the crane has done its steps, or `None` where the text holds no
/// empty line, the drawing shows no stacks, a step cannot be done, or a stack ends empty.
pub fn try_top_of_stack(s: &str, crane: Crane) -> (r: Option<String>)
    ensures
        r is Some <==> tops_after(s@, crane) is Some,
        r is Some ==> r.unwrap()@ == tops_after(s@, crane).unwrap(),
{
    let all = chars_of(s);
    let mut gap: Vec<char> = Vec::new();
    gap.push('\n');
    gap.push('\n');
    assert(gap@ =~= seq!['\n', '\n']);
    let at = find(&all, &gap, 0);
    if at >= all.len() {
        return None;
    }
    proof {
        crate::text::lemma_find_from(all@, gap@, 0);
    }
    let drawing = slice_of(&all, 0, at);
    let rest = slice_of(&all, at + 2, all.len());
    let mut stacks = match parse_stacks(&drawing) {
        Some(stacks) => stacks,
        None => {
            return None;
        },
    };
    let text = trimmed(&rest);
    let lines = split_char(&text, '\n');
    if !execute_steps(&lines, &mut stacks, crane) {
        return None;
    }
    let mut out: Vec<char> = Vec::new();
    let mut k: usize = 0;
    while k < stacks.len()
        invariant
            k <= stacks.len(),
            out.len() == k,
            tops_after(s@, crane) == tops(views(stacks@)),
            forall|j: int| 0 <= j < k ==> (#[trigger] views(stacks@)[j]).len() > 0,
            forall|j: int| 0 <= j < k ==> out@[j] == views(stacks@)[j].last(),
        decreases stacks.len() - k,
    {
        assert(views(stacks@)[k as int] == stacks@[k as int]@);
        let n = stacks[k].len();
        if n == 0 {
            assert(views(stacks@)[k as int].len() == 0);
            return None;
        }
        out.push(stacks[k][n - 1]);
        k += 1;
    }
    proof {
        assert(tops(views(stacks@)) is Some);
        assert(out@ =~= tops(views(stacks@)).unwrap());
    }
    Some(string_of(&out))
}

/// The top crates after the crane has done its steps.
pub fn top_of_stack(s: &str, crane: Crane) -> (r: String)
    requires
        tops_after(s@, crane) is Some,
    ensures
        r@ == tops_after(s@, crane).unwrap(),
{
    match try_top_of_stack(s, crane) {
        Some(r) => r,
        None => unreached(),
    }
}

/// The top crates after a crane that moves crates one by one has done its steps.
pub fn top_of_stack_p1(s: &str) -> (r: String)
    requires
        tops_after(s@, Crane::OneByOne) is Some,
    ensures
        r@ == tops_after(s@, Crane::OneByOne).unwrap(),
{
    top_of_stack(s, Crane::OneByOne)
}

/// The top crates after a crane that moves crates together has done its steps.
pub fn top_of_stack_p2(s: &str) -> (r: String)
    requires
        tops_after(s@, Crane::Together) is Some,
    ensures
        r@ == tops_after(s@, Crane::Together).unwrap(),
{
    top_of_stack(s, Crane::Together)
}

} // verus!
