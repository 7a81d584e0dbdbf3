//! A processor with one register and two instructions, and the screen that it draws on.

use crate::text::{
    chars_of, is_word, lemma_take_step, parse_i64, rows_of, split, split_char, string_of, to_i64,
    trimmed_rows, views,
};
use vstd::pervasive::unreached;
use vstd::prelude::*;

verus! {

/// An instruction: `noop` takes one cycle and does nothing; `addx n` takes two cycles and
/// then adds `n` to the register.
#[derive(Debug, Clone, Copy, PartialEq, Eq, Structural)]
pub enum Instruction {
    Noop,
    AddX(i64),
}

/// Width of the screen.
pub const CRT_WIDTH: usize = 40;

/// The instruction that a line writes: its first word, cut at single blanks, is `noop`,
/// or it is `addx` and the second is an integer.
pub open spec fn instruction_of(line: Seq<char>) -> Option<Instruction> {
    let parts = split(line, seq![' ']);
    if parts[0] == "noop"@ {
        Some(Instruction::Noop)
    } else if parts[0] == "addx"@ && parts.len() >= 2 && parse_i64(parts[1]) is Some {
        Some(Instruction::AddX(parse_i64(parts[1]).unwrap()))
    } else {
        None
    }
}

/// Whether every line writes an instruction.
pub open spec fn valid_program(lines: Seq<Seq<char>>) -> bool {
    forall|i: int| 0 <= i < lines.len() ==> instruction_of(#[trigger] lines[i]) is Some
}

/// The register after the instructions of `lines`; it starts as 1.
pub open spec fn register_after(lines: Seq<Seq<char>>) -> int
    decreases lines.len(),
{
    if lines.len() == 0 {
        1
    } else {
        match instruction_of(lines.last()) {
            Some(Instruction::AddX(n)) => register_after(lines.drop_last()) + n,
            _ => register_after(lines.drop_last()),
        }
    }
}

/// The register during each cycle of the instructions of `lines`, after a 0 that stands
/// for the time before the first cycle.
pub open spec fn values_during(lines: Seq<Seq<char>>) -> Seq<int>
    decreases lines.len(),
{
    if lines.len() == 0 {
        seq![0int]
    } else {
        let before = values_during(lines.drop_last());
        let x = register_after(lines.drop_last());
        match instruction_of(lines.last()) {
            Some(Instruction::AddX(n)) => before.push(x).push(x),
            _ => before.push(x),
        }
    }
}

/// Whether the register holds a number of an `i64` after each instruction.
pub open spec fn register_fits(lines: Seq<Seq<char>>) -> bool {
    forall|k: int|
        0 <= k <= lines.len() ==> i64::MIN <= #[trigger] register_after(lines.take(k))
            <= i64::MAX
}

/// The numbers of a list.
pub open spec fn ints(v: Seq<i64>) -> Seq<int> {
    Seq::new(v.len(), |i: int| v[i] as int)
}

/// The sum of the signal strengths of the first `n` cycles: the number of a cycle times
/// the register during it, for the cycles 20, 60, 100 and so on.
pub open spec fn strength_upto(values: Seq<int>, n: int) -> int
    decreases n,
{
    if n <= 0 {
        0
    } else if (n - 1) % 40 == 20 {
        strength_upto(values, n - 1) + (n - 1) * values[n - 1]
    } else {
        strength_upto(values, n - 1)
    }
}

/// Whether each signal strength, and the sum up to each cycle, is a number of an `i64`.
pub open spec fn strengths_fit(values: Seq<int>) -> bool {
    forall|n: int|
        0 < n <= values.len() ==> i64::MIN <= #[trigger] strength_upto(values, n) <= i64::MAX && (
        (n - 1) % 40 == 20 ==> i64::MIN <= (n - 1) * values[n - 1] <= i64::MAX)
}

impl Instruction {
    /// Reads an instruction.
    pub fn from_str(s: &str) -> (r: Result<Instruction, ()>)
        ensures
            r is Ok <==> instruction_of(s@) is Some,
            r is Ok ==> Some(r.unwrap()) == instruction_of(s@),
    {
        let v = chars_of(s);
        match Instruction::from_chars(&v) {
            Some(i) => Ok(i),
            None => Err(()),
        }
    }

    /// Reads an instruction from the characters of a line.
    pub fn from_chars(s: &Vec<char>) -> (r: Option<Instruction>)
        ensures
            r == instruction_of(s@),
    {
        let v = split_char(s, ' ');
        assert(views(v@)[0] == v@[0]@);
        if is_word(&v[0], "noop") {
            Some(Instruction::Noop)
        } else if is_word(&v[0], "addx") {
            if v.len() < 2 {
                return None;
            }
            assert(views(v@)[1] == v@[1]@);
            match to_i64(&v[1]) {
                Some(n) => Some(Instruction::AddX(n)),
                None => None,
            }
        } else {
            None
        }
    }
}

/// The register during each cycle of the program `s`, or `None` where a line writes no
/// instruction or the register leaves the numbers of an `i64`.
pub fn register_values(s: &str) -> (r: Option<Vec<i64>>)
    ensures
        r is Some <==> valid_program(trimmed_rows(s@)) && register_fits(trimmed_rows(s@)),
        r is Some ==> ints(r.unwrap()@) == values_during(trimmed_rows(s@)),
{
    let lines = rows_of(s);
    let ghost rows = views(lines@);
    let mut x: i64 = 1;
    let mut values: Vec<i64> = Vec::new();
    values.push(0);
    let mut i: usize = 0;
    proof {
        assert(rows.take(0) =~= Seq::<Seq<char>>::empty());
        assert(ints(values@) =~= values_during(rows.take(0)));
    }
    while i < lines.len()
        invariant
            i <= lines.len(),
            rows == views(lines@),
            rows == trimmed_rows(s@),
            valid_program(rows.take(i as int)),
            forall|k: int|
                0 <= k <= i ==> i64::MIN <= #[trigger] register_after(rows.take(k)) <= i64::MAX,
            x == register_after(rows.take(i as int)),
            ints(values@) == values_during(rows.take(i as int)),
        decreases lines.len() - i,
    {
        assert(rows[i as int] == lines@[i as int]@);
        proof {
            lemma_take_step(rows, i as int);
        }
        let ghost before = values@;
        let instruction = match Instruction::from_chars(&lines[i]) {
            Some(instruction) => instruction,
            None => {
                assert(instruction_of(rows[i as int]) is None);
                return None;
            },
        };
        assert forall|j: int| 0 <= j < i + 1 implies instruction_of(
            #[trigger] rows.take(i + 1)[j],
        ) is Some by {
            if j < i {
                assert(rows.take(i as int)[j] == rows.take(i + 1)[j]);
            }
        }
        match instruction {
            Instruction::Noop => {
                values.push(x);
                assert(ints(values@) =~= ints(before).push(x as int));
            },
            Instruction::AddX(n) => {
                values.push(x);
                values.push(x);
                assert(ints(values@) =~= ints(before).push(x as int).push(x as int));
                let next: i128 = x as i128 + n as i128;
                assert(next == register_after(rows.take(i + 1)));
                if next < -0x8000_0000_0000_0000 || next > 0x7fff_ffff_ffff_ffff {
                    assert(rows.take(i + 1) == rows.take((i + 1) as int));
                    return None;
                }
                x = next as i64;
            },
        }
        assert forall|k: int| 0 <= k <= i + 1 implies i64::MIN <= #[trigger] register_after(
            rows.take(k),
        ) <= i64::MAX by {
            if k == i + 1 {
                assert(rows.take(k) == rows.take(i + 1));
            }
        }
        i += 1;
    }
    proof {
        assert(rows.take(i as int) =~= rows);
    }
    Some(values)
}

/// The sum of the signal strengths of `values`, or `None` where a strength or the sum up
/// to a cycle is no number of an `i64`.
pub fn signal_strength(values: &Vec<i64>) -> (r: Option<i64>)
    ensures
        r is Some <==> strengths_fit(ints(values@)),
        r is Some ==> r.unwrap() == strength_upto(ints(values@), values.len() as int),
{
    let ghost v = ints(values@);
    let mut sum: i64 = 0;
    let mut i: usize = 0;
    while i < values.len()
        invariant
            i <= values.len(),
            v == ints(values@),
            sum == strength_upto(v, i as int),
            forall|n: int|
                0 < n <= i ==> i64::MIN <= #[trigger] strength_upto(v, n) <= i64::MAX && ((n - 1)
                    % 40 == 20 ==> i64::MIN <= (n - 1) * v[n - 1] <= i64::MAX),
        decreases values.len() - i,
    {
        if i % 40 == 20 {
            let value = values[i];
            assert(value == v[i as int]);
            assert(-0x8000_0000_0000_0000_0000_0000_0000_0000 <= (i as int) * (value as int)
                <= 0x7fff_ffff_ffff_ffff_ffff_ffff_ffff_ffff) by (nonlinear_arith)
                requires
                    0 <= i <= 0xffff_ffff_ffff_ffff,
                    -0x8000_0000_0000_0000 <= value <= 0x7fff_ffff_ffff_ffff,
            ;
            let strength: i128 = (i as i128) * (value as i128);
            let ghost n = i + 1;
            assert(strength == (n - 1) * v[n - 1]);
            if strength < -0x8000_0000_0000_0000 || strength > 0x7fff_ffff_ffff_ffff {
                proof {
                    if strengths_fit(v) {
                        assert(i64::MIN <= strength_upto(v, n) <= i64::MAX);
                    }
                }
                return None;
            }
            let next: i128 = sum as i128 + strength;
            assert(next == strength_upto(v, n));
            if next < -0x8000_0000_0000_0000 || next > 0x7fff_ffff_ffff_ffff {
                return None;
            }
            sum = next as i64;
        }
        i += 1;
    }
    Some(sum)
}

/// The sum of the signal strengths of the program `s`.
pub fn sum_of_signal_strengths(s: &str) -> (sum: i64)
    requires
        valid_program(trimmed_rows(s@)),
        register_fits(trimmed_rows(s@)),
        strengths_fit(values_during(trimmed_rows(s@))),
    ensures
        sum == strength_upto(
            values_during(trimmed_rows(s@)),
            values_during(trimmed_rows(s@)).len() as int,
        ),
{
    let values = match register_values(s) {
        Some(values) => values,
        None => unreached(),
    };
    match signal_strength(&values) {
        Some(sum) => sum,
        None => unreached(),
    }
}

/// What the screen shows at place `i`, counted row after row: the first place is lit,
/// and another is lit if its column is at most one from the register during the cycle
/// after the next.
pub open spec fn pixel(values: Seq<int>, i: int) -> char {
    if i == 0 {
        '#'
    } else if -1 <= i % 40 - values[i + 1] <= 1 {
        '#'
    } else {
        '.'
    }
}

/// The picture for `values`: rows of forty places with a line feed between two rows.
pub open spec fn image(values: Seq<int>) -> Seq<char> {
    let rows = (values.len() - 1) / 40;
    Seq::new(
        if rows == 0 {
            0nat
        } else {
            (rows * 41 - 1) as nat
        },
        |p: int|
            if p % 41 == 40 {
                '\n'
            } else {
                pixel(values, (p / 41) * 40 + p % 41)
            },
    )
}

/// The picture that the register values draw. The number of cycles is a multiple of
/// forty.
pub fn render_values(values: &Vec<i64>) -> (picture: String)
    requires
        values.len() > 0,
        (values.len() - 1) % 40 == 0,
    ensures
        picture@ == image(ints(values@)),
{
    let ghost v = ints(values@);
    let crt_height = (values.len() - 1) / CRT_WIDTH;
    let mut out: Vec<char> = Vec::new();
    let mut row: usize = 0;
    while row < crt_height
        invariant
            row <= crt_height,
            crt_height == (values.len() - 1) / 40,
            (values.len() - 1) % 40 == 0,
            values.len() > 0,
            v == ints(values@),
            out@.len() == if row == 0 {
                0int
            } else {
                row * 41 - 1
            },
            forall|p: int| 0 <= p < out@.len() ==> out@[p] == image(v)[p],
        decreases crt_height - row,
    {
        if row > 0 {
            out.push('\n');
        }
        let mut col: usize = 0;
        while col < CRT_WIDTH
            invariant
                col <= CRT_WIDTH,
                row < crt_height,
                crt_height == (values.len() - 1) / 40,
                (values.len() - 1) % 40 == 0,
                values.len() > 0,
                v == ints(values@),
                out@.len() == row * 41 + col,
                forall|p: int| 0 <= p < out@.len() ==> out@[p] == image(v)[p],
            decreases CRT_WIDTH - col,
        {
            let i = row * CRT_WIDTH + col;
            let ghost p = row * 41 + col;
            assert(p % 41 == col && p / 41 == row) by (nonlinear_arith)
                requires
                    p == row * 41 + col,
                    0 <= col < 40,
                    0 <= row,
            ;
            assert(i % 40 == col) by (nonlinear_arith)
                requires
                    i == row * 40 + col,
                    0 <= col < 40,
                    0 <= row,
            ;
            let lit = if i == 0 {
                true
            } else {
                let d: i128 = col as i128 - values[i + 1] as i128;
                -1 <= d && d <= 1
            };
            out.push(
                if lit {
                    '#'
                } else {
                    '.'
                },
            );
            col += 1;
        }
        row += 1;
        proof {
            assert((row - 1) * 41 + 40 == row * 41 - 1) by (nonlinear_arith);
        }
    }
    proof {
        assert(out@ =~= image(v));
    }
    string_of(&out)
}

/// The picture that the program `s` draws.
pub fn render_image(s: &str) -> (picture: String)
    requires
        valid_program(trimmed_rows(s@)),
        register_fits(trimmed_rows(s@)),
        (values_during(trimmed_rows(s@)).len() - 1) % 40 == 0,
    ensures
        picture@ == image(values_during(trimmed_rows(s@))),
{
    let values = match register_values(s) {
        Some(values) => values,
        None => unreached(),
    };
    proof {
        lemma_values_len(trimmed_rows(s@));
    }
    render_values(&values)
}

/// There is a value for the time before the first cycle, so the list is not empty.
pub proof fn lemma_values_len(lines: Seq<Seq<char>>)
    ensures
        values_during(lines).len() > 0,
    decreases lines.len(),
{
    if lines.len() > 0 {
        lemma_values_len(lines.drop_last());
    }
}

} // verus!
