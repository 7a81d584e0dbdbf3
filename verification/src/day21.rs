//! Monkeys that each yell a number or the result of an operation on what two others
//! yell.

use crate::text::{is_char, is_word, parse_i64, split, split_char, split_once, split_once_char, string_of, to_i64, trim, trimmed, trimmed_lines, trimmed_lines_of, views};
use vstd::pervasive::unreached;
use vstd::prelude::*;

verus! {

/// An operation on two numbers.
#[derive(Clone, Copy, Debug, PartialEq, Eq, Structural)]
pub enum Operation {
    Multiply,
    Divide,
    Add,
    Subtract,
}

/// What a monkey yells: a number, or the result of an operation on what two other
/// monkeys yell.
#[derive(Debug)]
pub enum JobValue {
    Integer(i64),
    Op(Operation, Vec<char>, Vec<char>),
}

/// A monkey and what it yells.
#[derive(Debug)]
pub struct Job {
    pub monkey: Vec<char>,
    pub value: JobValue,
}

/// The jobs of the monkeys. Of two jobs of one monkey the later counts.
#[derive(Debug)]
pub struct JobTable {
    pub jobs: Vec<Job>,
}

/// What a monkey yells, as a value: a number, or the result of an operation on what the
/// monkeys of two names yell.
pub enum Saying {
    Number(int),
    Result(Operation, Seq<char>, Seq<char>),
}

/// A monkey and what it yells, as a value.
pub struct JobView {
    pub monkey: Seq<char>,
    pub value: Saying,
}

impl View for JobValue {
    type V = Saying;

    open spec fn view(&self) -> Saying {
        match self {
            JobValue::Integer(n) => Saying::Number(*n as int),
            JobValue::Op(op, l, r) => Saying::Result(*op, l@, r@),
        }
    }
}

impl View for Job {
    type V = JobView;

    open spec fn view(&self) -> JobView {
        JobView { monkey: self.monkey@, value: self.value@ }
    }
}

impl View for JobTable {
    type V = Seq<JobView>;

    open spec fn view(&self) -> Seq<JobView> {
        Seq::new(self.jobs@.len(), |i: int| self.jobs@[i]@)
    }
}

/// The operation that a text writes.
pub open spec fn operation_of(s: Seq<char>) -> Option<Operation> {
    if s == seq!['*'] {
        Some(Operation::Multiply)
    } else if s == seq!['/'] {
        Some(Operation::Divide)
    } else if s == seq!['+'] {
        Some(Operation::Add)
    } else if s == seq!['-'] {
        Some(Operation::Subtract)
    } else {
        None
    }
}

/// The quotient of `a` by `b`, rounded towards 0.
pub open spec fn quotient(a: int, b: int) -> int {
    if a >= 0 && b > 0 {
        a / b
    } else if a < 0 && b > 0 {
        -((-a) / b)
    } else if a >= 0 && b < 0 {
        -(a / (-b))
    } else {
        (-a) / (-b)
    }
}

impl Operation {
    /// The result of the operation as a number without bounds; `None` for a division
    /// by 0.
    pub open spec fn result(self, left: int, right: int) -> Option<int> {
        match self {
            Operation::Multiply => Some(left * right),
            Operation::Divide => if right == 0 {
                None
            } else {
                Some(quotient(left, right))
            },
            Operation::Add => Some(left + right),
            Operation::Subtract => Some(left - right),
        }
    }

    /// The result of the operation if it is a number of an `i64`.
    pub open spec fn checked(self, left: int, right: int) -> Option<int> {
        match self.result(left, right) {
            Some(n) => if i64::MIN <= n <= i64::MAX {
                Some(n)
            } else {
                None
            },
            None => None,
        }
    }

    /// The sign of the operation.
    pub open spec fn sign(self) -> char {
        match self {
            Operation::Multiply => '*',
            Operation::Divide => '/',
            Operation::Add => '+',
            Operation::Subtract => '-',
        }
    }

    /// Reads an operation: `*`, `/`, `+` or `-`.
    pub fn from_chars(s: &Vec<char>) -> (r: Option<Operation>)
        ensures
            r == operation_of(s@),
    {
        if is_char(s, '*') {
            Some(Operation::Multiply)
        } else if is_char(s, '/') {
            Some(Operation::Divide)
        } else if is_char(s, '+') {
            Some(Operation::Add)
        } else if is_char(s, '-') {
            Some(Operation::Subtract)
        } else {
            None
        }
    }

    /// The sign of the operation.
    pub fn symbol(&self) -> (c: char)
        ensures
            c == self.sign(),
    {
        match self {
            Operation::Multiply => '*',
            Operation::Divide => '/',
            Operation::Add => '+',
            Operation::Subtract => '-',
        }
    }

    /// The result of the operation, or `None` where it is no number of an `i64` or a
    /// division by 0.
    pub fn try_execute(&self, left: i64, right: i64) -> (r: Option<i64>)
        ensures
            r is Some <==> self.checked(left as int, right as int) is Some,
            r is Some ==> r.unwrap() == self.checked(left as int, right as int).unwrap(),
    {
        let wide: i128 = match self {
            Operation::Multiply => {
                assert(-0x4000_0000_0000_0000_0000_0000_0000_0000 <= (left as int) * (right as int)
                    <= 0x4000_0000_0000_0000_0000_0000_0000_0000) by (nonlinear_arith)
                    requires
                        -0x8000_0000_0000_0000 <= left <= 0x7fff_ffff_ffff_ffff,
                        -0x8000_0000_0000_0000 <= right <= 0x7fff_ffff_ffff_ffff,
                ;
                (left as i128) * (right as i128)
            },
            Operation::Divide => {
                if right == 0 {
                    return None;
                }
                let a: u128 = if left < 0 {
                    (-(left as i128)) as u128
                } else {
                    left as u128
                };
                let b: u128 = if right < 0 {
                    (-(right as i128)) as u128
                } else {
                    right as u128
                };
                let q: u128 = a / b;
                assert(q <= a) by (nonlinear_arith)
                    requires
                        q == a / b,
                        b >= 1,
                        a >= 0,
                ;
                if (left < 0) != (right < 0) {
                    -(q as i128)
                } else {
                    q as i128
                }
            },
            Operation::Add => left as i128 + right as i128,
            Operation::Subtract => left as i128 - right as i128,
        };
        if wide < -0x8000_0000_0000_0000 || wide > 0x7fff_ffff_ffff_ffff {
            None
        } else {
            Some(wide as i64)
        }
    }

    /// The result of the operation.
    pub fn execute(&self, left: i64, right: i64) -> (r: i64)
        requires
            self.checked(left as int, right as int) is Some,
        ensures
            r == self.checked(left as int, right as int).unwrap(),
    {
        match self.try_execute(left, right) {
            Some(r) => r,
            None => unreached(),
        }
    }
}

/// The value that a text writes: one word that is an integer, or three words, cut at
/// single blanks, of which the second is an operation and the others are names.
pub open spec fn value_of(s: Seq<char>) -> Option<Saying> {
    let tokens = split(trim(s), seq![' ']);
    if tokens.len() == 1 {
        match parse_i64(tokens[0]) {
            Some(n) => Some(Saying::Number(n as int)),
            None => None,
        }
    } else if tokens.len() == 3 {
        match operation_of(tokens[1]) {
            Some(op) => Some(Saying::Result(op, tokens[0], tokens[2])),
            None => None,
        }
    } else {
        None
    }
}

/// The job that a text writes: a name, a colon, and a value.
pub open spec fn job_of(s: Seq<char>) -> Option<JobView> {
    match split_once(trim(s), seq![':']) {
        Some((monkey, value)) => match value_of(value) {
            Some(value) => Some(JobView { monkey, value }),
            None => None,
        },
        None => None,
    }
}

/// The jobs that the lines write, or `None` where a line writes none.
pub open spec fn table_of(lines: Seq<Seq<char>>) -> Option<Seq<JobView>> {
    if forall|i: int| 0 <= i < lines.len() ==> job_of(#[trigger] lines[i]) is Some {
        Some(Seq::new(lines.len(), |i: int| job_of(lines[i]).unwrap()))
    } else {
        None
    }
}

impl JobValue {
    /// Reads a value.
    pub fn from_chars(s: &Vec<char>) -> (r: Option<JobValue>)
        ensures
            r is Some <==> value_of(s@) is Some,
            r is Some ==> Some(r.unwrap()@) == value_of(s@),
    {
        let text = trimmed(s);
        let mut tokens = split_char(&text, ' ');
        if tokens.len() == 1 {
            assert(views(tokens@)[0] == tokens@[0]@);
            match to_i64(&tokens[0]) {
                Some(n) => Some(JobValue::Integer(n)),
                None => None,
            }
        } else if tokens.len() == 3 {
            assert(views(tokens@)[0] == tokens@[0]@);
            assert(views(tokens@)[1] == tokens@[1]@);
            assert(views(tokens@)[2] == tokens@[2]@);
            match Operation::from_chars(&tokens[1]) {
                Some(op) => {
                    let right = tokens.pop().unwrap();
                    let _ = tokens.pop();
                    let left = tokens.pop().unwrap();
                    Some(JobValue::Op(op, left, right))
                },
                None => None,
            }
        } else {
            None
        }
    }
}

impl Job {
    /// Reads a job.
    pub fn from_chars(s: &Vec<char>) -> (r: Option<Job>)
        ensures
            r is Some <==> job_of(s@) is Some,
            r is Some ==> Some(r.unwrap()@) == job_of(s@),
    {
        let text = trimmed(s);
        let (monkey, value) = match split_once_char(&text, ':') {
            Some(parts) => parts,
            None => {
                return None;
            },
        };
        match JobValue::from_chars(&value) {
            Some(value) => Some(Job { monkey, value }),
            None => None,
        }
    }
}

/// The place of the job of `name` among the first `n`: the last of them, or `None`.
pub open spec fn lookup(jobs: Seq<JobView>, name: Seq<char>, n: int) -> Option<int>
    decreases n,
{
    if n <= 0 {
        None
    } else if jobs[n - 1].monkey == name {
        Some(n - 1)
    } else {
        lookup(jobs, name, n - 1)
    }
}

/// What the monkey `name` yells, looking no deeper than `fuel` monkeys; `None` where a
/// monkey has no job, the jobs go deeper, or a result is no number of an `i64`.
pub open spec fn yell_of(jobs: Seq<JobView>, name: Seq<char>, fuel: nat) -> Option<int>
    decreases fuel,
{
    if fuel == 0 {
        None
    } else {
        match lookup(jobs, name, jobs.len() as int) {
            None => None,
            Some(k) => match jobs[k].value {
                Saying::Number(v) => Some(v),
                Saying::Result(op, l, r) => match (
                    yell_of(jobs, l, (fuel - 1) as nat),
                    yell_of(jobs, r, (fuel - 1) as nat),
                ) {
                    (Some(a), Some(b)) => op.checked(a, b),
                    _ => None,
                },
            },
        }
    }
}

/// The digits of `n` in base ten.
pub open spec fn digits(n: nat) -> Seq<char>
    decreases n,
{
    if n < 10 {
        seq![(0x30 + n) as u8 as char]
    } else {
        digits(n / 10).push((0x30 + n % 10) as u8 as char)
    }
}

/// The number `n` in base ten, with a minus sign before it if it is negative.
pub open spec fn decimal(n: int) -> Seq<char> {
    if n < 0 {
        seq!['-'] + digits((-n) as nat)
    } else {
        digits(n as nat)
    }
}

/// The name of the monkey whose number is sought.
pub open spec fn unknown() -> Seq<char> {
    seq!['h', 'u', 'm', 'n']
}

/// What the monkey `name` yells as a term in prefix form, with `x` for the monkey
/// `humn`, looking no deeper than `fuel` monkeys.
pub open spec fn term_of(jobs: Seq<JobView>, name: Seq<char>, fuel: nat) -> Option<Seq<char>>
    decreases fuel,
{
    if name == unknown() {
        Some(seq!['x'])
    } else if fuel == 0 {
        None
    } else {
        match lookup(jobs, name, jobs.len() as int) {
            None => None,
            Some(k) => match jobs[k].value {
                Saying::Number(v) => Some(decimal(v)),
                Saying::Result(op, l, r) => match (
                    term_of(jobs, l, (fuel - 1) as nat),
                    term_of(jobs, r, (fuel - 1) as nat),
                ) {
                    (Some(a), Some(b)) => Some(
                        seq!['(', op.sign(), ' '] + a + seq![' '] + b + seq![')'],
                    ),
                    _ => None,
                },
            },
        }
    }
}

/// What a monkey yells does not depend on how deep one looks, once the look is deep
/// enough to find it: a deeper look finds the same.
pub proof fn lemma_yell_found(jobs: Seq<JobView>, name: Seq<char>, fuel: nat, more: nat)
    requires
        yell_of(jobs, name, fuel) is Some,
    ensures
        yell_of(jobs, name, fuel + more) == yell_of(jobs, name, fuel),
    decreases fuel,
{
    if fuel > 0 {
        match lookup(jobs, name, jobs.len() as int) {
            None => {},
            Some(k) => match jobs[k].value {
                Saying::Number(_) => {},
                Saying::Result(_, l, r) => {
                    assert((fuel + more - 1) as nat == (fuel - 1) as nat + more);
                    lemma_yell_found(jobs, l, (fuel - 1) as nat, more);
                    lemma_yell_found(jobs, r, (fuel - 1) as nat, more);
                },
            },
        }
    }
}

/// The term of a monkey does not depend on how deep one looks, once the look is deep
/// enough to find it: a deeper look finds the same.
pub proof fn lemma_term_found(jobs: Seq<JobView>, name: Seq<char>, fuel: nat, more: nat)
    requires
        term_of(jobs, name, fuel) is Some,
    ensures
        term_of(jobs, name, fuel + more) == term_of(jobs, name, fuel),
    decreases fuel,
{
    if name != unknown() && fuel > 0 {
        match lookup(jobs, name, jobs.len() as int) {
            None => {},
            Some(k) => match jobs[k].value {
                Saying::Number(_) => {},
                Saying::Result(_, l, r) => {
                    assert((fuel + more - 1) as nat == (fuel - 1) as nat + more);
                    lemma_term_found(jobs, l, (fuel - 1) as nat, more);
                    lemma_term_found(jobs, r, (fuel - 1) as nat, more);
                },
            },
        }
    }
}

/// The equation that says that the two monkeys of whom `root` speaks yell the same.
pub open spec fn root_equation(jobs: Seq<JobView>) -> Option<Seq<char>> {
    match lookup(jobs, seq!['r', 'o', 'o', 't'], jobs.len() as int) {
        Some(k) => match jobs[k].value {
            Saying::Result(_, l, r) => match (
                term_of(jobs, l, jobs.len()),
                term_of(jobs, r, jobs.len()),
            ) {
                (Some(a), Some(b)) => Some(
                    seq!['(', '=', ' '] + a + seq![' '] + b + seq![')'],
                ),
                _ => None,
            },
            Saying::Number(_) => None,
        },
        None => None,
    }
}

/// Whether two texts are the same.
pub fn same_text(a: &Vec<char>, b: &Vec<char>) -> (r: bool)
    ensures
        r == (a@ == b@),
{
    if a.len() != b.len() {
        return false;
    }
    let mut i: usize = 0;
    while i < a.len()
        invariant
            i <= a.len(),
            a.len() == b.len(),
            forall|k: int| 0 <= k < i ==> a@[k] == b@[k],
        decreases a.len() - i,
    {
        if a[i] != b[i] {
            return false;
        }
        i += 1;
    }
    assert(a@ =~= b@);
    true
}

/// Writes `n` in base ten.
pub fn decimal_of(n: i64) -> (v: Vec<char>)
    ensures
        v@ == decimal(n as int),
{
    let mut m: u64 = if n < 0 {
        (-(n as i128)) as u64
    } else {
        n as u64
    };
    let ghost whole = m as nat;
    let mut back: Vec<char> = Vec::new();
    while m >= 10
        invariant
            digits(whole) == digits(m as nat) + back@.reverse(),
        decreases m,
    {
        let d = (0x30 + m % 10) as u8 as char;
        let ghost before = back@;
        back.push(d);
        assert(digits(m as nat) == digits((m / 10) as nat).push(d));
        assert(back@.reverse() =~= seq![d] + before.reverse());
        assert(digits(m as nat) + before.reverse() =~= digits((m / 10) as nat) + back@.reverse());
        m = m / 10;
    }
    let first = (0x30 + m) as u8 as char;
    let mut v: Vec<char> = Vec::new();
    if n < 0 {
        v.push('-');
    }
    v.push(first);
    let ghost head = v@;
    let mut i: usize = back.len();
    assert(back@.reverse().take(0) =~= Seq::<char>::empty());
    while i > 0
        invariant
            i <= back.len(),
            v@ == head + back@.reverse().take(back.len() - i),
        decreases i,
    {
        i -= 1;
        v.push(back[i]);
        assert(back@.reverse()[back.len() - 1 - i] == back@[i as int]);
        assert(back@.reverse().take(back.len() - i) =~= back@.reverse().take(
            back.len() - i - 1,
        ).push(back@[i as int]));
    }
    proof {
        assert(back@.reverse().take(back.len() as int) =~= back@.reverse());
        assert(digits(m as nat) =~= seq![first]);
        if n < 0 {
            assert(v@ =~= seq!['-'] + digits(whole));
        } else {
            assert(v@ =~= digits(whole));
        }
    }
    v
}

impl JobTable {
    /// Reads the jobs, one to a line.
    pub fn from_str(s: &str) -> (r: Result<JobTable, ()>)
        ensures
            r is Ok <==> table_of(trimmed_lines(s@)) is Some,
            r is Ok ==> Some(r.unwrap()@) == table_of(trimmed_lines(s@)),
    {
        let lines = trimmed_lines_of(s);
        let ghost rows = views(lines@);
        let mut jobs: Vec<Job> = Vec::new();
        let mut i: usize = 0;
        while i < lines.len()
            invariant
                i <= lines.len(),
                rows == views(lines@),
                rows == trimmed_lines(s@),
                jobs.len() == i,
                forall|k: int| 0 <= k < i ==> job_of(#[trigger] rows[k]) == Some(jobs@[k]@),
            decreases lines.len() - i,
        {
            assert(rows[i as int] == lines@[i as int]@);
            match Job::from_chars(&lines[i]) {
                Some(job) => {
                    jobs.push(job);
                },
                None => {
                    return Err(());
                },
            }
            i += 1;
        }
        let table = JobTable { jobs };
        proof {
            assert(table_of(rows) is Some);
            assert(table@ =~= table_of(rows).unwrap());
        }
        Ok(table)
    }

    /// The place of the job of `name`: the last, or `None`.
    pub fn find(&self, name: &Vec<char>) -> (r: Option<usize>)
        ensures
            match r {
                Some(k) => lookup(self@, name@, self@.len() as int) == Some(k as int) && k
                    < self.jobs@.len(),
                None => lookup(self@, name@, self@.len() as int) is None,
            },
    {
        let mut n: usize = self.jobs.len();
        while n > 0
            invariant
                n <= self.jobs.len(),
                lookup(self@, name@, self@.len() as int) == lookup(self@, name@, n as int),
            decreases n,
        {
            if same_text(&self.jobs[n - 1].monkey, name) {
                return Some(n - 1);
            }
            n -= 1;
        }
        None
    }

    /// What the monkey `name` yells, looking no deeper than `fuel` monkeys.
    pub fn yells_within(&self, monkey: &Vec<char>, fuel: usize) -> (r: Option<i64>)
        ensures
            r is Some <==> yell_of(self@, monkey@, fuel as nat) is Some,
            r is Some ==> r.unwrap() == yell_of(self@, monkey@, fuel as nat).unwrap(),
        decreases fuel,
    {
        if fuel == 0 {
            return None;
        }
        let k = match self.find(monkey) {
            Some(k) => k,
            None => {
                return None;
            },
        };
        match &self.jobs[k].value {
            JobValue::Integer(v) => Some(*v),
            JobValue::Op(operation, left, right) => {
                let a = self.yells_within(left, fuel - 1);
                let b = self.yells_within(right, fuel - 1);
                match (a, b) {
                    (Some(a), Some(b)) => operation.try_execute(a, b),
                    _ => None,
                }
            },
        }
    }

    /// What the monkey `name` yells.
    pub fn yells(&self, monkey: &Vec<char>) -> (r: i64)
        requires
            yell_of(self@, monkey@, self@.len()) is Some,
        ensures
            r == yell_of(self@, monkey@, self@.len()).unwrap(),
    {
        match self.yells_within(monkey, self.jobs.len()) {
            Some(r) => r,
            None => unreached(),
        }
    }

    /// What the monkey `name` yells as a term in prefix form, with `x` for the monkey
    /// `humn`.
    pub fn equation(&self, monkey: &Vec<char>, fuel: usize) -> (r: Option<Vec<char>>)
        ensures
            r is Some <==> term_of(self@, monkey@, fuel as nat) is Some,
            r is Some ==> r.unwrap()@ == term_of(self@, monkey@, fuel as nat).unwrap(),
        decreases fuel,
    {
        if is_word(monkey, "humn") {
            proof {
                reveal_strlit("humn");
                assert("humn"@ =~= unknown());
            }
            let mut x: Vec<char> = Vec::new();
            x.push('x');
            assert(x@ =~= seq!['x']);
            return Some(x);
        }
        proof {
            reveal_strlit("humn");
            assert("humn"@ =~= unknown());
        }
        if fuel == 0 {
            return None;
        }
        let k = match self.find(monkey) {
            Some(k) => k,
            None => {
                return None;
            },
        };
        match &self.jobs[k].value {
            JobValue::Integer(v) => Some(decimal_of(*v)),
            JobValue::Op(operation, left, right) => {
                let a = self.equation(left, fuel - 1);
                let b = self.equation(right, fuel - 1);
                match (a, b) {
                    (Some(a), Some(b)) => {
                        let mut out: Vec<char> = Vec::new();
                        out.push('(');
                        out.push(operation.symbol());
                        out.push(' ');
                        append(&mut out, &a);
                        out.push(' ');
                        append(&mut out, &b);
                        out.push(')');
                        assert(out@ =~= seq!['(', operation.sign(), ' '] + a@ + seq![' '] + b@
                            + seq![')']);
                        Some(out)
                    },
                    _ => None,
                }
            },
        }
    }

    /// The equation that says that the two monkeys of whom `root` speaks yell the same,
    /// with `x` for what the monkey `humn` yells.
    pub fn i_yell_equation(&self) -> (r: Option<Vec<char>>)
        ensures
            r is Some <==> root_equation(self@) is Some,
            r is Some ==> r.unwrap()@ == root_equation(self@).unwrap(),
    {
        let mut root: Vec<char> = Vec::new();
        root.push('r');
        root.push('o');
        root.push('o');
        root.push('t');
        assert(root@ =~= seq!['r', 'o', 'o', 't']);
        let k = match self.find(&root) {
            Some(k) => k,
            None => {
                return None;
            },
        };
        match &self.jobs[k].value {
            JobValue::Op(_, left, right) => {
                let a = self.equation(left, self.jobs.len());
                let b = self.equation(right, self.jobs.len());
                match (a, b) {
                    (Some(a), Some(b)) => {
                        let mut out: Vec<char> = Vec::new();
                        out.push('(');
                        out.push('=');
                        out.push(' ');
                        append(&mut out, &a);
                        out.push(' ');
                        append(&mut out, &b);
                        out.push(')');
                        assert(out@ =~= seq!['(', '=', ' '] + a@ + seq![' '] + b@ + seq![')']);
                        Some(out)
                    },
                    _ => None,
                }
            },
            JobValue::Integer(_) => None,
        }
    }
}

/// Adds the characters of `more` to `out`.
pub fn append(out: &mut Vec<char>, more: &Vec<char>)
    ensures
        final(out)@ == old(out)@ + more@,
{
    let ghost before = out@;
    let mut i: usize = 0;
    while i < more.len()
        invariant
            i <= more.len(),
            out@ == before + more@.take(i as int),
        decreases more.len() - i,
    {
        out.push(more[i]);
        assert(more@.take(i + 1) =~= more@.take(i as int).push(more@[i as int]));
        i += 1;
    }
    assert(more@.take(i as int) =~= more@);
}

/// The name of the monkey whose yell is asked for.
pub open spec fn root() -> Seq<char> {
    seq!['r', 'o', 'o', 't']
}

/// What the monkey `root` yells by the jobs of the lines; `None` where a line writes no
/// job, a monkey has no job, the jobs go round in a circle, or a result is no number
/// of an `i64`.
pub open spec fn root_yell(lines: Seq<Seq<char>>) -> Option<int> {
    match table_of(lines) {
        Some(jobs) => yell_of(jobs, root(), jobs.len()),
        None => None,
    }
}

/// The equation for the jobs of the lines that says that the two monkeys of whom `root`
/// speaks yell the same, with `x` for what the monkey `humn` yells.
pub open spec fn equation_of(lines: Seq<Seq<char>>) -> Option<Seq<char>> {
    match table_of(lines) {
        Some(jobs) => root_equation(jobs),
        None => None,
    }
}

/// The name `root`.
fn root_name() -> (name: Vec<char>)
    ensures
        name@ == root(),
{
    let mut name: Vec<char> = Vec::new();
    name.push('r');
    name.push('o');
    name.push('o');
    name.push('t');
    assert(name@ =~= root());
    name
}

/// What the monkey `root` yells by the jobs that `s` writes, or `None` where there is
/// no such number.
pub fn try_root_yells(s: &str) -> (r: Option<i64>)
    ensures
        r is Some <==> root_yell(trimmed_lines(s@)) is Some,
        r is Some ==> r.unwrap() == root_yell(trimmed_lines(s@)).unwrap(),
{
    let table = match JobTable::from_str(s) {
        Ok(table) => table,
        Err(_) => {
            return None;
        },
    };
    let name = root_name();
    table.yells_within(&name, table.jobs.len())
}

/// What the monkey `root` yells by the jobs that `s` writes.
pub fn root_yells(s: &str) -> (r: i64)
    requires
        root_yell(trimmed_lines(s@)) is Some,
    ensures
        r == root_yell(trimmed_lines(s@)).unwrap(),
{
    match try_root_yells(s) {
        Some(r) => r,
        None => unreached(),
    }
}

/// The equation for the jobs that `s` writes that says that the two monkeys of whom
/// `root` speaks yell the same, with `x` for what the monkey `humn` yells; `None` where
/// there is no such equation.
pub fn i_yell_equation(s: &str) -> (r: Option<String>)
    ensures
        r is Some <==> equation_of(trimmed_lines(s@)) is Some,
        r is Some ==> r.unwrap()@ == equation_of(trimmed_lines(s@)).unwrap(),
{
    let table = match JobTable::from_str(s) {
        Ok(table) => table,
        Err(_) => {
            return None;
        },
    };
    match table.i_yell_equation() {
        Some(text) => Some(string_of(&text)),
        None => None,
    }
}

} // verus!
