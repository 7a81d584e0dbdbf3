//! Monkeys that inspect items and throw them to one another, by how worried one is about
//! each item.

use crate::ints::{divides, is_multiple, quotient, remainder, trunc_div, trunc_rem};
use crate::text::{
    chars_of, is_word, lines, lines_of, parse_i64, parse_usize, rsplit_once,
    rsplit_once_char, split, split_on, strip_prefix, to_i64, to_usize, trim, trimmed, views,
    without_prefix,
};
use std::collections::VecDeque;
use crate::day01::{argmax};
use vstd::pervasive::unreached;
use vstd::prelude::*;

verus! {

/// What an operation takes beside the old worry: the old worry again, or a number.
#[derive(Debug, Clone, Copy, PartialEq, Eq, Structural)]
pub enum Operand {
    Old,
    Value(i64),
}

/// How the worry changes when a monkey inspects an item.
#[derive(Debug, Clone, Copy, PartialEq, Eq, Structural)]
pub enum Operator {
    Add(Operand),
    Multiply(Operand),
}

/// A monkey: the items it holds, what it does to the worry, the number by which it
/// tests, the monkeys to which it throws, and how many items it has inspected.
#[derive(Debug)]
pub struct Monkey {
    items: VecDeque<i64>,
    operation: Operator,
    test_div_by: i64,
    on_true: usize,
    on_false: usize,
    num_inspections: usize,
}

/// A monkey as a value.
pub struct MonkeyView {
    pub items: Seq<int>,
    pub operation: Operator,
    pub test_div_by: int,
    pub on_true: nat,
    pub on_false: nat,
    pub inspections: nat,
}

/// How the worry is brought down after an inspection: to a third, or to what is left by
/// a number.
#[derive(Debug, Clone, Copy, PartialEq, Eq, Structural)]
pub enum Relief {
    Third,
    Modulo(i64),
}

/// The worry after the operation.
pub open spec fn worried(op: Operator, item: int) -> int {
    match op {
        Operator::Add(Operand::Old) => item + item,
        Operator::Add(Operand::Value(v)) => item + v,
        Operator::Multiply(Operand::Old) => item * item,
        Operator::Multiply(Operand::Value(v)) => item * v,
    }
}

/// The worry after the relief.
pub open spec fn relieved(relief: Relief, worry: int) -> int {
    match relief {
        Relief::Third => quotient(worry, 3),
        Relief::Modulo(f) => remainder(worry, f as int),
    }
}

/// The monkey to which `m` throws an item of worry `worry`.
pub open spec fn target(m: MonkeyView, worry: int) -> nat {
    if divides(m.test_div_by, worry) {
        m.on_true
    } else {
        m.on_false
    }
}

/// The items of a list as numbers.
pub open spec fn ints(v: Seq<i64>) -> Seq<int> {
    Seq::new(v.len(), |i: int| v[i] as int)
}

impl View for Monkey {
    type V = MonkeyView;

    closed spec fn view(&self) -> MonkeyView {
        MonkeyView {
            items: ints(self.items@),
            operation: self.operation,
            test_div_by: self.test_div_by as int,
            on_true: self.on_true as nat,
            on_false: self.on_false as nat,
            inspections: self.num_inspections as nat,
        }
    }
}

/// The operation that the two parts of an expression write: `old +` or `old *`, and
/// `old` or a number.
pub open spec fn operator_of(op: Seq<char>, val: Seq<char>) -> Option<Operator> {
    let operand = if val == "old"@ {
        Some(Operand::Old)
    } else {
        match parse_i64(val) {
            Some(v) => Some(Operand::Value(v)),
            None => None,
        }
    };
    match operand {
        Some(o) => if op == "old +"@ {
            Some(Operator::Add(o))
        } else if op == "old *"@ {
            Some(Operator::Multiply(o))
        } else {
            None
        },
        None => None,
    }
}

/// The numbers that a list written with `, ` between them holds.
pub open spec fn items_of(s: Seq<char>) -> Option<Seq<int>> {
    let parts = split(s, ", "@);
    if forall|i: int| 0 <= i < parts.len() ==> parse_i64(#[trigger] parts[i]) is Some {
        Some(Seq::new(parts.len(), |i: int| parse_i64(parts[i]).unwrap() as int))
    } else {
        None
    }
}

/// What follows `prefix` on a line, the white space around the line left out.
pub open spec fn after_label(line: Seq<char>, prefix: Seq<char>) -> Option<Seq<char>> {
    strip_prefix(trim(line), prefix)
}

/// The monkey that a part of the text writes. Its first line is not read; the five
/// lines after it hold the items, the operation, the test and the two targets.
pub open spec fn monkey_of(chunk: Seq<char>) -> Option<MonkeyView> {
    let ls = lines(trim(chunk));
    if ls.len() >= 6 {
        match (
            after_label(ls[1], "Starting items: "@),
            after_label(ls[2], "Operation: new = "@),
            after_label(ls[3], "Test: divisible by "@),
            after_label(ls[4], "If true: throw to monkey "@),
            after_label(ls[5], "If false: throw to monkey "@),
        ) {
            (Some(items), Some(expr), Some(test), Some(yes), Some(no)) => match (
                items_of(items),
                rsplit_once(expr, ' '),
                parse_i64(test),
                parse_usize(yes),
                parse_usize(no),
            ) {
                (Some(items), Some((op, val)), Some(d), Some(t), Some(f)) => match operator_of(
                    op,
                    val,
                ) {
                    Some(operation) => Some(
                        MonkeyView {
                            items,
                            operation,
                            test_div_by: d as int,
                            on_true: t as nat,
                            on_false: f as nat,
                            inspections: 0,
                        },
                    ),
                    None => None,
                },
                _ => None,
            },
            _ => None,
        }
    } else {
        None
    }
}

/// The worry after the operation, or `None` where it is no number of an `i64`.
pub fn operate(op: &Operator, item: i64) -> (r: Option<i64>)
    ensures
        r is Some <==> i64::MIN <= worried(*op, item as int) <= i64::MAX,
        r is Some ==> r.unwrap() == worried(*op, item as int),
{
    let wide: i128 = match op {
        Operator::Add(o) => match o {
            Operand::Old => item as i128 + item as i128,
            Operand::Value(v) => item as i128 + *v as i128,
        },
        Operator::Multiply(o) => {
            let other = match o {
                Operand::Old => item,
                Operand::Value(v) => *v,
            };
            assert(-0x4000_0000_0000_0000_0000_0000_0000_0000 <= (item as int) * (other as int)
                <= 0x4000_0000_0000_0000_0000_0000_0000_0000) by (nonlinear_arith)
                requires
                    -0x8000_0000_0000_0000 <= item <= 0x7fff_ffff_ffff_ffff,
                    -0x8000_0000_0000_0000 <= other <= 0x7fff_ffff_ffff_ffff,
            ;
            (item as i128) * (other as i128)
        },
    };
    if wide < -0x8000_0000_0000_0000 || wide > 0x7fff_ffff_ffff_ffff {
        None
    } else {
        Some(wide as i64)
    }
}

impl Monkey {
    /// A monkey that has inspected nothing yet.
    pub fn new(
        items: Vec<i64>,
        operation: Operator,
        test_div_by: i64,
        on_true: usize,
        on_false: usize,
    ) -> (m: Monkey)
        ensures
            m@ == (MonkeyView {
                items: ints(items@),
                operation,
                test_div_by: test_div_by as int,
                on_true: on_true as nat,
                on_false: on_false as nat,
                inspections: 0,
            }),
    {
        let mut queue: VecDeque<i64> = VecDeque::new();
        let mut i: usize = 0;
        while i < items.len()
            invariant
                i <= items.len(),
                queue@ == items@.take(i as int),
            decreases items.len() - i,
        {
            queue.push_back(items[i]);
            assert(items@.take(i + 1) =~= items@.take(i as int).push(items@[i as int]));
            i += 1;
        }
        assert(items@.take(i as int) =~= items@);
        Monkey { items: queue, operation, test_div_by, on_true, on_false, num_inspections: 0 }
    }

    /// The number of items that the monkey has inspected.
    pub fn inspections(&self) -> (n: usize)
        ensures
            n == self@.inspections,
    {
        self.num_inspections
    }

    /// The items that the monkey holds.
    pub fn held(&self) -> (v: Vec<i64>)
        ensures
            ints(v@) == self@.items,
    {
        let mut v: Vec<i64> = Vec::new();
        let mut i: usize = 0;
        while i < self.items.len()
            invariant
                i <= self.items.len(),
                v@ == self.items@.take(i as int),
            decreases self.items.len() - i,
        {
            v.push(self.items[i]);
            assert(self.items@.take(i + 1) =~= self.items@.take(i as int).push(
                self.items@[i as int],
            ));
            i += 1;
        }
        assert(self.items@.take(i as int) =~= self.items@);
        v
    }

    /// The number by which the monkey tests.
    pub fn divisor(&self) -> (d: i64)
        ensures
            d == self@.test_div_by,
    {
        self.test_div_by
    }

    /// Gives the monkey an item.
    pub fn catch(&mut self, item: i64)
        ensures
            final(self)@ == (MonkeyView { items: old(self)@.items.push(item as int), ..old(self)@ }),
    {
        let ghost before = self.items@;
        self.items.push_back(item);
        assert(ints(self.items@) =~= ints(before).push(item as int));
    }

    /// Reads a monkey.
    pub fn from_str(s: &str) -> (r: Result<Monkey, ()>)
        ensures
            r is Ok <==> monkey_of(s@) is Some,
            r is Ok ==> Some(r.unwrap()@) == monkey_of(s@),
    {
        let all = chars_of(s);
        match Monkey::from_chars(&all) {
            Some(m) => Ok(m),
            None => Err(()),
        }
    }

    /// Reads a monkey from the characters of its part of the text.
    pub fn from_chars(s: &Vec<char>) -> (r: Option<Monkey>)
        ensures
            r is Some <==> monkey_of(s@) is Some,
            r is Some ==> Some(r.unwrap()@) == monkey_of(s@),
    {
        let text = trimmed(s);
        let all = lines_of(&text);
        if all.len() < 6 {
            return None;
        }
        let ghost ls = views(all@);
        assert(ls[1] == all@[1]@ && ls[2] == all@[2]@ && ls[3] == all@[3]@ && ls[4] == all@[4]@
            && ls[5] == all@[5]@);
        let items_str = match without_prefix(&trimmed(&all[1]), "Starting items: ") {
            Some(t) => t,
            None => {
                return None;
            },
        };
        let expr_str = match without_prefix(&trimmed(&all[2]), "Operation: new = ") {
            Some(t) => t,
            None => {
                return None;
            },
        };
        let div_str = match without_prefix(&trimmed(&all[3]), "Test: divisible by ") {
            Some(t) => t,
            None => {
                return None;
            },
        };
        let true_str = match without_prefix(&trimmed(&all[4]), "If true: throw to monkey ") {
            Some(t) => t,
            None => {
                return None;
            },
        };
        let false_str = match without_prefix(&trimmed(&all[5]), "If false: throw to monkey ") {
            Some(t) => t,
            None => {
                return None;
            },
        };
        let items = match parse_items(&items_str) {
            Some(items) => items,
            None => {
                return None;
            },
        };
        let (op_str, val_str) = match rsplit_once_char(&expr_str, ' ') {
            Some(parts) => parts,
            None => {
                return None;
            },
        };
        let operand = if is_word(&val_str, "old") {
            Operand::Old
        } else {
            match to_i64(&val_str) {
                Some(v) => Operand::Value(v),
                None => {
                    return None;
                },
            }
        };
        let operation = if is_word(&op_str, "old +") {
            Operator::Add(operand)
        } else if is_word(&op_str, "old *") {
            Operator::Multiply(operand)
        } else {
            return None;
        };
        let test_div_by = match to_i64(&div_str) {
            Some(d) => d,
            None => {
                return None;
            },
        };
        let on_true = match to_usize(&true_str) {
            Some(t) => t,
            None => {
                return None;
            },
        };
        let on_false = match to_usize(&false_str) {
            Some(f) => f,
            None => {
                return None;
            },
        };
        Some(Monkey::new(items, operation, test_div_by, on_true, on_false))
    }

    /// Whether the monkey can take its turn: it tests by a number other than 0, the
    /// worry about each of its items after the operation is a number of an `i64`, and so
    /// is the number of its inspections after the turn.
    pub open spec fn can_turn(m: MonkeyView) -> bool {
        &&& m.test_div_by != 0
        &&& m.inspections + m.items.len() <= usize::MAX
        &&& forall|k: int|
            0 <= k < m.items.len() ==> i64::MIN <= worried(m.operation, #[trigger] m.items[k])
                <= i64::MAX
    }

    /// The turn of the monkey: it inspects its items in order, and throws each to the
    /// monkey that the test of the managed worry names. `manage` brings the worry down
    /// after the operation.
    pub fn turn<F: Fn(i64) -> i64>(&mut self, manage: F) -> (throws: Vec<(usize, i64)>)
        requires
            Monkey::can_turn(old(self)@),
            forall|w: i64| call_requires(manage, (w,)),
        ensures
            final(self)@ == (MonkeyView {
                items: Seq::empty(),
                inspections: old(self)@.inspections + old(self)@.items.len(),
                ..old(self)@
            }),
            throws@.len() == old(self)@.items.len(),
            forall|k: int|
                0 <= k < throws@.len() ==> call_ensures(
                    manage,
                    (worried(old(self)@.operation, old(self)@.items[k]) as i64,),
                    (#[trigger] throws@[k]).1,
                ) && throws@[k].0 == target(old(self)@, throws@[k].1 as int),
    {
        let ghost start = self@;
        let mut throws: Vec<(usize, i64)> = Vec::new();
        while self.items.len() > 0
            invariant
                Monkey::can_turn(start),
                start == old(self)@,
                forall|w: i64| call_requires(manage, (w,)),
                self@.operation == start.operation,
                self@.test_div_by == start.test_div_by,
                self@.on_true == start.on_true,
                self@.on_false == start.on_false,
                throws@.len() + self@.items.len() == start.items.len(),
                self@.items == start.items.skip(throws@.len() as int),
                self@.inspections == start.inspections + throws@.len(),
                forall|k: int|
                    0 <= k < throws@.len() ==> call_ensures(
                        manage,
                        (worried(start.operation, start.items[k]) as i64,),
                        (#[trigger] throws@[k]).1,
                    ) && throws@[k].0 == target(start, throws@[k].1 as int),
            decreases self.items.len(),
        {
            let ghost done = throws@.len() as int;
            let ghost before = self.items@;
            let item = match self.items.pop_front() {
                Some(item) => item,
                None => unreached(),
            };
            assert(ints(before)[0] == item);
            assert(start.items.skip(done)[0] == start.items[done]);
            assert(self.items@ =~= before.skip(1));
            assert(ints(before.skip(1)) =~= ints(before).skip(1));
            assert(start.items.skip(done).skip(1) =~= start.items.skip(done + 1));
            let new = match operate(&self.operation, item) {
                Some(new) => new,
                None => unreached(),
            };
            let new = manage(new);
            if is_multiple(new, self.test_div_by) {
                throws.push((self.on_true, new));
            } else {
                throws.push((self.on_false, new));
            }
            self.num_inspections += 1;
        }
        assert(self@.items =~= Seq::<int>::empty());
        throws
    }
}

/// The numbers that a list written with `, ` between them holds.
pub fn parse_items(s: &Vec<char>) -> (r: Option<Vec<i64>>)
    ensures
        r is Some <==> items_of(s@) is Some,
        r is Some ==> Some(ints(r.unwrap()@)) == items_of(s@),
{
    let sep = chars_of(", ");
    let parts = split_on_comma(s, &sep);
    let mut items: Vec<i64> = Vec::new();
    let mut i: usize = 0;
    while i < parts.len()
        invariant
            i <= parts.len(),
            views(parts@) == split(s@, ", "@),
            items.len() == i,
            forall|k: int| 0 <= k < i ==> parse_i64(#[trigger] views(parts@)[k]) == Some(items@[k]),
        decreases parts.len() - i,
    {
        assert(views(parts@)[i as int] == parts@[i as int]@);
        match to_i64(&parts[i]) {
            Some(n) => {
                items.push(n);
            },
            None => {
                return None;
            },
        }
        i += 1;
    }
    proof {
        assert(items_of(s@) is Some);
        assert(ints(items@) =~= items_of(s@).unwrap());
    }
    Some(items)
}

/// Cuts `v` at every place where `sep` stands.
fn split_on_comma(v: &Vec<char>, sep: &Vec<char>) -> (parts: Vec<Vec<char>>)
    requires
        sep@ == ", "@,
    ensures
        views(parts@) == split(v@, ", "@),
{
    proof {
        reveal_strlit(", ");
    }
    split_on(v, sep)
}

/// The monkeys of a list as values.
pub open spec fn troop(v: Seq<Monkey>) -> Seq<MonkeyView> {
    Seq::new(v.len(), |i: int| v[i]@)
}

/// The monkeys that a text writes, each in a part of its own between empty lines.
pub open spec fn troop_of(s: Seq<char>) -> Option<Seq<MonkeyView>> {
    let parts = split(trim(s), seq!['\n', '\n']);
    if forall|i: int| 0 <= i < parts.len() ==> monkey_of(#[trigger] parts[i]) is Some {
        Some(Seq::new(parts.len(), |i: int| monkey_of(parts[i]).unwrap()))
    } else {
        None
    }
}

/// The product of the numbers by which the first `n` monkeys test.
pub open spec fn factor_upto(ms: Seq<MonkeyView>, n: int) -> int
    decreases n,
{
    if n <= 0 {
        1
    } else {
        factor_upto(ms, n - 1) * ms[n - 1].test_div_by
    }
}

/// Whether the product of the test numbers is a number of an `i64`, and so is the
/// product of the first of them, however many one takes.
pub open spec fn factor_fits(ms: Seq<MonkeyView>) -> bool {
    forall|n: int| 0 <= n <= ms.len() ==> i64::MIN <= #[trigger] factor_upto(ms, n) <= i64::MAX
}

/// The relief in a run of `rounds` rounds: a third in up to twenty rounds, and what is
/// left by the product of the test numbers in more.
pub open spec fn relief_for(ms: Seq<MonkeyView>, rounds: nat) -> Relief {
    if rounds > 20 {
        Relief::Modulo(factor_upto(ms, ms.len() as int) as i64)
    } else {
        Relief::Third
    }
}

/// The monkey to which `m` throws its `k`-th item, and the worry about the item then.
pub open spec fn thrown(m: MonkeyView, relief: Relief, k: int) -> (nat, int) {
    let w = relieved(relief, worried(m.operation, m.items[k]));
    (target(m, w), w)
}

/// The monkeys after the first `n` items of `from` have reached the monkeys to which
/// they were thrown.
pub open spec fn deliver(ms: Seq<MonkeyView>, from: MonkeyView, relief: Relief, n: int) -> Seq<
    MonkeyView,
>
    decreases n,
{
    if n <= 0 {
        ms
    } else {
        let before = deliver(ms, from, relief, n - 1);
        let t = thrown(from, relief, n - 1);
        before.update(
            t.0 as int,
            MonkeyView { items: before[t.0 as int].items.push(t.1), ..before[t.0 as int] },
        )
    }
}

/// Whether the relief can be computed.
pub open spec fn relief_ok(relief: Relief) -> bool {
    match relief {
        Relief::Third => true,
        Relief::Modulo(f) => f != 0,
    }
}

/// Whether monkey `i` can take its turn and throws to monkeys of the list only.
pub open spec fn turn_ok(ms: Seq<MonkeyView>, i: int, relief: Relief) -> bool {
    &&& Monkey::can_turn(ms[i])
    &&& forall|k: int| 0 <= k < ms[i].items.len() ==> (#[trigger] thrown(ms[i], relief, k)).0 < ms.len()
}

/// The monkeys after the turn of monkey `i`.
pub open spec fn after_turn(ms: Seq<MonkeyView>, i: int, relief: Relief) -> Seq<MonkeyView> {
    let m = ms[i];
    let emptied = ms.update(
        i,
        MonkeyView {
            items: Seq::empty(),
            inspections: m.inspections + m.items.len(),
            ..m
        },
    );
    deliver(emptied, m, relief, m.items.len() as int)
}

/// The monkeys after the turns of the first `n` of them, or `None` where one of them
/// cannot take its turn.
pub open spec fn after_turns(ms: Seq<MonkeyView>, n: int, relief: Relief) -> Option<
    Seq<MonkeyView>,
>
    decreases n,
{
    if n <= 0 {
        Some(ms)
    } else {
        match after_turns(ms, n - 1, relief) {
            Some(before) => if before.len() == ms.len() && turn_ok(before, n - 1, relief) {
                Some(after_turn(before, n - 1, relief))
            } else {
                None
            },
            None => None,
        }
    }
}

/// The monkeys after `rounds` rounds, in each of which every monkey takes its turn.
pub open spec fn after_rounds(ms: Seq<MonkeyView>, rounds: nat, relief: Relief) -> Option<
    Seq<MonkeyView>,
>
    decreases rounds,
{
    if rounds == 0 {
        Some(ms)
    } else {
        match after_rounds(ms, (rounds - 1) as nat, relief) {
            Some(before) => if before.len() == ms.len() {
                after_turns(before, before.len() as int, relief)
            } else {
                None
            },
            None => None,
        }
    }
}

/// The numbers of inspections of the monkeys.
pub open spec fn inspections_of(ms: Seq<MonkeyView>) -> Seq<int> {
    Seq::new(ms.len(), |i: int| ms[i].inspections as int)
}

/// The product of the two greatest numbers of `v`.
pub open spec fn top_two(v: Seq<int>) -> int {
    let rest = v.remove(argmax(v));
    v[argmax(v)] * rest[argmax(rest)]
}

/// The level of monkey business after `rounds` rounds: the product of the two greatest
/// numbers of inspections. `None` where the text writes no monkeys or fewer than two,
/// the product of the test numbers is no number of an `i64`, a monkey cannot take its
/// turn, or the level is more than a `usize` holds.
pub open spec fn business(s: Seq<char>, rounds: nat) -> Option<int> {
    match troop_of(s) {
        Some(ms) => if factor_fits(ms) && relief_ok(relief_for(ms, rounds)) {
            match after_rounds(ms, rounds, relief_for(ms, rounds)) {
                Some(after) => if after.len() >= 2 && top_two(inspections_of(after))
                    <= usize::MAX {
                    Some(top_two(inspections_of(after)))
                } else {
                    None
                },
                None => None,
            }
        } else {
            None
        },
        None => None,
    }
}

/// The worry after the relief.
pub fn relieve(relief: Relief, worry: i64) -> (r: i64)
    requires
        relief_ok(relief),
    ensures
        r == relieved(relief, worry as int),
{
    match relief {
        Relief::Third => trunc_div(worry, 3),
        Relief::Modulo(f) => trunc_rem(worry, f),
    }
}

/// Whether monkey `i` can take its turn: the test number is not 0, and no worry after
/// the operation and no count of inspections leaves the numbers of the machine.
pub fn ready(m: &Monkey) -> (b: bool)
    ensures
        b == Monkey::can_turn(m@),
{
    if m.test_div_by == 0 {
        return false;
    }
    if m.items.len() > usize::MAX - m.num_inspections {
        return false;
    }
    let mut k: usize = 0;
    while k < m.items.len()
        invariant
            k <= m.items.len(),
            forall|j: int|
                0 <= j < k ==> i64::MIN <= worried(m@.operation, #[trigger] m@.items[j])
                    <= i64::MAX,
        decreases m.items.len() - k,
    {
        assert(m@.items[k as int] == m.items@[k as int]);
        if operate(&m.operation, m.items[k]).is_none() {
            return false;
        }
        k += 1;
    }
    true
}

/// The turn of monkey `i`: it throws its items to the others. Gives `false`, and
/// leaves the monkeys in no stated order, where the turn cannot be taken.
pub fn take_turn(monkeys: &mut Vec<Monkey>, i: usize, relief: Relief) -> (ok: bool)
    requires
        i < old(monkeys).len(),
        relief_ok(relief),
    ensures
        final(monkeys).len() == old(monkeys).len(),
        ok <==> turn_ok(troop(old(monkeys)@), i as int, relief),
        ok ==> troop(final(monkeys)@) == after_turn(troop(old(monkeys)@), i as int, relief),
{
    let ghost start = troop(monkeys@);
    let ghost m = monkeys@[i as int]@;
    if !ready(&monkeys[i]) {
        return false;
    }
    let manage = |worry: i64| -> (r: i64)
        ensures
            r == relieved(relief, worry as int),
        { relieve(relief, worry) };
    let moves = monkeys[i].turn(manage);
    let ghost emptied = troop(monkeys@);
    proof {
        assert(emptied =~= start.update(
            i as int,
            MonkeyView {
                items: Seq::empty(),
                inspections: m.inspections + m.items.len(),
                ..m
            },
        ));
        assert forall|k: int| 0 <= k < moves@.len() implies (moves@[k].0 as nat, moves@[k].1 as int)
            == #[trigger] thrown(m, relief, k) by {
            assert(call_ensures(manage, (worried(m.operation, m.items[k]) as i64,), moves@[k].1));
        }
    }
    let n = monkeys.len();
    let mut k: usize = 0;
    while k < moves.len()
        invariant
            k <= moves.len(),
            monkeys.len() == n,
            n == start.len(),
            moves@.len() == m.items.len(),
            start == troop(old(monkeys)@),
            m == start[i as int],
            Monkey::can_turn(m),
            forall|j: int|
                0 <= j < moves@.len() ==> (moves@[j].0 as nat, moves@[j].1 as int) == #[trigger] thrown(
                    m,
                    relief,
                    j,
                ),
            forall|j: int| 0 <= j < k ==> (#[trigger] thrown(m, relief, j)).0 < n,
            troop(monkeys@) == deliver(emptied, m, relief, k as int),
        decreases moves.len() - k,
    {
        let (to, item) = moves[k];
        assert((to as nat, item as int) == thrown(m, relief, k as int));
        if to >= n {
            return false;
        }
        let ghost before = troop(monkeys@);
        monkeys[to].catch(item);
        assert(troop(monkeys@) =~= before.update(
            to as int,
            MonkeyView { items: before[to as int].items.push(item as int), ..before[to as int] },
        ));
        k += 1;
    }
    true
}

/// The product of the numbers by which the monkeys test, or `None` where it is no
/// number of an `i64`.
pub fn test_factor(monkeys: &Vec<Monkey>) -> (r: Option<i64>)
    ensures
        r is Some <==> factor_fits(troop(monkeys@)),
        r is Some ==> r.unwrap() == factor_upto(troop(monkeys@), monkeys.len() as int),
{
    let ghost ms = troop(monkeys@);
    let mut factor: i64 = 1;
    let mut i: usize = 0;
    while i < monkeys.len()
        invariant
            i <= monkeys.len(),
            ms == troop(monkeys@),
            factor == factor_upto(ms, i as int),
            forall|n: int| 0 <= n <= i ==> i64::MIN <= #[trigger] factor_upto(ms, n) <= i64::MAX,
        decreases monkeys.len() - i,
    {
        let d = monkeys[i].divisor();
        assert(ms[i as int].test_div_by == d);
        assert(-0x4000_0000_0000_0000_0000_0000_0000_0000 <= (factor as int) * (d as int)
            <= 0x4000_0000_0000_0000_0000_0000_0000_0000) by (nonlinear_arith)
            requires
                -0x8000_0000_0000_0000 <= factor <= 0x7fff_ffff_ffff_ffff,
                -0x8000_0000_0000_0000 <= d <= 0x7fff_ffff_ffff_ffff,
        ;
        let wide: i128 = (factor as i128) * (d as i128);
        assert(wide == factor_upto(ms, i + 1));
        if wide < -0x8000_0000_0000_0000 || wide > 0x7fff_ffff_ffff_ffff {
            return None;
        }
        factor = wide as i64;
        i += 1;
    }
    Some(factor)
}

/// Reads the monkeys of `s`.
pub fn read_monkeys(s: &str) -> (r: Option<Vec<Monkey>>)
    ensures
        r is Some <==> troop_of(s@) is Some,
        r is Some ==> Some(troop(r.unwrap()@)) == troop_of(s@),
{
    let all = chars_of(s);
    let text = trimmed(&all);
    let mut gap: Vec<char> = Vec::new();
    gap.push('\n');
    gap.push('\n');
    assert(gap@ =~= seq!['\n', '\n']);
    let parts = split_on(&text, &gap);
    let ghost rows = views(parts@);
    let mut monkeys: Vec<Monkey> = Vec::new();
    let mut i: usize = 0;
    while i < parts.len()
        invariant
            i <= parts.len(),
            rows == views(parts@),
            rows == split(trim(s@), seq!['\n', '\n']),
            monkeys.len() == i,
            forall|k: int| 0 <= k < i ==> monkey_of(#[trigger] rows[k]) == Some(monkeys@[k]@),
        decreases parts.len() - i,
    {
        assert(rows[i as int] == parts@[i as int]@);
        match Monkey::from_chars(&parts[i]) {
            Some(m) => {
                monkeys.push(m);
            },
            None => {
                return None;
            },
        }
        i += 1;
    }
    proof {
        assert(troop_of(s@) is Some);
        assert(troop(monkeys@) =~= troop_of(s@).unwrap());
    }
    Some(monkeys)
}

/// The place of the greatest number of `v`, the first of them if there are several.
fn index_of_max(v: &Vec<usize>) -> (at: usize)
    requires
        v.len() > 0,
    ensures
        at == argmax(counts(v@)),
        at < v.len(),
{
    let mut at: usize = 0;
    let mut i: usize = 1;
    assert(counts(v@).take(1).drop_last() =~= Seq::<int>::empty());
    while i < v.len()
        invariant
            1 <= i <= v.len(),
            at < i,
            at == argmax(counts(v@).take(i as int)),
        decreases v.len() - i,
    {
        assert(counts(v@).take(i + 1).drop_last() =~= counts(v@).take(i as int));
        if v[i] > v[at] {
            at = i;
        }
        i += 1;
    }
    assert(counts(v@).take(i as int) =~= counts(v@));
    at
}

/// The numbers of a list of counts.
pub open spec fn counts(v: Seq<usize>) -> Seq<int> {
    Seq::new(v.len(), |i: int| v[i] as int)
}

/// The level of monkey business after `rounds` rounds, or `None` where there is none.
pub fn try_monkey_business_level(s: &str, rounds: usize) -> (r: Option<usize>)
    ensures
        r is Some <==> business(s@, rounds as nat) is Some,
        r is Some ==> r.unwrap() == business(s@, rounds as nat).unwrap(),
{
    let mut monkeys = match read_monkeys(s) {
        Some(monkeys) => monkeys,
        None => {
            return None;
        },
    };
    let ghost ms = troop(monkeys@);
    let factor = match test_factor(&monkeys) {
        Some(factor) => factor,
        None => {
            return None;
        },
    };
    let relief = if rounds > 20 {
        Relief::Modulo(factor)
    } else {
        Relief::Third
    };
    assert(relief == relief_for(ms, rounds as nat));
    if rounds > 20 && factor == 0 {
        return None;
    }
    let n = monkeys.len();
    let mut round: usize = 0;
    while round < rounds
        invariant
            round <= rounds,
            monkeys.len() == n,
            n == ms.len(),
            Some(ms) == troop_of(s@),
            factor_fits(ms),
            relief == relief_for(ms, rounds as nat),
            relief_ok(relief),
            after_rounds(ms, round as nat, relief) == Some(troop(monkeys@)),
        decreases rounds - round,
    {
        let ghost before = troop(monkeys@);
        let mut i: usize = 0;
        while i < n
            invariant
                i <= n,
                monkeys.len() == n,
                n == ms.len(),
                n == before.len(),
                round < rounds,
                Some(ms) == troop_of(s@),
                factor_fits(ms),
                relief == relief_for(ms, rounds as nat),
                relief_ok(relief),
                after_rounds(ms, round as nat, relief) == Some(before),
                after_turns(before, i as int, relief) == Some(troop(monkeys@)),
            decreases n - i,
        {
            if !take_turn(&mut monkeys, i, relief) {
                proof {
                    assert(after_turns(before, i + 1, relief) is None);
                    lemma_turns_fail(before, i + 1, n as int, relief);
                    assert(after_rounds(ms, (round + 1) as nat, relief) is None);
                    lemma_rounds_fail(ms, (round + 1) as nat, rounds as nat, relief);
                }
                return None;
            }
            i += 1;
        }
        round += 1;
    }
    if n < 2 {
        return None;
    }
    let mut inspections: Vec<usize> = Vec::new();
    let mut i: usize = 0;
    while i < n
        invariant
            i <= n,
            monkeys.len() == n,
            inspections.len() == i,
            forall|k: int| 0 <= k < i ==> inspections@[k] == monkeys@[k]@.inspections,
        decreases n - i,
    {
        inspections.push(monkeys[i].inspections());
        i += 1;
    }
    let ghost all = counts(inspections@);
    assert(all =~= inspections_of(troop(monkeys@)));
    let first = index_of_max(&inspections);
    let most = inspections[first];
    inspections.remove(first);
    assert(counts(inspections@) =~= all.remove(first as int));
    let second = index_of_max(&inspections);
    let next = inspections[second];
    assert(most * next <= 0xffff_ffff_ffff_ffff_ffff_ffff_ffff_ffff) by (nonlinear_arith)
        requires
            0 <= most <= 0xffff_ffff_ffff_ffff,
            0 <= next <= 0xffff_ffff_ffff_ffff,
    ;
    let level: u128 = (most as u128) * (next as u128);
    assert(level == top_two(all));
    if level > usize::MAX as u128 {
        None
    } else {
        Some(level as usize)
    }
}

/// Where the first monkeys cannot take their turns, all of them cannot.
pub proof fn lemma_turns_fail(ms: Seq<MonkeyView>, m: int, n: int, relief: Relief)
    requires
        m <= n,
        after_turns(ms, m, relief) is None,
    ensures
        after_turns(ms, n, relief) is None,
    decreases n - m,
{
    if m < n {
        lemma_turns_fail(ms, m, n - 1, relief);
    }
}

/// Where fewer rounds cannot be played, more cannot.
pub proof fn lemma_rounds_fail(ms: Seq<MonkeyView>, m: nat, n: nat, relief: Relief)
    requires
        m <= n,
        after_rounds(ms, m, relief) is None,
    ensures
        after_rounds(ms, n, relief) is None,
    decreases n - m,
{
    if m < n {
        lemma_rounds_fail(ms, m, (n - 1) as nat, relief);
    }
}

/// The level of monkey business after `rounds` rounds: the product of the two greatest
/// numbers of inspections.
pub fn monkey_business_level(s: &str, rounds: usize) -> (level: usize)
    requires
        business(s@, rounds as nat) is Some,
    ensures
        level == business(s@, rounds as nat).unwrap(),
{
    match try_monkey_business_level(s, rounds) {
        Some(level) => level,
        None => unreached(),
    }
}

/// The level of monkey business after 20 rounds.
pub fn monkey_business_level_p1(s: &str) -> (level: usize)
    requires
        business(s@, 20) is Some,
    ensures
        level == business(s@, 20).unwrap(),
{
    monkey_business_level(s, 20)
}

/// The level of monkey business after 10000 rounds.
pub fn monkey_business_level_p2(s: &str) -> (level: usize)
    requires
        business(s@, 10000) is Some,
    ensures
        level == business(s@, 10000).unwrap(),
{
    monkey_business_level(s, 10000)
}

} // verus!
