//! Calories carried by elves: groups of numbers, one to a line, with an empty line
//! between two groups.

use crate::text::{
    chars_of, parse_i64, split, split_char, split_on, to_i64, trim, trimmed, views,
};
use vstd::pervasive::unreached;
use vstd::prelude::*;

verus! {

/// What a line adds to the total of its group: the number it holds between the white
/// space around it, and nothing if it holds none.
pub open spec fn item_value(line: Seq<char>) -> int {
    match parse_i64(trim(line)) {
        Some(v) => v as int,
        None => 0,
    }
}

/// The sum of what the lines add.
pub open spec fn sum_items(lines: Seq<Seq<char>>) -> int
    decreases lines.len(),
{
    if lines.len() == 0 {
        0
    } else {
        sum_items(lines.drop_last()) + item_value(lines.last())
    }
}

/// The total of one group.
pub open spec fn elf_total(elf: Seq<char>) -> int {
    sum_items(split(trim(elf), seq!['\n']))
}

/// The totals of the groups of `s`, in order.
pub open spec fn totals(s: Seq<char>) -> Seq<int> {
    let elves = split(trim(s), seq!['\n', '\n']);
    Seq::new(elves.len(), |i: int| elf_total(elves[i]))
}

/// The place of the greatest number of `s`, the first of them if there are several.
pub open spec fn argmax(s: Seq<int>) -> int
    decreases s.len(),
{
    if s.len() <= 1 {
        0
    } else {
        let j = argmax(s.drop_last());
        if s.last() > s[j] {
            s.len() - 1
        } else {
            j
        }
    }
}

/// The sum of the `k` greatest numbers of `s`, or of all where there are fewer.
pub open spec fn sum_largest(s: Seq<int>, k: nat) -> int
    decreases k,
{
    if k == 0 || s.len() == 0 {
        0
    } else {
        s[argmax(s)] + sum_largest(s.remove(argmax(s)), (k - 1) as nat)
    }
}

/// The number at `argmax` is in the sequence and no number of it is greater.
pub proof fn lemma_argmax(s: Seq<int>)
    requires
        s.len() > 0,
    ensures
        0 <= argmax(s) < s.len(),
        forall|i: int| 0 <= i < s.len() ==> (#[trigger] s[i]) <= s[argmax(s)],
        forall|i: int| 0 <= i < argmax(s) ==> (#[trigger] s[i]) < s[argmax(s)],
    decreases s.len(),
{
    if s.len() > 1 {
        lemma_argmax(s.drop_last());
        let j = argmax(s.drop_last());
        assert(s.drop_last()[j] == s[j]);
        assert forall|i: int| 0 <= i < s.len() implies (#[trigger] s[i]) <= s[argmax(s)] by {
            if i < s.len() - 1 {
                assert(s.drop_last()[i] == s[i]);
            }
        }
        assert forall|i: int| 0 <= i < argmax(s) implies (#[trigger] s[i]) < s[argmax(s)] by {
            if i < s.len() - 1 {
                assert(s.drop_last()[i] == s[i]);
            }
        }
    }
}

/// Whether every total of `s` is a number that an `i64` holds.
pub open spec fn totals_fit(s: Seq<char>) -> bool {
    forall|i: int|
        0 <= i < totals(s).len() ==> i64::MIN <= (#[trigger] totals(s)[i]) <= i64::MAX
}

/// The values of a list of numbers.
pub open spec fn ints(v: Seq<i64>) -> Seq<int> {
    Seq::new(v.len(), |i: int| v[i] as int)
}

/// The total of one group.
fn total_of(elf: &Vec<char>) -> (total: i128)
    ensures
        total == elf_total(elf@),
        -0x8000_0000_0000_0000 * elf@.len() - 0x8000_0000_0000_0000 <= total
            <= 0x8000_0000_0000_0000 * elf@.len() + 0x8000_0000_0000_0000,
{
    let text = trimmed(elf);
    let lines = split_char(&text, '\n');
    let mut total: i128 = 0;
    let mut i: usize = 0;
    assert(views(lines@).take(0) =~= Seq::<Seq<char>>::empty());
    while i < lines.len()
        invariant
            i <= lines.len(),
            total == sum_items(views(lines@).take(i as int)),
            -0x8000_0000_0000_0000 * i <= total <= 0x8000_0000_0000_0000 * i,
        decreases lines.len() - i,
    {
        let item = trimmed(&lines[i]);
        assert(views(lines@)[i as int] == lines@[i as int]@);
        assert(views(lines@).take(i + 1).drop_last() =~= views(lines@).take(i as int));
        assert(views(lines@).take(i + 1).last() == lines@[i as int]@);
        match to_i64(&item) {
            Some(v) => {
                total = total + v as i128;
            },
            None => {},
        }
        i += 1;
    }
    assert(views(lines@).take(i as int) =~= views(lines@));
    proof {
        crate::text::lemma_split_len(text@, seq!['\n']);
        crate::text::lemma_trim_len(elf@);
        assert(0x8000_0000_0000_0000 * i <= 0x8000_0000_0000_0000 * (elf@.len() + 1))
            by (nonlinear_arith)
            requires
                i <= elf@.len() + 1,
        ;
    }
    total
}

/// The totals of the groups of `s`, or `None` where one of them is no number that an
/// `i64` holds.
pub fn calorie_totals(s: &str) -> (r: Option<Vec<i64>>)
    ensures
        r is Some <==> totals_fit(s@),
        r is Some ==> ints(r.unwrap()@) == totals(s@) && r.unwrap().len() > 0,
{
    let all = chars_of(s);
    let text = trimmed(&all);
    let mut gap: Vec<char> = Vec::new();
    gap.push('\n');
    gap.push('\n');
    assert(gap@ =~= seq!['\n', '\n']);
    let elves = split_on(&text, &gap);
    let mut v: Vec<i64> = Vec::new();
    let mut i: usize = 0;
    while i < elves.len()
        invariant
            i <= elves.len(),
            views(elves@) == split(trim(s@), seq!['\n', '\n']),
            v.len() == i,
            forall|j: int| 0 <= j < i ==> v@[j] as int == totals(s@)[j],
        decreases elves.len() - i,
    {
        assert(views(elves@)[i as int] == elves@[i as int]@);
        let total = total_of(&elves[i]);
        assert(total == totals(s@)[i as int]);
        if total < -0x8000_0000_0000_0000 || total > 0x7fff_ffff_ffff_ffff {
            return None;
        }
        v.push(total as i64);
        i += 1;
    }
    assert(ints(v@) =~= totals(s@));
    assert forall|j: int| 0 <= j < totals(s@).len() implies i64::MIN <= (#[trigger] totals(
        s@,
    )[j]) <= i64::MAX by {
        assert(v@[j] as int == totals(s@)[j]);
    }
    Some(v)
}

/// The totals of the groups of `s`.
fn group_totals(s: &str) -> (v: Vec<i64>)
    requires
        totals_fit(s@),
    ensures
        ints(v@) == totals(s@),
        v.len() > 0,
{
    match calorie_totals(s) {
        Some(v) => v,
        None => unreached(),
    }
}

/// The place of the greatest number of `v`, the first of them if there are several.
fn index_of_max(v: &Vec<i64>) -> (at: usize)
    requires
        v.len() > 0,
    ensures
        at == argmax(ints(v@)),
        at < v.len(),
{
    let mut at: usize = 0;
    let mut i: usize = 1;
    assert(ints(v@).take(1).drop_last() =~= Seq::<int>::empty());
    while i < v.len()
        invariant
            1 <= i <= v.len(),
            at < i,
            at == argmax(ints(v@).take(i as int)),
        decreases v.len() - i,
    {
        assert(ints(v@).take(i + 1).drop_last() =~= ints(v@).take(i as int));
        if v[i] > v[at] {
            at = i;
        }
        i += 1;
    }
    assert(ints(v@).take(i as int) =~= ints(v@));
    at
}

/// The greatest total of calories that a group holds.
pub fn max_total_calories(s: &str) -> (most: i64)
    requires
        totals_fit(s@),
    ensures
        most == totals(s@)[argmax(totals(s@))],
        totals(s@).contains(most as int),
        forall|i: int| 0 <= i < totals(s@).len() ==> (#[trigger] totals(s@)[i]) <= most,
{
    let v = group_totals(s);
    let at = index_of_max(&v);
    proof {
        lemma_argmax(totals(s@));
        assert(ints(v@)[at as int] == totals(s@)[at as int]);
    }
    v[at]
}

/// The sum of the three greatest totals of calories, or of all where there are fewer
/// groups.
pub fn max3_total_calories(s: &str) -> (sum: i64)
    requires
        totals_fit(s@),
        i64::MIN <= sum_largest(totals(s@), 3) <= i64::MAX,
    ensures
        sum == sum_largest(totals(s@), 3),
{
    let mut v = group_totals(s);
    let mut sum: i128 = 0;
    let mut k: usize = 0;
    while k < 3 && v.len() > 0
        invariant
            k <= 3,
            sum + sum_largest(ints(v@), (3 - k) as nat) == sum_largest(totals(s@), 3),
            -0x8000_0000_0000_0000 * k <= sum <= 0x8000_0000_0000_0000 * k,
            i64::MIN <= sum_largest(totals(s@), 3) <= i64::MAX,
        decreases 3 - k,
    {
        let at = index_of_max(&v);
        let ghost before = v@;
        let top = v.remove(at);
        assert(ints(v@) =~= ints(before).remove(at as int));
        sum = sum + top as i128;
        k += 1;
    }
    sum as i64
}

/// The sum of the three greatest totals of calories, or `None` where a total or the sum
/// is no number of an `i64`.
pub fn try_max3_total_calories(s: &str) -> (r: Option<i64>)
    ensures
        r is Some <==> totals_fit(s@) && i64::MIN <= sum_largest(totals(s@), 3) <= i64::MAX,
        r is Some ==> r.unwrap() == sum_largest(totals(s@), 3),
{
    let mut v = match calorie_totals(s) {
        Some(v) => v,
        None => {
            return None;
        },
    };
    let mut sum: i128 = 0;
    let mut k: usize = 0;
    while k < 3 && v.len() > 0
        invariant
            k <= 3,
            sum + sum_largest(ints(v@), (3 - k) as nat) == sum_largest(totals(s@), 3),
            -0x8000_0000_0000_0000 * k <= sum <= 0x8000_0000_0000_0000 * k,
        decreases 3 - k,
    {
        let at = index_of_max(&v);
        let ghost before = v@;
        let top = v.remove(at);
        assert(ints(v@) =~= ints(before).remove(at as int));
        sum = sum + top as i128;
        k += 1;
    }
    if sum < -0x8000_0000_0000_0000 || sum > 0x7fff_ffff_ffff_ffff {
        None
    } else {
        Some(sum as i64)
    }
}

} // verus!
