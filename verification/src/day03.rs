//! Rucksacks, one to a line, each item a letter: the item that the two halves of a
//! rucksack share, and the item that three rucksacks in a row share.

use crate::text::{
    chars_of, lemma_take_step, lines, lines_of, one_char, plain, split_terminator,
    split_terminator_on, trim, trimmed, views,
};
use vstd::pervasive::unreached;
use vstd::prelude::*;

verus! {

/// The priority of an item: 1 to 26 for `a` to `z` and 27 to 52 for `A` to `Z`; for
/// another character its number in Unicode less 96, and 58 more where that is not
/// positive.
pub open spec fn priority_of(ch: char) -> int {
    let v = ch as u32 - 96;
    if v > 0 {
        v
    } else {
        v + 58
    }
}

/// Whether `c` occurs in `s`.
pub open spec fn occurs(s: Seq<char>, c: char) -> bool {
    exists|i: int| 0 <= i < s.len() && s[i] == c
}

/// The first item of `a` that also occurs in `b` and in `c`.
pub open spec fn first_shared(a: Seq<char>, b: Seq<char>, c: Seq<char>) -> Option<char>
    decreases a.len(),
{
    if a.len() == 0 {
        None
    } else if occurs(b, a[0]) && occurs(c, a[0]) {
        Some(a[0])
    } else {
        first_shared(a.skip(1), b, c)
    }
}

/// The item that both halves of a rucksack hold: the first of the first half that the
/// second half holds too. An odd item in the middle belongs to the second half.
pub open spec fn shared_in_halves(line: Seq<char>) -> Option<char> {
    let mid = line.len() / 2;
    first_shared(line.take(mid as int), line.skip(mid as int), line.skip(mid as int))
}

/// The rucksacks for the first question.
pub open spec fn rucksacks(s: Seq<char>) -> Seq<Seq<char>> {
    split_terminator(trim(s), seq!['\n'])
}

/// Whether the two halves of every rucksack share an item.
pub open spec fn halves_share(sacks: Seq<Seq<char>>) -> bool {
    forall|i: int| 0 <= i < sacks.len() ==> shared_in_halves(#[trigger] sacks[i]) is Some
}

/// The sum of the priorities of the items that the halves share.
pub open spec fn sum_halves(sacks: Seq<Seq<char>>) -> int
    decreases sacks.len(),
{
    if sacks.len() == 0 {
        0
    } else {
        sum_halves(sacks.drop_last()) + priority_of(shared_in_halves(sacks.last()).unwrap())
    }
}

/// The item of the `g`-th group of three rucksacks: the first of its first rucksack that
/// the other two hold too.
pub open spec fn badge(sacks: Seq<Seq<char>>, g: int) -> Option<char> {
    first_shared(sacks[3 * g], sacks[3 * g + 1], sacks[3 * g + 2])
}

/// Whether the rucksacks come in groups of three that each share an item.
pub open spec fn groups_share(sacks: Seq<Seq<char>>) -> bool {
    sacks.len() % 3 == 0 && forall|g: int|
        0 <= g < sacks.len() / 3 ==> (#[trigger] badge(sacks, g)) is Some
}

/// The sum of the priorities of the items of the first `n` groups.
pub open spec fn sum_badges(sacks: Seq<Seq<char>>, n: int) -> int
    decreases n,
{
    if n <= 0 {
        0
    } else {
        sum_badges(sacks, n - 1) + priority_of(badge(sacks, n - 1).unwrap())
    }
}

/// The priority of an item.
pub fn priority(ch: char) -> (p: i64)
    ensures
        p == priority_of(ch),
        -96 < p <= 0x11_0000,
        0x61 <= ch as u32 <= 0x7a ==> p == ch as u32 - 0x60,
        0x41 <= ch as u32 <= 0x5a ==> p == ch as u32 - 0x40 + 26,
{
    let v = (ch as i64) - 96;
    if v > 0 {
        v
    } else {
        v + 58
    }
}

/// Whether `c` occurs in `v` from place `from` on.
pub fn contains_from(v: &Vec<char>, from: usize, c: char) -> (b: bool)
    requires
        from <= v.len(),
    ensures
        b == occurs(v@.skip(from as int), c),
{
    let mut i: usize = from;
    while i < v.len()
        invariant
            from <= i <= v.len(),
            forall|k: int| from <= k < i ==> v@[k] != c,
        decreases v.len() - i,
    {
        if v[i] == c {
            assert(v@.skip(from as int)[i - from] == c);
            return true;
        }
        i += 1;
    }
    assert forall|k: int| 0 <= k < v@.skip(from as int).len() implies v@.skip(from as int)[k]
        != c by {
        assert(v@[k + from] != c);
    }
    false
}

/// The first item among the first `n` of `a` that occurs in `b` from `from_b` on and in
/// `c` from `from_c` on.
pub fn shared_item(
    a: &Vec<char>,
    n: usize,
    b: &Vec<char>,
    from_b: usize,
    c: &Vec<char>,
    from_c: usize,
) -> (r: Option<char>)
    requires
        n <= a.len(),
        from_b <= b.len(),
        from_c <= c.len(),
    ensures
        r == first_shared(a@.take(n as int), b@.skip(from_b as int), c@.skip(from_c as int)),
{
    let ghost head = a@.take(n as int);
    let ghost sb = b@.skip(from_b as int);
    let ghost sc = c@.skip(from_c as int);
    let mut i: usize = 0;
    assert(head.skip(0) =~= head);
    while i < n
        invariant
            i <= n <= a.len(),
            from_b <= b.len(),
            from_c <= c.len(),
            head == a@.take(n as int),
            sb == b@.skip(from_b as int),
            sc == c@.skip(from_c as int),
            first_shared(head, sb, sc) == first_shared(head.skip(i as int), sb, sc),
        decreases n - i,
    {
        assert(head.skip(i as int)[0] == a@[i as int]);
        assert(head.skip(i as int).skip(1) =~= head.skip(i + 1));
        if contains_from(b, from_b, a[i]) && contains_from(c, from_c, a[i]) {
            return Some(a[i]);
        }
        i += 1;
    }
    None
}

/// The priority of the item that the two halves of the rucksack `s` share, or `None`
/// where they share none.
pub fn parse_line(s: &Vec<char>) -> (r: Option<i64>)
    ensures
        r is Some <==> shared_in_halves(s@) is Some,
        r is Some ==> r.unwrap() == priority_of(shared_in_halves(s@).unwrap()),
        r is Some ==> -96 < r.unwrap() <= 0x11_0000,
{
    let mid = s.len() / 2;
    match shared_item(s, mid, s, mid, s, mid) {
        Some(ch) => Some(priority(ch)),
        None => None,
    }
}

/// The sum of the priorities of the items that the two halves of each rucksack share.
pub fn sum_priorities_p1(s: &str) -> (sum: i64)
    requires
        plain(s@),
        halves_share(rucksacks(s@)),
        i64::MIN <= sum_halves(rucksacks(s@)) <= i64::MAX,
    ensures
        sum == sum_halves(rucksacks(s@)),
{
    let all = chars_of(s);
    let text = trimmed(&all);
    let feed = one_char('\n');
    let sacks = split_terminator_on(&text, &feed);
    let ghost rows = views(sacks@);
    let mut sum: i128 = 0;
    let mut i: usize = 0;
    assert(rows.take(0) =~= Seq::<Seq<char>>::empty());
    while i < sacks.len()
        invariant
            i <= sacks.len(),
            rows == views(sacks@),
            rows == rucksacks(s@),
            halves_share(rows),
            sum == sum_halves(rows.take(i as int)),
            -0x11_0000 * i <= sum <= 0x11_0000 * i,
        decreases sacks.len() - i,
    {
        assert(rows[i as int] == sacks@[i as int]@);
        proof {
            lemma_take_step(rows, i as int);
        }
        let p = match parse_line(&sacks[i]) {
            Some(p) => p,
            None => unreached(),
        };
        sum = sum + p as i128;
        i += 1;
    }
    proof {
        assert(rows.take(i as int) =~= rows);
    }
    sum as i64
}

/// The sum of the priorities of the items that each group of three rucksacks shares.
pub fn sum_priorities_p2(s: &str) -> (sum: i64)
    requires
        groups_share(lines(s@)),
        i64::MIN <= sum_badges(lines(s@), lines(s@).len() as int / 3) <= i64::MAX,
    ensures
        sum == sum_badges(lines(s@), lines(s@).len() as int / 3),
{
    let all = chars_of(s);
    let v = lines_of(&all);
    let ghost rows = views(v@);
    let groups = v.len() / 3;
    let mut sum: i128 = 0;
    let mut g: usize = 0;
    while g < groups
        invariant
            g <= groups,
            groups == v.len() / 3,
            v.len() % 3 == 0,
            rows == views(v@),
            rows == lines(s@),
            groups_share(rows),
            sum == sum_badges(rows, g as int),
            -0x11_0000 * g <= sum <= 0x11_0000 * g,
        decreases groups - g,
    {
        assert(rows[3 * g] == v@[3 * g]@);
        assert(rows[3 * g + 1] == v@[3 * g + 1]@);
        assert(rows[3 * g + 2] == v@[3 * g + 2]@);
        let first = &v[3 * g];
        assert(first@.take(first@.len() as int) =~= first@);
        assert(v@[3 * g + 1]@.skip(0) =~= v@[3 * g + 1]@);
        assert(v@[3 * g + 2]@.skip(0) =~= v@[3 * g + 2]@);
        assert(badge(rows, g as int) is Some);
        let ch = match shared_item(first, first.len(), &v[3 * g + 1], 0, &v[3 * g + 2], 0) {
            Some(ch) => ch,
            None => unreached(),
        };
        sum = sum + priority(ch) as i128;
        g += 1;
    }
    sum as i64
}

/// Where a rucksack among the first has halves that share nothing, not all rucksacks
/// have halves that share an item.
pub proof fn lemma_halves_fail(sacks: Seq<Seq<char>>, i: int)
    requires
        0 <= i < sacks.len(),
        shared_in_halves(sacks[i]) is None,
    ensures
        !halves_share(sacks),
{
}

/// The sum of the priorities of the items that the two halves of each rucksack share, or
/// `None` where a character takes more than a byte, the halves of a rucksack share
/// nothing, or the sum is no number of an `i64`.
pub fn try_sum_priorities_p1(s: &str) -> (r: Option<i64>)
    ensures
        r is Some <==> plain(s@) && halves_share(rucksacks(s@)) && i64::MIN <= sum_halves(
            rucksacks(s@),
        ) <= i64::MAX,
        r is Some ==> r.unwrap() == sum_halves(rucksacks(s@)),
{
    let all = chars_of(s);
    if !crate::text::is_plain(&all) {
        return None;
    }
    let text = trimmed(&all);
    let feed = one_char('\n');
    let sacks = split_terminator_on(&text, &feed);
    let ghost rows = views(sacks@);
    let mut sum: i128 = 0;
    let mut i: usize = 0;
    assert(rows.take(0) =~= Seq::<Seq<char>>::empty());
    while i < sacks.len()
        invariant
            i <= sacks.len(),
            rows == views(sacks@),
            rows == rucksacks(s@),
            forall|k: int| 0 <= k < i ==> shared_in_halves(#[trigger] rows[k]) is Some,
            sum == sum_halves(rows.take(i as int)),
            -0x11_0000 * i <= sum <= 0x11_0000 * i,
        decreases sacks.len() - i,
    {
        assert(rows[i as int] == sacks@[i as int]@);
        proof {
            lemma_take_step(rows, i as int);
        }
        let p = match parse_line(&sacks[i]) {
            Some(p) => p,
            None => {
                proof {
                    lemma_halves_fail(rows, i as int);
                }
                return None;
            },
        };
        sum = sum + p as i128;
        i += 1;
    }
    proof {
        assert(rows.take(i as int) =~= rows);
    }
    if sum < -0x8000_0000_0000_0000 || sum > 0x7fff_ffff_ffff_ffff {
        None
    } else {
        Some(sum as i64)
    }
}

/// The sum of the priorities of the items that each group of three rucksacks shares, or
/// `None` where the rucksacks do not come in threes, a group shares nothing, or the sum
/// is no number of an `i64`.
pub fn try_sum_priorities_p2(s: &str) -> (r: Option<i64>)
    ensures
        r is Some <==> groups_share(lines(s@)) && i64::MIN <= sum_badges(
            lines(s@),
            lines(s@).len() as int / 3,
        ) <= i64::MAX,
        r is Some ==> r.unwrap() == sum_badges(lines(s@), lines(s@).len() as int / 3),
{
    let all = chars_of(s);
    let v = lines_of(&all);
    let ghost rows = views(v@);
    if v.len() % 3 != 0 {
        return None;
    }
    let groups = v.len() / 3;
    let mut sum: i128 = 0;
    let mut g: usize = 0;
    while g < groups
        invariant
            g <= groups,
            groups == v.len() / 3,
            v.len() % 3 == 0,
            rows == views(v@),
            rows == lines(s@),
            forall|k: int| 0 <= k < g ==> (#[trigger] badge(rows, k)) is Some,
            sum == sum_badges(rows, g as int),
            -0x11_0000 * g <= sum <= 0x11_0000 * g,
        decreases groups - g,
    {
        assert(rows[3 * g] == v@[3 * g]@);
        assert(rows[3 * g + 1] == v@[3 * g + 1]@);
        assert(rows[3 * g + 2] == v@[3 * g + 2]@);
        let first = &v[3 * g];
        assert(first@.take(first@.len() as int) =~= first@);
        assert(v@[3 * g + 1]@.skip(0) =~= v@[3 * g + 1]@);
        assert(v@[3 * g + 2]@.skip(0) =~= v@[3 * g + 2]@);
        let ch = match shared_item(first, first.len(), &v[3 * g + 1], 0, &v[3 * g + 2], 0) {
            Some(ch) => ch,
            None => {
                assert(badge(rows, g as int) is None);
                return None;
            },
        };
        sum = sum + priority(ch) as i128;
        g += 1;
    }
    if sum < -0x8000_0000_0000_0000 || sum > 0x7fff_ffff_ffff_ffff {
        None
    } else {
        Some(sum as i64)
    }
}

} // verus!
