//! Mixing a list of numbers: each number in turn moves along the list, which is a ring,
//! by as many places as it says.

use crate::text::{parse_i64, to_i64, trimmed_lines, trimmed_lines_of, views};
use vstd::arithmetic::div_mod::{
    lemma_fundamental_div_mod, lemma_mod_bound, lemma_mod_multiples_vanish,
};
use vstd::pervasive::unreached;
use vstd::prelude::*;

verus! {

/// The first place of `x` in `s`, or `s.len()` if it is not in it.
pub open spec fn position(s: Seq<int>, x: int) -> int
    decreases s.len(),
{
    if s.len() == 0 {
        0
    } else if s[0] == x {
        0
    } else {
        1 + position(s.skip(1), x)
    }
}

/// The list after the number `i` of it has been taken out and put back `by` places
/// further along the ring of the others.
pub open spec fn moved(order: Seq<int>, i: int, by: int) -> Seq<int> {
    let j = position(order, i);
    let rest = order.remove(j);
    rest.insert((j + by) % (rest.len() as int), i)
}

/// The order after the first `k` numbers have moved, each by its own value. The order
/// lists the numbers by their places in `nums`.
pub open spec fn mixed_upto(order: Seq<int>, nums: Seq<int>, k: int) -> Seq<int>
    decreases k,
{
    if k <= 0 {
        order
    } else {
        moved(mixed_upto(order, nums, k - 1), k - 1, nums[k - 1])
    }
}

/// The order after `rounds` rounds in each of which every number has moved once.
pub open spec fn mixed(nums: Seq<int>, rounds: nat) -> Seq<int>
    decreases rounds,
{
    if rounds == 0 {
        Seq::new(nums.len(), |i: int| i)
    } else {
        mixed_upto(mixed(nums, (rounds - 1) as nat), nums, nums.len() as int)
    }
}

/// The number that stands `p` places after the 0 in the mixed ring.
pub open spec fn after_zero(nums: Seq<int>, order: Seq<int>, p: int) -> int {
    let zero = position(order, position(nums, 0));
    nums[order[(zero + p) % (nums.len() as int)]]
}

/// The sum of the numbers that stand 1000, 2000 and 3000 places after the 0.
pub open spec fn grove_sum(nums: Seq<int>, rounds: nat) -> int {
    let order = mixed(nums, rounds);
    after_zero(nums, order, 1000) + after_zero(nums, order, 2000) + after_zero(nums, order, 3000)
}

/// Whether `order` lists numbers below `n`, as many as `n`, and each number below `n` at
/// least once.
pub open spec fn is_order(order: Seq<int>, n: int) -> bool {
    &&& order.len() == n
    &&& forall|p: int| 0 <= p < order.len() ==> 0 <= #[trigger] order[p] < n
    &&& forall|i: int| 0 <= i < n ==> 0 <= #[trigger] position(order, i) < n
}

/// `position` gives a place of `x`, and the first, or the length where there is none.
pub proof fn lemma_position(s: Seq<int>, x: int)
    ensures
        0 <= position(s, x) <= s.len(),
        position(s, x) < s.len() ==> s[position(s, x)] == x,
        forall|p: int| 0 <= p < position(s, x) ==> #[trigger] s[p] != x,
    decreases s.len(),
{
    if s.len() > 0 && s[0] != x {
        lemma_position(s.skip(1), x);
        assert forall|p: int| 0 <= p < position(s, x) implies #[trigger] s[p] != x by {
            if p > 0 {
                assert(s.skip(1)[p - 1] == s[p]);
            }
        }
    }
}

/// A move keeps an order an order.
pub proof fn lemma_moved(order: Seq<int>, n: int, i: int, by: int)
    requires
        is_order(order, n),
        n >= 2,
        0 <= i < n,
    ensures
        is_order(moved(order, i, by), n),
{
    let j = position(order, i);
    let rest = order.remove(j);
    let to = (j + by) % (rest.len() as int);
    lemma_mod_bound(j + by, rest.len() as int);
    let after = rest.insert(to, i);
    lemma_position(order, i);
    assert forall|x: int| 0 <= x < n implies 0 <= #[trigger] position(after, x) < n by {
        lemma_position(after, x);
        if x == i {
            assert(after[to] == x);
        } else {
            lemma_position(order, x);
            let p = position(order, x);
            let q = if p < j {
                p
            } else {
                p - 1
            };
            assert(rest[q] == x);
            let r = if q < to {
                q
            } else {
                q + 1
            };
            assert(after[r] == x);
        }
    }
}

/// Every step of a round, and every round, keeps an order an order.
pub proof fn lemma_mixed_upto(order: Seq<int>, nums: Seq<int>, k: int)
    requires
        is_order(order, nums.len() as int),
        nums.len() >= 2,
        0 <= k <= nums.len(),
    ensures
        is_order(mixed_upto(order, nums, k), nums.len() as int),
    decreases k,
{
    if k > 0 {
        lemma_mixed_upto(order, nums, k - 1);
        lemma_moved(mixed_upto(order, nums, k - 1), nums.len() as int, k - 1, nums[k - 1]);
    }
}

/// The mixed order is an order.
pub proof fn lemma_mixed(nums: Seq<int>, rounds: nat)
    requires
        nums.len() >= 2,
    ensures
        is_order(mixed(nums, rounds), nums.len() as int),
    decreases rounds,
{
    if rounds == 0 {
        let order = Seq::new(nums.len(), |i: int| i);
        assert forall|i: int| 0 <= i < nums.len() implies 0 <= #[trigger] position(order, i)
            < nums.len() by {
            lemma_position(order, i);
            assert(order[i] == i);
        }
    } else {
        lemma_mixed(nums, (rounds - 1) as nat);
        lemma_mixed_upto(mixed(nums, (rounds - 1) as nat), nums, nums.len() as int);
    }
}

/// The numbers of a list.
pub open spec fn ints(v: Seq<i64>) -> Seq<int> {
    Seq::new(v.len(), |i: int| v[i] as int)
}

/// The numbers of a list of places.
pub open spec fn places(v: Seq<usize>) -> Seq<int> {
    Seq::new(v.len(), |i: int| v[i] as int)
}

/// The numbers that the lines write, each times `key`; `None` where a line writes no
/// integer.
pub open spec fn scaled(lines: Seq<Seq<char>>, key: int) -> Option<Seq<int>> {
    if forall|i: int| 0 <= i < lines.len() ==> parse_i64(#[trigger] lines[i]) is Some {
        Some(Seq::new(lines.len(), |i: int| parse_i64(lines[i]).unwrap() * key))
    } else {
        None
    }
}

/// Whether every number is one of an `i64`.
pub open spec fn all_fit(nums: Seq<int>) -> bool {
    forall|i: int| 0 <= i < nums.len() ==> i64::MIN <= #[trigger] nums[i] <= i64::MAX
}

/// The numbers of the lines of `s`, each times `key`, or `None` where a line writes no
/// integer or a product is no number of an `i64`.
pub fn read_numbers(s: &str, key: i64) -> (r: Option<Vec<i64>>)
    ensures
        r is Some <==> scaled(trimmed_lines(s@), key as int) is Some && all_fit(
            scaled(trimmed_lines(s@), key as int).unwrap(),
        ),
        r is Some ==> ints(r.unwrap()@) == scaled(trimmed_lines(s@), key as int).unwrap(),
{
    let lines = trimmed_lines_of(s);
    let ghost rows = views(lines@);
    let mut nums: Vec<i64> = Vec::new();
    let mut i: usize = 0;
    while i < lines.len()
        invariant
            i <= lines.len(),
            rows == views(lines@),
            rows == trimmed_lines(s@),
            nums.len() == i,
            forall|k: int| 0 <= k < i ==> parse_i64(#[trigger] rows[k]) is Some,
            forall|k: int| 0 <= k < i ==> (#[trigger] nums@[k]) as int == parse_i64(rows[k]).unwrap() * key,
        decreases lines.len() - i,
    {
        assert(rows[i as int] == lines@[i as int]@);
        let n = match to_i64(&lines[i]) {
            Some(n) => n,
            None => {
                return None;
            },
        };
        assert(-0x4000_0000_0000_0000_0000_0000_0000_0000 <= (n as int) * (key as int)
            <= 0x4000_0000_0000_0000_0000_0000_0000_0000) by (nonlinear_arith)
            requires
                -0x8000_0000_0000_0000 <= n <= 0x7fff_ffff_ffff_ffff,
                -0x8000_0000_0000_0000 <= key <= 0x7fff_ffff_ffff_ffff,
        ;
        let product: i128 = (n as i128) * (key as i128);
        if product < -0x8000_0000_0000_0000 || product > 0x7fff_ffff_ffff_ffff {
            proof {
                if scaled(rows, key as int) is Some {
                    assert(scaled(rows, key as int).unwrap()[i as int] == product);
                }
            }
            return None;
        }
        nums.push(product as i64);
        i += 1;
    }
    proof {
        assert(scaled(rows, key as int) is Some);
        assert(ints(nums@) =~= scaled(rows, key as int).unwrap());
    }
    Some(nums)
}

/// The first place of `x` in `v`, or `v.len()`.
pub fn index_of(v: &Vec<usize>, x: usize) -> (at: usize)
    ensures
        at == position(places(v@), x as int),
        at <= v.len(),
{
    let ghost s = places(v@);
    let mut i: usize = 0;
    assert(s.skip(0) =~= s);
    while i < v.len()
        invariant
            i <= v.len(),
            s == places(v@),
            position(s, x as int) == i + position(s.skip(i as int), x as int),
        decreases v.len() - i,
    {
        assert(s.skip(i as int)[0] == v@[i as int]);
        assert(s.skip(i as int).skip(1) =~= s.skip(i + 1));
        if v[i] == x {
            return i;
        }
        i += 1;
    }
    i
}

/// The first place of 0 in `v`, or `v.len()`.
pub fn index_of_zero(v: &Vec<i64>) -> (at: usize)
    ensures
        at == position(ints(v@), 0),
        at <= v.len(),
{
    let ghost s = ints(v@);
    let mut i: usize = 0;
    assert(s.skip(0) =~= s);
    while i < v.len()
        invariant
            i <= v.len(),
            s == ints(v@),
            position(s, 0) == i + position(s.skip(i as int), 0),
        decreases v.len() - i,
    {
        assert(s.skip(i as int)[0] == v@[i as int]);
        assert(s.skip(i as int).skip(1) =~= s.skip(i + 1));
        if v[i] == 0 {
            return i;
        }
        i += 1;
    }
    i
}

/// The place `by` further than `j` on a ring of `m` places.
pub fn ring_place(j: usize, by: i64, m: usize) -> (to: usize)
    requires
        m > 0,
    ensures
        to == (j + by) % (m as int),
        to < m,
{
    proof {
        lemma_mod_bound(j + by, m as int);
    }
    if by >= 0 {
        let sum: u128 = j as u128 + by as u128;
        (sum % (m as u128)) as usize
    } else {
        let back: u128 = (-(by as i128)) as u128;
        let r: u128 = back % (m as u128);
        let sum: u128 = j as u128 + (m as u128 - r);
        proof {
            let q = (back as int) / (m as int);
            lemma_fundamental_div_mod(back as int, m as int);
            assert(j + by == (j + m - r) + (-(q + 1)) * m) by (nonlinear_arith)
                requires
                    back == m * q + r,
                    by == -(back as int),
            ;
            lemma_mod_multiples_vanish(-(q + 1), j + m - r, m as int);
        }
        (sum % (m as u128)) as usize
    }
}

/// Mixes `nums` for `rounds` rounds and gives the order, which lists the numbers by their
/// places in `nums`.
pub fn mix(nums: &Vec<i64>, rounds: usize) -> (idxs: Vec<usize>)
    requires
        nums.len() >= 2,
    ensures
        places(idxs@) == mixed(ints(nums@), rounds as nat),
        is_order(places(idxs@), nums.len() as int),
{
    let ghost values = ints(nums@);
    let n = nums.len();
    let mut idxs: Vec<usize> = Vec::new();
    let mut i: usize = 0;
    while i < n
        invariant
            i <= n,
            idxs.len() == i,
            forall|k: int| 0 <= k < i ==> idxs@[k] == k,
        decreases n - i,
    {
        idxs.push(i);
        i += 1;
    }
    proof {
        assert(places(idxs@) =~= mixed(values, 0));
        lemma_mixed(values, 0);
    }
    let mut round: usize = 0;
    while round < rounds
        invariant
            round <= rounds,
            n == nums.len(),
            n >= 2,
            values == ints(nums@),
            places(idxs@) == mixed(values, round as nat),
            is_order(places(idxs@), n as int),
        decreases rounds - round,
    {
        let ghost start = places(idxs@);
        let mut i: usize = 0;
        while i < n
            invariant
                i <= n,
                n == nums.len(),
                n >= 2,
                values == ints(nums@),
                is_order(start, n as int),
                places(idxs@) == mixed_upto(start, values, i as int),
                is_order(places(idxs@), n as int),
            decreases n - i,
        {
            let ghost before = places(idxs@);
            let j = index_of(&idxs, i);
            assert(0 <= position(before, i as int) < n);
            idxs.remove(j);
            assert(places(idxs@) =~= before.remove(j as int));
            let to = ring_place(j, nums[i], idxs.len());
            idxs.insert(to, i);
            assert(places(idxs@) =~= moved(before, i as int, values[i as int]));
            proof {
                lemma_moved(before, n as int, i as int, values[i as int]);
            }
            i += 1;
        }
        round += 1;
    }
    idxs
}

/// The sum of the numbers that stand 1000, 2000 and 3000 places after the 0, once the
/// numbers have been mixed `num_iterations` times, as a wide number.
pub fn grove_total(nums: &Vec<i64>, num_iterations: usize) -> (sum: i128)
    requires
        nums.len() >= 2,
        ints(nums@).contains(0),
    ensures
        sum == grove_sum(ints(nums@), num_iterations as nat),
{
    let ghost values = ints(nums@);
    let idxs = mix(nums, num_iterations);
    let ghost order = places(idxs@);
    let n = nums.len();
    let num_0_at = index_of_zero(nums);
    proof {
        lemma_position(values, 0);
        let w = choose|w: int| 0 <= w < values.len() && values[w] == 0;
        assert(values[w] == 0);
        assert(num_0_at < n);
    }
    let idx_0_at = index_of(&idxs, num_0_at);
    assert(0 <= position(order, num_0_at as int) < n);
    let mut sum: i128 = 0;
    let mut k: usize = 1;
    while k <= 3
        invariant
            1 <= k <= 4,
            n == nums.len(),
            n >= 2,
            idx_0_at < n,
            values == ints(nums@),
            order == places(idxs@),
            is_order(order, n as int),
            idx_0_at == position(order, position(values, 0)),
            sum == if k == 1 {
                0
            } else if k == 2 {
                after_zero(values, order, 1000)
            } else if k == 3 {
                after_zero(values, order, 1000) + after_zero(values, order, 2000)
            } else {
                after_zero(values, order, 1000) + after_zero(values, order, 2000) + after_zero(
                    values,
                    order,
                    3000,
                )
            },
            -0x8000_0000_0000_0000 * k <= sum <= 0x8000_0000_0000_0000 * k,
        decreases 4 - k,
    {
        let p: u128 = (k as u128) * 1000;
        let at = ((idx_0_at as u128 + p) % (n as u128)) as usize;
        assert(order[at as int] == idxs@[at as int]);
        let which = idxs[at];
        assert(values[which as int] == nums@[which as int]);
        sum = sum + nums[which] as i128;
        k += 1;
    }
    sum
}

/// The sum of the numbers that stand 1000, 2000 and 3000 places after the 0, once the
/// numbers of `s`, each times `key`, have been mixed `num_iterations` times; `None` where
/// a line writes no integer, a product or the sum is no number of an `i64`, there are
/// fewer than two numbers, or none of them is 0.
pub fn try_sum_grove_coordinates(s: &str, key: i64, num_iterations: usize) -> (r: Option<i64>)
    ensures
        r is Some <==> scaled(trimmed_lines(s@), key as int) is Some && all_fit(
            scaled(trimmed_lines(s@), key as int).unwrap(),
        ) && trimmed_lines(s@).len() >= 2 && scaled(
            trimmed_lines(s@),
            key as int,
        ).unwrap().contains(0) && i64::MIN <= grove_sum(
            scaled(trimmed_lines(s@), key as int).unwrap(),
            num_iterations as nat,
        ) <= i64::MAX,
        r is Some ==> r.unwrap() == grove_sum(
            scaled(trimmed_lines(s@), key as int).unwrap(),
            num_iterations as nat,
        ),
{
    let nums = match read_numbers(s, key) {
        Some(nums) => nums,
        None => {
            return None;
        },
    };
    if nums.len() < 2 {
        return None;
    }
    if index_of_zero(&nums) >= nums.len() {
        proof {
            lemma_position(ints(nums@), 0);
            if ints(nums@).contains(0) {
                let w = choose|w: int| 0 <= w < ints(nums@).len() && ints(nums@)[w] == 0;
                assert(ints(nums@)[w] == 0);
            }
        }
        return None;
    }
    proof {
        lemma_position(ints(nums@), 0);
        assert(ints(nums@)[position(ints(nums@), 0)] == 0);
    }
    let sum = grove_total(&nums, num_iterations);
    if sum < -0x8000_0000_0000_0000 || sum > 0x7fff_ffff_ffff_ffff {
        None
    } else {
        Some(sum as i64)
    }
}

/// The sum of the numbers that stand 1000, 2000 and 3000 places after the 0, once the
/// numbers of `s`, each times `key`, have been mixed `num_iterations` times.
pub fn sum_grove_coordinates(s: &str, key: i64, num_iterations: usize) -> (sum: i64)
    requires
        scaled(trimmed_lines(s@), key as int) is Some,
        all_fit(scaled(trimmed_lines(s@), key as int).unwrap()),
        trimmed_lines(s@).len() >= 2,
        scaled(trimmed_lines(s@), key as int).unwrap().contains(0),
        i64::MIN <= grove_sum(
            scaled(trimmed_lines(s@), key as int).unwrap(),
            num_iterations as nat,
        ) <= i64::MAX,
    ensures
        sum == grove_sum(scaled(trimmed_lines(s@), key as int).unwrap(), num_iterations as nat),
{
    match try_sum_grove_coordinates(s, key, num_iterations) {
        Some(sum) => sum,
        None => unreached(),
    }
}

/// The sum of the grove coordinates after one round of mixing.
pub fn sum_grove_coordinates_p1(s: &str) -> (sum: i64)
    requires
        scaled(trimmed_lines(s@), 1) is Some,
        trimmed_lines(s@).len() >= 2,
        scaled(trimmed_lines(s@), 1).unwrap().contains(0),
        i64::MIN <= grove_sum(scaled(trimmed_lines(s@), 1).unwrap(), 1) <= i64::MAX,
    ensures
        sum == grove_sum(scaled(trimmed_lines(s@), 1).unwrap(), 1),
{
    proof {
        assert(all_fit(scaled(trimmed_lines(s@), 1).unwrap()));
    }
    sum_grove_coordinates(s, 1, 1)
}

/// The sum of the grove coordinates after ten rounds of mixing the numbers times
/// 811589153.
pub fn sum_grove_coordinates_p2(s: &str) -> (sum: i64)
    requires
        scaled(trimmed_lines(s@), 811589153) is Some,
        all_fit(scaled(trimmed_lines(s@), 811589153).unwrap()),
        trimmed_lines(s@).len() >= 2,
        scaled(trimmed_lines(s@), 811589153).unwrap().contains(0),
        i64::MIN <= grove_sum(scaled(trimmed_lines(s@), 811589153).unwrap(), 10) <= i64::MAX,
    ensures
        sum == grove_sum(scaled(trimmed_lines(s@), 811589153).unwrap(), 10),
{
    sum_grove_coordinates(s, 811589153, 10)
}

} // verus!
