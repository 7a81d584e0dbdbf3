//! Packets of numbers and lists, written as JSON: their order, the pairs that are in the
//! right order, and the places of two dividers among the sorted packets.

use crate::text::{chars_of, join_with, lines, lines_of, one_char, replace, split, split_on, split_once, split_once_char, string_of, trim, trimmed, views};
use std::cmp::Ordering;
use vstd::pervasive::unreached;
use vstd::prelude::*;

verus! {

broadcast use vstd::std_specs::vec::group_vec_axioms;

/// A packet as a value: a number or a list of packets.
pub enum Tree {
    Number(int),
    List(Seq<Tree>),
}

/// A packet: a number or a list of packets.
#[derive(Debug, PartialEq, Eq)]
pub enum Packet {
    Number(i64),
    List(Vec<Packet>),
}

/// How one packet stands to another.
#[derive(Debug, Clone, Copy, PartialEq, Eq, Structural)]
pub enum Order {
    Less,
    Equal,
    Greater,
}

impl View for Packet {
    type V = Tree;

    open spec fn view(&self) -> Tree
        decreases self,
    {
        match self {
            Packet::Number(n) => Tree::Number(*n as int),
            Packet::List(v) => Tree::List(
                Seq::new(
                    v@.len(),
                    |i: int|
                        if 0 <= i < v@.len() {
                            v@[i]@
                        } else {
                            Tree::Number(0)
                        },
                ),
            ),
        }
    }
}

/// The packets of a list as values.
pub open spec fn trees(v: Seq<Packet>) -> Seq<Tree> {
    Seq::new(v.len(), |i: int| v[i]@)
}

/// How the number `a` stands to the number `b`.
pub open spec fn order_of_numbers(a: int, b: int) -> Order {
    if a < b {
        Order::Less
    } else if a == b {
        Order::Equal
    } else {
        Order::Greater
    }
}

/// How `l` stands to `r`. Two numbers stand as numbers do. Two lists stand as their
/// first packets that are not equal; where there are none the shorter list is less. A
/// number stands to a list as the list of that number alone does.
pub open spec fn order_of(l: Tree, r: Tree) -> Order
    decreases l, r, 0nat,
{
    match (l, r) {
        (Tree::Number(a), Tree::Number(b)) => order_of_numbers(a, b),
        (Tree::List(a), Tree::List(b)) => order_from(a, b, 0),
        (Tree::Number(_), Tree::List(b)) => if b.len() == 0 {
            Order::Greater
        } else {
            match order_of(l, b[0]) {
                Order::Equal => if b.len() == 1 {
                    Order::Equal
                } else {
                    Order::Less
                },
                o => o,
            }
        },
        (Tree::List(a), Tree::Number(_)) => if a.len() == 0 {
            Order::Less
        } else {
            match order_of(a[0], r) {
                Order::Equal => if a.len() == 1 {
                    Order::Equal
                } else {
                    Order::Greater
                },
                o => o,
            }
        },
    }
}

/// How the list `a` stands to the list `b`, given that their first `i` packets are
/// equal.
pub open spec fn order_from(a: Seq<Tree>, b: Seq<Tree>, i: nat) -> Order
    decreases a, b, a.len() - i,
{
    if i >= a.len() || i >= b.len() {
        order_of_numbers(a.len() as int, b.len() as int)
    } else {
        match order_of(a[i as int], b[i as int]) {
            Order::Equal => order_from(a, b, i + 1),
            o => o,
        }
    }
}

/// The text of a packet as JSON, read by `serde_json::from_str` as a
/// `serde_json::Value`: the packet that it writes, or `None` where the text is no JSON
/// or holds anything but arrays and numbers that an `i64` holds.
pub uninterp spec fn json_tree(text: Seq<char>) -> Option<Tree>;

/// A JSON value of `serde_json`, of which nothing is known here.
#[verifier::external_type_specification]
#[verifier::external_body]
pub struct ExValue(serde_json::Value);

/// The packet that a `serde_json::Value` holds: a number by `Number::as_i64`, an array
/// item by item; `None` for every other value.
#[verifier::external_body]
fn packet_of_value(value: &serde_json::Value) -> Option<Packet> {
    match value {
        serde_json::Value::Number(n) => n.as_i64().map(Packet::Number),
        serde_json::Value::Array(a) => {
            let items: Option<Vec<Packet>> = a.iter().map(packet_of_value).collect();
            items.map(Packet::List)
        },
        _ => None,
    }
}

/// Reads a packet with `serde_json::from_str`. The result is what `json_tree` names for
/// the text.
#[verifier::external_body]
fn packet_from_json(s: &str) -> (r: Option<Packet>)
    ensures
        r is Some <==> json_tree(s@) is Some,
        r is Some ==> Some(r.unwrap()@) == json_tree(s@),
{
    match serde_json::from_str::<serde_json::Value>(s) {
        Ok(value) => packet_of_value(&value),
        Err(_) => None,
    }
}

/// Reads a packet from its text as JSON.
pub fn parse_packet(s: &str) -> (r: Option<Packet>)
    ensures
        r is Some <==> json_tree(s@) is Some,
        r is Some ==> Some(r.unwrap()@) == json_tree(s@),
{
    packet_from_json(s)
}

/// The packets of a list as values, one by one.
pub proof fn lemma_list_view(v: Vec<Packet>)
    ensures
        Packet::List(v)@ == Tree::List(trees(v@)),
{
    assert(Packet::List(v)@->List_0 =~= trees(v@));
}

/// How `left` stands to `right`.
pub fn compare_packets(left: &Packet, right: &Packet) -> (o: Order)
    ensures
        o == order_of(left@, right@),
    decreases left, right,
{
    match (left, right) {
        (Packet::Number(a), Packet::Number(b)) => {
            if *a < *b {
                Order::Less
            } else if *a == *b {
                Order::Equal
            } else {
                Order::Greater
            }
        },
        (Packet::List(a), Packet::List(b)) => {
            proof {
                lemma_list_view(*a);
                lemma_list_view(*b);
            }
            let ghost ta = trees(a@);
            let ghost tb = trees(b@);
            let mut i: usize = 0;
            while i < a.len() && i < b.len()
                invariant
                    i <= a.len(),
                    i <= b.len(),
                    ta == trees(a@),
                    tb == trees(b@),
                    *left == Packet::List(*a),
                    *right == Packet::List(*b),
                    left@ == Tree::List(ta),
                    right@ == Tree::List(tb),
                    order_from(ta, tb, 0) == order_from(ta, tb, i as nat),
                decreases a.len() - i,
            {
                let o = compare_packets(&a[i], &b[i]);
                assert(ta[i as int] == a@[i as int]@);
                assert(tb[i as int] == b@[i as int]@);
                match o {
                    Order::Equal => {},
                    _ => {
                        return o;
                    },
                }
                i += 1;
            }
            if a.len() < b.len() {
                Order::Less
            } else if a.len() == b.len() {
                Order::Equal
            } else {
                Order::Greater
            }
        },
        (Packet::Number(_), Packet::List(b)) => {
            proof {
                lemma_list_view(*b);
            }
            if b.len() == 0 {
                Order::Greater
            } else {
                assert(trees(b@)[0] == b@[0]@);
                match compare_packets(left, &b[0]) {
                    Order::Equal => if b.len() == 1 {
                        Order::Equal
                    } else {
                        Order::Less
                    },
                    o => o,
                }
            }
        },
        (Packet::List(a), Packet::Number(_)) => {
            proof {
                lemma_list_view(*a);
            }
            if a.len() == 0 {
                Order::Less
            } else {
                assert(trees(a@)[0] == a@[0]@);
                match compare_packets(&a[0], right) {
                    Order::Equal => if a.len() == 1 {
                        Order::Equal
                    } else {
                        Order::Greater
                    },
                    o => o,
                }
            }
        },
    }
}

/// The order as an `Ordering`.
pub open spec fn ordering_of(o: Order) -> Ordering {
    match o {
        Order::Less => Ordering::Less,
        Order::Equal => Ordering::Equal,
        Order::Greater => Ordering::Greater,
    }
}

/// How `left` stands to `right`.
pub fn compare(left: &Packet, right: &Packet) -> (o: Ordering)
    ensures
        o == ordering_of(order_of(left@, right@)),
{
    match compare_packets(left, right) {
        Order::Less => Ordering::Less,
        Order::Equal => Ordering::Equal,
        Order::Greater => Ordering::Greater,
    }
}

/// Whether the two packets are the same.
pub fn same_packet(left: &Packet, right: &Packet) -> (b: bool)
    ensures
        b == (left@ == right@),
    decreases left,
{
    match (left, right) {
        (Packet::Number(a), Packet::Number(b)) => *a == *b,
        (Packet::List(a), Packet::List(b)) => {
            proof {
                lemma_list_view(*a);
                lemma_list_view(*b);
            }
            if a.len() != b.len() {
                assert(trees(a@).len() != trees(b@).len());
                return false;
            }
            let mut i: usize = 0;
            while i < a.len()
                invariant
                    i <= a.len(),
                    a.len() == b.len(),
                    *left == Packet::List(*a),
                    left@ == Tree::List(trees(a@)),
                    right@ == Tree::List(trees(b@)),
                    forall|k: int| 0 <= k < i ==> (#[trigger] a@[k])@ == b@[k]@,
                decreases a.len() - i,
            {
                if !same_packet(&a[i], &b[i]) {
                    assert(trees(a@)[i as int] != trees(b@)[i as int]);
                    return false;
                }
                i += 1;
            }
            assert(trees(a@) =~= trees(b@));
            true
        },
        _ => false,
    }
}

/// The packet that holds a list of the number `n` alone and nothing else.
pub open spec fn divider(n: int) -> Tree {
    Tree::List(seq![Tree::List(seq![Tree::Number(n)])])
}

/// The packet `[[n]]`.
pub fn divider_packet(n: i64) -> (p: Packet)
    ensures
        p@ == divider(n as int),
{
    let mut inner: Vec<Packet> = Vec::new();
    inner.push(Packet::Number(n));
    let mut outer: Vec<Packet> = Vec::new();
    let ghost inner_seq = inner@;
    outer.push(Packet::List(inner));
    let p = Packet::List(outer);
    proof {
        lemma_list_view(outer);
        assert(outer@[0] == Packet::List(inner));
        lemma_list_view(inner);
        assert(trees(inner@) =~= seq![Tree::Number(n as int)]);
        assert(trees(outer@) =~= seq![Tree::List(seq![Tree::Number(n as int)])]);
    }
    p
}

/// The two packets that a part of the text writes, one on its first line and one on
/// the rest.
pub open spec fn pair_of(chunk: Seq<char>) -> Option<(Tree, Tree)> {
    match split_once(chunk, seq!['\n']) {
        Some((l, r)) => match (json_tree(l), json_tree(r)) {
            (Some(a), Some(b)) => Some((a, b)),
            _ => None,
        },
        None => None,
    }
}

/// The parts of the text that each write a pair: they stand between empty lines.
pub open spec fn chunks(s: Seq<char>) -> Seq<Seq<char>> {
    split(trim(s), seq!['\n', '\n'])
}

/// Whether every part writes a pair of packets.
pub open spec fn valid_pairs(parts: Seq<Seq<char>>) -> bool {
    forall|i: int| 0 <= i < parts.len() ==> pair_of(#[trigger] parts[i]) is Some
}

/// Whether the pair that a part writes is in the right order: the first packet is less
/// than the second.
pub open spec fn in_right_order(chunk: Seq<char>) -> bool {
    order_of(pair_of(chunk).unwrap().0, pair_of(chunk).unwrap().1) is Less
}

/// The sum of the numbers of the pairs in the right order among the first `n`, counted
/// from 1.
pub open spec fn right_sum(parts: Seq<Seq<char>>, n: int) -> nat
    decreases n,
{
    if n <= 0 {
        0
    } else {
        right_sum(parts, n - 1) + if in_right_order(parts[n - 1]) {
            n as nat
        } else {
            0nat
        }
    }
}

/// A sum over more pairs is at least the sum over fewer.
pub proof fn lemma_right_sum_grows(parts: Seq<Seq<char>>, m: int, n: int)
    requires
        m <= n,
    ensures
        right_sum(parts, m) <= right_sum(parts, n),
    decreases n - m,
{
    if m < n {
        lemma_right_sum_grows(parts, m, n - 1);
    }
}

/// The two packets that a part of the text writes.
pub fn parse_pair(chunk: &Vec<char>) -> (r: Option<(Packet, Packet)>)
    ensures
        r is Some <==> pair_of(chunk@) is Some,
        r is Some ==> (r.unwrap().0@, r.unwrap().1@) == pair_of(chunk@).unwrap(),
{
    let (l, r) = match split_once_char(chunk, '\n') {
        Some(parts) => parts,
        None => {
            return None;
        },
    };
    let left = string_of(&l);
    let right = string_of(&r);
    match (parse_packet(left.as_str()), parse_packet(right.as_str())) {
        (Some(a), Some(b)) => Some((a, b)),
        _ => None,
    }
}

/// The sum of the numbers of the pairs that are in the right order, or `None` where a
/// part of the text writes no pair or the sum is more than a `usize` holds.
pub fn right_indices(s: &str) -> (r: Option<usize>)
    ensures
        r is Some <==> valid_pairs(chunks(s@)) && right_sum(chunks(s@), chunks(s@).len() as int)
            <= usize::MAX,
        r is Some ==> r.unwrap() == right_sum(chunks(s@), chunks(s@).len() as int),
{
    let all = chars_of(s);
    let text = trimmed(&all);
    let mut gap: Vec<char> = Vec::new();
    gap.push('\n');
    gap.push('\n');
    assert(gap@ =~= seq!['\n', '\n']);
    let parts = split_on(&text, &gap);
    let ghost rows = views(parts@);
    let mut sum: usize = 0;
    let mut i: usize = 0;
    while i < parts.len()
        invariant
            i <= parts.len(),
            rows == views(parts@),
            rows == chunks(s@),
            forall|k: int| 0 <= k < i ==> pair_of(#[trigger] rows[k]) is Some,
            sum == right_sum(rows, i as int),
        decreases parts.len() - i,
    {
        assert(rows[i as int] == parts@[i as int]@);
        let (left, right) = match parse_pair(&parts[i]) {
            Some(pair) => pair,
            None => {
                return None;
            },
        };
        if is_less(compare_packets(&left, &right)) {
            if sum > usize::MAX - i - 1 {
                proof {
                    lemma_right_sum_grows(rows, i + 1, rows.len() as int);
                }
                return None;
            }
            sum = sum + i + 1;
        }
        i += 1;
    }
    Some(sum)
}

/// Whether the order is `Less`.
pub fn is_less(o: Order) -> (b: bool)
    ensures
        b == (o is Less),
{
    match o {
        Order::Less => true,
        _ => false,
    }
}

/// The sum of the numbers of the pairs that are in the right order.
pub fn sum_right_indices(s: &str) -> (sum: usize)
    requires
        valid_pairs(chunks(s@)),
        right_sum(chunks(s@), chunks(s@).len() as int) <= usize::MAX,
    ensures
        sum == right_sum(chunks(s@), chunks(s@).len() as int),
{
    match right_indices(s) {
        Some(sum) => sum,
        None => unreached(),
    }
}

/// The sum of the numbers of the pairs that are in the right order, or `None` where a
/// part of the text writes no pair or the sum is more than a `usize` holds.
pub fn try_sum_right_indices(s: &str) -> (r: Option<usize>)
    ensures
        r is Some <==> valid_pairs(chunks(s@)) && right_sum(chunks(s@), chunks(s@).len() as int)
            <= usize::MAX,
        r is Some ==> r.unwrap() == right_sum(chunks(s@), chunks(s@).len() as int),
{
    match right_indices(s) {
        Some(_) => Some(sum_right_indices(s)),
        None => None,
    }
}

/// The lines that each write a packet: the lines of the text without its empty lines
/// between pairs.
pub open spec fn packet_lines(s: Seq<char>) -> Seq<Seq<char>> {
    lines(replace(trim(s), seq!['\n', '\n'], seq!['\n']))
}

/// The packets that the lines write, and after them the dividers `[[2]]` and `[[6]]`;
/// `None` where a line writes no packet.
pub open spec fn with_dividers(rows: Seq<Seq<char>>) -> Option<Seq<Tree>> {
    if forall|i: int| 0 <= i < rows.len() ==> json_tree(#[trigger] rows[i]) is Some {
        Some(Seq::new(rows.len(), |i: int| json_tree(rows[i]).unwrap()).push(divider(2)).push(
            divider(6),
        ))
    } else {
        None
    }
}

/// Whether the packet at place `j` comes before the packet at place `k` once the list is
/// sorted: it is less, or stands equal and came first.
pub open spec fn comes_before(ps: Seq<Tree>, j: int, k: int) -> bool {
    order_of(ps[j], ps[k]) is Less || (order_of(ps[j], ps[k]) is Equal && j < k)
}

/// The number of packets among the first `n` that come before the packet at place `k`.
pub open spec fn rank_upto(ps: Seq<Tree>, k: int, n: int) -> nat
    decreases n,
{
    if n <= 0 {
        0
    } else {
        rank_upto(ps, k, n - 1) + if comes_before(ps, n - 1, k) {
            1nat
        } else {
            0nat
        }
    }
}

/// Whether the packet is one of the dividers.
pub open spec fn is_divider(t: Tree) -> bool {
    t == divider(2) || t == divider(6)
}

/// The product, over the dividers among the first `n` packets, of the place that each
/// has in the sorted list, counted from 1.
pub open spec fn key_upto(ps: Seq<Tree>, n: int) -> nat
    decreases n,
{
    if n <= 0 {
        1
    } else {
        key_upto(ps, n - 1) * if is_divider(ps[n - 1]) {
            rank_upto(ps, n - 1, ps.len() as int) + 1
        } else {
            1nat
        }
    }
}

/// A product over more packets is at least the product over fewer, and at least 1.
pub proof fn lemma_key_grows(ps: Seq<Tree>, m: int, n: int)
    requires
        m <= n,
    ensures
        1 <= key_upto(ps, m) <= key_upto(ps, n),
    decreases n - m,
{
    if m < n {
        lemma_key_grows(ps, m, n - 1);
        let f = if is_divider(ps[n - 1]) {
            rank_upto(ps, n - 1, ps.len() as int) + 1
        } else {
            1nat
        };
        assert(key_upto(ps, n - 1) * f >= key_upto(ps, n - 1)) by (nonlinear_arith)
            requires
                f >= 1,
        ;
    } else {
        lemma_key_positive(ps, m);
    }
}

/// A product of places is at least 1.
pub proof fn lemma_key_positive(ps: Seq<Tree>, n: int)
    ensures
        1 <= key_upto(ps, n),
    decreases n,
{
    if n > 0 {
        lemma_key_positive(ps, n - 1);
        let f = if is_divider(ps[n - 1]) {
            rank_upto(ps, n - 1, ps.len() as int) + 1
        } else {
            1nat
        };
        assert(key_upto(ps, n - 1) * f >= 1) by (nonlinear_arith)
            requires
                f >= 1,
                key_upto(ps, n - 1) >= 1,
        ;
    }
}

/// The number of packets that come before the packet at place `k` in the sorted list.
pub fn rank(packets: &Vec<Packet>, k: usize) -> (r: usize)
    requires
        k < packets.len(),
    ensures
        r == rank_upto(trees(packets@), k as int, packets.len() as int),
        r <= packets.len(),
{
    let ghost ps = trees(packets@);
    let mut r: usize = 0;
    let mut j: usize = 0;
    while j < packets.len()
        invariant
            j <= packets.len(),
            k < packets.len(),
            ps == trees(packets@),
            r == rank_upto(ps, k as int, j as int),
            r <= j,
        decreases packets.len() - j,
    {
        assert(ps[j as int] == packets@[j as int]@);
        assert(ps[k as int] == packets@[k as int]@);
        let first = match compare_packets(&packets[j], &packets[k]) {
            Order::Less => true,
            Order::Equal => j < k,
            Order::Greater => false,
        };
        if first {
            r += 1;
        }
        j += 1;
    }
    r
}

/// The product of the places of the dividers in the sorted list of the packets of `s`
/// and the two dividers, or `None` where a line writes no packet or the product is more
/// than a `usize` holds.
pub fn divider_key(s: &str) -> (r: Option<usize>)
    ensures
        r is Some <==> with_dividers(packet_lines(s@)) is Some && key_upto(
            with_dividers(packet_lines(s@)).unwrap(),
            with_dividers(packet_lines(s@)).unwrap().len() as int,
        ) <= usize::MAX,
        r is Some ==> r.unwrap() == key_upto(
            with_dividers(packet_lines(s@)).unwrap(),
            with_dividers(packet_lines(s@)).unwrap().len() as int,
        ),
{
    let all = chars_of(s);
    let text = trimmed(&all);
    let mut gap: Vec<char> = Vec::new();
    gap.push('\n');
    gap.push('\n');
    assert(gap@ =~= seq!['\n', '\n']);
    let feed = one_char('\n');
    let parts = split_on(&text, &gap);
    let joined = join_with(&parts, &feed);
    let rows = lines_of(&joined);
    let ghost texts = views(rows@);
    let mut packets: Vec<Packet> = Vec::new();
    let mut i: usize = 0;
    while i < rows.len()
        invariant
            i <= rows.len(),
            texts == views(rows@),
            texts == packet_lines(s@),
            packets.len() == i,
            forall|k: int| 0 <= k < i ==> json_tree(#[trigger] texts[k]) == Some(packets@[k]@),
        decreases rows.len() - i,
    {
        assert(texts[i as int] == rows@[i as int]@);
        let line = string_of(&rows[i]);
        match parse_packet(line.as_str()) {
            Some(packet) => {
                packets.push(packet);
            },
            None => {
                return None;
            },
        }
        i += 1;
    }
    let m1 = divider_packet(2);
    let m2 = divider_packet(6);
    packets.push(divider_packet(2));
    packets.push(divider_packet(6));
    let ghost ps = trees(packets@);
    proof {
        assert(with_dividers(texts) is Some);
        assert(ps =~= with_dividers(texts).unwrap());
    }
    let mut key: usize = 1;
    let mut k: usize = 0;
    while k < packets.len()
        invariant
            k <= packets.len(),
            ps == trees(packets@),
            with_dividers(packet_lines(s@)) == Some(ps),
            m1@ == divider(2),
            m2@ == divider(6),
            key == key_upto(ps, k as int),
        decreases packets.len() - k,
    {
        assert(ps[k as int] == packets@[k as int]@);
        if same_packet(&packets[k], &m1) || same_packet(&packets[k], &m2) {
            let place = rank(&packets, k) as u128 + 1;
            assert(place * key <= 0xffff_ffff_ffff_ffff_ffff_ffff_ffff_ffff) by (nonlinear_arith)
                requires
                    0 <= place <= 0x1_0000_0000_0000_0000,
                    0 <= key <= 0xffff_ffff_ffff_ffff,
            ;
            let product: u128 = place * (key as u128);
            assert(product == key_upto(ps, k + 1)) by (nonlinear_arith)
                requires
                    product == place * key,
                    key_upto(ps, k + 1) == key * place,
            ;
            if product > usize::MAX as u128 {
                proof {
                    lemma_key_grows(ps, k + 1, ps.len() as int);
                }
                return None;
            }
            key = product as usize;
        } else {
            assert(key_upto(ps, k + 1) == key * 1);
        }
        k += 1;
    }
    Some(key)
}

/// The product of the places of the dividers `[[2]]` and `[[6]]` in the sorted list of
/// the packets of `s` and the two dividers.
pub fn decoder_key(s: &str) -> (key: usize)
    requires
        with_dividers(packet_lines(s@)) is Some,
        key_upto(
            with_dividers(packet_lines(s@)).unwrap(),
            with_dividers(packet_lines(s@)).unwrap().len() as int,
        ) <= usize::MAX,
    ensures
        key == key_upto(
            with_dividers(packet_lines(s@)).unwrap(),
            with_dividers(packet_lines(s@)).unwrap().len() as int,
        ),
{
    match divider_key(s) {
        Some(key) => key,
        None => unreached(),
    }
}

/// The product of the places of the dividers, or `None` where a line writes no packet
/// or the product is more than a `usize` holds.
pub fn try_decoder_key(s: &str) -> (r: Option<usize>)
    ensures
        r is Some <==> with_dividers(packet_lines(s@)) is Some && key_upto(
            with_dividers(packet_lines(s@)).unwrap(),
            with_dividers(packet_lines(s@)).unwrap().len() as int,
        ) <= usize::MAX,
        r is Some ==> r.unwrap() == key_upto(
            with_dividers(packet_lines(s@)).unwrap(),
            with_dividers(packet_lines(s@)).unwrap().len() as int,
        ),
{
    match divider_key(s) {
        Some(_) => Some(decoder_key(s)),
        None => None,
    }
}

} // verus!
