use aoc22::day13::{
    compare, compare_packets, decoder_key, divider_key, divider_packet, parse_pair,
    parse_packet, rank, right_indices, same_packet, sum_right_indices, try_decoder_key,
    try_sum_right_indices, Order, Packet,
};
use std::cmp::Ordering;

static INPUT: &str = "[1,1,3,1,1]
[1,1,5,1,1]

[[1],[2,3,4]]
[[1],4]

[9]
[[8,7,6]]

[[4,4],4,4]
[[4,4],4,4,4]

[7,7,7,7]
[7,7,7]

[]
[3]

[[[]]]
[[]]

[1,[2,[3,[4,[5,6,7]]]],8,9]
[1,[2,[3,[4,[5,6,0]]]],8,9]";

#[test]
fn test_compare() {
    let tests = [
        // Integers.
        ("2", "3", Ordering::Less),
        ("4", "3", Ordering::Greater),
        ("4", "4", Ordering::Equal),
        // Lists.
        ("[1, 1, 3, 1, 1]", "[1, 1, 5, 1, 1]", Ordering::Less),
        ("[1, 1, 6, 1, 1]", "[1, 1, 5, 1, 1]", Ordering::Greater),
        ("[1, 1, 6, 1, 1]", "[1, 1, 6, 1, 1]", Ordering::Equal),
        ("[1, 1, 6, 1]", "[1, 1, 6, 1, 1]", Ordering::Less),
        // Mixed.
        ("[9]", "[[8, 7, 6]]", Ordering::Greater),
        ("[[4, 4], 4, 4]", "[[4, 4], 4, 4, 4]", Ordering::Less),
        ("[[[]]]", "[[]]", Ordering::Greater),
        (
            "[1, [2, [3, [4, [5, 6, 7]]]], 8, 9]",
            "[1, [2, [3, [4, [5, 6, 0]]]], 8, 9]",
            Ordering::Greater,
        ),
        ("[2, 3, 4]", "4", Ordering::Less),
    ];

    for (i, (left, right, order)) in tests.iter().enumerate() {
        let (Some(left), Some(right)) = (parse_packet(left), parse_packet(right)) else {
            unreachable!();
        };
        assert_eq!(compare(&left, &right), order.clone(), "test {}", i);
    }
}

#[test]
fn test_sum_right_indices() {
    assert_eq!(sum_right_indices(INPUT), 13);
}

#[test]
fn test_decoder_key() {
    assert_eq!(decoder_key(INPUT), 140);
}

#[test]
fn packets_are_read_as_json() {
    assert_eq!(parse_packet("7"), Some(Packet::Number(7)));
    assert_eq!(parse_packet(" -7 "), Some(Packet::Number(-7)));
    assert_eq!(parse_packet("[]"), Some(Packet::List(vec![])));
    assert_eq!(
        parse_packet("[1,[2, []]]"),
        Some(Packet::List(vec![
            Packet::Number(1),
            Packet::List(vec![Packet::Number(2), Packet::List(vec![])]),
        ]))
    );
    assert_eq!(parse_packet("[[2]]"), Some(divider_packet(2)));
    assert_eq!(parse_packet(""), None);
    assert_eq!(parse_packet("[1,"), None);
    assert_eq!(parse_packet("[1] [2]"), None);
    assert_eq!(parse_packet("1.5"), None);
    assert_eq!(parse_packet("[1, \"a\"]"), None);
    assert_eq!(parse_packet("[null]"), None);
    assert_eq!(parse_packet("{}"), None);
    assert_eq!(parse_packet("9223372036854775807"), Some(Packet::Number(i64::MAX)));
    assert_eq!(parse_packet("9223372036854775808"), None);
    let chunk: Vec<char> = "[1]\n[2]".chars().collect();
    assert_eq!(
        parse_pair(&chunk),
        Some((Packet::List(vec![Packet::Number(1)]), Packet::List(vec![Packet::Number(2)])))
    );
    let one: Vec<char> = "[1]".chars().collect();
    assert_eq!(parse_pair(&one), None);
    let three: Vec<char> = "[1]\n[2]\n[3]".chars().collect();
    assert_eq!(parse_pair(&three), None);
}

#[test]
fn a_number_stands_as_the_list_of_it() {
    let p = |s: &str| parse_packet(s).unwrap();
    assert_eq!(compare_packets(&p("3"), &p("[3]")), Order::Equal);
    assert_eq!(compare_packets(&p("3"), &p("[[3]]")), Order::Equal);
    assert_eq!(compare_packets(&p("3"), &p("[3,0]")), Order::Less);
    assert_eq!(compare_packets(&p("3"), &p("[]")), Order::Greater);
    assert_eq!(compare_packets(&p("[]"), &p("3")), Order::Less);
    assert_eq!(compare_packets(&p("[3,0]"), &p("3")), Order::Greater);
    assert_eq!(compare_packets(&p("[4]"), &p("3")), Order::Greater);
    assert_eq!(compare_packets(&p("[[2],1]"), &p("[2,2]")), Order::Less);
    assert_eq!(compare_packets(&p("[]"), &p("[]")), Order::Equal);
    assert!(same_packet(&p("[[2]]"), &divider_packet(2)));
    assert!(!same_packet(&p("[2]"), &divider_packet(2)));
    assert!(!same_packet(&p("[[2],1]"), &p("[[2]]")));
    assert!(!same_packet(&p("2"), &p("[2]")));
    assert!(same_packet(&p("[1,[2,[]]]"), &p("[1, [2, []]]")));
}

#[test]
fn places_in_the_sorted_list() {
    let packets: Vec<Packet> =
        ["[3]", "1", "[[1]]", "[]", "3"].iter().map(|s| parse_packet(s).unwrap()).collect();
    let ranks: Vec<usize> = (0..packets.len()).map(|k| rank(&packets, k)).collect();
    assert_eq!(ranks, vec![3, 1, 2, 0, 4]);
}

#[test]
fn sums_and_keys_of_other_texts() {
    assert_eq!(right_indices("[1]\n[2]"), Some(1));
    assert_eq!(right_indices("[2]\n[1]\n\n[1]\n[2]\n"), Some(2));
    assert_eq!(try_sum_right_indices(INPUT), Some(13));
    assert_eq!(try_sum_right_indices("[1]\n[2]\n\n\n[1]\n[2]"), None);
    assert_eq!(try_sum_right_indices("[1]"), None);
    assert_eq!(try_sum_right_indices(""), None);
    assert_eq!(divider_key(""), Some(2));
    assert_eq!(divider_key("[[2]]"), Some(1 * 2 * 3));
    assert_eq!(divider_key("[[6]]\n\n[[2]]\n[7]"), Some(1 * 2 * 3 * 4));
    assert_eq!(divider_key("[1]\n[[2]]\n\n\n[3]"), None);
    assert_eq!(try_decoder_key(INPUT), Some(140));
    assert_eq!(try_decoder_key("[1]\nx"), None);
}
