use aoc22::day03::{
    parse_line, priority, sum_priorities_p1, sum_priorities_p2, try_sum_priorities_p1,
    try_sum_priorities_p2,
};

#[test]
fn test_sum_priorities_p1() {
    let s = "vJrwpWtwJgWrhcsFMMfFFhFp
jqHRNqRjqzjGDLGLrsFMfFZSrLrFZsSL
PmmdzqPrVvPwwTWBwg
wMqvLMZHhHMvwLHjbvcjnnSBnvTQFn
ttgJtRGJQctTZtZT
CrZsJsPPZsGzwwsLwLmpwMDw";
    assert_eq!(sum_priorities_p1(s), 157);
}

#[test]
fn test_sum_priorities_p2() {
    let s = "vJrwpWtwJgWrhcsFMMfFFhFp
jqHRNqRjqzjGDLGLrsFMfFZSrLrFZsSL
PmmdzqPrVvPwwTWBwg
wMqvLMZHhHMvwLHjbvcjnnSBnvTQFn
ttgJtRGJQctTZtZT
CrZsJsPPZsGzwwsLwLmpwMDw";
    assert_eq!(sum_priorities_p2(s), 70);
}

#[test]
fn priorities_of_letters() {
    assert_eq!(priority('a'), 1);
    assert_eq!(priority('p'), 16);
    assert_eq!(priority('z'), 26);
    assert_eq!(priority('A'), 27);
    assert_eq!(priority('L'), 38);
    assert_eq!(priority('Z'), 52);
    assert_eq!(priority('`'), 58);
    assert_eq!(priority('{'), 27);
}

#[test]
fn shared_item_of_the_halves() {
    let line: Vec<char> = "vJrwpWtwJgWrhcsFMMfFFhFp".chars().collect();
    assert_eq!(parse_line(&line), Some(16));
    let none: Vec<char> = "abcdef".chars().collect();
    assert_eq!(parse_line(&none), None);
    let odd: Vec<char> = "abcba".chars().collect();
    assert_eq!(parse_line(&odd), Some(1));
    let empty: Vec<char> = Vec::new();
    assert_eq!(parse_line(&empty), None);
}

#[test]
fn sums_of_empty_texts() {
    assert_eq!(sum_priorities_p1(""), 0);
    assert_eq!(sum_priorities_p1("\n\n"), 0);
    assert_eq!(sum_priorities_p2(""), 0);
    assert_eq!(sum_priorities_p2("ab\nxb\nby\n"), 2);
}

#[test]
fn rucksacks_that_share_nothing() {
    assert_eq!(try_sum_priorities_p1("abca\nxyzx\n"), Some(1 + 24));
    assert_eq!(try_sum_priorities_p1("abca\nxyzw\n"), None);
    assert_eq!(try_sum_priorities_p1("abca\n\nxyzz"), None);
    assert_eq!(try_sum_priorities_p1("éé"), None);
    assert_eq!(try_sum_priorities_p1(""), Some(0));
    assert_eq!(try_sum_priorities_p2("ab\nxb\nby\n"), Some(2));
    assert_eq!(try_sum_priorities_p2("ab\nxb\n"), None);
    assert_eq!(try_sum_priorities_p2("ab\nxb\ncy\n"), None);
    assert_eq!(try_sum_priorities_p2("éa\néb\néc"), Some(233 - 96));
    assert_eq!(try_sum_priorities_p2(""), Some(0));
}
