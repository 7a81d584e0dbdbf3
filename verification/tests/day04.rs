use aoc22::day04::{count_lines, num_fully_contained, num_overlapping, parse_line, Range};

#[test]
fn test_num_fully_contained() {
    let s = "2-4,6-8
2-3,4-5
5-7,7-9
2-8,3-7
6-6,4-6
2-6,4-8";
    assert_eq!(num_fully_contained(s), 2);
}

#[test]
fn test_num_overlapping() {
    let s = "2-4,6-8
2-3,4-5
5-7,7-9
2-8,3-7
6-6,4-6
2-6,4-8";
    assert_eq!(num_overlapping(s), 4);
}

#[test]
fn ranges_are_read_from_text() {
    assert_eq!(Range::from_str("2-4"), Ok(Range { start: 2, end: 4 }));
    assert_eq!(Range::from_str(" 12-+7\n"), Ok(Range { start: 12, end: 7 }));
    assert_eq!(Range::from_str("2"), Err(()));
    assert_eq!(Range::from_str("2-3-4"), Err(()));
    assert_eq!(Range::from_str("-2-3"), Err(()));
    assert_eq!(Range::from_str("a-3"), Err(()));
    assert_eq!(Range::from_str("2- 3"), Err(()));
    assert_eq!(Range::from_str("2-99999999999999999999"), Err(()));
    let line: Vec<char> = " 2-4,6-8,junk ".chars().collect();
    assert_eq!(parse_line(&line), Some((Range { start: 2, end: 4 }, Range { start: 6, end: 8 })));
    let one: Vec<char> = "2-4".chars().collect();
    assert_eq!(parse_line(&one), None);
}

#[test]
fn containment_and_overlap() {
    let r = |a, b| Range { start: a, end: b };
    assert!(r(2, 8).does_fully_contain(&r(3, 7)));
    assert!(r(3, 7).does_fully_contain(&r(2, 8)));
    assert!(r(6, 6).does_fully_contain(&r(4, 6)));
    assert!(!r(2, 4).does_fully_contain(&r(3, 5)));
    assert!(r(5, 7).does_overlap(&r(7, 9)));
    assert!(r(7, 9).does_overlap(&r(5, 7)));
    assert!(!r(2, 4).does_overlap(&r(5, 8)));
    assert!(!r(5, 8).does_overlap(&r(2, 4)));
    assert!(r(2, 6).does_overlap(&r(2, 2)));
    assert!(r(i64::MIN, i64::MAX).does_overlap(&r(0, 0)));
}

#[test]
fn bad_lines_give_no_count() {
    assert_eq!(count_lines("2-4,6-8\n2-8,3-7\n", true), Some(1));
    assert_eq!(count_lines("2-4,6-8\n2-8,3-7\n", false), Some(1));
    assert_eq!(count_lines("", true), Some(0));
    assert_eq!(count_lines("2-4,6-8\n\n2-8,3-7", true), None);
    assert_eq!(count_lines("2-4", false), None);
}
