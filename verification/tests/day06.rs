use aoc22::day06::{start_of_packet, start_of_packet_p1, start_of_packet_p2};

#[test]
fn test_start_of_packet_4() {
    assert_eq!(start_of_packet_p1("bvwbjplbgvbhsrlpgdmjqwftvncz"), 5);
    assert_eq!(start_of_packet_p1("nppdvjthqldpwncqszvftbrmjlhg"), 6);
    assert_eq!(start_of_packet_p1("nznrnfrfntjfmvfwmzdfjlvtqnbhcprsg"), 10);
    assert_eq!(start_of_packet_p1("zcfzfwzzqfrljwzlrfnpqdbhtmscgvjw"), 11);
}

#[test]
fn test_start_of_packet_14() {
    assert_eq!(start_of_packet_p2("mjqjpqmgbljsphdztnvjfqwrcgsmlb"), 19);
    assert_eq!(start_of_packet_p2("bvwbjplbgvbhsrlpgdmjqwftvncz"), 23);
    assert_eq!(start_of_packet_p2("nppdvjthqldpwncqszvftbrmjlhg"), 23);
    assert_eq!(start_of_packet_p2("nznrnfrfntjfmvfwmzdfjlvtqnbhcprsg"), 29);
    assert_eq!(start_of_packet_p2("zcfzfwzzqfrljwzlrfnpqdbhtmscgvjw"), 26);
}

#[test]
fn first_marker_in_the_stream() {
    assert_eq!(start_of_packet_p1("mjqjpqmgbljsphdztnvjfqwrcgsmlb"), 7);
    assert_eq!(start_of_packet("aabc", 2), 3);
    assert_eq!(start_of_packet("abab", 3), 0);
    assert_eq!(start_of_packet("", 4), 0);
    assert_eq!(start_of_packet("abc", 4), 0);
}

#[test]
fn a_marker_at_the_very_end_is_not_seen() {
    assert_eq!(start_of_packet_p1("aaaabcd"), 0);
    assert_eq!(start_of_packet_p1("aaaabcde"), 7);
    assert_eq!(start_of_packet("abcd", 4), 0);
    assert_eq!(start_of_packet("abcd", 0), 0);
    assert_eq!(start_of_packet("abcd", 1), 1);
}
