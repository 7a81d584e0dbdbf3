use aoc22::day09::{
    count_tail_positions, follow_knot, num_tail_positions, num_tail_positions_p1,
    num_tail_positions_p2, Command, Rope,
};

#[test]
fn test_num_tail_positions_p1() {
    let input = "R 4
U 4
L 3
D 1
R 4
D 1
L 5
R 2";
    assert_eq!(num_tail_positions_p1(input), 13)
}

#[test]
fn test_num_tail_positions_p2() {
    let input = "R 5
U 8
L 8
D 3
R 17
D 10
L 25
U 20";
    assert_eq!(num_tail_positions_p2(input), 36)
}

#[test]
fn commands_are_read_from_lines() {
    assert_eq!(Command::from_str("L 3"), Ok(Command::Left(3)));
    assert_eq!(Command::from_str("R 17"), Ok(Command::Right(17)));
    assert_eq!(Command::from_str("U +4"), Ok(Command::Up(4)));
    assert_eq!(Command::from_str("D 0"), Ok(Command::Down(0)));
    assert_eq!(Command::from_str("X 3"), Err(()));
    assert_eq!(Command::from_str("L"), Err(()));
    assert_eq!(Command::from_str("L -3"), Err(()));
    assert_eq!(Command::from_str("L  3"), Err(()));
    assert_eq!(Command::from_str("L 3 "), Err(()));
    assert_eq!(Command::Left(3).move_tuple(), (3, 0, -1));
    assert_eq!(Command::Right(4).move_tuple(), (4, 0, 1));
    assert_eq!(Command::Up(5).move_tuple(), (5, 1, 0));
    assert_eq!(Command::Down(6).move_tuple(), (6, -1, 0));
}

#[test]
fn a_knot_follows_the_one_before_it() {
    assert_eq!(follow_knot((0, 0), (0, 0)), (0, 0));
    assert_eq!(follow_knot((1, 1), (0, 0)), (0, 0));
    assert_eq!(follow_knot((0, 2), (0, 0)), (0, 1));
    assert_eq!(follow_knot((-2, 0), (0, 0)), (-1, 0));
    assert_eq!(follow_knot((2, 1), (0, 0)), (1, 1));
    assert_eq!(follow_knot((-1, -2), (0, 0)), (-1, -1));
    assert_eq!(follow_knot((2, 2), (0, 0)), (1, 1));
    assert_eq!(follow_knot((i64::MAX, 0), (i64::MIN, 0)), (i64::MIN + 1, 0));
}

#[test]
fn ropes_of_other_lengths() {
    let input = "R 4\nU 4\nL 3\nD 1\nR 4\nD 1\nL 5\nR 2";
    assert_eq!(num_tail_positions(input, 1), 21);
    assert_eq!(num_tail_positions(input, 10), 1);
    assert_eq!(num_tail_positions_p2(input), 1);
    let mut rope = Rope::new(2);
    assert_eq!(rope.num_visited(), 1);
    Command::Right(4).execute(&mut rope);
    assert_eq!(rope.num_visited(), 4);
    Command::Left(4).execute(&mut rope);
    assert_eq!(rope.num_visited(), 4);
    rope.update_head(0, -1);
    rope.update_head(0, -1);
    assert_eq!(rope.num_visited(), 5);
}

#[test]
fn bad_commands_give_no_count() {
    assert_eq!(count_tail_positions("R 4\nU 4", 2), Some(7));
    assert_eq!(count_tail_positions("R 0", 2), Some(1));
    assert_eq!(count_tail_positions("", 2), None);
    assert_eq!(count_tail_positions("R 4\n\nU 4", 2), None);
    assert_eq!(count_tail_positions("R 9223372036854775808", 2), None);
}
