use aoc22::day14::{
    deepest_rock, num_resting_sand_units, num_resting_sand_units_p1, num_resting_sand_units_p2,
    try_num_resting_sand_units, Ground, Position,
};

static INPUT: &str = "498,4 -> 498,6 -> 496,6
503,4 -> 502,4 -> 502,9 -> 494,9";

fn chars(s: &str) -> Vec<char> {
    s.chars().collect()
}

#[test]
fn test_num_resting_sand_units() {
    assert_eq!(num_resting_sand_units_p1(INPUT), 24);
}

#[test]
fn test_num_resting_sand_units_p2() {
    assert_eq!(num_resting_sand_units_p2(INPUT), 93);
}

#[test]
fn walls_are_read_from_lines() {
    assert_eq!(Position::from_chars(&chars("498,4")), Some(Position::new(498, 4)));
    assert_eq!(Position::from_chars(&chars("-3,+4")), Some(Position::new(-3, 4)));
    assert_eq!(Position::from_chars(&chars("498")), None);
    assert_eq!(Position::from_chars(&chars("498, 4")), None);
    assert_eq!(Position::from_chars(&chars("1,2,3")), None);
    assert_eq!(
        Ground::parse_path(&chars(" 498,4 -> 498,6 -> 496,6 ")),
        Some(vec![
            (Position::new(498, 4), Position::new(498, 6)),
            (Position::new(498, 6), Position::new(496, 6)),
        ])
    );
    // A line of one place is not even read.
    assert_eq!(Ground::parse_path(&chars("nothing")), Some(vec![]));
    assert_eq!(Ground::parse_path(&chars("")), Some(vec![]));
    assert_eq!(Ground::parse_path(&chars("1,2 -> x")), None);
    assert_eq!(Ground::parse_path(&chars("1,2 ->3,4")), Some(vec![]));
    assert_eq!(Ground::parse_path(&chars("1,2 -> 3;4")), None);
    let walls = vec![
        (Position::new(0, 7), Position::new(0, -2)),
        (Position::new(5, 3), Position::new(9, 9)),
    ];
    assert_eq!(deepest_rock(&walls), 9);
    assert_eq!(deepest_rock(&Vec::new()), i64::MIN);
}

#[test]
fn where_a_unit_goes() {
    let walls = Ground::parse_path(&chars("499,2 -> 500,2")).unwrap();
    let ground = Ground::new(&walls, false).unwrap();
    assert_eq!(ground.next_position(&Position::new(500, 0)), Some(Position::new(500, 1)));
    assert_eq!(ground.next_position(&Position::new(500, 1)), Some(Position::new(501, 2)));
    assert_eq!(ground.next_position(&Position::new(499, 1)), Some(Position::new(498, 2)));
    assert_eq!(ground.drop_unit(), None);
    let floor = Ground::new(&walls, true).unwrap();
    assert_eq!(floor.next_position(&Position::new(501, 2)), Some(Position::new(501, 3)));
    assert_eq!(floor.next_position(&Position::new(501, 3)), None);
    assert_eq!(floor.drop_unit(), Some(Position::new(501, 3)));
    let mut cup = Ground::new(
        &vec![
            (Position::new(498, 2), Position::new(502, 2)),
            (Position::new(497, 1), Position::new(497, 2)),
            (Position::new(503, 1), Position::new(503, 2)),
        ],
        false,
    )
    .unwrap();
    assert_eq!(cup.drop_unit(), Some(Position::new(500, 1)));
    cup.start_filling();
    assert_eq!(cup.num_units(), 4);
    assert_eq!(cup.next_position(&Position::new(500, 0)), None);
}

#[test]
fn sand_of_other_grounds() {
    assert_eq!(num_resting_sand_units(INPUT, false), 24);
    assert_eq!(num_resting_sand_units(INPUT, true), 93);
    assert_eq!(num_resting_sand_units("499,1 -> 501,1", false), 1);
    assert_eq!(num_resting_sand_units("499,1 -> 501,1", true), 1);
    assert_eq!(num_resting_sand_units("500,0 -> 500,0", true), 4);
    assert_eq!(num_resting_sand_units("500,0 -> 500,0", false), 0);
    assert_eq!(num_resting_sand_units("0,0 -> 2,2\n500,3 -> 500,3", true), 24);
    assert_eq!(num_resting_sand_units("400,-5 -> 600,-5", false), 0);
    assert_eq!(num_resting_sand_units("400,-5 -> 600,-5", true), 0);
    assert_eq!(num_resting_sand_units("", false), 0);
    assert_eq!(num_resting_sand_units("-9000000000,1 -> 9000000000,1", false), 1);
    assert_eq!(try_num_resting_sand_units(INPUT, false), Some(24));
    assert_eq!(try_num_resting_sand_units("1,2 -> x", false), None);
    assert_eq!(try_num_resting_sand_units("1,2 -> 1,4294967294", false), None);
}
