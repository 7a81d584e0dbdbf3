use aoc22::day12::{num_steps_to_target_p1, num_steps_to_target_p2, HeightMap, Position};

static INPUT: &str = "Sabqponm
abcryxxl
accszExk
acctuvwj
abdefghi";

#[test]
fn test_num_steps_to_target_p1() {
    assert_eq!(num_steps_to_target_p1(INPUT), 31);
}

#[test]
fn test_num_steps_to_target_p2() {
    assert_eq!(num_steps_to_target_p2(INPUT), 29);
}

#[test]
fn maps_are_read_from_text() {
    let map = HeightMap::from_str(INPUT).unwrap();
    assert_eq!(map.start_position(), Position(0, 0));
    assert!(map.is_end(&Position(2, 5)));
    assert!(!map.is_end(&Position(2, 4)));
    assert!(map.is_low(0, 0));
    assert!(map.is_low(1, 0));
    assert!(!map.is_low(0, 2));
    assert!(HeightMap::from_str("").is_err());
    assert!(HeightMap::from_str("ab\nc").is_err());
    assert!(HeightMap::from_str("ab\n\ncd").is_err());
    // Without the letters the start and the end are the first place.
    let plain = HeightMap::from_str("bc\nde").unwrap();
    assert_eq!(plain.start_position(), Position(0, 0));
    assert!(plain.is_end(&Position(0, 0)));
    assert_eq!(plain.fewest_steps(&Position(0, 0)), Some(0));
    // The last of several letters counts.
    let twice = HeightMap::from_str("SaS\nEzE").unwrap();
    assert_eq!(twice.start_position(), Position(0, 2));
    assert!(twice.is_end(&Position(1, 2)));
}

#[test]
fn steps_climb_by_one_at_most() {
    let map = HeightMap::from_str(INPUT).unwrap();
    assert_eq!(map.neighbors(&Position(0, 0)), vec![Position(1, 0), Position(0, 1)]);
    assert_eq!(
        map.neighbors(&Position(1, 1)),
        vec![Position(0, 1), Position(2, 1), Position(1, 0), Position(1, 2)]
    );
    assert_eq!(map.neighbors(&Position(0, 2)), vec![Position(1, 2), Position(0, 1)]);
    assert_eq!(
        map.neighbors(&Position(2, 5)),
        vec![Position(1, 5), Position(3, 5), Position(2, 4), Position(2, 6)]
    );
    assert_eq!(map.neighbors(&Position(4, 7)), vec![Position(3, 7), Position(4, 6)]);
}

#[test]
fn a_goal_out_of_reach() {
    let map = HeightMap::from_str("SacE").unwrap();
    assert_eq!(map.fewest_steps(&Position(0, 0)), None);
    assert_eq!(map.fewest_steps(&Position(0, 3)), Some(0));
    assert_eq!(map.fewest_steps(&Position(0, 2)), None);
    assert_eq!(map.fewest_steps_from_low(), None);
    let down = HeightMap::from_str("EzS").unwrap();
    assert_eq!(down.fewest_steps(&Position(0, 2)), None);
    let stairs = HeightMap::from_str("SbcdefghijklmnopqrstuvwxyE").unwrap();
    assert_eq!(stairs.fewest_steps(&stairs.start_position()), Some(25));
    assert_eq!(stairs.fewest_steps_from_low(), Some(25));
    let two = HeightMap::from_str("aSbcdefghijklmnopqrstuvwxyEyxwvutsrqponmlkjihgfedcba").unwrap();
    assert_eq!(two.fewest_steps_from_low(), Some(25));
    assert_eq!(two.fewest_steps(&Position(0, 0)), Some(26));
}
