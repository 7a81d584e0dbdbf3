use aoc22::day24::{fewest_minutes_to_goal, fewest_minutes_within, holds, Basin, Position};

static INPUT: &str = "#.######
#>>.<^<#
#.<..<<#
#>v.><>#
#<^v^^>#
######.#";

#[test]
fn test_fewest_minutes_to_goal() {
    assert_eq!(fewest_minutes_to_goal(INPUT), 18);
}

#[test]
fn basins_are_read_from_drawings() {
    let basin = Basin::from_str(INPUT).unwrap();
    assert!(basin.is_wall(&Position::new(-1, -1)));
    assert!(basin.is_wall(&Position::new(-2, 0)));
    assert!(!basin.is_wall(&Position::new(-1, 0)));
    assert!(basin.is_wall(&Position::new(4, 4)));
    assert!(!basin.is_wall(&Position::new(4, 5)));
    assert!(!basin.is_wall(&Position::new(5, 5)));
    assert!(basin.is_blizzard(&Position::new(0, 0), 0));
    assert!(!basin.is_blizzard(&Position::new(0, 2), 0));
    assert!(basin.is_blizzard(&Position::new(0, 2), 1));
    assert!(basin.is_blizzard(&Position::new(0, 0), 6));
    assert!(basin.is_blizzard(&Position::new(3, 4), 1));
    assert!(basin.is_blizzard(&Position::new(0, 1), 2));
    assert!(Basin::from_str("").is_none());
    assert!(Basin::from_str("#.#\n#.#").is_none());
    assert!(Basin::from_str("#.#\n#x#\n#.#").is_none());
    assert!(Basin::from_str("#.###\n#.#\n#.#").is_none());
    assert!(Basin::from_str("#.\n#.\n#.").is_none());
    assert!(Basin::from_str("#.\n#.#\n#.#").is_some());
}

#[test]
fn steps_of_the_search() {
    let basin = Basin::from_str(INPUT).unwrap();
    let start = vec![Position::new(-1, 0)];
    let first = basin.step(&start, 1);
    assert_eq!(first, vec![Position::new(0, 0), Position::new(-1, 0)]);
    assert!(!basin.has_goal(&first));
    assert!(basin.has_goal(&vec![Position::new(4, 5)]));
    assert!(holds(&first, &Position::new(-1, 0)));
    assert!(!holds(&first, &Position::new(1, 0)));
    assert_eq!(basin.fewest_minutes_to_goal(), 18);
    let p = Position::new(2, 3);
    assert_eq!(
        p.neighbors(),
        [
            Position::new(1, 3),
            Position::new(3, 3),
            Position::new(2, 2),
            Position::new(2, 4),
            Position::new(2, 3),
        ]
    );
    assert_eq!(p.add(Position::new(-1, 1)), Position::new(1, 4));
}

#[test]
fn small_basins() {
    assert_eq!(fewest_minutes_to_goal("#.#\n#.#\n#.#"), 2);
    assert_eq!(fewest_minutes_to_goal("#.###\n#...#\n###.#"), 4);
    assert_eq!(fewest_minutes_to_goal("#.###\n#.>.#\n###.#"), 4);
    assert_eq!(fewest_minutes_to_goal("#.###\n#..<#\n#...#\n###.#"), 5);
}

#[test]
fn searches_with_a_limit() {
    assert_eq!(fewest_minutes_within(INPUT, 18), Some(18));
    assert_eq!(fewest_minutes_within(INPUT, 17), None);
    assert_eq!(fewest_minutes_within(INPUT, 0), None);
    assert_eq!(fewest_minutes_within("#.#", 50), None);
    // A wall across the basin cannot be passed.
    assert_eq!(fewest_minutes_within("#.###\n#####\n#...#\n###.#", 40), None);
    let basin = Basin::from_str(INPUT).unwrap();
    assert_eq!(basin.fewest_minutes_within(1000), Some(18));
}
