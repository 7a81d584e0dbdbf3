use aoc22::day15::{
    any_in_range, count_empty_positions, distress_beacon_tuning_frequency, num_empty_positions,
    read_report, search_way, search_ways, try_distress_beacon_tuning_frequency,
    try_num_empty_positions, wide_empty_positions, Content, Position, ReportEntry, SensorMap,
};

static INPUT: &str = "Sensor at x=2, y=18: closest beacon is at x=-2, y=15
Sensor at x=9, y=16: closest beacon is at x=10, y=16
Sensor at x=13, y=2: closest beacon is at x=15, y=3
Sensor at x=12, y=14: closest beacon is at x=10, y=16
Sensor at x=10, y=20: closest beacon is at x=10, y=16
Sensor at x=14, y=17: closest beacon is at x=10, y=16
Sensor at x=8, y=7: closest beacon is at x=2, y=10
Sensor at x=2, y=0: closest beacon is at x=2, y=10
Sensor at x=0, y=11: closest beacon is at x=2, y=10
Sensor at x=20, y=14: closest beacon is at x=25, y=17
Sensor at x=17, y=20: closest beacon is at x=21, y=22
Sensor at x=16, y=7: closest beacon is at x=15, y=3
Sensor at x=14, y=3: closest beacon is at x=15, y=3
Sensor at x=20, y=1: closest beacon is at x=15, y=3";

fn chars(s: &str) -> Vec<char> {
    s.chars().collect()
}

#[test]
fn test_num_empty_positions() {
    assert_eq!(num_empty_positions(INPUT, 10), 26);
}

#[test]
fn test_distress_beacon_tuning_frequency() {
    assert_eq!(distress_beacon_tuning_frequency(INPUT, 20), 56000011);
}

#[test]
fn distances_and_neighbours() {
    let p = Position::new(3, -4);
    assert_eq!(p.manhattan_distance(&Position::new(0, 0)), 7);
    assert_eq!(p.manhattan_distance(&p), 0);
    assert_eq!(
        Position::new(i64::MIN, 0).wide_distance(&Position::new(i64::MAX, 0)),
        u64::MAX as i128
    );
    assert_eq!(p.neighbors_within(0), vec![p]);
    assert_eq!(p.neighbors_within(-1), Vec::<Position>::new());
    assert_eq!(
        Position::new(0, 0).neighbors_within(1),
        vec![
            Position::new(0, -1),
            Position::new(-1, 0),
            Position::new(0, 0),
            Position::new(1, 0),
            Position::new(0, 1),
        ]
    );
    let two = Position::new(10, 10).neighbors_within(2);
    assert_eq!(two.len(), 13);
    for q in &two {
        assert!(Position::new(10, 10).manhattan_distance(q) <= 2);
    }
}

#[test]
fn entries_are_read_from_lines() {
    let line = chars("Sensor at x=2, y=18: closest beacon is at x=-2, y=15");
    let entry = ReportEntry::from_chars(&line).unwrap();
    assert_eq!(entry.sensor, Position::new(2, 18));
    assert_eq!(entry.beacon, Position::new(-2, 15));
    assert_eq!(entry.distance, 7);
    assert_eq!(entry, ReportEntry::new(Position::new(2, 18), Position::new(-2, 15)));
    // Only the places of the numbers matter.
    let odd = chars(&format!(
        "{}1,{}+2:{}-3,{}04",
        ".".repeat(12),
        ".".repeat(3),
        ".".repeat(24),
        ".".repeat(3)
    ));
    assert_eq!(
        ReportEntry::from_chars(&odd),
        Some(ReportEntry::new(Position::new(1, 2), Position::new(-3, 4)))
    );
    assert_eq!(ReportEntry::from_chars(&chars("Sensor at x=2, y=18")), None);
    assert_eq!(ReportEntry::from_chars(&chars("Sensor at x=2: closest beacon is at x=-2, y=15")), None);
    assert_eq!(ReportEntry::from_chars(&chars("x=2, y=18: closest beacon is at x=-2, y=15")), None);
    assert_eq!(
        ReportEntry::from_chars(&chars("Sensor at x=2, y=1 : closest beacon is at x=-2, y=15")),
        None
    );
    assert_eq!(
        ReportEntry::from_chars(&chars(
            "Sensor at x=-9223372036854775808, y=0: closest beacon is at x=1, y=0"
        )),
        None
    );
    assert_eq!(read_report(INPUT).unwrap().len(), 14);
    assert_eq!(read_report("").unwrap().len(), 0);
    assert_eq!(read_report("Sensor"), None);
}

#[test]
fn a_beacon_is_not_in_range_of_its_sensor() {
    let entry = ReportEntry::new(Position::new(8, 7), Position::new(2, 10));
    assert_eq!(entry.distance, 9);
    assert!(entry.is_in_range(&Position::new(8, 7)));
    assert!(entry.is_in_range(&Position::new(8, 16)));
    assert!(!entry.is_in_range(&Position::new(8, 17)));
    assert!(entry.is_in_range(&Position::new(-1, 7)));
    assert!(!entry.is_in_range(&Position::new(-2, 7)));
    assert!(!entry.is_in_range(&Position::new(2, 10)));
    assert!(entry.is_in_range(&Position::new(3, 10)));
}

#[test]
fn rows_of_the_example() {
    let report = read_report(INPUT).unwrap();
    assert_eq!(count_empty_positions(&report, 10), 26);
    assert_eq!(count_empty_positions(&report, 9), 25);
    assert_eq!(count_empty_positions(&report, 11), 28);
    assert_eq!(count_empty_positions(&Vec::new(), 10), 0);
    assert!(any_in_range(&report, &Position::new(14, 10)));
    assert!(!any_in_range(&report, &Position::new(14, 11)));
    assert!(!any_in_range(&report, &Position::new(2, 10)));
}

#[test]
fn ways_that_are_searched() {
    let report = read_report(INPUT).unwrap();
    assert_eq!(search_ways(&report, 20), Some(Position::new(14, 11)));
    assert_eq!(search_way(&report, &report[0], 20), None);
    let lone = vec![ReportEntry::new(Position::new(5, 5), Position::new(5, 7))];
    assert_eq!(search_way(&lone, &lone[0], 20), Some(Position::new(2, 5)));
    assert_eq!(search_ways(&lone, 20), Some(Position::new(2, 5)));
    assert_eq!(search_ways(&lone, 4), None);
    assert_eq!(search_ways(&Vec::new(), 20), None);
}

#[test]
fn the_map_of_a_small_report() {
    let report = vec![ReportEntry::new(Position::new(2, 2), Position::new(3, 2))];
    let mut map = SensorMap::from_report(report).unwrap();
    assert_eq!(map.extent(), (4, 5, 0, 0));
    let drawn: Vec<String> = map.render().into_iter().map(|l| l.into_iter().collect()).collect();
    assert_eq!(drawn, vec![".....", "..#..", ".#SB.", "..#.."]);
    assert_eq!(map.index(&Position::new(3, 2)), (2, 3));
    assert_eq!(map.get(&Position::new(3, 2)), Content::Beacon);
    assert_eq!(map.get(&Position::new(2, 2)), Content::Sensor);
    assert_eq!(map.get(&Position::new(1, 2)), Content::Empty);
    assert_eq!(map.get(&Position::new(0, 0)), Content::Unknown);
    map.put(&Position::new(0, 0), Content::Beacon);
    assert_eq!(map.get(&Position::new(0, 0)), Content::Beacon);
    assert_eq!(map.get(&Position::new(1, 0)), Content::Unknown);
    map.put(&Position::new(2, 1), Content::Unknown);
    map.scan();
    assert_eq!(map.get(&Position::new(2, 1)), Content::Empty);
    assert_eq!(map.get(&Position::new(0, 0)), Content::Beacon);
    assert_eq!(Content::Unknown.symbol(), '.');
    assert_eq!(Content::Empty.symbol(), '#');
    assert_eq!(Content::Sensor.symbol(), 'S');
    assert_eq!(Content::Beacon.symbol(), 'B');
}

#[test]
fn the_map_of_the_example() {
    let map = SensorMap::from_report(read_report(INPUT).unwrap()).unwrap();
    let (rows, columns, min_x, min_y) = map.extent();
    // The farthest beacon is 10 from its sensor.
    assert_eq!((min_x, min_y), (-2 - 10 - 1, 0 - 10 - 1));
    assert_eq!((rows, columns), (22 + 22, 27 + 22));
    let drawn = map.render();
    let empty_in_row_10 =
        drawn[(10 - min_y) as usize].iter().filter(|c| **c == '#').count();
    assert_eq!(empty_in_row_10, 26);
    assert_eq!(map.get(&Position::new(14, 11)), Content::Unknown);
    assert_eq!(map.get(&Position::new(2, 10)), Content::Beacon);
    assert_eq!(map.get(&Position::new(8, 7)), Content::Sensor);
    assert!(SensorMap::from_report(Vec::new()).is_none());
    let far = vec![ReportEntry::new(Position::new(0, 0), Position::new(i64::MAX, 0))];
    assert!(SensorMap::from_report(far).is_none());
    let later = vec![
        ReportEntry::new(Position::new(0, 0), Position::new(1, 0)),
        ReportEntry::new(Position::new(1, 0), Position::new(0, 0)),
    ];
    let twice = SensorMap::from_report(later).unwrap();
    assert_eq!(twice.get(&Position::new(1, 0)), Content::Sensor);
    assert_eq!(twice.get(&Position::new(0, 0)), Content::Beacon);
}

#[test]
fn reports_that_give_no_answer() {
    assert_eq!(try_num_empty_positions(INPUT, 10), Some(26));
    assert_eq!(try_num_empty_positions("", 10), Some(0));
    assert_eq!(try_num_empty_positions("Sensor", 10), None);
    let far = "Sensor at x=9223372036854775806, y=0: closest beacon is at x=9223372036854775800, y=0";
    assert_eq!(try_num_empty_positions(far, 10), None);
    assert_eq!(try_distress_beacon_tuning_frequency(INPUT, 20), Some(56000011));
    assert_eq!(try_distress_beacon_tuning_frequency(INPUT, 10), None);
    assert_eq!(try_distress_beacon_tuning_frequency("", 20), None);
    let low = "Sensor at x=-9223372036854775807, y=0: closest beacon is at x=-9223372036854775806, y=0";
    assert_eq!(try_distress_beacon_tuning_frequency(low, 20), None);
    let lone = vec![ReportEntry::new(Position::new(5, 5), Position::new(5, 7))];
    assert_eq!(wide_empty_positions(&lone, 5), 5);
    assert_eq!(wide_empty_positions(&lone, 7), 0);
    assert_eq!(wide_empty_positions(&lone, 6), 3);
}
