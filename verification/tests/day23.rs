use aoc22::day23::{
    empty_ground_tiles, first_idle_round, try_simulate, Grove, Position, Tile,
};

static INPUT: &str = "....#..
..###.#
#...#.#
.#...##
#.###..
##.#.##
.#..#..";

#[test]
fn test_empty_ground_tiles() {
    assert_eq!(empty_ground_tiles(INPUT), 110);
}

#[test]
fn test_first_idle_round() {
    assert_eq!(first_idle_round(INPUT), 20);
}

fn elves(grove: &Grove, rows: i64, cols: i64) -> Vec<(i64, i64)> {
    let mut out = Vec::new();
    for r in 0..rows {
        for c in 0..cols {
            if grove.tile(&Position::new(r, c)) == Tile::Elf {
                out.push((r, c));
            }
        }
    }
    out
}

#[test]
fn rounds_of_the_small_example() {
    let small = ".....\n..##.\n..#..\n.....\n..##.\n.....";
    let mut grove = Grove::from_str(small, 2).unwrap();
    assert!(grove.is_roomy());
    assert_eq!(elves(&grove, 10, 9), vec![(3, 4), (3, 5), (4, 4), (6, 4), (6, 5)]);
    assert_eq!(grove.bounds(), (3, 4, 6, 5));
    assert_eq!(grove.free_tiles(), 3);
    assert_eq!(grove.round(1), 3);
    assert_eq!(elves(&grove, 10, 9), vec![(2, 4), (2, 5), (4, 4), (5, 5), (6, 4)]);
    assert_eq!(grove.round(2), 5);
    assert_eq!(elves(&grove, 10, 9), vec![(3, 4), (3, 5), (4, 3), (5, 6), (7, 4)]);
    assert_eq!(grove.round(3), 3);
    assert_eq!(elves(&grove, 10, 9), vec![(2, 4), (3, 6), (4, 2), (5, 6), (7, 4)]);
    assert_eq!(grove.round(4), 0);
    assert_eq!(grove.free_tiles(), 25);
    assert_eq!(grove.tile(&Position::new(-1, 0)), Tile::Empty);
    assert_eq!(grove.tile(&Position::new(0, 99)), Tile::Empty);
    assert_eq!(Position::new(1, 2).add(Position::new(-1, 1)), Position::new(0, 3));
}

#[test]
fn outcomes_of_short_runs() {
    let small = ".....\n..##.\n..#..\n.....\n..##.\n.....";
    assert_eq!(Grove::from_str(small, 6).unwrap().simulate(1), Some(5));
    assert_eq!(Grove::from_str(small, 6).unwrap().simulate(2), Some(15));
    assert_eq!(Grove::from_str(small, 6).unwrap().simulate(3), Some(25));
    assert_eq!(Grove::from_str(small, 6).unwrap().simulate(4), Some(25));
    assert_eq!(Grove::from_str(small, 6).unwrap().simulate(10), Some(4));
    assert_eq!(empty_ground_tiles(small), 4);
    assert_eq!(first_idle_round(small), 4);
    assert_eq!(Grove::from_str("#", 3).unwrap().simulate(10), Some(1));
    assert_eq!(Grove::from_str("##", 3).unwrap().simulate(1), Some(0));
    assert_eq!(Grove::from_str("##", 3).unwrap().simulate(5), Some(4));
    assert_eq!(Grove::from_str("##", 3).unwrap().simulate(0), None);
    assert_eq!(Grove::from_str("..", 1).unwrap().simulate(3), Some(1));
    assert_eq!(Grove::from_str("..", 1).unwrap().simulate(1), Some(0));
}

#[test]
fn elves_must_keep_off_the_edge() {
    let mut tight = Grove::from_str("##", 1).unwrap();
    assert!(tight.is_roomy());
    assert_eq!(tight.simulate(2), None);
    let mut none = Grove::from_str("##", 0).unwrap();
    assert!(!none.is_roomy());
    assert_eq!(none.simulate(1), None);
    assert!(Grove::from_str("", 3).is_none());
    assert!(Grove::from_str("#x", 3).is_none());
    assert!(Grove::from_str("#\n.....", 3).is_none());
    assert!(Grove::from_str("#\n....", 3).is_some());
}

#[test]
fn runs_on_drawings_that_cannot_be_read() {
    assert_eq!(try_simulate(INPUT, 6, 10), Some(110));
    assert_eq!(try_simulate(INPUT, 60, usize::MAX), Some(20));
    assert_eq!(try_simulate(INPUT, 2, 10), None);
    assert_eq!(try_simulate("", 6, 10), None);
    assert_eq!(try_simulate("#?", 6, 10), None);
    assert_eq!(try_simulate("#", usize::MAX, 10), None);
}

#[test]
fn drawing_of_the_grid() {
    let mut grove = Grove::from_str("##\n#.", 1).unwrap();
    let drawn: Vec<String> = grove.render().into_iter().map(|l| l.into_iter().collect()).collect();
    assert_eq!(drawn, vec!["....", ".##.", ".#..", "...."]);
    assert_eq!(grove.round(1), 3);
    let drawn: Vec<String> = grove.render().into_iter().map(|l| l.into_iter().collect()).collect();
    assert_eq!(drawn, vec![".##.", "....", "....", ".#.."]);
    assert_eq!(Tile::Elf.symbol(), '#');
}
