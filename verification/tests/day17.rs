use aoc22::day17::{
    tower_height, tower_height_after, CellState, Chamber, Direction, JetStream, Position, Rock,
    TowerError, NUM_ROCKS, NUM_ROCK_KINDS, WIDTH,
};

static INPUT: &str = ">>><<><>><<<>><>>><<<>>><<<><<<>><>><<>>";

fn cells(v: Vec<Position>) -> Vec<(usize, usize)> {
    let mut out: Vec<(usize, usize)> = v.iter().map(|p| (p.x, p.y)).collect();
    out.sort();
    out
}

fn grid(chamber: &Chamber) -> Vec<Vec<bool>> {
    (0..chamber.height())
        .map(|y| (0..WIDTH).map(|x| chamber.is_occupied(x, y)).collect())
        .collect()
}

#[test]
fn test_tower_height() {
    assert_eq!(tower_height(INPUT), 3068);
}

#[test]
fn canonical_run_by_rock_count() {
    assert_eq!(tower_height_after(INPUT, NUM_ROCKS), Ok(3068));
    assert_eq!(tower_height_after(INPUT, 0), Ok(0));
    assert_eq!(tower_height_after(INPUT, 1), Ok(1));
    assert_eq!(tower_height_after(INPUT, 2), Ok(4));
    assert_eq!(tower_height_after(INPUT, 10), Ok(17));
}

#[test]
fn single_bar_pushed_right_rests_on_the_floor() {
    let mut jets = JetStream::parse(">").unwrap();
    let mut chamber = Chamber::new();
    let at = chamber.drop_rock(&mut jets);
    assert_eq!(at, Position::new(3, 0));
    assert_eq!(chamber.height(), 1);
    assert_eq!(chamber.num_rested(), 1);
    assert_eq!(grid(&chamber), vec![vec![false, false, false, true, true, true, true]]);
    assert_eq!(tower_height_after(">", 1), Ok(1));
}

#[test]
fn pattern_is_trimmed_before_it_is_read() {
    assert_eq!(tower_height(" \t>>><<><>><<<>><>>><<<>>><<<><<<>><>><<>>\n"), 3068);
    assert_eq!(tower_height_after("\n<\n", 6), Ok(12));
}

#[test]
fn bad_patterns_are_parse_errors() {
    assert_eq!(tower_height_after("", 5), Err(TowerError::Parse));
    assert_eq!(tower_height_after("   \n", 5), Err(TowerError::Parse));
    assert_eq!(tower_height_after("<<x>", 5), Err(TowerError::Parse));
    assert_eq!(tower_height_after("< >", 0), Err(TowerError::Parse));
    assert!(matches!(JetStream::parse("<^>"), Err(TowerError::Parse)));
    assert!(JetStream::new(Vec::new()).is_none());
}

#[test]
fn too_many_rocks_exceed_the_capacity() {
    assert_eq!(tower_height_after(">", usize::MAX), Err(TowerError::CapacityExceeded));
    assert_eq!(tower_height_after(">", usize::MAX / 4 + 1), Err(TowerError::CapacityExceeded));
    assert_eq!(tower_height_after("x", usize::MAX), Err(TowerError::Parse));
}

#[test]
fn catalog_of_shapes() {
    assert_eq!(NUM_ROCK_KINDS, 5);
    let bar = Rock::HorizontalBar;
    assert_eq!((bar.width(), bar.height()), (4, 1));
    assert_eq!(cells(bar.shape()), vec![(0, 0), (1, 0), (2, 0), (3, 0)]);
    let plus = Rock::Plus;
    assert_eq!((plus.width(), plus.height()), (3, 3));
    assert_eq!(cells(plus.shape()), vec![(0, 1), (1, 0), (1, 1), (1, 2), (2, 1)]);
    let hook = Rock::InvertedL;
    assert_eq!((hook.width(), hook.height()), (3, 3));
    assert_eq!(cells(hook.shape()), vec![(0, 0), (1, 0), (2, 0), (2, 1), (2, 2)]);
    let pole = Rock::VerticalBar;
    assert_eq!((pole.width(), pole.height()), (1, 4));
    assert_eq!(cells(pole.shape()), vec![(0, 0), (0, 1), (0, 2), (0, 3)]);
    let square = Rock::Square;
    assert_eq!((square.width(), square.height()), (2, 2));
    assert_eq!(cells(square.shape()), vec![(0, 0), (0, 1), (1, 0), (1, 1)]);
}

#[test]
fn resting_edges_of_shapes() {
    assert_eq!(cells(Rock::HorizontalBar.resting_edges()), vec![(0, 0), (1, 0), (2, 0), (3, 0)]);
    assert_eq!(cells(Rock::Plus.resting_edges()), vec![(0, 1), (1, 0), (2, 1)]);
    assert_eq!(
        cells(Rock::InvertedL.resting_edges()),
        vec![(0, 0), (1, 0), (2, 0), (2, 1), (2, 2)]
    );
    assert_eq!(cells(Rock::VerticalBar.resting_edges()), vec![(0, 0)]);
    assert_eq!(cells(Rock::Square.resting_edges()), vec![(0, 0), (1, 0)]);
}

#[test]
fn shapes_come_round_in_catalog_order() {
    let catalog =
        [Rock::HorizontalBar, Rock::Plus, Rock::InvertedL, Rock::VerticalBar, Rock::Square];
    for i in 0..23 {
        assert_eq!(Rock::nth(i), catalog[i % 5]);
    }
    assert_eq!(Rock::nth(usize::MAX), catalog[usize::MAX % 5]);

    // The order does not depend on the jets: the rows that each rock adds give it away
    // where every rock lands on top of the one before.
    let mut jets = JetStream::parse("<").unwrap();
    let mut chamber = Chamber::new();
    let mut seen = Vec::new();
    for _ in 0..3 {
        let before = chamber.height();
        chamber.drop_rock(&mut jets);
        seen.push(chamber.height() - before);
    }
    assert_eq!(seen, vec![1, 3, 3]);
}

#[test]
fn jet_stream_reads_the_pattern_cyclically() {
    let mut jets = JetStream::parse("<<>").unwrap();
    assert_eq!(jets.len(), 3);
    assert_eq!(jets.position(), 0);
    let mut seen = Vec::new();
    for _ in 0..7 {
        seen.push(jets.next());
    }
    let (l, r) = (Direction::Left, Direction::Right);
    assert_eq!(seen, vec![l, l, r, l, l, r, l]);
    assert_eq!(jets.position(), 1);

    let mut one = JetStream::new(vec![Direction::Right]).unwrap();
    assert_eq!(one.next(), Direction::Right);
    assert_eq!(one.position(), 0);
}

#[test]
fn pushes_and_falls_in_an_empty_shaft() {
    let chamber = Chamber::new();
    let bar = Rock::HorizontalBar;
    let at = Position::new(2, 3);
    assert!(chamber.can_move_left(&bar, &at));
    assert!(chamber.can_move_right(&bar, &at));
    assert!(chamber.can_move_down(&bar, &at));
    assert_eq!(chamber.execute_move(&Direction::Left, &bar, &at), Position::new(1, 3));
    assert_eq!(chamber.execute_move(&Direction::Right, &bar, &at), Position::new(3, 3));

    let wall_left = Position::new(0, 3);
    assert!(!chamber.can_move_left(&bar, &wall_left));
    assert_eq!(chamber.execute_move(&Direction::Left, &bar, &wall_left), wall_left);
    let wall_right = Position::new(3, 3);
    assert!(!chamber.can_move_right(&bar, &wall_right));
    assert_eq!(chamber.execute_move(&Direction::Right, &bar, &wall_right), wall_right);

    let floor = Position::new(2, 0);
    assert!(!chamber.can_move_down(&bar, &floor));
    assert!(chamber.fits_at(&bar, 3, 0));
    assert!(!chamber.fits_at(&bar, 4, 0));
    assert!(!chamber.fits_at(&bar, 7, 0));
    assert!(chamber.fits_at(&Rock::VerticalBar, 6, usize::MAX - 1));
}

#[test]
fn a_rock_at_rest_blocks_the_next() {
    let mut chamber = Chamber::new();
    chamber.rest_rock(&Rock::Plus, &Position::new(2, 0));
    assert_eq!(chamber.height(), 3);
    assert_eq!(chamber.num_rested(), 1);
    assert_eq!(
        grid(&chamber),
        vec![
            vec![false, false, false, true, false, false, false],
            vec![false, false, true, true, true, false, false],
            vec![false, false, false, true, false, false, false],
        ]
    );
    let square = Rock::Square;
    assert!(chamber.fits_at(&square, 0, 0));
    assert!(!chamber.fits_at(&square, 1, 0));
    assert!(!chamber.fits_at(&square, 1, 1));
    assert!(chamber.fits_at(&square, 0, 2));
    assert!(!chamber.can_move_right(&square, &Position::new(0, 1)));
    assert!(chamber.can_move_right(&square, &Position::new(0, 2)));
    assert!(!chamber.can_move_down(&square, &Position::new(2, 3)));
    assert!(!chamber.can_move_left(&square, &Position::new(5, 1)));
    assert_eq!(
        chamber.execute_move(&Direction::Left, &square, &Position::new(5, 1)),
        Position::new(5, 1)
    );

    // A rock that rests below the top leaves the height as it is.
    chamber.rest_rock(&Rock::HorizontalBar, &Position::new(0, 0));
    assert_eq!(chamber.height(), 3);
    assert!(chamber.is_occupied(0, 0) && chamber.is_occupied(3, 0));
    let _ = CellState::Empty;
}

#[test]
fn runs_are_deterministic() {
    let mut first = Chamber::new();
    let mut first_jets = JetStream::parse(INPUT).unwrap();
    let mut second = Chamber::new();
    let mut second_jets = JetStream::parse(INPUT).unwrap();
    assert_eq!(first.simulate(&mut first_jets, 200), second.simulate(&mut second_jets, 200));
    assert_eq!(grid(&first), grid(&second));
    assert_eq!(first_jets.position(), second_jets.position());
    assert_eq!(tower_height_after(INPUT, 200), tower_height_after(INPUT, 200));
}

#[test]
fn height_never_falls() {
    let mut chamber = Chamber::new();
    let mut jets = JetStream::parse(INPUT).unwrap();
    let mut last = 0;
    let expected = [1, 4, 6, 7, 9, 10, 13, 15, 17, 17, 18, 21];
    for i in 0..300 {
        chamber.drop_rock(&mut jets);
        let now = chamber.height();
        assert!(now >= last);
        assert!(now <= last + 4);
        if i < expected.len() {
            assert_eq!(now, expected[i]);
        }
        last = now;
        assert_eq!(tower_height_after(INPUT, i + 1), Ok(now));
    }
}

#[test]
fn every_rock_rests_clear_of_the_others() {
    let catalog =
        [Rock::HorizontalBar, Rock::Plus, Rock::InvertedL, Rock::VerticalBar, Rock::Square];
    let mut chamber = Chamber::new();
    let mut jets = JetStream::parse(INPUT).unwrap();
    for i in 0..400 {
        let before = grid(&chamber);
        let rock = catalog[i % 5];
        let at = chamber.drop_rock(&mut jets);
        for p in rock.shape() {
            let (x, y) = (at.x + p.x, at.y + p.y);
            assert!(x < WIDTH);
            assert!(y >= before.len() || !before[y][x]);
            assert!(chamber.is_occupied(x, y));
        }
        for (y, row) in before.iter().enumerate() {
            for (x, filled) in row.iter().enumerate() {
                if *filled {
                    assert!(chamber.is_occupied(x, y));
                }
            }
        }
        let filled: usize = grid(&chamber).iter().flatten().filter(|c| **c).count();
        let before_filled: usize = before.iter().flatten().filter(|c| **c).count();
        assert_eq!(filled, before_filled + rock.shape().len());
    }
}

#[test]
fn a_run_can_be_cut_in_two() {
    let mut whole = Chamber::new();
    let mut whole_jets = JetStream::parse(INPUT).unwrap();
    whole.simulate(&mut whole_jets, 20);

    let mut parts = Chamber::new();
    let mut parts_jets = JetStream::parse(INPUT).unwrap();
    parts.simulate(&mut parts_jets, 10);
    parts.simulate(&mut parts_jets, 10);

    assert_eq!(whole.height(), parts.height());
    assert_eq!(grid(&whole), grid(&parts));
    assert_eq!(whole_jets.position(), parts_jets.position());
    assert_eq!(whole.num_rested(), 20);
    assert_eq!(parts.num_rested(), 20);
}

#[test]
fn cursor_is_the_number_of_ticks_modulo_the_pattern() {
    // Ticks of the first rocks under the canonical pattern of 40 jets: 4, 4, 5, 7, 4, 4,
    // 4, 5, 6, 9.
    let ticks = [4, 4, 5, 7, 4, 4, 4, 5, 6, 9];
    let mut chamber = Chamber::new();
    let mut jets = JetStream::parse(INPUT).unwrap();
    let mut total = 0;
    for t in ticks {
        chamber.drop_rock(&mut jets);
        total += t;
        assert_eq!(jets.position(), total % 40);
    }
}

#[test]
fn drawing_of_the_tower() {
    let mut chamber = Chamber::new();
    assert_eq!(chamber.render(), Vec::<Vec<char>>::new());
    let mut jets = JetStream::parse(INPUT).unwrap();
    chamber.simulate(&mut jets, 3);
    let drawn: Vec<String> = chamber.render().into_iter().map(|l| l.into_iter().collect()).collect();
    assert_eq!(
        drawn,
        vec!["|..#....|", "|..#....|", "|####...|", "|..###..|", "|...#...|", "|..####.|"]
    );
    assert_eq!(CellState::Empty.symbol(), '.');
    assert_eq!(CellState::StoppedRock.symbol(), '#');
}
