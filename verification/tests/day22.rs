use aoc22::day22::{
    final_password, try_final_password, walk_password, Board, Facing, Instruction, Tile,
};

static INPUT: &str = "        ...#
        .#..
        #...
        ....
...#.......#
........#...
..#....#....
..........#.
        ...#....
        .....#..
        .#......
        ......#.

10R5L5R10L4R5L5
";

#[test]
fn test_final_password() {
    assert_eq!(final_password(INPUT), 6032);
}

#[test]
fn turns_go_round() {
    let order = [Facing::Right, Facing::Down, Facing::Left, Facing::Up];
    for k in 0..4 {
        assert_eq!(order[k].after(&Instruction::Right), order[(k + 1) % 4]);
        assert_eq!(order[k].after(&Instruction::Left), order[(k + 3) % 4]);
        assert_eq!(order[k].after(&Instruction::Move(7)), order[k]);
    }
}

#[test]
fn paths_are_read_with_the_pattern() {
    assert_eq!(
        Instruction::parse_instructions("10R5L5"),
        Some(vec![
            Instruction::Move(10),
            Instruction::Right,
            Instruction::Move(5),
            Instruction::Left,
            Instruction::Move(5),
        ])
    );
    assert_eq!(Instruction::parse_instructions(""), Some(vec![]));
    assert_eq!(Instruction::parse_instructions("RL"), Some(vec![]));
    assert_eq!(
        Instruction::parse_instructions("x3RR 4\nL07"),
        Some(vec![
            Instruction::Move(3),
            Instruction::Right,
            Instruction::Move(4),
            Instruction::Move(7),
        ])
    );
    assert_eq!(Instruction::parse_instructions("99999999999999999999999R"), None);
    let found = vec![vec![
        Some("5L".to_string()),
        Some("5L".to_string()),
        Some("5".to_string()),
        Some("L".to_string()),
    ]];
    assert_eq!(
        Instruction::from_matches(&found),
        Some(vec![Instruction::Move(5), Instruction::Left])
    );
    let short = vec![vec![Some("5".to_string())]];
    assert_eq!(Instruction::from_matches(&short), None);
    let missing = vec![vec![Some("5".to_string()), Some("5".to_string()), None, Some("".to_string())]];
    assert_eq!(Instruction::from_matches(&missing), None);
}

#[test]
fn steps_wrap_around_and_stop_at_walls() {
    let board = Board::from_str("  ..#\n.....\n#..  \n");
    assert_eq!(board.size(), (3, 5));
    assert_eq!(board.start_column(), Some(2));
    assert_eq!(board.execute_move(0, 2, Facing::Right), Some((0, 3)));
    assert_eq!(board.execute_move(0, 3, Facing::Right), None);
    assert_eq!(board.execute_move(0, 2, Facing::Left), None);
    assert_eq!(board.execute_move(1, 0, Facing::Left), Some((1, 4)));
    assert_eq!(board.execute_move(1, 4, Facing::Right), Some((1, 0)));
    assert_eq!(board.execute_move(1, 0, Facing::Down), None);
    assert_eq!(board.execute_move(1, 0, Facing::Up), None);
    assert_eq!(board.execute_move(0, 2, Facing::Up), Some((2, 2)));
    assert_eq!(board.execute_move(2, 2, Facing::Down), Some((0, 2)));
    assert_eq!(board.execute_move(1, 3, Facing::Down), Some((0, 3)));
    assert_eq!(board.execute_move(2, 2, Facing::Right), None);
    assert_eq!(board.execute_move(2, 1, Facing::Left), None);
    assert_eq!(board.execute(&vec![]), 1000 + 4 * 3);
    assert_eq!(board.execute(&vec![Instruction::Move(5)]), 1000 + 4 * 4);
    assert_eq!(
        board.execute(&vec![Instruction::Right, Instruction::Move(2), Instruction::Left]),
        3000 + 4 * 3
    );
    assert_eq!(
        board.execute(&vec![Instruction::Left, Instruction::Move(1), Instruction::Left]),
        3000 + 4 * 3 + 2
    );
    let _ = Tile::Empty;
}

#[test]
fn walks_that_cannot_be_made() {
    assert_eq!(walk_password(INPUT), Some(6032));
    assert_eq!(try_final_password(INPUT), Some(6032));
    assert_eq!(try_final_password("...\n\n1R1"), Some(1000 + 4 * 2 + 1));
    assert_eq!(try_final_password("...\n1R1"), None);
    assert_eq!(try_final_password("###\n...\n\n1R1"), None);
    assert_eq!(try_final_password("\n\n1R1"), None);
    assert_eq!(try_final_password(" . \n\n5"), Some(1000 + 4 * 2));
    assert_eq!(try_final_password("...\n\n99999999999999999999999"), None);
    assert_eq!(try_final_password(".é.\n\n3"), Some(1000 + 4 * 3));
}

#[test]
fn drawing_of_the_board() {
    let board = Board::from_str("  ..#\n.....\n#..  \n");
    let drawn: Vec<String> = board.render().into_iter().map(|l| l.into_iter().collect()).collect();
    assert_eq!(drawn, vec!["  ..#", ".....", "#..  "]);
    let ragged = Board::from_str(".#\nx...\n");
    let drawn: Vec<String> = ragged.render().into_iter().map(|l| l.into_iter().collect()).collect();
    assert_eq!(drawn, vec![".#  ", " ..."]);
    assert_eq!(Tile::Wall.symbol(), '#');
}
