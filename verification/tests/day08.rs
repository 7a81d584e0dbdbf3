use aoc22::day08::{
    count_visible, highest_scenic_score, is_visible, look, num_visible_trees, score_at,
    score_fits, tree_grid, try_highest_score, try_highest_scenic_score, try_num_visible_trees,
    Side,
};

static INPUT: &str = "30373
25512
65332
33549
35390";

#[test]
fn test_num_visible_trees() {
    let input = "30373
25512
65332
33549
35390";
    assert_eq!(num_visible_trees(input), 21)
}

#[test]
fn test_highest_scenic_score() {
    let input = "30373
25512
65332
33549
35390";
    assert_eq!(highest_scenic_score(input), 8)
}

#[test]
fn grid_of_heights() {
    assert_eq!(tree_grid("12\n34\n"), Some(vec![vec![1, 2], vec![3, 4]]));
    assert_eq!(tree_grid("  09a  "), Some(vec![vec![0, 9, 49]]));
    assert_eq!(tree_grid("12\n3"), None);
    assert_eq!(tree_grid(""), None);
    assert_eq!(tree_grid("1 2"), None);
    assert_eq!(tree_grid("12\n\n34"), None);
}

#[test]
fn looking_from_a_tree() {
    let trees = tree_grid(INPUT).unwrap();
    assert_eq!(look(&trees, 1, 2, Side::Top), (true, 1));
    assert_eq!(look(&trees, 1, 2, Side::Left), (false, 1));
    assert_eq!(look(&trees, 1, 2, Side::Right), (true, 2));
    assert_eq!(look(&trees, 1, 2, Side::Bottom), (false, 2));
    assert_eq!(score_at(&trees, 1, 2), 4);
    assert_eq!(score_at(&trees, 3, 2), 8);
    assert_eq!(score_at(&trees, 0, 0), 0);
    assert!(is_visible(&trees, 1, 1));
    assert!(is_visible(&trees, 1, 2));
    assert!(!is_visible(&trees, 1, 3));
    assert!(is_visible(&trees, 2, 1));
    assert!(!is_visible(&trees, 2, 2));
    assert!(is_visible(&trees, 2, 3));
    assert!(!is_visible(&trees, 3, 1));
    assert!(is_visible(&trees, 3, 2));
    assert!(!is_visible(&trees, 3, 3));
    assert!(is_visible(&trees, 4, 4));
    assert_eq!(count_visible(&trees), 21);
}

#[test]
fn small_grids() {
    assert_eq!(num_visible_trees("5"), 1);
    assert_eq!(highest_scenic_score("5"), 0);
    assert_eq!(num_visible_trees("111\n101\n111"), 8);
    assert_eq!(num_visible_trees("111\n121\n111"), 9);
    assert_eq!(highest_scenic_score("111\n121\n111"), 1);
    assert_eq!(highest_scenic_score("11111\n11111\n11911\n11111\n11111"), 16);
}

#[test]
fn grids_that_cannot_be_read() {
    assert_eq!(try_num_visible_trees(INPUT), Some(21));
    assert_eq!(try_highest_scenic_score(INPUT), Some(8));
    assert_eq!(try_num_visible_trees("12\n3"), None);
    assert_eq!(try_highest_scenic_score(""), None);
    let trees = tree_grid(INPUT).unwrap();
    assert!(score_fits(&trees, 3, 2));
    assert_eq!(try_highest_score(&trees), Some(8));
}
