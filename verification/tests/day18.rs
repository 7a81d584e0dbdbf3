use aoc22::day18::{
    adjacent_pairs, bound, external_surface_area, flood, has_inner_coords, is_lava, outer_area,
    read_points, surface_area, try_external_surface_area, try_surface_area, Point,
};

static INPUT: &str = "2,2,2
1,2,2
3,2,2
2,1,2
2,3,2
2,2,1
2,2,3
2,2,4
2,2,6
1,2,5
3,2,5
2,1,5
2,3,5";

fn p(x: i64, y: i64, z: i64) -> Point {
    Point { x, y, z }
}

#[test]
fn test_surface_area() {
    assert_eq!(surface_area(INPUT), 64);
}

#[test]
fn two_cubes() {
    assert_eq!(surface_area("1,1,1\n2,1,1"), 10);
    assert_eq!(surface_area("1,1,1\n3,1,1"), 12);
    assert_eq!(surface_area("1,1,1"), 6);
    assert_eq!(surface_area("1,1,1\n1,1,1"), 12);
    assert_eq!(surface_area("1,1,1\n2,1,1\n1,1,1"), 16);
}

#[test]
fn points_are_read_from_lines() {
    let chars: Vec<char> = "1,-2,+3".chars().collect();
    assert_eq!(Point::from_chars(&chars), Some(p(1, -2, 3)));
    let short: Vec<char> = "1,2".chars().collect();
    assert_eq!(Point::from_chars(&short), None);
    let long: Vec<char> = "1,2,3,4".chars().collect();
    assert_eq!(Point::from_chars(&long), None);
    let blank: Vec<char> = "1, 2,3".chars().collect();
    assert_eq!(Point::from_chars(&blank), None);
    assert_eq!(read_points("1,2,3\n4,5,6\n"), Some(vec![p(1, 2, 3), p(4, 5, 6)]));
    assert_eq!(read_points(""), None);
    assert_eq!(read_points("1,2,3\n\n4,5,6"), None);
}

#[test]
fn cubes_side_by_side() {
    let a = p(2, 2, 2);
    assert!(a.is_adjacent(&p(1, 2, 2)));
    assert!(a.is_adjacent(&p(2, 2, 3)));
    assert!(!a.is_adjacent(&a));
    assert!(!a.is_adjacent(&p(1, 1, 2)));
    assert!(!a.is_adjacent(&p(4, 2, 2)));
    assert!(!p(i64::MIN, 0, 0).is_adjacent(&p(i64::MAX, 0, 0)));
    assert!(p(1, 9, 9).lt(&p(2, 0, 0)));
    assert!(p(1, 1, 9).lt(&p(1, 2, 0)));
    assert!(p(1, 1, 1).lt(&p(1, 1, 2)));
    assert!(!a.lt(&a));
    assert_eq!(a.sub(p(1, 5, 2)), p(1, -3, 0));
    assert_eq!(p(1, -3, 0).abs(), p(1, 3, 0));
    assert_eq!(
        a.neighbors(),
        [p(1, 2, 2), p(3, 2, 2), p(2, 1, 2), p(2, 3, 2), p(2, 2, 1), p(2, 2, 3)]
    );
    assert!(p(-1, 0, 5).is_within(5));
    assert!(!p(-2, 0, 5).is_within(5));
    assert!(!p(0, 6, 5).is_within(5));
}

#[test]
fn pairs_are_kept_once() {
    let points = vec![p(1, 1, 1), p(2, 1, 1), p(1, 1, 1), p(1, 2, 1)];
    let mut pairs = adjacent_pairs(&points);
    pairs.sort_by_key(|q| (q.0.x, q.0.y, q.0.z, q.1.x, q.1.y, q.1.z));
    assert_eq!(pairs, vec![(p(1, 1, 1), p(1, 2, 1)), (p(1, 1, 1), p(2, 1, 1))]);
    assert_eq!(adjacent_pairs(&read_points(INPUT).unwrap()).len(), 7);
}

#[test]
fn test_external_surface_area() {
    assert_eq!(external_surface_area(INPUT), 58);
}

#[test]
fn steam_around_few_cubes() {
    assert_eq!(external_surface_area("1,1,1"), 6);
    assert_eq!(external_surface_area("1,1,1\n2,1,1"), 10);
    assert_eq!(external_surface_area("1,1,1\n1,1,1"), 6);
    assert_eq!(external_surface_area("0,0,0"), 6);
    assert_eq!(external_surface_area("-3,0,0"), 0);
    assert_eq!(external_surface_area("-1,0,0"), 5);
    assert_eq!(external_surface_area("-2,-2,-2"), 0);
    assert_eq!(external_surface_area("5,5,5\r\n-2,5,5\n"), 7);
    // The steam starts at the origin and does not get out of a closed shell around it.
    assert_eq!(
        external_surface_area("0,0,0\n1,0,0\n-1,0,0\n0,1,0\n0,-1,0\n0,0,1\n0,0,-1"),
        0
    );
    assert_eq!(try_external_surface_area(INPUT), Some(58));
    assert_eq!(try_external_surface_area("1,1"), None);
    assert_eq!(try_external_surface_area(""), Some(0));
    assert_eq!(try_external_surface_area("9223372036854775807,0,0"), None);
    assert_eq!(try_external_surface_area("3000000,0,0"), None);
}

#[test]
fn the_flood_marks_what_the_steam_reaches() {
    let points = read_points(INPUT).unwrap();
    assert!(has_inner_coords(&points));
    assert!(!has_inner_coords(&vec![p(0, i64::MIN, 0)]));
    assert_eq!(bound(&points), 7);
    assert_eq!(bound(&Vec::new()), i64::MIN + 1);
    assert!(is_lava(&points, &p(2, 2, 2)));
    assert!(!is_lava(&points, &p(2, 2, 5)));
    let seen = flood(&points, 7, 9);
    assert_eq!(seen.len(), 729);
    // Everything in the box but the cubes and the pocket of air among them.
    assert_eq!(seen.iter().filter(|b| **b).count(), 729 - 13 - 1);
    let at = |x: usize, y: usize, z: usize| seen[((x + 1) * 9 + (y + 1)) * 9 + (z + 1)];
    assert!(!at(2, 2, 5));
    assert!(!at(2, 2, 2));
    assert!(at(0, 0, 0));
    assert!(at(2, 2, 7));
    assert_eq!(outer_area(&points), Some(58));
    assert_eq!(outer_area(&Vec::new()), Some(0));
}

#[test]
fn areas_of_texts_that_cannot_be_read() {
    assert_eq!(try_surface_area(INPUT), Some(64));
    assert_eq!(try_surface_area("1,1,1\n\n2,1,1"), None);
    assert_eq!(try_surface_area("1,1,1\n2,1,1\n3,1,1"), Some(14));
}
