use aoc22::day20::{
    grove_total, index_of, index_of_zero, mix, read_numbers, ring_place,
    sum_grove_coordinates, sum_grove_coordinates_p1, sum_grove_coordinates_p2,
    try_sum_grove_coordinates,
};

static INPUT: &str = "1
2
-3
3
-2
0
4";

#[test]
fn test_sum_grove_coordinates() {
    assert_eq!(sum_grove_coordinates_p1(INPUT), 3);
}

#[test]
fn test_sum_grove_coordinates_p2() {
    assert_eq!(sum_grove_coordinates_p2(INPUT), 1623178306);
}

#[test]
fn numbers_are_read_and_scaled() {
    assert_eq!(read_numbers(INPUT, 1), Some(vec![1, 2, -3, 3, -2, 0, 4]));
    assert_eq!(read_numbers("3\r\n-4\n", 2), Some(vec![6, -8]));
    assert_eq!(read_numbers("", 2), Some(vec![]));
    assert_eq!(read_numbers("3\n\n4", 2), None);
    assert_eq!(read_numbers("3\n 4", 2), None);
    assert_eq!(read_numbers("4611686018427387904", 2), None);
    assert_eq!(read_numbers("-4611686018427387904", 2), Some(vec![i64::MIN]));
}

#[test]
fn places_on_the_ring() {
    assert_eq!(ring_place(0, 1, 6), 1);
    assert_eq!(ring_place(0, -3, 6), 3);
    assert_eq!(ring_place(2, -2, 6), 0);
    assert_eq!(ring_place(5, 4, 6), 3);
    assert_eq!(ring_place(5, 0, 6), 5);
    assert_eq!(ring_place(3, -9, 6), 0);
    assert_eq!(ring_place(0, i64::MIN, 7), 6);
    assert_eq!(ring_place(usize::MAX, i64::MAX, 10), 2);
    assert_eq!(index_of(&vec![4, 7, 9, 7], 7), 1);
    assert_eq!(index_of(&vec![4, 7, 9], 5), 3);
    assert_eq!(index_of_zero(&vec![4, 0, 9, 0]), 1);
    assert_eq!(index_of_zero(&vec![4, 7]), 2);
}

#[test]
fn one_round_of_mixing() {
    let nums = vec![1, 2, -3, 3, -2, 0, 4];
    assert_eq!(mix(&nums, 0), vec![0, 1, 2, 3, 4, 5, 6]);
    let order = mix(&nums, 1);
    let values: Vec<i64> = order.iter().map(|i| nums[*i]).collect();
    let zero = values.iter().position(|n| *n == 0).unwrap();
    let turned: Vec<i64> = (0..7).map(|k| values[(zero + k) % 7]).collect();
    assert_eq!(turned, vec![0, 3, -2, 1, 2, -3, 4]);
    let mut sorted = order.clone();
    sorted.sort();
    assert_eq!(sorted, vec![0, 1, 2, 3, 4, 5, 6]);
    assert_eq!(sum_grove_coordinates(INPUT, 1, 1), 3);
    assert_eq!(sum_grove_coordinates(INPUT, 1, 0), -2);
    assert_eq!(sum_grove_coordinates("0\n5", 3, 4), 0);
}

#[test]
fn lists_that_cannot_be_mixed() {
    assert_eq!(try_sum_grove_coordinates(INPUT, 1, 1), Some(3));
    assert_eq!(try_sum_grove_coordinates(INPUT, 811589153, 10), Some(1623178306));
    assert_eq!(try_sum_grove_coordinates("0", 1, 1), None);
    assert_eq!(try_sum_grove_coordinates("", 1, 1), None);
    assert_eq!(try_sum_grove_coordinates("1\n2", 1, 1), None);
    assert_eq!(try_sum_grove_coordinates("1\nx\n0", 1, 1), None);
    assert_eq!(try_sum_grove_coordinates("0\n4611686018427387904", 2, 1), None);
    assert_eq!(try_sum_grove_coordinates("0\n9223372036854775807", 1, 0), Some(0));
    assert_eq!(try_sum_grove_coordinates("0\n7\n9223372036854775807", 1, 0), None);
    assert_eq!(try_sum_grove_coordinates("9223372036854775807\n9223372036854775807\n0", 1, 0), None);
    assert_eq!(grove_total(&vec![5, 0], 7), 0);
}
