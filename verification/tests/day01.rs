use aoc22::day01::{
    calorie_totals, max3_total_calories, max_total_calories, try_max3_total_calories,
};

static INPUT: &str = "1000
2000
3000

4000

5000
6000

7000
8000
9000

10000";

#[test]
fn test_max_total_calories() {
    let s = "1000
2000
3000

4000

5000
6000

7000
8000
9000

10000";
    assert_eq!(max_total_calories(s), 24000);
}

#[test]
fn test_max3_total_calories() {
    let s = "1000
2000
3000

4000

5000
6000

7000
8000
9000

10000";
    assert_eq!(max3_total_calories(s), 45000);
}

#[test]
fn totals_of_each_group() {
    assert_eq!(calorie_totals(INPUT), Some(vec![6000, 4000, 11000, 24000, 10000]));
    assert_eq!(calorie_totals(""), Some(vec![0]));
    assert_eq!(calorie_totals("\n\n 7 \n x \n-2\n\n\n\n5\n"), Some(vec![5, 0, 5]));
}

#[test]
fn fewer_than_three_groups() {
    assert_eq!(max3_total_calories("1\n2\n\n10"), 13);
    assert_eq!(max3_total_calories("5"), 5);
    assert_eq!(max3_total_calories(""), 0);
    assert_eq!(max_total_calories(""), 0);
    assert_eq!(max_total_calories("-3\n\n-1\n\n-2"), -1);
    assert_eq!(max3_total_calories("4\n\n4\n\n1\n\n4\n\n2"), 12);
}

#[test]
fn totals_beyond_the_range_are_refused() {
    assert_eq!(calorie_totals("9223372036854775807\n1"), None);
    assert_eq!(calorie_totals("9223372036854775807\n-1"), Some(vec![9223372036854775806]));
    assert_eq!(calorie_totals("9223372036854775808"), Some(vec![0]));
}

#[test]
fn sums_beyond_the_range_are_refused() {
    assert_eq!(try_max3_total_calories(INPUT), Some(45000));
    assert_eq!(try_max3_total_calories("9223372036854775807\n\n1"), None);
    assert_eq!(try_max3_total_calories("9223372036854775807\n\n-1"), Some(i64::MAX - 1));
    assert_eq!(try_max3_total_calories("9223372036854775807\n1\n\n1"), None);
    assert_eq!(
        try_max3_total_calories("9223372036854775807\n\n9223372036854775807\n\n-9223372036854775807\n\n-9223372036854775807"),
        Some(i64::MAX)
    );
}
