use aoc22::day11::{
    monkey_business_level, monkey_business_level_p1, monkey_business_level_p2, operate,
    parse_items, read_monkeys, ready, relieve, take_turn, test_factor,
    try_monkey_business_level, Monkey, Operand, Operator, Relief,
};

static INPUT: &str = "Monkey 0:
          Starting items: 79, 98
          Operation: new = old * 19
          Test: divisible by 23
            If true: throw to monkey 2
            If false: throw to monkey 3

        Monkey 1:
          Starting items: 54, 65, 75, 74
          Operation: new = old + 6
          Test: divisible by 19
            If true: throw to monkey 2
            If false: throw to monkey 0

        Monkey 2:
          Starting items: 79, 60, 97
          Operation: new = old * old
          Test: divisible by 13
            If true: throw to monkey 1
            If false: throw to monkey 3

        Monkey 3:
          Starting items: 74
          Operation: new = old + 3
          Test: divisible by 17
            If true: throw to monkey 0
            If false: throw to monkey 1";

#[test]
fn test_monkey_throw() {
    let mut monkey = Monkey::new(vec![79, 98], Operator::Multiply(Operand::Value(19)), 23, 2, 3);
    assert_eq!(monkey.turn(|worry| worry / 3), vec![(3, 500), (3, 620)]);
}

#[test]
fn test_monkey_business_level_p1() {
    assert_eq!(monkey_business_level_p1(INPUT), 10605)
}

#[test]
fn test_monkey_business_level_p2() {
    assert_eq!(monkey_business_level_p2(INPUT), 2713310158)
}

#[test]
fn monkeys_are_read_from_text() {
    let monkeys = read_monkeys(INPUT).unwrap();
    assert_eq!(monkeys.len(), 4);
    assert_eq!(monkeys[0].held(), vec![79, 98]);
    assert_eq!(monkeys[1].held(), vec![54, 65, 75, 74]);
    assert_eq!(monkeys[2].divisor(), 13);
    assert_eq!(monkeys[3].inspections(), 0);
    assert_eq!(test_factor(&monkeys), Some(23 * 19 * 13 * 17));
    let one = "Monkey 7:\n Starting items: -5\n Operation: new = old + old\n Test: divisible by -2\n If true: throw to monkey 0\n If false: throw to monkey 1\n and more";
    let mut m = Monkey::from_str(one).unwrap();
    assert_eq!(m.held(), vec![-5]);
    assert_eq!(m.turn(|w| w), vec![(0, -10)]);
    assert_eq!(m.inspections(), 1);
    assert_eq!(m.held(), Vec::<i64>::new());
    assert!(Monkey::from_str("Monkey 0:\n Starting items: 1").is_err());
    assert!(Monkey::from_str(&one.replace("old + old", "old - old")).is_err());
    assert!(Monkey::from_str(&one.replace("old + old", "new + old")).is_err());
    assert!(Monkey::from_str(&one.replace("-5", "")).is_err());
    assert!(Monkey::from_str(&one.replace("-5", "1,2")).is_err());
    assert!(Monkey::from_str(&one.replace("monkey 0", "monkey -1")).is_err());
    assert!(Monkey::from_str(&one.replace("Test:", "Test :")).is_err());
    assert!(read_monkeys("").is_none());
    let chars: Vec<char> = "1, -2, +3".chars().collect();
    assert_eq!(parse_items(&chars), Some(vec![1, -2, 3]));
    let empty: Vec<char> = Vec::new();
    assert_eq!(parse_items(&empty), None);
}

#[test]
fn worry_after_operation_and_relief() {
    assert_eq!(operate(&Operator::Add(Operand::Old), 21), Some(42));
    assert_eq!(operate(&Operator::Add(Operand::Value(-1)), 21), Some(20));
    assert_eq!(operate(&Operator::Multiply(Operand::Old), -3), Some(9));
    assert_eq!(operate(&Operator::Multiply(Operand::Value(4)), -3), Some(-12));
    assert_eq!(operate(&Operator::Multiply(Operand::Old), 3037000500), None);
    assert_eq!(operate(&Operator::Multiply(Operand::Old), 3037000499), Some(9223372030926249001));
    assert_eq!(operate(&Operator::Add(Operand::Value(1)), i64::MAX), None);
    assert_eq!(operate(&Operator::Add(Operand::Old), i64::MIN), None);
    assert_eq!(relieve(Relief::Third, 1501), 500);
    assert_eq!(relieve(Relief::Third, -7), -2);
    assert_eq!(relieve(Relief::Third, 2), 0);
    assert_eq!(relieve(Relief::Modulo(96577), 96578), 1);
    assert_eq!(relieve(Relief::Modulo(5), -7), -2);
    assert_eq!(relieve(Relief::Modulo(-5), 7), 2);
    assert_eq!(relieve(Relief::Modulo(-1), i64::MIN), 0);
}

#[test]
fn a_turn_throws_every_item() {
    let mut monkeys = read_monkeys(INPUT).unwrap();
    assert!(ready(&monkeys[0]));
    assert!(take_turn(&mut monkeys, 0, Relief::Third));
    assert_eq!(monkeys[0].held(), Vec::<i64>::new());
    assert_eq!(monkeys[0].inspections(), 2);
    assert_eq!(monkeys[3].held(), vec![74, 500, 620]);
    assert!(take_turn(&mut monkeys, 1, Relief::Third));
    assert_eq!(monkeys[0].held(), vec![20, 23, 27, 26]);
    assert!(take_turn(&mut monkeys, 2, Relief::Third));
    assert_eq!(monkeys[1].held(), vec![2080]);
    assert_eq!(monkeys[3].held(), vec![74, 500, 620, 1200, 3136]);
    assert!(take_turn(&mut monkeys, 3, Relief::Third));
    assert_eq!(monkeys[0].held(), vec![20, 23, 27, 26]);
    assert_eq!(monkeys[1].held(), vec![2080, 25, 167, 207, 401, 1046]);

    let mut lost = vec![Monkey::new(vec![1], Operator::Add(Operand::Value(1)), 2, 5, 0)];
    assert!(!take_turn(&mut lost, 0, Relief::Third));
    let mut zero = vec![Monkey::new(vec![1], Operator::Add(Operand::Value(1)), 0, 0, 0)];
    assert!(!ready(&zero[0]));
    assert!(!take_turn(&mut zero, 0, Relief::Third));
    let mut wide = vec![Monkey::new(vec![i64::MAX], Operator::Add(Operand::Value(1)), 1, 0, 0)];
    assert!(!take_turn(&mut wide, 0, Relief::Third));
    let mut own = vec![Monkey::new(vec![4, 5], Operator::Add(Operand::Value(1)), 2, 0, 0)];
    assert!(take_turn(&mut own, 0, Relief::Modulo(4)));
    assert_eq!(own[0].held(), vec![1, 2]);
    own[0].catch(9);
    assert_eq!(own[0].held(), vec![1, 2, 9]);
}

#[test]
fn levels_of_other_runs() {
    assert_eq!(monkey_business_level(INPUT, 1), 4 * 5);
    assert_eq!(monkey_business_level(INPUT, 0), 0);
    assert_eq!(monkey_business_level(INPUT, 1000), 5204 * 5192);
    assert_eq!(try_monkey_business_level(INPUT, 20), Some(10605));
    assert_eq!(try_monkey_business_level("", 20), None);
    let one = "Monkey 0:\n Starting items: 1\n Operation: new = old + 1\n Test: divisible by 2\n If true: throw to monkey 0\n If false: throw to monkey 0";
    assert_eq!(try_monkey_business_level(one, 20), None);
    let two = format!("{}\n\n{}", one, one.replace("monkey 0", "monkey 1"));
    assert_eq!(try_monkey_business_level(&two, 3), Some(9));
    let away = format!("{}\n\n{}", one, one.replace("monkey 0", "monkey 2"));
    assert_eq!(try_monkey_business_level(&away, 3), None);
    assert_eq!(try_monkey_business_level(&away, 0), Some(0));
}
