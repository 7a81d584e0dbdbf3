use aoc22::day21::{
    decimal_of, i_yell_equation, root_yells, try_root_yells, Job, JobTable, JobValue, Operation,
};

static INPUT: &str = "root: pppw + sjmn
dbpl: 5
cczh: sllz + lgvd
zczc: 2
ptdq: humn - dvpt
dvpt: 3
lfqf: 4
humn: 5
ljgn: 2
sjmn: drzm * dbpl
sllz: 4
pppw: cczh / lfqf
lgvd: ljgn * ptdq
drzm: hmdt - zczc
hmdt: 32";

fn chars(s: &str) -> Vec<char> {
    s.chars().collect()
}

#[test]
fn test_root_yells() {
    assert_eq!(root_yells(INPUT), 152);
}

#[test]
fn equation_for_the_example() {
    assert_eq!(
        i_yell_equation(INPUT),
        Some("(= (/ (+ 4 (* 2 (- x 3))) 4) (* (- 32 2) 5))".to_string())
    );
    assert_eq!(i_yell_equation("root: 5"), None);
    assert_eq!(i_yell_equation("root: a + humn\na: -7"), Some("(= -7 x)".to_string()));
    assert_eq!(i_yell_equation("root: a + b\na: 1"), None);
    assert_eq!(i_yell_equation("toor: a + b"), None);
    assert_eq!(i_yell_equation("root: humn - humn\nhumn: 5"), Some("(= x x)".to_string()));
}

#[test]
fn operations_on_numbers() {
    assert_eq!(Operation::from_chars(&chars("*")), Some(Operation::Multiply));
    assert_eq!(Operation::from_chars(&chars("/")), Some(Operation::Divide));
    assert_eq!(Operation::from_chars(&chars("+")), Some(Operation::Add));
    assert_eq!(Operation::from_chars(&chars("-")), Some(Operation::Subtract));
    assert_eq!(Operation::from_chars(&chars("%")), None);
    assert_eq!(Operation::from_chars(&chars("++")), None);
    assert_eq!(Operation::Multiply.symbol(), '*');
    assert_eq!(Operation::Divide.symbol(), '/');
    assert_eq!(Operation::Add.symbol(), '+');
    assert_eq!(Operation::Subtract.symbol(), '-');
    assert_eq!(Operation::Multiply.execute(6, -7), -42);
    assert_eq!(Operation::Divide.execute(7, 2), 3);
    assert_eq!(Operation::Divide.execute(-7, 2), -3);
    assert_eq!(Operation::Divide.execute(7, -2), -3);
    assert_eq!(Operation::Divide.execute(-7, -2), 3);
    assert_eq!(Operation::Add.execute(6, -7), -1);
    assert_eq!(Operation::Subtract.execute(6, -7), 13);
    assert_eq!(Operation::Divide.try_execute(1, 0), None);
    assert_eq!(Operation::Divide.try_execute(i64::MIN, -1), None);
    assert_eq!(Operation::Divide.try_execute(i64::MIN, 1), Some(i64::MIN));
    assert_eq!(Operation::Multiply.try_execute(i64::MAX, 2), None);
    assert_eq!(Operation::Add.try_execute(i64::MAX, 1), None);
    assert_eq!(Operation::Subtract.try_execute(i64::MIN, 1), None);
    assert_eq!(Operation::Subtract.try_execute(-1, i64::MAX), Some(i64::MIN));
}

#[test]
fn jobs_are_read_from_lines() {
    let job = Job::from_chars(&chars(" root: pppw + sjmn ")).unwrap();
    assert_eq!(job.monkey, chars("root"));
    match job.value {
        JobValue::Op(op, l, r) => {
            assert_eq!(op, Operation::Add);
            assert_eq!(l, chars("pppw"));
            assert_eq!(r, chars("sjmn"));
        }
        JobValue::Integer(_) => panic!("an operation"),
    }
    let job = Job::from_chars(&chars("dbpl:5")).unwrap();
    assert!(matches!(job.value, JobValue::Integer(5)));
    assert!(Job::from_chars(&chars("dbpl 5")).is_none());
    assert!(Job::from_chars(&chars("dbpl: five")).is_none());
    assert!(Job::from_chars(&chars("dbpl: a b")).is_none());
    assert!(Job::from_chars(&chars("dbpl: a % b")).is_none());
    assert!(Job::from_chars(&chars("dbpl: a  + b")).is_none());
    assert!(JobValue::from_chars(&chars("")).is_none());
    assert!(JobTable::from_str("a: 1\n\nb: 2").is_err());
    assert_eq!(JobTable::from_str("").unwrap().jobs.len(), 0);
}

#[test]
fn yells_of_other_tables() {
    assert_eq!(try_root_yells(INPUT), Some(152));
    assert_eq!(try_root_yells("root: 5"), Some(5));
    assert_eq!(try_root_yells("root: 5\nroot: 6"), Some(6));
    assert_eq!(try_root_yells("root: a / b\na: 1\nb: 0"), None);
    assert_eq!(try_root_yells("root: a + b\na: 1"), None);
    assert_eq!(try_root_yells("root: root + a\na: 1"), None);
    assert_eq!(try_root_yells("root: a + a\na: b * b\nb: a - a"), None);
    assert_eq!(try_root_yells("a: 1"), None);
    assert_eq!(try_root_yells(""), None);
    assert_eq!(try_root_yells("root: a * a\na: 3037000500"), None);
    let table = JobTable::from_str(INPUT).unwrap();
    assert_eq!(table.yells(&chars("drzm")), 30);
    assert_eq!(table.yells_within(&chars("root"), 5), None);
    assert_eq!(table.yells_within(&chars("root"), 6), Some(152));
    assert_eq!(table.find(&chars("humn")), Some(7));
    assert_eq!(table.find(&chars("nobody")), None);
    assert_eq!(table.equation(&chars("ptdq"), 2), Some(chars("(- x 3)")));
    assert_eq!(table.equation(&chars("ptdq"), 1), None);
    assert_eq!(table.equation(&chars("humn"), 0), Some(chars("x")));
}

#[test]
fn numbers_in_base_ten() {
    for n in [0, 1, 9, 10, 11, 99, 100, 12345, -1, -10, -12345, i64::MAX, i64::MIN] {
        let text: String = decimal_of(n).into_iter().collect();
        assert_eq!(text, n.to_string());
    }
}
