use aoc22::day05::{
    execute_step_p1, execute_step_p2, parse_stack_row, parse_stacks, parse_step, top_of_stack,
    top_of_stack_p1, top_of_stack_p2, try_top_of_stack, Crane,
};

fn chars(s: &str) -> Vec<char> {
    s.chars().collect()
}

#[test]
fn test_top_of_stack_p1() {
    let s = "    [D]
[N] [C]
[Z] [M] [P]
 1   2   3

move 1 from 2 to 1
move 3 from 1 to 3
move 2 from 2 to 1
move 1 from 1 to 2";
    assert_eq!(top_of_stack_p1(s), "CMZ");
}

#[test]
fn test_top_of_stack_p2() {
    let s = "    [D]
[N] [C]
[Z] [M] [P]
 1   2   3

move 1 from 2 to 1
move 3 from 1 to 3
move 2 from 2 to 1
move 1 from 1 to 2";
    assert_eq!(top_of_stack_p2(s), "MCD");
}

#[test]
fn rows_and_stacks_of_the_drawing() {
    assert_eq!(parse_stack_row(3, &chars("    [D]")), vec![None, Some('D'), None]);
    assert_eq!(parse_stack_row(3, &chars("[Z] [M] [P]")), vec![Some('Z'), Some('M'), Some('P')]);
    assert_eq!(parse_stack_row(2, &chars("[Z] [M] [P]")), vec![Some('Z'), Some('M')]);
    assert_eq!(parse_stack_row(0, &chars("[Z]")), Vec::<Option<char>>::new());
    let drawing = chars("    [D]\n[N] [C]\n[Z] [M] [P]\n 1   2   3");
    assert_eq!(
        parse_stacks(&drawing),
        Some(vec![vec!['Z', 'N'], vec!['M', 'C', 'D'], vec!['P']])
    );
    assert_eq!(parse_stacks(&chars(" 1   2 ")), Some(vec![vec![], vec![]]));
    assert_eq!(parse_stacks(&chars("[A]\n")), None);
    assert_eq!(parse_stacks(&chars("")), Some(vec![]));
}

#[test]
fn steps_are_read_from_six_words() {
    assert_eq!(parse_step(&chars("move 1 from 2 to 1")), Some((1, 2, 1)));
    assert_eq!(parse_step(&chars("a 10 b 20 c 30 d")), Some((10, 20, 30)));
    assert_eq!(parse_step(&chars("move 1 from 2 to")), None);
    assert_eq!(parse_step(&chars("move -1 from 2 to 1")), None);
    assert_eq!(parse_step(&chars("move  1 from 2 to 1")), None);
}

#[test]
fn the_two_cranes_differ_in_the_order() {
    let mut stacks = vec![vec!['a', 'b', 'c'], vec!['x']];
    assert!(execute_step_p1(&mut stacks, 2, 1, 2));
    assert_eq!(stacks, vec![vec!['a'], vec!['x', 'c', 'b']]);
    let mut stacks = vec![vec!['a', 'b', 'c'], vec!['x']];
    assert!(execute_step_p2(&mut stacks, 2, 1, 2));
    assert_eq!(stacks, vec![vec!['a'], vec!['x', 'b', 'c']]);

    let mut same = vec![vec!['a', 'b', 'c']];
    assert!(execute_step_p1(&mut same, 5, 1, 1));
    assert_eq!(same, vec![vec!['a', 'b', 'c']]);
    assert!(execute_step_p2(&mut same, 2, 1, 1));
    assert_eq!(same, vec![vec!['a', 'b', 'c']]);
    assert!(!execute_step_p2(&mut same, 5, 1, 1));
    assert_eq!(same, vec![vec!['a', 'b', 'c']]);

    let mut short = vec![vec!['a'], vec![]];
    assert!(!execute_step_p1(&mut short, 2, 1, 2));
    assert!(!execute_step_p1(&mut short, 1, 0, 1));
    assert!(!execute_step_p1(&mut short, 1, 1, 3));
    assert!(execute_step_p1(&mut short, 0, 9, 9));
    assert!(!execute_step_p2(&mut short, 0, 9, 9));
}

#[test]
fn texts_that_cannot_be_done_give_nothing() {
    let s = "[Z] [M]\n 1   2 \n\nmove 1 from 1 to 2";
    assert_eq!(try_top_of_stack(s, Crane::OneByOne), None);
    assert_eq!(try_top_of_stack("[Z] [M]\n 1   2 \n", Crane::OneByOne), None);
    let ok = "[Z] [M]\n[A] [B]\n 1   2 \n\nmove 1 from 1 to 2\n";
    assert_eq!(try_top_of_stack(ok, Crane::OneByOne), Some("AZ".to_string()));
    assert_eq!(top_of_stack(ok, Crane::Together), "AZ");
    let bad = "[Z] [M]\n 1   2 \n\nmove 2 from 1 to 2";
    assert_eq!(try_top_of_stack(bad, Crane::Together), None);
}
