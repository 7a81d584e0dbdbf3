use aoc22::day10::{
    register_values, render_image, render_values, signal_strength, sum_of_signal_strengths,
    Instruction,
};

#[test]
fn warmup() {
    let input = "noop
addx 3
addx -5";
    assert_eq!(sum_of_signal_strengths(input), 0);
}

static INPUT: &str = "addx 15
addx -11
addx 6
addx -3
addx 5
addx -1
addx -8
addx 13
addx 4
noop
addx -1
addx 5
addx -1
addx 5
addx -1
addx 5
addx -1
addx 5
addx -1
addx -35
addx 1
addx 24
addx -19
addx 1
addx 16
addx -11
noop
noop
addx 21
addx -15
noop
noop
addx -3
addx 9
addx 1
addx -3
addx 8
addx 1
addx 5
noop
noop
noop
noop
noop
addx -36
noop
addx 1
addx 7
noop
noop
noop
addx 2
addx 6
noop
noop
noop
noop
noop
addx 1
noop
noop
addx 7
addx 1
noop
addx -13
addx 13
addx 7
noop
addx 1
addx -33
noop
noop
noop
addx 2
noop
noop
noop
addx 8
noop
addx -1
addx 2
addx 1
noop
addx 17
addx -9
addx 1
addx 1
addx -3
addx 11
noop
noop
addx 1
noop
addx 1
noop
noop
addx -13
addx -19
addx 1
addx 3
addx 26
addx -30
addx 12
addx -1
addx 3
addx 1
noop
noop
noop
addx -9
addx 18
addx 1
addx 2
noop
noop
addx 9
noop
noop
noop
addx -1
addx 2
addx -37
addx 1
addx 3
noop
addx 15
addx -21
addx 22
addx -6
addx 1
noop
addx 2
addx 1
noop
addx -10
noop
noop
addx 20
addx 1
addx 2
addx 2
addx -6
addx -11
noop
noop
noop";

#[test]
fn test_sum_of_signal_strengths() {
    assert_eq!(sum_of_signal_strengths(INPUT), 13140)
}

#[test]
fn test_render_image() {
    let output = "##..##..##..##..##..##..##..##..##..##..
###...###...###...###...###...###...###.
####....####....####....####....####....
#####.....#####.....#####.....#####.....
######......######......######......####
#######.......#######.......#######.....";
    assert_eq!(render_image(INPUT), output)
}

#[test]
fn instructions_are_read_from_lines() {
    assert_eq!(Instruction::from_str("noop"), Ok(Instruction::Noop));
    assert_eq!(Instruction::from_str("noop 7 x"), Ok(Instruction::Noop));
    assert_eq!(Instruction::from_str("addx 3"), Ok(Instruction::AddX(3)));
    assert_eq!(Instruction::from_str("addx -5 junk"), Ok(Instruction::AddX(-5)));
    assert_eq!(Instruction::from_str("addx"), Err(()));
    assert_eq!(Instruction::from_str("addx x"), Err(()));
    assert_eq!(Instruction::from_str("addx  3"), Err(()));
    assert_eq!(Instruction::from_str(" noop"), Err(()));
    assert_eq!(Instruction::from_str(""), Err(()));
}

#[test]
fn register_during_each_cycle() {
    assert_eq!(register_values("noop\naddx 3\naddx -5"), Some(vec![0, 1, 1, 1, 4, 4]));
    assert_eq!(register_values("noop"), Some(vec![0, 1]));
    assert_eq!(register_values(""), None);
    assert_eq!(register_values("noop\nhalt"), None);
    assert_eq!(register_values("addx 9223372036854775806"), Some(vec![0, 1, 1]));
    assert_eq!(register_values("addx 9223372036854775807"), None);
    assert_eq!(register_values("addx 9223372036854775806\nnoop\naddx 1"), None);
}

#[test]
fn strengths_are_taken_every_forty_cycles() {
    let mut values = vec![0i64; 61];
    values[20] = 3;
    values[60] = -2;
    assert_eq!(signal_strength(&values), Some(20 * 3 - 60 * 2));
    values[20] = i64::MAX;
    assert_eq!(signal_strength(&values), None);
    values[20] = i64::MAX / 20;
    values[60] = 1;
    assert_eq!(signal_strength(&values), None);
    values[60] = 0;
    assert_eq!(signal_strength(&values), Some(20 * (i64::MAX / 20)));
    assert_eq!(signal_strength(&Vec::new()), Some(0));
}

#[test]
fn pictures_of_few_rows() {
    assert_eq!(render_values(&vec![0]), "");
    let mut values = vec![1i64; 41];
    assert_eq!(render_values(&values), "###.....................................");
    values[2] = 5;
    values[40] = 39;
    assert_eq!(render_values(&values), "#.#....................................#");
    values.extend(vec![39i64; 40]);
    assert_eq!(
        render_values(&values),
        "#.#....................................#\n......................................##"
    );
}
