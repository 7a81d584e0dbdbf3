use aoc22::day02::{
    parse_line_p1, parse_line_p2, total_score, total_score_p1, total_score_p2, Hand, Outcome,
};

#[test]
fn test_total_score_p1() {
    let s = "A Y
B X
C Z";
    assert_eq!(total_score_p1(s), 15);
}

#[test]
fn test_total_score_p2() {
    let s = "A Y
B X
C Z";
    assert_eq!(total_score_p2(s), 12);
}

#[test]
fn hands_and_outcomes_are_read_from_letters() {
    assert_eq!(Hand::from_str("A"), Ok(Hand::Rock));
    assert_eq!(Hand::from_str("B"), Ok(Hand::Paper));
    assert_eq!(Hand::from_str("C"), Ok(Hand::Scissors));
    assert_eq!(Hand::from_str("X"), Ok(Hand::Rock));
    assert_eq!(Hand::from_str("Y"), Ok(Hand::Paper));
    assert_eq!(Hand::from_str("Z"), Ok(Hand::Scissors));
    assert_eq!(Hand::from_str("D"), Err(()));
    assert_eq!(Hand::from_str(""), Err(()));
    assert_eq!(Hand::from_str("AA"), Err(()));
    assert_eq!(Outcome::from_str("X"), Ok(Outcome::Loss));
    assert_eq!(Outcome::from_str("Y"), Ok(Outcome::Draw));
    assert_eq!(Outcome::from_str("Z"), Ok(Outcome::Win));
    assert_eq!(Outcome::from_str("A"), Err(()));
}

#[test]
fn every_round_scores_bonus_plus_outcome() {
    let hands = [Hand::Rock, Hand::Paper, Hand::Scissors];
    assert_eq!(Hand::Rock.bonus(), 1);
    assert_eq!(Hand::Paper.bonus(), 2);
    assert_eq!(Hand::Scissors.bonus(), 3);
    assert_eq!(Outcome::Win.score(), 6);
    assert_eq!(Outcome::Draw.score(), 3);
    assert_eq!(Outcome::Loss.score(), 0);
    assert_eq!(Outcome::from(Hand::Scissors, Hand::Rock), Outcome::Win);
    assert_eq!(Outcome::from(Hand::Rock, Hand::Scissors), Outcome::Loss);
    assert_eq!(Outcome::from(Hand::Paper, Hand::Paper), Outcome::Draw);
    assert_eq!(Hand::Paper.score_against(Hand::Rock), 8);
    assert_eq!(Hand::Rock.score_against(Hand::Paper), 1);
    assert_eq!(Hand::Scissors.score_against(Hand::Scissors), 6);
    for h in hands {
        for o in [Outcome::Win, Outcome::Loss, Outcome::Draw] {
            let r = o.response(h);
            assert_eq!(Outcome::from(h, r), o);
            assert_eq!(o.score_against(h), o.score() + r.bonus());
            assert_eq!(r.score_against(h), o.score_against(h));
        }
    }
}

#[test]
fn lines_are_cut_at_white_space() {
    let line: Vec<char> = "  B \t Z  more".chars().collect();
    assert_eq!(parse_line_p1(&line), Some((Hand::Paper, Hand::Scissors)));
    assert_eq!(parse_line_p2(&line), Some((Hand::Paper, Outcome::Win)));
    let short: Vec<char> = "B".chars().collect();
    assert_eq!(parse_line_p1(&short), None);
    let wrong: Vec<char> = "B A".chars().collect();
    assert_eq!(parse_line_p1(&wrong), Some((Hand::Paper, Hand::Rock)));
    assert_eq!(parse_line_p2(&wrong), None);
}

#[test]
fn bad_rounds_give_no_total() {
    assert_eq!(total_score("A Y\nB X\nC Z\n", true), Some(15));
    assert_eq!(total_score("A Y\nB X\nC Z\n", false), Some(12));
    assert_eq!(total_score("A Y\n\nC Z", true), None);
    assert_eq!(total_score("", true), None);
    assert_eq!(total_score("A A", false), None);
}
