use ballot_session::ballot::{Ballot, ChoiceMark};
use ballot_session::decimal::parse_decimal;
use ballot_session::method::VotingMethod;

#[test]
fn double_toggle_restores_selection() {
    let mut b = Ballot::new(VotingMethod::Approval, 3);
    b.toggle_selection(1);
    let once = b.clone();
    b.toggle_selection(2);
    b.toggle_selection(2);
    assert_eq!(b, once);
    b.toggle_selection(1);
    assert_eq!(b, Ballot::new(VotingMethod::Approval, 3));
}

#[test]
fn rank_cycles_with_period_n() {
    let n: usize = 3;
    let mut b = Ballot::new(VotingMethod::Borda, n);
    b.increment_rank(0, n);
    let after_one = b.clone();
    assert_eq!(b.mark(0, n), ChoiceMark::Rank(1));
    for _ in 0..n {
        b.increment_rank(0, n);
    }
    assert_eq!(b, after_one);
}

#[test]
fn rank_steps_up_then_wraps() {
    let n: usize = 3;
    let mut b = Ballot::new(VotingMethod::Borda, n);
    assert_eq!(b.mark(1, n), ChoiceMark::Rank(3));
    b.increment_rank(1, n);
    assert_eq!(b.mark(1, n), ChoiceMark::Rank(1));
    b.increment_rank(1, n);
    assert_eq!(b.mark(1, n), ChoiceMark::Rank(2));
    b.increment_rank(1, n);
    assert_eq!(b.mark(1, n), ChoiceMark::Rank(3));
    b.increment_rank(1, n);
    assert_eq!(b.mark(1, n), ChoiceMark::Rank(1));
}

#[test]
fn finalize_fills_defaults_and_is_idempotent() {
    let mut s = Ballot::new(VotingMethod::Score, 3);
    s.set_score(1, 25000);
    let f = s.finalize(3);
    assert_eq!(f, Ballot::Scores(vec![Some(0), Some(25000), Some(0)]));
    assert_eq!(f.finalize(3), f);

    let mut r = Ballot::new(VotingMethod::Borda, 4);
    r.increment_rank(2, 4);
    let f = r.finalize(4);
    assert_eq!(f, Ballot::Ranking(vec![Some(3), Some(3), Some(1), Some(3)]));
    assert_eq!(f.finalize(4), f);

    let mut a = Ballot::new(VotingMethod::Approval, 2);
    a.toggle_selection(0);
    assert_eq!(a.finalize(2), a);
}

#[test]
fn limited_score_sum_limit() {
    let mut over = Ballot::new(VotingMethod::LimitedScore, 2);
    over.set_score(0, 60000);
    over.set_score(1, 50000);
    assert!(!over.are_valid(VotingMethod::LimitedScore, 2));
    let mut at = Ballot::new(VotingMethod::LimitedScore, 2);
    at.set_score(0, 60000);
    at.set_score(1, -40000);
    assert!(at.are_valid(VotingMethod::LimitedScore, 2));
    assert!(over.are_valid(VotingMethod::Score, 2));
}

#[test]
fn borda_needs_every_rank() {
    let mut b = Ballot::new(VotingMethod::Borda, 3);
    b.increment_rank(0, 3);
    b.increment_rank(1, 3);
    assert!(!b.are_valid(VotingMethod::Borda, 3));
    b.increment_rank(2, 3);
    assert!(b.are_valid(VotingMethod::Borda, 3));
}

#[test]
fn parses_entered_scores() {
    assert_eq!(parse_decimal("2.5"), Some(25000));
    assert_eq!(parse_decimal("-10"), Some(-100000));
    assert_eq!(parse_decimal("+3"), Some(30000));
    assert_eq!(parse_decimal(".25"), Some(2500));
    assert_eq!(parse_decimal("7."), Some(70000));
    assert_eq!(parse_decimal("0.0001"), Some(1));
    assert_eq!(parse_decimal("1.23456"), Some(12346));
    assert_eq!(parse_decimal("9.99995"), Some(100000));
    assert_eq!(parse_decimal("0.00005"), Some(1));
    assert_eq!(parse_decimal("-0.00005"), Some(-1));
    assert_eq!(parse_decimal("0.00004"), Some(0));
    assert_eq!(parse_decimal("abc"), None);
    assert_eq!(parse_decimal("."), None);
    assert_eq!(parse_decimal(""), None);
    assert_eq!(parse_decimal("-"), None);
    assert_eq!(parse_decimal("1e1"), Some(100000));
    assert_eq!(parse_decimal("1e3"), Some(10000000));
    assert_eq!(parse_decimal("2.5E-1"), Some(2500));
    assert_eq!(parse_decimal("-.5e+1"), Some(-50000));
    assert_eq!(parse_decimal("1e-5"), Some(0));
    assert_eq!(parse_decimal("0e999"), None);
    assert_eq!(parse_decimal("1e7"), None);
    assert_eq!(parse_decimal("1000000.9999"), Some(10000009999));
    assert_eq!(parse_decimal("1e"), None);
    assert_eq!(parse_decimal("e5"), None);
    assert_eq!(parse_decimal("NaN"), None);
    assert_eq!(parse_decimal("12345678"), None);
}

#[test]
fn method_names_and_values() {
    assert_eq!(VotingMethod::LimitedScore.to_string(), "Limited Score");
    assert_eq!(VotingMethod::from_string("Borda"), Some(VotingMethod::Borda));
    assert_eq!(VotingMethod::from_string("Limited Score"), Some(VotingMethod::LimitedScore));
    assert_eq!(VotingMethod::from_string("Plurality"), None);
    assert_eq!(VotingMethod::Score.value_name(), "score (-10.0 to 10.0)");
    assert_eq!(VotingMethod::get_all().len(), 4);
    assert!(VotingMethod::Score.is_valid_value(100000, 2));
    assert!(!VotingMethod::Score.is_valid_value(100001, 2));
    assert!(VotingMethod::LimitedScore.is_valid_value(-100000, 2));
    assert!(VotingMethod::Borda.is_valid_value(30000, 3));
    assert!(!VotingMethod::Borda.is_valid_value(40000, 3));
    assert!(!VotingMethod::Borda.is_valid_value(15000, 3));
    assert!(!VotingMethod::Borda.is_valid_value(0, 3));
    assert!(VotingMethod::Approval.is_valid_value(-5, 3));
}
