use ballot_session::ballot::ChoiceMark;
use ballot_session::method::VotingMethod;
use ballot_session::session::{
    Action, ContractViolation, Direction, Directive, Notice, Session, SetupError,
};
use ballot_session::tally::{compute_results, TallyResult};

fn session(method: VotingMethod, labels: &[&str], resubmit: bool) -> Session {
    let choices: Vec<String> = labels.iter().map(|l| l.to_string()).collect();
    Session::new(method, choices, resubmit, true).unwrap()
}

fn act(s: &mut Session, a: Action) -> Vec<Directive> {
    s.handle(a).unwrap()
}

fn result_of(ds: &[Directive]) -> TallyResult {
    match ds.last() {
        Some(Directive::ShowResult { result, .. }) => result.clone(),
        other => panic!("no result: {:?}", other),
    }
}

#[test]
fn approval_scenario_three_way_tie() {
    let mut s = session(VotingMethod::Approval, &["X", "Y", "Z"], true);
    act(&mut s, Action::OpenBallot { voter: 1 });
    act(&mut s, Action::Toggle { voter: 1, choice: 0 });
    act(&mut s, Action::Toggle { voter: 1, choice: 2 });
    let d = act(&mut s, Action::Submit { voter: 1 });
    assert_eq!(d[0], Directive::UpdateVoterCount { count: 1 });
    act(&mut s, Action::OpenBallot { voter: 2 });
    act(&mut s, Action::Toggle { voter: 2, choice: 1 });
    let d = act(&mut s, Action::Submit { voter: 2 });
    assert_eq!(d[0], Directive::UpdateVoterCount { count: 2 });
    let r = result_of(&d);
    assert_eq!(r.totals, vec![1, 1, 1]);
    assert_eq!(r.winners, vec![0, 1, 2]);
}

#[test]
fn score_scenario_single_winner() {
    let mut s = session(VotingMethod::Score, &["A", "B"], true);
    act(&mut s, Action::OpenBallot { voter: 7 });
    let d = act(&mut s, Action::Toggle { voter: 7, choice: 0 });
    assert_eq!(d, vec![Directive::RequestValue { voter: 7, choice: 0, current: 0 }]);
    act(&mut s, Action::ValueEntered { voter: 7, choice: 0, text: "10.0".to_string() });
    act(&mut s, Action::ValueEntered { voter: 7, choice: 1, text: "-10.0".to_string() });
    let d = act(&mut s, Action::Submit { voter: 7 });
    let r = result_of(&d);
    assert_eq!(r.totals, vec![100000, -100000]);
    assert_eq!(r.winners, vec![0]);
}

#[test]
fn borda_scenario_and_untouched_ballot() {
    let mut s = session(VotingMethod::Borda, &["P", "Q", "R"], true);
    act(&mut s, Action::OpenBallot { voter: 1 });
    // P once (rank 1), Q twice (rank 2), R three times (rank 3)
    act(&mut s, Action::Toggle { voter: 1, choice: 0 });
    for _ in 0..2 {
        act(&mut s, Action::Toggle { voter: 1, choice: 1 });
    }
    for _ in 0..3 {
        act(&mut s, Action::Toggle { voter: 1, choice: 2 });
    }
    let d = act(&mut s, Action::Submit { voter: 1 });
    let r = result_of(&d);
    assert_eq!(r.totals, vec![2, 1, 0]);
    assert_eq!(r.winners, vec![0]);

    act(&mut s, Action::OpenBallot { voter: 2 });
    let d = act(&mut s, Action::Submit { voter: 2 });
    match &d[0] {
        Directive::ShowBallot { notice, .. } => assert_eq!(*notice, Notice::InvalidBallot),
        other => panic!("expected the ballot again: {:?}", other),
    }
    assert_eq!(s.voter_count(), 1);
}

#[test]
fn borda_missing_rank_then_complete() {
    let mut s = session(VotingMethod::Borda, &["P", "Q", "R"], true);
    act(&mut s, Action::OpenBallot { voter: 4 });
    act(&mut s, Action::Toggle { voter: 4, choice: 0 });
    act(&mut s, Action::Toggle { voter: 4, choice: 1 });
    let d = act(&mut s, Action::Submit { voter: 4 });
    assert!(matches!(d[0], Directive::ShowBallot { notice: Notice::InvalidBallot, .. }));
    assert_eq!(s.voter_count(), 0);
    act(&mut s, Action::Toggle { voter: 4, choice: 2 });
    let d = act(&mut s, Action::Submit { voter: 4 });
    assert_eq!(d[0], Directive::UpdateVoterCount { count: 1 });
}

#[test]
fn limited_score_scenario() {
    let mut s = session(VotingMethod::LimitedScore, &["A", "B"], true);
    act(&mut s, Action::OpenBallot { voter: 3 });
    act(&mut s, Action::ValueEntered { voter: 3, choice: 0, text: "6.0".to_string() });
    act(&mut s, Action::ValueEntered { voter: 3, choice: 1, text: "5.0".to_string() });
    let d = act(&mut s, Action::Submit { voter: 3 });
    assert!(matches!(d[0], Directive::ShowBallot { notice: Notice::InvalidBallot, .. }));
    assert_eq!(s.voter_count(), 0);
    act(&mut s, Action::ValueEntered { voter: 3, choice: 1, text: "4.0".to_string() });
    let d = act(&mut s, Action::Submit { voter: 3 });
    assert_eq!(d[0], Directive::UpdateVoterCount { count: 1 });
    assert_eq!(result_of(&d).totals, vec![60000, 40000]);
}

#[test]
fn resubmission_off_keeps_first_ballot() {
    let mut s = session(VotingMethod::Approval, &["X", "Y"], false);
    act(&mut s, Action::OpenBallot { voter: 9 });
    act(&mut s, Action::Toggle { voter: 9, choice: 0 });
    act(&mut s, Action::Submit { voter: 9 });
    let before = s.submitted.clone();
    act(&mut s, Action::Toggle { voter: 9, choice: 1 });
    let d = act(&mut s, Action::Submit { voter: 9 });
    assert_eq!(d.len(), 1);
    let r = result_of(&d);
    assert_eq!(r.totals, vec![1, 0]);
    assert_eq!(s.voter_count(), 1);
    assert_eq!(s.submitted, before);
    let d = act(&mut s, Action::OpenBallot { voter: 9 });
    assert_eq!(d, vec![Directive::ShowSubmitted { voter: 9, first: true, notice: Notice::Plain }]);
}

#[test]
fn resubmission_on_overwrites_without_recount() {
    let mut s = session(VotingMethod::Approval, &["X", "Y"], true);
    act(&mut s, Action::OpenBallot { voter: 9 });
    act(&mut s, Action::Toggle { voter: 9, choice: 0 });
    act(&mut s, Action::Submit { voter: 9 });
    act(&mut s, Action::Toggle { voter: 9, choice: 0 });
    act(&mut s, Action::Toggle { voter: 9, choice: 1 });
    let d = act(&mut s, Action::Submit { voter: 9 });
    assert_eq!(d.len(), 1);
    assert_eq!(result_of(&d).totals, vec![0, 1]);
    assert_eq!(s.voter_count(), 1);
}

#[test]
fn results_are_deterministic() {
    let mut s = session(VotingMethod::Approval, &["X", "Y", "Z"], true);
    for v in 0..5u64 {
        act(&mut s, Action::OpenBallot { voter: v });
        act(&mut s, Action::Toggle { voter: v, choice: (v % 3) as usize });
        act(&mut s, Action::Submit { voter: v });
    }
    let a = compute_results(VotingMethod::Approval, &s.submitted, 3);
    let b = compute_results(VotingMethod::Approval, &s.submitted, 3);
    assert_eq!(a, b);
    assert_eq!(a.totals, vec![2, 2, 1]);
    assert_eq!(a.winners, vec![0, 1]);
}

#[test]
fn no_ballots_every_choice_wins() {
    let none = Vec::new();
    let r = compute_results(VotingMethod::Score, &none, 2);
    assert_eq!(r.totals, vec![0, 0]);
    assert_eq!(r.winners, vec![0, 1]);
    let r = compute_results(VotingMethod::Borda, &none, 3);
    assert_eq!(r.totals, vec![0, 0, 0]);
    assert_eq!(r.winners, vec![0, 1, 2]);
    let r = compute_results(VotingMethod::Approval, &none, 2);
    assert_eq!(r.winners, vec![0, 1]);
}

#[test]
fn empty_approvals_tie_every_choice() {
    let mut s = session(VotingMethod::Approval, &["X", "Y"], true);
    act(&mut s, Action::OpenBallot { voter: 1 });
    let d = act(&mut s, Action::Submit { voter: 1 });
    let r = result_of(&d);
    assert_eq!(r.totals, vec![0, 0]);
    assert_eq!(r.winners, vec![0, 1]);
}

#[test]
fn closing_with_no_voters_shows_a_full_tie() {
    let mut s = session(VotingMethod::Borda, &["P", "Q"], true);
    let d = act(&mut s, Action::Deadline);
    match &d[0] {
        Directive::ShowClosed { outcome: Some(r) } => assert_eq!(r.winners, vec![0, 1]),
        other => panic!("{:?}", other),
    }
}

#[test]
fn pages_wrap_both_ways() {
    let mut s = session(VotingMethod::Approval, &["a", "b", "c", "d", "e"], true);
    assert_eq!(s.num_pages(), 2);
    let d = act(&mut s, Action::OpenBallot { voter: 1 });
    match &d[0] {
        Directive::ShowBallot { page, pages, marks, first, .. } => {
            assert_eq!((*page, *pages, *first), (0, 2, true));
            assert_eq!(marks.len(), 4);
        },
        other => panic!("{:?}", other),
    }
    let d = act(&mut s, Action::Navigate { voter: 1, direction: Direction::Left });
    match &d[0] {
        Directive::ShowBallot { page, marks, .. } => {
            assert_eq!(*page, 1);
            assert_eq!(marks, &vec![(4, ChoiceMark::Selected(false))]);
        },
        other => panic!("{:?}", other),
    }
    let d = act(&mut s, Action::Navigate { voter: 1, direction: Direction::Right });
    assert!(matches!(d[0], Directive::ShowBallot { page: 0, .. }));
}

#[test]
fn bad_value_becomes_zero() {
    let mut s = session(VotingMethod::Score, &["A", "B"], true);
    act(&mut s, Action::OpenBallot { voter: 1 });
    act(&mut s, Action::ValueEntered { voter: 1, choice: 1, text: "3".to_string() });
    let d = act(&mut s, Action::ValueEntered { voter: 1, choice: 1, text: "11".to_string() });
    match &d[0] {
        Directive::ShowBallot { notice, marks, .. } => {
            assert_eq!(*notice, Notice::BadValue);
            assert_eq!(marks[1], (1, ChoiceMark::Score(0)));
        },
        other => panic!("{:?}", other),
    }
    let d = act(&mut s, Action::ValueEntered { voter: 1, choice: 0, text: "x".to_string() });
    assert!(matches!(d[0], Directive::ShowBallot { notice: Notice::BadValue, .. }));
    let d = act(&mut s, Action::ValueEntered { voter: 1, choice: 0, text: "1e1".to_string() });
    match &d[0] {
        Directive::ShowBallot { notice, marks, .. } => {
            assert_eq!(*notice, Notice::Plain);
            assert_eq!(marks[0], (0, ChoiceMark::Score(100000)));
        },
        other => panic!("{:?}", other),
    }
}

#[test]
fn misrouted_actions_are_refused() {
    let mut s = session(VotingMethod::Approval, &["A", "B"], true);
    assert_eq!(s.handle(Action::Submit { voter: 5 }), Err(ContractViolation::UnknownParticipant));
    act(&mut s, Action::OpenBallot { voter: 5 });
    assert_eq!(s.handle(Action::Toggle { voter: 5, choice: 2 }), Err(ContractViolation::UnknownChoice));
    assert_eq!(
        s.handle(Action::ValueEntered { voter: 5, choice: 0, text: "1".to_string() }),
        Err(ContractViolation::NotScored)
    );
}

#[test]
fn views_are_tracked() {
    let mut s = session(VotingMethod::Approval, &["A", "B"], true);
    act(&mut s, Action::OpenBallot { voter: 5 });
    assert!(!s.is_current_view(5, 77));
    assert_eq!(act(&mut s, Action::ViewOpened { voter: 5, view: 77 }), vec![]);
    assert!(s.is_current_view(5, 77));
    assert!(!s.is_current_view(6, 77));
}

#[test]
fn deadline_closes_and_drops_later_actions() {
    let mut s = session(VotingMethod::Approval, &["A", "B"], true);
    act(&mut s, Action::OpenBallot { voter: 1 });
    act(&mut s, Action::Toggle { voter: 1, choice: 1 });
    act(&mut s, Action::Submit { voter: 1 });
    let d = act(&mut s, Action::Deadline);
    match &d[0] {
        Directive::ShowClosed { outcome: Some(r) } => assert_eq!(r.winners, vec![1]),
        other => panic!("{:?}", other),
    }
    assert_eq!(act(&mut s, Action::Submit { voter: 1 }), vec![]);
    assert_eq!(act(&mut s, Action::OpenBallot { voter: 2 }), vec![]);
}

#[test]
fn setup_checks_choices() {
    let one = vec!["only".to_string()];
    assert_eq!(Session::new(VotingMethod::Approval, one, true, true).err(), Some(SetupError::TooFewChoices));
    let long = "abcdefghijklmnopqrstuvwxyz0123456789".to_string();
    let s = Session::new(VotingMethod::Approval, vec![long, "b".to_string()], true, false).unwrap();
    assert_eq!(s.choices[0], "abcdefghijklmnopqrstuvwxyz0123456");
    assert_eq!(s.choices[1], "b");
}
