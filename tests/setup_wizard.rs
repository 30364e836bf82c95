use ballot_session::config::{split_choices, VoteInfo, DEFAULT_TIMEOUT_SECS};
use ballot_session::method::VotingMethod;
use ballot_session::session::SetupError;

#[test]
fn new_setup_defaults() {
    let vi = VoteInfo::new();
    assert_eq!(vi.kind, VotingMethod::Approval);
    assert_eq!(vi.prompt, "");
    assert!(!vi.take_sugs);
    assert!(vi.show_at_timeout);
    assert!(!vi.vote_once);
    assert_eq!(vi.ping_chan, 0);
    assert_eq!(vi.timeout_secs, DEFAULT_TIMEOUT_SECS);
    assert_eq!(vi.timeout_secs, 5400);
    assert!(vi.vals.is_empty());
    assert!(!vi.submittable());
}

#[test]
fn submittable_with_two_choices_or_suggestions() {
    let mut vi = VoteInfo::new();
    vi.set_choices("a");
    assert!(!vi.submittable());
    vi.take_sugs = true;
    assert!(vi.submittable());
    vi.take_sugs = false;
    vi.set_choices("a\nb");
    assert!(vi.submittable());
}

#[test]
fn ping_cycles() {
    let mut vi = VoteInfo::new();
    assert_eq!(vi.get_ping(), "");
    vi.next_ping();
    assert_eq!(vi.get_ping(), "@here ");
    vi.next_ping();
    assert_eq!(vi.get_ping(), "@everyone ");
    vi.next_ping();
    assert_eq!(vi.ping_chan, 0);
}

#[test]
fn timeout_from_hours() {
    let mut vi = VoteInfo::new();
    assert!(vi.set_timeout("1.5"));
    assert_eq!(vi.timeout_secs, 5400);
    assert!(vi.set_timeout("0.01"));
    assert_eq!(vi.timeout_secs, 36);
    assert!(vi.set_timeout("144"));
    assert_eq!(vi.timeout_secs, 518400);
    assert!(!vi.set_timeout("145"));
    assert!(!vi.set_timeout("0"));
    assert!(!vi.set_timeout("soon"));
    assert_eq!(vi.timeout_secs, 518400);
}

#[test]
fn prompt_gets_line_break() {
    let mut vi = VoteInfo::new();
    vi.set_prompt("Lunch?");
    assert_eq!(vi.prompt, "Lunch?\n");
    vi.set_prompt("Lunch?\n");
    assert_eq!(vi.prompt, "Lunch?\n");
    vi.set_prompt("");
    assert_eq!(vi.prompt, "");
}

#[test]
fn choices_split_and_trimmed() {
    assert_eq!(split_choices("  pizza \n\tsushi\ntacos  "), vec!["pizza", "sushi", "tacos"]);
    assert_eq!(split_choices("a\n"), vec!["a", ""]);
    assert_eq!(split_choices(""), vec![""]);
}

#[test]
fn suggestions_merge_or_replace() {
    let mut vi = VoteInfo::new();
    vi.set_choices("a\nb");
    vi.add_suggestions(" b \nc\nc", false);
    assert_eq!(vi.vals, vec!["a", "b", "c"]);
    vi.add_suggestions("x\ny", true);
    assert_eq!(vi.vals, vec!["x", "y"]);
}

#[test]
fn setup_starts_session() {
    let mut vi = VoteInfo::new();
    vi.kind = VotingMethod::Borda;
    vi.vote_once = true;
    vi.set_choices("p\nq\nr");
    let s = vi.into_session().unwrap();
    assert_eq!(s.method, VotingMethod::Borda);
    assert!(!s.allow_resubmission);
    assert!(s.show_result_on_close);
    assert_eq!(s.choices.len(), 3);
    let mut one = VoteInfo::new();
    one.set_choices("solo");
    assert_eq!(one.into_session().err(), Some(SetupError::TooFewChoices));
}

#[test]
fn choices_trim_unicode_white_space() {
    assert_eq!(split_choices("\u{a0}tea\u{3000}\n\u{2003}coffee\t"), vec!["tea", "coffee"]);
}
