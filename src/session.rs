use vstd::prelude::*;
use vstd::string::StrSliceExecFns;
use crate::ballot::{
    Ballot, BallotView, ChoiceMark, ballot_fits, empty_ballot, mark_of, toggled, rank_incremented,
    score_set, finalized, submission_valid, abs_total,
};
use crate::decimal::{parse_decimal, parsed_decimal};
use crate::method::{VotingMethod, valid_value};
use crate::tally::{TallyResult, compute_results, is_result_of, views};

verus! {

/// Choices shown on one page of a private view.
pub const PAGE_SIZE: usize = 4;

/// Longest choice label kept, in characters.
pub const LABEL_LIMIT: usize = 33;

/// Most choices a session takes.
pub const MAX_CHOICES: usize = 4294967295;

/// One user's state within a session.
#[derive(Debug)]
pub struct Participant {
    pub voter: u64,
    pub ballot: Ballot,
    /// The handle of the participant's private view, once it was shown.
    pub view: Option<u64>,
    pub page: usize,
}

#[derive(PartialEq, Eq, Structural, Debug, Clone, Copy)]
pub enum Phase {
    Open,
    Closed,
}

#[derive(PartialEq, Eq, Structural, Debug, Clone, Copy)]
pub enum Direction {
    Left,
    Right,
}

/// Why a session could not start.
#[derive(PartialEq, Eq, Structural, Debug, Clone, Copy)]
pub enum SetupError {
    TooFewChoices,
    TooManyChoices,
}

/// An action that names no participant or choice of the session, or does not fit its method.
#[derive(PartialEq, Eq, Structural, Debug, Clone, Copy)]
pub enum ContractViolation {
    UnknownParticipant,
    UnknownChoice,
    NotScored,
}

/// A remark shown with a private view.
#[derive(PartialEq, Eq, Structural, Debug, Clone, Copy)]
pub enum Notice {
    Plain,
    BadValue,
    InvalidBallot,
}

/// What the surface is asked to show.
#[derive(Debug, PartialEq, Eq)]
pub enum Directive {
    /// One page of a participant's ballot: each choice on it, with its mark.
    ShowBallot {
        voter: u64,
        first: bool,
        page: usize,
        pages: usize,
        marks: Vec<(usize, ChoiceMark)>,
        notice: Notice,
    },
    /// The participant has submitted and may not change the ballot.
    ShowSubmitted { voter: u64, first: bool, notice: Notice },
    /// Ask the participant for the value of one choice.
    RequestValue { voter: u64, choice: usize, current: i64 },
    /// The number of participants who have submitted.
    UpdateVoterCount { count: usize },
    /// The current results, to one participant.
    ShowResult { voter: u64, result: TallyResult },
    /// The session is over; the results, if they are shown at the close.
    ShowClosed { outcome: Option<TallyResult> },
}

/// An action from the surface.
#[derive(Debug)]
pub enum Action {
    OpenBallot { voter: u64 },
    ViewOpened { voter: u64, view: u64 },
    Navigate { voter: u64, direction: Direction },
    Toggle { voter: u64, choice: usize },
    ValueEntered { voter: u64, choice: usize, text: String },
    Submit { voter: u64 },
    Deadline,
}

/// A running vote: its configuration, its participants and the ballots submitted so far.
#[derive(Debug)]
pub struct Session {
    pub method: VotingMethod,
    pub choices: Vec<String>,
    pub allow_resubmission: bool,
    pub show_result_on_close: bool,
    pub participants: Vec<Participant>,
    /// Who submitted, in order of first submission; `submitted` holds their ballots.
    pub voters: Vec<u64>,
    pub submitted: Vec<Ballot>,
    pub phase: Phase,
}

pub open spec fn page_count(n: nat) -> nat {
    if n == 0 {
        1
    } else {
        ((n - 1) as int / (PAGE_SIZE as int) + 1) as nat
    }
}

pub open spec fn page_after(page: nat, pages: nat, d: Direction) -> nat {
    match d {
        Direction::Left => if page == 0 {
            (pages - 1) as nat
        } else {
            (page - 1) as nat
        },
        Direction::Right => if page + 1 >= pages {
            0
        } else {
            page + 1
        },
    }
}

/// The first choice on `page`, and how many choices it shows.
pub open spec fn page_start(page: nat) -> int {
    page * PAGE_SIZE
}

pub open spec fn page_len(page: nat, n: nat) -> nat {
    if page_start(page) >= n {
        0
    } else if n - page_start(page) < PAGE_SIZE {
        (n - page_start(page)) as nat
    } else {
        PAGE_SIZE as nat
    }
}

pub open spec fn page_marks(b: BallotView, page: nat, n: nat) -> Seq<(usize, ChoiceMark)> {
    Seq::new(
        page_len(page, n),
        |j: int| ((page_start(page) + j) as usize, mark_of(b, page_start(page) + j, n)),
    )
}

pub open spec fn label_kept(s: Seq<char>) -> Seq<char> {
    if s.len() > LABEL_LIMIT {
        s.take(LABEL_LIMIT as int)
    } else {
        s
    }
}

pub open spec fn has_participant(ps: Seq<Participant>, voter: u64) -> bool {
    exists|k: int| 0 <= k < ps.len() && (#[trigger] ps[k]).voter == voter
}

pub open spec fn replies(r: Result<Vec<Directive>, ContractViolation>) -> Seq<Directive> {
    match r {
        Ok(v) => v@,
        Err(_) => seq![],
    }
}

pub open spec fn slot(ps: Seq<Participant>, voter: u64) -> int {
    choose|k: int| 0 <= k < ps.len() && (#[trigger] ps[k]).voter == voter
}

pub open spec fn voter_slot(vs: Seq<u64>, voter: u64) -> int {
    choose|j: int| 0 <= j < vs.len() && vs[j] == voter
}

pub open spec fn same_setup(a: Session, b: Session) -> bool {
    &&& b.method == a.method
    &&& b.choices@ == a.choices@
    &&& b.allow_resubmission == a.allow_resubmission
    &&& b.show_result_on_close == a.show_result_on_close
    &&& b.phase == a.phase
}

pub open spec fn same_submissions(a: Session, b: Session) -> bool {
    b.voters@ == a.voters@ && b.submitted@ == a.submitted@
}

pub open spec fn unchanged(a: Session, b: Session) -> bool {
    same_setup(a, b) && same_submissions(a, b) && b.participants@ == a.participants@
}

/// `b` is `a` with participant `k` given this ballot, page and view.
pub open spec fn participant_set(
    a: Session,
    b: Session,
    k: int,
    ballot: BallotView,
    page: usize,
    view: Option<u64>,
) -> bool {
    &&& same_setup(a, b)
    &&& same_submissions(a, b)
    &&& b.participants@.len() == a.participants@.len()
    &&& forall|j: int|
        0 <= j < a.participants@.len() && j != k ==> #[trigger] b.participants@[j]
            == a.participants@[j]
    &&& b.participants@[k].voter == a.participants@[k].voter
    &&& b.participants@[k].ballot@ == ballot
    &&& b.participants@[k].page == page
    &&& b.participants@[k].view == view
}

/// `d` shows participant `k`'s private view: the current page of the ballot, or, once the
/// participant may no longer change it, that it was submitted.
pub open spec fn shows_view(s: Session, k: int, first: bool, notice: Notice, d: Directive) -> bool {
    let p = s.participants@[k];
    if s.locked(p.voter) {
        d == Directive::ShowSubmitted { voter: p.voter, first, notice }
    } else {
        d matches Directive::ShowBallot { voter, first: f, page, pages, marks, notice: t } && voter
            == p.voter && f == first && page == p.page && pages == page_count(s.n()) && marks@
            == page_marks(p.ballot@, p.page as nat, s.n()) && t == notice
    }
}

pub open spec fn shows_result(s: Session, voter: u64, d: Directive) -> bool {
    d matches Directive::ShowResult { voter: v, result } && v == voter && is_result_of(
        result,
        views(s.submitted@),
        s.n(),
    )
}

pub open spec fn open_ballot_done(a: Session, b: Session, voter: u64, r: Seq<Directive>) -> bool {
    &&& same_setup(a, b)
    &&& same_submissions(a, b)
    &&& has_participant(a.participants@, voter) ==> b.participants@ == a.participants@
    &&& !has_participant(a.participants@, voter) ==> {
        &&& b.participants@.len() == a.participants@.len() + 1
        &&& b.participants@.take(a.participants@.len() as int) == a.participants@
        &&& b.participants@.last().voter == voter
        &&& b.participants@.last().ballot@ == empty_ballot(a.method, a.n())
        &&& b.participants@.last().view is None
        &&& b.participants@.last().page == 0
    }
    &&& r.len() == 1
    &&& shows_view(b, slot(b.participants@, voter), true, Notice::Plain, r[0])
}

pub open spec fn unknown_voter(
    a: Session,
    b: Session,
    voter: u64,
    r: Result<Vec<Directive>, ContractViolation>,
) -> bool {
    !has_participant(a.participants@, voter) && r == Err::<Vec<Directive>, ContractViolation>(
        ContractViolation::UnknownParticipant,
    ) && unchanged(a, b)
}

pub open spec fn view_opened_done(
    a: Session,
    b: Session,
    voter: u64,
    view: u64,
    r: Result<Vec<Directive>, ContractViolation>,
) -> bool {
    unknown_voter(a, b, voter, r) || {
        let k = slot(a.participants@, voter);
        let p = a.participants@[k];
        &&& has_participant(a.participants@, voter)
        &&& participant_set(a, b, k, p.ballot@, p.page, Some(view))
        &&& r is Ok && replies(r).len() == 0
    }
}

pub open spec fn navigate_done(
    a: Session,
    b: Session,
    voter: u64,
    d: Direction,
    r: Result<Vec<Directive>, ContractViolation>,
) -> bool {
    unknown_voter(a, b, voter, r) || {
        let k = slot(a.participants@, voter);
        let p = a.participants@[k];
        &&& has_participant(a.participants@, voter)
        &&& participant_set(
            a,
            b,
            k,
            p.ballot@,
            page_after(p.page as nat, page_count(a.n()), d) as usize,
            p.view,
        )
        &&& r is Ok && replies(r).len() == 1 && shows_view(b, k, false, Notice::Plain, replies(r)[0])
    }
}

pub open spec fn toggle_done(
    a: Session,
    b: Session,
    voter: u64,
    choice: usize,
    r: Result<Vec<Directive>, ContractViolation>,
) -> bool {
    unknown_voter(a, b, voter, r) || (has_participant(a.participants@, voter) && choice >= a.n()
        && r == Err::<Vec<Directive>, ContractViolation>(ContractViolation::UnknownChoice)
        && unchanged(a, b)) || {
        let k = slot(a.participants@, voter);
        let p = a.participants@[k];
        &&& has_participant(a.participants@, voter)
        &&& choice < a.n()
        &&& match a.method {
            VotingMethod::Approval => participant_set(
                a,
                b,
                k,
                toggled(p.ballot@, choice as int),
                p.page,
                p.view,
            ) && r is Ok && replies(r).len() == 1 && shows_view(b, k, false, Notice::Plain, replies(r)[0]),
            VotingMethod::Borda => participant_set(
                a,
                b,
                k,
                rank_incremented(p.ballot@, choice as int, a.n()),
                p.page,
                p.view,
            ) && r is Ok && replies(r).len() == 1 && shows_view(b, k, false, Notice::Plain, replies(r)[0]),
            _ => unchanged(a, b) && r is Ok && replies(r).len() == 1 && replies(r)[0]
                == Directive::RequestValue {
                voter,
                choice,
                current: match mark_of(p.ballot@, choice as int, a.n()) {
                    ChoiceMark::Score(x) => x,
                    _ => 0,
                },
            },
        }
    }
}

/// The score that entering `text` gives: its value if it reads as a valid score, else 0.
pub open spec fn entered_value(m: VotingMethod, text: Seq<char>, n: nat) -> i64 {
    match parsed_decimal(text) {
        Some(v) => if valid_value(m, v, n as int) {
            v as i64
        } else {
            0
        },
        None => 0,
    }
}

pub open spec fn entry_accepted(m: VotingMethod, text: Seq<char>, n: nat) -> bool {
    parsed_decimal(text) matches Some(v) && valid_value(m, v, n as int)
}

pub open spec fn value_entered_done(
    a: Session,
    b: Session,
    voter: u64,
    choice: usize,
    text: Seq<char>,
    r: Result<Vec<Directive>, ContractViolation>,
) -> bool {
    unknown_voter(a, b, voter, r) || (has_participant(a.participants@, voter) && choice >= a.n()
        && r == Err::<Vec<Directive>, ContractViolation>(ContractViolation::UnknownChoice)
        && unchanged(a, b)) || (has_participant(a.participants@, voter) && choice < a.n() && !(
    a.method == VotingMethod::Score || a.method == VotingMethod::LimitedScore) && r == Err::<
        Vec<Directive>,
        ContractViolation,
    >(ContractViolation::NotScored) && unchanged(a, b)) || {
        let k = slot(a.participants@, voter);
        let p = a.participants@[k];
        let notice = if entry_accepted(a.method, text, a.n()) {
            Notice::Plain
        } else {
            Notice::BadValue
        };
        &&& has_participant(a.participants@, voter)
        &&& choice < a.n()
        &&& (a.method == VotingMethod::Score || a.method == VotingMethod::LimitedScore)
        &&& participant_set(
            a,
            b,
            k,
            score_set(p.ballot@, choice as int, entered_value(a.method, text, a.n())),
            p.page,
            p.view,
        )
        &&& r is Ok && replies(r).len() == 1 && shows_view(b, k, false, notice, replies(r)[0])
    }
}

pub open spec fn submit_done(
    a: Session,
    b: Session,
    voter: u64,
    r: Result<Vec<Directive>, ContractViolation>,
) -> bool {
    unknown_voter(a, b, voter, r) || {
        let k = slot(a.participants@, voter);
        let p = a.participants@[k];
        &&& has_participant(a.participants@, voter)
        &&& a.locked(voter) ==> unchanged(a, b) && r is Ok && replies(r).len() == 1 && shows_result(
            b,
            voter,
            replies(r)[0],
        )
        &&& !a.locked(voter) && !submission_valid(p.ballot@, a.method) ==> unchanged(a, b)
            && r is Ok && replies(r).len() == 1 && shows_view(
            b,
            k,
            false,
            Notice::InvalidBallot,
            replies(r)[0],
        )
        &&& !a.locked(voter) && submission_valid(p.ballot@, a.method) && a.voters@.contains(voter)
            ==> {
            let j = voter_slot(a.voters@, voter);
            &&& same_setup(a, b)
            &&& b.participants@ == a.participants@
            &&& b.voters@ == a.voters@
            &&& b.submitted@.len() == a.submitted@.len()
            &&& forall|i: int|
                0 <= i < a.submitted@.len() && i != j ==> #[trigger] b.submitted@[i]
                    == a.submitted@[i]
            &&& b.submitted@[j]@ == finalized(p.ballot@, a.n())
            &&& r is Ok && replies(r).len() == 1 && shows_result(b, voter, replies(r)[0])
        }
        &&& !a.locked(voter) && submission_valid(p.ballot@, a.method) && !a.voters@.contains(voter)
            ==> {
            &&& same_setup(a, b)
            &&& b.participants@ == a.participants@
            &&& b.voters@ == a.voters@.push(voter)
            &&& b.submitted@.len() == a.submitted@.len() + 1
            &&& b.submitted@.take(a.submitted@.len() as int) == a.submitted@
            &&& b.submitted@.last()@ == finalized(p.ballot@, a.n())
            &&& r is Ok && replies(r).len() == 2 && replies(r)[0] == Directive::UpdateVoterCount {
                count: b.voters@.len() as usize,
            } && shows_result(b, voter, replies(r)[1])
        }
    }
}

pub open spec fn deadline_done(a: Session, b: Session, r: Seq<Directive>) -> bool {
    &&& b.method == a.method
    &&& b.choices@ == a.choices@
    &&& b.allow_resubmission == a.allow_resubmission
    &&& b.show_result_on_close == a.show_result_on_close
    &&& same_submissions(a, b)
    &&& b.participants@ == a.participants@
    &&& b.phase == Phase::Closed
    &&& r.len() == 1
    &&& r[0] matches Directive::ShowClosed { outcome }
    &&& a.show_result_on_close ==> (outcome matches Some(t) && is_result_of(
        t,
        views(a.submitted@),
        a.n(),
    ))
    &&& !a.show_result_on_close ==> outcome is None
}

pub open spec fn handled(
    a: Session,
    b: Session,
    action: Action,
    r: Result<Vec<Directive>, ContractViolation>,
) -> bool {
    if a.phase == Phase::Closed {
        unchanged(a, b) && r is Ok && replies(r).len() == 0
    } else {
        match action {
            Action::OpenBallot { voter } => r is Ok && open_ballot_done(a, b, voter, replies(r)),
            Action::ViewOpened { voter, view } => view_opened_done(a, b, voter, view, r),
            Action::Navigate { voter, direction } => navigate_done(a, b, voter, direction, r),
            Action::Toggle { voter, choice } => toggle_done(a, b, voter, choice, r),
            Action::ValueEntered { voter, choice, text } => value_entered_done(
                a,
                b,
                voter,
                choice,
                text@,
                r,
            ),
            Action::Submit { voter } => submit_done(a, b, voter, r),
            Action::Deadline => r is Ok && deadline_done(a, b, replies(r)),
        }
    }
}

proof fn lemma_slot(ps: Seq<Participant>, k: int, voter: u64)
    requires
        0 <= k < ps.len(),
        ps[k].voter == voter,
        forall|i: int, j: int|
            0 <= i < ps.len() && 0 <= j < ps.len() && i != j ==> (#[trigger] ps[i]).voter
                != (#[trigger] ps[j]).voter,
    ensures
        slot(ps, voter) == k,
        has_participant(ps, voter),
{
    let j = slot(ps, voter);
    assert(has_participant(ps, voter));
    assert(ps[j].voter == voter);
}

proof fn lemma_voter_slot(vs: Seq<u64>, j: int, voter: u64)
    requires
        0 <= j < vs.len(),
        vs[j] == voter,
        forall|a: int, b: int|
            0 <= a < vs.len() && 0 <= b < vs.len() && a != b ==> #[trigger] vs[a] != #[trigger] vs[b],
    ensures
        voter_slot(vs, voter) == j,
{
    let i = voter_slot(vs, voter);
    assert(vs[i] == voter);
}

proof fn lemma_finalized_fits(b: BallotView, m: VotingMethod, n: nat)
    requires
        ballot_fits(b, m, n),
    ensures
        ballot_fits(finalized(b, n), m, n),
        submission_valid(b, m) ==> submission_valid(finalized(b, n), m),
{
    if let BallotView::Scores(s) = b {
        lemma_abs_total_filled(s);
    }
}

proof fn lemma_abs_total_filled(s: Seq<Option<i64>>)
    ensures
        abs_total(
            Seq::new(
                s.len(),
                |i: int|
                    match s[i] {
                        Some(v) => Some(v),
                        None => Some(0i64),
                    },
            ),
        ) == abs_total(s),
    decreases s.len(),
{
    if s.len() > 0 {
        let f = Seq::new(
            s.len(),
            |i: int|
                match s[i] {
                    Some(v) => Some(v),
                    None => Some(0i64),
                },
        );
        let t = s.drop_last();
        lemma_abs_total_filled(t);
        assert(f.drop_last() =~= Seq::new(
            t.len(),
            |i: int|
                match t[i] {
                    Some(v) => Some(v),
                    None => Some(0i64),
                },
        ));
    }
}

/// Participants keep their order and ids, and their ballots and pages stay in shape.
proof fn lemma_wf_kept(a: Session, b: Session)
    requires
        a.wf(),
        same_setup(a, b),
        same_submissions(a, b),
        b.participants@.len() == a.participants@.len(),
        forall|j: int|
            0 <= j < a.participants@.len() ==> (#[trigger] b.participants@[j]).voter
                == a.participants@[j].voter,
        forall|j: int|
            0 <= j < b.participants@.len() ==> ballot_fits(
                (#[trigger] b.participants@[j]).ballot@,
                b.method,
                b.n(),
            ) && b.participants@[j].page < page_count(b.n()),
    ensures
        b.wf(),
{
    let ps = b.participants@;
    assert forall|j: int, k: int|
        0 <= j < ps.len() && 0 <= k < ps.len() && j != k implies (#[trigger] ps[j]).voter
            != (#[trigger] ps[k]).voter by {
        assert(a.participants@[j].voter != a.participants@[k].voter);
    }
    assert forall|j: int| 0 <= j < b.voters@.len() implies has_participant(ps, #[trigger] b.voters@[j]) by {
        assert(has_participant(a.participants@, a.voters@[j]));
        let k = choose|k: int| 0 <= k < a.participants@.len() && (#[trigger] a.participants@[k]).voter == a.voters@[j];
        assert(ps[k].voter == b.voters@[j]);
    }
}

/// When resubmission is off, submitting again after a first submission only shows fresh
/// results: the voters and their ballots stay as they were.
pub proof fn lemma_locked_resubmission(
    a: Session,
    b: Session,
    voter: u64,
    r: Result<Vec<Directive>, ContractViolation>,
)
    requires
        submit_done(a, b, voter, r),
        has_participant(a.participants@, voter),
        !a.allow_resubmission,
        a.voters@.contains(voter),
    ensures
        b.voters@ == a.voters@,
        b.submitted@ == a.submitted@,
        b.participants@ == a.participants@,
        r is Ok && replies(r).len() == 1 && shows_result(b, voter, replies(r)[0]),
{
}

impl Session {
    pub open spec fn n(&self) -> nat {
        self.choices@.len()
    }

    pub open spec fn wf(&self) -> bool {
        let n = self.n();
        let ps = self.participants@;
        &&& 2 <= n <= MAX_CHOICES
        &&& forall|k: int|
            0 <= k < ps.len() ==> ballot_fits((#[trigger] ps[k]).ballot@, self.method, n)
                && ps[k].page < page_count(n)
        &&& forall|j: int, k: int|
            0 <= j < ps.len() && 0 <= k < ps.len() && j != k ==> (#[trigger] ps[j]).voter
                != (#[trigger] ps[k]).voter
        &&& self.voters@.len() == self.submitted@.len()
        &&& forall|j: int, k: int|
            0 <= j < self.voters@.len() && 0 <= k < self.voters@.len() && j != k
                ==> #[trigger] self.voters@[j] != #[trigger] self.voters@[k]
        &&& forall|j: int|
            0 <= j < self.voters@.len() ==> has_participant(ps, #[trigger] self.voters@[j])
        &&& forall|j: int|
            0 <= j < self.submitted@.len() ==> ballot_fits(
                (#[trigger] self.submitted@[j])@,
                self.method,
                n,
            ) && submission_valid(self.submitted@[j]@, self.method)
    }

    /// Whether `voter` has submitted and may not submit again.
    pub open spec fn locked(&self, voter: u64) -> bool {
        !self.allow_resubmission && self.voters@.contains(voter)
    }

    /// Starts a session over `choices`, each label cut to its first characters.
    pub fn new(
        method: VotingMethod,
        choices: Vec<String>,
        allow_resubmission: bool,
        show_result_on_close: bool,
    ) -> (r: Result<Session, SetupError>)
        ensures
            choices@.len() < 2 ==> r == Err::<Session, SetupError>(SetupError::TooFewChoices),
            choices@.len() > MAX_CHOICES ==> r == Err::<Session, SetupError>(
                SetupError::TooManyChoices,
            ),
            2 <= choices@.len() <= MAX_CHOICES ==> (r matches Ok(s) && s.wf() && s.method == method
                && s.choices@.len() == choices@.len() && (forall|i: int|
                0 <= i < choices@.len() ==> #[trigger] s.choices@[i]@ == label_kept(choices@[i]@))
                && s.allow_resubmission == allow_resubmission && s.show_result_on_close
                == show_result_on_close && s.participants@.len() == 0 && s.voters@.len() == 0
                && s.phase == Phase::Open),
    {
        if choices.len() < 2 {
            return Err(SetupError::TooFewChoices);
        }
        if choices.len() > MAX_CHOICES {
            return Err(SetupError::TooManyChoices);
        }
        let mut kept: Vec<String> = Vec::new();
        let mut i: usize = 0;
        while i < choices.len()
            invariant
                i <= choices.len(),
                kept@.len() == i,
                forall|j: int| 0 <= j < i ==> #[trigger] kept@[j]@ == label_kept(choices@[j]@),
            decreases choices.len() - i,
        {
            let label = choices[i].as_str();
            let len = label.unicode_len();
            let cut = if len > LABEL_LIMIT {
                label.substring_char(0, LABEL_LIMIT).to_string()
            } else {
                label.to_string()
            };
            kept.push(cut);
            i = i + 1;
        }
        Ok(
            Session {
                method,
                choices: kept,
                allow_resubmission,
                show_result_on_close,
                participants: Vec::new(),
                voters: Vec::new(),
                submitted: Vec::new(),
                phase: Phase::Open,
            },
        )
    }

    /// The number of pages of a private view.
    pub fn num_pages(&self) -> (r: usize)
        requires
            self.wf(),
        ensures
            r == page_count(self.n()),
    {
        (self.choices.len() - 1) / PAGE_SIZE + 1
    }

    /// Where `voter` stands among the participants.
    pub fn find_participant(&self, voter: u64) -> (r: Option<usize>)
        ensures
            r matches Some(k) ==> k < self.participants@.len() && self.participants@[k as int].voter
                == voter,
            r is None ==> !has_participant(self.participants@, voter),
    {
        let mut k: usize = 0;
        while k < self.participants.len()
            invariant
                k <= self.participants@.len(),
                forall|j: int| 0 <= j < k ==> (#[trigger] self.participants@[j]).voter != voter,
            decreases self.participants.len() - k,
        {
            if self.participants[k].voter == voter {
                return Some(k);
            }
            k = k + 1;
        }
        None
    }

    /// Where `voter` stands among those who submitted.
    pub fn find_voter(&self, voter: u64) -> (r: Option<usize>)
        ensures
            r matches Some(k) ==> k < self.voters@.len() && self.voters@[k as int] == voter,
            r is None ==> !self.voters@.contains(voter),
    {
        let mut k: usize = 0;
        while k < self.voters.len()
            invariant
                k <= self.voters@.len(),
                forall|j: int| 0 <= j < k ==> self.voters@[j] != voter,
            decreases self.voters.len() - k,
        {
            if self.voters[k] == voter {
                return Some(k);
            }
            k = k + 1;
        }
        None
    }

    /// Whether an action from view `view` comes from `voter`'s current private view.
    pub fn is_current_view(&self, voter: u64, view: u64) -> (r: bool)
        requires
            self.wf(),
        ensures
            r == exists|k: int|
                0 <= k < self.participants@.len() && (#[trigger] self.participants@[k]).voter
                    == voter && self.participants@[k].view == Some(view),
    {
        match self.find_participant(voter) {
            Some(k) => {
                let same = match self.participants[k].view {
                    Some(v) => v == view,
                    None => false,
                };
                proof {
                    if exists|j: int|
                        0 <= j < self.participants@.len() && (#[trigger] self.participants@[j]).voter
                            == voter && self.participants@[j].view == Some(view) {
                        let j = choose|j: int|
                            0 <= j < self.participants@.len() && (#[trigger] self.participants@[j]).voter
                                == voter && self.participants@[j].view == Some(view);
                        assert(j == k);
                    }
                }
                same
            },
            None => false,
        }
    }

    /// The marks of the choices on `page` of participant `k`'s ballot.
    pub fn page_view(&self, k: usize, page: usize) -> (r: Vec<(usize, ChoiceMark)>)
        requires
            self.wf(),
            k < self.participants@.len(),
            page < page_count(self.n()),
        ensures
            r@ == page_marks(self.participants@[k as int].ballot@, page as nat, self.n()),
    {
        let n = self.choices.len();
        let b = &self.participants[k].ballot;
        assert(ballot_fits(self.participants@[k as int].ballot@, self.method, n as nat));
        let start = page * PAGE_SIZE;
        let mut out: Vec<(usize, ChoiceMark)> = Vec::new();
        let mut j: usize = 0;
        let len: usize = if start >= n {
            0
        } else if n - start < PAGE_SIZE {
            n - start
        } else {
            PAGE_SIZE
        };
        while j < len
            invariant
                j <= len,
                len == page_len(page as nat, n as nat),
                start == page_start(page as nat),
                start + len <= n,
                n == self.n(),
                ballot_fits(b@, self.method, n as nat),
                out@ =~= Seq::new(
                    j as nat,
                    |i: int| ((start + i) as usize, mark_of(b@, start + i, n as nat)),
                ),
            decreases len - j,
        {
            let c = start + j;
            let m = b.mark(c, n);
            out.push((c, m));
            j = j + 1;
        }
        out
    }
    fn view_directive(&self, k: usize, first: bool, notice: Notice) -> (d: Directive)
        requires
            self.wf(),
            k < self.participants@.len(),
        ensures
            shows_view(*self, k as int, first, notice, d),
    {
        let voter = self.participants[k].voter;
        let done = match self.find_voter(voter) {
            Some(_) => true,
            None => false,
        };
        if !self.allow_resubmission && done {
            Directive::ShowSubmitted { voter, first, notice }
        } else {
            let page = self.participants[k].page;
            Directive::ShowBallot {
                voter,
                first,
                page,
                pages: self.num_pages(),
                marks: self.page_view(k, page),
                notice,
            }
        }
    }

    fn result_directive(&self, voter: u64) -> (d: Directive)
        requires
            self.wf(),
        ensures
            shows_result(*self, voter, d),
    {
        let result = compute_results(self.method, &self.submitted, self.choices.len());
        Directive::ShowResult { voter, result }
    }

    /// The current results of the session.
    pub fn results(&self) -> (r: TallyResult)
        requires
            self.wf(),
        ensures
            is_result_of(r, views(self.submitted@), self.n()),
    {
        compute_results(self.method, &self.submitted, self.choices.len())
    }

    /// How many participants have submitted.
    pub fn voter_count(&self) -> (r: usize)
        ensures
            r == self.voters@.len(),
    {
        self.voters.len()
    }

    fn take_participant(&mut self, k: usize) -> (p: Participant)
        requires
            k < old(self).participants@.len(),
        ensures
            p == old(self).participants@[k as int],
            final(self).participants@ == old(self).participants@.remove(k as int),
            same_setup(*old(self), *final(self)),
            same_submissions(*old(self), *final(self)),
    {
        self.participants.remove(k)
    }

    fn restore_participant(&mut self, k: usize, p: Participant)
        requires
            k <= old(self).participants@.len(),
        ensures
            final(self).participants@ == old(self).participants@.insert(k as int, p),
            same_setup(*old(self), *final(self)),
            same_submissions(*old(self), *final(self)),
    {
        self.participants.insert(k, p);
    }

    /// Shows `voter` their private view, making them a participant on their first request.
    pub fn open_ballot(&mut self, voter: u64) -> (r: Vec<Directive>)
        requires
            old(self).wf(),
        ensures
            final(self).wf(),
            open_ballot_done(*old(self), *final(self), voter, r@),
    {
        let k = match self.find_participant(voter) {
            Some(k) => k,
            None => {
                let b = Ballot::new(self.method, self.choices.len());
                self.participants.push(Participant { voter, ballot: b, view: None, page: 0 });
                proof {
                    let a = *old(self);
                    let ps = self.participants@;
                    assert(ps.take(a.participants@.len() as int) =~= a.participants@);
                    assert forall|i: int| 0 <= i < a.participants@.len() implies #[trigger] ps[i] == a.participants@[i] by {
                        assert(ps.take(a.participants@.len() as int)[i] == ps[i]);
                    }
                    assert forall|i: int, j: int|
                        0 <= i < ps.len() && 0 <= j < ps.len() && i != j implies (#[trigger] ps[i]).voter
                            != (#[trigger] ps[j]).voter by {
                        if i == ps.len() - 1 {
                            assert(a.participants@[j] == ps[j]);
                        } else if j == ps.len() - 1 {
                            assert(a.participants@[i] == ps[i]);
                        }
                    }
                    assert forall|j: int| 0 <= j < self.voters@.len() implies has_participant(ps, #[trigger] self.voters@[j]) by {
                        assert(has_participant(a.participants@, a.voters@[j]));
                        let i = choose|i: int| 0 <= i < a.participants@.len() && (#[trigger] a.participants@[i]).voter == a.voters@[j];
                        assert(ps[i] == a.participants@[i]);
                    }
                }
                self.participants.len() - 1
            },
        };
        proof {
            lemma_slot(self.participants@, k as int, voter);
        }
        let d = self.view_directive(k, true, Notice::Plain);
        vec![d]
    }

    /// Records the handle of the private view just shown to `voter`.
    pub fn view_opened(&mut self, voter: u64, view: u64) -> (r: Result<Vec<Directive>, ContractViolation>)
        requires
            old(self).wf(),
        ensures
            final(self).wf(),
            view_opened_done(*old(self), *final(self), voter, view, r),
    {
        let k = match self.find_participant(voter) {
            Some(k) => k,
            None => {
                return Err(ContractViolation::UnknownParticipant);
            },
        };
        proof {
            lemma_slot(self.participants@, k as int, voter);
        }
        let mut p = self.take_participant(k);
        p.view = Some(view);
        self.restore_participant(k, p);
        proof {
            let a = *old(self);
            assert(self.participants@ =~= a.participants@.update(k as int, p));
            lemma_wf_kept(a, *self);
        }
        Ok(Vec::new())
    }

    /// Moves `voter`'s private view one page, wrapping around at either end.
    pub fn navigate(&mut self, voter: u64, direction: Direction) -> (r: Result<Vec<Directive>, ContractViolation>)
        requires
            old(self).wf(),
        ensures
            final(self).wf(),
            navigate_done(*old(self), *final(self), voter, direction, r),
    {
        let k = match self.find_participant(voter) {
            Some(k) => k,
            None => {
                return Err(ContractViolation::UnknownParticipant);
            },
        };
        proof {
            lemma_slot(self.participants@, k as int, voter);
        }
        let pages = self.num_pages();
        let mut p = self.take_participant(k);
        p.page = match direction {
            Direction::Left => if p.page == 0 {
                pages - 1
            } else {
                p.page - 1
            },
            Direction::Right => if p.page + 1 >= pages {
                0
            } else {
                p.page + 1
            },
        };
        self.restore_participant(k, p);
        proof {
            let a = *old(self);
            assert(self.participants@ =~= a.participants@.update(k as int, p));
            lemma_wf_kept(a, *self);
        }
        Ok(vec![self.view_directive(k, false, Notice::Plain)])
    }

    /// Acts on a press of choice `choice` by `voter`: toggles an approval, moves a rank on, or
    /// asks for a score.
    pub fn toggle(&mut self, voter: u64, choice: usize) -> (r: Result<Vec<Directive>, ContractViolation>)
        requires
            old(self).wf(),
        ensures
            final(self).wf(),
            toggle_done(*old(self), *final(self), voter, choice, r),
    {
        let k = match self.find_participant(voter) {
            Some(k) => k,
            None => {
                return Err(ContractViolation::UnknownParticipant);
            },
        };
        proof {
            lemma_slot(self.participants@, k as int, voter);
        }
        let n = self.choices.len();
        if choice >= n {
            return Err(ContractViolation::UnknownChoice);
        }
        assert(ballot_fits(self.participants@[k as int].ballot@, self.method, n as nat));
        match self.method {
            VotingMethod::Approval => {
                let mut p = self.take_participant(k);
                p.ballot.toggle_selection(choice);
                self.restore_participant(k, p);
                proof {
                    let a = *old(self);
                    assert(self.participants@ =~= a.participants@.update(k as int, p));
                    lemma_wf_kept(a, *self);
                }
                Ok(vec![self.view_directive(k, false, Notice::Plain)])
            },
            VotingMethod::Borda => {
                let mut p = self.take_participant(k);
                p.ballot.increment_rank(choice, n);
                self.restore_participant(k, p);
                proof {
                    let a = *old(self);
                    assert(self.participants@ =~= a.participants@.update(k as int, p));
                    lemma_wf_kept(a, *self);
                }
                Ok(vec![self.view_directive(k, false, Notice::Plain)])
            },
            _ => {
                let current = match self.participants[k].ballot.mark(choice, n) {
                    ChoiceMark::Score(x) => x,
                    _ => 0,
                };
                Ok(vec![Directive::RequestValue { voter, choice, current }])
            },
        }
    }

    /// Takes the value `text` that `voter` entered for choice `choice`; an entry that is not a
    /// valid score counts as 0 and is flagged.
    pub fn enter_value(&mut self, voter: u64, choice: usize, text: &str) -> (r: Result<Vec<Directive>, ContractViolation>)
        requires
            old(self).wf(),
        ensures
            final(self).wf(),
            value_entered_done(*old(self), *final(self), voter, choice, text@, r),
    {
        let k = match self.find_participant(voter) {
            Some(k) => k,
            None => {
                return Err(ContractViolation::UnknownParticipant);
            },
        };
        proof {
            lemma_slot(self.participants@, k as int, voter);
        }
        let n = self.choices.len();
        if choice >= n {
            return Err(ContractViolation::UnknownChoice);
        }
        match self.method {
            VotingMethod::Score | VotingMethod::LimitedScore => {},
            _ => {
                return Err(ContractViolation::NotScored);
            },
        }
        assert(ballot_fits(self.participants@[k as int].ballot@, self.method, n as nat));
        let (value, notice) = match parse_decimal(text) {
            Some(v) => if self.method.is_valid_value(v, n) {
                (v, Notice::Plain)
            } else {
                (0i64, Notice::BadValue)
            },
            None => (0i64, Notice::BadValue),
        };
        let mut p = self.take_participant(k);
        p.ballot.set_score(choice, value);
        self.restore_participant(k, p);
        proof {
            let a = *old(self);
            assert(self.participants@ =~= a.participants@.update(k as int, p));
            lemma_wf_kept(a, *self);
        }
        Ok(vec![self.view_directive(k, false, notice)])
    }

    /// Submits `voter`'s ballot, with defaults filled in, if it is valid for the method.
    pub fn submit(&mut self, voter: u64) -> (r: Result<Vec<Directive>, ContractViolation>)
        requires
            old(self).wf(),
        ensures
            final(self).wf(),
            submit_done(*old(self), *final(self), voter, r),
    {
        let k = match self.find_participant(voter) {
            Some(k) => k,
            None => {
                return Err(ContractViolation::UnknownParticipant);
            },
        };
        proof {
            lemma_slot(self.participants@, k as int, voter);
        }
        let n = self.choices.len();
        let earlier = self.find_voter(voter);
        let locked = match earlier {
            Some(_) => !self.allow_resubmission,
            None => false,
        };
        if locked {
            return Ok(vec![self.result_directive(voter)]);
        }
        assert(ballot_fits(self.participants@[k as int].ballot@, self.method, n as nat));
        if !self.participants[k].ballot.are_valid(self.method, n) {
            return Ok(vec![self.view_directive(k, false, Notice::InvalidBallot)]);
        }
        let fin = self.participants[k].ballot.finalize(n);
        proof {
            lemma_finalized_fits(self.participants@[k as int].ballot@, self.method, n as nat);
        }
        match earlier {
            Some(j) => {
                proof {
                    lemma_voter_slot(self.voters@, j as int, voter);
                }
                self.submitted.remove(j);
                self.submitted.insert(j, fin);
                proof {
                    let a = *old(self);
                    assert(self.submitted@ =~= a.submitted@.update(j as int, fin));
                    assert forall|i: int| 0 <= i < self.submitted@.len() implies ballot_fits(
                        (#[trigger] self.submitted@[i])@, self.method, n as nat)
                        && submission_valid(self.submitted@[i]@, self.method) by {
                        if i != j {
                            assert(a.submitted@[i] == self.submitted@[i]);
                        }
                    }
                }
                Ok(vec![self.result_directive(voter)])
            },
            None => {
                self.voters.push(voter);
                self.submitted.push(fin);
                proof {
                    let a = *old(self);
                    let vs = self.voters@;
                    assert(self.submitted@.take(a.submitted@.len() as int) =~= a.submitted@);
                    assert forall|i: int, j: int|
                        0 <= i < vs.len() && 0 <= j < vs.len() && i != j implies #[trigger] vs[i] != #[trigger] vs[j] by {
                        if i == vs.len() - 1 {
                            assert(a.voters@[j] == vs[j]);
                        } else if j == vs.len() - 1 {
                            assert(a.voters@[i] == vs[i]);
                        } else {
                            assert(a.voters@[i] == vs[i] && a.voters@[j] == vs[j]);
                        }
                    }
                    assert forall|j: int| 0 <= j < vs.len() implies has_participant(self.participants@, #[trigger] vs[j]) by {
                        if j < vs.len() - 1 {
                            assert(a.voters@[j] == vs[j]);
                        } else {
                            assert(self.participants@[k as int].voter == vs[j]);
                        }
                    }
                    assert forall|j: int| 0 <= j < self.submitted@.len() implies ballot_fits(
                        (#[trigger] self.submitted@[j])@, self.method, n as nat)
                        && submission_valid(self.submitted@[j]@, self.method) by {
                        if j < a.submitted@.len() {
                            assert(a.submitted@[j] == self.submitted@[j]);
                        }
                    }
                }
                let count = self.voters.len();
                let d = self.result_directive(voter);
                Ok(vec![Directive::UpdateVoterCount { count }, d])
            },
        }
    }

    /// Closes the session, with the results if they are shown at the close.
    pub fn close(&mut self) -> (r: Vec<Directive>)
        requires
            old(self).wf(),
        ensures
            final(self).wf(),
            deadline_done(*old(self), *final(self), r@),
    {
        self.phase = Phase::Closed;
        let outcome = if self.show_result_on_close {
            Some(self.results())
        } else {
            None
        };
        vec![Directive::ShowClosed { outcome }]
    }

    /// Applies one action from the surface; once the session is closed, actions are dropped.
    pub fn handle(&mut self, action: Action) -> (r: Result<Vec<Directive>, ContractViolation>)
        requires
            old(self).wf(),
        ensures
            final(self).wf(),
            handled(*old(self), *final(self), action, r),
    {
        if self.phase == Phase::Closed {
            return Ok(Vec::new());
        }
        match action {
            Action::OpenBallot { voter } => Ok(self.open_ballot(voter)),
            Action::ViewOpened { voter, view } => self.view_opened(voter, view),
            Action::Navigate { voter, direction } => self.navigate(voter, direction),
            Action::Toggle { voter, choice } => self.toggle(voter, choice),
            Action::ValueEntered { voter, choice, text } => self.enter_value(voter, choice, text.as_str()),
            Action::Submit { voter } => self.submit(voter),
            Action::Deadline => Ok(self.close()),
        }
    }
}

} // verus!
