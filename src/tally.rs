use vstd::prelude::*;
use tallystick::approval::ApprovalTally;
use tallystick::score::ScoreTally;
use crate::ballot::{Ballot, BallotView, ballot_fits};
use crate::method::{VotingMethod, SCORE_LIMIT};

verus! {

/// The indices below `k` for which `p` holds, in increasing order.
pub open spec fn indices_where(p: spec_fn(int) -> bool, k: nat) -> Seq<usize>
    decreases k,
{
    if k == 0 {
        seq![]
    } else {
        let prev = indices_where(p, (k - 1) as nat);
        if p(k - 1) {
            prev.push((k - 1) as usize)
        } else {
            prev
        }
    }
}

/// How many times `c` occurs in `s`.
pub open spec fn occurrences(s: Seq<usize>, c: usize) -> int
    decreases s.len(),
{
    if s.len() == 0 {
        0
    } else {
        occurrences(s.drop_last(), c) + if s.last() == c {
            1int
        } else {
            0
        }
    }
}

/// How many times `c` occurs over all of `bs`.
pub open spec fn approval_sum(bs: Seq<Seq<usize>>, c: usize) -> int
    decreases bs.len(),
{
    if bs.len() == 0 {
        0
    } else {
        approval_sum(bs.drop_last(), c) + occurrences(bs.last(), c)
    }
}

/// The sum of the scores given to `c` in `p`.
pub open spec fn pair_sum(p: Seq<(usize, i128)>, c: usize) -> int
    decreases p.len(),
{
    if p.len() == 0 {
        0
    } else {
        pair_sum(p.drop_last(), c) + if p.last().0 == c {
            p.last().1 as int
        } else {
            0
        }
    }
}

/// The sum of the magnitudes of the scores given to `c` in `p`.
pub open spec fn pair_magnitude(p: Seq<(usize, i128)>, c: usize) -> int
    decreases p.len(),
{
    if p.len() == 0 {
        0
    } else {
        pair_magnitude(p.drop_last(), c) + if p.last().0 == c {
            if p.last().1 < 0 {
                -(p.last().1 as int)
            } else {
                p.last().1 as int
            }
        } else {
            0
        }
    }
}

/// How many scores are given to `c` in `p`.
pub open spec fn pair_keys(p: Seq<(usize, i128)>, c: usize) -> int
    decreases p.len(),
{
    if p.len() == 0 {
        0
    } else {
        pair_keys(p.drop_last(), c) + if p.last().0 == c {
            1int
        } else {
            0
        }
    }
}

pub open spec fn score_sum(bs: Seq<Seq<(usize, i128)>>, c: usize) -> int
    decreases bs.len(),
{
    if bs.len() == 0 {
        0
    } else {
        score_sum(bs.drop_last(), c) + pair_sum(bs.last(), c)
    }
}

pub open spec fn score_keys(bs: Seq<Seq<(usize, i128)>>, c: usize) -> int
    decreases bs.len(),
{
    if bs.len() == 0 {
        0
    } else {
        score_keys(bs.drop_last(), c) + pair_keys(bs.last(), c)
    }
}

/// An approval count kept by tallystick.
#[verifier::external_body]
pub struct ApprovalCount {
    tally: ApprovalTally<usize, u64>,
}

/// The selections handed to an approval count, in order.
pub uninterp spec fn approval_ballots(t: ApprovalCount) -> Seq<Seq<usize>>;

/// The number of winners an approval count was made for.
pub uninterp spec fn approval_seats(t: ApprovalCount) -> nat;

/// Relies on tallystick's `ApprovalTally::new`: an empty tally for `seats` winners.
#[verifier::external_body]
fn approval_new(seats: u32) -> (r: ApprovalCount)
    ensures
        approval_ballots(r) == Seq::<Seq<usize>>::empty(),
        approval_seats(r) == seats,
{
    ApprovalCount { tally: ApprovalTally::new(seats) }
}

/// Relies on tallystick's `ApprovalTally::add`: adds one to the running total of each
/// listed choice, once per time it is listed.
#[verifier::external_body]
fn approval_add(t: &mut ApprovalCount, selection: Vec<usize>)
    requires
        forall|c: usize|
            approval_sum(approval_ballots(*old(t)), c) + occurrences(selection@, c) <= u64::MAX,
    ensures
        approval_ballots(*final(t)) == approval_ballots(*old(t)).push(selection@),
        approval_seats(*final(t)) == approval_seats(*old(t)),
{
    t.tally.add(selection)
}

/// Relies on tallystick's `ApprovalTally::totals`: one entry per choice that has a running
/// total, holding that total, from the highest total down.
#[verifier::external_body]
fn approval_totals(t: &ApprovalCount) -> (r: Vec<(usize, u64)>)
    ensures
        forall|k: int|
            0 <= k < r@.len() ==> approval_sum(approval_ballots(*t), (#[trigger] r@[k]).0) > 0
                && r@[k].1 as int == approval_sum(approval_ballots(*t), r@[k].0),
        forall|c: usize|
            #![trigger approval_sum(approval_ballots(*t), c)]
            approval_sum(approval_ballots(*t), c) > 0 ==> exists|k: int|
                0 <= k < r@.len() && (#[trigger] r@[k]).0 == c,
        forall|j: int, k: int| 0 <= j < k < r@.len() ==> r@[k].1 <= r@[j].1,
{
    t.tally.totals()
}

/// `c` has a running total, and none is higher.
pub open spec fn approval_top(bs: Seq<Seq<usize>>, c: usize) -> bool {
    approval_sum(bs, c) > 0 && forall|d: usize|
        #![trigger approval_sum(bs, d)]
        approval_sum(bs, d) > 0 ==> approval_sum(bs, d) <= approval_sum(bs, c)
}

/// Relies on tallystick's `ApprovalTally::winners` for a one-winner tally: every choice whose
/// running total is the highest, ties included, each once.
#[verifier::external_body]
fn approval_winners(t: &ApprovalCount) -> (r: Vec<usize>)
    requires
        approval_seats(*t) == 1,
    ensures
        forall|c: usize| r@.contains(c) <==> approval_top(approval_ballots(*t), c),
{
    t.tally.winners().all()
}

/// A score count kept by tallystick.
#[verifier::external_body]
pub struct ScoreCount {
    tally: ScoreTally<usize, i128>,
}

/// The scored choices handed to a score count, in order.
pub uninterp spec fn score_ballots(t: ScoreCount) -> Seq<Seq<(usize, i128)>>;

/// The number of winners a score count was made for.
pub uninterp spec fn score_seats(t: ScoreCount) -> nat;

/// Relies on tallystick's `ScoreTally::new`: an empty tally for `seats` winners.
#[verifier::external_body]
fn score_new(seats: u32) -> (r: ScoreCount)
    ensures
        score_ballots(r) == Seq::<Seq<(usize, i128)>>::empty(),
        score_seats(r) == seats,
{
    ScoreCount { tally: ScoreTally::new(seats) }
}

/// Relies on tallystick's `ScoreTally::add`: adds each listed score to its choice's running
/// total, starting that total at zero.
#[verifier::external_body]
fn score_add(t: &mut ScoreCount, scores: Vec<(usize, i128)>)
    requires
        forall|c: usize|
            #![trigger score_sum(score_ballots(*old(t)), c)]
            -i128::MAX <= score_sum(score_ballots(*old(t)), c) <= i128::MAX
                && (if score_sum(score_ballots(*old(t)), c) < 0 {
                -score_sum(score_ballots(*old(t)), c)
            } else {
                score_sum(score_ballots(*old(t)), c)
            }) + pair_magnitude(scores@, c) <= i128::MAX,
    ensures
        score_ballots(*final(t)) == score_ballots(*old(t)).push(scores@),
        score_seats(*final(t)) == score_seats(*old(t)),
{
    t.tally.add(scores)
}

/// Relies on tallystick's `ScoreTally::totals`: one entry per choice that was ever scored,
/// holding its running total, from the highest total down.
#[verifier::external_body]
fn score_totals(t: &ScoreCount) -> (r: Vec<(usize, i128)>)
    ensures
        forall|k: int|
            0 <= k < r@.len() ==> score_keys(score_ballots(*t), (#[trigger] r@[k]).0) > 0
                && r@[k].1 as int == score_sum(score_ballots(*t), r@[k].0),
        forall|c: usize|
            #![trigger score_keys(score_ballots(*t), c)]
            score_keys(score_ballots(*t), c) > 0 ==> exists|k: int|
                0 <= k < r@.len() && (#[trigger] r@[k]).0 == c,
        forall|j: int, k: int| 0 <= j < k < r@.len() ==> r@[k].1 <= r@[j].1,
{
    t.tally.totals()
}

/// `c` was scored, and no scored choice has a higher total.
pub open spec fn score_top(bs: Seq<Seq<(usize, i128)>>, c: usize) -> bool {
    score_keys(bs, c) > 0 && forall|d: usize|
        #![trigger score_keys(bs, d)]
        score_keys(bs, d) > 0 ==> score_sum(bs, d) <= score_sum(bs, c)
}

/// Relies on tallystick's `ScoreTally::winners` for a one-winner tally: every scored choice
/// whose running total is the highest, ties included, each once.
#[verifier::external_body]
fn score_winners(t: &ScoreCount) -> (r: Vec<usize>)
    requires
        score_seats(*t) == 1,
    ensures
        forall|c: usize| r@.contains(c) <==> score_top(score_ballots(*t), c),
{
    t.tally.winners().all()
}

/// The totals and winners of a set of submitted ballots.
#[derive(Debug, Clone, PartialEq, Eq)]
pub struct TallyResult {
    /// Each choice's total: approvals, score in ten-thousandths, or Borda points.
    pub totals: Vec<i128>,
    /// The winning choices, in increasing order.
    pub winners: Vec<usize>,
}

pub open spec fn views(bs: Seq<Ballot>) -> Seq<BallotView> {
    Seq::new(bs.len(), |k: int| bs[k]@)
}

pub open spec fn rank_at(s: Seq<Option<usize>>, j: int) -> int {
    match s[j] {
        Some(r) => r as int,
        None => 0,
    }
}

/// Choice `j` comes before choice `c` when the ranking is read in order: a better (lower)
/// rank first, and among equal ranks the lower index first.
pub open spec fn comes_before(s: Seq<Option<usize>>, j: int, c: int) -> bool {
    rank_at(s, j) < rank_at(s, c) || (rank_at(s, j) == rank_at(s, c) && j < c)
}

/// How many of the choices below `k` come before `c`.
pub open spec fn before_count(s: Seq<Option<usize>>, c: int, k: nat) -> int
    decreases k,
{
    if k == 0 {
        0
    } else {
        before_count(s, c, (k - 1) as nat) + if comes_before(s, k - 1, c) {
            1int
        } else {
            0
        }
    }
}

/// What one ballot gives choice `c`: 1 for an approval, its score, or its Borda points
/// (`n` less one less its place in the ranking).
pub open spec fn ballot_points(b: BallotView, n: nat, c: int) -> int {
    match b {
        BallotView::Selection(s) => if s[c] {
            1
        } else {
            0
        },
        BallotView::Scores(s) => match s[c] {
            Some(v) => v as int,
            None => 0,
        },
        BallotView::Ranking(s) => n - 1 - before_count(s, c, n),
    }
}

pub open spec fn choice_total(bs: Seq<BallotView>, n: nat, c: int) -> int
    decreases bs.len(),
{
    if bs.len() == 0 {
        0
    } else {
        choice_total(bs.drop_last(), n, c) + ballot_points(bs.last(), n, c)
    }
}

/// Choice `c` has the highest total: no choice's total exceeds it (ties are joint winners).
pub open spec fn is_winner(bs: Seq<BallotView>, n: nat, c: int) -> bool {
    forall|d: int| 0 <= d < n ==> #[trigger] choice_total(bs, n, d) <= choice_total(bs, n, c)
}

pub open spec fn result_totals(bs: Seq<BallotView>, n: nat) -> Seq<int> {
    Seq::new(n, |c: int| choice_total(bs, n, c))
}

pub open spec fn result_winners(bs: Seq<BallotView>, n: nat) -> Seq<usize> {
    indices_where(|c: int| is_winner(bs, n, c), n)
}

proof fn lemma_occurrences_push(s: Seq<usize>, x: usize, c: usize)
    ensures
        occurrences(s.push(x), c) == occurrences(s, c) + if x == c {
            1int
        } else {
            0
        },
{
    assert(s.push(x).drop_last() =~= s);
}

proof fn lemma_occurrences_indices(p: spec_fn(int) -> bool, k: nat, c: usize)
    requires
        k <= usize::MAX + 1,
    ensures
        occurrences(indices_where(p, k), c) == if c < k && p(c as int) {
            1int
        } else {
            0
        },
    decreases k,
{
    if k > 0 {
        lemma_occurrences_indices(p, (k - 1) as nat, c);
        let prev = indices_where(p, (k - 1) as nat);
        if p(k - 1) {
            lemma_occurrences_push(prev, (k - 1) as usize, c);
        }
    }
}

/// Two predicates that agree below `k` pick the same indices.
proof fn lemma_indices_agree(p: spec_fn(int) -> bool, q: spec_fn(int) -> bool, k: nat)
    requires
        forall|i: int| 0 <= i < k ==> #[trigger] p(i) == q(i),
    ensures
        indices_where(p, k) == indices_where(q, k),
    decreases k,
{
    if k > 0 {
        lemma_indices_agree(p, q, (k - 1) as nat);
    }
}

proof fn lemma_indices_bound(p: spec_fn(int) -> bool, k: nat)
    requires
        k <= usize::MAX + 1,
    ensures
        forall|j: int| 0 <= j < indices_where(p, k).len() ==> indices_where(p, k)[j] < k,
        forall|j: int| 0 <= j < indices_where(p, k).len() ==> p(indices_where(p, k)[j] as int),
        indices_where(p, k).len() <= k,
    decreases k,
{
    if k > 0 {
        lemma_indices_bound(p, (k - 1) as nat);
        let prev = indices_where(p, (k - 1) as nat);
        if p(k - 1) {
            let cur = prev.push((k - 1) as usize);
            assert forall|j: int| 0 <= j < cur.len() implies p(cur[j] as int) && cur[j] < k by {
                if j < prev.len() {
                    assert(cur[j] == prev[j]);
                    assert(p(prev[j] as int) && prev[j] < k - 1);
                } else {
                    assert(cur[j] == (k - 1) as usize);
                }
            }
        }
    }
}

pub open spec fn approval_inputs(bs: Seq<BallotView>) -> Seq<Seq<usize>> {
    Seq::new(
        bs.len(),
        |k: int|
            match bs[k] {
                BallotView::Selection(s) => indices_where(|i: int| s[i], s.len()),
                _ => seq![],
            },
    )
}

proof fn lemma_approval_inputs(bs: Seq<BallotView>, n: nat, c: usize)
    requires
        n <= usize::MAX,
        forall|k: int| 0 <= k < bs.len() ==> ballot_fits(#[trigger] bs[k], VotingMethod::Approval, n),
    ensures
        approval_sum(approval_inputs(bs), c) == if c < n {
            choice_total(bs, n, c as int)
        } else {
            0
        },
        0 <= approval_sum(approval_inputs(bs), c) <= bs.len(),
    decreases bs.len(),
{
    if bs.len() > 0 {
        let last = bs.last();
        assert(ballot_fits(bs[bs.len() - 1], VotingMethod::Approval, n));
        assert(approval_inputs(bs).drop_last() =~= approval_inputs(bs.drop_last()));
        lemma_approval_inputs(bs.drop_last(), n, c);
        if let BallotView::Selection(s) = last {
            lemma_occurrences_indices(|i: int| s[i], s.len(), c);
        }
    }
}

pub open spec fn score_value(o: Option<i64>) -> int {
    match o {
        Some(v) => v as int,
        None => 0,
    }
}

pub open spec fn score_pairs(s: Seq<Option<i64>>, k: nat) -> Seq<(usize, i128)>
    decreases k,
{
    if k == 0 {
        seq![]
    } else {
        score_pairs(s, (k - 1) as nat).push(((k - 1) as usize, score_value(s[k - 1]) as i128))
    }
}

proof fn lemma_score_pairs(s: Seq<Option<i64>>, k: nat, c: usize)
    requires
        k <= s.len(),
        s.len() <= usize::MAX,
        forall|i: int| 0 <= i < s.len() ==> (#[trigger] s[i] matches Some(v) ==> -SCORE_LIMIT <= v <= SCORE_LIMIT),
    ensures
        pair_sum(score_pairs(s, k), c) == if c < k {
            score_value(s[c as int])
        } else {
            0
        },
        pair_keys(score_pairs(s, k), c) == if c < k {
            1int
        } else {
            0
        },
        0 <= pair_magnitude(score_pairs(s, k), c) <= if c < k {
            SCORE_LIMIT as int
        } else {
            0
        },
    decreases k,
{
    if k > 0 {
        lemma_score_pairs(s, (k - 1) as nat, c);
        let prev = score_pairs(s, (k - 1) as nat);
        let x = ((k - 1) as usize, score_value(s[k - 1]) as i128);
        assert(prev.push(x).drop_last() =~= prev);
        assert(s[k - 1] matches Some(v) ==> -SCORE_LIMIT <= v <= SCORE_LIMIT);
    }
}

pub open spec fn score_inputs(bs: Seq<BallotView>) -> Seq<Seq<(usize, i128)>> {
    Seq::new(
        bs.len(),
        |k: int|
            match bs[k] {
                BallotView::Scores(s) => score_pairs(s, s.len()),
                _ => seq![],
            },
    )
}

proof fn lemma_score_inputs(bs: Seq<BallotView>, m: VotingMethod, n: nat, c: usize)
    requires
        n <= usize::MAX,
        m == VotingMethod::Score || m == VotingMethod::LimitedScore,
        forall|k: int| 0 <= k < bs.len() ==> ballot_fits(#[trigger] bs[k], m, n),
    ensures
        score_sum(score_inputs(bs), c) == if c < n {
            choice_total(bs, n, c as int)
        } else {
            0
        },
        score_keys(score_inputs(bs), c) == if c < n {
            bs.len() as int
        } else {
            0
        },
        -(bs.len() * SCORE_LIMIT) <= score_sum(score_inputs(bs), c) <= bs.len() * SCORE_LIMIT,
    decreases bs.len(),
{
    if bs.len() > 0 {
        let last = bs.last();
        assert(ballot_fits(bs[bs.len() - 1], m, n));
        assert(score_inputs(bs).drop_last() =~= score_inputs(bs.drop_last()));
        lemma_score_inputs(bs.drop_last(), m, n, c);
        if let BallotView::Scores(s) = last {
            lemma_score_pairs(s, s.len(), c);
            if c < n {
                assert(s[c as int] matches Some(v) ==> -SCORE_LIMIT <= v <= SCORE_LIMIT);
            }
        }
        assert((bs.len() - 1) * SCORE_LIMIT + SCORE_LIMIT == bs.len() * SCORE_LIMIT);
    }
}

/// The indices of the selected choices, in increasing order.
fn selected_list(s: &Vec<bool>) -> (r: Vec<usize>)
    ensures
        r@ == indices_where(|i: int| s@[i], s@.len()),
{
    let mut out: Vec<usize> = Vec::new();
    let mut i: usize = 0;
    while i < s.len()
        invariant
            i <= s.len(),
            out@ == indices_where(|j: int| s@[j], i as nat),
        decreases s.len() - i,
    {
        if s[i] {
            out.push(i);
        }
        i = i + 1;
    }
    out
}

/// Each choice with its score, in increasing order of choice.
fn score_list(s: &Vec<Option<i64>>) -> (r: Vec<(usize, i128)>)
    ensures
        r@ == score_pairs(s@, s@.len()),
{
    let mut out: Vec<(usize, i128)> = Vec::new();
    let mut i: usize = 0;
    while i < s.len()
        invariant
            i <= s.len(),
            out@ == score_pairs(s@, i as nat),
        decreases s.len() - i,
    {
        let v: i128 = match s[i] {
            Some(x) => x as i128,
            None => 0,
        };
        out.push((i, v));
        i = i + 1;
    }
    out
}

fn zeros(n: usize) -> (r: Vec<i128>)
    ensures
        r@ == Seq::new(n as nat, |i: int| 0i128),
{
    let mut v: Vec<i128> = Vec::new();
    let mut i: usize = 0;
    while i < n
        invariant
            i <= n,
            v@ =~= Seq::new(i as nat, |j: int| 0i128),
        decreases n - i,
    {
        v.push(0);
        i = i + 1;
    }
    v
}

fn unmarked(n: usize) -> (r: Vec<bool>)
    ensures
        r@ == Seq::new(n as nat, |i: int| false),
{
    let mut v: Vec<bool> = Vec::new();
    let mut i: usize = 0;
    while i < n
        invariant
            i <= n,
            v@ =~= Seq::new(i as nat, |j: int| false),
        decreases n - i,
    {
        v.push(false);
        i = i + 1;
    }
    v
}

/// Marks each listed choice below `n`, giving the listed choices in increasing order.
fn in_order(listed: &Vec<usize>, n: usize) -> (r: Vec<usize>)
    requires
        forall|k: int| 0 <= k < listed@.len() ==> #[trigger] listed@[k] < n,
    ensures
        r@ == indices_where(|c: int| listed@.contains(c as usize), n as nat),
{
    let mut marks = unmarked(n);
    let mut j: usize = 0;
    while j < listed.len()
        invariant
            j <= listed.len(),
            marks@.len() == n,
            forall|k: int| 0 <= k < listed@.len() ==> #[trigger] listed@[k] < n,
            forall|c: int| 0 <= c < n ==> (#[trigger] marks@[c] <==> exists|k: int| 0 <= k < j && listed@[k] == c),
        decreases listed.len() - j,
    {
        let x = listed[j];
        marks.set(x, true);
        proof {
            assert forall|c: int| 0 <= c < n implies (#[trigger] marks@[c] <==> exists|k: int| 0 <= k < j + 1 && listed@[k] == c) by {
                if c == x {
                    assert(listed@[j as int] == c);
                }
            }
        }
        j = j + 1;
    }
    let r = selected_list(&marks);
    proof {
        assert forall|c: int| 0 <= c < n implies #[trigger] marks@[c] == listed@.contains(c as usize) by {
            if marks@[c] {
                let k = choose|k: int| 0 <= k < listed@.len() && listed@[k] == c;
                assert(listed@[k] == c as usize);
            }
            if listed@.contains(c as usize) {
                let k = choose|k: int| 0 <= k < listed@.len() && listed@[k] == c as usize;
                assert(listed@[k] == c);
            }
        }
        lemma_indices_agree(|i: int| marks@[i], |c: int| listed@.contains(c as usize), n as nat);
    }
    r
}

fn approval_results(ballots: &Vec<Ballot>, n: usize) -> (r: TallyResult)
    requires
        forall|k: int|
            0 <= k < ballots@.len() ==> ballot_fits(#[trigger] ballots@[k]@, VotingMethod::Approval, n as nat),
    ensures
        r.totals@.len() == n,
        forall|c: int| 0 <= c < n ==> r.totals@[c] as int == choice_total(views(ballots@), n as nat, c),
        r.winners@ == result_winners(views(ballots@), n as nat),
{
    let ghost bs = views(ballots@);
    let mut t = approval_new(1);
    let mut i: usize = 0;
    while i < ballots.len()
        invariant
            i <= ballots.len(),
            bs == views(ballots@),
            forall|k: int|
                0 <= k < ballots@.len() ==> ballot_fits(#[trigger] ballots@[k]@, VotingMethod::Approval, n as nat),
            approval_ballots(t) == approval_inputs(bs.take(i as int)),
            approval_seats(t) == 1,
        decreases ballots.len() - i,
    {
        assert(ballot_fits(ballots@[i as int]@, VotingMethod::Approval, n as nat));
        let ghost before = bs.take(i as int);
        assert forall|k: int| 0 <= k < before.len() implies ballot_fits(#[trigger] before[k], VotingMethod::Approval, n as nat) by {
            assert(before[k] == ballots@[k]@);
        }
        match &ballots[i] {
            Ballot::Selection(s) => {
                let sel = selected_list(s);
                proof {
                    assert forall|c: usize|
                        approval_sum(approval_ballots(t), c) + occurrences(sel@, c) <= u64::MAX by {
                        lemma_approval_inputs(before, n as nat, c);
                        lemma_occurrences_indices(|j: int| s@[j], s@.len(), c);
                    }
                    assert(approval_inputs(bs.take(i + 1)) =~= approval_inputs(before).push(sel@));
                }
                approval_add(&mut t, sel);
            },
            _ => {
                proof {
                    assert(false);
                }
            },
        }
        i = i + 1;
    }
    proof {
        assert(bs.take(ballots@.len() as int) =~= bs);
        assert forall|k: int| 0 <= k < bs.len() implies ballot_fits(#[trigger] bs[k], VotingMethod::Approval, n as nat) by {
            assert(bs[k] == ballots@[k]@);
        }
    }
    let ghost inputs = approval_inputs(bs);
    let tot = approval_totals(&t);
    let mut dense = zeros(n);
    let mut j: usize = 0;
    while j < tot.len()
        invariant
            j <= tot.len(),
            dense@.len() == n,
            approval_ballots(t) == inputs,
            inputs == approval_inputs(bs),
            forall|k: int| 0 <= k < bs.len() ==> ballot_fits(#[trigger] bs[k], VotingMethod::Approval, n as nat),
            forall|k: int|
                0 <= k < tot@.len() ==> approval_sum(inputs, (#[trigger] tot@[k]).0) > 0
                    && tot@[k].1 as int == approval_sum(inputs, tot@[k].0),
            forall|c: int| 0 <= c < n ==> (#[trigger] dense@[c] == 0 || dense@[c] == choice_total(bs, n as nat, c)),
            forall|k: int| 0 <= k < j ==> dense@[(#[trigger] tot@[k]).0 as int] == choice_total(bs, n as nat, tot@[k].0 as int),
        decreases tot.len() - j,
    {
        let (c, v) = tot[j];
        proof {
            lemma_approval_inputs(bs, n as nat, c);
            assert(approval_sum(inputs, tot@[j as int].0) > 0);
        }
        dense.set(c, v as i128);
        proof {
            assert forall|k: int| 0 <= k < j + 1 implies dense@[(#[trigger] tot@[k]).0 as int] == choice_total(bs, n as nat, tot@[k].0 as int) by {
                let ck = tot@[k].0;
                lemma_approval_inputs(bs, n as nat, ck);
            }
        }
        j = j + 1;
    }
    proof {
        assert forall|c: int| 0 <= c < n implies dense@[c] as int == choice_total(bs, n as nat, c) by {
            lemma_approval_inputs(bs, n as nat, c as usize);
            if approval_sum(inputs, c as usize) > 0 {
                let k = choose|k: int| 0 <= k < tot@.len() && (#[trigger] tot@[k]).0 == c as usize;
            }
        }
    }
    let won = approval_winners(&t);
    proof {
        assert forall|k: int| 0 <= k < won@.len() implies #[trigger] won@[k] < n by {
            assert(won@.contains(won@[k]));
            lemma_approval_inputs(bs, n as nat, won@[k]);
        }
    }
    if won.len() == 0 {
        let winners = winners_from_totals(&dense, ballots, n);
        return TallyResult { totals: dense, winners };
    }
    let winners = in_order(&won, n);
    proof {
        let w = won@[0];
        assert(won@.contains(w));
        lemma_approval_inputs(bs, n as nat, w);
        assert forall|c: int| 0 <= c < n implies #[trigger] won@.contains(c as usize) == is_winner(bs, n as nat, c) by {
            lemma_approval_inputs(bs, n as nat, c as usize);
            if won@.contains(c as usize) {
                assert forall|d: int| 0 <= d < n implies #[trigger] choice_total(bs, n as nat, d)
                    <= choice_total(bs, n as nat, c) by {
                    lemma_approval_inputs(bs, n as nat, d as usize);
                }
            }
            if is_winner(bs, n as nat, c) {
                assert(choice_total(bs, n as nat, w as int) <= choice_total(bs, n as nat, c));
                assert forall|d: usize| approval_sum(inputs, d) > 0 implies #[trigger] approval_sum(inputs, d) <= approval_sum(inputs, c as usize) by {
                    lemma_approval_inputs(bs, n as nat, d);
                }
            }
        }
        lemma_indices_agree(
            |c: int| won@.contains(c as usize),
            |c: int| is_winner(bs, n as nat, c),
            n as nat,
        );
    }
    TallyResult { totals: dense, winners }
}

fn score_results(ballots: &Vec<Ballot>, m: VotingMethod, n: usize) -> (r: TallyResult)
    requires
        m == VotingMethod::Score || m == VotingMethod::LimitedScore,
        forall|k: int| 0 <= k < ballots@.len() ==> ballot_fits(#[trigger] ballots@[k]@, m, n as nat),
    ensures
        r.totals@.len() == n,
        forall|c: int| 0 <= c < n ==> r.totals@[c] as int == choice_total(views(ballots@), n as nat, c),
        r.winners@ == result_winners(views(ballots@), n as nat),
{
    let ghost bs = views(ballots@);
    let mut t = score_new(1);
    let mut i: usize = 0;
    while i < ballots.len()
        invariant
            i <= ballots.len(),
            bs == views(ballots@),
            m == VotingMethod::Score || m == VotingMethod::LimitedScore,
            forall|k: int| 0 <= k < ballots@.len() ==> ballot_fits(#[trigger] ballots@[k]@, m, n as nat),
            score_ballots(t) == score_inputs(bs.take(i as int)),
            score_seats(t) == 1,
        decreases ballots.len() - i,
    {
        assert(ballot_fits(ballots@[i as int]@, m, n as nat));
        let ghost before = bs.take(i as int);
        assert forall|k: int| 0 <= k < before.len() implies ballot_fits(#[trigger] before[k], m, n as nat) by {
            assert(before[k] == ballots@[k]@);
        }
        match &ballots[i] {
            Ballot::Scores(s) => {
                let list = score_list(s);
                proof {
                    assert forall|c: usize|
                        #![trigger score_sum(score_ballots(t), c)]
                        -i128::MAX <= score_sum(score_ballots(t), c) <= i128::MAX
                        && (if score_sum(score_ballots(t), c) < 0 {
                            -score_sum(score_ballots(t), c)
                        } else {
                            score_sum(score_ballots(t), c)
                        }) + pair_magnitude(list@, c) <= i128::MAX by {
                        lemma_score_inputs(before, m, n as nat, c);
                        lemma_score_pairs(s@, s@.len(), c);
                        assert(i * SCORE_LIMIT <= 0xFFFF_FFFF_FFFF_FFFFu128 * 100000) by (nonlinear_arith)
                            requires i <= 0xFFFF_FFFF_FFFF_FFFFu128;
                    }
                    assert(score_inputs(bs.take(i + 1)) =~= score_inputs(before).push(list@));
                }
                score_add(&mut t, list);
            },
            _ => {
                proof {
                    assert(false);
                }
            },
        }
        i = i + 1;
    }
    proof {
        assert(bs.take(ballots@.len() as int) =~= bs);
        assert forall|k: int| 0 <= k < bs.len() implies ballot_fits(#[trigger] bs[k], m, n as nat) by {
            assert(bs[k] == ballots@[k]@);
        }
    }
    let ghost inputs = score_inputs(bs);
    let tot = score_totals(&t);
    let mut dense = zeros(n);
    let mut j: usize = 0;
    while j < tot.len()
        invariant
            j <= tot.len(),
            dense@.len() == n,
            m == VotingMethod::Score || m == VotingMethod::LimitedScore,
            score_ballots(t) == inputs,
            inputs == score_inputs(bs),
            forall|k: int| 0 <= k < bs.len() ==> ballot_fits(#[trigger] bs[k], m, n as nat),
            forall|k: int|
                0 <= k < tot@.len() ==> score_keys(inputs, (#[trigger] tot@[k]).0) > 0
                    && tot@[k].1 as int == score_sum(inputs, tot@[k].0),
            bs.len() == 0 ==> forall|c: int| 0 <= c < n ==> #[trigger] dense@[c] == 0,
            forall|k: int| 0 <= k < j ==> dense@[(#[trigger] tot@[k]).0 as int] == choice_total(bs, n as nat, tot@[k].0 as int),
            forall|c: int| 0 <= c < n ==> (#[trigger] dense@[c] == 0 || dense@[c] == choice_total(bs, n as nat, c)),
        decreases tot.len() - j,
    {
        let (c, v) = tot[j];
        proof {
            lemma_score_inputs(bs, m, n as nat, c);
        }
        dense.set(c, v);
        proof {
            assert forall|k: int| 0 <= k < j + 1 implies dense@[(#[trigger] tot@[k]).0 as int] == choice_total(bs, n as nat, tot@[k].0 as int) by {
                lemma_score_inputs(bs, m, n as nat, tot@[k].0);
            }
        }
        j = j + 1;
    }
    proof {
        assert forall|c: int| 0 <= c < n implies dense@[c] as int == choice_total(bs, n as nat, c) by {
            lemma_score_inputs(bs, m, n as nat, c as usize);
            if bs.len() > 0 {
                assert(score_keys(inputs, c as usize) > 0);
                let k = choose|k: int| 0 <= k < tot@.len() && (#[trigger] tot@[k]).0 == c as usize;
            } else {
                assert(choice_total(bs, n as nat, c) == 0);
            }
        }
    }
    let won = score_winners(&t);
    proof {
        assert forall|k: int| 0 <= k < won@.len() implies #[trigger] won@[k] < n by {
            assert(won@.contains(won@[k]));
            lemma_score_inputs(bs, m, n as nat, won@[k]);
        }
    }
    if won.len() == 0 {
        let winners = winners_from_totals(&dense, ballots, n);
        return TallyResult { totals: dense, winners };
    }
    let winners = in_order(&won, n);
    proof {
        let w = won@[0];
        assert(won@.contains(w));
        lemma_score_inputs(bs, m, n as nat, w);
        assert forall|c: int| 0 <= c < n implies #[trigger] won@.contains(c as usize) == is_winner(bs, n as nat, c) by {
            lemma_score_inputs(bs, m, n as nat, c as usize);
            if won@.contains(c as usize) {
                assert forall|d: int| 0 <= d < n implies #[trigger] choice_total(bs, n as nat, d)
                    <= choice_total(bs, n as nat, c) by {
                    lemma_score_inputs(bs, m, n as nat, d as usize);
                }
            }
            if is_winner(bs, n as nat, c) {
                assert forall|d: usize| #[trigger] score_keys(inputs, d) > 0 implies score_sum(inputs, d) <= score_sum(inputs, c as usize) by {
                    lemma_score_inputs(bs, m, n as nat, d);
                }
            }
        }
        lemma_indices_agree(
            |c: int| won@.contains(c as usize),
            |c: int| is_winner(bs, n as nat, c),
            n as nat,
        );
    }
    TallyResult { totals: dense, winners }
}

/// The Borda points that ranking `s` gives choice `c`.
fn borda_points(s: &Vec<Option<usize>>, c: usize) -> (r: u64)
    requires
        c < s@.len(),
    ensures
        r as int == s@.len() - 1 - before_count(s@, c as int, s@.len()),
        r < s@.len(),
{
    let rc: usize = match s[c] {
        Some(x) => x,
        None => 0,
    };
    let mut count: usize = 0;
    let mut j: usize = 0;
    while j < s.len()
        invariant
            j <= s.len(),
            c < s@.len(),
            rc as int == rank_at(s@, c as int),
            count as int == before_count(s@, c as int, j as nat),
            count <= if c < j {
                j - 1
            } else {
                j as int
            },
        decreases s.len() - j,
    {
        let rj: usize = match s[j] {
            Some(x) => x,
            None => 0,
        };
        if rj < rc || (rj == rc && j < c) {
            count = count + 1;
        }
        j = j + 1;
    }
    (s.len() - 1 - count) as u64
}

/// The choices whose total no other total exceeds, in increasing order.
fn top_choices(v: &Vec<i128>) -> (r: Vec<usize>)
    ensures
        r@ == indices_where(
            |c: int| forall|d: int| 0 <= d < v@.len() ==> #[trigger] v@[d] <= v@[c],
            v@.len(),
        ),
{
    let mut best: i128 = 0;
    let mut i: usize = 0;
    while i < v.len()
        invariant
            i <= v.len(),
            forall|d: int| 0 <= d < i ==> #[trigger] v@[d] <= best,
            i > 0 ==> exists|d: int| 0 <= d < i && v@[d] == best,
        decreases v.len() - i,
    {
        if i == 0 || v[i] > best {
            best = v[i];
        }
        i = i + 1;
    }
    let mut out: Vec<usize> = Vec::new();
    let mut c: usize = 0;
    let ghost p = |c: int| forall|d: int| 0 <= d < v@.len() ==> #[trigger] v@[d] <= v@[c];
    while c < v.len()
        invariant
            c <= v.len(),
            forall|d: int| 0 <= d < v@.len() ==> #[trigger] v@[d] <= best,
            v@.len() > 0 ==> exists|d: int| 0 <= d < v@.len() && v@[d] == best,
            p == (|c: int| forall|d: int| 0 <= d < v@.len() ==> #[trigger] v@[d] <= v@[c]),
            out@ == indices_where(p, c as nat),
        decreases v.len() - c,
    {
        proof {
            let w = choose|d: int| 0 <= d < v@.len() && v@[d] == best;
            if p(c as int) {
                assert(v@[w] <= v@[c as int]);
            }
        }
        if v[c] == best {
            out.push(c);
        }
        c = c + 1;
    }
    out
}

/// The choices with the highest of the totals `dense`, which are the totals of `ballots`.
fn winners_from_totals(dense: &Vec<i128>, ballots: &Vec<Ballot>, n: usize) -> (r: Vec<usize>)
    requires
        dense@.len() == n,
        forall|c: int| 0 <= c < n ==> dense@[c] as int == choice_total(views(ballots@), n as nat, c),
    ensures
        r@ == result_winners(views(ballots@), n as nat),
{
    let ghost bs = views(ballots@);
    let top = top_choices(dense);
    proof {
        assert forall|c: int| 0 <= c < n implies (forall|d: int| 0 <= d < dense@.len() ==> #[trigger] dense@[d] <= dense@[c]) == #[trigger] is_winner(bs, n as nat, c) by {
            if forall|d: int| 0 <= d < dense@.len() ==> #[trigger] dense@[d] <= dense@[c] {
                assert forall|d: int| 0 <= d < n implies #[trigger] choice_total(bs, n as nat, d)
                    <= choice_total(bs, n as nat, c) by {
                    assert(dense@[d] <= dense@[c]);
                }
            }
            if is_winner(bs, n as nat, c) {
                assert forall|d: int| 0 <= d < dense@.len() implies #[trigger] dense@[d] <= dense@[c] by {
                    assert(choice_total(bs, n as nat, d) <= choice_total(bs, n as nat, c));
                }
            }
        }
        lemma_indices_agree(
            |c: int| forall|d: int| 0 <= d < dense@.len() ==> #[trigger] dense@[d] <= dense@[c],
            |c: int| is_winner(bs, n as nat, c),
            n as nat,
        );
    }
    top
}

// tallystick offers its Borda count only behind its `nightly` feature, which a stable compiler
// cannot build, so Borda points are counted here.
fn borda_results(ballots: &Vec<Ballot>, n: usize) -> (r: TallyResult)
    requires
        n <= u32::MAX,
        forall|k: int| 0 <= k < ballots@.len() ==> ballot_fits(#[trigger] ballots@[k]@, VotingMethod::Borda, n as nat),
    ensures
        r.totals@.len() == n,
        forall|c: int| 0 <= c < n ==> r.totals@[c] as int == choice_total(views(ballots@), n as nat, c),
        r.winners@ == result_winners(views(ballots@), n as nat),
{
    let ghost bs = views(ballots@);
    let mut dense = zeros(n);
    let mut i: usize = 0;
    while i < ballots.len()
        invariant
            i <= ballots.len(),
            n <= u32::MAX,
            bs == views(ballots@),
            forall|k: int| 0 <= k < ballots@.len() ==> ballot_fits(#[trigger] ballots@[k]@, VotingMethod::Borda, n as nat),
            dense@.len() == n,
            forall|c: int| 0 <= c < n ==> #[trigger] dense@[c] as int == choice_total(bs.take(i as int), n as nat, c),
            forall|c: int| 0 <= c < n ==> 0 <= #[trigger] dense@[c] <= i * n,
        decreases ballots.len() - i,
    {
        assert(ballot_fits(ballots@[i as int]@, VotingMethod::Borda, n as nat));
        proof {
            assert(bs.take(i + 1).drop_last() =~= bs.take(i as int));
            assert(bs.take(i + 1).last() == ballots@[i as int]@);
            assert(i * n <= 0xFFFF_FFFF_FFFF_FFFFu128 * 0xFFFF_FFFFu128) by (nonlinear_arith)
                requires i <= 0xFFFF_FFFF_FFFF_FFFFu128, n <= 0xFFFF_FFFFu128;
            assert((i + 1) * n == i * n + n) by (nonlinear_arith);
        }
        match &ballots[i] {
            Ballot::Ranking(s) => {
                let mut c: usize = 0;
                while c < n
                    invariant
                        c <= n,
                        s@.len() == n,
                        n <= u32::MAX,
                        dense@.len() == n,
                        i * n <= 0xFFFF_FFFF_FFFF_FFFFu128 * 0xFFFF_FFFFu128,
                        (i + 1) * n == i * n + n,
                        bs.len() == ballots@.len(),
                        i < ballots@.len(),
                        bs.take(i + 1).drop_last() == bs.take(i as int),
                        bs.take(i + 1).last() == BallotView::Ranking(s@),
                        forall|d: int| 0 <= d < c ==> #[trigger] dense@[d] as int == choice_total(bs.take(i + 1), n as nat, d),
                        forall|d: int| c <= d < n ==> #[trigger] dense@[d] as int == choice_total(bs.take(i as int), n as nat, d),
                        forall|d: int| 0 <= d < c ==> 0 <= #[trigger] dense@[d] <= (i + 1) * n,
                        forall|d: int| c <= d < n ==> 0 <= #[trigger] dense@[d] <= i * n,
                    decreases n - c,
                {
                    let p = borda_points(s, c);
                    let cur = dense[c];
                    proof {
                        assert(choice_total(bs.take(i + 1), n as nat, c as int) == choice_total(
                            bs.take(i as int),
                            n as nat,
                            c as int,
                        ) + p);
                    }
                    dense.set(c, cur + p as i128);
                    c = c + 1;
                }
            },
            _ => {
                proof {
                    assert(false);
                }
            },
        }
        i = i + 1;
    }
    proof {
        assert(bs.take(ballots@.len() as int) =~= bs);
    }
    let winners = winners_from_totals(&dense, ballots, n);
    TallyResult { totals: dense, winners }
}

/// `r` holds each choice's total over the ballots `bs`, and the choices with the highest total.
pub open spec fn is_result_of(r: TallyResult, bs: Seq<BallotView>, n: nat) -> bool {
    &&& r.totals@.len() == n
    &&& forall|c: int| 0 <= c < n ==> r.totals@[c] as int == #[trigger] choice_total(bs, n, c)
    &&& r.winners@ == result_winners(bs, n)
}

/// Counts the submitted ballots under method `m`: approvals, scores or Borda points per choice,
/// and the choices with the highest total; when all totals are equal, every choice wins.
pub fn compute_results(m: VotingMethod, ballots: &Vec<Ballot>, n: usize) -> (r: TallyResult)
    requires
        m == VotingMethod::Borda ==> n <= u32::MAX,
        forall|k: int| 0 <= k < ballots@.len() ==> ballot_fits(#[trigger] ballots@[k]@, m, n as nat),
    ensures
        is_result_of(r, views(ballots@), n as nat),
{
    match m {
        VotingMethod::Approval => approval_results(ballots, n),
        VotingMethod::Score | VotingMethod::LimitedScore => score_results(ballots, m, n),
        VotingMethod::Borda => borda_results(ballots, n),
    }
}

/// Counting the same ballots twice gives the same totals and the same winners.
pub proof fn lemma_results_deterministic(
    bs: Seq<BallotView>,
    n: nat,
    r1: TallyResult,
    r2: TallyResult,
)
    requires
        is_result_of(r1, bs, n),
        is_result_of(r2, bs, n),
    ensures
        r1.totals@ == r2.totals@,
        r1.winners@ == r2.winners@,
{
    assert forall|c: int| 0 <= c < n implies r1.totals@[c] == r2.totals@[c] by {
        assert(r1.totals@[c] as int == choice_total(bs, n, c));
        assert(r2.totals@[c] as int == choice_total(bs, n, c));
    }
    assert(r1.totals@ =~= r2.totals@);
}

} // verus!
