use vstd::prelude::*;
use crate::method::{VotingMethod, SCORE_LIMIT};

verus! {

/// One participant's choices, with one entry per choice of the session.
#[derive(Debug, Clone, PartialEq, Eq)]
pub enum Ballot {
    /// Approval: whether each choice is selected.
    Selection(Vec<bool>),
    /// Score and limited score: each choice's score in ten-thousandths, if set.
    Scores(Vec<Option<i64>>),
    /// Borda: each choice's rank, if set.
    Ranking(Vec<Option<usize>>),
}

pub enum BallotView {
    Selection(Seq<bool>),
    Scores(Seq<Option<i64>>),
    Ranking(Seq<Option<usize>>),
}

impl View for Ballot {
    type V = BallotView;

    open spec fn view(&self) -> BallotView {
        match self {
            Ballot::Selection(v) => BallotView::Selection(v@),
            Ballot::Scores(v) => BallotView::Scores(v@),
            Ballot::Ranking(v) => BallotView::Ranking(v@),
        }
    }
}

/// What a choice shows on a participant's private view.
#[derive(PartialEq, Eq, Structural, Debug, Clone, Copy)]
pub enum ChoiceMark {
    Selected(bool),
    Score(i64),
    Rank(usize),
}

/// The ballot has the shape that method `m` asks for, over `n` choices, with values in range.
pub open spec fn ballot_fits(b: BallotView, m: VotingMethod, n: nat) -> bool {
    match b {
        BallotView::Selection(s) => m == VotingMethod::Approval && s.len() == n,
        BallotView::Scores(s) => (m == VotingMethod::Score || m == VotingMethod::LimitedScore)
            && s.len() == n && forall|i: int|
            0 <= i < n ==> (#[trigger] s[i] matches Some(v) ==> -SCORE_LIMIT <= v <= SCORE_LIMIT),
        BallotView::Ranking(s) => m == VotingMethod::Borda && s.len() == n && forall|i: int|
            0 <= i < n ==> (#[trigger] s[i] matches Some(r) ==> r <= n),
    }
}

pub open spec fn empty_ballot(m: VotingMethod, n: nat) -> BallotView {
    match m {
        VotingMethod::Approval => BallotView::Selection(Seq::new(n, |i: int| false)),
        VotingMethod::Score | VotingMethod::LimitedScore => BallotView::Scores(
            Seq::new(n, |i: int| None),
        ),
        VotingMethod::Borda => BallotView::Ranking(Seq::new(n, |i: int| None)),
    }
}

pub open spec fn toggled(b: BallotView, i: int) -> BallotView {
    match b {
        BallotView::Selection(s) => BallotView::Selection(s.update(i, !s[i])),
        _ => b,
    }
}

/// The rank after one press: one more than the current rank (which is `n` when unset),
/// back to 1 past `n`.
pub open spec fn next_rank(r: Option<usize>, n: nat) -> usize {
    match r {
        Some(x) => if x < n {
            (x + 1) as usize
        } else {
            1
        },
        None => 1,
    }
}

pub open spec fn rank_incremented(b: BallotView, i: int, n: nat) -> BallotView {
    match b {
        BallotView::Ranking(s) => BallotView::Ranking(s.update(i, Some(next_rank(s[i], n)))),
        _ => b,
    }
}

pub open spec fn score_set(b: BallotView, i: int, v: i64) -> BallotView {
    match b {
        BallotView::Scores(s) => BallotView::Scores(s.update(i, Some(v))),
        _ => b,
    }
}

/// The ballot with every unset choice given its default: 0 for a score, `n - 1` for a rank.
pub open spec fn finalized(b: BallotView, n: nat) -> BallotView {
    match b {
        BallotView::Selection(s) => BallotView::Selection(s),
        BallotView::Scores(s) => BallotView::Scores(
            Seq::new(
                s.len(),
                |i: int|
                    match s[i] {
                        Some(v) => Some(v),
                        None => Some(0i64),
                    },
            ),
        ),
        BallotView::Ranking(s) => BallotView::Ranking(
            Seq::new(
                s.len(),
                |i: int|
                    match s[i] {
                        Some(r) => Some(r),
                        None => Some(default_rank(n)),
                    },
            ),
        ),
    }
}

/// The rank an unset choice gets on submission: the second lowest, `n - 1`.
pub open spec fn default_rank(n: nat) -> usize {
    if n == 0 {
        0
    } else {
        (n - 1) as usize
    }
}

/// The sum of the magnitudes of the set scores.
pub open spec fn abs_total(s: Seq<Option<i64>>) -> int
    decreases s.len(),
{
    if s.len() == 0 {
        0
    } else {
        abs_total(s.drop_last()) + match s.last() {
            Some(v) => if v < 0 {
                -v
            } else {
                v as int
            },
            None => 0,
        }
    }
}

/// Whether the ballot may be submitted under method `m`.
pub open spec fn submission_valid(b: BallotView, m: VotingMethod) -> bool {
    match m {
        VotingMethod::LimitedScore => match b {
            BallotView::Scores(s) => abs_total(s) <= SCORE_LIMIT,
            _ => false,
        },
        VotingMethod::Borda => match b {
            BallotView::Ranking(s) => forall|i: int|
                0 <= i < s.len() ==> (#[trigger] s[i] matches Some(r) && r >= 1),
            _ => false,
        },
        _ => true,
    }
}

pub open spec fn mark_of(b: BallotView, i: int, n: nat) -> ChoiceMark {
    match b {
        BallotView::Selection(s) => ChoiceMark::Selected(s[i]),
        BallotView::Scores(s) => ChoiceMark::Score(
            match s[i] {
                Some(v) => v,
                None => 0,
            },
        ),
        BallotView::Ranking(s) => ChoiceMark::Rank(
            match s[i] {
                Some(r) => r,
                None => n as usize,
            },
        ),
    }
}

impl Ballot {
    /// The empty ballot of method `m` over `n` choices.
    pub fn new(m: VotingMethod, n: usize) -> (r: Ballot)
        ensures
            r@ == empty_ballot(m, n as nat),
            ballot_fits(r@, m, n as nat),
    {
        match m {
            VotingMethod::Approval => {
                let mut v: Vec<bool> = Vec::new();
                let mut i: usize = 0;
                while i < n
                    invariant
                        i <= n,
                        v@ == Seq::new(i as nat, |j: int| false),
                    decreases n - i,
                {
                    v.push(false);
                    i = i + 1;
                    proof {
                        assert(v@ =~= Seq::new(i as nat, |j: int| false));
                    }
                }
                Ballot::Selection(v)
            },
            VotingMethod::Score | VotingMethod::LimitedScore => {
                let mut v: Vec<Option<i64>> = Vec::new();
                let mut i: usize = 0;
                while i < n
                    invariant
                        i <= n,
                        v@ == Seq::new(i as nat, |j: int| None::<i64>),
                    decreases n - i,
                {
                    v.push(None);
                    i = i + 1;
                    proof {
                        assert(v@ =~= Seq::new(i as nat, |j: int| None::<i64>));
                    }
                }
                Ballot::Scores(v)
            },
            VotingMethod::Borda => {
                let mut v: Vec<Option<usize>> = Vec::new();
                let mut i: usize = 0;
                while i < n
                    invariant
                        i <= n,
                        v@ == Seq::new(i as nat, |j: int| None::<usize>),
                    decreases n - i,
                {
                    v.push(None);
                    i = i + 1;
                    proof {
                        assert(v@ =~= Seq::new(i as nat, |j: int| None::<usize>));
                    }
                }
                Ballot::Ranking(v)
            },
        }
    }

    /// Selects choice `i` if it is not selected, and unselects it if it is.
    pub fn toggle_selection(&mut self, i: usize)
        requires
            old(self)@ matches BallotView::Selection(s) && i < s.len(),
        ensures
            final(self)@ == toggled(old(self)@, i as int),
    {
        match self {
            Ballot::Selection(v) => {
                let cur = v[i];
                v.set(i, !cur);
            },
            _ => {},
        }
    }

    /// Moves choice `i` to the next rank out of `n`.
    pub fn increment_rank(&mut self, i: usize, n: usize)
        requires
            old(self)@ matches BallotView::Ranking(s) && i < s.len(),
        ensures
            final(self)@ == rank_incremented(old(self)@, i as int, n as nat),
    {
        match self {
            Ballot::Ranking(v) => {
                let next = match v[i] {
                    Some(x) => if x < n {
                        x + 1
                    } else {
                        1
                    },
                    None => 1,
                };
                v.set(i, Some(next));
            },
            _ => {},
        }
    }

    /// Gives choice `i` the score `value` (in ten-thousandths).
    pub fn set_score(&mut self, i: usize, value: i64)
        requires
            old(self)@ matches BallotView::Scores(s) && i < s.len(),
        ensures
            final(self)@ == score_set(old(self)@, i as int, value),
    {
        match self {
            Ballot::Scores(v) => {
                v.set(i, Some(value));
            },
            _ => {},
        }
    }

    /// This ballot with defaults filled in for every unset choice, as it is submitted.
    pub fn finalize(&self, n: usize) -> (r: Ballot)
        ensures
            r@ == finalized(self@, n as nat),
    {
        match self {
            Ballot::Selection(v) => Ballot::Selection(v.clone()),
            Ballot::Scores(v) => {
                let mut out: Vec<Option<i64>> = Vec::new();
                let mut i: usize = 0;
                while i < v.len()
                    invariant
                        i <= v.len(),
                        out@ =~= Seq::new(
                            i as nat,
                            |j: int|
                                match v@[j] {
                                    Some(x) => Some(x),
                                    None => Some(0i64),
                                },
                        ),
                    decreases v.len() - i,
                {
                    let x = match v[i] {
                        Some(x) => x,
                        None => 0,
                    };
                    out.push(Some(x));
                    i = i + 1;
                }
                Ballot::Scores(out)
            },
            Ballot::Ranking(v) => {
                let default: usize = if n > 0 {
                    n - 1
                } else {
                    0
                };
                let mut out: Vec<Option<usize>> = Vec::new();
                let mut i: usize = 0;
                while i < v.len()
                    invariant
                        i <= v.len(),
                        default == default_rank(n as nat),
                        out@ =~= Seq::new(
                            i as nat,
                            |j: int|
                                match v@[j] {
                                    Some(r) => Some(r),
                                    None => Some(default_rank(n as nat)),
                                },
                        ),
                    decreases v.len() - i,
                {
                    let r = match v[i] {
                        Some(r) => r,
                        None => default,
                    };
                    out.push(Some(r));
                    i = i + 1;
                }
                Ballot::Ranking(out)
            },
        }
    }

    /// Whether this ballot may be submitted under method `m`.
    pub fn are_valid(&self, m: VotingMethod, n: usize) -> (r: bool)
        requires
            ballot_fits(self@, m, n as nat),
        ensures
            r == submission_valid(self@, m),
    {
        match m {
            VotingMethod::LimitedScore => match self {
                Ballot::Scores(v) => {
                    let total = abs_score_total(v);
                    total <= SCORE_LIMIT as u128
                },
                _ => false,
            },
            VotingMethod::Borda => match self {
                Ballot::Ranking(v) => {
                    let mut i: usize = 0;
                    while i < v.len()
                        invariant
                            i <= v.len(),
                            self@ == BallotView::Ranking(v@),
                            m == VotingMethod::Borda,
                            forall|j: int| 0 <= j < i ==> (#[trigger] v@[j] matches Some(r) && r >= 1),
                        decreases v.len() - i,
                    {
                        let cur = v[i];
                        proof {
                            assert(cur == v@[i as int]);
                        }
                        match cur {
                            Some(r) => {
                                if r < 1 {
                                    return false;
                                }
                            },
                            None => {
                                return false;
                            },
                        }
                        i = i + 1;
                    }
                    true
                },
                _ => false,
            },
            _ => true,
        }
    }

    /// What choice `i` shows on the private view.
    pub fn mark(&self, i: usize, n: usize) -> (r: ChoiceMark)
        requires
            match self@ {
                BallotView::Selection(s) => i < s.len(),
                BallotView::Scores(s) => i < s.len(),
                BallotView::Ranking(s) => i < s.len(),
            },
        ensures
            r == mark_of(self@, i as int, n as nat),
    {
        match self {
            Ballot::Selection(v) => ChoiceMark::Selected(v[i]),
            Ballot::Scores(v) => ChoiceMark::Score(
                match v[i] {
                    Some(x) => x,
                    None => 0,
                },
            ),
            Ballot::Ranking(v) => ChoiceMark::Rank(
                match v[i] {
                    Some(r) => r,
                    None => n,
                },
            ),
        }
    }
}

/// A rank after `k` presses, starting from `r`.
pub open spec fn rank_after(r: Option<usize>, n: nat, k: nat) -> Option<usize>
    decreases k,
{
    if k == 0 {
        r
    } else {
        Some(next_rank(rank_after(r, n, (k - 1) as nat), n))
    }
}

/// The ballot after `k` presses on choice `i`.
pub open spec fn increments(b: BallotView, i: int, n: nat, k: nat) -> BallotView
    decreases k,
{
    if k == 0 {
        b
    } else {
        rank_incremented(increments(b, i, n, (k - 1) as nat), i, n)
    }
}

/// Toggling the same choice twice leaves a selection as it was.
pub proof fn lemma_double_toggle(b: BallotView, i: int)
    requires
        b matches BallotView::Selection(s) && 0 <= i < s.len(),
    ensures
        toggled(toggled(b, i), i) == b,
{
    if let BallotView::Selection(s) = b {
        assert(s.update(i, !s[i]).update(i, !s.update(i, !s[i])[i]) =~= s);
    }
}

/// Filling in defaults a second time changes nothing.
pub proof fn lemma_finalize_idempotent(b: BallotView, n: nat)
    ensures
        finalized(finalized(b, n), n) == finalized(b, n),
{
    match b {
        BallotView::Selection(s) => {},
        BallotView::Scores(s) => {
            if let BallotView::Scores(f) = finalized(b, n) {
                if let BallotView::Scores(g) = finalized(finalized(b, n), n) {
                    assert(g =~= f);
                }
            }
        },
        BallotView::Ranking(s) => {
            if let BallotView::Ranking(f) = finalized(b, n) {
                if let BallotView::Ranking(g) = finalized(finalized(b, n), n) {
                    assert(g =~= f);
                }
            }
        },
    }
}

proof fn lemma_increments_shape(b: BallotView, i: int, n: nat, k: nat)
    requires
        b matches BallotView::Ranking(s) && 0 <= i < s.len(),
    ensures
        b matches BallotView::Ranking(s) && increments(b, i, n, k) == BallotView::Ranking(
            s.update(i, rank_after(s[i], n, k)),
        ),
    decreases k,
{
    if let BallotView::Ranking(s) = b {
        if k == 0 {
            assert(s.update(i, s[i]) =~= s);
        } else {
            lemma_increments_shape(b, i, n, (k - 1) as nat);
            let prev = s.update(i, rank_after(s[i], n, (k - 1) as nat));
            assert(prev.update(i, Some(next_rank(prev[i], n))) =~= s.update(
                i,
                rank_after(s[i], n, k),
            ));
        }
    }
}

proof fn lemma_rank_after_split(r: Option<usize>, n: nat, a: nat, c: nat)
    ensures
        rank_after(r, n, a + c) == rank_after(rank_after(r, n, a), n, c),
    decreases c,
{
    if c > 0 {
        lemma_rank_after_split(r, n, a, (c - 1) as nat);
        assert((a + c - 1) as nat == a + (c - 1) as nat);
    }
}

proof fn lemma_rank_climbs(x: nat, n: nat, j: nat)
    requires
        1 <= x,
        x + j <= n,
        n <= usize::MAX,
    ensures
        rank_after(Some(x as usize), n, j) == Some((x + j) as usize),
    decreases j,
{
    if j > 0 {
        lemma_rank_climbs(x, n, (j - 1) as nat);
    }
}

/// With `n` choices, a rank comes back to where it was after `n` more presses.
pub proof fn lemma_rank_cycle(b: BallotView, i: int, n: nat)
    requires
        b matches BallotView::Ranking(s) && 0 <= i < s.len(),
        n <= usize::MAX,
    ensures
        increments(b, i, n, n + 1) == increments(b, i, n, 1),
{
    if let BallotView::Ranking(s) = b {
        lemma_increments_shape(b, i, n, n + 1);
        lemma_increments_shape(b, i, n, 1);
        lemma_rank_after_split(s[i], n, 1, n);
        let first = rank_after(s[i], n, 1);
        reveal_with_fuel(rank_after, 2);
        assert(first == Some(next_rank(s[i], n)));
        assert(rank_after(s[i], n, n + 1) == rank_after(first, n, n));
        if n >= 1 {
            let y = next_rank(s[i], n);
            assert(1 <= y <= n);
            // up to n, then around to 1, then up to y again
            lemma_rank_after_split(first, n, (n - y) as nat, (y as nat));
            assert((n - y) as nat + (y as nat) == n);
            lemma_rank_climbs(y as nat, n, (n - y) as nat);
            assert(rank_after(first, n, (n - y) as nat) == Some(n as usize));
            lemma_rank_after_split(Some(n as usize), n, 1, (y - 1) as nat);
            assert(1 + (y - 1) as nat == y as nat);
            assert(rank_after(Some(n as usize), n, 1) == Some(1usize));
            lemma_rank_climbs(1, n, (y - 1) as nat);
            assert(rank_after(first, n, n) == first);
        }
    }
}

fn abs_score_total(v: &Vec<Option<i64>>) -> (r: u128)
    requires
        forall|i: int|
            0 <= i < v@.len() ==> (#[trigger] v@[i] matches Some(x) ==> -SCORE_LIMIT <= x
                <= SCORE_LIMIT),
    ensures
        r as int == abs_total(v@),
{
    let mut acc: u128 = 0;
    let mut i: usize = 0;
    while i < v.len()
        invariant
            i <= v.len(),
            forall|j: int|
                0 <= j < v@.len() ==> (#[trigger] v@[j] matches Some(x) ==> -SCORE_LIMIT <= x
                    <= SCORE_LIMIT),
            acc as int == abs_total(v@.take(i as int)),
            acc <= i * (SCORE_LIMIT as u128),
        decreases v.len() - i,
    {
        let a: u128 = match v[i] {
            Some(x) => if x < 0 {
                (-x) as u128
            } else {
                x as u128
            },
            None => 0,
        };
        proof {
            assert(v@.take(i + 1).drop_last() =~= v@.take(i as int));
            assert(v@.take(i + 1).last() == v@[i as int]);
            assert((i + 1) * (SCORE_LIMIT as u128) == i * (SCORE_LIMIT as u128) + SCORE_LIMIT)
                by (nonlinear_arith);
            assert(i * (SCORE_LIMIT as u128) <= 0xFFFF_FFFF_FFFF_FFFFu128 * 100000) by (nonlinear_arith)
                requires i <= 0xFFFF_FFFF_FFFF_FFFFu128;
        }
        acc = acc + a;
        i = i + 1;
    }
    proof {
        assert(v@.take(v@.len() as int) =~= v@);
    }
    acc
}

} // verus!
