use vstd::prelude::*;

verus! {

/// Scores are held as whole numbers of ten-thousandths of a point.
pub const SCORE_SCALE: i64 = 10000;

/// The largest magnitude of one score (10.0 points), in ten-thousandths.
pub const SCORE_LIMIT: i64 = 100000;

/// How a session's ballots are shaped, checked and counted.
#[derive(PartialEq, Eq, Structural, Debug, Clone, Copy)]
pub enum VotingMethod {
    Approval,
    Score,
    LimitedScore,
    Borda,
}

pub open spec fn method_name(m: VotingMethod) -> Seq<char> {
    match m {
        VotingMethod::Approval => "Approval"@,
        VotingMethod::Score => "Score"@,
        VotingMethod::LimitedScore => "Limited Score"@,
        VotingMethod::Borda => "Borda"@,
    }
}

pub open spec fn method_value_name(m: VotingMethod) -> Seq<char> {
    match m {
        VotingMethod::Approval => "choice"@,
        VotingMethod::Score => "score (-10.0 to 10.0)"@,
        VotingMethod::LimitedScore => "score where sum(abs(scores)) <= 10.0"@,
        VotingMethod::Borda => "rank (1 is 1st choice, 2 second, ...)"@,
    }
}

/// Whether `v` (in ten-thousandths) may be entered for one choice out of `n`.
pub open spec fn valid_value(m: VotingMethod, v: int, n: int) -> bool {
    match m {
        VotingMethod::Approval => true,
        VotingMethod::Score | VotingMethod::LimitedScore => -SCORE_LIMIT <= v <= SCORE_LIMIT,
        VotingMethod::Borda => v % (SCORE_SCALE as int) == 0 && 0 < v && v <= n * SCORE_SCALE,
    }
}

impl VotingMethod {
    /// The name shown for the method.
    pub fn to_string(&self) -> (r: String)
        ensures
            r@ == method_name(*self),
    {
        match self {
            VotingMethod::Approval => "Approval".to_string(),
            VotingMethod::Score => "Score".to_string(),
            VotingMethod::LimitedScore => "Limited Score".to_string(),
            VotingMethod::Borda => "Borda".to_string(),
        }
    }

    /// The method whose name is `s`, if any.
    pub fn from_string(s: &str) -> (r: Option<VotingMethod>)
        ensures
            r matches Some(m) ==> method_name(m) == s@,
            r is None ==> forall|m: VotingMethod| method_name(m) != s@,
    {
        let t = s.to_string();
        let all = VotingMethod::get_all();
        let mut i: usize = 0;
        while i < all.len()
            invariant
                t@ == s@,
                all@ == all_methods(),
                i <= all.len(),
                forall|j: int| 0 <= j < i ==> method_name(all@[j]) != s@,
            decreases all.len() - i,
        {
            let name = all[i].to_string();
            if name == t {
                return Some(all[i]);
            }
            i = i + 1;
        }
        proof {
            assert forall|m: VotingMethod| method_name(m) != s@ by {
                lemma_all_methods_complete(m);
            }
        }
        None
    }

    /// What one value of a ballot under this method stands for.
    pub fn value_name(&self) -> (r: String)
        ensures
            r@ == method_value_name(*self),
    {
        match self {
            VotingMethod::Approval => "choice".to_string(),
            VotingMethod::Score => "score (-10.0 to 10.0)".to_string(),
            VotingMethod::LimitedScore => "score where sum(abs(scores)) <= 10.0".to_string(),
            VotingMethod::Borda => "rank (1 is 1st choice, 2 second, ...)".to_string(),
        }
    }

    /// Whether `v` (in ten-thousandths) is a value this method accepts for one of `n` choices.
    pub fn is_valid_value(&self, v: i64, n: usize) -> (r: bool)
        ensures
            r == valid_value(*self, v as int, n as int),
    {
        match self {
            VotingMethod::Approval => true,
            VotingMethod::Score | VotingMethod::LimitedScore => -SCORE_LIMIT <= v && v <= SCORE_LIMIT,
            VotingMethod::Borda => {
                if v <= 0 || v % SCORE_SCALE != 0 {
                    false
                } else {
                    let whole = (v / SCORE_SCALE) as u64;
                    proof {
                        assert(v == (v / SCORE_SCALE) * SCORE_SCALE);
                    }
                    whole <= n as u64
                }
            },
        }
    }

    /// Every method, in the order they are offered.
    pub fn get_all() -> (r: Vec<VotingMethod>)
        ensures
            r@ == all_methods(),
    {
        vec![
            VotingMethod::Approval,
            VotingMethod::Score,
            VotingMethod::LimitedScore,
            VotingMethod::Borda,
        ]
    }
}

pub open spec fn all_methods() -> Seq<VotingMethod> {
    seq![
        VotingMethod::Approval,
        VotingMethod::Score,
        VotingMethod::LimitedScore,
        VotingMethod::Borda,
    ]
}

pub proof fn lemma_all_methods_complete(m: VotingMethod)
    ensures
        all_methods().contains(m),
{
    match m {
        VotingMethod::Approval => assert(all_methods()[0] == m),
        VotingMethod::Score => assert(all_methods()[1] == m),
        VotingMethod::LimitedScore => assert(all_methods()[2] == m),
        VotingMethod::Borda => assert(all_methods()[3] == m),
    }
}

} // verus!
