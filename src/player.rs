use vstd::prelude::*;

verus! {

/// What a player chose in a betting round.
#[derive(Clone, Copy, Debug, PartialEq, Eq, Structural)]
pub enum DecisionType {
    Fold,
    Check,
    Call,
    Pending,
}

impl Default for DecisionType {
    /// A decision not taken yet.
    fn default() -> (d: Self)
        ensures
            d == DecisionType::Pending,
    {
        DecisionType::Pending
    }
}

impl DecisionType {
    /// The display name of the decision.
    pub fn name(&self) -> (s: &'static str)
        ensures
            s@ == decision_name(*self),
    {
        proof {
            reveal_strlit("Fold");
            reveal_strlit("Check");
            reveal_strlit("Call");
            reveal_strlit("Pending");
        }
        match self {
            DecisionType::Fold => "Fold",
            DecisionType::Check => "Check",
            DecisionType::Call => "Call",
            DecisionType::Pending => "Pending",
        }
    }
}

pub open spec fn decision_name(d: DecisionType) -> Seq<char> {
    match d {
        DecisionType::Fold => "Fold"@,
        DecisionType::Check => "Check"@,
        DecisionType::Call => "Call"@,
        DecisionType::Pending => "Pending"@,
    }
}

} // verus!
