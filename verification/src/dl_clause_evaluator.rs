use vstd::prelude::*;
use crate::blocking_strategy::BlockingStrategyType;

verus! {

/// How the core flag of a derived unary head fact is computed: every variable
/// core (`AllTrue`), no variable core (`SimpleCore`), or per clause
/// (`ComplexCore`).
#[derive(Clone, Copy, Debug, PartialEq, Eq, Structural, Hash)]
pub enum CoreVariablePolicy {
    AllTrue,
    SimpleCore,
    ComplexCore,
}

/// The policy that a blocking strategy type drives: the two validated (core)
/// strategies keep their own policy, all others mark every variable core.
pub open spec fn policy_for(strategy: BlockingStrategyType) -> CoreVariablePolicy {
    match strategy {
        BlockingStrategyType::SimpleCore => CoreVariablePolicy::SimpleCore,
        BlockingStrategyType::ComplexCore => CoreVariablePolicy::ComplexCore,
        _ => CoreVariablePolicy::AllTrue,
    }
}

impl CoreVariablePolicy {
    pub fn from_blocking_strategy_type(strategy: BlockingStrategyType) -> (r: CoreVariablePolicy)
        ensures
            r == policy_for(strategy),
    {
        match strategy {
            BlockingStrategyType::SimpleCore => CoreVariablePolicy::SimpleCore,
            BlockingStrategyType::ComplexCore => CoreVariablePolicy::ComplexCore,
            BlockingStrategyType::Optimal
            | BlockingStrategyType::Anywhere
            | BlockingStrategyType::Ancestor => CoreVariablePolicy::AllTrue,
        }
    }
}

} // verus!
